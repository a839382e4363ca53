//! OAuth2 (PKCE) login bookkeeping for an OpenStreetMap server: the token
//! store, token expiry, refresh, and the pure parts of the login flow.

use vstd::prelude::*;

use crate::settings::{table_get, table_lookup, table_view, AppSettings};
use crate::http::{pairs_view, HttpClient, HttpError, HttpRequest, HttpResponse, Method, Body};
use crate::json::{as_i64, as_str, as_u64, get_key, i64_at, subtree, json_document, parse_json, str_at, u64_at, JsonStep, JsonTree};
use crate::text::{after_first, append_str, before_first, chars_of, decimal, find_char, first_line, push_char, push_decimal, push_first_line, split_on, str_eq, string_from_chars, trim_end};
use vstd::string::{StringExecFns, StringSliceAdditionalSpecFns};
use vstd::utf8::{decode_utf8, valid_utf8};
use rand::RngCore;
use sha2::Digest;

verus! {

/// The API base URL of the primary OpenStreetMap server.
pub const PRIMARY_API_URL: &'static str = "https://api.openstreetmap.org";

/// Client id used when no per-server override is configured.
pub const DEFAULT_CLIENT_ID: &'static str = "8cdZSV_ejt5jaqy4MYOMFrlOQgsR56PpIVI3RK0knf4";

/// OAuth scopes requested at login.
pub const SCOPES: &'static str = "read_prefs write_api";

/// Path of the loopback redirect that receives the authorization code.
pub const CALLBACK_PATH: &'static str = "/callback";

#[derive(Debug)]
pub enum AuthError {
    Network(String),
    Http { status: u16, body: String },
    Parse(String),
    NoRedirect,
    StateMismatch,
    NoConfigDir,
    /// The user (or the server) declined the authorization request.
    Denied { reason: String },
    /// A token was asked for a server with no stored login.
    NotLoggedIn,
    /// The stored token is expired and there is no refresh token to renew it.
    NoRefreshToken,
}

impl AuthError {
    /// The message shown to the user; for an HTTP error, the first line of
    /// the body.
    pub fn message(&self) -> (r: String)
        ensures
            r@ == match self {
                AuthError::Network(msg) => "Network error: "@ + msg@,
                AuthError::Http { status, body } => "OSM OAuth error "@ + decimal(*status as nat) + ": "@ + first_line(body@),
                AuthError::Parse(msg) => "Failed to parse OSM response: "@ + msg@,
                AuthError::NoRedirect => "Login timed out waiting for browser redirect"@,
                AuthError::StateMismatch => "Login failed (state mismatch)"@,
                AuthError::NoConfigDir => "No config directory available to store login"@,
                AuthError::Denied { reason } => "Sign in was not completed: "@ + reason@,
                AuthError::NotLoggedIn => "Not logged in"@,
                AuthError::NoRefreshToken => "Login expired and can't be refreshed; please sign in again"@,
            },
    {
        let mut out = String::new();
        match self {
            AuthError::Network(msg) => {
                append_str(&mut out, "Network error: ");
                append_str(&mut out, msg.as_str());
            },
            AuthError::Http { status, body } => {
                append_str(&mut out, "OSM OAuth error ");
                push_decimal(&mut out, *status as u64);
                append_str(&mut out, ": ");
                push_first_line(&mut out, body.as_str());
            },
            AuthError::Parse(msg) => {
                append_str(&mut out, "Failed to parse OSM response: ");
                append_str(&mut out, msg.as_str());
            },
            AuthError::NoRedirect => append_str(&mut out, "Login timed out waiting for browser redirect"),
            AuthError::StateMismatch => append_str(&mut out, "Login failed (state mismatch)"),
            AuthError::NoConfigDir => append_str(&mut out, "No config directory available to store login"),
            AuthError::Denied { reason } => {
                append_str(&mut out, "Sign in was not completed: ");
                append_str(&mut out, reason.as_str());
            },
            AuthError::NotLoggedIn => append_str(&mut out, "Not logged in"),
            AuthError::NoRefreshToken => append_str(&mut out, "Login expired and can't be refreshed; please sign in again"),
        }
        out
    }
}

/// A login: the access token and what the server said about its owner.
#[derive(Debug, Clone)]
pub struct StoredToken {
    pub access_token: String,
    pub display_name: String,
    pub user_id: u64,
    pub refresh_token: Option<String>,
    /// Unix time (seconds) at which `access_token` expires, if known.
    pub expires_at: Option<i64>,
}

/// Abstract form of a `StoredToken`.
pub struct TokenView {
    pub access_token: Seq<char>,
    pub display_name: Seq<char>,
    pub user_id: u64,
    pub refresh_token: Option<Seq<char>>,
    pub expires_at: Option<i64>,
}

/// The view of an optional string.
pub open spec fn opt_view(o: Option<String>) -> Option<Seq<char>> {
    match o {
        Some(s) => Some(s@),
        None => None,
    }
}

impl View for StoredToken {
    type V = TokenView;

    open spec fn view(&self) -> TokenView {
        TokenView {
            access_token: self.access_token@,
            display_name: self.display_name@,
            user_id: self.user_id,
            refresh_token: opt_view(self.refresh_token),
            expires_at: self.expires_at,
        }
    }
}

/// A copy of an optional string.
pub fn copy_opt(o: &Option<String>) -> (r: Option<String>)
    ensures
        opt_view(r) == opt_view(*o),
{
    match o {
        Some(s) => Some(s.clone()),
        None => None,
    }
}

/// A copy of a token.
pub fn copy_token(t: &StoredToken) -> (r: StoredToken)
    ensures
        r@ == t@,
{
    StoredToken {
        access_token: t.access_token.clone(),
        display_name: t.display_name.clone(),
        user_id: t.user_id,
        refresh_token: copy_opt(&t.refresh_token),
        expires_at: t.expires_at,
    }
}

/// Whether a token with this expiry is expired at Unix time `now`; a token
/// with no known expiry never expires.
pub open spec fn expired_at(expires_at: Option<i64>, now: i64) -> bool {
    match expires_at {
        Some(exp) => now >= exp,
        None => false,
    }
}

/// The current Unix time, as `std::time::SystemTime::now()`.
#[verifier::external_body]
fn system_now() -> std::time::SystemTime {
    std::time::SystemTime::now()
}

#[verifier::external_type_specification]
#[verifier::external_body]
pub struct ExSystemTime(std::time::SystemTime);

/// The time from the Unix epoch to `t`
/// (`SystemTime::duration_since(UNIX_EPOCH)`), `None` if `t` is earlier.
#[verifier::external_body]
fn since_unix_epoch(t: std::time::SystemTime) -> Option<std::time::Duration> {
    t.duration_since(std::time::UNIX_EPOCH).ok()
}

/// The whole seconds of a duration (`Duration::as_secs`).
#[verifier::external_body]
fn whole_seconds(d: std::time::Duration) -> u64 {
    d.as_secs()
}

/// A clock reading as Unix seconds: the whole seconds since the epoch,
/// as `i64` (`as`-converted), or 0 when the clock was before the epoch.
pub open spec fn unix_seconds_of(secs: Option<u64>) -> i64 {
    match secs {
        Some(s) => s as i64,
        None => 0,
    }
}

/// Converts a reading of whole seconds since the epoch (none when the
/// clock was before it) to Unix seconds.
pub fn unix_seconds(secs: Option<u64>) -> (r: i64)
    ensures
        r == unix_seconds_of(secs),
{
    match secs {
        Some(s) => s as i64,
        None => 0,
    }
}

/// The current Unix time in seconds (0 if the clock is before the epoch).
pub fn now_unix() -> (r: i64)
    ensures
        exists|secs: Option<u64>| r == #[trigger] unix_seconds_of(secs),
{
    let secs = match since_unix_epoch(system_now()) {
        Some(d) => Some(whole_seconds(d)),
        None => None,
    };
    let r = unix_seconds(secs);
    assert(r == unix_seconds_of(secs));
    r
}

impl StoredToken {
    /// Whether `access_token` is past its known expiry at Unix time `now`.
    pub fn is_expired_at(&self, now: i64) -> (r: bool)
        ensures
            r == expired_at(self.expires_at, now),
    {
        match self.expires_at {
            Some(exp) => now >= exp,
            None => false,
        }
    }

    /// Whether `access_token` is past its known expiry now. Tokens with no
    /// known expiry are treated as never expiring.
    pub fn is_expired(&self) -> (r: bool)
        ensures
            self.expires_at is None ==> !r,
            r ==> self.expires_at is Some,
            exists|now: i64| r == #[trigger] expired_at(self.expires_at, now),
    {
        self.is_expired_at(now_unix())
    }
}

pub struct LoginResult {
    pub oauth_base_url: String,
    pub token: StoredToken,
}

/// A token's secrets, as kept in the platform keyring.
#[derive(Debug, Clone)]
pub struct TokenSecret {
    pub access_token: String,
    pub refresh_token: Option<String>,
}

/// Logins keyed by OAuth base URL, together with the URLs whose secrets
/// still have to be read from the platform keyring.
#[derive(Debug, Clone)]
pub struct TokenStore {
    tokens: Vec<(String, StoredToken)>,
    pending_keyring: Vec<String>,
}

/// The map that a list of (URL, token) entries stands for: a later entry
/// for a URL replaces an earlier one.
pub open spec fn token_map(entries: Seq<(String, StoredToken)>) -> Map<Seq<char>, TokenView>
    decreases entries.len(),
{
    if entries.len() == 0 {
        Map::empty()
    } else {
        token_map(entries.drop_last()).insert(entries.last().0@, entries.last().1@)
    }
}

/// The set of views of a list of strings.
pub open spec fn string_set(v: Seq<String>) -> Set<Seq<char>> {
    Set::new(|s: Seq<char>| exists|i: int| 0 <= i < v.len() && (#[trigger] v[i])@ == s)
}

impl TokenStore {
    /// The logins, by OAuth base URL.
    pub closed spec fn tokens(&self) -> Map<Seq<char>, TokenView> {
        token_map(self.tokens@)
    }

    /// OAuth base URLs whose secrets have not been read from the keyring yet.
    pub closed spec fn pending(&self) -> Set<Seq<char>> {
        string_set(self.pending_keyring@)
    }

    /// An empty store.
    pub fn new() -> (s: Self)
        ensures
            s.tokens() == Map::<Seq<char>, TokenView>::empty(),
            s.pending() == Set::<Seq<char>>::empty(),
    {
        let s = TokenStore { tokens: Vec::new(), pending_keyring: Vec::new() };
        assert(s.pending() =~= Set::<Seq<char>>::empty());
        s
    }
}

impl Default for TokenStore {
    fn default() -> (s: Self)
        ensures
            s.tokens() == Map::<Seq<char>, TokenView>::empty(),
            s.pending() == Set::<Seq<char>>::empty(),
    {
        TokenStore::new()
    }
}


/// Copies of the entries whose URL is not `key`, in order.
fn without_key(entries: &Vec<(String, StoredToken)>, key: &str) -> (out: Vec<(String, StoredToken)>)
    ensures
        token_map(out@) == token_map(entries@).remove(key@),
{
    let mut out: Vec<(String, StoredToken)> = Vec::new();
    let mut i: usize = 0;
    assert(token_map(entries@.take(0)) =~= Map::<Seq<char>, TokenView>::empty());
    while i < entries.len()
        invariant
            i <= entries.len(),
            token_map(out@) =~= token_map(entries@.take(i as int)).remove(key@),
        decreases entries.len() - i,
    {
        let ghost prev = token_map(entries@.take(i as int));
        assert(entries@.take(i + 1).drop_last() =~= entries@.take(i as int));
        assert(token_map(entries@.take(i + 1)) == prev.insert(entries@[i as int].0@, entries@[i as int].1@));
        if !str_eq(entries[i].0.as_str(), key) {
            let e = (entries[i].0.clone(), copy_token(&entries[i].1));
            let ghost before = out@;
            out.push(e);
            assert(out@.drop_last() =~= before);
        }
        i = i + 1;
    }
    assert(entries@.take(entries.len() as int) =~= entries@);
    out
}

/// Copies of the strings of `v` other than `key`, in order.
fn without_string(v: &Vec<String>, key: &str) -> (out: Vec<String>)
    ensures
        string_set(out@) == string_set(v@).remove(key@),
{
    let mut out: Vec<String> = Vec::new();
    let mut i: usize = 0;
    while i < v.len()
        invariant
            i <= v.len(),
            forall|j: int| 0 <= j < out@.len() ==> (#[trigger] out@[j])@ != key@ && exists|k: int|
                0 <= k < i && v@[k]@ == out@[j]@,
            forall|k: int| 0 <= k < i && (#[trigger] v@[k])@ != key@ ==> exists|j: int|
                0 <= j < out@.len() && out@[j]@ == v@[k]@,
        decreases v.len() - i,
    {
        let ghost before = out@;
        if !str_eq(v[i].as_str(), key) {
            out.push(v[i].clone());
            assert(out@[out@.len() - 1]@ == v@[i as int]@);
        }
        assert forall|k: int| 0 <= k < i + 1 && (#[trigger] v@[k])@ != key@ implies exists|j: int|
            0 <= j < out@.len() && out@[j]@ == v@[k]@ by {
            if k < i {
                let j = choose|j: int| 0 <= j < before.len() && before[j]@ == v@[k]@;
                assert(out@[j] == before[j]);
            } else {
                assert(out@[out@.len() - 1]@ == v@[k]@);
            }
        }
        i = i + 1;
    }
    assert(string_set(out@) =~= string_set(v@).remove(key@)) by {
        assert forall|s: Seq<char>| string_set(v@).remove(key@).contains(s) implies string_set(out@).contains(s) by {
            let k = choose|k: int| 0 <= k < v@.len() && (#[trigger] v@[k])@ == s;
            let j = choose|j: int| 0 <= j < out@.len() && out@[j]@ == v@[k]@;
            assert(out@[j]@ == s);
        }
        assert forall|s: Seq<char>| string_set(out@).contains(s) implies string_set(v@).remove(key@).contains(s) by {
            let j = choose|j: int| 0 <= j < out@.len() && (#[trigger] out@[j])@ == s;
            let k = choose|k: int| 0 <= k < v@.len() && v@[k]@ == out@[j]@;
            assert(v@[k]@ == s);
        }
    }
    out
}

impl TokenStore {
    /// Stores `token` as the login for `oauth_base_url`, replacing any
    /// earlier one.
    pub fn set_token(&mut self, oauth_base_url: &str, token: StoredToken)
        ensures
            final(self).tokens() == old(self).tokens().insert(oauth_base_url@, token@),
            final(self).pending() == old(self).pending(),
    {
        let mut rest = without_key(&self.tokens, oauth_base_url);
        let ghost before = rest@;
        rest.push((oauth_base_url.to_owned(), token));
        assert(rest@.drop_last() =~= before);
        self.tokens = rest;
    }

    /// Removes the login for `oauth_base_url`, if any.
    pub fn logout(&mut self, oauth_base_url: &str)
        ensures
            final(self).tokens() == old(self).tokens().remove(oauth_base_url@),
            final(self).pending() == old(self).pending(),
    {
        self.tokens = without_key(&self.tokens, oauth_base_url);
    }

    /// Whether the secrets for `oauth_base_url` still have to be read from
    /// the platform keyring before its token can be used.
    pub fn needs_keyring_read(&self, oauth_base_url: &str) -> (r: bool)
        ensures
            r == self.pending().contains(oauth_base_url@),
    {
        let mut i: usize = 0;
        while i < self.pending_keyring.len()
            invariant
                i <= self.pending_keyring.len(),
                forall|j: int| 0 <= j < i ==> (#[trigger] self.pending_keyring@[j])@ != oauth_base_url@,
            decreases self.pending_keyring.len() - i,
        {
            if str_eq(self.pending_keyring[i].as_str(), oauth_base_url) {
                return true;
            }
            i = i + 1;
        }
        false
    }

    /// Marks `oauth_base_url` as needing a keyring read.
    fn add_pending(&mut self, oauth_base_url: &str)
        ensures
            final(self).pending() == old(self).pending().insert(oauth_base_url@),
            final(self).tokens() == old(self).tokens(),
    {
        self.pending_keyring.push(oauth_base_url.to_owned());
        assert(self.pending() =~= old(self).pending().insert(oauth_base_url@)) by {
            assert(self.pending_keyring@[self.pending_keyring@.len() - 1]@ == oauth_base_url@);
            assert forall|s: Seq<char>| old(self).pending().contains(s) implies self.pending().contains(s) by {
                let k = choose|k: int| 0 <= k < old(self).pending_keyring@.len() && (#[trigger] old(self).pending_keyring@[k])@ == s;
                assert(self.pending_keyring@[k] == old(self).pending_keyring@[k]);
            }
            assert forall|s: Seq<char>| self.pending().contains(s) && s != oauth_base_url@ implies old(self).pending().contains(s) by {
                let k = choose|k: int| 0 <= k < self.pending_keyring@.len() && (#[trigger] self.pending_keyring@[k])@ == s;
                assert(old(self).pending_keyring@[k] == self.pending_keyring@[k]);
            }
        }
    }

    /// Clears the keyring-read mark of `oauth_base_url`.
    fn remove_pending(&mut self, oauth_base_url: &str)
        ensures
            final(self).pending() == old(self).pending().remove(oauth_base_url@),
            final(self).tokens() == old(self).tokens(),
    {
        self.pending_keyring = without_string(&self.pending_keyring, oauth_base_url);
    }
}


/// The token for `key` in a list of entries (the last entry for it wins).
fn lookup_token(entries: &Vec<(String, StoredToken)>, key: &str) -> (r: Option<StoredToken>)
    ensures
        match r {
            Some(t) => token_map(entries@).contains_key(key@) && token_map(entries@)[key@] == t@,
            None => !token_map(entries@).contains_key(key@),
        },
{
    let mut i = entries.len();
    assert(entries@.take(entries.len() as int) =~= entries@);
    while i > 0
        invariant
            i <= entries.len(),
            token_map(entries@).contains_key(key@) == token_map(entries@.take(i as int)).contains_key(key@),
            token_map(entries@).contains_key(key@) ==> token_map(entries@)[key@] == token_map(entries@.take(i as int))[key@],
        decreases i,
    {
        assert(entries@.take(i as int).drop_last() =~= entries@.take(i - 1));
        if str_eq(entries[i - 1].0.as_str(), key) {
            return Some(copy_token(&entries[i - 1].1));
        }
        i = i - 1;
    }
    assert(token_map(entries@.take(0)) =~= Map::<Seq<char>, TokenView>::empty());
    None
}

/// `t` with its secrets replaced by `secret`'s.
pub open spec fn with_secret(t: TokenView, access_token: Seq<char>, refresh_token: Option<Seq<char>>) -> TokenView {
    TokenView { access_token, refresh_token, ..t }
}

/// The logins after a token request for `url` has consumed its pending
/// keyring read, given what the keyring held (`secret`): a found secret
/// fills in the token, a missing one drops the login.
pub open spec fn after_keyring_read(
    tokens: Map<Seq<char>, TokenView>,
    pending: Set<Seq<char>>,
    url: Seq<char>,
    secret: Option<(Seq<char>, Option<Seq<char>>)>,
) -> Map<Seq<char>, TokenView> {
    if !pending.contains(url) {
        tokens
    } else {
        match secret {
            Some((access, refresh)) => if tokens.contains_key(url) {
                tokens.insert(url, with_secret(tokens[url], access, refresh))
            } else {
                tokens
            },
            None => tokens.remove(url),
        }
    }
}

/// The view of an optional keyring secret.
pub open spec fn secret_view(s: Option<TokenSecret>) -> Option<(Seq<char>, Option<Seq<char>>)> {
    match s {
        Some(s) => Some((s.access_token@, opt_view(s.refresh_token))),
        None => None,
    }
}

impl TokenStore {
    /// The OAuth base URLs whose secrets still have to be read from the
    /// keyring.
    pub fn pending_urls(&self) -> (r: Vec<String>)
        ensures
            string_set(r@) == self.pending(),
    {
        let r = self.pending_keyring.clone();
        assert(r@ =~= self.pending_keyring@);
        r
    }

    /// The login for `oauth_base_url`, if any, without touching the
    /// keyring marks.
    pub fn get(&self, oauth_base_url: &str) -> (r: Option<StoredToken>)
        ensures
            match r {
                Some(t) => self.tokens().contains_key(oauth_base_url@) && self.tokens()[oauth_base_url@] == t@,
                None => !self.tokens().contains_key(oauth_base_url@),
            },
    {
        lookup_token(&self.tokens, oauth_base_url)
    }

    /// Copies of all logins, as (OAuth base URL, token) entries.
    pub fn entries(&self) -> (r: Vec<(String, StoredToken)>)
        ensures
            token_map(r@) == self.tokens(),
    {
        let mut out: Vec<(String, StoredToken)> = Vec::new();
        let mut i: usize = 0;
        assert(self.tokens@.take(0) =~= Seq::<(String, StoredToken)>::empty());
        while i < self.tokens.len()
            invariant
                i <= self.tokens.len(),
                token_map(out@) == token_map(self.tokens@.take(i as int)),
            decreases self.tokens.len() - i,
        {
            let ghost before = out@;
            out.push((self.tokens[i].0.clone(), copy_token(&self.tokens[i].1)));
            assert(out@.drop_last() =~= before);
            assert(self.tokens@.take(i + 1).drop_last() =~= self.tokens@.take(i as int));
            i = i + 1;
        }
        assert(self.tokens@.take(self.tokens.len() as int) =~= self.tokens@);
        out
    }
}

/// The stored token for `oauth_base_url`, if the user is logged in there.
///
/// When the URL's secrets still live only in the platform keyring, this
/// call consumes that pending read: `keyring_secret` is what the keyring
/// held for the URL (read by the caller only when
/// `TokenStore::needs_keyring_read` says so; ignored otherwise). A found
/// secret fills in the token; a missing one drops the stale login.
pub fn current_token(
    store: &mut TokenStore,
    oauth_base_url: &str,
    keyring_secret: Option<TokenSecret>,
) -> (r: Option<StoredToken>)
    ensures
        final(store).pending() == old(store).pending().remove(oauth_base_url@),
        final(store).tokens() == after_keyring_read(
            old(store).tokens(),
            old(store).pending(),
            oauth_base_url@,
            secret_view(keyring_secret),
        ),
        match r {
            Some(t) => final(store).tokens().contains_key(oauth_base_url@) && final(store).tokens()[oauth_base_url@] == t@,
            None => !final(store).tokens().contains_key(oauth_base_url@),
        },
{
    if store.needs_keyring_read(oauth_base_url) {
        store.remove_pending(oauth_base_url);
        match keyring_secret {
            Some(secret) => {
                match store.get(oauth_base_url) {
                    Some(existing) => {
                        let updated = StoredToken {
                            access_token: secret.access_token,
                            display_name: existing.display_name,
                            user_id: existing.user_id,
                            refresh_token: secret.refresh_token,
                            expires_at: existing.expires_at,
                        };
                        store.set_token(oauth_base_url, updated);
                    },
                    None => {},
                }
            },
            None => {
                store.logout(oauth_base_url);
            },
        }
    } else {
        assert(old(store).pending().remove(oauth_base_url@) =~= old(store).pending());
    }
    store.get(oauth_base_url)
}

/// Non-secret, on-disk bookkeeping for one login. The secrets are kept in
/// the `*_fallback` fields only when the platform keyring couldn't be used.
#[derive(Debug, Clone)]
pub struct PersistedToken {
    pub display_name: String,
    pub user_id: u64,
    pub expires_at: Option<i64>,
    pub access_token_fallback: Option<String>,
    pub refresh_token_fallback: Option<String>,
}

/// The on-disk bookkeeping of all logins, keyed by OAuth base URL.
#[derive(Debug, Clone)]
pub struct PersistedStore {
    pub tokens: Vec<(String, PersistedToken)>,
}

impl Default for PersistedStore {
    fn default() -> (s: Self)
        ensures
            s.tokens@.len() == 0,
    {
        PersistedStore { tokens: Vec::new() }
    }
}

/// The token a persisted entry is loaded as: its fallback secrets if it
/// has them, else empty placeholders awaiting the keyring.
pub open spec fn loaded_token(p: PersistedToken) -> TokenView {
    TokenView {
        access_token: match p.access_token_fallback {
            Some(a) => a@,
            None => Seq::empty(),
        },
        display_name: p.display_name@,
        user_id: p.user_id,
        refresh_token: match p.access_token_fallback {
            Some(_) => opt_view(p.refresh_token_fallback),
            None => None,
        },
        expires_at: p.expires_at,
    }
}

/// The map that persisted entries stand for (a later entry for a URL
/// replaces an earlier one).
pub open spec fn persisted_map(entries: Seq<(String, PersistedToken)>) -> Map<Seq<char>, PersistedToken>
    decreases entries.len(),
{
    if entries.len() == 0 {
        Map::empty()
    } else {
        persisted_map(entries.drop_last()).insert(entries.last().0@, entries.last().1)
    }
}

/// The logins that persisted bookkeeping is loaded as.
pub open spec fn loaded_tokens(m: Map<Seq<char>, PersistedToken>) -> Map<Seq<char>, TokenView> {
    Map::new(|u: Seq<char>| m.contains_key(u), |u: Seq<char>| loaded_token(m[u]))
}

/// The URLs whose secrets have to be read from the keyring after loading.
pub open spec fn loaded_pending(m: Map<Seq<char>, PersistedToken>) -> Set<Seq<char>> {
    Set::new(|u: Seq<char>| m.contains_key(u) && m[u].access_token_fallback is None)
}

/// Converts on-disk bookkeeping into the in-memory store, without touching
/// the keyring: entries without a fallback secret get empty placeholder
/// secrets and are marked for a keyring read on first use.
pub fn build_token_store(persisted: PersistedStore) -> (s: TokenStore)
    ensures
        s.tokens() == loaded_tokens(persisted_map(persisted.tokens@)),
        s.pending() == loaded_pending(persisted_map(persisted.tokens@)),
{
    let mut store = TokenStore::new();
    let entries = &persisted.tokens;
    let mut i: usize = 0;
    assert(persisted_map(entries@.take(0)) =~= Map::<Seq<char>, PersistedToken>::empty());
    assert(loaded_tokens(Map::<Seq<char>, PersistedToken>::empty()) =~= Map::<Seq<char>, TokenView>::empty());
    assert(loaded_pending(Map::<Seq<char>, PersistedToken>::empty()) =~= Set::<Seq<char>>::empty());
    while i < entries.len()
        invariant
            i <= entries.len(),
            store.tokens() == loaded_tokens(persisted_map(entries@.take(i as int))),
            store.pending() == loaded_pending(persisted_map(entries@.take(i as int))),
        decreases entries.len() - i,
    {
        let url = entries[i].0.as_str();
        let meta = &entries[i].1;
        let ghost pm = persisted_map(entries@.take(i as int));
        assert(entries@.take(i + 1).drop_last() =~= entries@.take(i as int));
        let ghost pm2 = persisted_map(entries@.take(i + 1));
        assert(pm2 == pm.insert(url@, *meta));
        let token = match &meta.access_token_fallback {
            Some(access) => StoredToken {
                access_token: access.clone(),
                display_name: meta.display_name.clone(),
                user_id: meta.user_id,
                refresh_token: copy_opt(&meta.refresh_token_fallback),
                expires_at: meta.expires_at,
            },
            None => StoredToken {
                access_token: String::new(),
                display_name: meta.display_name.clone(),
                user_id: meta.user_id,
                refresh_token: None,
                expires_at: meta.expires_at,
            },
        };
        assert(token@ == loaded_token(*meta));
        store.set_token(url, token);
        assert(store.tokens() =~= loaded_tokens(pm2));
        match &meta.access_token_fallback {
            Some(_) => store.remove_pending(url),
            None => store.add_pending(url),
        }
        assert(store.pending() =~= loaded_pending(pm2));
        i = i + 1;
    }
    assert(entries@.take(entries.len() as int) =~= entries@);
    store
}

/// The in-memory store for the bookkeeping read at startup (`None` when
/// there is no configuration directory to read it from).
pub fn load(persisted: Option<PersistedStore>) -> (s: TokenStore)
    ensures
        match persisted {
            Some(p) => s.tokens() == loaded_tokens(persisted_map(p.tokens@))
                && s.pending() == loaded_pending(persisted_map(p.tokens@)),
            None => s.tokens() == Map::<Seq<char>, TokenView>::empty() && s.pending() == Set::<Seq<char>>::empty(),
        },
{
    match persisted {
        Some(p) => build_token_store(p),
        None => TokenStore::new(),
    }
}

/// Whether `p` is the on-disk bookkeeping of the login `t`: the owner and
/// expiry, and the secrets only when they were not stored in the keyring.
pub open spec fn persisted_as(t: TokenView, p: PersistedToken, in_keyring: bool) -> bool {
    &&& p.display_name@ == t.display_name
    &&& p.user_id == t.user_id
    &&& p.expires_at == t.expires_at
    &&& opt_view(p.access_token_fallback) == if in_keyring {
        None
    } else {
        Some(t.access_token)
    }
    &&& opt_view(p.refresh_token_fallback) == if in_keyring {
        None
    } else {
        t.refresh_token
    }
}

/// The on-disk bookkeeping for one login: its secrets are kept in the
/// file only when they could not be stored in the keyring.
pub fn persisted_token(token: &StoredToken, stored_in_keyring: bool) -> (p: PersistedToken)
    ensures
        persisted_as(token@, p, stored_in_keyring),
{
    PersistedToken {
        display_name: token.display_name.clone(),
        user_id: token.user_id,
        expires_at: token.expires_at,
        access_token_fallback: if stored_in_keyring {
            None
        } else {
            Some(token.access_token.clone())
        },
        refresh_token_fallback: if stored_in_keyring {
            None
        } else {
            copy_opt(&token.refresh_token)
        },
    }
}


/// The website/OAuth host of an API base URL.
pub open spec fn oauth_base_of(api_base_url: Seq<char>) -> Seq<char> {
    if trim_end(api_base_url, '/') == PRIMARY_API_URL@ {
        "https://www.openstreetmap.org"@
    } else {
        trim_end(api_base_url, '/')
    }
}

/// The website/OAuth host for an API base URL: the primary API is served
/// from a separate host than its OAuth endpoints; other servers serve both
/// from the same host. Trailing slashes are ignored.
pub fn oauth_base_for(api_base_url: &str) -> (r: String)
    ensures
        r@ == oauth_base_of(api_base_url@),
{
    let cs = chars_of(api_base_url);
    let mut n = cs.len();
    assert(cs@.take(n as int) =~= cs@);
    while n > 0 && cs[n - 1] == '/'
        invariant
            n <= cs@.len(),
            trim_end(cs@, '/') == trim_end(cs@.take(n as int), '/'),
        decreases n,
    {
        assert(cs@.take(n as int).drop_last() =~= cs@.take(n - 1));
        n = n - 1;
    }
    let trimmed = string_from_chars(&cs, 0, n);
    assert(trimmed@ =~= cs@.take(n as int));
    if str_eq(trimmed.as_str(), PRIMARY_API_URL) {
        "https://www.openstreetmap.org".to_owned()
    } else {
        trimmed
    }
}

/// The client id configured for an OAuth base URL: the settings override
/// for that server if it is set and non-empty, otherwise the default.
pub open spec fn configured_client_id(settings: AppSettings, oauth_base_url: Seq<char>) -> Seq<char> {
    match table_get(table_view(settings.client_ids@), oauth_base_url) {
        Some(id) => if id.len() > 0 {
            id
        } else {
            DEFAULT_CLIENT_ID@
        },
        None => DEFAULT_CLIENT_ID@,
    }
}

/// The client id for an OAuth base URL: the configured override for that
/// server if it is set and non-empty, otherwise the default client id.
pub fn client_id_for(settings: &AppSettings, oauth_base_url: &str) -> (r: String)
    ensures
        r@ == configured_client_id(*settings, oauth_base_url@),
{
    match table_lookup(&settings.client_ids, oauth_base_url) {
        Some(id) => {
            if id.as_str().is_empty() {
                DEFAULT_CLIENT_ID.to_owned()
            } else {
                id.clone()
            }
        },
        None => DEFAULT_CLIENT_ID.to_owned(),
    }
}

/// The path portion of a request URL (everything before the first `?`).
pub fn url_path(url: &str) -> (r: &str)
    ensures
        r@ == before_first(url@, '?'),
{
    let cs = chars_of(url);
    let i = find_char(&cs, '?');
    url.substring_char(0, i)
}

/// The value of an ASCII hex digit (either case).
pub open spec fn hex_value(b: u8) -> Option<int> {
    if 48 <= b <= 57 {
        Some(b - 48)
    } else if 65 <= b <= 70 {
        Some(b - 55)
    } else if 97 <= b <= 102 {
        Some(b - 87)
    } else {
        None
    }
}

/// Percent-decoding of bytes: `%` followed by two hex digits becomes the
/// byte they spell; every other byte, a lone `%` included, stays as it is.
/// `+` is kept, not turned into a space.
pub open spec fn percent_decode(b: Seq<u8>) -> Seq<u8>
    decreases b.len(),
{
    if b.len() == 0 {
        Seq::empty()
    } else if b[0] == 37 && b.len() >= 3 && hex_value(b[1]) is Some && hex_value(b[2]) is Some {
        seq![(hex_value(b[1])->0 * 16 + hex_value(b[2])->0) as u8] + percent_decode(b.skip(3))
    } else {
        seq![b[0]] + percent_decode(b.skip(1))
    }
}

/// Percent-decoding of the UTF-8 bytes of `s`, read back as UTF-8, or
/// `None` when the decoded bytes are not UTF-8.
pub open spec fn url_decoded(s: Seq<char>) -> Option<Seq<char>> {
    let b = percent_decode(vstd::utf8::encode_utf8(s));
    if valid_utf8(b) {
        Some(decode_utf8(b))
    } else {
        None
    }
}

/// `urlencoding::decode` (percent-decoding, then UTF-8), as `url_decoded`
/// states it.
#[verifier::external_body]
fn url_decode(s: &str) -> (r: Option<String>)
    ensures
        match r {
            Some(d) => url_decoded(s@) == Some(d@),
            None => url_decoded(s@) is None,
        },
{
    urlencoding::decode(s).ok().map(|c| c.into_owned())
}

/// A query value: percent-decoded, or kept as it is when decoding fails.
pub open spec fn decoded_or_raw(v: Seq<char>) -> Seq<char> {
    match url_decoded(v) {
        Some(d) => d,
        None => v,
    }
}

/// The (key, value) parameters of `key=value` pieces, in order; pieces
/// without `=` are skipped.
pub open spec fn params_of(pieces: Seq<Seq<char>>) -> Seq<(Seq<char>, Seq<char>)>
    decreases pieces.len(),
{
    if pieces.len() == 0 {
        Seq::empty()
    } else {
        let rest = params_of(pieces.drop_last());
        match after_first(pieces.last(), '=') {
            Some(v) => rest.push((before_first(pieces.last(), '='), decoded_or_raw(v))),
            None => rest,
        }
    }
}

/// The query parameters of a callback URL like `/callback?code=..&state=..`.
pub open spec fn query_params(url: Seq<char>) -> Seq<(Seq<char>, Seq<char>)> {
    match after_first(url, '?') {
        Some(q) => params_of(split_on(q, '&')),
        None => Seq::empty(),
    }
}

/// Parses one `key=value` piece into `out`.
fn push_param(out: &mut Vec<(String, String)>, piece: &Vec<char>)
    ensures
        pairs_view(final(out)@) == match after_first(piece@, '=') {
            Some(v) => pairs_view(old(out)@).push((before_first(piece@, '='), decoded_or_raw(v))),
            None => pairs_view(old(out)@),
        },
{
    let eq = find_char(piece, '=');
    if eq < piece.len() {
        let k = string_from_chars(piece, 0, eq);
        let raw = string_from_chars(piece, eq + 1, piece.len());
        assert(raw@ =~= piece@.skip(eq + 1));
        let v = match url_decode(raw.as_str()) {
            Some(d) => d,
            None => raw,
        };
        let ghost before = out@;
        out.push((k, v));
        assert(pairs_view(out@) =~= pairs_view(before).push((k@, v@)));
    }
}

/// The query parameters (key, percent-decoded value) of a callback URL, in
/// order; when a key repeats, the later value is the one that counts.
pub fn parse_callback_query(url: &str) -> (r: Vec<(String, String)>)
    ensures
        pairs_view(r@) == query_params(url@),
{
    let mut out: Vec<(String, String)> = Vec::new();
    let cs = chars_of(url);
    let q = find_char(&cs, '?');
    if q >= cs.len() {
        assert(pairs_view(out@) =~= Seq::<(Seq<char>, Seq<char>)>::empty());
        return out;
    }
    let ghost query = cs@.skip(q + 1);
    let mut piece: Vec<char> = Vec::new();
    let mut i = q + 1;
    assert(cs@.subrange(q + 1, q + 1) =~= Seq::<char>::empty());
    assert(split_on(Seq::<char>::empty(), '&') =~= seq![Seq::<char>::empty()]);
    while i < cs.len()
        invariant
            q + 1 <= i <= cs@.len(),
            query == cs@.skip(q + 1),
            split_on(cs@.subrange(q + 1, i as int), '&').len() >= 1,
            pairs_view(out@) == params_of(split_on(cs@.subrange(q + 1, i as int), '&').drop_last()),
            piece@ == split_on(cs@.subrange(q + 1, i as int), '&').last(),
        decreases cs@.len() - i,
    {
        let ghost pre = cs@.subrange(q + 1, i as int);
        let ghost nxt = cs@.subrange(q + 1, i + 1);
        assert(nxt.drop_last() =~= pre);
        proof { crate::text::lemma_split_nonempty(pre, '&'); }
        if cs[i] == '&' {
            push_param(&mut out, &piece);
            assert(split_on(nxt, '&') == split_on(pre, '&').push(Seq::empty()));
            assert(split_on(nxt, '&').drop_last() =~= split_on(pre, '&'));
            assert(split_on(pre, '&') =~= split_on(pre, '&').drop_last().push(split_on(pre, '&').last()));
            piece = Vec::new();
        } else {
            piece.push(cs[i]);
            let ghost sp = split_on(pre, '&');
            assert(split_on(nxt, '&') == sp.update(sp.len() - 1, sp.last().push(cs@[i as int])));
            assert(split_on(nxt, '&').drop_last() =~= sp.drop_last());
        }
        i = i + 1;
    }
    assert(cs@.subrange(q + 1, cs@.len() as int) =~= query);
    let ghost sp = split_on(query, '&');
    push_param(&mut out, &piece);
    assert(sp =~= sp.drop_last().push(sp.last()));
    out
}

/// The hexadecimal digit (upper case) for `d < 16`.
pub open spec fn hex_upper(d: u8) -> char {
    if d < 10 {
        ((d + 48) as u8) as char
    } else {
        ((d + 55) as u8) as char
    }
}

/// Bytes left as they are by percent-encoding: ASCII alphanumerics and
/// `-`, `_`, `.`, `~`.
pub open spec fn is_unreserved(b: u8) -> bool {
    (48 <= b <= 57) || (65 <= b <= 90) || (97 <= b <= 122) || b == 45 || b == 46 || b == 95
        || b == 126
}

/// Percent-encoding of a byte string.
pub open spec fn percent_encode(bytes: Seq<u8>) -> Seq<char>
    decreases bytes.len(),
{
    if bytes.len() == 0 {
        Seq::empty()
    } else {
        let b = bytes.last();
        percent_encode(bytes.drop_last()) + if is_unreserved(b) {
            seq![b as char]
        } else {
            seq!['%', hex_upper(b / 16), hex_upper(b % 16)]
        }
    }
}

/// Percent-encodes the UTF-8 bytes of `s` (`urlencoding::encode`): every
/// byte except ASCII alphanumerics and `-`, `_`, `.`, `~` becomes `%XX`.
#[verifier::external_body]
fn url_encode(s: &str) -> (r: String)
    ensures
        r@ == percent_encode(s.spec_bytes()),
{
    urlencoding::encode(s).into_owned()
}

/// The browser URL that starts an authorization-code login with PKCE.
pub fn authorize_url(
    oauth_base: &str,
    client_id: &str,
    redirect_uri: &str,
    state: &str,
    challenge: &str,
) -> (r: String)
    ensures
        r@ == oauth_base@ + "/oauth2/authorize?client_id="@ + percent_encode(client_id.spec_bytes())
            + "&redirect_uri="@ + percent_encode(redirect_uri.spec_bytes())
            + "&response_type=code&scope="@ + percent_encode(SCOPES.spec_bytes()) + "&state="@
            + percent_encode(state.spec_bytes()) + "&code_challenge="@ + percent_encode(
            challenge.spec_bytes(),
        ) + "&code_challenge_method=S256"@,
{
    let mut u = String::new();
    append_str(&mut u, oauth_base);
    append_str(&mut u, "/oauth2/authorize?client_id=");
    append_str(&mut u, url_encode(client_id).as_str());
    append_str(&mut u, "&redirect_uri=");
    append_str(&mut u, url_encode(redirect_uri).as_str());
    append_str(&mut u, "&response_type=code&scope=");
    append_str(&mut u, url_encode(SCOPES).as_str());
    append_str(&mut u, "&state=");
    append_str(&mut u, url_encode(state).as_str());
    append_str(&mut u, "&code_challenge=");
    append_str(&mut u, url_encode(challenge).as_str());
    append_str(&mut u, "&code_challenge_method=S256");
    u
}

/// The loopback redirect URI on `port`.
pub fn redirect_uri(port: u16) -> (r: String)
    ensures
        r@ == "http://127.0.0.1:"@ + decimal(port as nat) + CALLBACK_PATH@,
{
    let mut u = String::new();
    append_str(&mut u, "http://127.0.0.1:");
    push_decimal(&mut u, port as u64);
    append_str(&mut u, CALLBACK_PATH);
    u
}

/// Whether a request to the loopback server is the OAuth callback (its
/// path starts with the callback path); other requests, such as favicon
/// probes, are answered with 404 and ignored.
pub fn is_callback_request(url: &str) -> (r: bool)
    ensures
        r == crate::text::has_prefix(before_first(url@, '?'), CALLBACK_PATH@),
{
    crate::text::starts_with(url_path(url), CALLBACK_PATH)
}

/// The page shown in the browser once the callback arrived: a success page
/// when it carried an authorization code, a failure page otherwise.
pub fn callback_page(has_code: bool) -> (r: &'static str)
    ensures
        r@ == if has_code {
            "<html><body><h3>Signed in to OpenStreetMap.</h3>You can close this tab and return to osm-gpui.</body></html>"@
        } else {
            "<html><body><h3>Sign in failed.</h3>You can close this tab and return to osm-gpui.</body></html>"@
        },
{
    if has_code {
        "<html><body><h3>Signed in to OpenStreetMap.</h3>You can close this tab and return to osm-gpui.</body></html>"
    } else {
        "<html><body><h3>Sign in failed.</h3>You can close this tab and return to osm-gpui.</body></html>"
    }
}

/// The authorization code a callback carries, or why the login failed:
/// an `error` parameter means the user or server declined (its
/// `error_description`, else the error itself, is the reason); a `state`
/// other than `expected_state` is rejected; no `code` means no redirect.
pub fn callback_code(params: &Vec<(String, String)>, expected_state: &str) -> (r: Result<String, AuthError>)
    ensures
        ({
            let p = pairs_view(params@);
            match table_get(p, "error"@) {
                Some(e) => r matches Err(AuthError::Denied { reason }) && reason@ == match table_get(
                    p,
                    "error_description"@,
                ) {
                    Some(d) => d,
                    None => e,
                },
                None => if table_get(p, "state"@) != Some(expected_state@) {
                    r matches Err(AuthError::StateMismatch)
                } else {
                    match table_get(p, "code"@) {
                        Some(c) => r matches Ok(code) && code@ == c,
                        None => r matches Err(AuthError::NoRedirect),
                    }
                },
            }
        }),
{
    proof {
        assert(pairs_view(params@) =~= table_view(params@));
    }
    match table_lookup(params, "error") {
        Some(e) => {
            let reason = match table_lookup(params, "error_description") {
                Some(d) => d.clone(),
                None => e.clone(),
            };
            return Err(AuthError::Denied { reason });
        },
        None => {},
    }
    let state_ok = match table_lookup(params, "state") {
        Some(s) => str_eq(s.as_str(), expected_state),
        None => false,
    };
    if !state_ok {
        return Err(AuthError::StateMismatch);
    }
    match table_lookup(params, "code") {
        Some(c) => Ok(c.clone()),
        None => Err(AuthError::NoRedirect),
    }
}


/// The SHA-256 digest of `bytes` (`sha2::Sha256::digest`).
pub uninterp spec fn sha256_digest(bytes: Seq<u8>) -> Seq<u8>;

/// The URL-safe base64 digit for a six-bit value: `A`-`Z`, `a`-`z`,
/// `0`-`9`, then `-` and `_`.
pub open spec fn b64_digit(v: int) -> char {
    if v < 26 {
        (65 + v) as char
    } else if v < 52 {
        (71 + v) as char
    } else if v < 62 {
        (v - 4) as char
    } else if v == 62 {
        '-'
    } else {
        '_'
    }
}

/// Unpadded URL-safe base64 (RFC 4648 §5) of `bytes`: each group of three
/// bytes gives four digits; a final group of one or two bytes gives two or
/// three digits, without `=` padding.
pub open spec fn base64_url_nopad(b: Seq<u8>) -> Seq<char>
    decreases b.len(),
{
    if b.len() == 0 {
        Seq::empty()
    } else if b.len() == 1 {
        seq![b64_digit(b[0] as int / 4), b64_digit((b[0] % 4) * 16)]
    } else if b.len() == 2 {
        seq![b64_digit(b[0] as int / 4), b64_digit((b[0] % 4) * 16 + b[1] / 16), b64_digit((b[1] % 16) * 4)]
    } else {
        seq![
            b64_digit(b[0] as int / 4),
            b64_digit((b[0] % 4) * 16 + b[1] / 16),
            b64_digit((b[1] % 16) * 4 + b[2] / 64),
            b64_digit(b[2] as int % 64),
        ] + base64_url_nopad(b.skip(3))
    }
}

/// Whether `c` is in the URL-safe base64 alphabet: ASCII letters, digits,
/// `-` and `_`.
pub open spec fn is_url_safe_char(c: char) -> bool {
    ('A' <= c <= 'Z') || ('a' <= c <= 'z') || ('0' <= c <= '9') || c == '-' || c == '_'
}

/// Length of unpadded base64 for `n` bytes: four characters per three
/// bytes, and two or three for a final partial group.
pub open spec fn base64_nopad_len(n: nat) -> nat {
    4 * (n / 3) + if n % 3 == 0 {
        0nat
    } else {
        n % 3 + 1
    }
}

/// `sha2::Sha256::digest`: a 32-byte digest named by `sha256_digest`.
#[verifier::external_body]
fn sha256(bytes: &[u8]) -> (r: Vec<u8>)
    ensures
        r@ == sha256_digest(bytes@),
        r@.len() == 32,
{
    sha2::Sha256::digest(bytes).to_vec()
}

/// Every digit is in the URL-safe alphabet.
proof fn lemma_b64_digit(v: int)
    requires
        0 <= v < 64,
    ensures
        is_url_safe_char(b64_digit(v)),
{
}

/// Unpadded URL-safe base64 has `base64_nopad_len` digits, all from the
/// URL-safe alphabet.
pub proof fn lemma_base64_shape(b: Seq<u8>)
    ensures
        base64_url_nopad(b).len() == base64_nopad_len(b.len()),
        forall|i: int| 0 <= i < base64_url_nopad(b).len() ==> is_url_safe_char(#[trigger] base64_url_nopad(b)[i]),
    decreases b.len(),
{
    if b.len() == 0 {
    } else if b.len() == 1 {
        lemma_b64_digit(b[0] as int / 4);
        lemma_b64_digit((b[0] % 4) * 16);
    } else if b.len() == 2 {
        lemma_b64_digit(b[0] as int / 4);
        lemma_b64_digit((b[0] % 4) * 16 + b[1] / 16);
        lemma_b64_digit((b[1] % 16) * 4);
    } else {
        lemma_base64_shape(b.skip(3));
        let head = seq![
            b64_digit(b[0] as int / 4),
            b64_digit((b[0] % 4) * 16 + b[1] / 16),
            b64_digit((b[1] % 16) * 4 + b[2] / 64),
            b64_digit(b[2] as int % 64),
        ];
        lemma_b64_digit(b[0] as int / 4);
        lemma_b64_digit((b[0] % 4) * 16 + b[1] / 16);
        lemma_b64_digit((b[1] % 16) * 4 + b[2] / 64);
        lemma_b64_digit(b[2] as int % 64);
        let tail = base64_url_nopad(b.skip(3));
        assert(base64_url_nopad(b) == head + tail);
        assert forall|i: int| 0 <= i < base64_url_nopad(b).len() implies is_url_safe_char(
            #[trigger] base64_url_nopad(b)[i],
        ) by {
            if i >= 4 {
                assert(base64_url_nopad(b)[i] == tail[i - 4]);
            }
        }
    }
}

/// `URL_SAFE_NO_PAD.encode`, as `base64_url_nopad` states it.
#[verifier::external_body]
fn base64_url_encode(bytes: &[u8]) -> (r: String)
    ensures
        r@ == base64_url_nopad(bytes@),
{
    base64::Engine::encode(&base64::engine::general_purpose::URL_SAFE_NO_PAD, bytes)
}

/// `n` bytes from the thread-local random generator
/// (`rand::thread_rng().fill_bytes`); their values are left open.
#[verifier::external_body]
fn random_bytes(n: usize) -> (r: Vec<u8>)
    ensures
        r@.len() == n,
{
    let mut bytes = vec![0u8; n];
    rand::thread_rng().fill_bytes(&mut bytes);
    bytes
}

/// A random token of `num_bytes` random bytes, as unpadded URL-safe base64.
pub fn generate_url_safe_token(num_bytes: usize) -> (r: String)
    ensures
        r@.len() == base64_nopad_len(num_bytes as nat),
        forall|i: int| 0 <= i < r@.len() ==> is_url_safe_char(#[trigger] r@[i]),
{
    let bytes = random_bytes(num_bytes);
    proof {
        lemma_base64_shape(bytes@);
    }
    base64_url_encode(bytes.as_slice())
}

/// The PKCE S256 code challenge of a verifier: unpadded URL-safe base64 of
/// the SHA-256 of its UTF-8 bytes.
pub fn code_challenge(verifier: &str) -> (r: String)
    ensures
        r@ == base64_url_nopad(sha256_digest(verifier.spec_bytes())),
        r@.len() == 43,
        forall|i: int| 0 <= i < r@.len() ==> is_url_safe_char(#[trigger] r@[i]),
{
    let digest = sha256(verifier.as_bytes());
    proof {
        lemma_base64_shape(digest@);
    }
    base64_url_encode(digest.as_slice())
}

/// The token-endpoint request: a form `POST` to `<oauth_base>/oauth2/token`.
pub fn token_request(oauth_base: &str, form: Vec<(String, String)>) -> (r: HttpRequest)
    ensures
        r.method == Method::Post,
        r.url@ == oauth_base@ + "/oauth2/token"@,
        r.headers@.len() == 0,
        r.body matches Some(Body::Form(f)) && f@ == form@,
{
    let mut url = String::new();
    append_str(&mut url, oauth_base);
    append_str(&mut url, "/oauth2/token");
    HttpRequest::post_form(url, form)
}

/// A form field.
fn field(k: &str, v: String) -> (r: (String, String))
    ensures
        r.0@ == k@,
        r.1@ == v@,
{
    (k.to_owned(), v)
}

/// The form of a `refresh_token` grant.
pub fn refresh_form(client_id: String, refresh_token: String) -> (r: Vec<(String, String)>)
    ensures
        pairs_view(r@) == seq![
            ("grant_type"@, "refresh_token"@),
            ("client_id"@, client_id@),
            ("refresh_token"@, refresh_token@),
        ],
{
    let mut f: Vec<(String, String)> = Vec::new();
    f.push(field("grant_type", "refresh_token".to_owned()));
    f.push(field("client_id", client_id));
    f.push(field("refresh_token", refresh_token));
    assert(pairs_view(f@) =~= seq![
        ("grant_type"@, "refresh_token"@),
        ("client_id"@, client_id@),
        ("refresh_token"@, refresh_token@),
    ]);
    f
}

/// The form of an `authorization_code` grant with a PKCE verifier.
pub fn authorization_code_form(
    client_id: String,
    code: String,
    redirect_uri: String,
    code_verifier: String,
) -> (r: Vec<(String, String)>)
    ensures
        pairs_view(r@) == seq![
            ("grant_type"@, "authorization_code"@),
            ("client_id"@, client_id@),
            ("code"@, code@),
            ("redirect_uri"@, redirect_uri@),
            ("code_verifier"@, code_verifier@),
        ],
{
    let mut f: Vec<(String, String)> = Vec::new();
    f.push(field("grant_type", "authorization_code".to_owned()));
    f.push(field("client_id", client_id));
    f.push(field("code", code));
    f.push(field("redirect_uri", redirect_uri));
    f.push(field("code_verifier", code_verifier));
    assert(pairs_view(f@) =~= seq![
        ("grant_type"@, "authorization_code"@),
        ("client_id"@, client_id@),
        ("code"@, code@),
        ("redirect_uri"@, redirect_uri@),
        ("code_verifier"@, code_verifier@),
    ]);
    f
}

/// The error an HTTP failure is reported as.
pub open spec fn http_failure(e: HttpError, r: AuthError) -> bool {
    match e {
        HttpError::Status { status, body } => r matches AuthError::Http { status: s, body: b } && s
            == status && (valid_utf8(body@) ==> b@ == decode_utf8(body@)),
        HttpError::Transport(msg) => r matches AuthError::Network(m) && m@ == msg@,
    }
}

/// Converts an HTTP failure into an authentication error.
fn auth_error_of(e: HttpError) -> (r: AuthError)
    ensures
        http_failure(e, r),
{
    match e {
        HttpError::Status { status, body } => AuthError::Http {
            status,
            body: crate::http::string_from_utf8_lossy(body.as_slice()),
        },
        HttpError::Transport(msg) => AuthError::Network(msg),
    }
}

/// The path to a member of the root object.
pub open spec fn key(k: Seq<char>) -> Seq<JsonStep> {
    seq![JsonStep::Key(k)]
}

/// Expiry time: `now` plus the `expires_in` seconds, wrapping on overflow.
pub open spec fn expiry(now: i64, secs: i64) -> i64 {
    now.wrapping_add(secs)
}

/// The (access token, refresh token, expiry) a token-endpoint response
/// yields, the expiry counted from Unix time `now`; `None` when it yields
/// none.
pub open spec fn token_fields(
    response: Result<HttpResponse, HttpError>,
    now: i64,
) -> Option<(Seq<char>, Option<Seq<char>>, Option<i64>)> {
    match response {
        Ok(resp) => if !valid_utf8(resp.body@) {
            None
        } else {
            match json_document(decode_utf8(resp.body@)) {
                None => None,
                Some(doc) => match str_at(doc, key("access_token"@)) {
                    None => None,
                    Some(access) => Some(
                        (
                            access,
                            str_at(doc, key("refresh_token"@)),
                            match i64_at(doc, key("expires_in"@)) {
                                Some(secs) => Some(expiry(now, secs)),
                                None => None::<i64>,
                            },
                        ),
                    ),
                },
            }
        },
        Err(_) => None,
    }
}

/// The error a token-endpoint response that yields no token is reported as.
pub open spec fn token_error(response: Result<HttpResponse, HttpError>, e: AuthError) -> bool {
    match response {
        Ok(resp) => if !valid_utf8(resp.body@) {
            e is Network
        } else {
            match json_document(decode_utf8(resp.body@)) {
                None => e is Parse,
                Some(doc) => e matches AuthError::Parse(m) && m@ == "missing access_token"@,
            }
        },
        Err(he) => http_failure(he, e),
    }
}

/// The view of a parsed token triple.
pub open spec fn fields_view(t: (String, Option<String>, Option<i64>)) -> (Seq<char>, Option<Seq<char>>, Option<i64>) {
    (t.0@, opt_view(t.1), t.2)
}

/// Parses a token-endpoint response into (access token, refresh token,
/// expiry), the expiry counted from Unix time `now`.
pub fn parse_token_response(
    response: Result<HttpResponse, HttpError>,
    now: i64,
) -> (r: Result<(String, Option<String>, Option<i64>), AuthError>)
    ensures
        match token_fields(response, now) {
            Some(f) => r matches Ok(t) && fields_view(t) == f,
            None => r matches Err(e) && token_error(response, e),
        },
{
    match response {
        Ok(resp) => {
            let body = match resp.into_string() {
                Ok(b) => b,
                Err(e) => {
                    let msg = match e {
                        HttpError::Transport(m) => m,
                        HttpError::Status { .. } => String::new(),
                    };
                    return Err(AuthError::Network(msg));
                },
            };
            let json = match parse_json(body.as_str()) {
                Ok(v) => v,
                Err(msg) => return Err(AuthError::Parse(msg)),
            };
            let ghost doc = json_document(body@)->0;
            proof {
                crate::json::lemma_subtree_path(doc, JsonStep::Key("access_token"@), Seq::empty());
                crate::json::lemma_subtree_path(doc, JsonStep::Key("refresh_token"@), Seq::empty());
                crate::json::lemma_subtree_path(doc, JsonStep::Key("expires_in"@), Seq::empty());
                assert(key("access_token"@) + Seq::<JsonStep>::empty() =~= key("access_token"@));
                assert(key("refresh_token"@) + Seq::<JsonStep>::empty() =~= key("refresh_token"@));
                assert(key("expires_in"@) + Seq::<JsonStep>::empty() =~= key("expires_in"@));
            }
            let access_token = match get_key(&json, "access_token") {
                Some(v) => match as_str(v) {
                    Some(s) => s.to_owned(),
                    None => return Err(AuthError::Parse("missing access_token".to_owned())),
                },
                None => return Err(AuthError::Parse("missing access_token".to_owned())),
            };
            let refresh_token = match get_key(&json, "refresh_token") {
                Some(v) => match as_str(v) {
                    Some(s) => Some(s.to_owned()),
                    None => None,
                },
                None => None,
            };
            let expires_at = match get_key(&json, "expires_in") {
                Some(v) => match as_i64(v) {
                    Some(secs) => Some(now.wrapping_add(secs)),
                    None => None,
                },
                None => None,
            };
            Ok((access_token, refresh_token, expires_at))
        },
        Err(e) => Err(auth_error_of(e)),
    }
}


/// The path to a member of the root object's `user` member.
pub open spec fn user_key(k: Seq<char>) -> Seq<JsonStep> {
    seq![JsonStep::Key("user"@), JsonStep::Key(k)]
}

/// `GET <api>/api/0.6/user/details.json` (trailing slashes of the API base
/// URL dropped) with the access token as bearer.
pub fn user_details_request(api_base_url: &str, access_token: &str) -> (r: HttpRequest)
    ensures
        r.method == Method::Get,
        r.url@ == trim_end(api_base_url@, '/') + "/api/0.6/user/details.json"@,
        pairs_view(r.headers@) == seq![("Authorization"@, "Bearer "@ + access_token@)],
        r.body is None,
{
    let cs = chars_of(api_base_url);
    let mut n = cs.len();
    assert(cs@.take(n as int) =~= cs@);
    while n > 0 && cs[n - 1] == '/'
        invariant
            n <= cs@.len(),
            trim_end(cs@, '/') == trim_end(cs@.take(n as int), '/'),
        decreases n,
    {
        assert(cs@.take(n as int).drop_last() =~= cs@.take(n - 1));
        n = n - 1;
    }
    let mut url = string_from_chars(&cs, 0, n);
    assert(url@ =~= cs@.take(n as int));
    append_str(&mut url, "/api/0.6/user/details.json");
    let r = HttpRequest::get(url).bearer(access_token);
    assert(pairs_view(r.headers@) =~= seq![("Authorization"@, "Bearer "@ + access_token@)]);
    r
}

/// `r` is what a user-details response gives: (display name, user id)
/// from its JSON body, or the error for a failed request, a body that is
/// not UTF-8 or not JSON, or a missing field.
pub open spec fn user_details_parsed(response: Result<HttpResponse, HttpError>, r: Result<(String, u64), AuthError>) -> bool {
    match response {
        Ok(resp) => if !valid_utf8(resp.body@) {
            r matches Err(AuthError::Network(_))
        } else {
            match json_document(decode_utf8(resp.body@)) {
                None => r matches Err(AuthError::Parse(_)),
                Some(doc) => if !doc.contains_key(key("user"@)) {
                    r matches Err(AuthError::Parse(m)) && m@ == "missing user"@
                } else if str_at(doc, user_key("display_name"@)) is None {
                    r matches Err(AuthError::Parse(m)) && m@ == "missing display_name"@
                } else if u64_at(doc, user_key("id"@)) is None {
                    r matches Err(AuthError::Parse(m)) && m@ == "missing id"@
                } else {
                    r matches Ok(u) && Some(u.0@) == str_at(doc, user_key("display_name"@))
                        && Some(u.1) == u64_at(doc, user_key("id"@))
                },
            }
        },
        Err(e) => r matches Err(err) && http_failure(e, err),
    }
}

/// Parses a user-details response into (display name, user id).
pub fn parse_user_details(response: Result<HttpResponse, HttpError>) -> (r: Result<(String, u64), AuthError>)
    ensures
        user_details_parsed(response, r),
{
    let body = match response {
        Ok(resp) => match resp.into_string() {
            Ok(b) => b,
            Err(e) => {
                let msg = match e {
                    HttpError::Transport(m) => m,
                    HttpError::Status { .. } => String::new(),
                };
                return Err(AuthError::Network(msg));
            },
        },
        Err(e) => return Err(auth_error_of(e)),
    };
    let json = match parse_json(body.as_str()) {
        Ok(v) => v,
        Err(msg) => return Err(AuthError::Parse(msg)),
    };
    let ghost doc = json_document(body@)->0;
    let user = match get_key(&json, "user") {
        Some(u) => u,
        None => return Err(AuthError::Parse("missing user".to_owned())),
    };
    proof {
        let sub = subtree(doc, JsonStep::Key("user"@));
        crate::json::lemma_subtree_path(sub, JsonStep::Key("display_name"@), Seq::empty());
        crate::json::lemma_subtree_path(sub, JsonStep::Key("id"@), Seq::empty());
        crate::json::lemma_subtree_path(doc, JsonStep::Key("user"@), key("display_name"@));
        crate::json::lemma_subtree_path(doc, JsonStep::Key("user"@), key("id"@));
        assert(key("display_name"@) + Seq::<JsonStep>::empty() =~= key("display_name"@));
        assert(key("id"@) + Seq::<JsonStep>::empty() =~= key("id"@));
        assert(seq![JsonStep::Key("user"@)] + key("display_name"@) =~= user_key("display_name"@));
        assert(seq![JsonStep::Key("user"@)] + key("id"@) =~= user_key("id"@));
    }
    let display_name = match get_key(user, "display_name") {
        Some(v) => match as_str(v) {
            Some(s) => s.to_owned(),
            None => return Err(AuthError::Parse("missing display_name".to_owned())),
        },
        None => return Err(AuthError::Parse("missing display_name".to_owned())),
    };
    let id = match get_key(user, "id") {
        Some(v) => match as_u64(v) {
            Some(n) => n,
            None => return Err(AuthError::Parse("missing id".to_owned())),
        },
        None => return Err(AuthError::Parse("missing id".to_owned())),
    };
    Ok((display_name, id))
}

/// Fetches the display name and id of the access token's owner: the
/// request is `user_details_request(api_base_url, access_token)`, and the
/// result is what its response, whatever the client answered, gives.
pub fn fetch_user_details_with<C: HttpClient>(
    client: &C,
    api_base_url: &str,
    access_token: &str,
) -> (r: Result<(String, u64), AuthError>)
    ensures
        exists|response: Result<HttpResponse, HttpError>| #[trigger] user_details_parsed(response, r),
{
    let req = user_details_request(api_base_url, access_token);
    let response = client.request(req);
    let r = parse_user_details(response);
    assert(user_details_parsed(response, r));
    r
}

/// The token a successful refresh yields: the new access token and expiry,
/// the owner kept from `existing`, and the new refresh token if the server
/// sent one, else the old one.
pub open spec fn refreshed(existing: TokenView, fields: (Seq<char>, Option<Seq<char>>, Option<i64>)) -> TokenView {
    TokenView {
        access_token: fields.0,
        display_name: existing.display_name,
        user_id: existing.user_id,
        refresh_token: match fields.1 {
            Some(t) => Some(t),
            None => existing.refresh_token,
        },
        expires_at: fields.2,
    }
}

/// What a refresh-token grant's response makes of the existing token.
pub fn refresh_outcome(
    existing: &StoredToken,
    response: Result<HttpResponse, HttpError>,
    now: i64,
) -> (r: Result<StoredToken, AuthError>)
    ensures
        match token_fields(response, now) {
            Some(f) => r matches Ok(t) && t@ == refreshed(existing@, f),
            None => r matches Err(e) && token_error(response, e),
        },
{
    match parse_token_response(response, now) {
        Ok((access_token, refresh_token, expires_at)) => {
            let refresh = match refresh_token {
                Some(t) => Some(t),
                None => copy_opt(&existing.refresh_token),
            };
            Ok(StoredToken {
                access_token,
                display_name: existing.display_name.clone(),
                user_id: existing.user_id,
                refresh_token: refresh,
                expires_at,
            })
        },
        Err(e) => Err(e),
    }
}

/// The refresh-token grant request for `token` at `oauth_base_url`, or
/// `NoRefreshToken` when the token has no refresh token.
pub fn refresh_request(
    settings: &AppSettings,
    oauth_base_url: &str,
    token: &StoredToken,
) -> (r: Result<HttpRequest, AuthError>)
    ensures
        match token.refresh_token {
            None => r matches Err(AuthError::NoRefreshToken),
            Some(rt) => r matches Ok(req) && req.method == Method::Post
                && req.url@ == oauth_base_url@ + "/oauth2/token"@
                && req.headers@.len() == 0
                && (req.body matches Some(Body::Form(f)) && pairs_view(f@) == seq![
                    ("grant_type"@, "refresh_token"@),
                    ("client_id"@, configured_client_id(*settings, oauth_base_url@)),
                    ("refresh_token"@, rt@),
                ]),
        },
{
    match &token.refresh_token {
        None => Err(AuthError::NoRefreshToken),
        Some(rt) => {
            let client_id = client_id_for(settings, oauth_base_url);
            Ok(token_request(oauth_base_url, refresh_form(client_id, rt.clone())))
        },
    }
}

/// The logins a token request for `url` sees, once the pending keyring read
/// (if any) has been applied with `secret`.
pub open spec fn known_tokens(store: TokenStore, url: Seq<char>, secret: Option<TokenSecret>) -> Map<Seq<char>, TokenView> {
    after_keyring_read(store.tokens(), store.pending(), url, secret_view(secret))
}

/// `r` is what the token endpoint's answer `response` makes of the
/// existing token: the refreshed token, or the endpoint's error.
pub open spec fn refresh_answer(existing: TokenView, response: Result<HttpResponse, HttpError>, now: i64, r: Result<StoredToken, AuthError>) -> bool {
    match token_fields(response, now) {
        Some(f) => r matches Ok(t) && t@ == refreshed(existing, f),
        None => r matches Err(e) && token_error(response, e),
    }
}

/// What a refresh at Unix time `now` does, given the logins `known` it
/// sees and the store before (`before`) and after (`after`): not logged
/// in, or no refresh token, fail without a request and leave the logins
/// as known; otherwise the result is what the endpoint's answer makes of
/// the stored token (`refresh_answer`), stored on success.
pub open spec fn refresh_effect(
    known: Map<Seq<char>, TokenView>,
    after: Map<Seq<char>, TokenView>,
    url: Seq<char>,
    now: i64,
    r: Result<StoredToken, AuthError>,
) -> bool {
    if !known.contains_key(url) {
        r matches Err(AuthError::NotLoggedIn) && after == known
    } else if known[url].refresh_token is None {
        r matches Err(AuthError::NoRefreshToken) && after == known
    } else {
        &&& exists|response: Result<HttpResponse, HttpError>| #[trigger] refresh_answer(known[url], response, now, r)
        &&& r is Err ==> after == known
        &&& r matches Ok(t) ==> after == known.insert(url, t@)
    }
}

/// Exchanges the stored refresh token for `oauth_base_url` for a new access
/// token, its expiry counted from Unix time `now`, keeping the owner's
/// display name and id (the token endpoint does not return them), and
/// stores the result. The request is `refresh_request`'s and goes through
/// `client` in one attempt: an authorization grant is not safe to repeat
/// blindly.
pub fn refresh_at<C: HttpClient>(
    client: &C,
    store: &mut TokenStore,
    settings: &AppSettings,
    oauth_base_url: &str,
    keyring_secret: Option<TokenSecret>,
    now: i64,
) -> (r: Result<StoredToken, AuthError>)
    ensures
        final(store).pending() == old(store).pending().remove(oauth_base_url@),
        refresh_effect(known_tokens(*old(store), oauth_base_url@, keyring_secret), final(store).tokens(), oauth_base_url@, now, r),
{
    let existing = match current_token(store, oauth_base_url, keyring_secret) {
        Some(t) => t,
        None => return Err(AuthError::NotLoggedIn),
    };
    let req = match refresh_request(settings, oauth_base_url, &existing) {
        Ok(req) => req,
        Err(e) => return Err(e),
    };
    let response = client.request(req);
    let r = refresh_outcome(&existing, response, now);
    assert(refresh_answer(existing@, response, now, r));
    match r {
        Ok(token) => {
            store.set_token(oauth_base_url, copy_token(&token));
            Ok(token)
        },
        Err(e) => Err(e),
    }
}

/// `refresh_at` at the current time.
pub fn refresh_with<C: HttpClient>(
    client: &C,
    store: &mut TokenStore,
    settings: &AppSettings,
    oauth_base_url: &str,
    keyring_secret: Option<TokenSecret>,
) -> (r: Result<StoredToken, AuthError>)
    ensures
        final(store).pending() == old(store).pending().remove(oauth_base_url@),
        exists|now: i64|
            #[trigger] refresh_effect(known_tokens(*old(store), oauth_base_url@, keyring_secret), final(store).tokens(), oauth_base_url@, now, r),
{
    let now = now_unix();
    let r = refresh_at(client, store, settings, oauth_base_url, keyring_secret, now);
    assert(refresh_effect(known_tokens(*old(store), oauth_base_url@, keyring_secret), store.tokens(), oauth_base_url@, now, r));
    r
}

/// What asking for a fresh token at Unix time `now` does, given the logins
/// `known` it sees and the logins after: not logged in fails; an
/// unexpired token is returned as stored, without a request; an expired
/// one is refreshed as `refresh_effect` says.
pub open spec fn fresh_token_effect(
    known: Map<Seq<char>, TokenView>,
    after: Map<Seq<char>, TokenView>,
    url: Seq<char>,
    now: i64,
    r: Result<StoredToken, AuthError>,
) -> bool {
    if known.contains_key(url) && !expired_at(known[url].expires_at, now) {
        r matches Ok(t) && t@ == known[url] && after == known
    } else {
        refresh_effect(known, after, url, now, r)
    }
}

/// The token for `oauth_base_url`, refreshed first if it is expired at Unix
/// time `now` and a refresh token is available. An unexpired token is
/// returned as stored, without a request.
pub fn ensure_fresh_token_at<C: HttpClient>(
    client: &C,
    store: &mut TokenStore,
    settings: &AppSettings,
    oauth_base_url: &str,
    keyring_secret: Option<TokenSecret>,
    now: i64,
) -> (r: Result<StoredToken, AuthError>)
    ensures
        final(store).pending() == old(store).pending().remove(oauth_base_url@),
        fresh_token_effect(known_tokens(*old(store), oauth_base_url@, keyring_secret), final(store).tokens(), oauth_base_url@, now, r),
{
    let token = match current_token(store, oauth_base_url, keyring_secret) {
        Some(t) => t,
        None => return Err(AuthError::NotLoggedIn),
    };
    if !token.is_expired_at(now) {
        return Ok(token);
    }
    let ghost mid = *store;
    let r = refresh_at(client, store, settings, oauth_base_url, None, now);
    proof {
        assert(known_tokens(mid, oauth_base_url@, None) == mid.tokens());
        assert(mid.pending().remove(oauth_base_url@) =~= mid.pending());
    }
    r
}

/// `ensure_fresh_token_at` at the current time.
pub fn ensure_fresh_token_with<C: HttpClient>(
    client: &C,
    store: &mut TokenStore,
    settings: &AppSettings,
    oauth_base_url: &str,
    keyring_secret: Option<TokenSecret>,
) -> (r: Result<StoredToken, AuthError>)
    ensures
        final(store).pending() == old(store).pending().remove(oauth_base_url@),
        exists|now: i64|
            #[trigger] fresh_token_effect(known_tokens(*old(store), oauth_base_url@, keyring_secret), final(store).tokens(), oauth_base_url@, now, r),
{
    let now = now_unix();
    let r = ensure_fresh_token_at(client, store, settings, oauth_base_url, keyring_secret, now);
    assert(fresh_token_effect(known_tokens(*old(store), oauth_base_url@, keyring_secret), store.tokens(), oauth_base_url@, now, r));
    r
}

/// The token a grant's fields (access token, refresh token, expiry) and
/// its owner's display name and id make.
pub open spec fn login_token(f: (Seq<char>, Option<Seq<char>>, Option<i64>), name: Seq<char>, id: u64) -> TokenView {
    TokenView { access_token: f.0, display_name: name, user_id: id, refresh_token: f.1, expires_at: f.2 }
}

/// `r` is what a login gives when the token endpoint answered
/// `token_response` and the user-details request answered `user_response`:
/// the token endpoint's error when it yields no token, else the details'
/// error, else the login under `oauth_base_url` with the granted token and
/// its owner.
pub open spec fn login_outcome(
    token_response: Result<HttpResponse, HttpError>,
    user_response: Result<HttpResponse, HttpError>,
    now: i64,
    oauth_base_url: Seq<char>,
    r: Result<LoginResult, AuthError>,
) -> bool {
    match token_fields(token_response, now) {
        None => r matches Err(e) && token_error(token_response, e),
        Some(f) => exists|u: Result<(String, u64), AuthError>|
            #[trigger] user_details_parsed(user_response, u) && match u {
                Ok(o) => r matches Ok(l) && l.oauth_base_url@ == oauth_base_url && l.token@ == login_token(f, o.0@, o.1),
                Err(e) => r == Err::<LoginResult, AuthError>(e),
            },
    }
}

/// Finishes a login from the granted token's fields and the owner's
/// details as the API reported them: with the details, the token is
/// stored under `oauth_base_url` and returned; an error in the details is
/// returned and nothing is stored.
pub fn finish_login(
    store: &mut TokenStore,
    oauth_base_url: &str,
    fields: (String, Option<String>, Option<i64>),
    owner: Result<(String, u64), AuthError>,
) -> (r: Result<LoginResult, AuthError>)
    ensures
        final(store).pending() == old(store).pending(),
        match owner {
            Ok(o) => r matches Ok(l) && l.oauth_base_url@ == oauth_base_url@ && l.token@ == login_token(fields_view(fields), o.0@, o.1)
                && final(store).tokens() == old(store).tokens().insert(oauth_base_url@, l.token@),
            Err(e) => r == Err::<LoginResult, AuthError>(e) && final(store).tokens() == old(store).tokens(),
        },
{
    let (access_token, refresh_token, expires_at) = fields;
    let (display_name, user_id) = match owner {
        Ok(o) => o,
        Err(e) => return Err(e),
    };
    let token = StoredToken { access_token, display_name, user_id, refresh_token, expires_at };
    store.set_token(oauth_base_url, copy_token(&token));
    Ok(LoginResult { oauth_base_url: oauth_base_url.to_owned(), token })
}

/// Completes a login once the browser has handed back the authorization
/// `code`: exchanges it (with the PKCE `code_verifier`) for tokens at
/// `oauth_base_url`, looks up the token's owner through the API at
/// `api_base_url`, and stores the login. Expiry is counted from Unix time
/// `now`. The result is what the two answers the client gave make of the
/// login (`login_outcome`).
pub fn complete_login_at<C: HttpClient>(
    client: &C,
    store: &mut TokenStore,
    settings: &AppSettings,
    api_base_url: &str,
    oauth_base_url: &str,
    code: String,
    redirect_uri: String,
    code_verifier: String,
    now: i64,
) -> (r: Result<LoginResult, AuthError>)
    ensures
        final(store).pending() == old(store).pending(),
        r is Err ==> final(store).tokens() == old(store).tokens(),
        r matches Ok(l) ==> l.oauth_base_url@ == oauth_base_url@
            && final(store).tokens() == old(store).tokens().insert(oauth_base_url@, l.token@),
        exists|token_response: Result<HttpResponse, HttpError>, user_response: Result<HttpResponse, HttpError>|
            #[trigger] login_outcome(token_response, user_response, now, oauth_base_url@, r),
{
    let client_id = client_id_for(settings, oauth_base_url);
    let form = authorization_code_form(client_id, code, redirect_uri, code_verifier);
    let response = client.request(token_request(oauth_base_url, form));
    let fields = match parse_token_response(response, now) {
        Ok(t) => t,
        Err(e) => {
            assert(login_outcome(response, response, now, oauth_base_url@, Err::<LoginResult, AuthError>(e)));
            return Err(e);
        },
    };
    let owner = fetch_user_details_with(client, api_base_url, fields.0.as_str());
    let ghost user_response = choose|resp: Result<HttpResponse, HttpError>| #[trigger] user_details_parsed(resp, owner);
    let ghost f = fields_view(fields);
    let ghost o = owner;
    let r = finish_login(store, oauth_base_url, fields, owner);
    assert(user_details_parsed(user_response, o));
    assert(token_fields(response, now) == Some(f));
    assert(login_outcome(response, user_response, now, oauth_base_url@, r));
    r
}

/// A pending keyring read is consumed by the first token lookup: a second
/// lookup for the same URL leaves the logins as the first one left them,
/// whatever secret it is handed.
pub proof fn law_keyring_read_consumed_once(
    tokens: Map<Seq<char>, TokenView>,
    pending: Set<Seq<char>>,
    url: Seq<char>,
    first: Option<(Seq<char>, Option<Seq<char>>)>,
    second: Option<(Seq<char>, Option<Seq<char>>)>,
)
    ensures
        after_keyring_read(after_keyring_read(tokens, pending, url, first), pending.remove(url), url, second)
            == after_keyring_read(tokens, pending, url, first),
{
}

/// A login that was saved loads back as it was: written with its secrets
/// in the file, loading restores it; written with its secrets in the
/// keyring, loading marks it for a keyring read, and the first lookup with
/// the secrets the keyring holds restores it.
pub proof fn law_saved_login_loads_back(
    entries: Seq<(String, PersistedToken)>,
    url: Seq<char>,
    t: TokenView,
    in_keyring: bool,
    keyring: Option<(Seq<char>, Option<Seq<char>>)>,
)
    requires
        persisted_map(entries).contains_key(url),
        persisted_as(t, persisted_map(entries)[url], in_keyring),
        in_keyring ==> keyring == Some((t.access_token, t.refresh_token)),
    ensures
        ({
            let m = persisted_map(entries);
            let known = after_keyring_read(loaded_tokens(m), loaded_pending(m), url, keyring);
            &&& loaded_pending(m).contains(url) == in_keyring
            &&& known.contains_key(url)
            &&& known[url] == t
        }),
{
    let m = persisted_map(entries);
    let p = m[url];
    if in_keyring {
        assert(p.access_token_fallback is None);
    } else {
        assert(p.access_token_fallback is Some);
    }
}

/// Trimming trailing slashes twice is trimming them once.
pub proof fn lemma_trim_end_idempotent(s: Seq<char>, c: char)
    ensures
        trim_end(trim_end(s, c), c) == trim_end(s, c),
        trim_end(s, c).len() == 0 || trim_end(s, c).last() != c,
    decreases s.len(),
{
    if s.len() > 0 && s.last() == c {
        lemma_trim_end_idempotent(s.drop_last(), c);
    }
}

/// Mapping an API base URL to its OAuth host is idempotent: the OAuth host
/// of an OAuth host is itself.
pub proof fn law_oauth_base_idempotent(api_base_url: Seq<char>)
    ensures
        oauth_base_of(oauth_base_of(api_base_url)) == oauth_base_of(api_base_url),
{
    reveal_strlit("https://www.openstreetmap.org");
    reveal_strlit("https://api.openstreetmap.org");
    lemma_trim_end_idempotent(api_base_url, '/');
    let www = "https://www.openstreetmap.org"@;
    assert(www.last() == 'g');
    assert(trim_end(www, '/') == www);
    assert(www[8] != PRIMARY_API_URL@[8]);
}

} // verus!
