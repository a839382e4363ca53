use std::cell::RefCell;

use osm_gpui::auth::{
    authorization_code_form, authorize_url, build_token_store, callback_code, callback_page,
    client_id_for, code_challenge, complete_login_at, current_token, ensure_fresh_token_at,
    ensure_fresh_token_with, finish_login, unix_seconds, generate_url_safe_token, is_callback_request, load, now_unix,
    oauth_base_for, parse_callback_query, parse_token_response, parse_user_details,
    persisted_token, redirect_uri, refresh_form, refresh_outcome, refresh_request, refresh_with,
    token_request, url_path, user_details_request, AuthError, PersistedStore, PersistedToken,
    StoredToken, TokenSecret, TokenStore, DEFAULT_CLIENT_ID,
};
use osm_gpui::http::{Body, HttpClient, HttpError, HttpRequest, HttpResponse, Method};
use osm_gpui::settings::AppSettings;

/// Answers requests from a script, oldest first, and records them.
struct FakeClient {
    responses: RefCell<Vec<Result<HttpResponse, HttpError>>>,
    requests: RefCell<Vec<HttpRequest>>,
}

impl FakeClient {
    fn new(responses: Vec<Result<HttpResponse, HttpError>>) -> Self {
        FakeClient { responses: RefCell::new(responses), requests: RefCell::new(Vec::new()) }
    }

    fn request_count(&self) -> usize {
        self.requests.borrow().len()
    }
}

impl HttpClient for FakeClient {
    fn request(&self, req: HttpRequest) -> Result<HttpResponse, HttpError> {
        self.requests.borrow_mut().push(req);
        let mut responses = self.responses.borrow_mut();
        if responses.is_empty() {
            panic!("FakeClient: no more scripted responses");
        }
        responses.remove(0)
    }
}

fn ok(status: u16, body: &str) -> Result<HttpResponse, HttpError> {
    Ok(HttpResponse { status, body: body.as_bytes().to_vec() })
}

fn status_err(status: u16, body: &str) -> Result<HttpResponse, HttpError> {
    Err(HttpError::Status { status, body: body.as_bytes().to_vec() })
}

fn param<'a>(params: &'a [(String, String)], key: &str) -> Option<&'a String> {
    params.iter().rev().find(|(k, _)| k == key).map(|(_, v)| v)
}

fn token(access: &str, refresh: Option<&str>, expires_at: Option<i64>) -> StoredToken {
    StoredToken {
        access_token: access.into(),
        display_name: "alice".into(),
        user_id: 1,
        refresh_token: refresh.map(|s| s.to_string()),
        expires_at,
    }
}

fn form_of(req: &HttpRequest) -> Vec<(String, String)> {
    match &req.body {
        Some(Body::Form(f)) => f.clone(),
        None => Vec::new(),
    }
}

#[test]
fn oauth_base_for_primary_api_is_website() {
    assert_eq!(oauth_base_for("https://api.openstreetmap.org"), "https://www.openstreetmap.org");
}

#[test]
fn oauth_base_for_dev_api_is_itself() {
    assert_eq!(
        oauth_base_for("https://master.apis.dev.openstreetmap.org"),
        "https://master.apis.dev.openstreetmap.org"
    );
}

#[test]
fn oauth_base_for_ignores_trailing_slashes() {
    assert_eq!(oauth_base_for("https://api.openstreetmap.org//"), "https://www.openstreetmap.org");
    assert_eq!(oauth_base_for("https://dev.example/"), "https://dev.example");
}

#[test]
fn code_challenge_is_deterministic_and_base64url() {
    let verifier = "abc123";
    let c1 = code_challenge(verifier);
    let c2 = code_challenge(verifier);
    assert_eq!(c1, c2);
    assert!(!c1.contains('+'));
    assert!(!c1.contains('/'));
    assert!(!c1.contains('='));
}

#[test]
fn code_challenge_matches_rfc7636_example() {
    assert_eq!(
        code_challenge("dBjftJeZ4CVP-mB92K27uhbUJU1p1r_wW1gFWFOEjXk"),
        "E9Melhoa2OwvFrEMTJguCHaoeK1t8URWbuGJSstw-cM"
    );
}

#[test]
fn generate_url_safe_token_has_expected_length_and_charset() {
    let tok = generate_url_safe_token(32);
    assert!(tok.len() >= 40);
    assert!(tok.chars().all(|c| c.is_ascii_alphanumeric() || c == '-' || c == '_'));
}

#[test]
fn generate_url_safe_token_length_is_unpadded_base64() {
    assert_eq!(generate_url_safe_token(32).len(), 43);
    assert_eq!(generate_url_safe_token(16).len(), 22);
    assert_eq!(generate_url_safe_token(0).len(), 0);
}

#[test]
fn parse_callback_query_extracts_code_and_state() {
    let params = parse_callback_query("/callback?code=abc&state=xyz");
    assert_eq!(param(&params, "code"), Some(&"abc".to_string()));
    assert_eq!(param(&params, "state"), Some(&"xyz".to_string()));
}

#[test]
fn parse_callback_query_extracts_error() {
    let params = parse_callback_query(
        "/callback?error=access_denied&error_description=User%20denied%20access&state=xyz",
    );
    assert_eq!(param(&params, "error"), Some(&"access_denied".to_string()));
    assert_eq!(param(&params, "error_description"), Some(&"User denied access".to_string()));
}

#[test]
fn parse_callback_query_without_query_or_equals() {
    assert!(parse_callback_query("/callback").is_empty());
    let params = parse_callback_query("/callback?flag&k=v=w");
    assert_eq!(params, vec![("k".to_string(), "v=w".to_string())]);
}

#[test]
fn url_path_strips_query_string() {
    assert_eq!(url_path("/callback?code=abc"), "/callback");
    assert_eq!(url_path("/callback"), "/callback");
    assert_eq!(url_path("/favicon.ico"), "/favicon.ico");
}

#[test]
fn callback_requests_are_recognized_by_path() {
    assert!(is_callback_request("/callback?code=abc"));
    assert!(is_callback_request("/callback"));
    assert!(!is_callback_request("/favicon.ico"));
    assert!(!is_callback_request("/?x=/callback"));
    assert!(callback_page(true).contains("Signed in"));
    assert!(callback_page(false).contains("Sign in failed"));
}

#[test]
fn callback_code_reports_denial_mismatch_and_missing_code() {
    let denied = parse_callback_query(
        "/callback?error=access_denied&error_description=User%20denied%20access&state=xyz",
    );
    match callback_code(&denied, "xyz") {
        Err(AuthError::Denied { reason }) => assert_eq!(reason, "User denied access"),
        other => panic!("unexpected {:?}", other),
    }
    let bare_error = parse_callback_query("/callback?error=access_denied");
    match callback_code(&bare_error, "xyz") {
        Err(AuthError::Denied { reason }) => assert_eq!(reason, "access_denied"),
        other => panic!("unexpected {:?}", other),
    }
    let wrong_state = parse_callback_query("/callback?code=abc&state=other");
    assert!(matches!(callback_code(&wrong_state, "xyz"), Err(AuthError::StateMismatch)));
    let no_code = parse_callback_query("/callback?state=xyz");
    assert!(matches!(callback_code(&no_code, "xyz"), Err(AuthError::NoRedirect)));
    let good = parse_callback_query("/callback?code=abc&state=xyz");
    assert_eq!(callback_code(&good, "xyz").unwrap(), "abc");
}

#[test]
fn authorize_url_encodes_every_parameter() {
    let url = authorize_url("https://osm.example", "cid", "http://127.0.0.1:8080/callback", "s t", "ch");
    assert_eq!(
        url,
        "https://osm.example/oauth2/authorize?client_id=cid\
&redirect_uri=http%3A%2F%2F127.0.0.1%3A8080%2Fcallback\
&response_type=code&scope=read_prefs%20write_api&state=s%20t\
&code_challenge=ch&code_challenge_method=S256"
    );
    assert_eq!(redirect_uri(8080), "http://127.0.0.1:8080/callback");
    assert_eq!(redirect_uri(0), "http://127.0.0.1:0/callback");
}

#[test]
fn client_id_for_prefers_non_empty_override() {
    let mut settings = AppSettings::default();
    assert_eq!(client_id_for(&settings, "https://dev.example"), DEFAULT_CLIENT_ID);
    settings.client_ids.push(("https://dev.example".to_string(), "dev-id".to_string()));
    assert_eq!(client_id_for(&settings, "https://dev.example"), "dev-id");
    settings.client_ids.push(("https://dev.example".to_string(), String::new()));
    assert_eq!(client_id_for(&settings, "https://dev.example"), DEFAULT_CLIENT_ID);
}

#[test]
fn token_requests_are_form_posts() {
    let req = token_request("https://osm.example", refresh_form("cid".into(), "rt".into()));
    assert_eq!(req.method, Method::Post);
    assert_eq!(req.url, "https://osm.example/oauth2/token");
    assert_eq!(
        form_of(&req),
        vec![
            ("grant_type".to_string(), "refresh_token".to_string()),
            ("client_id".to_string(), "cid".to_string()),
            ("refresh_token".to_string(), "rt".to_string()),
        ]
    );
    let f = authorization_code_form("cid".into(), "code".into(), "uri".into(), "ver".into());
    assert_eq!(f[0], ("grant_type".to_string(), "authorization_code".to_string()));
    assert_eq!(f[4], ("code_verifier".to_string(), "ver".to_string()));
}

#[test]
fn parse_token_response_reads_fields_and_reports_errors() {
    let t = parse_token_response(ok(200, r#"{"access_token":"a","refresh_token":"r","expires_in":60}"#), 1000)
        .unwrap();
    assert_eq!(t, ("a".to_string(), Some("r".to_string()), Some(1060)));
    let t = parse_token_response(ok(200, r#"{"access_token":"a","expires_in":"x"}"#), 5).unwrap();
    assert_eq!(t, ("a".to_string(), None, None));
    match parse_token_response(ok(200, r#"{"token":"a"}"#), 0) {
        Err(AuthError::Parse(m)) => assert_eq!(m, "missing access_token"),
        other => panic!("unexpected {:?}", other),
    }
    assert!(matches!(parse_token_response(ok(200, "not json"), 0), Err(AuthError::Parse(_))));
    assert!(matches!(
        parse_token_response(Ok(HttpResponse { status: 200, body: vec![0xff, 0xfe] }), 0),
        Err(AuthError::Network(_))
    ));
    match parse_token_response(status_err(401, "nope\nmore"), 0) {
        Err(AuthError::Http { status, body }) => {
            assert_eq!(status, 401);
            assert_eq!(body, "nope\nmore");
        }
        other => panic!("unexpected {:?}", other),
    }
    assert!(matches!(
        parse_token_response(Err(HttpError::Transport("dns".into())), 0),
        Err(AuthError::Network(m)) if m == "dns"
    ));
}

#[test]
fn parse_token_response_expiry_wraps_on_overflow() {
    let t = parse_token_response(ok(200, r#"{"access_token":"a","expires_in":10}"#), i64::MAX).unwrap();
    assert_eq!(t.2, Some(i64::MIN + 9));
}

#[test]
fn user_details_request_and_response() {
    let req = user_details_request("https://api.example//", "tok");
    assert_eq!(req.method, Method::Get);
    assert_eq!(req.url, "https://api.example/api/0.6/user/details.json");
    assert_eq!(req.headers, vec![("Authorization".to_string(), "Bearer tok".to_string())]);
    let u = parse_user_details(ok(200, r#"{"user":{"display_name":"bob","id":7}}"#)).unwrap();
    assert_eq!(u, ("bob".to_string(), 7));
    match parse_user_details(ok(200, r#"{"user":{"id":7}}"#)) {
        Err(AuthError::Parse(m)) => assert_eq!(m, "missing display_name"),
        other => panic!("unexpected {:?}", other),
    }
    match parse_user_details(ok(200, r#"{"user":{"display_name":"bob","id":-1}}"#)) {
        Err(AuthError::Parse(m)) => assert_eq!(m, "missing id"),
        other => panic!("unexpected {:?}", other),
    }
    match parse_user_details(ok(200, r#"{}"#)) {
        Err(AuthError::Parse(m)) => assert_eq!(m, "missing user"),
        other => panic!("unexpected {:?}", other),
    }
}

#[test]
fn refresh_keeps_owner_and_old_refresh_token() {
    let existing = token("old", Some("rt"), Some(0));
    let t = refresh_outcome(&existing, ok(200, r#"{"access_token":"new","expires_in":10}"#), 100).unwrap();
    assert_eq!(t.access_token, "new");
    assert_eq!(t.display_name, "alice");
    assert_eq!(t.user_id, 1);
    assert_eq!(t.refresh_token.as_deref(), Some("rt"));
    assert_eq!(t.expires_at, Some(110));
    let t = refresh_outcome(&existing, ok(200, r#"{"access_token":"new","refresh_token":"rt2"}"#), 100)
        .unwrap();
    assert_eq!(t.refresh_token.as_deref(), Some("rt2"));
    assert_eq!(t.expires_at, None);
}

#[test]
fn refresh_request_needs_a_refresh_token() {
    let settings = AppSettings::default();
    assert!(matches!(
        refresh_request(&settings, "https://osm.example", &token("a", None, None)),
        Err(AuthError::NoRefreshToken)
    ));
    let req = refresh_request(&settings, "https://osm.example", &token("a", Some("rt"), None)).unwrap();
    assert_eq!(req.url, "https://osm.example/oauth2/token");
    assert_eq!(form_of(&req)[2], ("refresh_token".to_string(), "rt".to_string()));
}

#[test]
fn ensure_fresh_token_with_returns_unexpired_token_without_network() {
    let mut store = TokenStore::default();
    let settings = AppSettings::default();
    let oauth_base = "https://auth-test-valid.example";
    store.set_token(oauth_base, token("valid-token", Some("refresh-tok"), Some(now_unix() + 3600)));
    let client = FakeClient::new(vec![]);
    let token = ensure_fresh_token_with(&client, &mut store, &settings, oauth_base, None).unwrap();
    assert_eq!(token.access_token, "valid-token");
    assert_eq!(client.request_count(), 0);
}

#[test]
fn ensure_fresh_token_with_refreshes_expired_token() {
    let mut store = TokenStore::default();
    let settings = AppSettings::default();
    let oauth_base = "https://auth-test-expired-ok.example";
    store.set_token(oauth_base, token("old-token", Some("refresh-tok"), Some(now_unix() - 10)));
    let body = r#"{"access_token":"new-token","expires_in":3600}"#;
    let client = FakeClient::new(vec![ok(200, body)]);
    let token = ensure_fresh_token_with(&client, &mut store, &settings, oauth_base, None).unwrap();
    assert_eq!(token.access_token, "new-token");
    assert_eq!(token.display_name, "alice");
    // Response omitted a new refresh_token, so the old one is kept.
    assert_eq!(token.refresh_token.as_deref(), Some("refresh-tok"));
    assert!(!token.is_expired());
    assert_eq!(store.get(oauth_base).unwrap().access_token, "new-token");
}

#[test]
fn ensure_fresh_token_with_propagates_refresh_failure() {
    let mut store = TokenStore::default();
    let settings = AppSettings::default();
    let oauth_base = "https://auth-test-expired-fail.example";
    store.set_token(oauth_base, token("old-token", Some("refresh-tok"), Some(now_unix() - 10)));
    let client = FakeClient::new(vec![status_err(400, "invalid_grant")]);
    let err = ensure_fresh_token_with(&client, &mut store, &settings, oauth_base, None).unwrap_err();
    assert!(matches!(err, AuthError::Http { status: 400, .. }));
    assert_eq!(store.get(oauth_base).unwrap().access_token, "old-token");
}

#[test]
fn ensure_fresh_token_with_not_logged_in_is_an_error() {
    let mut store = TokenStore::default();
    let settings = AppSettings::default();
    let client = FakeClient::new(vec![]);
    let err = ensure_fresh_token_with(&client, &mut store, &settings, "https://auth-test-nologin.example", None)
        .unwrap_err();
    assert!(matches!(err, AuthError::NotLoggedIn));
}

#[test]
fn ensure_fresh_token_at_expired_without_refresh_token() {
    let mut store = TokenStore::default();
    let settings = AppSettings::default();
    store.set_token("https://x.example", token("old", None, Some(50)));
    let client = FakeClient::new(vec![]);
    let err = ensure_fresh_token_at(&client, &mut store, &settings, "https://x.example", None, 50).unwrap_err();
    assert!(matches!(err, AuthError::NoRefreshToken));
    let t = ensure_fresh_token_at(&client, &mut store, &settings, "https://x.example", None, 49).unwrap();
    assert_eq!(t.access_token, "old");
    assert_eq!(client.request_count(), 0);
}

#[test]
fn refresh_with_sends_the_refresh_grant_and_stores_the_result() {
    let mut store = TokenStore::default();
    let mut settings = AppSettings::default();
    settings.client_ids.push(("https://x.example".to_string(), "cid".to_string()));
    store.set_token("https://x.example", token("old", Some("rt"), None));
    let client = FakeClient::new(vec![ok(200, r#"{"access_token":"new","refresh_token":"rt2"}"#)]);
    let t = refresh_with(&client, &mut store, &settings, "https://x.example", None).unwrap();
    assert_eq!(t.refresh_token.as_deref(), Some("rt2"));
    let req = &client.requests.borrow()[0];
    assert_eq!(req.url, "https://x.example/oauth2/token");
    assert_eq!(
        form_of(req),
        vec![
            ("grant_type".to_string(), "refresh_token".to_string()),
            ("client_id".to_string(), "cid".to_string()),
            ("refresh_token".to_string(), "rt".to_string()),
        ]
    );
    assert_eq!(store.get("https://x.example").unwrap().access_token, "new");
}

#[test]
fn stored_token_expiry() {
    let mut token = StoredToken {
        access_token: "tok".into(),
        display_name: "alice".into(),
        user_id: 1,
        refresh_token: None,
        expires_at: None,
    };
    assert!(!token.is_expired(), "no expiry means never expired");

    token.expires_at = Some(now_unix() - 10);
    assert!(token.is_expired());

    token.expires_at = Some(now_unix() + 3600);
    assert!(!token.is_expired());
}

#[test]
fn stored_token_expires_at_its_expiry_second() {
    let token = token("t", None, Some(100));
    assert!(!token.is_expired_at(99));
    assert!(token.is_expired_at(100));
    assert!(token.is_expired_at(101));
}

#[test]
fn build_token_store_uses_fallback_secret_without_marking_pending() {
    let mut persisted = PersistedStore::default();
    persisted.tokens.push((
        "https://www.openstreetmap.org".to_string(),
        PersistedToken {
            display_name: "alice".into(),
            user_id: 42,
            expires_at: None,
            access_token_fallback: Some("fallback-access".into()),
            refresh_token_fallback: Some("fallback-refresh".into()),
        },
    ));

    let store = build_token_store(persisted);

    assert!(
        !store.needs_keyring_read("https://www.openstreetmap.org"),
        "an entry with a fallback secret shouldn't need a keyring read"
    );
    let token = store.get("https://www.openstreetmap.org").unwrap();
    assert_eq!(token.access_token, "fallback-access");
    assert_eq!(token.refresh_token.as_deref(), Some("fallback-refresh"));
}

#[test]
fn build_token_store_defers_keyring_only_entries() {
    let mut persisted = PersistedStore::default();
    persisted.tokens.push((
        "https://api06.dev.openstreetmap.org".to_string(),
        PersistedToken {
            display_name: "bob".into(),
            user_id: 7,
            expires_at: None,
            access_token_fallback: None,
            refresh_token_fallback: None,
        },
    ));

    let store = build_token_store(persisted);

    assert!(
        store.needs_keyring_read("https://api06.dev.openstreetmap.org"),
        "an entry with no fallback secret must defer to the keyring, not read it here"
    );
    let token = store.get("https://api06.dev.openstreetmap.org").unwrap();
    assert_eq!(token.access_token, "", "placeholder until current_token() resolves it");
    assert_eq!(token.display_name, "bob", "non-secret metadata is available immediately");
}

#[test]
fn build_token_store_handles_mixed_fallback_and_pending_entries() {
    let mut persisted = PersistedStore::default();
    persisted.tokens.push((
        "https://www.openstreetmap.org".to_string(),
        PersistedToken {
            display_name: "alice".into(),
            user_id: 42,
            expires_at: None,
            access_token_fallback: Some("fallback-access".into()),
            refresh_token_fallback: None,
        },
    ));
    persisted.tokens.push((
        "https://api06.dev.openstreetmap.org".to_string(),
        PersistedToken {
            display_name: "bob".into(),
            user_id: 7,
            expires_at: None,
            access_token_fallback: None,
            refresh_token_fallback: None,
        },
    ));

    let store = build_token_store(persisted);

    assert_eq!(store.entries().len(), 2);
    assert_eq!(store.pending_urls().len(), 1, "only the keyring-only entry should be deferred");
    assert!(store.needs_keyring_read("https://api06.dev.openstreetmap.org"));
    assert!(!store.needs_keyring_read("https://www.openstreetmap.org"));
}

#[test]
fn current_token_resolves_a_pending_keyring_read_once() {
    let mut persisted = PersistedStore::default();
    persisted.tokens.push((
        "https://dev.example".to_string(),
        PersistedToken {
            display_name: "bob".into(),
            user_id: 7,
            expires_at: Some(5),
            access_token_fallback: None,
            refresh_token_fallback: None,
        },
    ));
    let mut store = load(Some(persisted));
    let secret = TokenSecret { access_token: "kr-access".into(), refresh_token: Some("kr-refresh".into()) };
    let t = current_token(&mut store, "https://dev.example", Some(secret)).unwrap();
    assert_eq!(t.access_token, "kr-access");
    assert_eq!(t.refresh_token.as_deref(), Some("kr-refresh"));
    assert_eq!(t.display_name, "bob");
    assert_eq!(t.expires_at, Some(5));
    assert!(!store.needs_keyring_read("https://dev.example"));
    // A later read ignores whatever secret is passed.
    let t = current_token(&mut store, "https://dev.example", None).unwrap();
    assert_eq!(t.access_token, "kr-access");
}

#[test]
fn current_token_drops_login_whose_keyring_secret_is_gone() {
    let mut persisted = PersistedStore::default();
    persisted.tokens.push((
        "https://dev.example".to_string(),
        PersistedToken {
            display_name: "bob".into(),
            user_id: 7,
            expires_at: None,
            access_token_fallback: None,
            refresh_token_fallback: None,
        },
    ));
    let mut store = build_token_store(persisted);
    assert!(current_token(&mut store, "https://dev.example", None).is_none());
    assert!(store.get("https://dev.example").is_none());
    assert!(store.pending_urls().is_empty());
}

#[test]
fn load_without_config_dir_is_empty() {
    let store = load(None);
    assert!(store.entries().is_empty());
    assert!(store.pending_urls().is_empty());
}

#[test]
fn logout_removes_only_that_login() {
    let mut store = TokenStore::new();
    store.set_token("https://a.example", token("a", None, None));
    store.set_token("https://b.example", token("b", None, None));
    store.logout("https://a.example");
    assert!(store.get("https://a.example").is_none());
    assert_eq!(store.get("https://b.example").unwrap().access_token, "b");
}

#[test]
fn persisted_token_keeps_secrets_only_without_keyring() {
    let t = token("acc", Some("ref"), Some(9));
    let p = persisted_token(&t, true);
    assert_eq!(p.display_name, "alice");
    assert_eq!(p.user_id, 1);
    assert_eq!(p.expires_at, Some(9));
    assert!(p.access_token_fallback.is_none());
    assert!(p.refresh_token_fallback.is_none());
    let p = persisted_token(&t, false);
    assert_eq!(p.access_token_fallback.as_deref(), Some("acc"));
    assert_eq!(p.refresh_token_fallback.as_deref(), Some("ref"));
}

#[test]
fn complete_login_exchanges_code_and_stores_login() {
    let mut store = TokenStore::new();
    let settings = AppSettings::default();
    let client = FakeClient::new(vec![
        ok(200, r#"{"access_token":"acc","refresh_token":"ref","expires_in":100}"#),
        ok(200, r#"{"user":{"display_name":"carol","id":99}}"#),
    ]);
    let result = complete_login_at(
        &client,
        &mut store,
        &settings,
        "https://api.openstreetmap.org",
        "https://www.openstreetmap.org",
        "code1".into(),
        "http://127.0.0.1:1/callback".into(),
        "verifier".into(),
        1000,
    )
    .unwrap();
    assert_eq!(result.oauth_base_url, "https://www.openstreetmap.org");
    assert_eq!(result.token.display_name, "carol");
    assert_eq!(result.token.user_id, 99);
    assert_eq!(result.token.expires_at, Some(1100));
    let stored = store.get("https://www.openstreetmap.org").unwrap();
    assert_eq!(stored.access_token, "acc");
    let requests = client.requests.borrow();
    assert_eq!(requests[0].url, "https://www.openstreetmap.org/oauth2/token");
    assert_eq!(requests[1].url, "https://api.openstreetmap.org/api/0.6/user/details.json");
    assert_eq!(requests[1].headers[0].1, "Bearer acc");
}

#[test]
fn complete_login_failure_leaves_store_unchanged() {
    let mut store = TokenStore::new();
    let settings = AppSettings::default();
    let client = FakeClient::new(vec![status_err(400, "invalid_grant")]);
    let err = complete_login_at(
        &client,
        &mut store,
        &settings,
        "https://api.example",
        "https://api.example",
        "c".into(),
        "r".into(),
        "v".into(),
        0,
    );
    assert!(matches!(err, Err(AuthError::Http { status: 400, .. })));
    assert!(store.get("https://api.example").is_none());
    assert_eq!(client.request_count(), 1);
}

#[test]
fn finishing_a_login_stores_the_token_with_its_owner() {
    let mut store = TokenStore::new();
    let fields = ("acc".to_string(), Some("ref".to_string()), Some(3600));
    let login = finish_login(&mut store, "https://o.example", fields, Ok(("mapper".to_string(), 42))).unwrap();
    assert_eq!(login.oauth_base_url, "https://o.example");
    assert_eq!(login.token.access_token, "acc");
    assert_eq!(login.token.display_name, "mapper");
    assert_eq!(login.token.user_id, 42);
    assert_eq!(login.token.refresh_token.as_deref(), Some("ref"));
    assert_eq!(login.token.expires_at, Some(3600));
    let stored = current_token(&mut store, "https://o.example", None).unwrap();
    assert_eq!(stored.access_token, "acc");
}

#[test]
fn a_failed_owner_lookup_stores_nothing() {
    let mut store = TokenStore::new();
    let fields = ("acc".to_string(), None, None);
    let err = finish_login(&mut store, "https://o.example", fields, Err(AuthError::Parse("missing id".to_string())));
    assert!(matches!(err, Err(AuthError::Parse(m)) if m == "missing id"));
    assert!(current_token(&mut store, "https://o.example", None).is_none());
}

#[test]
fn clock_readings_become_unix_seconds() {
    assert_eq!(unix_seconds(Some(1_700_000_000)), 1_700_000_000);
    assert_eq!(unix_seconds(None), 0);
    assert_eq!(unix_seconds(Some(u64::MAX)), -1);
}
