//! The HTTP seam shared by every networking call site: requests and
//! responses as plain values, the client trait that performs a request, and
//! the bounded retry schedule.

use vstd::prelude::*;
use vstd::utf8::{decode_utf8, valid_utf8};

use core::time::Duration;

use crate::text::{append_str, decimal, push_decimal};

verus! {

/// The duration of `secs` seconds (`Duration::from_secs`).
pub uninterp spec fn duration_from_secs(secs: u64) -> Duration;

/// The duration of `millis` milliseconds (`Duration::from_millis`).
pub uninterp spec fn duration_from_millis(millis: u64) -> Duration;

/// `Duration::from_secs`, whose result is named by `duration_from_secs`.
pub assume_specification[ core::time::Duration::from_secs ](secs: u64) -> (d: Duration)
    ensures
        d == duration_from_secs(secs),
;

/// `Duration::from_millis`, whose result is named by `duration_from_millis`.
pub assume_specification[ core::time::Duration::from_millis ](millis: u64) -> (d: Duration)
    ensures
        d == duration_from_millis(millis),
;

/// HTTP method used by a request.
#[derive(Debug, Clone, Copy, PartialEq, Eq, Structural)]
pub enum Method {
    Get,
    Post,
}

/// Request body: `application/x-www-form-urlencoded` pairs.
#[derive(Debug)]
pub enum Body {
    Form(Vec<(String, String)>),
}

/// An outgoing HTTP request, independent of any HTTP client implementation.
#[derive(Debug)]
pub struct HttpRequest {
    pub method: Method,
    pub url: String,
    pub headers: Vec<(String, String)>,
    pub body: Option<Body>,
    pub timeout: Duration,
}

/// Abstract form of a header list or a form body.
pub open spec fn pairs_view(p: Seq<(String, String)>) -> Seq<(Seq<char>, Seq<char>)> {
    p.map_values(|e: (String, String)| (e.0@, e.1@))
}

impl HttpRequest {
    /// A `GET` request with the default 30 s timeout and no extra headers.
    pub fn get(url: String) -> (r: Self)
        ensures
            r.method == Method::Get,
            r.url@ == url@,
            r.headers@.len() == 0,
            r.body is None,
            r.timeout == duration_from_secs(30),
    {
        HttpRequest {
            method: Method::Get,
            url,
            headers: Vec::new(),
            body: None,
            timeout: Duration::from_secs(30),
        }
    }

    /// A `POST` request with a form-encoded body.
    pub fn post_form(url: String, form: Vec<(String, String)>) -> (r: Self)
        ensures
            r.method == Method::Post,
            r.url@ == url@,
            r.headers@.len() == 0,
            r.body matches Some(Body::Form(f)) && f@ == form@,
            r.timeout == duration_from_secs(30),
    {
        HttpRequest {
            method: Method::Post,
            url,
            headers: Vec::new(),
            body: Some(Body::Form(form)),
            timeout: Duration::from_secs(30),
        }
    }

    /// Adds a header.
    pub fn header(self, name: &str, value: String) -> (r: Self)
        ensures
            r.method == self.method,
            r.url == self.url,
            pairs_view(r.headers@) == pairs_view(self.headers@).push((name@, value@)),
            r.body == self.body,
            r.timeout == self.timeout,
    {
        let mut s = self;
        s.headers.push((name.to_owned(), value));
        proof {
            assert(pairs_view(s.headers@) =~= pairs_view(self.headers@).push((name@, value@)));
        }
        s
    }

    /// Adds an `Authorization: Bearer <token>` header.
    pub fn bearer(self, token: &str) -> (r: Self)
        ensures
            r.method == self.method,
            r.url == self.url,
            pairs_view(r.headers@) == pairs_view(self.headers@).push(
                ("Authorization"@, "Bearer "@ + token@),
            ),
            r.body == self.body,
            r.timeout == self.timeout,
    {
        let mut value = String::new();
        value.append("Bearer ");
        value.append(token);
        self.header("Authorization", value)
    }
}

/// A successful (2xx) HTTP response.
#[derive(Debug)]
pub struct HttpResponse {
    pub status: u16,
    pub body: Vec<u8>,
}

/// Failure to complete an HTTP request: the transport failed, or the server
/// answered with a non-2xx status.
#[derive(Debug)]
pub enum HttpError {
    Transport(String),
    Status { status: u16, body: Vec<u8> },
}

impl HttpError {
    /// The human-readable form: "transport error: <message>" or
    /// "HTTP <status>".
    pub fn message(&self) -> (r: String)
        ensures
            r@ == match self {
                HttpError::Transport(msg) => "transport error: "@ + msg@,
                HttpError::Status { status, .. } => "HTTP "@ + decimal(*status as nat),
            },
    {
        let mut out = String::new();
        match self {
            HttpError::Transport(msg) => {
                append_str(&mut out, "transport error: ");
                append_str(&mut out, msg.as_str());
            },
            HttpError::Status { status, .. } => {
                append_str(&mut out, "HTTP ");
                push_decimal(&mut out, *status as u64);
            },
        }
        out
    }
}

/// Decodes UTF-8 bytes (`String::from_utf8`); on invalid input, the
/// decoder's error message.
#[verifier::external_body]
pub(crate) fn string_from_utf8(bytes: Vec<u8>) -> (r: Result<String, String>)
    ensures
        match r {
            Ok(s) => valid_utf8(bytes@) && s@ == decode_utf8(bytes@),
            Err(_) => !valid_utf8(bytes@),
        },
{
    String::from_utf8(bytes).map_err(|e| e.to_string())
}

/// Decodes UTF-8 bytes, replacing invalid sequences
/// (`String::from_utf8_lossy`); valid input decodes exactly.
#[verifier::external_body]
pub(crate) fn string_from_utf8_lossy(bytes: &[u8]) -> (r: String)
    ensures
        valid_utf8(bytes@) ==> r@ == decode_utf8(bytes@),
{
    String::from_utf8_lossy(bytes).into_owned()
}

impl HttpResponse {
    /// The body as UTF-8 text.
    pub fn into_string(self) -> (r: Result<String, HttpError>)
        ensures
            match r {
                Ok(s) => valid_utf8(self.body@) && s@ == decode_utf8(self.body@),
                Err(e) => !valid_utf8(self.body@) && e is Transport,
            },
    {
        match string_from_utf8(self.body) {
            Ok(s) => Ok(s),
            Err(msg) => Err(HttpError::Transport(msg)),
        }
    }
}

/// Seam over the concrete HTTP implementation: production code sends the
/// request over the network, tests answer from a script.
pub trait HttpClient {
    fn request(&self, req: HttpRequest) -> Result<HttpResponse, HttpError>;
}

/// Bounded retry schedule: total attempts (the first included) and the delay
/// before each retry, indexed by (attempt number - 1).
#[derive(Debug)]
pub struct RetryPolicy {
    pub max_attempts: u32,
    pub delays: Vec<Duration>,
}

impl RetryPolicy {
    /// Three attempts in all, with 200 ms and 500 ms between them.
    pub fn standard() -> (p: Self)
        ensures
            p.max_attempts == 3,
            p.delays@ == seq![duration_from_millis(200), duration_from_millis(500)],
    {
        let mut delays: Vec<Duration> = Vec::new();
        delays.push(Duration::from_millis(200));
        delays.push(Duration::from_millis(500));
        RetryPolicy { max_attempts: 3, delays }
    }

    /// A single attempt, no retries.
    pub fn none() -> (p: Self)
        ensures
            p.max_attempts == 1,
            p.delays@.len() == 0,
    {
        RetryPolicy { max_attempts: 1, delays: Vec::new() }
    }
}

/// What to do after an attempt.
#[derive(Debug)]
pub enum RetryStep {
    /// Hand this attempt's outcome to the caller.
    Finish,
    /// Wait this long, then make the next attempt.
    RetryAfter(Duration),
}

/// Whether attempt number `attempt` with this outcome is followed by another
/// attempt: transport errors and retryable statuses are retried while
/// attempts remain; successes and other statuses are final.
pub open spec fn wants_retry(
    max_attempts: u32,
    attempt: u32,
    outcome: Result<HttpResponse, HttpError>,
) -> bool {
    match outcome {
        Ok(_) => false,
        Err(HttpError::Status { status, .. }) => attempt < max_attempts && (status == 429 || status
            == 509 || (500 <= status < 600)),
        Err(HttpError::Transport(_)) => attempt < max_attempts,
    }
}

/// The decision after attempt number `attempt` (counting from 1) of a
/// request made under `policy`.
pub fn retry_step(
    policy: &RetryPolicy,
    attempt: u32,
    outcome: &Result<HttpResponse, HttpError>,
) -> (s: RetryStep)
    requires
        attempt >= 1,
        wants_retry(policy.max_attempts, attempt, *outcome) ==> attempt <= policy.delays@.len(),
    ensures
        match s {
            RetryStep::Finish => !wants_retry(policy.max_attempts, attempt, *outcome),
            RetryStep::RetryAfter(d) => wants_retry(policy.max_attempts, attempt, *outcome) && d
                == policy.delays@[attempt - 1],
        },
        outcome matches Err(HttpError::Status { status, .. }) ==> (s is RetryAfter <==> (attempt
            < policy.max_attempts && crate::retryable_status(*status))),
        outcome matches Err(HttpError::Transport(_)) ==> (s is RetryAfter <==> attempt < policy.max_attempts),
        outcome is Ok ==> s is Finish,
{
    let retry = match outcome {
        Ok(_) => false,
        Err(HttpError::Status { status, .. }) => attempt < policy.max_attempts
            && crate::is_retryable_status(*status),
        Err(HttpError::Transport(_)) => attempt < policy.max_attempts,
    };
    if retry {
        RetryStep::RetryAfter(policy.delays[(attempt - 1) as usize])
    } else {
        RetryStep::Finish
    }
}

/// Which failures are retried: while attempts remain, a failure with a
/// retryable status (`crate::retryable_status`, the statuses
/// `is_retryable_status` accepts: 429, 509 and every 5xx) and a transport
/// failure are retried; any other status is handed back at once.
pub proof fn law_retryable_failures_are_retried(max_attempts: u32, attempt: u32, outcome: Result<HttpResponse, HttpError>)
    ensures
        outcome matches Err(HttpError::Status { status, .. }) ==> (wants_retry(max_attempts, attempt, outcome)
            <==> (attempt < max_attempts && crate::retryable_status(status))),
        outcome matches Err(HttpError::Transport(_)) ==> (wants_retry(max_attempts, attempt, outcome) <==> attempt
            < max_attempts),
{
}

/// Retries are bounded: a success is never retried, and no attempt at or
/// beyond the policy's maximum is followed by another.
pub proof fn law_retries_bounded(max_attempts: u32, attempt: u32, outcome: Result<HttpResponse, HttpError>)
    ensures
        outcome is Ok ==> !wants_retry(max_attempts, attempt, outcome),
        attempt >= max_attempts ==> !wants_retry(max_attempts, attempt, outcome),
        outcome matches Err(HttpError::Status { status, .. }) && !(status == 429 || status == 509 || (500
            <= status < 600)) ==> !wants_retry(max_attempts, attempt, outcome),
{
}

} // verus!
