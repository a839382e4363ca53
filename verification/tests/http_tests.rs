use std::time::Duration;

use osm_gpui::http::{retry_step, Body, HttpError, HttpRequest, HttpResponse, Method, RetryPolicy, RetryStep};

fn ok(status: u16, body: &str) -> Result<HttpResponse, HttpError> {
    Ok(HttpResponse { status, body: body.as_bytes().to_vec() })
}

fn status_err(status: u16, body: &str) -> Result<HttpResponse, HttpError> {
    Err(HttpError::Status { status, body: body.as_bytes().to_vec() })
}

fn transport_err(msg: &str) -> Result<HttpResponse, HttpError> {
    Err(HttpError::Transport(msg.to_string()))
}

/// Plays a scripted sequence of outcomes through the retry decisions and
/// returns the final outcome, the number of attempts and the waits.
fn run(
    script: Vec<Result<HttpResponse, HttpError>>,
    policy: &RetryPolicy,
) -> (Result<HttpResponse, HttpError>, usize, Vec<Duration>) {
    let mut waits = Vec::new();
    let mut attempt: u32 = 0;
    for outcome in script {
        attempt += 1;
        match retry_step(policy, attempt, &outcome) {
            RetryStep::Finish => return (outcome, attempt as usize, waits),
            RetryStep::RetryAfter(d) => waits.push(d),
        }
    }
    panic!("script ran out of outcomes");
}

#[test]
fn retries_then_succeeds_on_retryable_status() {
    let (resp, attempts, waits) =
        run(vec![status_err(503, "busy"), ok(200, "done")], &RetryPolicy::standard());
    let resp = resp.unwrap();
    assert_eq!(resp.status, 200);
    assert_eq!(resp.body, b"done");
    assert_eq!(attempts, 2);
    assert_eq!(waits, vec![Duration::from_millis(200)]);
}

#[test]
fn does_not_retry_non_retryable_status() {
    let (resp, attempts, _) = run(vec![status_err(400, "bad request")], &RetryPolicy::standard());
    assert!(matches!(resp, Err(HttpError::Status { status: 400, .. })));
    assert_eq!(attempts, 1);
}

#[test]
fn exhausts_retries_and_returns_last_error() {
    let (resp, attempts, waits) = run(
        vec![status_err(503, "1"), status_err(503, "2"), status_err(503, "3")],
        &RetryPolicy::standard(),
    );
    match resp {
        Err(HttpError::Status { status, body }) => {
            assert_eq!(status, 503);
            assert_eq!(body, b"3");
        }
        other => panic!("unexpected {:?}", other),
    }
    assert_eq!(attempts, 3);
    assert_eq!(waits, vec![Duration::from_millis(200), Duration::from_millis(500)]);
}

#[test]
fn retries_transport_errors() {
    let (resp, attempts, _) = run(vec![transport_err("dns"), ok(200, "done")], &RetryPolicy::standard());
    assert_eq!(resp.unwrap().status, 200);
    assert_eq!(attempts, 2);
}

#[test]
fn retry_policy_none_makes_a_single_attempt() {
    let (resp, attempts, _) = run(vec![status_err(503, "busy")], &RetryPolicy::none());
    assert!(matches!(resp, Err(HttpError::Status { status: 503, .. })));
    assert_eq!(attempts, 1);
}

#[test]
fn retry_policies() {
    let s = RetryPolicy::standard();
    assert_eq!(s.max_attempts, 3);
    assert_eq!(s.delays, vec![Duration::from_millis(200), Duration::from_millis(500)]);
    let n = RetryPolicy::none();
    assert_eq!(n.max_attempts, 1);
    assert!(n.delays.is_empty());
}

#[test]
fn request_builders() {
    let r = HttpRequest::get("https://x.example/a".to_string()).header("Accept", "text/plain".to_string()).bearer("tok");
    assert_eq!(r.method, Method::Get);
    assert_eq!(r.url, "https://x.example/a");
    assert_eq!(
        r.headers,
        vec![
            ("Accept".to_string(), "text/plain".to_string()),
            ("Authorization".to_string(), "Bearer tok".to_string()),
        ]
    );
    assert!(r.body.is_none());
    assert_eq!(r.timeout, Duration::from_secs(30));
    let p = HttpRequest::post_form("https://x.example/t".to_string(), vec![("k".to_string(), "v".to_string())]);
    assert_eq!(p.method, Method::Post);
    assert!(matches!(&p.body, Some(Body::Form(f)) if f == &vec![("k".to_string(), "v".to_string())]));
}

#[test]
fn response_into_string_requires_utf8() {
    assert_eq!(HttpResponse { status: 200, body: b"hi".to_vec() }.into_string().unwrap(), "hi");
    assert!(matches!(
        HttpResponse { status: 200, body: vec![0xc3] }.into_string(),
        Err(HttpError::Transport(_))
    ));
}
