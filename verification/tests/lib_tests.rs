use osm_gpui::{is_retryable_status, USER_AGENT, VERSION};

#[test]
fn user_agent_matches_expected_format() {
    assert_eq!(USER_AGENT, "osm-gpui/0.1.0");
    assert!(USER_AGENT.starts_with("osm-gpui/"));
    assert_eq!(USER_AGENT, format!("osm-gpui/{}", VERSION));
}

#[test]
fn retryable_status_covers_429_509_and_5xx() {
    assert!(is_retryable_status(429));
    assert!(is_retryable_status(509));
    assert!(is_retryable_status(500));
    assert!(is_retryable_status(503));
    assert!(is_retryable_status(599));
}

#[test]
fn retryable_status_excludes_other_4xx_and_2xx() {
    assert!(!is_retryable_status(400));
    assert!(!is_retryable_status(401));
    assert!(!is_retryable_status(404));
    assert!(!is_retryable_status(200));
    assert!(!is_retryable_status(600));
}

#[test]
fn retryable_status_boundaries() {
    assert!(!is_retryable_status(499));
    assert!(!is_retryable_status(428));
    assert!(!is_retryable_status(430));
    assert!(is_retryable_status(508));
    assert!(is_retryable_status(510));
}
