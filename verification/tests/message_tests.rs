use osm_gpui::auth::AuthError;
use osm_gpui::capture::CaptureError;
use osm_gpui::http::HttpError;

#[test]
fn auth_http_error_message_shows_first_body_line() {
    let e = AuthError::Http { status: 401, body: "bad token\r\nmore detail".to_string() };
    assert_eq!(e.message(), "OSM OAuth error 401: bad token");
    let e = AuthError::Http { status: 500, body: String::new() };
    assert_eq!(e.message(), "OSM OAuth error 500: ");
    let e = AuthError::Http { status: 400, body: "a\rb".to_string() };
    assert_eq!(e.message(), "OSM OAuth error 400: a\rb");
}

#[test]
fn auth_error_messages() {
    assert_eq!(AuthError::Network("down".to_string()).message(), "Network error: down");
    assert_eq!(AuthError::Parse("eof".to_string()).message(), "Failed to parse OSM response: eof");
    assert_eq!(AuthError::NotLoggedIn.message(), "Not logged in");
    assert_eq!(
        AuthError::NoRefreshToken.message(),
        "Login expired and can't be refreshed; please sign in again"
    );
    assert_eq!(
        AuthError::Denied { reason: "access_denied".to_string() }.message(),
        "Sign in was not completed: access_denied"
    );
}

#[test]
fn http_error_messages() {
    assert_eq!(HttpError::Transport("timeout".to_string()).message(), "transport error: timeout");
    assert_eq!(HttpError::Status { status: 404, body: vec![1, 2] }.message(), "HTTP 404");
}

#[test]
fn capture_error_messages() {
    assert_eq!(CaptureError::WindowNotFound.message(), "no on-screen window found for this PID");
    let e = CaptureError::ScreencaptureFailed { status: Some(-3), stderr: "boom".to_string() };
    assert_eq!(e.message(), "screencapture exited with Some(-3): boom");
    let e = CaptureError::ScreencaptureFailed { status: None, stderr: String::new() };
    assert_eq!(e.message(), "screencapture exited with None: ");
    let io = std::io::Error::new(std::io::ErrorKind::Other, "disk full");
    assert_eq!(CaptureError::Io(io).message(), "io error: disk full");
}
