use smallstack::files::StaticError;
use smallstack::plan::error_answer;

#[test]
fn static_error_display_format() {
    let e = StaticError::NotFound("/x".into());
    assert_eq!(e.to_string(), "not found: /x");

    let e = StaticError::Traversal("/etc".into());
    assert_eq!(e.to_string(), "path traversal denied: /etc");

    let io = std::io::Error::new(std::io::ErrorKind::NotFound, "missing file");
    let e = StaticError::Io(io);
    assert!(e.to_string().contains("io error:"));
    assert!(e.to_string().contains("missing file"));
}

#[test]
fn static_error_status_code() {
    let io = std::io::Error::new(std::io::ErrorKind::Other, "");
    assert_eq!(StaticError::NotFound("/".into()).status_code(), 404);
    assert_eq!(StaticError::Traversal("/".into()).status_code(), 403);
    assert_eq!(StaticError::Io(io).status_code(), 500);
}

#[test]
fn static_error_user_message() {
    let io = std::io::Error::new(std::io::ErrorKind::Other, "");
    assert_eq!(StaticError::NotFound("/secret".into()).user_message(), "not found");
    assert_eq!(StaticError::Traversal("/etc".into()).user_message(), "path traversal denied");
    assert_eq!(StaticError::Io(io).user_message(), "internal server error");
}

#[test]
fn error_answer_hides_the_path() {
    let (status, body) = error_answer(&StaticError::Traversal("/etc/passwd".into()));
    assert_eq!(status, 403);
    assert_eq!(body, "{\"message\":\"path traversal denied\"}");
    let (status, body) = error_answer(&StaticError::NotFound("/secret".into()));
    assert_eq!(status, 404);
    assert_eq!(body, "{\"message\":\"not found\"}");
    let io = std::io::Error::new(std::io::ErrorKind::Other, "disk");
    let (status, body) = error_answer(&StaticError::Io(io));
    assert_eq!(status, 500);
    assert_eq!(body, "{\"message\":\"internal server error\"}");
}
