use hyper::header::{HeaderMap, HeaderValue};
use smallstack::router::{Method, Router};
use smallstack::serve::{
    body_limit, dispatch, error_body, error_status, group_path, level_for_status, sse_frame,
    BodyFailure, Dispatch, LogLevel, MaxBodySize, ServeError, State, DEFAULT_MAX_BODY_SIZE,
};

#[test]
fn sse_frame_prefixes_each_line_with_data() {
    let result = sse_frame("line1\nevent: pwn");
    assert_eq!(result, "data: line1\ndata: event: pwn\n\n");
}

#[test]
fn sse_frame_of_empty_and_trailing_newlines() {
    assert_eq!(sse_frame(""), "\n");
    assert_eq!(sse_frame("a\n"), "data: a\n\n");
    assert_eq!(sse_frame("a\n\nb"), "data: a\ndata: \ndata: b\n\n");
    assert_eq!(sse_frame("a\r\nb\r"), "data: a\ndata: b\r\n\n");
}

#[test]
fn serve_error_fields_and_text() {
    let e = ServeError::new(404, "not found");
    assert_eq!(e.code, 404);
    assert_eq!(e.message, "not found");
    assert_eq!(e.to_string(), "404: not found");
}

#[test]
fn error_body_is_json_with_escapes() {
    assert_eq!(error_body("not found"), "{\"message\":\"not found\"}");
    assert_eq!(error_body("a\"b\\c\nd\u{1}"), "{\"message\":\"a\\\"b\\\\c\\nd\\u0001\"}");
    assert_eq!(error_body("é/x"), "{\"message\":\"é/x\"}");
}

#[test]
fn error_status_keeps_valid_codes() {
    assert_eq!(error_status(404), 404);
    assert_eq!(error_status(100), 100);
    assert_eq!(error_status(999), 999);
    assert_eq!(error_status(99), 500);
    assert_eq!(error_status(1000), 500);
}

#[test]
fn state_shares_and_clones_value() {
    let s = State::new(41u32);
    assert_eq!(s.inner(), 41);
    assert_eq!(*s.get(), 41);
    assert_eq!(*s, 41);
    let t = s.share();
    assert_eq!(*t.get(), 41);
}

#[test]
fn body_failures_map_to_errors() {
    let e = BodyFailure::TooLarge.to_error();
    assert_eq!((e.code, e.message.as_str()), (413, "request body too large"));
    let e = BodyFailure::Unreadable.to_error();
    assert_eq!((e.code, e.message.as_str()), (400, "failed to read request body"));
    let e = BodyFailure::InvalidJson.to_error();
    assert_eq!((e.code, e.message.as_str()), (400, "invalid json body"));
}

#[test]
fn body_limit_checks_declared_length() {
    let mut h = HeaderMap::new();
    assert_eq!(body_limit(&h, None).unwrap(), DEFAULT_MAX_BODY_SIZE);
    assert_eq!(body_limit(&h, Some(MaxBodySize(10))).unwrap(), 10);
    h.insert("content-length", HeaderValue::from_static("11"));
    let e = body_limit(&h, Some(MaxBodySize(10))).unwrap_err();
    assert_eq!(e.code, 413);
    assert_eq!(e.message, "request body too large");
    h.insert("content-length", HeaderValue::from_static("10"));
    assert_eq!(body_limit(&h, Some(MaxBodySize(10))).unwrap(), 10);
    h.insert("content-length", HeaderValue::from_static("ten"));
    assert_eq!(body_limit(&h, Some(MaxBodySize(10))).unwrap(), 10);
}

#[test]
fn group_paths_join_prefix_and_path() {
    assert_eq!(group_path("/api/", "/users"), "/api/users");
    assert_eq!(group_path("api", "users/:id"), "/api/users/:id");
    assert_eq!(group_path("", "/x"), "/x");
    assert_eq!(group_path("//v1//", "//"), "/v1/");
}

fn sample_router() -> Router<u32> {
    let mut r = Router::new();
    r.insert(Method::Get, "/items/:id", 1);
    r.insert(Method::Post, "/only-post", 2);
    r
}

#[test]
fn dispatch_calls_matching_handler_with_params_and_query() {
    let r = sample_router();
    match dispatch(&r, &Method::Get, "/items/7", Some("a=1&b"), false, false) {
        Dispatch::Call { handler, params, query, head_only } => {
            assert_eq!(*handler, 1);
            assert_eq!(params.0.get("id").unwrap(), "7");
            assert_eq!(query.0.get("a").unwrap(), "1");
            assert_eq!(query.0.get("b").unwrap(), "");
            assert!(!head_only);
        }
        _ => panic!("expected a call"),
    }
}

#[test]
fn dispatch_serves_head_with_get_handler() {
    let r = sample_router();
    match dispatch(&r, &Method::Head, "/items/3", None, false, false) {
        Dispatch::Call { handler, head_only, .. } => {
            assert_eq!(*handler, 1);
            assert!(head_only);
        }
        _ => panic!("expected a call"),
    }
}

#[test]
fn dispatch_refuses_unknown_and_wrong_method() {
    let r = sample_router();
    assert!(matches!(
        dispatch(&r, &Method::Get, "/only-post", None, false, false),
        Dispatch::Refuse(405, "method not allowed")
    ));
    assert!(matches!(
        dispatch(&r, &Method::Get, "/nowhere", None, false, false),
        Dispatch::Refuse(404, "not found")
    ));
    assert!(matches!(
        dispatch(&r, &Method::Head, "/only-post", None, false, false),
        Dispatch::Refuse(404, "not found")
    ));
}

#[test]
fn dispatch_rejects_long_path_and_query() {
    let r = sample_router();
    let long_path = format!("/{}", "a".repeat(8192));
    assert!(matches!(
        dispatch(&r, &Method::Get, &long_path, None, false, false),
        Dispatch::TooLong("path too long")
    ));
    let long_query = "q".repeat(4097);
    assert!(matches!(
        dispatch(&r, &Method::Get, "/items/1", Some(&long_query), false, false),
        Dispatch::TooLong("query string too long")
    ));
    let ok_query = "q".repeat(4096);
    assert!(matches!(
        dispatch(&r, &Method::Get, "/items/1", Some(&ok_query), false, false),
        Dispatch::Call { .. }
    ));
}

#[test]
fn dispatch_answers_preflight_only_with_cors_and_origin() {
    let r = sample_router();
    assert!(matches!(
        dispatch(&r, &Method::Options, "/items/1", None, true, true),
        Dispatch::Preflight
    ));
    assert!(matches!(
        dispatch(&r, &Method::Options, "/items/1", None, true, false),
        Dispatch::Refuse(405, _)
    ));
    assert!(matches!(
        dispatch(&r, &Method::Options, "/items/1", None, false, true),
        Dispatch::Refuse(405, _)
    ));
}

#[test]
fn log_level_follows_the_status_class() {
    assert_eq!(level_for_status(200), LogLevel::Info);
    assert_eq!(level_for_status(399), LogLevel::Info);
    assert_eq!(level_for_status(400), LogLevel::Warn);
    assert_eq!(level_for_status(404), LogLevel::Warn);
    assert_eq!(level_for_status(499), LogLevel::Warn);
    assert_eq!(level_for_status(500), LogLevel::Error);
    assert_eq!(level_for_status(503), LogLevel::Error);
}
