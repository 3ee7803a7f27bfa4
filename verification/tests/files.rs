use smallstack::files::{
    first_turn, next_turn, HandlerTurn, inject_livereload_script, mime_for_extension, mime_type, ChangeType, ReloadEvent,
    RequestInfo, LIVERELOAD_SCRIPT,
};
use smallstack::live::{changed_entries, read_classification, RELOAD_PATH};

#[test]
fn mime_types_by_extension() {
    assert_eq!(mime_type("/x/index.html"), "text/html");
    assert_eq!(mime_type("a.json"), "application/json");
    assert_eq!(mime_type("a.txt"), "text/plain");
    assert_eq!(mime_type("a.css"), "text/css");
    assert_eq!(mime_type("a.js"), "text/javascript");
    assert_eq!(mime_type("a.png"), "image/png");
    assert_eq!(mime_type("graphic.svg"), "image/svg+xml");
    assert_eq!(mime_type("font.woff2"), "font/woff2");
    assert_eq!(mime_type("favicon.ico"), "image/x-icon");
    assert_eq!(mime_type("README"), "application/octet-stream");
    assert_eq!(mime_type("a.bin"), "application/octet-stream");
    assert_eq!(mime_for_extension(Some(&"mjs".to_string())), "text/javascript");
    assert_eq!(mime_for_extension(None), "application/octet-stream");
}

#[test]
fn change_types_by_extension() {
    assert!(matches!(ChangeType::from_path("s.css"), ChangeType::Css));
    assert!(matches!(ChangeType::from_path("a.mjs"), ChangeType::Script));
    assert!(matches!(ChangeType::from_path("p.htm"), ChangeType::Html));
    assert!(matches!(ChangeType::from_path("p.png"), ChangeType::Other));
    assert!(matches!(ChangeType::from_path("Makefile"), ChangeType::Other));
    assert_eq!(ChangeType::Css.as_str(), "css");
    assert_eq!(ChangeType::Script.as_str(), "script");
    assert_eq!(ChangeType::Html.as_str(), "html");
    assert_eq!(ChangeType::Other.as_str(), "other");
}

#[test]
fn reload_event_messages() {
    let e = ReloadEvent { change_type: ChangeType::Css };
    assert_eq!(e.message(), "event: css\ndata: {\"type\":\"css\"}\n\n");
    let e = ReloadEvent { change_type: ChangeType::Other };
    assert_eq!(e.message(), "event: other\ndata: {\"type\":\"other\"}\n\n");
}

#[test]
fn reload_requests_are_recognised() {
    let info = RequestInfo { method: "GET".into(), path: RELOAD_PATH.into() };
    assert!(info.is_reload_request());
    let info = RequestInfo { method: "POST".into(), path: "/__mini_reload".into() };
    assert!(!info.is_reload_request());
    let info = RequestInfo { method: "GET".into(), path: "/__mini_reload/x".into() };
    assert!(!info.is_reload_request());
}

#[test]
fn script_goes_before_body_end() {
    let page = b"<html><body>hi</body></html>";
    let out = inject_livereload_script(page).unwrap();
    let expected = format!("<html><body>hi{}</body></html>", LIVERELOAD_SCRIPT);
    assert_eq!(out, expected.into_bytes());
}

#[test]
fn script_falls_back_to_html_end() {
    let page = b"<html>hi</html>";
    let out = inject_livereload_script(page).unwrap();
    let expected = format!("<html>hi{}</html>", LIVERELOAD_SCRIPT);
    assert_eq!(out, expected.into_bytes());
}

#[test]
fn script_needs_a_closing_tag_and_utf8() {
    assert!(inject_livereload_script(b"<p>no end tags</p>").is_none());
    assert!(inject_livereload_script(&[0xff, 0xfe, b'<']).is_none());
}

#[test]
fn poller_reports_new_and_changed_files() {
    let prev = vec![(b"a.css".to_vec(), 10i128), (b"b.html".to_vec(), 20i128)];
    let cur = vec![
        (b"a.css".to_vec(), 10i128),
        (b"b.html".to_vec(), 21i128),
        (b"c.js".to_vec(), 5i128),
    ];
    assert_eq!(changed_entries(&prev, &cur, false), vec![1, 2]);
    assert!(changed_entries(&prev, &cur, true).is_empty());
    assert!(changed_entries(&cur, &cur, false).is_empty());
    assert_eq!(changed_entries(&Vec::new(), &prev, false), vec![0, 1]);
}

#[test]
fn read_outcomes() {
    assert_eq!(read_classification(&Ok(()), 0), "eof");
    assert_eq!(read_classification(&Ok(()), 5), "chunk");
    let failed: std::io::Result<()> = Err(std::io::Error::other("disk"));
    assert_eq!(read_classification(&failed, 0), "error");
    assert_eq!(read_classification(&failed, 7), "error");
}

#[test]
fn change_type_follows_the_exact_extension() {
    assert!(matches!(ChangeType::from_path("a/site.css"), ChangeType::Css));
    assert!(matches!(ChangeType::from_path("app.js"), ChangeType::Script));
    assert!(matches!(ChangeType::from_path("m.mjs"), ChangeType::Script));
    assert!(matches!(ChangeType::from_path("index.html"), ChangeType::Html));
    assert!(matches!(ChangeType::from_path("p.htm"), ChangeType::Html));
    assert!(matches!(ChangeType::from_path("img.png"), ChangeType::Other));
    assert!(matches!(ChangeType::from_path("Makefile"), ChangeType::Other));
    assert!(matches!(ChangeType::from_path("STYLE.CSS"), ChangeType::Other));
    assert!(matches!(ChangeType::from_path(".css"), ChangeType::Other));
    assert_eq!(mime_type("dir.css/readme"), "application/octet-stream");
}

#[test]
fn custom_handlers_are_asked_in_order_until_one_answers() {
    assert!(matches!(first_turn(0), HandlerTurn::ServeFile));
    assert!(matches!(first_turn(2), HandlerTurn::Ask(0)));
    assert!(matches!(next_turn(0, 2, false), HandlerTurn::Ask(1)));
    assert!(matches!(next_turn(0, 2, true), HandlerTurn::Answered));
    assert!(matches!(next_turn(1, 2, false), HandlerTurn::ServeFile));
}
