use hyper::header::{HeaderMap, HeaderValue};
use smallstack::conditional::{
    etag_for, is_not_modified, parse_range, parse_range_spec, parse_u64, weak_eq, RangeOutcome,
};
use smallstack::plan::{plan_file, BodyPlan, FilePlan};

const MTIME: u64 = 1_700_000_000;
const LEN: u64 = 100;
const LAST_MODIFIED: &str = "Tue, 14 Nov 2023 22:13:20 GMT";

fn headers(pairs: &[(&'static str, &'static str)]) -> HeaderMap {
    let mut h = HeaderMap::new();
    for (k, v) in pairs {
        h.append(*k, HeaderValue::from_static(v));
    }
    h
}

fn header<'a>(p: &'a FilePlan, name: &str) -> Option<&'a str> {
    p.headers.iter().find(|(k, _)| k == name).map(|(_, v)| v.as_str())
}

#[test]
fn etag_is_weak_mtime_and_length() {
    assert_eq!(etag_for(MTIME, LEN), "W/\"1700000000-100\"");
    assert_eq!(etag_for(0, 0), "W/\"0-0\"");
}

#[test]
fn weak_comparison_ignores_w_prefix_and_spaces() {
    assert!(weak_eq(" W/\"1-2\" ", "\"1-2\""));
    assert!(weak_eq("\"1-2\"", "W/\"1-2\""));
    assert!(!weak_eq("\"1-2\"", "\"1-3\""));
}

#[test]
fn decimal_parsing_follows_from_str() {
    let c = |s: &str| s.chars().collect::<Vec<char>>();
    assert_eq!(parse_u64(&c("42")), Some(42));
    assert_eq!(parse_u64(&c("+7")), Some(7));
    assert_eq!(parse_u64(&c("")), None);
    assert_eq!(parse_u64(&c("-1")), None);
    assert_eq!(parse_u64(&c("18446744073709551615")), Some(u64::MAX));
    assert_eq!(parse_u64(&c("18446744073709551616")), None);
}

#[test]
fn range_specs() {
    assert_eq!(parse_range_spec("0-4", 10), Some((0, 4)));
    assert_eq!(parse_range_spec("5-", 10), Some((5, 9)));
    assert_eq!(parse_range_spec("-3", 10), Some((7, 9)));
    assert_eq!(parse_range_spec("-30", 10), Some((0, 9)));
    assert_eq!(parse_range_spec("2-100", 10), Some((2, 9)));
    assert_eq!(parse_range_spec(" 1 - 2 ", 10), Some((1, 2)));
    assert_eq!(parse_range_spec("-", 10), None);
    assert_eq!(parse_range_spec("-0", 10), None);
    assert_eq!(parse_range_spec("10-", 10), None);
    assert_eq!(parse_range_spec("4-2", 10), None);
    assert_eq!(parse_range_spec("x-2", 10), None);
    assert_eq!(parse_range_spec("3", 10), None);
}

#[test]
fn range_header_outcomes() {
    assert!(matches!(parse_range(&headers(&[]), 10), RangeOutcome::Whole));
    assert!(matches!(parse_range(&headers(&[("range", "items=0-1")]), 10), RangeOutcome::Whole));
    assert!(matches!(
        parse_range(&headers(&[("range", "bytes=0-1")]), 10),
        RangeOutcome::Satisfiable(0, 1)
    ));
    assert!(matches!(
        parse_range(&headers(&[("range", "bytes=0-1,3-4")]), 10),
        RangeOutcome::Unsatisfiable
    ));
    assert!(matches!(
        parse_range(&headers(&[("range", "bytes=20-30")]), 10),
        RangeOutcome::Unsatisfiable
    ));
}

#[test]
fn validators_decide_not_modified() {
    let etag = etag_for(MTIME, LEN);
    assert!(is_not_modified(&headers(&[("if-none-match", "*")]), &etag, MTIME));
    assert!(is_not_modified(
        &headers(&[("if-none-match", "\"x\", W/\"1700000000-100\"")]),
        &etag,
        MTIME
    ));
    assert!(!is_not_modified(&headers(&[("if-none-match", "\"x\"")]), &etag, MTIME));
    assert!(is_not_modified(&headers(&[("if-modified-since", LAST_MODIFIED)]), &etag, MTIME));
    assert!(!is_not_modified(&headers(&[("if-modified-since", LAST_MODIFIED)]), &etag, MTIME + 1));
    assert!(!is_not_modified(
        &headers(&[("if-none-match", "\"x\""), ("if-modified-since", LAST_MODIFIED)]),
        &etag,
        MTIME
    ));
    assert!(!is_not_modified(&headers(&[("if-modified-since", "yesterday")]), &etag, MTIME));
    assert!(!is_not_modified(&headers(&[]), &etag, MTIME));
}

#[test]
fn plan_streams_whole_file_with_validators() {
    let p = plan_file(&headers(&[]), "text/plain", Some((MTIME, LEN)), false, false);
    assert_eq!(p.status, 200);
    assert!(matches!(p.body, BodyPlan::Stream));
    let expected: Vec<(String, String)> = vec![
        ("content-type".into(), "text/plain".into()),
        ("accept-ranges".into(), "bytes".into()),
        ("etag".into(), "W/\"1700000000-100\"".into()),
        ("last-modified".into(), LAST_MODIFIED.into()),
        ("cache-control".into(), "no-cache".into()),
    ];
    assert_eq!(p.headers, expected);
}

#[test]
fn plan_without_metadata_has_no_validators() {
    let p = plan_file(&headers(&[("range", "bytes=0-1")]), "text/css", None, false, false);
    assert_eq!(p.status, 200);
    assert!(matches!(p.body, BodyPlan::Stream));
    assert_eq!(p.headers.len(), 2);
    assert_eq!(header(&p, "etag"), None);
}

#[test]
fn plan_answers_304_for_matching_etag() {
    let p = plan_file(
        &headers(&[("if-none-match", "W/\"1700000000-100\"")]),
        "text/plain",
        Some((MTIME, LEN)),
        false,
        false,
    );
    assert_eq!(p.status, 304);
    assert!(matches!(p.body, BodyPlan::Empty));
    assert_eq!(header(&p, "etag"), Some("W/\"1700000000-100\""));
    assert_eq!(header(&p, "cache-control"), Some("no-cache"));
    assert_eq!(p.headers.len(), 2);
}

#[test]
fn plan_answers_206_for_single_range() {
    let p = plan_file(&headers(&[("range", "bytes=10-19")]), "image/png", Some((MTIME, LEN)), false, false);
    assert_eq!(p.status, 206);
    assert!(matches!(p.body, BodyPlan::Range { start: 10, length: 10 }));
    assert_eq!(header(&p, "content-range"), Some("bytes 10-19/100"));
    assert_eq!(header(&p, "content-length"), Some("10"));
    assert_eq!(header(&p, "accept-ranges"), Some("bytes"));
    assert_eq!(header(&p, "content-type"), Some("image/png"));
    assert_eq!(header(&p, "last-modified"), Some(LAST_MODIFIED));
}

#[test]
fn plan_answers_416_for_bad_range() {
    let p = plan_file(&headers(&[("range", "bytes=0-1,5-6")]), "image/png", Some((MTIME, LEN)), false, false);
    assert_eq!(p.status, 416);
    assert!(matches!(p.body, BodyPlan::Empty));
    assert_eq!(p.headers, vec![("content-range".to_string(), "bytes */100".to_string())]);
}

#[test]
fn plan_buffers_when_transform_is_set() {
    let p = plan_file(&headers(&[("range", "bytes=0-1")]), "text/plain", Some((MTIME, LEN)), true, false);
    assert_eq!(p.status, 200);
    assert!(matches!(p.body, BodyPlan::Buffered { inject: false }));
    assert_eq!(header(&p, "etag"), Some("W/\"1700000000-100\""));
}

#[test]
fn plan_injects_reload_script_into_pages_when_live() {
    let p = plan_file(&headers(&[]), "text/html; charset=utf-8", Some((MTIME, LEN)), false, true);
    assert_eq!(p.status, 200);
    assert!(matches!(p.body, BodyPlan::Buffered { inject: true }));
    assert_eq!(p.headers, vec![("content-type".to_string(), "text/html; charset=utf-8".to_string())]);
    let css = plan_file(&headers(&[]), "text/css", Some((MTIME, LEN)), false, true);
    assert!(matches!(css.body, BodyPlan::Stream));
}

#[test]
fn ranges_on_a_ten_byte_file() {
    let p = plan_file(&headers(&[("range", "bytes=2-5")]), "text/plain", Some((MTIME, 10)), false, true);
    assert_eq!(p.status, 206);
    assert!(matches!(p.body, BodyPlan::Range { start: 2, length: 4 }));
    assert_eq!(header(&p, "content-range"), Some("bytes 2-5/10"));

    let p = plan_file(&headers(&[("range", "bytes=20-30")]), "text/plain", Some((MTIME, 10)), false, true);
    assert_eq!(p.status, 416);
    assert_eq!(header(&p, "content-range"), Some("bytes */10"));

    let p = plan_file(&headers(&[("range", "bytes=0-2,5-7")]), "text/plain", Some((MTIME, 10)), false, true);
    assert_eq!(p.status, 416);
    assert_eq!(header(&p, "content-range"), Some("bytes */10"));

    let p = plan_file(&headers(&[("range", "bytes=7-")]), "text/plain", Some((MTIME, 10)), false, true);
    assert_eq!(p.status, 206);
    assert!(matches!(p.body, BodyPlan::Range { start: 7, length: 3 }));
    assert_eq!(header(&p, "content-range"), Some("bytes 7-9/10"));

    let p = plan_file(&headers(&[("range", "bytes=-3")]), "text/plain", Some((MTIME, 10)), false, true);
    assert_eq!(p.status, 206);
    assert_eq!(header(&p, "content-range"), Some("bytes 7-9/10"));

    let p = plan_file(&headers(&[]), "text/plain", Some((MTIME, 10)), false, true);
    assert_eq!(p.status, 200);
    assert_eq!(header(&p, "accept-ranges"), Some("bytes"));
}

#[test]
fn modified_since_an_older_date_is_served() {
    let p = plan_file(
        &headers(&[("if-modified-since", "Mon, 13 Nov 2023 22:13:20 GMT")]),
        "text/plain",
        Some((MTIME, LEN)),
        false,
        false,
    );
    assert_eq!(p.status, 200);
    let p = plan_file(
        &headers(&[("if-modified-since", LAST_MODIFIED)]),
        "text/plain",
        Some((MTIME, LEN)),
        false,
        false,
    );
    assert_eq!(p.status, 304);
}
