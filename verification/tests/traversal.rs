use std::io::Write;

use smallstack::files::{
    outcome, percent_decode, relative_request_path, resolution, resolve, Resolution, Resolved,
    StaticError,
};

fn file_in(dir: &std::path::Path, prefix: &str, suffix: &str, body: &[u8]) -> tempfile::NamedTempFile {
    let mut f = tempfile::Builder::new()
        .prefix(prefix)
        .suffix(suffix)
        .rand_bytes(0)
        .tempfile_in(dir)
        .unwrap();
    f.write_all(body).unwrap();
    f
}

#[test]
fn dotdot_path_is_rejected() {
    let dir = tempfile::tempdir().unwrap();
    let _index = file_in(dir.path(), "index", ".html", b"ok");
    match resolve(dir.path(), "/../etc/passwd") {
        Err(StaticError::Traversal(_)) => {}
        other => panic!("expected Traversal, got {other:?}"),
    }
}

#[test]
fn encoded_dotdot_is_rejected() {
    let dir = tempfile::tempdir().unwrap();
    let _index = file_in(dir.path(), "index", ".html", b"ok");
    match resolve(dir.path(), "/%2e%2e/etc") {
        Err(StaticError::Traversal(_)) => {}
        other => panic!("expected Traversal, got {other:?}"),
    }
}

#[test]
fn missing_file_returns_not_found() {
    let dir = tempfile::tempdir().unwrap();
    match resolve(dir.path(), "/nonexistent.txt") {
        Err(StaticError::NotFound(_)) => {}
        other => panic!("expected NotFound, got {other:?}"),
    }
}

#[test]
fn path_with_null_byte_is_rejected() {
    let dir = tempfile::tempdir().unwrap();
    match resolve(dir.path(), "/index.html\0") {
        Err(StaticError::Traversal(_)) => {}
        other => panic!("expected Traversal, got {other:?}"),
    }
}

#[test]
fn multibyte_percent_encoded_path_does_not_resolve_outside_root() {
    let dir = tempfile::tempdir().unwrap();
    let result = resolve(dir.path(), "/%C3%A9/../../../etc/passwd");
    assert!(
        matches!(result, Err(StaticError::Traversal(_)) | Err(StaticError::NotFound(_))),
        "must not escape root: {result:?}"
    );
}

#[test]
fn double_encoded_dotdot_does_not_escape_root() {
    let dir = tempfile::tempdir().unwrap();
    let result = resolve(dir.path(), "/%2e%2e/%2e%2e/etc/passwd");
    assert!(
        matches!(result, Err(StaticError::Traversal(_)) | Err(StaticError::NotFound(_)))
    );
}

#[test]
fn existing_file_and_directory_index_resolve() {
    let dir = tempfile::tempdir().unwrap();
    let _page = file_in(dir.path(), "page", ".txt", b"hello");
    let p = resolve(dir.path(), "/page.txt").unwrap().file;
    assert!(p.ends_with("page.txt"));
    let _index = file_in(dir.path(), "index", ".html", b"ok");
    let root = resolve(dir.path(), "/").unwrap().file;
    assert!(root.ends_with("index.html"));
    let encoded = resolve(dir.path(), "/%70age.txt").unwrap().file;
    assert!(encoded.ends_with("page.txt"));
}

#[test]
fn directory_without_index_is_not_found() {
    let dir = tempfile::tempdir().unwrap();
    match resolve(dir.path(), "/") {
        Err(StaticError::NotFound(p)) => assert_eq!(p, "/"),
        other => panic!("expected NotFound, got {other:?}"),
    }
}

#[test]
fn percent_decoding_keeps_malformed_escapes() {
    assert_eq!(percent_decode("/a%20b"), "/a b");
    assert_eq!(percent_decode("%2e%2E"), "..");
    assert_eq!(percent_decode("%zz"), "%zz");
    assert_eq!(percent_decode("100%"), "100%");
    assert_eq!(percent_decode("%4"), "\u{4}");
}

#[test]
fn relative_paths_drop_leading_slashes() {
    assert_eq!(relative_request_path("///a/b").unwrap(), "a/b");
    match relative_request_path("/a/%2E%2e/b") {
        Err(StaticError::Traversal(p)) => assert_eq!(p, "/a/%2E%2e/b"),
        other => panic!("expected Traversal, got {other:?}"),
    }
}

#[test]
fn resolution_follows_the_file_system_answers() {
    assert_eq!(resolution(false, false, false, false, false), Resolution::Missing);
    assert_eq!(resolution(true, false, true, true, true), Resolution::Outside);
    assert_eq!(resolution(true, true, false, false, false), Resolution::File);
    assert_eq!(resolution(true, true, true, false, false), Resolution::Missing);
    assert_eq!(resolution(true, true, true, true, false), Resolution::Outside);
    assert_eq!(resolution(true, true, true, true, true), Resolution::Index);
}

fn record(file: &str) -> Resolved {
    Resolved {
        root: "/r".to_string(),
        joined: "/r/d".to_string(),
        canonical: "/r/d".to_string(),
        file: file.to_string(),
        file_canonical: file.to_string(),
    }
}

#[test]
fn outcome_maps_each_decision() {
    assert_eq!(outcome(Resolution::File, "/a.txt", record("/r/a.txt"), record("/r/d/index.html")).unwrap().file, "/r/a.txt");
    assert_eq!(outcome(Resolution::Index, "/d", record("/r/a.txt"), record("/r/d/index.html")).unwrap().file, "/r/d/index.html");
    match outcome(Resolution::Missing, "/x", record("/r/a.txt"), record("/r/d/index.html")) {
        Err(StaticError::NotFound(p)) => assert_eq!(p, "/x"),
        other => panic!("unexpected {:?}", other),
    }
    match outcome(Resolution::Outside, "/y", record("/r/a.txt"), record("/r/d/index.html")) {
        Err(StaticError::Traversal(p)) => assert_eq!(p, "/y"),
        other => panic!("unexpected {:?}", other),
    }
}

#[test]
fn resolved_file_lies_under_the_canonical_root() {
    let dir = tempfile::tempdir().unwrap();
    let _page = file_in(dir.path(), "page", ".txt", b"hello");
    let x = resolve(dir.path(), "/page.txt").unwrap();
    let root = dir.path().canonicalize().unwrap();
    assert_eq!(x.root, root.to_str().unwrap());
    assert_eq!(x.joined, root.join("page.txt").to_str().unwrap());
    assert_eq!(x.file, x.canonical);
    assert!(std::path::Path::new(&x.file).starts_with(&x.root));
    let sub = tempfile::Builder::new().prefix("sub").rand_bytes(0).tempdir_in(dir.path()).unwrap();
    let _index = file_in(sub.path(), "index", ".html", b"ok");
    let y = resolve(dir.path(), "/sub").unwrap();
    assert_eq!(y.file, root.join("sub").join("index.html").to_str().unwrap());
    assert_eq!(y.canonical, root.join("sub").to_str().unwrap());
}
