use hyper::header::{HeaderMap, HeaderValue};
use smallstack::cors::{apply_headers, CorsConfig};
use smallstack::router::Method;

fn pairs(v: &[(&str, &str)]) -> Vec<(String, String)> {
    v.iter().map(|(k, v)| (k.to_string(), v.to_string())).collect()
}

#[test]
fn specific_origin_with_credentials_is_valid() {
    let _ = CorsConfig::builder()
        .allow_origin("https://app.example.com")
        .allow_credentials(true)
        .build();
}

#[test]
fn wildcard_origin_without_credentials_is_valid() {
    let _ = CorsConfig::builder()
        .allow_origin("*")
        .build();
}

#[test]
fn wildcard_policy_answers_star_without_vary() {
    let c = CorsConfig::builder().allow_origin("*").build();
    assert_eq!(
        c.build_cors_headers(Some("https://example.com")),
        pairs(&[("access-control-allow-origin", "*")])
    );
    assert_eq!(c.build_cors_headers(None), pairs(&[("access-control-allow-origin", "*")]));
}

#[test]
fn specific_origin_is_echoed_with_vary() {
    let c = CorsConfig::builder().allow_origin("https://myapp.com").build();
    assert_eq!(
        c.build_cors_headers(Some("https://myapp.com")),
        pairs(&[("access-control-allow-origin", "https://myapp.com"), ("vary", "origin")])
    );
    assert!(c.build_cors_headers(Some("https://evil.com")).is_empty());
    assert!(c.build_cors_headers(None).is_empty());
}

#[test]
fn credentials_and_exposed_headers_follow_the_origin() {
    let c = CorsConfig::builder()
        .allow_origin("https://myapp.com")
        .allow_credentials(true)
        .expose_header("x-total")
        .expose_header("x-page")
        .build();
    assert_eq!(
        c.build_cors_headers(Some("https://myapp.com")),
        pairs(&[
            ("access-control-allow-origin", "https://myapp.com"),
            ("vary", "origin"),
            ("access-control-allow-credentials", "true"),
            ("access-control-expose-headers", "x-total, x-page"),
        ])
    );
}

#[test]
fn preflight_lists_methods_headers_and_max_age() {
    let c = CorsConfig::builder()
        .allow_origin("https://myapp.com")
        .allow_method(Method::Get)
        .allow_method(Method::Post)
        .allow_header("x-custom")
        .allow_header("content-type")
        .max_age_secs(3600)
        .build();
    assert_eq!(
        c.preflight_headers(Some("https://myapp.com"), Some("x-custom")),
        pairs(&[
            ("access-control-allow-origin", "https://myapp.com"),
            ("vary", "origin"),
            ("access-control-allow-methods", "GET, POST"),
            ("access-control-allow-headers", "x-custom, content-type"),
            ("access-control-max-age", "3600"),
        ])
    );
}

#[test]
fn preflight_with_any_header_echoes_the_request() {
    let c = CorsConfig::builder().allow_origin("*").allow_header("*").build();
    assert_eq!(
        c.build_preflight_headers(Some("x-a, x-b")),
        pairs(&[("access-control-allow-headers", "x-a, x-b")])
    );
    assert_eq!(
        c.build_preflight_headers(None),
        pairs(&[("access-control-allow-headers", "*")])
    );
}

#[test]
fn vary_merges_with_existing_header() {
    let c = CorsConfig::builder().allow_origin("https://myapp.com").build();
    let mut h = HeaderMap::new();
    h.insert("vary", HeaderValue::from_static("accept-encoding"));
    assert!(c.apply_to_response(&mut h, Some("https://myapp.com")));
    assert_eq!(h.get("vary").unwrap(), "accept-encoding, origin");
    assert_eq!(h.get("access-control-allow-origin").unwrap(), "https://myapp.com");
}

#[test]
fn wildcard_response_has_no_vary() {
    let c = CorsConfig::builder().allow_origin("*").build();
    let mut h = HeaderMap::new();
    assert!(c.apply_to_response(&mut h, Some("https://x.com")));
    assert!(h.get("vary").is_none());
    assert_eq!(h.get("access-control-allow-origin").unwrap(), "*");
}

#[test]
fn default_policy_grants_nothing() {
    let c = CorsConfig::default();
    assert!(c.build_cors_headers(Some("https://x.com")).is_empty());
    assert!(c.build_preflight_headers(None).is_empty());
}

#[test]
fn credentialed_wildcard_is_detected_before_build() {
    let b = CorsConfig::builder().allow_origin("*").allow_credentials(true);
    assert!(b.is_credentialed_wildcard());
    let b = CorsConfig::builder().allow_origin("*");
    assert!(!b.is_credentialed_wildcard());
    let b = CorsConfig::builder().allow_origin("https://a.com").allow_credentials(true);
    assert!(!b.is_credentialed_wildcard());
    let b = CorsConfig::builder().allow_origin("*").allow_origin("https://a.com").allow_credentials(true);
    assert!(!b.is_credentialed_wildcard());
}

#[test]
fn apply_headers_takes_any_case_and_skips_what_cannot_be_written() {
    let mut h = HeaderMap::new();
    h.insert("vary", HeaderValue::from_static("accept-encoding"));
    let hs = vec![
        ("Vary".to_string(), "origin".to_string()),
        ("X-Custom".to_string(), "1".to_string()),
        ("bad name".to_string(), "2".to_string()),
        ("x-ok".to_string(), "bad\nvalue".to_string()),
    ];
    assert!(apply_headers(&mut h, &hs));
    assert_eq!(h.get("vary").unwrap(), "accept-encoding, origin");
    assert_eq!(h.get("x-custom").unwrap(), "1");
    assert_eq!(h.len(), 2);
}
