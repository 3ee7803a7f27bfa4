use smallstack::params::{parse_cookie_header, path_params_query, url_encode, ParamMap};

#[test]
fn url_encoding_keeps_unreserved_bytes() {
    assert_eq!(url_encode("AZaz09-_.~"), "AZaz09-_.~");
    assert_eq!(url_encode("a b&c=d"), "a%20b%26c%3Dd");
    assert_eq!(url_encode("é"), "%C3%A9");
    assert_eq!(url_encode("*"), "%2A");
}

#[test]
fn path_params_become_sorted_encoded_pairs() {
    let mut m = ParamMap::new();
    m.insert("id".to_string(), "42".to_string());
    m.insert("*".to_string(), "a=1&b=2".to_string());
    m.insert("b".to_string(), "x y".to_string());
    assert_eq!(path_params_query(&m), "%2A=a%3D1%26b%3D2&b=x%20y&id=42");
}

#[test]
fn wildcard_value_cannot_add_pairs() {
    let mut m = ParamMap::new();
    m.insert("*".to_string(), "a=1&b=2".to_string());
    let q = path_params_query(&m);
    assert_eq!(q.matches('&').count(), 0);
    assert_eq!(q.matches('=').count(), 1);
}

#[test]
fn param_map_insert_replaces_and_keeps_order() {
    let mut m = ParamMap::new();
    assert!(m.is_empty());
    m.insert("a".to_string(), "1".to_string());
    m.insert("b".to_string(), "2".to_string());
    m.insert("a".to_string(), "3".to_string());
    assert_eq!(m.len(), 2);
    assert_eq!(m.get("a").unwrap(), "3");
    assert_eq!(m.get("b").unwrap(), "2");
    assert!(m.get("c").is_none());
    let keys: Vec<&str> = m.pairs().iter().map(|(k, _)| k.as_str()).collect();
    assert_eq!(keys, vec!["a", "b"]);
}

#[test]
fn cookies_are_split_and_trimmed() {
    let c = parse_cookie_header("session=abc; theme = dark ;;flag; x=1=2");
    assert_eq!(c.get("session").unwrap(), "abc");
    assert_eq!(c.get("theme").unwrap(), "dark");
    assert_eq!(c.get("x").unwrap(), "1=2");
    assert!(c.get("flag").is_none());
    assert_eq!(c.len(), 3);
}

#[test]
fn empty_cookie_header_yields_nothing() {
    assert!(parse_cookie_header("").is_empty());
}

#[test]
fn wildcard_value_does_not_inject_into_path_params() {
    let mut m = ParamMap::new();
    m.insert("*".to_string(), "a=1&b=2".to_string());
    let q = path_params_query(&m);
    let back: std::collections::HashMap<String, String> = serde_qs::from_str(&q).unwrap();
    assert_eq!(back.len(), 1);
    assert_eq!(back.get("*").unwrap(), "a=1&b=2");
}
