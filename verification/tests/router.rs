use smallstack::router::{split_path, Method, Router};

#[test]
fn insert_and_match_static() {
    let mut router: Router<u32> = Router::new();
    router.insert(Method::Get, "/hello", 1);
    let (_, _) = router.match_route(&Method::Get, "/hello").unwrap();
}

#[test]
fn match_with_path_param() {
    let mut router: Router<u32> = Router::new();
    router.insert(Method::Get, "/users/:id", 1);
    let (_, params) = router.match_route(&Method::Get, "/users/42").unwrap();
    assert_eq!(params.0.get("id").unwrap(), "42");
}

#[test]
fn match_with_wildcard() {
    let mut router: Router<u32> = Router::new();
    router.insert(Method::Get, "/files/*", 1);
    let (_, params) = router.match_route(&Method::Get, "/files/a/b/c").unwrap();
    assert_eq!(params.0.get("*").unwrap(), "a/b/c");
}

#[test]
fn no_match_for_unregistered_route() {
    let mut router: Router<u32> = Router::new();
    router.insert(Method::Get, "/hello", 1);
    assert!(router.match_route(&Method::Get, "/world").is_none());
}

#[test]
fn method_mismatch_returns_none() {
    let mut router: Router<u32> = Router::new();
    router.insert(Method::Get, "/hello", 1);
    assert!(router.match_route(&Method::Post, "/hello").is_none());
}

#[test]
fn root_path_matches() {
    let mut router: Router<u32> = Router::new();
    router.insert(Method::Get, "/", 1);
    let (_, _) = router.match_route(&Method::Get, "/").unwrap();
}

#[test]
fn matched_route_returns_its_own_handler() {
    let mut router: Router<u32> = Router::new();
    router.insert(Method::Get, "/a", 1);
    router.insert(Method::Post, "/a", 2);
    router.insert(Method::Get, "/b/:x", 3);
    assert_eq!(*router.match_route(&Method::Get, "/a").unwrap().0, 1);
    assert_eq!(*router.match_route(&Method::Post, "/a").unwrap().0, 2);
    assert_eq!(*router.match_route(&Method::Get, "/b/7").unwrap().0, 3);
}

#[test]
fn reinserting_replaces_handler() {
    let mut router: Router<u32> = Router::new();
    router.insert(Method::Get, "/a", 1);
    router.insert(Method::Get, "/a", 9);
    assert_eq!(*router.match_route(&Method::Get, "/a").unwrap().0, 9);
}

#[test]
fn exact_segment_wins_over_parameter() {
    let mut router: Router<u32> = Router::new();
    router.insert(Method::Get, "/users/:id", 1);
    router.insert(Method::Get, "/users/me", 2);
    assert_eq!(*router.match_route(&Method::Get, "/users/me").unwrap().0, 2);
    let (h, params) = router.match_route(&Method::Get, "/users/5").unwrap();
    assert_eq!(*h, 1);
    assert_eq!(params.0.get("id").unwrap(), "5");
}

#[test]
fn has_path_ignores_method_and_counts_wildcards() {
    let mut router: Router<u32> = Router::new();
    router.insert(Method::Post, "/only-post", 1);
    router.insert(Method::Get, "/static/*", 2);
    assert!(router.has_path("/only-post"));
    assert!(router.has_path("/static/x/y"));
    assert!(!router.has_path("/missing"));
}

#[test]
fn split_path_skips_empty_segments() {
    assert_eq!(split_path("//a///b/"), vec!["a".to_string(), "b".to_string()]);
    assert!(split_path("/").is_empty());
    assert_eq!(split_path("x"), vec!["x".to_string()]);
}

#[test]
fn method_tokens() {
    assert_eq!(Method::Get.as_str(), "GET");
    assert_eq!(Method::Extension("PURGE".to_string()).as_str(), "PURGE");
    assert!(Method::Head.same(&Method::Head));
    assert!(!Method::Head.same(&Method::Get));
}

#[test]
fn static_route_keeps_winning_over_later_parameter_route() {
    let mut router: Router<u32> = Router::new();
    router.insert(Method::Get, "/users/me", 1);
    router.insert(Method::Get, "/users/:id", 2);
    router.insert(Method::Post, "/users/me", 3);
    assert_eq!(*router.match_route(&Method::Get, "/users/me").unwrap().0, 1);
    assert_eq!(*router.match_route(&Method::Post, "/users/me").unwrap().0, 3);
    let (h, params) = router.match_route(&Method::Get, "/users/7").unwrap();
    assert_eq!(*h, 2);
    assert_eq!(params.0.get("id").unwrap(), "7");
}

#[test]
fn three_routes_all_match() {
    let mut router: Router<u32> = Router::new();
    router.insert(Method::Get, "/users/:id", 1);
    router.insert(Method::Get, "/files/*", 2);
    router.insert(Method::Get, "/", 3);
    let (h, p) = router.match_route(&Method::Get, "/users/42").unwrap();
    assert_eq!((*h, p.0.get("id").unwrap().as_str()), (1, "42"));
    let (h, p) = router.match_route(&Method::Get, "/files/a/b/c").unwrap();
    assert_eq!((*h, p.0.get("*").unwrap().as_str()), (2, "a/b/c"));
    let (h, p) = router.match_route(&Method::Get, "/").unwrap();
    assert_eq!((*h, p.0.len()), (3, 0));
    assert!(router.match_route(&Method::Post, "/users/42").is_none());
    assert!(router.match_route(&Method::Get, "/world").is_none());
}

#[test]
fn has_path_counts_any_matching_route() {
    let mut router: Router<u32> = Router::new();
    router.insert(Method::Get, "/a/b", 1);
    router.insert(Method::Get, "/:x/c", 2);
    assert!(router.has_path("/a/c"));
    assert!(router.has_path("/z/c"));
    assert!(router.has_path("/a/b"));
    assert!(!router.has_path("/a/d"));
    assert!(!router.has_path("/a"));
    assert_eq!(*router.match_route(&Method::Get, "/z/c").unwrap().0, 2);
}

#[test]
fn static_segment_shadows_a_deeper_parameter_route() {
    let mut router: Router<u32> = Router::new();
    router.insert(Method::Get, "/a/:x/c", 1);
    assert_eq!(*router.match_route(&Method::Get, "/a/b/c").unwrap().0, 1);
    router.insert(Method::Get, "/a/b", 2);
    assert_eq!(*router.match_route(&Method::Get, "/a/b").unwrap().0, 2);
    assert!(router.match_route(&Method::Get, "/a/b/c").is_none());
    assert!(router.has_path("/a/b/c"));
}

#[test]
fn literal_parameter_segment_is_followed_without_capture() {
    let mut router: Router<u32> = Router::new();
    router.insert(Method::Get, "/users/:id", 1);
    let (h, params) = router.match_route(&Method::Get, "/users/:id").unwrap();
    assert_eq!((*h, params.0.len()), (1, 0));
    assert!(router.match_route(&Method::Get, "/users/42/x").is_none());
    assert!(router.match_route(&Method::Get, "/users").is_none());
}

#[test]
fn bare_colon_pattern_lands_on_a_static_sibling() {
    let mut router: Router<u32> = Router::new();
    router.insert(Method::Get, "/users/admin", 1);
    router.insert(Method::Get, "/users/:", 2);
    assert_eq!(*router.match_route(&Method::Get, "/users/admin").unwrap().0, 2);
}
