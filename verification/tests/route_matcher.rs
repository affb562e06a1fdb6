use rustblog_core::route_matcher::{RouteMatcher, RoutePattern};

#[test]
fn test_exact_pattern() {
    let pattern = RoutePattern::from("/users");

    assert!(pattern.match_path("/users").is_some());
    assert!(pattern.match_path("/users/123").is_none());
    assert!(pattern.match_path("/posts").is_none());
}

#[test]
fn test_parameterized_pattern() {
    let pattern = RoutePattern::from("/users/{id}");

    let result = pattern.match_path("/users/123");
    assert!(result.is_some());
    assert_eq!(result.unwrap().params.get("id"), Some(&"123".to_string()));

    let result = pattern.match_path("/users/abc");
    assert!(result.is_some());
    assert_eq!(result.unwrap().params.get("id"), Some(&"abc".to_string()));

    assert!(pattern.match_path("/users").is_none());
    assert!(pattern.match_path("/users/123/posts").is_none());
}

#[test]
fn route_matcher_test_multiple_parameters() {
    let pattern = RoutePattern::from("/users/{id}/posts/{post_id}");

    let result = pattern.match_path("/users/123/posts/456");
    assert!(result.is_some());
    let params = result.unwrap().params;
    assert_eq!(params.get("id"), Some(&"123".to_string()));
    assert_eq!(params.get("post_id"), Some(&"456".to_string()));
}

#[test]
fn test_wildcard_pattern() {
    let pattern = RoutePattern::from("/static/*");

    let result = pattern.match_path("/static/css/style.css");
    assert!(result.is_some());
    assert_eq!(result.unwrap().params.len(), 0);

    let result = pattern.match_path("/static/js/app.js");
    assert!(result.is_some());

    assert!(pattern.match_path("/static").is_none());
    assert!(pattern.match_path("/api/users").is_none());
}

#[test]
fn test_route_matcher() {
    let mut matcher = RouteMatcher::new();
    matcher.add_pattern(RoutePattern::from("/users"));
    matcher.add_pattern(RoutePattern::from("/users/{id}"));
    matcher.add_pattern(RoutePattern::from("/static/*"));

    let results = matcher.match_path("/users/123");
    assert_eq!(results.len(), 1);

    let results = matcher.match_path("/static/css/style.css");
    assert_eq!(results.len(), 1);

    let results = matcher.match_path("/nonexistent");
    assert_eq!(results.len(), 0);
}

#[test]
fn test_best_match_priority() {
    let mut matcher = RouteMatcher::new();
    matcher.add_pattern(RoutePattern::from("/static/*"));
    matcher.add_pattern(RoutePattern::from("/users/{id}"));
    matcher.add_pattern(RoutePattern::from("/users"));

    let result = matcher.find_best_match("/users");
    assert!(result.is_some());
    assert!(result.unwrap().params.is_empty());

    let result = matcher.find_best_match("/users/123");
    assert!(result.is_some());
    assert_eq!(result.unwrap().params.get("id"), Some(&"123".to_string()));
}

#[test]
fn route_matcher_test_complex_path() {
    let pattern = RoutePattern::from("/api/v1/users/{user_id}/posts/{post_id}/comments/{comment_id}");

    let result = pattern.match_path("/api/v1/users/123/posts/456/comments/789");
    assert!(result.is_some());
    let params = result.unwrap().params;
    assert_eq!(params.get("user_id"), Some(&"123".to_string()));
    assert_eq!(params.get("post_id"), Some(&"456".to_string()));
    assert_eq!(params.get("comment_id"), Some(&"789".to_string()));
}

#[test]
fn test_empty_path() {
    let pattern = RoutePattern::from("/");
    assert!(pattern.match_path("/").is_some());
    assert!(pattern.match_path("").is_none());
}

#[test]
fn test_special_characters() {
    let pattern = RoutePattern::from("/path/with-dash/{id}");

    let result = pattern.match_path("/path/with-dash/123");
    assert!(result.is_some());
    assert_eq!(result.unwrap().params.get("id"), Some(&"123".to_string()));
}

#[test]
fn matcher_keeps_path_and_names() {
    let pattern = RoutePattern::from("/a/{x}/b/{y}");
    match &pattern {
        RoutePattern::Parameterized { pattern, param_names } => {
            assert_eq!(pattern, "/a/{x}/b/{y}");
            assert_eq!(param_names, &vec!["x".to_string(), "y".to_string()]);
        }
        _ => panic!("expected a parameterized pattern"),
    }
    let result = pattern.match_path("/a/1/b/2").unwrap();
    assert_eq!(result.path, "/a/1/b/2");
    match RoutePattern::from("/files/*rest") {
        RoutePattern::Wildcard { prefix, capture_name } => {
            assert_eq!(prefix, "/files/");
            assert!(capture_name.is_none());
        }
        _ => panic!("expected a wildcard pattern"),
    }
}
