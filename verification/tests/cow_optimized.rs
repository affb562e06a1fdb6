use rustblog_core::cow_optimized::{
    join_cow, normalize_path, CowRoutePattern, OptimizedMatchResult, ParamExtractor, PathMatchCache,
    StringFragmentBuilder,
};
use rustblog_core::param_map::ParamMap;
use std::borrow::Cow;
use std::sync::Arc;

#[test]
fn test_cow_route_pattern_exact() {
    let pattern = CowRoutePattern::from_str("/users");
    assert!(matches!(pattern, CowRoutePattern::Exact(_)));

    let result = pattern.match_path("/users");
    assert!(result.is_some());
    assert_eq!(result.unwrap().path.as_ref(), "/users");
}

#[test]
fn test_cow_route_pattern_parameterized() {
    let pattern = CowRoutePattern::from_str("/users/{id}");
    assert!(matches!(pattern, CowRoutePattern::Parameterized { .. }));

    let result = pattern.match_path("/users/123");
    assert!(result.is_some());
    let params = result.unwrap().params;
    assert_eq!(params.get("id").map(|s| s.as_str()), Some("123"));
}

#[test]
fn test_cow_route_pattern_wildcard() {
    let pattern = CowRoutePattern::from_str("/static/*");
    assert!(matches!(pattern, CowRoutePattern::Wildcard { .. }));

    let result = pattern.match_path("/static/css/style.css");
    assert!(result.is_some());
}

#[test]
fn test_string_fragment_builder() {
    let mut builder = StringFragmentBuilder::new();
    builder.push_borrowed("api");
    builder.push_borrowed("v1");
    builder.push_borrowed("users");

    let result = builder.build();
    assert_eq!(result, "apiv1users");
}

#[test]
fn test_string_fragment_builder_with_capacity() {
    let mut builder = StringFragmentBuilder::new();
    builder.push_borrowed("hello");
    builder.push_number(123);
    builder.push_borrowed("world");

    assert_eq!(builder.capacity(), 13);
}

#[test]
fn test_string_fragment_builder_cow() {
    let mut builder = StringFragmentBuilder::new();
    builder.push_borrowed("single");

    let cow = builder.build_cow();
    assert!(matches!(cow, Cow::Borrowed(_)));
    assert_eq!(cow.as_ref(), "single");
}

#[test]
fn test_param_extractor_segments() {
    let extractor = ParamExtractor::new("/api/v1/users");
    let segments = extractor.extract_segments();

    assert_eq!(segments.len(), 3);
    assert_eq!(segments[0].as_ref(), "api");
    assert_eq!(segments[1].as_ref(), "v1");
    assert_eq!(segments[2].as_ref(), "users");
}

#[test]
fn test_param_extractor_matches() {
    let extractor = ParamExtractor::new("/users/123");
    let pattern = CowRoutePattern::from_str("/users/{id}");

    assert!(extractor.matches(&pattern));
}

#[test]
fn test_join_cow_empty() {
    let result = join_cow(&[], "/");
    assert!(matches!(result, Cow::Borrowed(_)));
    assert!(result.is_empty());
}

#[test]
fn test_join_cow_single() {
    let segments = vec![Cow::Borrowed("users")];
    let result = join_cow(&segments, "/");
    assert!(matches!(result, Cow::Borrowed(_)));
    assert_eq!(result.as_ref(), "users");
}

#[test]
fn test_join_cow_multiple() {
    let segments = vec![Cow::Borrowed("api"), Cow::Borrowed("v1"), Cow::Borrowed("users")];
    let result = join_cow(&segments, "/");
    assert!(matches!(result, Cow::Owned(_)));
    assert_eq!(result.as_ref(), "api/v1/users");
}

#[test]
fn test_normalize_path_already_normalized() {
    let result = normalize_path("/api/v1/users");
    assert!(matches!(result, Cow::Borrowed(_)));
    assert_eq!(result.as_ref(), "/api/v1/users");
}

#[test]
fn test_normalize_path_double_slash() {
    let result = normalize_path("/api//v1//users");
    assert!(matches!(result, Cow::Owned(_)));
    assert_eq!(result.as_ref(), "/api/v1/users");
}

#[test]
fn test_normalize_path_dot_segments() {
    let result = normalize_path("/api/./v1/users");
    assert!(matches!(result, Cow::Owned(_)));
    assert_eq!(result.as_ref(), "/api/v1/users");
}

#[test]
fn test_normalize_path_dot_dot_segments() {
    let result = normalize_path("/api/v1/../users");
    assert!(matches!(result, Cow::Owned(_)));
    assert_eq!(result.as_ref(), "/api/users");
}

#[test]
fn test_normalize_path_empty() {
    let result = normalize_path("");
    assert!(matches!(result, Cow::Borrowed(_)));
    assert_eq!(result.as_ref(), "/");
}

#[test]
fn test_path_match_cache() {
    let mut cache = PathMatchCache::new();

    let path = Cow::Borrowed("/users");
    let segments = vec![Arc::new("users".to_string())];

    cache.insert(path.clone(), segments);

    let cached = cache.get(path);
    assert!(cached.is_some());
    assert_eq!(cached.unwrap().len(), 1);
}

#[test]
fn test_optimized_match_result() {
    let result = OptimizedMatchResult { path: Cow::Borrowed("/users"), params: ParamMap::new() };

    assert_eq!(result.path.as_ref(), "/users");
    assert!(result.params.is_empty());
}

#[test]
fn path_match_cache_counts() {
    let mut cache = PathMatchCache::new();
    cache.insert(Cow::Borrowed("/a"), vec![Arc::new("a".to_string())]);
    assert!(cache.get(Cow::Borrowed("/a")).is_some());
    assert!(cache.get(Cow::Borrowed("/b")).is_none());
    assert_eq!(cache.hits(), 1);
    assert_eq!(cache.misses(), 1);
    cache.insert(Cow::Borrowed("/a"), vec![]);
    assert_eq!(cache.get(Cow::Borrowed("/a")).unwrap().len(), 0);
    cache.clear();
    assert_eq!(cache.hits(), 0);
}

#[test]
fn cow_parameterized_scan_details() {
    let pattern = CowRoutePattern::from_owned("/a/{x}/b".to_string());
    assert!(pattern.match_path("/a/1/b").is_some());
    assert!(pattern.match_path("/a/1/c").is_none());
    let params = pattern.match_path("/a/1/b").unwrap().params;
    assert_eq!(params.get("x").unwrap(), "1");
    let broken = CowRoutePattern::Parameterized { pattern: Cow::Borrowed("/a/{x"), param_names: vec![] };
    assert!(broken.match_path("/a/1").is_none());
    assert_eq!(pattern.as_str(), "/a/{x}/b");
}

#[test]
fn normalize_to_root_is_borrowed() {
    let result = normalize_path("/a/../");
    assert!(matches!(result, Cow::Borrowed(_)));
    assert_eq!(result.as_ref(), "/");
}

#[test]
fn fragment_builder_mixed() {
    let mut builder = StringFragmentBuilder::new();
    builder.push_owned("x".to_string());
    builder.push_number(0);
    builder.push_arc(Arc::new("é".to_string()));
    assert_eq!(builder.capacity(), 4);
    assert_eq!(builder.build(), "x0é");
    assert!(matches!(builder.build_cow(), Cow::Owned(_)));
}

#[test]
fn test_path_match_cache_hit_rate() {
    let mut cache = PathMatchCache::new();

    let path = Cow::Borrowed("/users");
    let segments = vec![Arc::new("users".to_string())];

    cache.insert(path.clone(), segments.clone());
    cache.get(path.clone());
    cache.get(path.clone());

    let total = cache.hits() + cache.misses();
    assert!(total > 0 && cache.hits() as f64 / total as f64 > 0.0);
}

#[test]
fn built_text_takes_capacity_bytes() {
    let mut builder = StringFragmentBuilder::new();
    builder.push_borrowed("api");
    builder.push_owned("/é/".to_string());
    builder.push_number(1024);
    builder.push_arc(std::sync::Arc::new("用户".to_string()));
    let built = builder.build();
    assert_eq!(built, "api/é/1024用户");
    assert_eq!(built.len(), builder.capacity());
    assert_eq!(builder.build(), built);
}

#[test]
fn normalizing_twice_changes_nothing() {
    for p in ["", "/", "/a//b", "/a/./b/../c", "a/../../b/", "/x/y", "//", "/./"] {
        let once = normalize_path(p).into_owned();
        let twice = normalize_path(&once).into_owned();
        assert_eq!(once, twice);
        assert!(once.starts_with('/') || (!once.contains("//") && !once.contains("/./")));
    }
    assert_eq!(normalize_path("/a/./b/../c").as_ref(), "/a/c");
}

#[test]
fn parameters_never_capture_a_slash() {
    let p = CowRoutePattern::from_str("/users/{id}/posts/{post}");
    let r = p.match_path("/users/42/posts/7").unwrap();
    assert_eq!(r.params.get("id").map(|s| s.as_str()), Some("42"));
    assert_eq!(r.params.get("post").map(|s| s.as_str()), Some("7"));
    let w = CowRoutePattern::from_str("/static/*");
    let m = w.match_path("/static/a/b").unwrap();
    assert!(m.params.is_empty());
}

#[test]
fn rewritten_paths_hold_no_double_slash() {
    for p in ["//a//b//", "/a/./b", "/../x//y", "a//"] {
        let r = normalize_path(p);
        assert!(!r.contains("//"), "{}", r);
    }
}
