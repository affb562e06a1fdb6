use rustblog_core::route_table::{CacheStats, RouteTable};

#[derive(Debug, Clone, PartialEq)]
struct SimpleRoute {
    body: String,
    content_type: String,
}

impl SimpleRoute {
    fn new(body: impl Into<String>, content_type: &str) -> Self {
        SimpleRoute { body: body.into(), content_type: content_type.to_string() }
    }
}

fn hit_rate(stats: &CacheStats) -> f64 {
    let total = stats.hits + stats.misses;
    if total == 0 {
        0.0
    } else {
        stats.hits as f64 / total as f64
    }
}

#[test]
fn test_route_table_creation() {
    let table: RouteTable<SimpleRoute> = RouteTable::new();
    assert_eq!(table.count(), 0);
    assert!(table.list_paths().is_empty());
}

#[test]
fn test_route_table_insert_and_get() {
    let mut table = RouteTable::new();
    let route = SimpleRoute::new("hello", "text/plain");
    table.insert("/test".into(), route);
    assert!(table.contains("/test"));

    let result = table.get_with("/test", |_route| "found");
    assert_eq!(result, Some("found"));

    let result = table.get_with("/nonexistent", |_route| "found");
    assert_eq!(result, None);
}

#[test]
fn test_route_table_remove() {
    let mut table = RouteTable::new();
    let route = SimpleRoute::new("hello", "text/plain");
    table.insert("/test".into(), route);
    assert!(table.remove("/test"));
    assert!(!table.remove("/nonexistent"));
    assert_eq!(table.count(), 0);
}

#[test]
fn test_route_table_count() {
    let mut table = RouteTable::new();
    assert_eq!(table.count(), 0);

    table.insert("/route1".into(), SimpleRoute::new("body1", "text/plain"));
    assert_eq!(table.count(), 1);

    table.insert("/route2".into(), SimpleRoute::new("body2", "text/plain"));
    assert_eq!(table.count(), 2);

    table.remove("/route1");
    assert_eq!(table.count(), 1);
}

#[test]
fn test_route_table_contains() {
    let mut table = RouteTable::new();
    assert!(!table.contains("/any"));

    table.insert("/hello".into(), SimpleRoute::new("body", "text/plain"));
    assert!(table.contains("/hello"));
    assert!(!table.contains("/world"));
}

#[test]
fn test_route_table_list_paths() {
    let mut table = RouteTable::new();
    table.insert("/route1".into(), SimpleRoute::new("body", "text/plain"));
    table.insert("/route2".into(), SimpleRoute::new("body", "text/plain"));
    table.insert("/route3".into(), SimpleRoute::new("body", "text/plain"));

    let paths = table.list_paths();
    assert_eq!(paths.len(), 3);
    assert!(paths.contains(&"/route1".to_string()));
    assert!(paths.contains(&"/route2".to_string()));
    assert!(paths.contains(&"/route3".to_string()));
}

#[test]
fn test_route_table_clear() {
    let mut table = RouteTable::new();
    table.insert("/route1".into(), SimpleRoute::new("body", "text/plain"));
    table.insert("/route2".into(), SimpleRoute::new("body", "text/plain"));

    assert_eq!(table.count(), 2);
    table.clear();
    assert_eq!(table.count(), 0);
    assert!(table.list_paths().is_empty());
}

#[test]
fn test_route_table_overwrite() {
    let mut table = RouteTable::new();
    let route1 = SimpleRoute::new("body1", "text/plain");
    let route2 = SimpleRoute::new("body2", "text/plain");

    table.insert("/test".into(), route1);
    table.insert("/test".into(), route2);

    assert_eq!(table.count(), 1);
    assert!(table.contains("/test"));
}

#[test]
fn test_special_characters_in_path() {
    let mut table = RouteTable::new();
    let special_paths = vec!["/path/with spaces", "/path/with-unicode/测试", "/path/with/slashes//multiple"];

    for path in special_paths {
        table.insert(path.to_string(), SimpleRoute::new("body", "text/plain"));
        assert!(table.contains(path));
    }
}

#[test]
fn test_empty_route_table() {
    let mut table: RouteTable<SimpleRoute> = RouteTable::new();
    assert!(!table.contains("/any"));
    assert!(!table.remove("/any"));
    assert_eq!(table.count(), 0);
    assert!(table.list_paths().is_empty());
}

#[test]
fn test_route_table_default() {
    let table: RouteTable<SimpleRoute> = RouteTable::default();
    assert_eq!(table.count(), 0);
}

#[test]
fn test_cache_hit_and_miss() {
    let mut table = RouteTable::new();
    table.insert("/cached".into(), SimpleRoute::new("cached", "text/plain"));

    table.get_arc("/cached");
    let stats = table.cache_stats();
    assert_eq!(stats.misses, 1);
    assert_eq!(stats.hits, 0);

    table.get_arc("/cached");
    let stats = table.cache_stats();
    assert_eq!(stats.misses, 1);
    assert_eq!(stats.hits, 1);
}

#[test]
fn test_cache_hit_rate() {
    let mut table = RouteTable::new();
    table.insert("/route".into(), SimpleRoute::new("route", "text/plain"));

    table.get_arc("/route");
    assert_eq!(hit_rate(&table.cache_stats()), 0.0);

    table.get_arc("/route");
    assert_eq!(hit_rate(&table.cache_stats()), 0.5);

    table.get_arc("/route");
    assert_eq!(hit_rate(&table.cache_stats()), 0.6666666666666666);
}

#[test]
fn test_cache_warmup() {
    let mut table = RouteTable::new();
    table.insert("/api/users".into(), SimpleRoute::new("users", "application/json"));
    table.insert("/api/posts".into(), SimpleRoute::new("posts", "application/json"));

    table.warmup_cache(&["/api/users", "/api/posts"]);

    table.get_arc("/api/users");
    table.get_arc("/api/posts");

    let stats = table.cache_stats();
    assert_eq!(stats.hits, 2);
    assert_eq!(stats.misses, 0);
}

#[test]
fn test_cache_invalidation_on_insert() {
    let mut table = RouteTable::new();
    table.insert("/route".into(), SimpleRoute::new("old", "text/plain"));

    table.get_arc("/route");
    let stats = table.cache_stats();
    assert_eq!(stats.misses, 1);

    table.insert("/route".into(), SimpleRoute::new("new", "text/plain"));

    let route = table.get_arc("/route");
    assert!(route.is_some());
    let stats = table.cache_stats();
    assert_eq!(stats.misses, 2);
}

#[test]
fn test_cache_invalidation_on_remove() {
    let mut table = RouteTable::new();
    table.insert("/route".into(), SimpleRoute::new("route", "text/plain"));

    table.get_arc("/route");
    assert!(table.get_arc("/route").is_some());

    table.remove("/route");

    assert!(table.get_arc("/route").is_none());
}

#[test]
fn route_table_test_cache_clear() {
    let mut table = RouteTable::new();
    table.insert("/route1".into(), SimpleRoute::new("route1", "text/plain"));
    table.insert("/route2".into(), SimpleRoute::new("route2", "text/plain"));

    table.get_arc("/route1");
    table.get_arc("/route2");

    assert_eq!(table.cache_stats().hits, 0);
    assert_eq!(table.cache_stats().misses, 2);

    table.clear();

    assert_eq!(table.cache_stats().hits, 0);
    assert_eq!(table.cache_stats().misses, 2);
    assert!(table.get_arc("/route1").is_none());
    assert!(table.get_arc("/route2").is_none());
}

#[test]
fn test_cache_performance() {
    let mut table = RouteTable::new();
    let num_routes = 100;

    for i in 0..num_routes {
        table.insert(format!("/route-{}", i), SimpleRoute::new(format!("body-{}", i), "text/plain"));
    }

    let routes: Vec<String> = (0..num_routes).map(|i| format!("/route-{}", i)).collect();
    table.warmup_cache(&routes.iter().map(|s| s.as_str()).collect::<Vec<_>>());

    for _ in 0..10 {
        for i in 0..num_routes {
            table.get_arc(&format!("/route-{}", i));
        }
    }

    let stats = table.cache_stats();
    assert_eq!(stats.hits, num_routes * 10);
    assert_eq!(stats.misses, 0);
    assert_eq!(hit_rate(&stats), 1.0);
}

#[test]
fn inserted_route_is_read_back_after_a_cached_lookup() {
    let mut table = RouteTable::new();
    table.insert("/users/7".into(), SimpleRoute::new("user", "text/plain"));
    assert_eq!(table.get_arc("/users/7").unwrap().body, "user");
    table.insert("/users/7".into(), SimpleRoute::new("seven", "text/plain"));
    assert_eq!(table.get_arc("/users/7").unwrap().body, "seven");
    assert_eq!(table.get_clone("/users/7"), Some(SimpleRoute::new("seven", "text/plain")));
    assert_eq!(table.count(), 1);
    assert_eq!(table.cache_stats(), CacheStats { hits: 1, misses: 2 });
}

#[test]
fn batch_insert_keeps_stale_cache_entries() {
    let mut table = RouteTable::new();
    table.insert("/x".into(), SimpleRoute::new("old", "text/plain"));
    assert_eq!(table.get_arc("/x").unwrap().body, "old");
    table.batch_insert(vec![("/x".to_string(), SimpleRoute::new("new", "text/plain"))]);
    assert_eq!(table.get_arc("/x").unwrap().body, "old");
    table.cleanup_cache();
    table.reset_cache_stats();
    assert_eq!(table.cache_stats(), CacheStats { hits: 0, misses: 0 });
}
