use rustblog_core::cache::{BatchOperations, PerformanceOptions, RouteCache};
use rustblog_core::route_table::RouteTable;
use std::time::Duration;

#[test]
fn test_cache_insert_and_get() {
    let mut cache = RouteCache::new(Duration::from_secs(60));

    cache.insert("/hello", "world".to_string());
    assert_eq!(cache.get("/hello"), Some("world".to_string()));
    assert_eq!(cache.get("/nonexistent"), None);
}

#[test]
fn test_cache_remove() {
    let mut cache = RouteCache::new(Duration::from_secs(60));

    cache.insert("/hello", "world".to_string());
    assert!(cache.remove("/hello"));
    assert!(!cache.remove("/hello"));
    assert_eq!(cache.get("/hello"), None);
}

#[test]
fn cache_test_cache_clear() {
    let mut cache = RouteCache::new(Duration::from_secs(60));

    cache.insert("/route1", "value1".to_string());
    cache.insert("/route2", "value2".to_string());
    assert_eq!(cache.size(), 2);

    cache.clear();
    assert_eq!(cache.size(), 0);
}

#[test]
fn test_performance_options_default() {
    let options = PerformanceOptions::default();
    assert!(options.enable_cache);
    assert_eq!(options.cache_ttl, Duration::from_secs(60));
    assert!(options.enable_batch_operations);
    assert_eq!(options.max_batch_size, 1000);
}

#[test]
fn cache_insert_replaces_value() {
    let mut cache = RouteCache::new(Duration::from_secs(60));
    cache.insert("/a", 1u32);
    cache.insert("/a", 2u32);
    assert_eq!(cache.size(), 1);
    assert_eq!(cache.get("/a"), Some(2));
}

#[derive(Debug, Clone, PartialEq)]
struct SimpleRoute {
    body: String,
    content_type: String,
}

impl SimpleRoute {
    fn new(body: impl Into<String>, content_type: &str) -> Self {
        SimpleRoute { body: body.into(), content_type: content_type.to_string() }
    }
}

#[test]
fn test_batch_insert() {
    let mut table = RouteTable::new();
    let mut routes: Vec<(String, SimpleRoute)> = Vec::new();

    for i in 0..10 {
        routes.push((format!("/route-{}", i), SimpleRoute::new(format!("body-{}", i), "text/plain")));
    }

    BatchOperations::batch_insert(&mut table, routes);
    assert_eq!(table.count(), 10);
}

#[test]
fn test_batch_remove() {
    let mut table = RouteTable::new();

    for i in 0..10 {
        table.insert(format!("/route-{}", i), SimpleRoute::new(format!("body-{}", i), "text/plain"));
    }

    let paths: Vec<String> = (0..5).map(|i| format!("/route-{}", i)).collect();
    let deleted = BatchOperations::batch_remove(&mut table, paths);

    assert_eq!(deleted, 5);
    assert_eq!(table.count(), 5);
}

#[test]
fn test_batch_contains() {
    let mut table = RouteTable::new();

    table.insert("/route1".to_string(), SimpleRoute::new("body1", "text/plain"));
    table.insert("/route2".to_string(), SimpleRoute::new("body2", "text/plain"));

    let paths: Vec<String> = vec!["/route1".to_string(), "/route2".to_string(), "/route3".to_string()];

    let results = BatchOperations::batch_contains(&table, paths);
    let get = |p: &str| results.iter().find(|(k, _)| k == p).map(|(_, v)| v);

    assert_eq!(get("/route1"), Some(&true));
    assert_eq!(get("/route2"), Some(&true));
    assert_eq!(get("/route3"), Some(&false));
}

#[test]
fn batch_remove_counts_each_path_once() {
    let mut table = RouteTable::new();
    table.insert("/a".to_string(), SimpleRoute::new("a", "text/plain"));
    let deleted = BatchOperations::batch_remove(&mut table, vec!["/a".to_string(), "/a".to_string(), "/b".to_string()]);
    assert_eq!(deleted, 1);
    assert_eq!(table.count(), 0);
}

#[test]
fn zero_time_to_live_serves_nothing() {
    let mut cache: RouteCache<u32> = RouteCache::new(std::time::Duration::from_secs(0));
    cache.insert("/a", 1);
    cache.insert("/b", 2);
    assert_eq!(cache.get("/a"), None);
    assert_eq!(cache.size(), 1);
    cache.cleanup_expired();
    assert_eq!(cache.size(), 0);
    let mut lasting: RouteCache<u32> = RouteCache::new(std::time::Duration::from_secs(300));
    lasting.insert("/a", 1);
    lasting.cleanup_expired();
    assert_eq!(lasting.get("/a"), Some(1));
}

#[test]
fn get_at_serves_young_entries_and_drops_old_ones() {
    let mut cache: RouteCache<u32> = RouteCache::new(Duration::from_secs(1));
    cache.insert("/a", 1);
    cache.insert("/b", 2);
    assert_eq!(cache.get_at("/a", 999_999_999), Some(1));
    assert_eq!(cache.size(), 2);
    assert_eq!(cache.get_at("/a", 1_000_000_000), None);
    assert_eq!(cache.size(), 1);
    assert_eq!(cache.get_at("/zzz", 0), None);
    cache.insert("/c", 3);
    cache.cleanup_with(&vec![2_000_000_000, 5]);
    assert_eq!(cache.size(), 1);
    assert_eq!(cache.get_at("/c", 0), Some(3));
    assert_eq!(cache.get_at("/b", 0), None);
}

#[test]
fn batch_remove_counts_stored_literal_paths() {
    let mut table: RouteTable<String> = RouteTable::new();
    for p in ["/a", "/b", "/c"] {
        table.insert(p.to_string(), p.to_string());
    }
    let removed = BatchOperations::batch_remove(&mut table, vec!["/a".to_string(), "/x".to_string(), "/c".to_string()]);
    assert_eq!(removed, 2);
    assert_eq!(table.count(), 1);
    assert!(table.contains("/b"));
}
