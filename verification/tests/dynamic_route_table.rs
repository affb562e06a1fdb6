use rustblog_core::dynamic_route_table::{DynamicRouteTable, DynamicRouteTableConfig};
use rustblog_core::dynamic_sharding::{DynamicShardingConfig, LoadBalanceStrategy};

#[derive(Debug, Clone, PartialEq)]
struct SimpleRoute {
    body: String,
    content_type: String,
}

impl SimpleRoute {
    fn new(body: impl Into<String>, content_type: &str) -> Self {
        SimpleRoute { body: body.into(), content_type: content_type.to_string() }
    }
}

#[test]
fn test_dynamic_route_table_creation() {
    let table: DynamicRouteTable<SimpleRoute> = DynamicRouteTable::default_config();
    assert_eq!(table.count(), 0);
    assert!(table.list_paths().is_empty());
}

#[test]
fn test_dynamic_route_table_insert_and_get() {
    let mut table = DynamicRouteTable::default_config();
    let route = SimpleRoute::new("hello", "text/plain");
    table.insert("/test".into(), route);
    assert!(table.contains("/test"));

    let result = table.get_with("/test", |_route| "found");
    assert_eq!(result, Some("found"));

    let result = table.get_with("/nonexistent", |_route| "found");
    assert_eq!(result, None);
}

#[test]
fn test_dynamic_route_table_remove() {
    let mut table = DynamicRouteTable::default_config();
    let route = SimpleRoute::new("hello", "text/plain");
    table.insert("/test".into(), route);
    assert!(table.remove("/test"));
    assert!(!table.remove("/nonexistent"));
    assert_eq!(table.count(), 0);
}

#[test]
fn test_dynamic_route_table_count() {
    let mut table = DynamicRouteTable::default_config();
    assert_eq!(table.count(), 0);

    table.insert("/route1".into(), SimpleRoute::new("body1", "text/plain"));
    assert_eq!(table.count(), 1);

    table.insert("/route2".into(), SimpleRoute::new("body2", "text/plain"));
    assert_eq!(table.count(), 2);

    table.remove("/route1");
    assert_eq!(table.count(), 1);
}

#[test]
fn test_dynamic_route_table_contains() {
    let mut table = DynamicRouteTable::default_config();
    assert!(!table.contains("/any"));

    table.insert("/hello".into(), SimpleRoute::new("body", "text/plain"));
    assert!(table.contains("/hello"));
    assert!(!table.contains("/world"));
}

#[test]
fn test_dynamic_route_table_list_paths() {
    let mut table = DynamicRouteTable::default_config();
    table.insert("/route1".into(), SimpleRoute::new("body", "text/plain"));
    table.insert("/route2".into(), SimpleRoute::new("body", "text/plain"));
    table.insert("/route3".into(), SimpleRoute::new("body", "text/plain"));

    let paths = table.list_paths();
    assert_eq!(paths.len(), 3);
}

#[test]
fn test_dynamic_route_table_clear() {
    let mut table = DynamicRouteTable::default_config();
    table.insert("/route1".into(), SimpleRoute::new("body", "text/plain"));
    table.insert("/route2".into(), SimpleRoute::new("body", "text/plain"));

    assert_eq!(table.count(), 2);
    table.clear();
    assert_eq!(table.count(), 0);
    assert!(table.list_paths().is_empty());
}

#[test]
fn test_dynamic_route_table_batch_insert() {
    let mut table = DynamicRouteTable::default_config();
    let mut routes: Vec<(String, SimpleRoute)> = Vec::new();

    for i in 0..100 {
        routes.push((format!("/route-{}", i), SimpleRoute::new(format!("body-{}", i), "text/plain")));
    }

    let left = table.batch_insert(routes);
    assert!(left.is_empty());
    assert_eq!(table.count(), 100);
}

#[test]
fn test_shard_count() {
    let mut table: DynamicRouteTable<SimpleRoute> = DynamicRouteTable::default_config();
    assert_eq!(table.shard_count(), 8);

    table.adjust_shard_count(true).unwrap();
    assert_eq!(table.shard_count(), 9);
}

#[test]
fn test_get_shard_metrics() {
    let mut table = DynamicRouteTable::default_config();
    let route = SimpleRoute::new("test", "text/plain");

    table.insert("/test1".into(), route.clone());
    table.insert("/test2".into(), route.clone());

    let metrics = table.get_shard_metrics();
    assert_eq!(metrics.len(), table.shard_count());

    let total_routes: usize = metrics.iter().map(|m| m.route_count).sum();
    assert_eq!(total_routes, 2);
}

#[test]
fn strategies_place_routes_without_hashing() {
    let config = DynamicRouteTableConfig {
        sharding: DynamicShardingConfig { initial_shards: 2, strategy: LoadBalanceStrategy::RoundRobin, ..Default::default() },
        use_hash_distribution: false,
    };
    let mut table = DynamicRouteTable::new(config);
    assert!(table.insert("/a".into(), SimpleRoute::new("a", "text/plain")));
    assert!(table.insert("/b".into(), SimpleRoute::new("b", "text/plain")));
    let metrics = table.get_shard_metrics();
    assert_eq!(metrics[0].route_count, 1);
    assert_eq!(metrics[1].route_count, 1);

    table.set_load_balance_strategy(LoadBalanceStrategy::Comprehensive);
    assert_eq!(table.get_load_balance_strategy(), LoadBalanceStrategy::Comprehensive);
    assert!(!table.insert("/c".into(), SimpleRoute::new("c", "text/plain")));
    assert_eq!(table.count(), 2);
    let left = table.batch_insert(vec![("/d".to_string(), SimpleRoute::new("d", "text/plain"))]);
    assert_eq!(left.len(), 1);
    assert_eq!(table.target_shard("/c"), None);

    table.insert_into_shard(1, "/c".into(), SimpleRoute::new("c", "text/plain"));
    assert_eq!(table.count(), 3);
    assert_eq!(table.get_shard_metrics()[1].route_count, 2);
}

#[test]
fn get_clone_reads_a_copy_of_the_stored_route() {
    let mut table = DynamicRouteTable::default();
    table.insert("/x".into(), SimpleRoute::new("x", "text/plain"));
    assert_eq!(table.get_clone("/x"), Some(SimpleRoute::new("x", "text/plain")));
    assert_eq!(table.get_clone("/y"), None);
}

#[test]
fn batch_insert_stores_every_route_round_robin() {
    let config = DynamicRouteTableConfig {
        sharding: DynamicShardingConfig { initial_shards: 3, strategy: LoadBalanceStrategy::RoundRobin, ..Default::default() },
        use_hash_distribution: false,
    };
    let mut table = DynamicRouteTable::new(config);
    let routes: Vec<(String, SimpleRoute)> =
        (0..7).map(|i| (format!("/r{}", i), SimpleRoute::new(format!("b{}", i), "text/plain"))).collect();
    let left = table.batch_insert(routes);
    assert!(left.is_empty());
    let writes: Vec<usize> = table.get_shard_metrics().iter().map(|m| m.write_count).collect();
    assert_eq!(writes, vec![3, 2, 2]);
    let counts: Vec<usize> = table.get_shard_metrics().iter().map(|m| m.route_count).collect();
    assert_eq!(counts, vec![3, 2, 2]);
}

#[test]
fn batch_insert_hashed_finds_each_route() {
    let mut table = DynamicRouteTable::default_config();
    let routes: Vec<(String, SimpleRoute)> =
        (0..20).map(|i| (format!("/p{}", i), SimpleRoute::new(format!("b{}", i), "text/plain"))).collect();
    table.batch_insert(routes);
    for i in 0..20 {
        assert!(table.contains(&format!("/p{}", i)));
    }
    assert_eq!(table.count(), 20);
}
