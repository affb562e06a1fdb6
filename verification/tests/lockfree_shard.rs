use rustblog_core::lockfree_shard::{LockfreeDynamicShard, LockfreeShardMetrics};

#[derive(Debug, Clone, PartialEq)]
struct SimpleRoute {
    body: String,
    content_type: String,
}

impl SimpleRoute {
    fn new(body: &str, content_type: &str) -> Self {
        SimpleRoute { body: body.to_string(), content_type: content_type.to_string() }
    }
}


#[test]
fn test_lockfree_metrics_atomic_operations() {
    let mut metrics = LockfreeShardMetrics::default();

    metrics.increment_route_count();
    assert_eq!(metrics.get_route_count(), 1);

    metrics.increment_route_count();
    assert_eq!(metrics.get_route_count(), 2);

    metrics.decrement_route_count();
    assert_eq!(metrics.get_route_count(), 1);

    metrics.record_write();
    assert_eq!(metrics.write_count, 1);

    metrics.record_read(1000);
    assert_eq!(metrics.read_count, 1);
    assert_eq!(metrics.avg_latency_ns, 500);
}

#[test]
fn shard_metrics_connections_and_snapshot() {
    let mut metrics = LockfreeShardMetrics::default();
    metrics.increment_active_connections();
    metrics.increment_active_connections();
    metrics.decrement_active_connections();
    metrics.decrement_route_count();
    let snap = metrics.snapshot();
    assert_eq!(snap.active_connections, 1);
    assert_eq!(snap.route_count, usize::MAX);
    metrics.record_read(300);
    metrics.record_read(100);
    assert_eq!(metrics.avg_latency_ns, 200);
}

#[test]
fn test_lockfree_shard_basic_operations() {
    let mut shard = LockfreeDynamicShard::new(0);
    let route = SimpleRoute::new("test", "text/plain");

    shard.insert("/test", route.clone());
    assert_eq!(shard.route_count(), 1);
    assert!(shard.contains("/test"));

    let found = shard.find("/test");
    assert!(found.is_some());

    shard.remove("/test");
    assert_eq!(shard.route_count(), 0);
    assert!(!shard.contains("/test"));
}

#[test]
fn lockfree_shard_find_gives_stored_route_and_params() {
    let mut shard = LockfreeDynamicShard::new(3);
    assert_eq!(shard.id(), 3);
    shard.insert("/users/{id}", SimpleRoute::new("user", "text/plain"));
    let (route, params) = shard.find("/users/42").unwrap();
    assert_eq!(route.body, "user");
    assert_eq!(params, vec![("id".to_string(), "42".to_string())]);
    assert!(shard.find("/nothing").is_none());
}
