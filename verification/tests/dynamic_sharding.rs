use rustblog_core::dynamic_sharding::{
    DynamicShard, DynamicShardManager, DynamicShardingConfig, LoadBalanceStrategy, ShardMetrics,
};

#[derive(Debug, Clone, PartialEq)]
struct SimpleRoute {
    body: String,
    content_type: String,
}

impl SimpleRoute {
    fn new(body: &str, content_type: &str) -> Self {
        SimpleRoute { body: body.to_string(), content_type: content_type.to_string() }
    }
}

#[test]
fn test_dynamic_shard_creation() {
    let shard: DynamicShard<SimpleRoute> = DynamicShard::new(0);
    assert_eq!(shard.id(), 0);
    assert_eq!(shard.route_count(), 0);
}

#[test]
fn test_dynamic_shard_operations() {
    let mut shard = DynamicShard::new(0);
    let route = SimpleRoute::new("test", "text/plain");

    shard.insert("/test", route);
    assert_eq!(shard.route_count(), 1);
    assert!(shard.contains("/test"));

    let found = shard.find("/test");
    assert!(found.is_some());

    shard.remove("/test");
    assert_eq!(shard.route_count(), 0);
    assert!(!shard.contains("/test"));
}

#[test]
fn test_shard_metrics() {
    let mut shard = DynamicShard::new(0);
    let route = SimpleRoute::new("test", "text/plain");

    shard.insert("/test1", route.clone());
    shard.insert("/test2", route.clone());

    assert_eq!(shard.metrics().route_count, 2);
    assert_eq!(shard.metrics().write_count, 2);
    assert_eq!(shard.metrics().total_access, 2);

    shard.find("/test1");
    assert_eq!(shard.metrics().read_count, 1);
    assert_eq!(shard.metrics().total_access, 3);
}

#[test]
fn test_dynamic_shard_manager_creation() {
    let manager: DynamicShardManager<SimpleRoute> = DynamicShardManager::new(DynamicShardingConfig::default());
    assert_eq!(manager.shard_count(), 8);
    assert_eq!(manager.total_routes(), 0);
}

#[test]
fn test_select_shard_by_route_count() {
    let config = DynamicShardingConfig { strategy: LoadBalanceStrategy::RouteCount, ..Default::default() };
    let mut manager: DynamicShardManager<SimpleRoute> = DynamicShardManager::new(config);

    let selected = manager.select_shard("/test").unwrap();
    assert!(selected < manager.shard_count());
}

#[test]
fn test_adjust_shard_count() {
    let config = DynamicShardingConfig { max_shards: 16, min_shards: 2, ..Default::default() };
    let mut manager: DynamicShardManager<SimpleRoute> = DynamicShardManager::new(config);

    let initial_count = manager.shard_count();

    manager.adjust_shard_count(true).unwrap();
    assert_eq!(manager.shard_count(), initial_count + 1);

    manager.adjust_shard_count(false).unwrap();
    assert_eq!(manager.shard_count(), initial_count);
}

#[test]
fn adjust_shard_count_refuses_at_the_limits() {
    let config = DynamicShardingConfig { initial_shards: 2, min_shards: 2, max_shards: 3, ..Default::default() };
    let mut manager: DynamicShardManager<SimpleRoute> = DynamicShardManager::new(config);
    assert_eq!(manager.adjust_shard_count(false), Err("已达到最小分片数量".to_string()));
    manager.adjust_shard_count(true).unwrap();
    assert_eq!(manager.adjust_shard_count(true), Err("已达到最大分片数量".to_string()));
    manager.get_shard_mut(2).unwrap().insert("/busy", SimpleRoute::new("b", "text/plain"));
    assert_eq!(manager.adjust_shard_count(false), Err("最后一个分片不为空，无法移除".to_string()));
    assert_eq!(manager.shard_count(), 3);
    assert_eq!(manager.get_shard(2).unwrap().id(), 2);
}

#[test]
fn select_shard_follows_the_strategy() {
    let config = DynamicShardingConfig { initial_shards: 3, strategy: LoadBalanceStrategy::RoundRobin, ..Default::default() };
    let mut manager: DynamicShardManager<SimpleRoute> = DynamicShardManager::new(config);
    assert_eq!(manager.select_shard("/a"), Some(0));
    assert_eq!(manager.select_shard("/a"), Some(1));
    assert_eq!(manager.select_shard("/a"), Some(2));
    assert_eq!(manager.select_shard("/a"), Some(0));

    manager.set_strategy(LoadBalanceStrategy::RouteCount);
    manager.get_shard_mut(0).unwrap().insert("/x", SimpleRoute::new("x", "text/plain"));
    assert_eq!(manager.select_shard("/a"), Some(1));

    manager.set_strategy(LoadBalanceStrategy::AccessFrequency);
    manager.get_shard_mut(1).unwrap().insert("/y", SimpleRoute::new("y", "text/plain"));
    assert_eq!(manager.select_shard("/a"), Some(2));

    manager.set_strategy(LoadBalanceStrategy::Comprehensive);
    assert_eq!(manager.select_shard("/a"), None);
}

#[test]
fn moving_routes_takes_half_of_the_listed_routes() {
    let config = DynamicShardingConfig { initial_shards: 2, ..Default::default() };
    let mut manager: DynamicShardManager<SimpleRoute> = DynamicShardManager::new(config);
    for i in 0..10 {
        manager.get_shard_mut(0).unwrap().insert(&format!("/r{}", i), SimpleRoute::new("r", "text/plain"));
    }
    let moved = manager.move_routes_between_shards(0, 1);
    assert_eq!(moved, 5);
    assert_eq!(manager.get_shard(0).unwrap().route_count(), 5);
    assert_eq!(manager.get_shard(1).unwrap().route_count(), 5);
    assert_eq!(manager.calculate_actual_total_routes(), 10);
    let metrics: Vec<ShardMetrics> = manager.get_all_metrics();
    assert_eq!(metrics.len(), 2);
    assert_eq!(metrics[1].write_count, 5);
    assert_eq!(manager.move_routes_between_shards(1, 1) <= 2, true);
}

#[test]
fn manager_counter_wraps_like_an_atomic() {
    let mut manager: DynamicShardManager<SimpleRoute> = DynamicShardManager::default();
    manager.increment_total_routes();
    manager.increment_total_routes();
    manager.decrement_total_routes();
    assert_eq!(manager.total_routes(), 1);
    manager.reset_total_routes();
    manager.decrement_total_routes();
    assert_eq!(manager.total_routes(), usize::MAX);
    let index = manager.hash_shard_index("/some/path");
    assert!(index < manager.shard_count());
    assert_eq!(index, manager.hash_shard_index("/some/path"));
}

#[test]
fn shard_lists_and_gives_all_routes() {
    let mut shard = DynamicShard::new(1);
    shard.insert("/a", SimpleRoute::new("a", "text/plain"));
    shard.insert("/b/{id}", SimpleRoute::new("b", "text/plain"));
    let mut paths = shard.list_paths_with_capacity();
    paths.sort();
    assert_eq!(paths, vec!["/a".to_string(), "/b/{id}".to_string()]);
    let routes = shard.get_all_routes();
    assert_eq!(routes.len(), 2);
    for (path, route) in routes.iter() {
        if path == "/a" {
            assert_eq!(route.body, "a");
        } else {
            assert_eq!(route.body, "b");
        }
    }
    shard.clear();
    assert_eq!(shard.route_count(), 0);
    assert_eq!(shard.metrics().total_access, 0);
}

#[test]
fn moved_routes_arrive_under_their_paths() {
    let config = DynamicShardingConfig { initial_shards: 2, ..Default::default() };
    let mut manager: DynamicShardManager<SimpleRoute> = DynamicShardManager::new(config);
    for i in 0..4 {
        manager.get_shard_mut(0).unwrap().insert(&format!("/r{}", i), SimpleRoute::new(&format!("b{}", i), "text/plain"));
    }
    let before: Vec<String> = manager.get_shard(0).unwrap().list_paths();
    let moved = manager.move_routes_between_shards(0, 1);
    assert_eq!(moved, 2);
    let mut all: Vec<String> = manager.get_shard(0).unwrap().list_paths();
    all.extend(manager.get_shard(1).unwrap().list_paths());
    all.sort();
    let mut expected = before.clone();
    expected.sort();
    assert_eq!(all, expected);
    for p in manager.get_shard(1).unwrap().list_paths() {
        assert!(manager.get_shard(1).unwrap().contains(&p));
        assert!(!manager.get_shard(0).unwrap().contains(&p));
    }
}

#[test]
fn moved_paths_keep_their_own_routes() {
    let config = DynamicShardingConfig { initial_shards: 2, ..Default::default() };
    let mut manager: DynamicShardManager<SimpleRoute> = DynamicShardManager::new(config);
    for p in ["/a", "/a/{id}", "/b/*", "/c"] {
        manager.get_shard_mut(0).unwrap().insert(p, SimpleRoute::new(p, "text/plain"));
    }
    let listed: Vec<String> = manager.get_shard(0).unwrap().list_paths();
    let moved = manager.move_routes_between_shards(0, 1);
    assert_eq!(moved, 2);
    for p in listed.iter().take(2) {
        let mut target = manager.get_shard(1).unwrap().list_paths();
        target.sort();
        assert!(target.contains(p));
        assert!(!manager.get_shard(0).unwrap().list_paths().contains(p));
    }
    let m = manager.get_shard_mut(1).unwrap();
    let (r, _) = m.find("/a").unwrap();
    assert_eq!(r.body, "/a");
    let (r, ps) = m.find("/a/7").unwrap();
    assert_eq!(r.body, "/a/{id}");
    assert_eq!(ps, vec![("id".to_string(), "7".to_string())]);
}
