use rustblog_core::lockfree_cache::{LockfreeCacheStats, LockfreeLruCache};

#[test]
fn test_lockfree_lru_cache_basic() {
    let mut cache = LockfreeLruCache::new(3);

    cache.insert("key1", "value1");
    cache.insert("key2", "value2");

    assert_eq!(cache.len(), 2);

    let value = cache.get(&"key1");
    assert_eq!(value, Some("value1"));

    let value = cache.get(&"key3");
    assert_eq!(value, None);

    assert_eq!(cache.stats().hits, 1);
    assert_eq!(cache.stats().misses, 1);
}

#[test]
fn test_lockfree_lru_cache_eviction() {
    let mut cache = LockfreeLruCache::new(2);

    cache.insert("key1", "value1");
    cache.insert("key2", "value2");

    cache.get(&"key1");

    cache.insert("key3", "value3");

    assert_eq!(cache.len(), 2);
    assert_eq!(cache.get(&"key1"), Some("value1"));
    assert_eq!(cache.get(&"key2"), None);
    assert_eq!(cache.get(&"key3"), Some("value3"));

    assert_eq!(cache.stats().evictions, 1);
}

#[test]
fn lockfree_cache_stats_counters() {
    let mut stats = LockfreeCacheStats::default();
    stats.record_hit();
    assert_eq!(stats.hits, 1);
    assert_eq!(stats.total_queries, 1);
    stats.record_miss();
    assert_eq!(stats.misses, 1);
    assert_eq!(stats.total_queries, 2);
    stats.update_size(1);
    assert_eq!(stats.size, 1);
    stats.update_size(-1);
    assert_eq!(stats.size, 0);
    stats.update_size(-1);
    assert_eq!(stats.size, usize::MAX);
    let snap = stats.snapshot();
    assert_eq!(snap.hits, 1);
    assert_eq!(snap.size, usize::MAX);
}

#[test]
fn lockfree_cache_remove_and_clear() {
    let mut cache = LockfreeLruCache::new(4);
    cache.insert("a".to_string(), 1);
    cache.insert("b".to_string(), 2);
    assert_eq!(cache.remove(&"a".to_string()), Some(1));
    assert_eq!(cache.remove(&"a".to_string()), None);
    assert_eq!(cache.len(), 1);
    assert_eq!(cache.get(&"a".to_string()), None);
    cache.clear();
    assert!(cache.is_empty());
    assert_eq!(cache.stats().size, 0);
}

#[test]
fn test_lockfree_cache_stats() {
    let mut stats = LockfreeCacheStats::default();

    stats.record_hit();
    assert_eq!(stats.hits, 1);
    assert_eq!(stats.total_queries, 1);

    stats.record_miss();
    assert_eq!(stats.misses, 1);
    assert_eq!(stats.total_queries, 2);

    assert_eq!(stats.hits as f64 / stats.total_queries as f64, 0.5);

    stats.update_size(1);
    assert_eq!(stats.size, 1);

    stats.update_size(-1);
    assert_eq!(stats.size, 0);
}

#[test]
fn lockfree_cache_stays_within_capacity_and_reads_back_writes() {
    let mut cache: LockfreeLruCache<String, u32> = LockfreeLruCache::new(2);
    for i in 0..10u32 {
        cache.insert(format!("k{}", i), i);
        assert!(cache.len() <= 2);
        assert_eq!(cache.get(&format!("k{}", i)), Some(i));
    }
    cache.insert("k9".to_string(), 99);
    assert_eq!(cache.get(&"k9".to_string()), Some(99));
    assert_eq!(cache.len(), 2);
}

#[test]
fn query_total_is_hits_plus_misses() {
    let mut s = LockfreeCacheStats::default();
    s.record_hit();
    s.record_miss();
    s.record_miss();
    assert_eq!(s.hits, 1);
    assert_eq!(s.misses, 2);
    assert_eq!(s.total_queries, s.hits + s.misses);
}
