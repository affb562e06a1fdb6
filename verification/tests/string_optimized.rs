use rustblog_core::string_optimized::{
    join_paths_optimized, split_path_pooled, split_path_small, split_path_smart, PathStringPool,
    SmallString, SmartString, StringOptimizationStats, StringPool,
};
use std::sync::Arc;

#[test]
fn test_small_string_creation() {
    let s = SmallString::new("hello");
    assert_eq!(s.as_str(), "hello");
    assert!(s.is_small());
}

#[test]
fn test_small_string_from_long() {
    let s = SmallString::new("this is a very long string that will not fit in the small string optimization");
    assert!(!s.is_small());
}

#[test]
fn test_small_string_mutation() {
    let mut s = SmallString::new("hello");
    s.push_str(" world");
    assert_eq!(s.as_str(), "hello world");
}

#[test]
fn test_string_pool_basic() {
    let mut pool = StringPool::new();

    let s1 = pool.get_or_insert("test");
    let s2 = pool.get_or_insert("test");

    assert!(Arc::ptr_eq(&s1, &s2));
}

#[test]
fn test_string_pool_different_strings() {
    let mut pool = StringPool::new();

    let s1 = pool.get_or_insert("test1");
    let s2 = pool.get_or_insert("test2");

    assert!(!Arc::ptr_eq(&s1, &s2));
}

#[test]
fn test_path_string_pool_prefill() {
    let pool = PathStringPool::new();

    assert!(pool.get("GET").is_some());
    assert!(pool.get("POST").is_some());
    assert!(pool.get("users").is_some());
}

#[test]
fn test_smart_string_from_static() {
    let s = SmartString::from_static("hello");
    assert_eq!(s.as_str(), "hello");
}

#[test]
fn test_smart_string_from_str_small() {
    let s = SmartString::from_string("hello");
    assert_eq!(s.as_str(), "hello");
    assert!(matches!(s, SmartString::Small(_)));
}

#[test]
fn test_smart_string_from_str_large() {
    let s = SmartString::from_string("this is a very long string");
    assert_eq!(s.as_str(), "this is a very long string");
    assert!(matches!(s, SmartString::Pooled(_)));
}

#[test]
fn test_split_path_pooled() {
    let segments = split_path_pooled("/users/123/posts");
    assert_eq!(segments.len(), 3);
    assert_eq!(segments[0].as_ref(), "users");
    assert_eq!(segments[1].as_ref(), "123");
    assert_eq!(segments[2].as_ref(), "posts");
}

#[test]
fn test_split_path_small() {
    let segments = split_path_small("/users/123/posts");
    assert_eq!(segments.len(), 3);
    assert_eq!(segments[0].as_str(), "users");
    assert_eq!(segments[1].as_str(), "123");
    assert_eq!(segments[2].as_str(), "posts");
}

#[test]
fn test_split_path_smart() {
    let segments = split_path_smart("/users/123/posts");
    assert_eq!(segments.len(), 3);
    assert_eq!(segments[0].as_str(), "users");
    assert_eq!(segments[1].as_str(), "123");
    assert_eq!(segments[2].as_str(), "posts");
}

#[test]
fn test_join_paths_optimized() {
    let segments = vec!["api", "v1", "users"];
    let result = join_paths_optimized(&segments);
    assert_eq!(result, "/api/v1/users");
}

#[test]
fn test_join_paths_optimized_empty() {
    let segments: Vec<&str> = vec![];
    let result = join_paths_optimized(&segments);
    assert!(result.is_empty());
}

#[test]
fn test_join_paths_optimized_with_leading_slash() {
    let segments = vec!["/api", "v1", "users"];
    let result = join_paths_optimized(&segments);
    assert_eq!(result, "/api/v1/users");
}

#[test]
fn string_pool_counts_hits_and_misses() {
    let mut pool = StringPool::new();
    pool.get_or_insert("test");
    pool.get_or_insert("test");
    pool.get_or_insert("test");
    pool.get_or_insert("other");
    assert_eq!(pool.hits(), 2);
    assert_eq!(pool.misses(), 2);
    assert_eq!(pool.len(), 2);
    pool.prefill(&["a", "test", "b"]);
    assert_eq!(pool.len(), 4);
    assert_eq!(pool.hits(), 2);
    pool.clear();
    assert!(pool.is_empty());
    assert_eq!(pool.hits(), 0);
}

#[test]
fn string_pool_shrink_keeps_shared() {
    let mut pool = StringPool::new();
    let kept = pool.get_or_insert("kept");
    pool.get_or_insert("dropped");
    pool.shrink();
    assert_eq!(pool.len(), 1);
    assert!(pool.get("kept").is_some());
    assert!(pool.get("dropped").is_none());
    drop(kept);
}

#[test]
fn smart_string_vocabulary_word_is_pooled() {
    let s = SmartString::from_string("users");
    assert!(matches!(s, SmartString::Pooled(_)));
    assert_eq!(s.len(), 5);
    assert!(!s.is_empty());
}

#[test]
fn string_stats_count_each_kind() {
    let mut stats = StringOptimizationStats::new();
    stats.record_small_string();
    stats.record_small_string();
    stats.record_pooled_string();
    stats.record_borrowed_string();
    assert_eq!(stats.total_operations, 4);
    assert_eq!(stats.small_string_count, 2);
    assert_eq!(stats.pooled_string_count, 1);
    assert_eq!(stats.borrowed_string_count, 1);
}

#[test]
fn small_string_clear_and_len() {
    let mut s = SmallString::new("héllo");
    assert_eq!(s.len(), 6);
    s.clear();
    assert!(s.is_empty());
}

fn share(part: usize, total: usize) -> f64 {
    if total == 0 {
        0.0
    } else {
        part as f64 / total as f64
    }
}

#[test]
fn test_string_pool_hit_rate() {
    let mut pool = StringPool::new();

    pool.get_or_insert("test");
    pool.get_or_insert("test");
    pool.get_or_insert("test");
    pool.get_or_insert("other");

    let rate = share(pool.hits(), pool.hits() + pool.misses());
    assert!(rate > 0.0 && rate <= 1.0);
}

#[test]
fn test_string_optimization_stats() {
    let mut stats = StringOptimizationStats::new();

    stats.record_small_string();
    stats.record_small_string();
    stats.record_pooled_string();
    stats.record_borrowed_string();

    assert_eq!(share(stats.small_string_count, stats.total_operations), 0.5);
    assert_eq!(share(stats.pooled_string_count, stats.total_operations), 0.25);
    assert_eq!(share(stats.borrowed_string_count, stats.total_operations), 0.25);
}

#[test]
fn string_pool_shrink_with_keeps_counted_strings_in_order() {
    let mut pool = StringPool::new();
    pool.get_or_insert("a");
    pool.get_or_insert("b");
    pool.get_or_insert("c");
    pool.shrink_with(&vec![2, 1, 3]);
    assert_eq!(pool.len(), 2);
    assert!(pool.get("a").is_some());
    assert!(pool.get("b").is_none());
    assert!(pool.get("c").is_some());
}

#[test]
fn small_string_text_can_be_changed_in_place() {
    let mut s = SmallString::new("hello");
    s.as_mut_str().make_ascii_uppercase();
    assert_eq!(s.as_str(), "HELLO");
}
