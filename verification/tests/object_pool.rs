use rustblog_core::object_pool::{
    extract_params_optimized, normalize_path_optimized, split_path_optimized, PoolConfig, RouteObjectPool,
};

#[test]
fn test_object_pool_creation() {
    let pool = RouteObjectPool::new(20, 5);
    assert_eq!(pool.string_pool_size(), 0);
    assert_eq!(pool.vec_pool_size(), 0);
}

#[test]
fn test_object_pool_string_reuse() {
    let mut pool = RouteObjectPool::new(10, 5);

    let mut s = pool.pull_string();
    s.push_str("test");
    assert_eq!(*s, "test");
    drop(s);
}

#[test]
fn test_object_pool_vec_reuse() {
    let mut pool = RouteObjectPool::new(10, 5);

    let mut v = pool.pull_vec();
    v.push("test".to_string());
    assert_eq!(v.len(), 1);
    drop(v);
}

#[test]
fn test_pool_config() {
    let config = PoolConfig::new()
        .with_string_pool_size(1000)
        .with_vec_pool_size(500)
        .with_object_pool_enabled(true);

    assert_eq!(config.string_pool_size, 1000);
    assert_eq!(config.vec_pool_size, 500);
    assert!(config.enable_object_pool);
}

#[test]
fn test_pool_config_default() {
    let config = PoolConfig::default();
    assert_eq!(config.string_pool_size, 500);
    assert_eq!(config.vec_pool_size, 200);
    assert!(config.enable_object_pool);
}

#[test]
fn test_split_path_optimized() {
    let path = "/users/123/posts/456";
    let segments = split_path_optimized(path);

    assert_eq!(segments.len(), 4);
    assert_eq!(segments[0], "users");
    assert_eq!(segments[1], "123");
    assert_eq!(segments[2], "posts");
    assert_eq!(segments[3], "456");
}

#[test]
fn test_split_path_optimized_empty() {
    let path = "/";
    let segments = split_path_optimized(path);
    assert_eq!(segments.len(), 0);
}

#[test]
fn test_split_path_optimized_trailing_slash() {
    let path = "/users/";
    let segments = split_path_optimized(path);
    assert_eq!(segments.len(), 1);
    assert_eq!(segments[0], "users");
}

#[test]
fn test_normalize_path_optimized() {
    assert_eq!(normalize_path_optimized("/users/"), "/users");
    assert_eq!(normalize_path_optimized("/users//123/"), "/users/123");
    assert_eq!(normalize_path_optimized("  /users/123  "), "/users/123");
    assert_eq!(normalize_path_optimized("/"), "/");
}

#[test]
fn test_extract_params_optimized() {
    let params = vec![("id".to_string(), "123".to_string()), ("name".to_string(), "test".to_string())];

    let extracted = extract_params_optimized(&params);

    assert_eq!(extracted.get("id"), Some(&"123".to_string()));
    assert_eq!(extracted.get("name"), Some(&"test".to_string()));
    assert_eq!(extracted.len(), 2);
}

#[test]
fn pooled_strings_are_reused() {
    let mut pool = RouteObjectPool::new(4, 1);
    pool.return_string("leftover".to_string());
    assert_eq!(pool.string_pool_size(), 1);
    let s = pool.pull_string();
    assert_eq!(*s, "");
    assert_eq!(pool.string_pool_size(), 0);
    let built = PoolConfig::new().with_vec_pool_size(3).build();
    assert_eq!(built.vec_pool_size(), 0);
}

#[test]
fn later_params_win_and_tidy_edge_cases() {
    let params = vec![("id".to_string(), "1".to_string()), ("id".to_string(), "2".to_string())];
    let extracted = extract_params_optimized(&params);
    assert_eq!(extracted.len(), 1);
    assert_eq!(extracted.get("id"), Some(&"2".to_string()));
    assert_eq!(normalize_path_optimized("///"), "/");
    assert_eq!(normalize_path_optimized("\t"), "");
    assert_eq!(normalize_path_optimized("/users//"), "/users");
    assert_eq!(normalize_path_optimized("//"), "/");
}
