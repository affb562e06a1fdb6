use rustblog_core::cache_optimized::{
    shard_index_for_hash, CacheOptimizedRouteTable, CacheOptimizedShard, CompactRadixNode,
    CompactRadixTree, RadixNodeType,
};

#[derive(Debug, Clone, PartialEq)]
struct SimpleRoute {
    body: String,
    content_type: String,
}

impl SimpleRoute {
    fn new(body: &str, content_type: &str) -> Self {
        SimpleRoute { body: body.to_string(), content_type: content_type.to_string() }
    }
}

#[test]
fn test_compact_radix_tree_insert_and_find() {
    let mut tree = CompactRadixTree::new();
    let route = SimpleRoute::new("Hello", "text/plain");
    tree.insert("/hello", Box::new(route));

    let result = tree.find("/hello");
    assert!(result.is_some());
}

#[test]
fn test_compact_radix_tree_parameter() {
    let mut tree = CompactRadixTree::new();
    let route = SimpleRoute::new("User", "text/plain");
    tree.insert("/user/{id}", Box::new(route));

    let result = tree.find("/user/123");
    assert!(result.is_some());
    let (_route, params) = result.unwrap();
    assert_eq!(params.len(), 1);
    assert_eq!(params[0].0, "id");
    assert_eq!(params[0].1, "123");
}

#[test]
fn test_cache_optimized_shard() {
    let mut shard = CacheOptimizedShard::new();
    let route = SimpleRoute::new("Test", "text/plain");
    shard.insert("/test", Box::new(route));

    assert!(shard.contains("/test"));
    assert_eq!(shard.count(), 1);

    let result = shard.find("/test");
    assert!(result.is_some());

    assert!(shard.remove("/test"));
    assert!(!shard.contains("/test"));
    assert_eq!(shard.count(), 0);
}

#[test]
fn test_compact_radix_tree_list_paths() {
    let mut tree = CompactRadixTree::new();
    tree.insert("/route1", Box::new(SimpleRoute::new("1", "text/plain")));
    tree.insert("/route2", Box::new(SimpleRoute::new("2", "text/plain")));

    let paths = tree.list_paths();
    assert_eq!(paths.len(), 2);
    assert!(paths.contains(&"/route1".to_string()));
    assert!(paths.contains(&"/route2".to_string()));
}

#[test]
fn test_cache_optimized_route_table() {
    let mut table = CacheOptimizedRouteTable::new(8);
    let route = SimpleRoute::new("Hello", "text/plain");
    table.insert("/hello".to_string(), Box::new(route));

    assert!(table.contains("/hello"));
    assert_eq!(table.count(), 1);

    let result = table.find("/hello");
    assert!(result.is_some());

    assert!(table.remove("/hello"));
    assert!(!table.contains("/hello"));
    assert_eq!(table.count(), 0);
}

#[test]
fn test_cache_optimized_route_table_parameter() {
    let mut table = CacheOptimizedRouteTable::new(8);
    let route = SimpleRoute::new("User", "text/plain");
    table.insert("/user/{id}".to_string(), Box::new(route));

    let result = table.find("/user/123");
    assert!(result.is_some());
    let (_route, params) = result.unwrap();
    assert_eq!(params.len(), 1);
}

#[test]
fn from_segment_classifies_segments() {
    assert!(matches!(RadixNodeType::from_segment("{id}"), RadixNodeType::Parameter(ref n) if n == "id"));
    assert!(matches!(RadixNodeType::from_segment("{}"), RadixNodeType::Parameter(ref n) if n.is_empty()));
    assert!(matches!(RadixNodeType::from_segment("*"), RadixNodeType::Wildcard));
    assert!(matches!(RadixNodeType::from_segment("users"), RadixNodeType::Static(ref s) if s == "users"));
    assert!(matches!(RadixNodeType::from_segment("{"), RadixNodeType::Static(ref s) if s == "{"));
    assert!(matches!(RadixNodeType::from_segment("**"), RadixNodeType::Static(ref s) if s == "**"));
}

#[test]
fn new_node_is_bare() {
    let node = CompactRadixNode::new(RadixNodeType::Wildcard);
    let text = format!("{:?}", node);
    assert!(text.contains("Wildcard"));
}

#[test]
fn static_lookup_returns_the_route_and_no_params() {
    let mut tree = CompactRadixTree::new();
    tree.insert("/a/b", SimpleRoute::new("ab", "text/plain"));
    tree.insert("/a/c", SimpleRoute::new("ac", "text/plain"));
    let (route, params) = tree.find("a//b/").unwrap();
    assert_eq!(route.body, "ab");
    assert!(params.is_empty());
    assert!(tree.find("/a").is_none());
    assert!(tree.find("/a/b/c").is_none());
}

#[test]
fn literal_edge_wins_over_parameter() {
    let mut tree = CompactRadixTree::new();
    tree.insert("/user/{id}", SimpleRoute::new("param", "text/plain"));
    tree.insert("/user/me", SimpleRoute::new("me", "text/plain"));
    assert_eq!(tree.find("/user/me").unwrap().0.body, "me");
    let (route, params) = tree.find("/user/42").unwrap();
    assert_eq!(route.body, "param");
    assert_eq!(params, vec![("id".to_string(), "42".to_string())]);
}

#[test]
fn parameter_child_shadows_wildcard_child() {
    let mut tree = CompactRadixTree::new();
    tree.insert("/a/{x}", SimpleRoute::new("param", "text/plain"));
    tree.insert("/a/*", SimpleRoute::new("wild", "text/plain"));
    // The lookup of `*` goes through the parameter child first.
    assert_eq!(tree.find("/a/*").unwrap().0.body, "param");
}

#[test]
fn remove_takes_only_that_route() {
    let mut tree = CompactRadixTree::new();
    tree.insert("/x", SimpleRoute::new("x", "text/plain"));
    tree.insert("/y", SimpleRoute::new("y", "text/plain"));
    assert_eq!(tree.remove("/x").map(|r| r.body.clone()), Some("x".to_string()));
    assert!(tree.remove("/x").is_none());
    assert!(!tree.contains("/x"));
    assert!(tree.contains("/y"));
    assert!(tree.remove("/missing").is_none());
}

#[test]
fn list_paths_names_parameters_and_wildcards() {
    let mut tree = CompactRadixTree::new();
    tree.insert("/", SimpleRoute::new("root", "text/plain"));
    tree.insert("/a/{id}", SimpleRoute::new("p", "text/plain"));
    tree.insert("/a/*", SimpleRoute::new("w", "text/plain"));
    tree.insert("/a/b", SimpleRoute::new("b", "text/plain"));
    assert_eq!(tree.list_paths(), vec!["", "/a/b", "/a/{param}", "/a/*"]);
    tree.clear();
    assert!(tree.list_paths().is_empty());
    assert!(tree.find("/").is_none());
}

#[test]
fn shard_counts_new_paths_once() {
    let mut shard = CacheOptimizedShard::new();
    shard.insert("/a", SimpleRoute::new("1", "text/plain"));
    shard.insert("/a", SimpleRoute::new("2", "text/plain"));
    assert_eq!(shard.count(), 1);
    assert_eq!(shard.find("/a").unwrap().0.body, "2");
    assert_eq!(shard.list_paths(), vec!["/a"]);
    shard.clear();
    assert_eq!(shard.count(), 0);
    assert!(!shard.contains("/a"));
}

#[test]
fn shard_index_is_hash_modulo_shards() {
    assert_eq!(shard_index_for_hash(17, 8), 1);
    assert_eq!(shard_index_for_hash(16, 8), 0);
    assert_eq!(shard_index_for_hash(5, 1), 0);
}

#[test]
fn table_counts_lists_and_clears() {
    let mut table: CacheOptimizedRouteTable<SimpleRoute> = CacheOptimizedRouteTable::default();
    table.insert("/a".to_string(), SimpleRoute::new("a", "text/plain"));
    table.insert("/b".to_string(), SimpleRoute::new("b", "text/plain"));
    table.insert("/a".to_string(), SimpleRoute::new("a2", "text/plain"));
    assert_eq!(table.count(), 2);
    let mut paths = table.list_paths();
    paths.sort();
    assert_eq!(paths, vec!["/a", "/b"]);
    assert_eq!(table.find("/a").unwrap().0.body, "a2");
    assert!(!table.remove("/zzz"));
    table.clear();
    assert_eq!(table.count(), 0);
    assert!(table.find("/a").is_none());
}

#[test]
fn node_types_match_segments() {
    assert!(RadixNodeType::from_segment("users").matches("users"));
    assert!(!RadixNodeType::from_segment("users").matches("posts"));
    assert!(RadixNodeType::from_segment("{id}").matches("42"));
    assert!(RadixNodeType::from_segment("*").matches("anything"));
}

#[test]
fn fresh_tree_parameter_pattern_matches_exactly_its_paths() {
    let mut tree = CompactRadixTree::new();
    tree.insert("/user/{id}/posts", SimpleRoute::new("posts", "text/plain"));
    let (route, params) = tree.find("/user/42/posts").unwrap();
    assert_eq!(route.body, "posts");
    assert_eq!(params, vec![("id".to_string(), "42".to_string())]);
    assert!(tree.find("/user/42").is_none());
    assert!(tree.find("/user/42/posts/x").is_none());
    assert!(tree.find("/other/42/posts").is_none());
}

#[test]
fn table_remove_after_insert_empties_the_counter() {
    let mut table = CacheOptimizedRouteTable::new(8);
    table.insert("/hello".to_string(), SimpleRoute::new("Hello", "text/plain"));
    assert!(table.remove("/hello"));
    assert!(!table.contains("/hello"));
    assert_eq!(table.count(), 0);
    assert!(table.list_paths().is_empty());
}

#[test]
fn fresh_tree_lists_the_one_stored_path() {
    let mut tree = CompactRadixTree::new();
    tree.insert("/a/{id}/b", SimpleRoute::new("x", "text/plain"));
    assert_eq!(tree.list_paths(), vec!["/a/{param}/b".to_string()]);
    let mut table = CacheOptimizedRouteTable::new(4);
    table.insert("/user/{id}".to_string(), SimpleRoute::new("u", "text/plain"));
    assert_eq!(table.list_paths(), vec!["/user/{param}".to_string()]);
}

#[test]
fn shard_counts_routes_not_matches() {
    let mut shard = CacheOptimizedShard::new();
    shard.insert("/user/{id}", SimpleRoute::new("p", "text/plain"));
    shard.insert("/user/1", SimpleRoute::new("one", "text/plain"));
    assert_eq!(shard.count(), 2);
    assert_eq!(shard.list_paths().len(), 2);
    assert!(shard.remove("/user/7"));
    assert_eq!(shard.count(), 1);
    assert!(shard.remove("/user/1"));
    assert_eq!(shard.count(), 0);
}

#[test]
fn later_inserts_keep_earlier_routes() {
    let mut tree = CompactRadixTree::new();
    tree.insert("/users/{id}", SimpleRoute::new("detail", "text/plain"));
    tree.insert("/users/me", SimpleRoute::new("me", "text/plain"));
    let (route, params) = tree.find("/users/me").unwrap();
    assert_eq!(route.body, "me");
    assert!(params.is_empty());
    let (route, params) = tree.find("/users/7").unwrap();
    assert_eq!(route.body, "detail");
    assert_eq!(params, vec![("id".to_string(), "7".to_string())]);
    assert!(tree.find("/users").is_none());
    let mut paths = tree.list_paths();
    paths.sort();
    assert_eq!(paths, vec!["/users/me".to_string(), "/users/{param}".to_string()]);
}
