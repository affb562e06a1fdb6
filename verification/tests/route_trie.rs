use rustblog_core::route_trie::RouteTrie;

#[derive(Debug)]
#[allow(dead_code)]
struct SimpleRoute {
    body: String,
    content_type: String,
}

impl SimpleRoute {
    fn new(body: &str, content_type: &str) -> Self {
        SimpleRoute { body: body.to_string(), content_type: content_type.to_string() }
    }
}

#[test]
fn test_trie_insert_and_find() {
    let mut trie = RouteTrie::new();
    trie.insert("/users", (SimpleRoute::new("users", "text/plain")));

    let result = trie.find("/users");
    assert!(result.is_some());
}

#[test]
fn route_trie_test_parameterized_route() {
    let mut trie = RouteTrie::new();
    trie.insert("/users/{id}", (SimpleRoute::new("user", "text/plain")));

    let (_route, params) = trie.find("/users/123").unwrap();
    assert!(params.iter().any(|(k, v)| k == "id" && v == "123"));

    let (_route, params) = trie.find("/users/abc").unwrap();
    assert!(params.iter().any(|(k, v)| k == "id" && v == "abc"));
}

#[test]
fn route_trie_test_multiple_parameters() {
    let mut trie = RouteTrie::new();
    trie.insert(
        "/users/{id}/posts/{post_id}",
        (SimpleRoute::new("post", "text/plain")),
    );

    let (_route, params) = trie.find("/users/123/posts/456").unwrap();
    assert!(params.iter().any(|(k, v)| k == "id" && v == "123"));
    assert!(params.iter().any(|(k, v)| k == "post_id" && v == "456"));
}

#[test]
fn route_trie_test_wildcard_route() {
    let mut trie = RouteTrie::new();
    trie.insert("/static/*", (SimpleRoute::new("static", "text/plain")));

    let result = trie.find("/static/css/style.css");
    assert!(result.is_some());

    let result = trie.find("/static/js/app.js");
    assert!(result.is_some());

    let result = trie.find("/static");
    assert!(result.is_none());
}

#[test]
fn route_trie_test_priority_matching() {
    let mut trie = RouteTrie::new();
    trie.insert("/users", (SimpleRoute::new("list", "text/plain")));
    trie.insert("/users/{id}", (SimpleRoute::new("detail", "text/plain")));

    // 精确匹配应该优先
    let (_route, params) = trie.find("/users").unwrap();
    assert!(params.is_empty());

    // 参数化匹配
    let (_route, params) = trie.find("/users/123").unwrap();
    assert!(params.iter().any(|(k, v)| k == "id" && v == "123"));
}

#[test]
fn route_trie_test_remove_route() {
    let mut trie = RouteTrie::new();
    trie.insert("/users", (SimpleRoute::new("users", "text/plain")));

    assert!(trie.contains("/users"));
    let removed = trie.remove("/users");
    assert!(removed.is_some());
    assert!(!trie.contains("/users"));
}

#[test]
fn route_trie_test_count_routes() {
    let mut trie = RouteTrie::new();
    assert_eq!(trie.count(), 0);

    trie.insert("/users", (SimpleRoute::new("users", "text/plain")));
    assert_eq!(trie.count(), 1);

    trie.insert("/users/{id}", (SimpleRoute::new("user", "text/plain")));
    assert_eq!(trie.count(), 2);

    trie.remove("/users");
    assert_eq!(trie.count(), 1);
}

#[test]
fn route_trie_test_list_paths() {
    let mut trie = RouteTrie::new();
    trie.insert("/users", (SimpleRoute::new("users", "text/plain")));
    trie.insert("/users/{id}", (SimpleRoute::new("user", "text/plain")));
    trie.insert("/posts", (SimpleRoute::new("posts", "text/plain")));

    let paths = trie.list_paths();
    assert_eq!(paths.len(), 3);
    assert!(paths.contains(&"/users".to_string()));
    assert!(paths.contains(&"/users/{id}".to_string()));
    assert!(paths.contains(&"/posts".to_string()));
}

#[test]
fn route_trie_test_complex_path() {
    let mut trie = RouteTrie::new();
    trie.insert(
        "/api/v1/users/{user_id}/posts/{post_id}/comments/{comment_id}",
        (SimpleRoute::new("comment", "text/plain")),
    );

    let (_route, params) = trie
        .find("/api/v1/users/123/posts/456/comments/789")
        .unwrap();
    assert!(params.iter().any(|(k, v)| k == "user_id" && v == "123"));
    assert!(params.iter().any(|(k, v)| k == "post_id" && v == "456"));
    assert!(params.iter().any(|(k, v)| k == "comment_id" && v == "789"));
}

#[test]
fn route_trie_test_root_path() {
    let mut trie = RouteTrie::new();
    trie.insert("/", (SimpleRoute::new("root", "text/plain")));

    assert!(trie.find("/").is_some());
    // 空字符串路径分割后也是空segments，同样会匹配根路径
    assert!(trie.find("").is_some());
}

#[test]
fn route_trie_test_clear_routes() {
    let mut trie = RouteTrie::new();
    trie.insert("/users", (SimpleRoute::new("users", "text/plain")));
    trie.insert("/posts", (SimpleRoute::new("posts", "text/plain")));

    assert_eq!(trie.count(), 2);
    trie.clear();
    assert_eq!(trie.count(), 0);
}

#[test]
fn test_trie_node_count() {
    let mut trie = RouteTrie::new();
    trie.insert("/users", (SimpleRoute::new("users", "text/plain")));
    trie.insert("/users/{id}", (SimpleRoute::new("user", "text/plain")));
    trie.insert("/posts", (SimpleRoute::new("posts", "text/plain")));

    // 根节点 + users节点 + 参数节点 + posts节点 = 4
    assert_eq!(trie.node_count(), 4);
}

#[test]
fn trie_wildcard_captures_the_rest_and_priorities_fall_back() {
    let mut trie = RouteTrie::new();
    trie.insert("/files/*", SimpleRoute::new("files", "text/plain"));
    trie.insert("/files/{name}/meta", SimpleRoute::new("meta", "text/plain"));
    let (route, params) = trie.find("/files/a/b/c").unwrap();
    assert_eq!(route.body, "files");
    assert_eq!(params, vec![("*".to_string(), "a/b/c".to_string())]);
    let (route, params) = trie.find("/files/x/meta").unwrap();
    assert_eq!(route.body, "meta");
    assert_eq!(params, vec![("name".to_string(), "x".to_string())]);
    // The parameter branch fails below, so the lookup falls back to the wildcard.
    let (route, _) = trie.find("/files/x/other").unwrap();
    assert_eq!(route.body, "files");
}

#[test]
fn trie_remove_prunes_and_lists_in_order() {
    let mut trie = RouteTrie::new();
    trie.insert("/a/b", SimpleRoute::new("ab", "text/plain"));
    trie.insert("/", SimpleRoute::new("root", "text/plain"));
    trie.insert("/a/{x}", SimpleRoute::new("ax", "text/plain"));
    trie.insert("/a/*", SimpleRoute::new("aw", "text/plain"));
    assert_eq!(trie.list_paths(), vec!["/", "/a/b", "/a/{x}", "/a/*"]);
    assert_eq!(trie.node_count(), 5);
    assert_eq!(trie.remove("/a/b").unwrap().body, "ab");
    assert_eq!(trie.node_count(), 4);
    assert!(trie.remove("/a/b").is_some()); // now taken through the parameter branch
    assert_eq!(trie.count(), 2);
    assert!(trie.remove("/nothing/here").is_none());
    assert_eq!(trie.count(), 2);
}

#[test]
fn trie_parameter_pattern_matches_concrete_paths_and_literals_win() {
    let mut trie = RouteTrie::new();
    trie.insert("/users/{id}", SimpleRoute::new("detail", "text/plain"));
    trie.insert("/users/me", SimpleRoute::new("me", "text/plain"));
    let (route, params) = trie.find("/users/7").unwrap();
    assert_eq!(route.body, "detail");
    assert_eq!(params, vec![("id".to_string(), "7".to_string())]);
    assert_eq!(trie.find("/users/me").unwrap().0.body, "me");
    assert!(trie.find("/users").is_none());
}
