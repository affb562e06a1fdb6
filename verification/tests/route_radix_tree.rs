use rustblog_core::route_radix_tree::RouteRadixTree;

#[derive(Debug)]
#[allow(dead_code)]
struct SimpleRoute {
    body: String,
    content_type: String,
}

impl SimpleRoute {
    fn new(body: &str, content_type: &str) -> Self {
        SimpleRoute { body: body.to_string(), content_type: content_type.to_string() }
    }
}

#[test]
fn test_radix_insert_and_find() {
    let mut radix = RouteRadixTree::new();
    radix.insert("/users", (SimpleRoute::new("users", "text/plain")));

    let result = radix.find("/users");
    assert!(result.is_some());
}

#[test]
fn route_radix_tree_test_parameterized_route() {
    let mut radix = RouteRadixTree::new();
    radix.insert("/users/{id}", (SimpleRoute::new("user", "text/plain")));

    let (_route, params) = radix.find("/users/123").unwrap();
    assert!(params.iter().any(|(k, v)| k == "id" && v == "123"));

    let (_route, params) = radix.find("/users/abc").unwrap();
    assert!(params.iter().any(|(k, v)| k == "id" && v == "abc"));
}

#[test]
fn route_radix_tree_test_multiple_parameters() {
    let mut radix = RouteRadixTree::new();
    radix.insert(
        "/users/{id}/posts/{post_id}",
        (SimpleRoute::new("post", "text/plain")),
    );

    let (_route, params) = radix.find("/users/123/posts/456").unwrap();
    assert!(params.iter().any(|(k, v)| k == "id" && v == "123"));
    assert!(params.iter().any(|(k, v)| k == "post_id" && v == "456"));
}

#[test]
fn route_radix_tree_test_wildcard_route() {
    let mut radix = RouteRadixTree::new();
    radix.insert("/static/*", (SimpleRoute::new("static", "text/plain")));

    let result = radix.find("/static/css/style.css");
    assert!(result.is_some());

    let result = radix.find("/static/js/app.js");
    assert!(result.is_some());

    let result = radix.find("/static");
    assert!(result.is_none());
}

#[test]
fn route_radix_tree_test_priority_matching() {
    let mut radix = RouteRadixTree::new();
    radix.insert("/users", (SimpleRoute::new("list", "text/plain")));
    radix.insert("/users/{id}", (SimpleRoute::new("detail", "text/plain")));

    // 精确匹配应该优先
    let (_route, params) = radix.find("/users").unwrap();
    assert!(params.is_empty());

    // 参数化匹配
    let (_route, params) = radix.find("/users/123").unwrap();
    assert!(params.iter().any(|(k, v)| k == "id" && v == "123"));
}

#[test]
fn route_radix_tree_test_remove_route() {
    let mut radix = RouteRadixTree::new();
    radix.insert("/users", (SimpleRoute::new("users", "text/plain")));

    assert!(radix.contains("/users"));
    let removed = radix.remove("/users");
    assert!(removed.is_some());
    assert!(!radix.contains("/users"));
}

#[test]
fn route_radix_tree_test_count_routes() {
    let mut radix = RouteRadixTree::new();
    assert_eq!(radix.count(), 0);

    radix.insert("/users", (SimpleRoute::new("users", "text/plain")));
    assert_eq!(radix.count(), 1);

    radix.insert("/users/{id}", (SimpleRoute::new("user", "text/plain")));
    assert_eq!(radix.count(), 2);

    radix.remove("/users");
    assert_eq!(radix.count(), 1);
}

#[test]
fn route_radix_tree_test_list_paths() {
    let mut radix = RouteRadixTree::new();
    radix.insert("/users", (SimpleRoute::new("users", "text/plain")));
    radix.insert("/users/{id}", (SimpleRoute::new("user", "text/plain")));
    radix.insert("/posts", (SimpleRoute::new("posts", "text/plain")));

    let paths = radix.list_paths();
    assert_eq!(paths.len(), 3);
    assert!(paths.contains(&"/users".to_string()));
    assert!(paths.contains(&"/users/{id}".to_string()));
    assert!(paths.contains(&"/posts".to_string()));
}

#[test]
fn route_radix_tree_test_complex_path() {
    let mut radix = RouteRadixTree::new();
    radix.insert(
        "/api/v1/users/{user_id}/posts/{post_id}/comments/{comment_id}",
        (SimpleRoute::new("comment", "text/plain")),
    );

    let (_route, params) = radix
        .find("/api/v1/users/123/posts/456/comments/789")
        .unwrap();
    assert!(params.iter().any(|(k, v)| k == "user_id" && v == "123"));
    assert!(params.iter().any(|(k, v)| k == "post_id" && v == "456"));
    assert!(params.iter().any(|(k, v)| k == "comment_id" && v == "789"));
}

#[test]
fn route_radix_tree_test_root_path() {
    let mut radix = RouteRadixTree::new();
    radix.insert("/", (SimpleRoute::new("root", "text/plain")));

    assert!(radix.find("/").is_some());
    // 空字符串路径分割后也是空segments，同样会匹配根路径
    assert!(radix.find("").is_some());
}

#[test]
fn route_radix_tree_test_clear_routes() {
    let mut radix = RouteRadixTree::new();
    radix.insert("/users", (SimpleRoute::new("users", "text/plain")));
    radix.insert("/posts", (SimpleRoute::new("posts", "text/plain")));

    assert_eq!(radix.count(), 2);
    radix.clear();
    assert_eq!(radix.count(), 0);
}

#[test]
fn test_radix_node_count() {
    let mut radix = RouteRadixTree::new();
    radix.insert("/users", (SimpleRoute::new("users", "text/plain")));
    radix.insert("/users/{id}", (SimpleRoute::new("user", "text/plain")));
    radix.insert("/posts", (SimpleRoute::new("posts", "text/plain")));

    // Radix Tree应该比标准Trie树节点更少
    let node_count = radix.node_count();
    assert!(node_count > 0);
    assert!(node_count <= 4); // 可能更少，因为有前缀压缩
}

#[test]
fn test_radix_compression() {
    let mut radix = RouteRadixTree::new();
    // 插入有共同前缀的路由
    radix.insert("/api/v1/users", (SimpleRoute::new("users", "text/plain")));
    radix.insert("/api/v1/posts", (SimpleRoute::new("posts", "text/plain")));
    radix.insert("/api/v1/comments", (SimpleRoute::new("comments", "text/plain")));

    // Radix Tree应该压缩 /api/v1/ 前缀
    let node_count = radix.node_count();
    // 理想情况下，应该只有根节点 + api节点 + v1节点 + 3个子节点 = 6个节点
    // 而标准Trie树需要根节点 + api + v1 + users + posts + comments = 6个节点
    // 在更复杂的情况下，Radix Tree的优势会更明显
    assert!(node_count > 0);
}

#[test]
fn radix_shares_routes_through_arc() {
    let mut radix = RouteRadixTree::new();
    let shared = std::sync::Arc::new(SimpleRoute::new("users", "text/plain"));
    radix.insert_arc("/users", shared.clone());
    radix.insert_arc("/people", shared.clone());
    let (found, _) = radix.find("/people").unwrap();
    assert!(std::sync::Arc::ptr_eq(found, &shared));
    assert_eq!(radix.count(), 2);
    let removed = radix.remove("/users").unwrap();
    assert!(std::sync::Arc::ptr_eq(&removed, &shared));
    assert_eq!(radix.list_paths(), vec!["/people"]);
}

#[test]
fn radix_listed_paths_can_each_be_removed_and_overwrites_count_once() {
    let mut tree = RouteRadixTree::new();
    tree.insert("/users/{id}", SimpleRoute::new("param", "text/plain"));
    tree.insert("/users/{id}", SimpleRoute::new("param2", "text/plain"));
    tree.insert("/files/*", SimpleRoute::new("wild", "text/plain"));
    tree.insert("/a/b", SimpleRoute::new("static", "text/plain"));
    assert_eq!(tree.count(), 3);
    for path in tree.list_paths() {
        assert!(tree.remove(&path).is_some());
    }
    assert_eq!(tree.count(), 0);
    tree.insert("/x/{y}", SimpleRoute::new("x", "text/plain"));
    assert_eq!(tree.remove("/x/{y}").unwrap().body, "x");
}

#[test]
fn radix_parameter_pattern_matches_concrete_paths_and_literals_win() {
    let mut tree = RouteRadixTree::new();
    tree.insert("/users/{id}", SimpleRoute::new("detail", "text/plain"));
    tree.insert("/users/me", SimpleRoute::new("me", "text/plain"));
    let (route, params) = tree.find("/users/7").unwrap();
    assert_eq!(route.body, "detail");
    assert_eq!(params, vec![("id".to_string(), "7".to_string())]);
    let (route, params) = tree.find("/users/me").unwrap();
    assert_eq!(route.body, "me");
    assert!(params.is_empty());
    assert!(tree.find("/users").is_none());
    assert!(tree.find("/users/7/extra").is_none());
}

#[test]
fn radix_remove_keeps_the_other_routes() {
    let mut tree = RouteRadixTree::new();
    tree.insert("/a", SimpleRoute::new("a", "text/plain"));
    tree.insert("/b", SimpleRoute::new("b", "text/plain"));
    tree.insert("/a/{x}", SimpleRoute::new("ax", "text/plain"));
    assert_eq!(tree.remove("/a").unwrap().body, "a");
    assert!(tree.find("/a").is_none());
    assert_eq!(tree.find("/b").unwrap().0.body, "b");
    assert_eq!(tree.find("/a/1").unwrap().0.body, "ax");
}

#[test]
fn radix_remove_never_makes_a_lookup_succeed() {
    let mut t = RouteRadixTree::new();
    t.insert("/users", SimpleRoute::new("users", "text/plain"));
    t.insert("/users/{id}", SimpleRoute::new("user", "text/plain"));
    t.insert("/files/*", SimpleRoute::new("files", "text/plain"));
    let probes = ["/", "/users", "/users/1", "/users/1/x", "/files", "/files/a/b", "/other"];
    let before: Vec<bool> = probes.iter().map(|p| t.contains(p)).collect();
    assert!(t.remove("/users").is_some());
    for (p, was) in probes.iter().zip(before) {
        if !was {
            assert!(!t.contains(p));
        }
    }
    assert!(!t.contains("/users"));
    assert!(t.contains("/users/1"));
    assert!(t.contains("/files/a/b"));
}

#[test]
fn removing_a_literal_path_nothing_else_reaches_leaves_it_unfound() {
    let mut t = RouteRadixTree::new();
    t.insert("/users", SimpleRoute::new("users", "text/plain"));
    t.insert("/users/{id}", SimpleRoute::new("user", "text/plain"));
    assert_eq!(t.count(), 2);
    assert!(t.remove("/users").is_some());
    assert_eq!(t.count(), 1);
    assert!(!t.contains("/users"));
    assert!(t.find("/users/123").is_some());
}
