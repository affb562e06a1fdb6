use rustblog_core::papaya_route_table::{PapayaRouteTable, RouteOperation};

#[derive(Debug, Clone, PartialEq)]
struct SimpleRoute {
    body: String,
    content_type: String,
}

impl SimpleRoute {
    fn new(body: impl Into<String>, content_type: &str) -> Self {
        SimpleRoute { body: body.into(), content_type: content_type.to_string() }
    }
}

#[test]
fn test_papaya_route_table_insert_and_get() {
    let mut table = PapayaRouteTable::new();

    let route = SimpleRoute::new("Hello, World!", "text/plain");
    table.insert("/hello".to_string(), route);

    let found = table.get("/hello");
    assert!(found.is_some());
}

#[test]
fn test_papaya_route_table_remove() {
    let mut table = PapayaRouteTable::new();

    let route = SimpleRoute::new("Hello", "text/plain");
    table.insert("/hello".to_string(), route);

    let removed = table.remove("/hello");
    assert!(removed.is_some());

    assert!(!table.contains("/hello"));
}

#[test]
fn test_papaya_route_table_contains() {
    let mut table = PapayaRouteTable::new();

    assert!(!table.contains("/hello"));

    let route = SimpleRoute::new("Hello", "text/plain");
    table.insert("/hello".to_string(), route);

    assert!(table.contains("/hello"));
}

#[test]
fn test_papaya_route_table_len() {
    let mut table = PapayaRouteTable::new();

    assert_eq!(table.len(), 0);

    table.insert("/hello".to_string(), SimpleRoute::new("Hello", "text/plain"));
    assert_eq!(table.len(), 1);

    table.insert("/goodbye".to_string(), SimpleRoute::new("Hello", "text/plain"));
    assert_eq!(table.len(), 2);
}

#[test]
fn test_papaya_route_table_is_empty() {
    let mut table = PapayaRouteTable::new();

    assert!(table.is_empty());

    table.insert("/hello".to_string(), SimpleRoute::new("Hello", "text/plain"));

    assert!(!table.is_empty());
}

#[test]
fn test_papaya_route_table_clear() {
    let mut table = PapayaRouteTable::new();

    table.insert("/hello".to_string(), SimpleRoute::new("Hello", "text/plain"));
    table.insert("/goodbye".to_string(), SimpleRoute::new("Goodbye", "text/plain"));

    assert_eq!(table.len(), 2);

    table.clear();

    assert!(table.is_empty());
}

#[test]
fn test_papaya_route_table_insert_batch() {
    let mut table = PapayaRouteTable::new();
    let routes = vec![
        ("/hello".to_string(), SimpleRoute::new("Hello", "text/plain")),
        ("/goodbye".to_string(), SimpleRoute::new("Goodbye", "text/plain")),
    ];

    table.insert_batch(routes);

    assert_eq!(table.len(), 2);
    assert!(table.contains("/hello"));
    assert!(table.contains("/goodbye"));
}

#[test]
fn test_papaya_route_table_get_all_paths() {
    let mut table = PapayaRouteTable::new();

    table.insert("/hello".to_string(), SimpleRoute::new("Hello", "text/plain"));
    table.insert("/goodbye".to_string(), SimpleRoute::new("Goodbye", "text/plain"));

    let paths = table.get_all_paths();
    assert_eq!(paths.len(), 2);
    assert!(paths.contains(&"/hello".to_string()));
    assert!(paths.contains(&"/goodbye".to_string()));
}

#[test]
fn papaya_table_replaces_and_hands_back_routes() {
    let mut table = PapayaRouteTable::default();
    table.insert("/a".to_string(), SimpleRoute::new("one", "text/plain"));
    table.insert("/a".to_string(), SimpleRoute::new("two", "text/plain"));
    assert_eq!(table.len(), 1);
    assert_eq!(table.get("/a"), Some(SimpleRoute::new("two", "text/plain")));
    table.insert("/b".to_string(), SimpleRoute::new("b", "text/plain"));
    assert_eq!(table.remove("/a"), Some(SimpleRoute::new("two", "text/plain")));
    assert_eq!(table.remove("/a"), None);
    assert_eq!(table.get("/b"), Some(SimpleRoute::new("b", "text/plain")));
    table.insert("/a".to_string(), SimpleRoute::new("three", "text/plain"));
    assert_eq!(table.get("/a"), Some(SimpleRoute::new("three", "text/plain")));
    assert_eq!(table.len(), 2);
}

#[test]
fn update_or_insert_applies_the_updaters_decision() {
    let mut table = PapayaRouteTable::new();
    table.update_or_insert("/hello".to_string(), |cur: Option<&SimpleRoute>| {
        assert!(cur.is_none());
        RouteOperation::Insert(SimpleRoute::new("one", "text/plain"))
    });
    assert!(table.contains("/hello"));
    table.update_or_insert("/hello".to_string(), |cur: Option<&SimpleRoute>| match cur {
        Some(r) if r.body == "one" => RouteOperation::Insert(SimpleRoute::new("two", "text/plain")),
        _ => RouteOperation::Abort,
    });
    assert_eq!(table.get("/hello"), Some(SimpleRoute::new("two", "text/plain")));
    table.update_or_insert("/hello".to_string(), |_: Option<&SimpleRoute>| RouteOperation::Remove);
    assert!(!table.contains("/hello"));
    table.update_or_insert("/x".to_string(), |_: Option<&SimpleRoute>| RouteOperation::Abort);
    assert!(table.is_empty());
}
