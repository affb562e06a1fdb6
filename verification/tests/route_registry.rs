use rustblog_core::route_entry::SerializableRoute;
use rustblog_core::route_registry::{RouteRegistry, RouteRegistryError};

fn test_factory(data: SerializableRoute) -> String {
    format!("{}|{}", data.body, data.content_type)
}

fn simple_factory(data: SerializableRoute) -> String {
    data.body
}

fn initial() -> RouteRegistry<fn(SerializableRoute) -> String> {
    RouteRegistry::with_simple_route(simple_factory as fn(SerializableRoute) -> String)
}

#[test]
fn test_registry_initialization() {
    let registry = initial();
    assert!(registry.is_registered("SimpleRoute"));
}

#[test]
fn test_register_route_type() {
    let mut registry = initial();
    let test_type = "TestRoute_1";
    assert!(!registry.is_registered(test_type));

    let result = registry.register(test_type, test_factory);
    assert!(result.is_ok());
    assert!(registry.is_registered(test_type));

    registry.unregister(test_type);
}

#[test]
fn test_register_duplicate_type() {
    let mut registry = initial();
    let test_type = "DuplicateRoute_1";

    let result1 = registry.register(test_type, test_factory);
    assert!(result1.is_ok());

    let result2 = registry.register(test_type, test_factory);
    assert!(matches!(result2, Err(RouteRegistryError::AlreadyRegistered(_))));

    registry.unregister(test_type);
}

#[test]
fn test_get_factory() {
    let mut registry = initial();
    let test_type = "GetTestRoute_1";
    registry.register(test_type, test_factory).unwrap();

    let factory = registry.get_factory(test_type);
    assert!(factory.is_some());

    let factory = registry.get_factory("NonExistentRoute");
    assert!(factory.is_none());

    registry.unregister(test_type);
}

#[test]
fn test_create_route() {
    let mut registry = initial();
    let test_type = "CreateTestRoute_1";
    registry.register(test_type, test_factory).unwrap();

    let data = SerializableRoute {
        route_type: test_type.to_string(),
        body: "Test Body".to_string(),
        content_type: "text/plain".to_string(),
        extra_data: None,
    };

    let route = registry.create_route(data);
    assert!(route.is_ok());
    assert_eq!(route.unwrap(), "Test Body|text/plain");

    registry.unregister(test_type);
}

#[test]
fn test_create_route_unregistered_type() {
    let registry = initial();
    let data = SerializableRoute {
        route_type: "NonExistentRoute".to_string(),
        body: "Test Body".to_string(),
        content_type: "text/plain".to_string(),
        extra_data: None,
    };

    let route = registry.create_route(data);
    assert!(matches!(route, Err(RouteRegistryError::NotFound(_))));
}

#[test]
fn test_list_types() {
    let mut registry = initial();
    let route1 = "Route1_1".to_string();
    let route2 = "Route2_1".to_string();
    let route3 = "Route3_1".to_string();

    registry.register(&route1, test_factory).unwrap();
    registry.register(&route2, test_factory).unwrap();
    registry.register(&route3, test_factory).unwrap();

    let types = registry.list_types();
    assert!(types.contains(&route1));
    assert!(types.contains(&route2));
    assert!(types.contains(&route3));
    assert_eq!(types, vec!["SimpleRoute", "Route1_1", "Route2_1", "Route3_1"]);

    registry.unregister(&route1);
    registry.unregister(&route2);
    registry.unregister(&route3);
    assert_eq!(registry.list_types(), vec!["SimpleRoute"]);
}

#[test]
fn test_clear_registry() {
    let mut registry = initial();
    let test_type = "ClearTestRoute_1";
    registry.register(test_type, test_factory).unwrap();
    assert!(registry.is_registered(test_type));

    registry.clear();
    assert!(!registry.is_registered(test_type));
    assert!(!registry.is_registered("SimpleRoute"));

    registry.register("SimpleRoute", simple_factory).unwrap();
    assert!(registry.is_registered("SimpleRoute"));
}

#[test]
fn unregister_reports_presence_and_messages() {
    let mut registry = RouteRegistry::<u8>::new();
    assert!(!registry.unregister("A"));
    registry.register("A", 1).unwrap();
    assert_eq!(registry.get_factory("A"), Some(1));
    assert!(registry.unregister("A"));
    assert!(!registry.is_registered("A"));
    assert_eq!(RouteRegistryError::AlreadyRegistered("A".into()).to_message(), "Route type 'A' is already registered");
    assert_eq!(RouteRegistryError::NotFound("A".into()).to_message(), "Route type 'A' not found in registry");
    assert_eq!(RouteRegistryError::DeserializationError("bad".into()).to_message(), "Failed to deserialize route: bad");
}
