use rustblog_core::route_entry::SerializableRoute;
use rustblog_core::route_registry::RouteRegistry;
use rustblog_core::route_validator::{
    json_check_outcome, MigrationRule, RouteTypeMetadata, RouteTypeRegistry, RouteValidator,
    ValidationError,
};

fn simple_registry() -> RouteRegistry<()> {
    RouteRegistry::with_simple_route(())
}

fn simple(body: &str, content_type: &str, extra: Option<&str>) -> SerializableRoute {
    SerializableRoute {
        route_type: "SimpleRoute".to_string(),
        body: body.to_string(),
        content_type: content_type.to_string(),
        extra_data: extra.map(|s| s.to_string()),
    }
}

#[test]
fn test_validate_path_valid() {
    let validator = RouteValidator::new();
    assert!(validator.validate_path("/test").is_ok());
    assert!(validator.validate_path("/api/v1/users").is_ok());
    assert!(validator.validate_path("/path/with spaces").is_ok());
}

#[test]
fn test_validate_path_invalid() {
    let validator = RouteValidator::new();
    assert!(validator.validate_path("").is_err());
    assert!(validator.validate_path("test").is_err()); // Missing leading /
    assert!(validator.validate_path("/../test").is_err()); // Contains ..
}

#[test]
fn test_route_type_registry() {
    let mut registry = RouteTypeRegistry::new();

    let metadata = RouteTypeMetadata {
        route_type: "TestRoute".to_string(),
        version: "1.0.0".to_string(),
        description: "Test route".to_string(),
        required_fields: vec!["route_type".to_string(), "body".to_string()],
        optional_fields: vec![],
        supported_content_types: vec!["text/plain".to_string()],
        requires_extra_data: false,
    };

    assert!(registry.register_metadata(metadata).is_ok());
    assert!(registry.is_type_registered("TestRoute"));

    let retrieved = registry.get_metadata("TestRoute");
    assert!(retrieved.is_some());
    assert_eq!(retrieved.unwrap().route_type, "TestRoute");
}

#[test]
fn test_route_validation() {
    let validator = RouteValidator::with_defaults();
    let registry = simple_registry();

    let route = SerializableRoute {
        route_type: "SimpleRoute".to_string(),
        body: "test body".to_string(),
        content_type: "text/plain".to_string(),
        extra_data: None,
    };

    assert!(validator.validate_route("/test", &route, &registry).is_ok());
    assert!(validator.validate_route("test", &route, &registry).is_err());

    let invalid_route = SerializableRoute {
        content_type: "invalid/type".to_string(),
        ..route.clone()
    };
    assert!(validator.validate_route("/test", &invalid_route, &registry).is_err());

    let unknown_route = SerializableRoute {
        route_type: "UnknownRoute".to_string(),
        ..route
    };
    assert!(validator.validate_route("/test", &unknown_route, &registry).is_err());
}

#[test]
fn test_route_collection_validation() {
    let validator = RouteValidator::with_defaults();
    let registry = simple_registry();

    let mut routes = Vec::new();
    routes.push((
        "/valid1".to_string(),
        SerializableRoute {
            route_type: "SimpleRoute".to_string(),
            body: "body1".to_string(),
            content_type: "text/plain".to_string(),
            extra_data: None,
        },
    ));
    routes.push((
        "/valid2".to_string(),
        SerializableRoute {
            route_type: "SimpleRoute".to_string(),
            body: "body2".to_string(),
            content_type: "application/json".to_string(),
            extra_data: None,
        },
    ));

    assert!(validator.validate_routes(&routes, &registry).is_ok());

    routes.push((
        "invalid".to_string(),
        SerializableRoute {
            route_type: "SimpleRoute".to_string(),
            body: "body3".to_string(),
            content_type: "text/plain".to_string(),
            extra_data: None,
        },
    ));

    let result = validator.validate_routes(&routes, &registry);
    assert!(result.is_err());
    let errors = result.unwrap_err();
    assert_eq!(errors.len(), 1);
}

#[test]
fn test_extra_data_validation() {
    let validator = RouteValidator::with_defaults();
    let registry = simple_registry();

    let route = SerializableRoute {
        route_type: "SimpleRoute".to_string(),
        body: "body".to_string(),
        content_type: "text/plain".to_string(),
        extra_data: Some(r#"{"key":"value"}"#.to_string()),
    };
    assert!(validator.validate_route("/test", &route, &registry).is_ok());

    let invalid_route = SerializableRoute {
        extra_data: Some("{invalid json}".to_string()),
        ..route
    };
    assert!(validator.validate_route("/test", &invalid_route, &registry).is_err());
}

#[test]
fn test_migration_rules() {
    let mut registry = RouteTypeRegistry::new();

    let rule = MigrationRule {
        from_version: "1.0.0".to_string(),
        to_version: "2.0.0".to_string(),
        description: "Upgrade to version 2.0".to_string(),
        transformation: "transformation_function".to_string(),
    };

    registry.register_migration("TestRoute", rule);

    assert_eq!(registry.get_migrations("TestRoute").len(), 1);
    assert!(registry.get_migrations("UnknownRoute").is_empty());
}

#[test]
fn path_errors_carry_their_reason() {
    let validator = RouteValidator::new();
    let msg = |r: Result<(), ValidationError>| match r {
        Err(ValidationError::InvalidPath(m)) => m,
        other => panic!("unexpected {:?}", other),
    };
    assert_eq!(msg(validator.validate_path("")), "Path cannot be empty");
    assert_eq!(msg(validator.validate_path("a/b")), "Path must start with '/'");
    assert_eq!(msg(validator.validate_path("/a/../b")), "Path cannot contain '..'");
    assert!(validator.validate_path("/a/./b").is_ok());
}

#[test]
fn metadata_needs_a_name_and_required_fields() {
    let mut registry = RouteTypeRegistry::new();
    let mut md = RouteTypeMetadata {
        route_type: String::new(),
        version: "1".to_string(),
        description: String::new(),
        required_fields: vec!["body".to_string()],
        optional_fields: vec![],
        supported_content_types: vec![],
        requires_extra_data: false,
    };
    match registry.register_metadata(md.clone()) {
        Err(ValidationError::MissingField(f)) => assert_eq!(f, "type_name"),
        other => panic!("unexpected {:?}", other),
    }
    md.route_type = "T".to_string();
    md.required_fields.clear();
    match registry.register_metadata(md.clone()) {
        Err(ValidationError::MissingField(f)) => assert_eq!(f, "required_fields"),
        other => panic!("unexpected {:?}", other),
    }
    assert!(!registry.is_type_registered("T"));
    md.required_fields.push("body".to_string());
    md.version = "2".to_string();
    assert!(registry.register_metadata(md).is_ok());
    assert_eq!(registry.get_metadata("T").unwrap().version, "2");
}

#[test]
fn validation_order_and_messages() {
    let mut validator = RouteValidator::with_defaults();
    let registry = simple_registry();
    // Bad path wins over everything else.
    let bad = SerializableRoute { route_type: "Nope".to_string(), ..simple("b", "x/y", None) };
    assert!(matches!(validator.validate_route("x", &bad, &registry), Err(ValidationError::InvalidPath(_))));
    // Unknown to the route registry.
    match validator.validate_route("/x", &bad, &registry) {
        Err(ValidationError::UnknownRouteType(t)) => assert_eq!(t, "Nope"),
        other => panic!("unexpected {:?}", other),
    }
    // Registered as a route type but without metadata.
    let mut reg2 = simple_registry();
    assert!(reg2.register("Other", ()).is_ok());
    let other = SerializableRoute { route_type: "Other".to_string(), ..simple("b", "text/plain", None) };
    assert!(matches!(validator.validate_route("/x", &other, &reg2), Err(ValidationError::UnknownRouteType(_))));
    // Unsupported content type.
    match validator.validate_route("/x", &simple("b", "image/png", None), &registry) {
        Err(ValidationError::InvalidContentType(m)) => assert_eq!(
            m,
            "Content type 'image/png' is not supported. Supported types: [\"text/plain\", \"text/html\", \"application/json\", \"application/xml\"]"
        ),
        other => panic!("unexpected {:?}", other),
    }
    // A type that requires extra data.
    let md = RouteTypeMetadata {
        route_type: "Other".to_string(),
        version: "1".to_string(),
        description: String::new(),
        required_fields: vec!["body".to_string()],
        optional_fields: vec![],
        supported_content_types: vec![],
        requires_extra_data: true,
    };
    assert!(validator.register_type_metadata(md).is_ok());
    match validator.validate_route("/x", &other, &reg2) {
        Err(ValidationError::ExtraDataValidationError(m)) => assert_eq!(m, "This route type requires extra_data"),
        other => panic!("unexpected {:?}", other),
    }
    let other_ok = SerializableRoute { extra_data: Some("[1, 2]".to_string()), ..other };
    assert!(validator.validate_route("/x", &other_ok, &reg2).is_ok());
}

#[test]
fn invalid_json_message_has_the_parser_text() {
    match json_check_outcome(Some("oops".to_string())) {
        Err(ValidationError::ExtraDataValidationError(m)) => assert_eq!(m, "Invalid JSON: oops"),
        other => panic!("unexpected {:?}", other),
    }
    assert!(json_check_outcome(None).is_ok());
    let validator = RouteValidator::with_defaults();
    let registry = simple_registry();
    match validator.validate_route("/t", &simple("b", "text/plain", Some("{invalid json}")), &registry) {
        Err(ValidationError::ExtraDataValidationError(m)) => assert!(m.starts_with("Invalid JSON: key must be a string")),
        other => panic!("unexpected {:?}", other),
    }
}

#[test]
fn error_messages() {
    assert_eq!(ValidationError::UnknownRouteType("X".into()).to_message(), "Unknown route type: X");
    assert_eq!(ValidationError::InvalidPath("p".into()).to_message(), "Invalid route path: p");
    assert_eq!(ValidationError::MissingField("f".into()).to_message(), "Missing required field: f");
    assert_eq!(ValidationError::InvalidContentType("c".into()).to_message(), "Invalid content type: c");
    assert_eq!(ValidationError::ExtraDataValidationError("e".into()).to_message(), "Extra data validation failed: e");
    assert_eq!(
        ValidationError::VersionIncompatible { expected: "1".into(), actual: "2".into() }.to_message(),
        "Route version incompatible: expected 1, got 2"
    );
}

#[test]
fn migrations_are_filtered_by_source_version() {
    let mut validator = RouteValidator::default();
    let rule = |from: &str, to: &str| MigrationRule {
        from_version: from.to_string(),
        to_version: to.to_string(),
        description: String::new(),
        transformation: String::new(),
    };
    let mut registry = RouteTypeRegistry::new();
    registry.register_migration("T", rule("1", "2"));
    registry.register_migration("T", rule("2", "3"));
    registry.register_migration("T", rule("1", "3"));
    assert_eq!(registry.get_migrations("T").len(), 3);
    assert_eq!(registry.get_migrations("T")[1].from_version, "2");
    // The validator's own registry has none.
    assert!(!validator.needs_migration("T", "1"));
    assert!(validator.get_available_migrations("T", "1").is_empty());
    assert!(validator.register_type_metadata(RouteTypeMetadata {
        route_type: "T".to_string(),
        version: "1".to_string(),
        description: String::new(),
        required_fields: vec!["body".to_string()],
        optional_fields: vec![],
        supported_content_types: vec![],
        requires_extra_data: false,
    }).is_ok());
}
