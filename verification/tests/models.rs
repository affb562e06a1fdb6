use rustblog_core::models::{
    parse_cursor, HandlerType, PassageAccess, PassageStatus, PassageVisibility, RouteAvailability, RouteType, UserAccess,
    UserRole, UserStatus,
};

#[test]
fn enums_parse_their_names_ignoring_case() {
    assert_eq!(PassageStatus::from_str("Published"), Some(PassageStatus::Published));
    assert_eq!(PassageStatus::from_str("DRAFT"), Some(PassageStatus::Draft));
    assert_eq!(PassageStatus::from_str("archived"), Some(PassageStatus::Archived));
    assert_eq!(PassageStatus::from_str("deleted"), Some(PassageStatus::Deleted));
    assert_eq!(PassageStatus::from_str("gone"), None);
    assert_eq!(PassageVisibility::from_str("Protected"), Some(PassageVisibility::Protected));
    assert_eq!(UserRole::from_str("EDITOR"), Some(UserRole::Editor));
    assert_eq!(UserStatus::from_str("disabled"), Some(UserStatus::Disabled));
    assert_eq!(RouteType::from_str("Database"), Some(RouteType::Database));
    assert_eq!(HandlerType::from_str("proxy"), Some(HandlerType::Proxy));
    assert_eq!(HandlerType::from_str(" proxy"), None);
    // The Kelvin sign lowercases to an ASCII `k`.
    assert_eq!(HandlerType::from_str("\u{212A}"), None);
    assert_eq!(UserRole::from_str("\u{212A}"), None);
}

#[test]
fn enums_name_themselves() {
    assert_eq!(PassageStatus::Archived.as_str(), "archived");
    assert_eq!(PassageVisibility::Public.as_str(), "public");
    assert_eq!(UserRole::Subscriber.as_str(), "subscriber");
    assert_eq!(UserStatus::Active.as_str(), "active");
    assert_eq!(RouteType::Memory.as_str(), "memory");
    assert_eq!(HandlerType::Template.as_str(), "template");
    for s in [PassageStatus::Published, PassageStatus::Draft, PassageStatus::Archived, PassageStatus::Deleted] {
        assert_eq!(PassageStatus::from_str(s.as_str()), Some(s));
    }
}

#[test]
fn predicates() {
    assert!(PassageStatus::Published.is_published());
    assert!(!PassageStatus::Draft.is_visible());
    assert!(PassageVisibility::Public.is_public());
    assert!(PassageVisibility::Protected.requires_auth());
    assert!(!PassageVisibility::Public.requires_auth());
    assert!(UserRole::Admin.is_admin());
    assert!(UserRole::Editor.can_edit());
    assert!(!UserRole::Subscriber.can_edit());
    assert!(UserStatus::Active.is_active());
    assert!(!UserStatus::Deleted.is_active());
}

#[test]
fn access_helpers_follow_status_visibility_and_role() {
    let visible = PassageAccess { status: PassageStatus::Published, visibility: PassageVisibility::Public };
    assert!(visible.is_visible());
    assert!(!visible.requires_auth());
    let draft = PassageAccess { status: PassageStatus::Draft, visibility: PassageVisibility::Public };
    assert!(!draft.is_visible());
    assert!(draft.requires_auth());
    let private = PassageAccess { status: PassageStatus::Published, visibility: PassageVisibility::Private };
    assert!(!private.is_visible());
    assert!(private.requires_auth());
    let editor = UserAccess { role: UserRole::Editor, status: UserStatus::Active };
    assert!(editor.is_active());
    assert!(!editor.is_admin());
    assert!(editor.can_edit());
    assert!(RouteAvailability { enabled: true }.is_available());
    assert!(!RouteAvailability { enabled: false }.is_available());
}

#[test]
fn cursor_splits_at_bar_or_last_colon() {
    assert_eq!(parse_cursor("2024-01-02 10:20:30|42"), Some(("2024-01-02 10:20:30".to_string(), "42".to_string())));
    assert_eq!(parse_cursor("2024-01-02 10:20:30:42"), Some(("2024-01-02 10:20:30".to_string(), "42".to_string())));
    assert_eq!(parse_cursor("a|b:c"), Some(("a".to_string(), "b:c".to_string())));
    assert_eq!(parse_cursor("nocursor"), None);
}

#[test]
fn ascii_names_parse_in_any_case() {
    assert_eq!(PassageStatus::from_str("PuBlIsHeD"), Some(PassageStatus::Published));
    assert_eq!(PassageVisibility::from_str("PRIVATE"), Some(PassageVisibility::Private));
    assert_eq!(UserStatus::from_str("Disabled"), Some(UserStatus::Disabled));
    assert_eq!(RouteType::from_str("DATABASE"), Some(RouteType::Database));
}

#[test]
fn status_names_parse_in_uppercase() {
    for st in [PassageStatus::Published, PassageStatus::Draft, PassageStatus::Archived, PassageStatus::Deleted] {
        let upper = st.as_str().to_uppercase();
        assert_eq!(PassageStatus::from_str(&upper), Some(st));
    }
}
