use rustblog_core::models::{ListRoutesQuery, RouteType};

#[test]
fn test_pagination_params_validation() {
    let limit = 10;
    let page = 1;

    assert!(limit > 0 && limit <= 1000);
    assert!(page > 0);
}

#[test]
fn test_date_params_validation() {
    let year = 2026;
    let month = 2;
    let day = 14;

    assert!(year >= 2000 && year <= 2100);
    assert!(month >= 1 && month <= 12);
    assert!(day >= 1 && day <= 31);
}

#[test]
fn list_routes_query_holds_its_filters() {
    let q = ListRoutesQuery { page: Some(2), limit: Some(20), route_type: Some(RouteType::File), enabled: None };
    assert_eq!(q.route_type, Some(RouteType::File));
    assert_eq!(q.page, Some(2));
}
