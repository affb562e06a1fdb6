use rustblog_core::error::{AppError, Result};

#[test]
fn test_error_display() {
    let db_error = AppError::Database("Connection failed".to_string());
    assert_eq!(db_error.to_message(), "数据库错误: Connection failed");

    let jwt_error = AppError::Jwt("Invalid token".to_string());
    assert_eq!(jwt_error.to_message(), "JWT 错误: Invalid token");

    let auth_error = AppError::Auth("Unauthorized".to_string());
    assert_eq!(auth_error.to_message(), "认证错误: Unauthorized");

    let validation_error = AppError::Validation("Invalid input".to_string());
    assert_eq!(validation_error.to_message(), "验证错误: Invalid input");

    let not_found_error = AppError::NotFound("Resource not found".to_string());
    assert_eq!(not_found_error.to_message(), "未找到: Resource not found");

    let forbidden_error = AppError::Forbidden("Access denied".to_string());
    assert_eq!(forbidden_error.to_message(), "权限不足: Access denied");

    let io_error = AppError::Io("File not found".to_string());
    assert_eq!(io_error.to_message(), "IO 错误: File not found");

    let json_error = AppError::Json("Invalid JSON".to_string());
    assert_eq!(json_error.to_message(), "JSON 错误: Invalid JSON");

    let internal_error = AppError::Internal("Something went wrong".to_string());
    assert_eq!(internal_error.to_message(), "内部错误: Something went wrong");

    let cache_error = AppError::Cache("Cache miss".to_string());
    assert_eq!(cache_error.to_message(), "缓存错误: Cache miss");
}

#[test]
fn test_error_type() {
    assert_eq!(AppError::Database("".to_string()).error_type(), "database_error");
    assert_eq!(AppError::Jwt("".to_string()).error_type(), "jwt_error");
    assert_eq!(AppError::Auth("".to_string()).error_type(), "auth_error");
    assert_eq!(AppError::Validation("".to_string()).error_type(), "validation_error");
    assert_eq!(AppError::NotFound("".to_string()).error_type(), "not_found");
    assert_eq!(AppError::Forbidden("".to_string()).error_type(), "forbidden");
    assert_eq!(AppError::Io("".to_string()).error_type(), "io_error");
    assert_eq!(AppError::Json("".to_string()).error_type(), "json_error");
    assert_eq!(AppError::Internal("".to_string()).error_type(), "internal_error");
    assert_eq!(AppError::Cache("".to_string()).error_type(), "cache_error");
}

#[test]
fn test_status_code() {
    assert_eq!(AppError::Database("".to_string()).status_code(), 500);
    assert_eq!(AppError::Internal("".to_string()).status_code(), 500);
    assert_eq!(AppError::Cache("".to_string()).status_code(), 500);
    assert_eq!(AppError::Jwt("".to_string()).status_code(), 401);
    assert_eq!(AppError::Auth("".to_string()).status_code(), 401);
    assert_eq!(AppError::Validation("".to_string()).status_code(), 400);
    assert_eq!(AppError::NotFound("".to_string()).status_code(), 404);
    assert_eq!(AppError::Forbidden("".to_string()).status_code(), 403);
    assert_eq!(AppError::Io("".to_string()).status_code(), 500);
    assert_eq!(AppError::Json("".to_string()).status_code(), 400);
}

#[test]
fn test_from_r2d2_error() {
    let io_err = std::io::Error::new(std::io::ErrorKind::ConnectionRefused, "Connection refused");
    let app_error = AppError::Database(io_err.to_string());

    assert!(matches!(app_error, AppError::Database(_)));
    assert!(app_error.to_message().contains("数据库错误"));
}

#[test]
fn test_from_serde_json_error() {
    let json_err = serde_json::from_str::<serde_json::Value>("invalid json").unwrap_err();
    let app_error = AppError::from_json_error(json_err);

    assert!(matches!(app_error, AppError::Json(_)));
    assert!(app_error.to_message().contains("JSON 错误"));
}

#[test]
fn test_from_io_error() {
    let io_err = std::io::Error::new(std::io::ErrorKind::NotFound, "File not found");
    let app_error = AppError::from_io_error(io_err);

    assert!(matches!(app_error, AppError::Io(_)));
    assert!(app_error.to_message().contains("IO 错误"));
    assert_eq!(app_error.to_message(), "IO 错误: File not found");
}

#[test]
fn test_error_debug() {
    let error = AppError::Internal("Test error".to_string());
    let debug_str = format!("{:?}", error);
    assert!(debug_str.contains("Internal"));
    assert!(debug_str.contains("Test error"));
}

#[test]
fn test_error_send_sync() {
    fn assert_send<T: Send>() {}
    fn assert_sync<T: Sync>() {}

    assert_send::<AppError>();
    assert_sync::<AppError>();
}

#[test]
fn test_result_type() {
    let ok_result: Result<i32> = Ok(42);
    assert!(ok_result.is_ok());
    assert_eq!(ok_result.unwrap(), 42);

    let err_result: Result<i32> = Err(AppError::Validation("Test error".to_string()));
    assert!(err_result.is_err());
}
