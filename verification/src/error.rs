//! The application's error type: a kind, a message, the HTTP status it answers with, and a
//! short type name for clients.
use vstd::prelude::*;

verus! {

/// An application error.
#[derive(Debug)]
pub enum AppError {
    Database(String),
    Jwt(String),
    Auth(String),
    Validation(String),
    NotFound(String),
    Forbidden(String),
    Io(String),
    Json(String),
    Internal(String),
    Cache(String),
}

/// A result whose error is an `AppError`.
pub type Result<T> = std::result::Result<T, AppError>;

/// The message of an error: its kind's label, `: `, and its detail.
pub open spec fn app_error_message(e: AppError) -> Seq<char> {
    match e {
        AppError::Database(m) => "数据库错误: "@ + m@,
        AppError::Jwt(m) => "JWT 错误: "@ + m@,
        AppError::Auth(m) => "认证错误: "@ + m@,
        AppError::Validation(m) => "验证错误: "@ + m@,
        AppError::NotFound(m) => "未找到: "@ + m@,
        AppError::Forbidden(m) => "权限不足: "@ + m@,
        AppError::Io(m) => "IO 错误: "@ + m@,
        AppError::Json(m) => "JSON 错误: "@ + m@,
        AppError::Internal(m) => "内部错误: "@ + m@,
        AppError::Cache(m) => "缓存错误: "@ + m@,
    }
}

/// The HTTP status an error answers with.
pub open spec fn app_error_status(e: AppError) -> u16 {
    match e {
        AppError::Database(_) | AppError::Internal(_) | AppError::Cache(_) | AppError::Io(_) => 500,
        AppError::Jwt(_) | AppError::Auth(_) => 401,
        AppError::Validation(_) | AppError::Json(_) => 400,
        AppError::NotFound(_) => 404,
        AppError::Forbidden(_) => 403,
    }
}

/// The type name of an error, as clients see it.
pub open spec fn app_error_type(e: AppError) -> Seq<char> {
    match e {
        AppError::Database(_) => "database_error"@,
        AppError::Jwt(_) => "jwt_error"@,
        AppError::Auth(_) => "auth_error"@,
        AppError::Validation(_) => "validation_error"@,
        AppError::NotFound(_) => "not_found"@,
        AppError::Forbidden(_) => "forbidden"@,
        AppError::Io(_) => "io_error"@,
        AppError::Json(_) => "json_error"@,
        AppError::Internal(_) => "internal_error"@,
        AppError::Cache(_) => "cache_error"@,
    }
}

/// The text of an I/O error (`Display`). For an OS error it holds the system's message,
/// so nothing is stated of it.
#[verifier::external_body]
fn io_error_text(err: &std::io::Error) -> String {
    err.to_string()
}

/// The text of a `serde_json` error (`Display`); not stated.
#[verifier::external_body]
fn json_error_text(err: &serde_json::Error) -> String {
    err.to_string()
}

impl AppError {
    /// The error's message: its kind's label and its detail.
    pub fn to_message(&self) -> (r: String)
        ensures
            r@ == app_error_message(*self),
    {
        let (label, detail) = match self {
            AppError::Database(m) => ("数据库错误: ", m),
            AppError::Jwt(m) => ("JWT 错误: ", m),
            AppError::Auth(m) => ("认证错误: ", m),
            AppError::Validation(m) => ("验证错误: ", m),
            AppError::NotFound(m) => ("未找到: ", m),
            AppError::Forbidden(m) => ("权限不足: ", m),
            AppError::Io(m) => ("IO 错误: ", m),
            AppError::Json(m) => ("JSON 错误: ", m),
            AppError::Internal(m) => ("内部错误: ", m),
            AppError::Cache(m) => ("缓存错误: ", m),
        };
        String::from_str(label).concat(detail.as_str())
    }

    /// The error's type name.
    pub fn error_type(&self) -> (r: &'static str)
        ensures
            r@ == app_error_type(*self),
    {
        match self {
            AppError::Database(_) => "database_error",
            AppError::Jwt(_) => "jwt_error",
            AppError::Auth(_) => "auth_error",
            AppError::Validation(_) => "validation_error",
            AppError::NotFound(_) => "not_found",
            AppError::Forbidden(_) => "forbidden",
            AppError::Io(_) => "io_error",
            AppError::Json(_) => "json_error",
            AppError::Internal(_) => "internal_error",
            AppError::Cache(_) => "cache_error",
        }
    }

    /// The HTTP status the error answers with.
    pub fn status_code(&self) -> (r: u16)
        ensures
            r == app_error_status(*self),
    {
        match self {
            AppError::Database(_) | AppError::Internal(_) | AppError::Cache(_) => 500,
            AppError::Jwt(_) | AppError::Auth(_) => 401,
            AppError::Validation(_) => 400,
            AppError::NotFound(_) => 404,
            AppError::Forbidden(_) => 403,
            AppError::Io(_) => 500,
            AppError::Json(_) => 400,
        }
    }

    /// An I/O error, carrying its text.
    pub fn from_io_error(err: std::io::Error) -> (r: AppError)
        ensures
            r is Io,
    {
        AppError::Io(io_error_text(&err))
    }

    /// A JSON error, carrying its text.
    pub fn from_json_error(err: serde_json::Error) -> (r: AppError)
        ensures
            r is Json,
    {
        AppError::Json(json_error_text(&err))
    }
}

/// `serde_json::Error`, declared for use in signatures.
#[verifier::external_type_specification]
#[verifier::external_body]
pub struct ExJsonError(serde_json::Error);

/// `std::io::Error`, declared for use in signatures.
#[verifier::external_type_specification]
#[verifier::external_body]
pub struct ExIoError(std::io::Error);

} // verus!
