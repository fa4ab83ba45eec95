//! The failures the service reports to a client.

use vstd::prelude::*;
use vstd::string::*;

verus! {

/// A failed request. Each variant carries the message that describes it.
#[derive(Debug, Clone)]
pub enum AppError {
    Database(String),
    WasmExecution(String),
    Validation(String),
    Auth(String),
    NotFound(String),
    BadRequest(String),
    Internal(String),
}

/// The HTTP status code a failure is answered with.
pub open spec fn status_of(e: AppError) -> u16 {
    match e {
        AppError::Database(_) => 500,
        AppError::WasmExecution(_) => 400,
        AppError::Validation(_) => 400,
        AppError::Auth(_) => 401,
        AppError::NotFound(_) => 404,
        AppError::BadRequest(_) => 400,
        AppError::Internal(_) => 500,
    }
}

/// The message a client is shown. Failures of the store and internal
/// failures are reported without their detail.
pub open spec fn shown_text(e: AppError) -> Seq<char> {
    match e {
        AppError::Database(_) => "Database error"@,
        AppError::WasmExecution(m) => m@,
        AppError::Validation(m) => m@,
        AppError::Auth(m) => m@,
        AppError::NotFound(m) => m@,
        AppError::BadRequest(m) => m@,
        AppError::Internal(_) => "Internal server error"@,
    }
}

/// The failure written out in full, detail included.
pub open spec fn full_text(e: AppError) -> Seq<char> {
    match e {
        AppError::Database(m) => "Database error: "@ + m@,
        AppError::WasmExecution(m) => "WASM execution error: "@ + m@,
        AppError::Validation(m) => "Validation error: "@ + m@,
        AppError::Auth(m) => "Authentication error: "@ + m@,
        AppError::NotFound(m) => "Not found: "@ + m@,
        AppError::BadRequest(m) => "Bad request: "@ + m@,
        AppError::Internal(m) => "Internal server error: "@ + m@,
    }
}

impl AppError {
    /// The status code and the client's message for this failure.
    pub fn into_response(self) -> (out: (u16, String))
        ensures
            out.0 == status_of(self),
            out.1@ == shown_text(self),
    {
        match self {
            AppError::Database(_) => (500, String::from_str("Database error")),
            AppError::WasmExecution(m) => (400, m),
            AppError::Validation(m) => (400, m),
            AppError::Auth(m) => (401, m),
            AppError::NotFound(m) => (404, m),
            AppError::BadRequest(m) => (400, m),
            AppError::Internal(_) => (500, String::from_str("Internal server error")),
        }
    }

    /// The failure written out in full.
    pub fn message(&self) -> (out: String)
        ensures
            out@ == full_text(*self),
    {
        let (label, detail) = match self {
            AppError::Database(m) => ("Database error: ", m),
            AppError::WasmExecution(m) => ("WASM execution error: ", m),
            AppError::Validation(m) => ("Validation error: ", m),
            AppError::Auth(m) => ("Authentication error: ", m),
            AppError::NotFound(m) => ("Not found: ", m),
            AppError::BadRequest(m) => ("Bad request: ", m),
            AppError::Internal(m) => ("Internal server error: ", m),
        };
        let mut out = String::from_str(label);
        out.append(detail.as_str());
        out
    }
}

} // verus!
