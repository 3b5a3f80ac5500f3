//! Client-facing errors and the envelope they are shown in.
use vstd::prelude::*;
use crate::api::types::{ErrorBody, ErrorResponse};
use crate::db::opt_view;

verus! {

/// An error returned to an API client.
#[derive(Debug)]
pub enum ApiError {
    /// A request parameter is invalid (400).
    BadRequest { message: String, param: Option<String> },
    /// The resource does not exist (404).
    NotFound { message: String },
    /// The server failed (500).
    Internal { message: String },
}

impl ApiError {
    /// The HTTP status and the error envelope for this error.
    pub fn to_error_response(self) -> (r: (u16, ErrorResponse))
        ensures
            match self {
                ApiError::BadRequest { message, param } => {
                    &&& r.0 == 400
                    &&& r.1.error.error_type@ == "invalid_request_error"@
                    &&& opt_view(r.1.error.code) == Some("invalid_parameter"@)
                    &&& r.1.error.message@ == message@
                    &&& opt_view(r.1.error.param) == opt_view(param)
                },
                ApiError::NotFound { message } => {
                    &&& r.0 == 404
                    &&& r.1.error.error_type@ == "invalid_request_error"@
                    &&& opt_view(r.1.error.code) == Some("resource_missing"@)
                    &&& r.1.error.message@ == message@
                    &&& r.1.error.param is None
                },
                ApiError::Internal { message } => {
                    &&& r.0 == 500
                    &&& r.1.error.error_type@ == "api_error"@
                    &&& r.1.error.code is None
                    &&& r.1.error.message@ == message@
                    &&& r.1.error.param is None
                },
            },
    {
        match self {
            ApiError::BadRequest { message, param } => (
                400,
                ErrorResponse {
                    error: ErrorBody {
                        error_type: "invalid_request_error".to_string(),
                        code: Some("invalid_parameter".to_string()),
                        message,
                        param,
                    },
                },
            ),
            ApiError::NotFound { message } => (
                404,
                ErrorResponse {
                    error: ErrorBody {
                        error_type: "invalid_request_error".to_string(),
                        code: Some("resource_missing".to_string()),
                        message,
                        param: None,
                    },
                },
            ),
            ApiError::Internal { message } => (
                500,
                ErrorResponse {
                    error: ErrorBody {
                        error_type: "api_error".to_string(),
                        code: None,
                        message,
                        param: None,
                    },
                },
            ),
        }
    }
}

} // verus!
