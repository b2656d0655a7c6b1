//! Errors of the router and the HTTP status each one is answered with.

use vstd::prelude::*;

verus! {

/// Everything that can go wrong while routing a request.
#[derive(Debug)]
pub enum RouterError {
    Config(String),
    /// A transport failure, carried as its message.
    Network(String),
    /// A local I/O failure, carried as its message.
    Io(String),
    HttpError { status: u16, body: String },
    RateLimit,
    ContextLengthExceeded,
    AllProvidersFailed,
    ProviderNotFound(String),
    NotFound(String),
}

/// Codes that an HTTP status can carry (`StatusCode::from_u16` accepts exactly these).
pub open spec fn is_status_code(code: u16) -> bool {
    100 <= code < 1000
}

impl RouterError {
    /// The status the error is answered with.
    pub open spec fn status_of(&self) -> u16 {
        match self {
            RouterError::Config(_) => 500,
            RouterError::Network(_) => 502,
            RouterError::Io(_) => 500,
            RouterError::HttpError { status, .. } => if is_status_code(*status) {
                *status
            } else {
                500
            },
            RouterError::RateLimit => 429,
            RouterError::ContextLengthExceeded => 400,
            RouterError::AllProvidersFailed => 502,
            RouterError::ProviderNotFound(_) => 404,
            RouterError::NotFound(_) => 404,
        }
    }

    /// The HTTP status of the response that reports this error.
    pub fn status_code(&self) -> (code: u16)
        ensures
            code == self.status_of(),
            is_status_code(code),
    {
        match self {
            RouterError::Config(_) => 500,
            RouterError::Network(_) => 502,
            RouterError::Io(_) => 500,
            RouterError::HttpError { status, .. } => {
                if 100 <= *status && *status < 1000 {
                    *status
                } else {
                    500
                }
            },
            RouterError::RateLimit => 429,
            RouterError::ContextLengthExceeded => 400,
            RouterError::AllProvidersFailed => 502,
            RouterError::ProviderNotFound(_) => 404,
            RouterError::NotFound(_) => 404,
        }
    }
}

} // verus!
