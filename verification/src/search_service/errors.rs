//! Failures of the search service and how they are answered.
use vstd::prelude::*;

use crate::text::{decimal, u16_to_decimal};

verus! {

/// Why a search failed.
#[derive(Debug, Clone)]
pub enum AppError {
    Qdrant(String),
    Upstream { status: u16, body: String },
    Parse(String),
    Sparse(String),
    Internal(String),
}

/// The message of an error.
pub open spec fn error_message(e: AppError) -> Seq<char> {
    match e {
        AppError::Qdrant(s) => "qdrant error: "@ + s@,
        AppError::Upstream { status, body } => "upstream http error ("@ + decimal(status as nat)
            + "): "@ + body@,
        AppError::Parse(s) => "response parsing: "@ + s@,
        AppError::Sparse(s) => "sparse embedding failed: "@ + s@,
        AppError::Internal(s) => "internal: "@ + s@,
    }
}

impl AppError {
    /// The message of the error.
    pub fn message(&self) -> (r: String)
        ensures
            r@ == error_message(*self),
    {
        let mut out = String::new();
        match self {
            AppError::Qdrant(s) => {
                out.append("qdrant error: ");
                out.append(s.as_str());
            },
            AppError::Upstream { status, body } => {
                out.append("upstream http error (");
                let digits = u16_to_decimal(*status);
                out.append(digits.as_str());
                out.append("): ");
                out.append(body.as_str());
            },
            AppError::Parse(s) => {
                out.append("response parsing: ");
                out.append(s.as_str());
            },
            AppError::Sparse(s) => {
                out.append("sparse embedding failed: ");
                out.append(s.as_str());
            },
            AppError::Internal(s) => {
                out.append("internal: ");
                out.append(s.as_str());
            },
        }
        out
    }

    /// The HTTP status of the answer to a failed search: always 500.
    pub fn status_code(&self) -> (r: u16)
        ensures
            r == 500,
    {
        500
    }
}

} // verus!
