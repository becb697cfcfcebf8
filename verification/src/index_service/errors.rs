//! Failures of the indexing service and how they are answered.
use vstd::prelude::*;

verus! {

/// Why a request to the indexing service failed.
#[derive(Debug, Clone)]
pub enum AppError {
    SparseEmbedding(String),
    Internal(String),
}

/// The message of an error.
pub open spec fn error_message(e: AppError) -> Seq<char> {
    match e {
        AppError::SparseEmbedding(s) => "sparse embedding failed: "@ + s@,
        AppError::Internal(s) => "internal error: "@ + s@,
    }
}

impl AppError {
    /// The message of the error.
    pub fn message(&self) -> (r: String)
        ensures
            r@ == error_message(*self),
    {
        let mut out = String::new();
        match self {
            AppError::SparseEmbedding(s) => {
                out.append("sparse embedding failed: ");
                out.append(s.as_str());
            },
            AppError::Internal(s) => {
                out.append("internal error: ");
                out.append(s.as_str());
            },
        }
        out
    }

    /// The HTTP status of the answer to a failed request: always 500.
    pub fn status_code(&self) -> (r: u16)
        ensures
            r == 500,
    {
        500
    }
}

} // verus!
