//! Whether an upstream HTTP answer is a success, and the error when it is not.
use vstd::prelude::*;

use crate::search_service::errors::AppError;

verus! {

/// Whether `status` is a success status: from 200 to 299 (as
/// `reqwest::StatusCode::is_success`).
pub fn status_is_success(status: u16) -> (r: bool)
    ensures
        r == (200 <= status && status <= 299),
{
    200 <= status && status <= 299
}

/// The error for an upstream answer with status `status` and body `body`:
/// none for a success status, otherwise `Upstream { status, body }`. A request
/// that got no answer at all is reported with status 0 and the failure's text.
pub fn upstream_failure(status: u16, body: String) -> (r: Option<AppError>)
    ensures
        if 200 <= status <= 299 {
            r is None
        } else {
            r matches Some(AppError::Upstream { status: s, body: b }) && s == status && b == body
        },
{
    if status_is_success(status) {
        None
    } else {
        Some(AppError::Upstream { status, body })
    }
}

} // verus!
