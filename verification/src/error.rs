//! The error every refused request is answered with.
//!
//! The frontend reads a `{"detail": ...}` body to show "Not a folder: X"
//! rather than a bare status code, so an error is exactly that pair: an HTTP
//! status and the sentence to show.
use vstd::prelude::*;

verus! {

/// A status line can carry any three-digit code; anything else is refused.
pub open spec fn valid_status(code: u16) -> bool {
    100 <= code <= 999
}

#[derive(Debug, Clone)]
pub struct AppError {
    pub status: u16,
    pub detail: String,
}

/// `prefix` followed by `subject`.
pub fn message(prefix: &str, subject: &str) -> (r: String)
    ensures
        r@ == prefix@ + subject@,
{
    let mut out = String::from_str(prefix);
    out.append(subject);
    out
}

impl AppError {
    /// An error with the given status; a code that is not three digits
    /// becomes 500, as an unusable status line would.
    pub fn new(status: u16, detail: String) -> (e: AppError)
        ensures
            e.status == (if valid_status(status) {
                status
            } else {
                500
            }),
            e.detail@ == detail@,
    {
        let status = if 100 <= status && status <= 999 {
            status
        } else {
            500
        };
        AppError { status, detail }
    }

    pub fn bad_request(detail: String) -> (e: AppError)
        ensures
            e.status == 400,
            e.detail@ == detail@,
    {
        AppError::new(400, detail)
    }

    pub fn forbidden(detail: String) -> (e: AppError)
        ensures
            e.status == 403,
            e.detail@ == detail@,
    {
        AppError::new(403, detail)
    }

    pub fn not_found(detail: String) -> (e: AppError)
        ensures
            e.status == 404,
            e.detail@ == detail@,
    {
        AppError::new(404, detail)
    }

    pub fn conflict(detail: String) -> (e: AppError)
        ensures
            e.status == 409,
            e.detail@ == detail@,
    {
        AppError::new(409, detail)
    }

    pub fn unsupported_media(detail: String) -> (e: AppError)
        ensures
            e.status == 415,
            e.detail@ == detail@,
    {
        AppError::new(415, detail)
    }

    pub fn internal(detail: String) -> (e: AppError)
        ensures
            e.status == 500,
            e.detail@ == detail@,
    {
        AppError::new(500, detail)
    }
}

} // verus!
