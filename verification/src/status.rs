//! Numeric HTTP status codes, as the `http` crate defines them.
use vstd::prelude::*;

verus! {

/// Calls `http::StatusCode::as_u16` on `http::StatusCode::BAD_REQUEST`, which is "400 Bad Request".
#[verifier::external_body]
pub(crate) fn bad_request() -> (code: u16)
    ensures
        code == 400,
{
    http::StatusCode::BAD_REQUEST.as_u16()
}

/// Calls `http::StatusCode::as_u16` on `http::StatusCode::NOT_FOUND`, which is "404 Not Found".
#[verifier::external_body]
pub(crate) fn not_found() -> (code: u16)
    ensures
        code == 404,
{
    http::StatusCode::NOT_FOUND.as_u16()
}

/// Calls `http::StatusCode::as_u16` on `http::StatusCode::METHOD_NOT_ALLOWED`, which is
/// "405 Method Not Allowed".
#[verifier::external_body]
pub(crate) fn method_not_allowed() -> (code: u16)
    ensures
        code == 405,
{
    http::StatusCode::METHOD_NOT_ALLOWED.as_u16()
}

/// Calls `http::StatusCode::as_u16` on `http::StatusCode::INTERNAL_SERVER_ERROR`, which is
/// "500 Internal Server Error".
#[verifier::external_body]
pub(crate) fn internal_server_error() -> (code: u16)
    ensures
        code == 500,
{
    http::StatusCode::INTERNAL_SERVER_ERROR.as_u16()
}

} // verus!
