//! Guidance for the external time-entry service's HTTP responses.

use vstd::prelude::*;

verus! {

/// The hint shown for an HTTP status code of the external service.
pub open spec fn spec_status_hint(code: u16) -> Seq<char> {
    if code == 400 {
        "invalid project ID or request parameters"@
    } else if code == 401 {
        "check your API key"@
    } else if code == 403 {
        "access forbidden - check workspace/project permissions"@
    } else if code == 404 {
        "project or workspace not found"@
    } else if code == 422 {
        "invalid request - check time range and project ID"@
    } else {
        "unexpected error"@
    }
}

/// Provide a helpful hint for an HTTP status code returned by the external
/// time-entry service.
pub fn status_hint(code: u16) -> (r: &'static str)
    ensures
        r@ == spec_status_hint(code),
{
    match code {
        400 => "invalid project ID or request parameters",
        401 => "check your API key",
        403 => "access forbidden - check workspace/project permissions",
        404 => "project or workspace not found",
        422 => "invalid request - check time range and project ID",
        _ => "unexpected error",
    }
}

} // verus!
