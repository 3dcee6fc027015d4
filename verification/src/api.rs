//! How the HTTP API answers a request that the node could not serve.
use vstd::prelude::*;

verus! {

/// An error answer of the API: an HTTP status and the message reported under
/// `error`.
pub struct ApiError {
    pub status: u16,
    pub message: String,
}

impl ApiError {
    /// The answer to a request that failed because a node command failed:
    /// 502 Bad Gateway, carrying the command's failure message.
    pub fn bad_gateway(message: String) -> (e: ApiError)
        ensures
            e.status == 502,
            e.message == message,
    {
        ApiError { status: 502, message }
    }
}

} // verus!
