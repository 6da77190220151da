//! What the catalogue's server exchanges with its clients.

use vstd::prelude::*;

verus! {

/// The query parameters of a proxied request.
pub struct ProxyParams {
    pub url: String,
    pub referrer: Option<String>,
    pub cookies: Option<Vec<(String, String)>>,
}

/// A request to another server failed.
#[derive(Debug)]
pub struct ReqwestError {
    pub error: String,
}

/// The client sent something that cannot be used.
#[derive(Debug)]
pub struct BadRequest {
    pub error: String,
}

/// The server failed on its own side.
#[derive(Debug)]
pub struct InternalServerError {
    pub error: String,
}

impl InternalServerError {
    /// The failure with the given message.
    pub fn new(s: String) -> (r: InternalServerError)
        ensures
            r.error == s,
    {
        InternalServerError { error: s }
    }
}

/// Whether a request made a record or changed one.
#[derive(Clone, Copy, Debug, PartialEq, Eq, Structural)]
pub enum CreateStatus {
    Created,
    Updated,
}

/// The answer to a request that stored one record.
#[derive(Debug)]
pub struct CreateResponse {
    pub key: String,
}

/// The answer to a request that stored several records.
#[derive(Debug)]
pub struct MultiCreateResponse {
    pub keys: Vec<String>,
}

} // verus!
