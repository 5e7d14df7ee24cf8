//! Plain data types of the HTTP proxy the UI drives: the request options it
//! hands over and the response shape it gets back. The proxy's network
//! traffic stays outside the library.

use vstd::prelude::*;

use std::collections::HashMap;

verus! {

/// The request methods the proxy accepts.
#[derive(Debug, Clone, Copy, PartialEq, Eq, Structural)]
pub enum HttpMethod {
    GET,
    POST,
    PUT,
    DELETE,
    HEAD,
}

/// How a proxied request is to be made.
#[derive(Debug)]
pub struct ProxyOptions {
    pub method: HttpMethod,
    pub body: Option<String>,
    pub headers: Option<HashMap<String, String>>,
    pub timeout: Option<u64>,
}

/// What a proxied request answered.
#[derive(Debug)]
pub struct HTTPResponse {
    pub status: u16,
    pub status_text: String,
    pub headers: HashMap<String, String>,
    pub body: String,
}

/// The method a request is made with when the options name none.
pub fn default_method() -> (m: HttpMethod)
    ensures
        m == HttpMethod::GET,
{
    HttpMethod::GET
}

} // verus!
