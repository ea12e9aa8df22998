//! Shared HTTP-bytes vocabulary: the errors a bytes fetch can surface
//! and the decision between them once a response has arrived. The
//! transport itself lives with the application.
use vstd::prelude::*;

verus! {

/// Errors a bytes fetch can surface.
#[derive(Debug)]
pub enum NetError {
    /// Network-layer failure — DNS, TCP, TLS, browser CORS, etc.
    Transport(String),
    /// HTTP response received but status was not 2xx.
    HttpStatus { status: u16, url: String },
}

/// `User-Agent` header value used by every native fetch.
pub const USER_AGENT: &'static str = "aegis/0.1.0 (https://github.com/timthirion/aeGIS)";

/// The outcome of a fetch of `url` whose response arrived with the
/// given `ok` flag (status in 200..=299) and `status`: the body when
/// `ok`, otherwise an `HttpStatus` error naming the status and the URL.
pub fn response_outcome(url: &str, ok: bool, status: u16, body: Vec<u8>) -> (r: Result<
    Vec<u8>,
    NetError,
>)
    ensures
        ok ==> (r matches Ok(b) && b@ == body@),
        !ok ==> (r matches Err(NetError::HttpStatus { status: s, url: u }) && s == status && u@
            == url@),
{
    if !ok {
        return Err(NetError::HttpStatus { status, url: url.to_owned() });
    }
    Ok(body)
}

} // verus!
