use vstd::prelude::*;

verus! {

/// Why a request could not be served. Every kind is answered with the same
/// opaque error response; the text is for the server's log.
#[derive(Debug, Clone, PartialEq, Eq)]
pub enum ProxyError {
    NotFound(String),
    PrinterOffline(String),
    Unsupported(String),
    Io(String),
    BadPayload(String),
    Internal,
}

impl ProxyError {
    pub open spec fn is_bad_payload(&self) -> bool {
        self is BadPayload
    }
}

/// A message for an error: the text of a string literal.
pub fn message(s: &str) -> (r: String)
    ensures
        r@ == s@,
{
    s.to_owned()
}

} // verus!
