//! The error a proxied request ends with.

use vstd::prelude::*;

verus! {

/// A failed request, with a message saying why.
#[derive(Debug)]
pub struct ProxyError {
    pub message: String,
}

impl ProxyError {
    pub fn new(message: &str) -> (r: ProxyError)
        ensures
            r.message@ == message@,
    {
        ProxyError { message: message.to_owned() }
    }

    /// The message for display, after a `Proxy error: ` lead.
    pub fn to_string(&self) -> (r: String)
        ensures
            r@ == "Proxy error: "@ + self.message@,
    {
        let mut r = "Proxy error: ".to_owned();
        r.append(self.message.as_str());
        r
    }

    /// A short description of the kind of error.
    pub fn description(&self) -> (r: &'static str)
        ensures
            r@ == "proxy error"@,
    {
        "proxy error"
    }
}

} // verus!
