//! HTTP client surface for the future AI bridge: no DNS, TLS or sockets
//! yet, so every request is answered with a descriptive offline message.

use vstd::prelude::*;

verus! {

/// Minimal HTTP response container.
pub struct HttpResponse {
    pub status: u16,
    pub body: String,
}

/// Stub HTTP client for future outbound requests.
pub struct HttpClient;

pub open spec fn stub_message(url: Seq<char>) -> Seq<char> {
    "HTTP client stub: network stack not connected to "@ + url
}

impl HttpClient {
    pub fn new() -> (r: Self) {
        HttpClient
    }

    /// A GET request: no network I/O yet, so always 503 Service
    /// Unavailable with a message naming `url`.
    pub fn get(&self, url: &str) -> (r: HttpResponse)
        ensures
            r.status == 503,
            r.body@ == stub_message(url@),
    {
        HttpResponse { status: 503, body: format_stub_message(url) }
    }
}

fn format_stub_message(url: &str) -> (r: String)
    ensures
        r@ == stub_message(url@),
{
    let mut message = String::from_str("HTTP client stub: network stack not connected to ");
    message.append(url);
    message
}

} // verus!
