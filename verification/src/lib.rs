//! A verified core for a transparent HTTP/1.x forward proxy.
//!
//! The library covers the pure pipeline stages of the proxy: delimiting one
//! HTTP header block in a raw byte stream, parsing the header block into a
//! structured request, rewriting the request for forwarding, resolving the
//! upstream endpoint from the `Host` header, and serializing the request back
//! to wire form.  Socket handling lives outside the library and exchanges
//! plain values (byte vectors and strings) with it.

pub mod frame;
pub mod laws;
pub mod options;
pub mod parse;
pub mod relay;
pub mod request;
pub mod search;
pub mod transform;
