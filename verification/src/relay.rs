//! Resolving the upstream endpoint a request must be relayed to.
//!
//! The relay looks up the `Host` header; its absence is fatal and no
//! connection may be attempted.  A value that already names a port is used
//! as it stands; otherwise the default port `80` is appended.

use vstd::prelude::*;

use crate::request::HttpRequest;
use crate::search::find_from;
use crate::search::find_str;

verus! {

/// Why a request could not be relayed.
#[derive(Clone, Copy, PartialEq, Eq, Structural, Debug)]
pub enum RelayError {
    /// The request carries no `Host` header; no upstream may be contacted.
    MissingHost,
    /// Opening the TCP connection to the upstream endpoint failed.
    ConnectFailed,
}

/// The endpoint a `Host` value names: the value itself when it holds a port
/// delimiter, the value with `:80` appended otherwise.
pub open spec fn spec_upstream_endpoint(host: Seq<char>) -> Seq<char> {
    if find_from(host, seq![':'], 0) is Some {
        host
    } else {
        host + ":80"@
    }
}

/// The `host:port` endpoint this request must be relayed to, from its `Host`
/// header; `Err(MissingHost)` exactly when that header is absent, in which
/// case the caller must not contact any upstream.
pub fn resolve_upstream(req: &HttpRequest) -> (r: Result<String, RelayError>)
    requires
        req.wf(),
    ensures
        match r {
            Ok(ep) => req.headers.as_map().contains_key("Host"@) && ep@
                == spec_upstream_endpoint(req.headers.as_map()["Host"@]),
            Err(e) => e == RelayError::MissingHost && !req.headers.as_map().contains_key("Host"@),
        },
{
    let host = match req.has_key("Host") {
        Some(h) => h,
        None => {
            return Err(RelayError::MissingHost);
        },
    };
    proof {
        reveal_strlit(":");
        assert(":"@ =~= seq![':']);
    }
    match find_str(host.as_str(), ":", 0) {
        Some(_) => Ok(host),
        None => Ok(host.concat(":80")),
    }
}

} // verus!
