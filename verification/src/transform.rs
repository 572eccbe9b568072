//! Rewriting a parsed request before it is forwarded upstream.
//!
//! The proxy removes the hop-by-hop `Proxy-Connection` header and the
//! `Accept-Encoding` header, sets `Cache-Control` and `Connection` defaults
//! without overwriting values the client supplied, and normalizes an
//! absolute-form target (`http://host/path`) to origin-form (`/path`).

use vstd::prelude::*;

use crate::request::HttpRequest;
use crate::search::find_from;
use crate::search::find_str;
use crate::search::lemma_find_from_some;
use crate::search::str_eq;

verus! {

/// Insert a default value: keep the map as it is when the key is present.
pub open spec fn spec_insert_default(
    m: Map<Seq<char>, Seq<char>>,
    k: Seq<char>,
    v: Seq<char>,
) -> Map<Seq<char>, Seq<char>> {
    if m.contains_key(k) {
        m
    } else {
        m.insert(k, v)
    }
}

/// The header rewriting the proxy applies: drop `Proxy-Connection` and
/// `Accept-Encoding`, then default `Cache-Control` to `max-age=0` and
/// `Connection` to `keep-alive`.
pub open spec fn spec_camouflage_headers(m: Map<Seq<char>, Seq<char>>) -> Map<
    Seq<char>,
    Seq<char>,
> {
    spec_insert_default(
        spec_insert_default(
            m.remove("Proxy-Connection"@).remove("Accept-Encoding"@),
            "Cache-Control"@,
            "max-age=0"@,
        ),
        "Connection"@,
        "keep-alive"@,
    )
}

/// The target rewriting the proxy applies: an absolute-form target with the
/// literal prefix `http://` becomes everything from the first `/` after the
/// host portion, or `/` when no such slash exists; any other target is left
/// unmodified.
pub open spec fn spec_rewrite_uri(uri: Seq<char>) -> Seq<char> {
    if uri.len() >= 7 && uri.subrange(0, 7) == "http://"@ {
        let rest = uri.subrange(7, uri.len() as int);
        match find_from(rest, seq!['/'], 0) {
            Some(p) => rest.subrange(p, rest.len() as int),
            None => seq!['/'],
        }
    } else {
        uri
    }
}

/// Rewrite a request in place for forwarding: camouflage its headers and
/// normalize its target.  Method, version and body are never touched.
pub fn camouflage_client(req: &mut HttpRequest)
    requires
        old(req).wf(),
    ensures
        final(req).wf(),
        final(req).method == old(req).method,
        final(req).version == old(req).version,
        final(req).body == old(req).body,
        final(req).uri@ == spec_rewrite_uri(old(req).uri@),
        final(req).headers.as_map() == spec_camouflage_headers(old(req).headers.as_map()),
{
    proof {
        reveal_strlit("Cache-Control");
        reveal_strlit("Connection");
    }
    req.remove_header("Proxy-Connection");
    req.remove_header("Accept-Encoding");
    req.insert_header("Cache-Control".to_owned(), "max-age=0".to_owned());
    req.insert_header("Connection".to_owned(), "keep-alive".to_owned());
    let n = req.uri.as_str().unicode_len();
    if n >= 7 {
        let prefix = req.uri.as_str().substring_char(0, 7);
        if str_eq(prefix, "http://") {
            proof {
                reveal_strlit("/");
                assert("/"@ =~= seq!['/']);
            }
            let rest = req.uri.as_str().substring_char(7, n).to_owned();
            match find_str(rest.as_str(), "/", 0) {
                Some(p) => {
                    proof {
                        lemma_find_from_some(rest@, seq!['/'], 0, p as int);
                    }
                    let rn = rest.as_str().unicode_len();
                    req.uri = rest.as_str().substring_char(p, rn).to_owned();
                },
                None => {
                    req.uri = "/".to_owned();
                },
            }
        }
    }
}

} // verus!
