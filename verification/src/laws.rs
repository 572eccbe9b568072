//! Laws relating the parser, the serializer and the transformer.
//!
//! Each public proof function here states a guarantee of the library over
//! the spec-level functions that the executable functions' contracts use.

use vstd::prelude::*;

use crate::parse::ParseError;
use crate::parse::spec_first_token;
use crate::parse::spec_parse_head;
use crate::parse::spec_parse_header_line;
use crate::parse::spec_parse_header_lines;
use crate::parse::spec_parse_request_line;
use crate::parse::spec_split_lines;
use crate::request::HttpMethod;
use crate::request::HttpRequest;
use crate::request::HttpVersion;
use crate::request::colon_space;
use crate::request::crlf;
use crate::request::map_of;
use crate::request::method_token;
use crate::request::spec_method_of;
use crate::request::spec_request_line;
use crate::request::spec_serialize_entries;
use crate::request::spec_serialize_head;
use crate::request::spec_version_of;
use crate::request::version_token;
use crate::search::contains_seq;
use crate::search::find_from;
use crate::search::lemma_find_from_first;
use crate::search::lemma_find_from_none_of;
use crate::search::occurs_at;
use crate::transform::spec_camouflage_headers;

verus! {

/// A request-target that survives the wire format: no space (a space would
/// end the token early) and no line separator.
pub open spec fn uri_ok(u: Seq<char>) -> bool {
    &&& forall|i: int| 0 <= i < u.len() ==> u[i] != ' '
    &&& !contains_seq(u, crlf())
}

/// A header name that survives the wire format: nonempty, no line separator,
/// no `": "` inside it.
pub open spec fn header_name_ok(n: Seq<char>) -> bool {
    &&& n.len() > 0
    &&& !contains_seq(n, crlf())
    &&& !contains_seq(n, colon_space())
}

/// A header value that survives the wire format: no line separator.
pub open spec fn header_value_ok(v: Seq<char>) -> bool {
    !contains_seq(v, crlf())
}

/// Every entry of a header list survives the wire format.
pub open spec fn entries_ok(es: Seq<(Seq<char>, Seq<char>)>) -> bool {
    forall|i: int|
        0 <= i < es.len() ==> header_name_ok(#[trigger] es[i].0) && header_value_ok(es[i].1)
}

/// The serialized line of one header entry.
pub open spec fn entry_line(e: (Seq<char>, Seq<char>)) -> Seq<char> {
    e.0 + colon_space() + e.1
}

/// The serialized lines of a header list.
pub open spec fn entry_lines(es: Seq<(Seq<char>, Seq<char>)>) -> Seq<Seq<char>> {
    es.map_values(|e: (Seq<char>, Seq<char>)| entry_line(e))
}

/// Insert the entries into a map, first to last.
pub open spec fn fold_insert(
    m: Map<Seq<char>, Seq<char>>,
    es: Seq<(Seq<char>, Seq<char>)>,
) -> Map<Seq<char>, Seq<char>>
    decreases es.len(),
{
    if es.len() == 0 {
        m
    } else {
        fold_insert(m.insert(es[0].0, es[0].1), es.skip(1))
    }
}

/// An occurrence pins down the characters it covers.
proof fn lemma_occurs_chars(s: Seq<char>, pat: Seq<char>, j: int)
    requires
        occurs_at(s, pat, j),
    ensures
        forall|k: int| 0 <= k < pat.len() ==> s[j + k] == pat[k],
{
    assert forall|k: int| 0 <= k < pat.len() implies s[j + k] == pat[k] by {
        assert(s.subrange(j, j + pat.len() as int)[k] == s[j + k]);
    }
}

/// An occurrence of a one-character pattern is that character.
proof fn lemma_occurs_single(s: Seq<char>, c: char, j: int)
    requires
        occurs_at(s, seq![c], j),
    ensures
        0 <= j < s.len(),
        s[j] == c,
{
    assert(s.subrange(j, j + 1)[0] == s[j]);
}

/// A sequence shorter than the pattern holds no occurrence.
proof fn lemma_not_contains_short(s: Seq<char>, pat: Seq<char>)
    requires
        s.len() < pat.len(),
    ensures
        !contains_seq(s, pat),
{
    assert forall|j: int| !occurs_at(s, pat, j) by {
        assert(j + pat.len() > s.len() || j < 0);
    }
}

/// Where a two-character pattern can sit in a concatenation: wholly in the
/// left part, wholly in the right part, or straddling the boundary.
proof fn lemma_occurs_concat2(a: Seq<char>, b: Seq<char>, pat: Seq<char>, j: int)
    requires
        pat.len() == 2,
        occurs_at(a + b, pat, j),
    ensures
        (j + 2 <= a.len() && occurs_at(a, pat, j)) || (a.len() <= j && occurs_at(
            b,
            pat,
            j - a.len(),
        )) || (j == a.len() - 1 && b.len() >= 1 && a.last() == pat[0] && b[0] == pat[1]),
{
    lemma_occurs_chars(a + b, pat, j);
    if j + 2 <= a.len() {
        assert(a.subrange(j, j + 2) =~= pat);
    } else if a.len() <= j {
        assert(b.subrange(j - a.len(), j - a.len() + 2) =~= pat);
    } else {
        assert((a + b)[j] == a.last());
        assert((a + b)[j + 1] == b[0]);
    }
}

/// A two-character pattern absent from both parts, and not formed at their
/// boundary, is absent from the concatenation.
proof fn lemma_no_pat_in_concat(a: Seq<char>, b: Seq<char>, pat: Seq<char>)
    requires
        pat.len() == 2,
        !contains_seq(a, pat),
        !contains_seq(b, pat),
        a.len() == 0 || b.len() == 0 || !(a.last() == pat[0] && b[0] == pat[1]),
    ensures
        !contains_seq(a + b, pat),
{
    assert forall|j: int| !occurs_at(a + b, pat, j) by {
        if occurs_at(a + b, pat, j) {
            lemma_occurs_concat2(a, b, pat, j);
        }
    }
}

/// The method tokens are nonempty, space-free, line-separator-free, and each
/// names its own method.
proof fn lemma_method_token_ok(m: HttpMethod)
    ensures
        method_token(m).len() > 0,
        forall|i: int| 0 <= i < method_token(m).len() ==> method_token(m)[i] != ' ',
        !contains_seq(method_token(m), crlf()),
        spec_method_of(method_token(m)) == Some(m),
{
    reveal_strlit("GET");
    reveal_strlit("POST");
    reveal_strlit("HEAD");
    reveal_strlit("OPTIONS");
    reveal_strlit("PUT");
    reveal_strlit("DELETE");
    reveal_strlit("TRACE");
    reveal_strlit("PATCH");
    assert("GET"@.len() == 3 && "GET"@[0] == 'G');
    assert("POST"@.len() == 4 && "POST"@[0] == 'P');
    assert("HEAD"@.len() == 4 && "HEAD"@[0] == 'H');
    assert("OPTIONS"@.len() == 7);
    assert("PUT"@.len() == 3 && "PUT"@[0] == 'P');
    assert("DELETE"@.len() == 6);
    assert("TRACE"@.len() == 5 && "TRACE"@[0] == 'T');
    assert("PATCH"@.len() == 5 && "PATCH"@[0] == 'P');
    let t = method_token(m);
    assert forall|j: int| !occurs_at(t, crlf(), j) by {
        if occurs_at(t, crlf(), j) {
            lemma_occurs_chars(t, crlf(), j);
        }
    }
}

/// The version tokens of the two explicit versions are nonempty, space-free,
/// line-separator-free, and each names its own version.
proof fn lemma_version_token_ok(v: HttpVersion)
    requires
        v != HttpVersion::Http09,
    ensures
        version_token(v).len() > 0,
        forall|i: int| 0 <= i < version_token(v).len() ==> version_token(v)[i] != ' ',
        !contains_seq(version_token(v), crlf()),
        spec_version_of(version_token(v)) == Some(v),
{
    reveal_strlit("HTTP/1.0");
    reveal_strlit("HTTP/1.1");
    assert("HTTP/1.0"@.len() == 8 && "HTTP/1.0"@[7] == '0');
    assert("HTTP/1.1"@.len() == 8 && "HTTP/1.1"@[7] == '1');
    let t = version_token(v);
    assert forall|j: int| !occurs_at(t, crlf(), j) by {
        if occurs_at(t, crlf(), j) {
            lemma_occurs_chars(t, crlf(), j);
        }
    }
}

/// A text free of line separators is one single line.
proof fn lemma_split_lines_single(a: Seq<char>)
    requires
        !contains_seq(a, crlf()),
    ensures
        spec_split_lines(a) == seq![a],
{
    lemma_find_from_none_of(a, crlf(), 0);
}

/// Splitting pulls the first separator-free line off the front.
proof fn lemma_split_lines_concat(a: Seq<char>, b: Seq<char>)
    requires
        !contains_seq(a, crlf()),
    ensures
        spec_split_lines(a + crlf() + b) == seq![a] + spec_split_lines(b),
{
    let s = a + crlf() + b;
    assert(s.subrange(a.len() as int, a.len() as int + 2) =~= crlf());
    assert(occurs_at(s, crlf(), a.len() as int));
    assert forall|j: int| 0 <= j < a.len() implies !occurs_at(s, crlf(), j) by {
        if occurs_at(s, crlf(), j) {
            lemma_occurs_chars(s, crlf(), j);
            if j + 2 <= a.len() {
                assert(a.subrange(j, j + 2) =~= crlf());
                assert(occurs_at(a, crlf(), j));
            } else {
                assert(s[j + 1] == crlf()[0]);
            }
        }
    }
    lemma_find_from_first(s, crlf(), 0, a.len() as int);
    assert(s.subrange(0, a.len() as int) =~= a);
    assert(s.subrange(a.len() as int + 2, s.len() as int) =~= b);
}

/// A well-formed entry's line is nonempty and free of line separators.
proof fn lemma_entry_line_clean(e: (Seq<char>, Seq<char>))
    requires
        header_name_ok(e.0),
        header_value_ok(e.1),
    ensures
        entry_line(e).len() > 0,
        !contains_seq(entry_line(e), crlf()),
{
    assert forall|j: int| !occurs_at(colon_space(), crlf(), j) by {
        if occurs_at(colon_space(), crlf(), j) {
            lemma_occurs_chars(colon_space(), crlf(), j);
            assert(colon_space()[j] == '\r');
        }
    }
    lemma_no_pat_in_concat(e.0, colon_space(), crlf());
    lemma_no_pat_in_concat(e.0 + colon_space(), e.1, crlf());
    assert(entry_line(e) =~= (e.0 + colon_space()) + e.1);
}

/// The serialized head splits into the request line followed by one line per
/// header entry.
proof fn lemma_split_serialized(first: Seq<char>, es: Seq<(Seq<char>, Seq<char>)>)
    requires
        !contains_seq(first, crlf()),
        entries_ok(es),
    ensures
        spec_split_lines(first + spec_serialize_entries(es)) == seq![first] + entry_lines(es),
    decreases es.len(),
{
    if es.len() == 0 {
        assert(first + spec_serialize_entries(es) =~= first);
        lemma_split_lines_single(first);
        assert(entry_lines(es) =~= Seq::<Seq<char>>::empty());
        assert(seq![first] + entry_lines(es) =~= seq![first]);
    } else {
        let e = es[0];
        let tail = spec_serialize_entries(es.skip(1));
        assert(first + spec_serialize_entries(es) =~= first + crlf() + (entry_line(e) + tail));
        lemma_split_lines_concat(first, entry_line(e) + tail);
        lemma_entry_line_clean(e);
        assert(entries_ok(es.skip(1))) by {
            assert forall|i: int|
                0 <= i < es.skip(1).len() implies header_name_ok(#[trigger] es.skip(1)[i].0)
                && header_value_ok(es.skip(1)[i].1) by {
                assert(es.skip(1)[i] == es[i + 1]);
            }
        }
        lemma_split_serialized(entry_line(e), es.skip(1));
        assert(seq![first] + (seq![entry_line(e)] + entry_lines(es.skip(1))) =~= seq![first]
            + entry_lines(es));
    }
}

/// Parsing the serialized line of a well-formed entry gives the entry back.
proof fn lemma_parse_entry_line(e: (Seq<char>, Seq<char>))
    requires
        header_name_ok(e.0),
        header_value_ok(e.1),
    ensures
        spec_parse_header_line(entry_line(e)) == Some(e),
{
    let s = entry_line(e);
    let nlen = e.0.len() as int;
    assert(s.subrange(nlen, nlen + 2) =~= colon_space());
    assert(occurs_at(s, colon_space(), nlen));
    assert forall|j: int| 0 <= j < nlen implies !occurs_at(s, colon_space(), j) by {
        if occurs_at(s, colon_space(), j) {
            lemma_occurs_chars(s, colon_space(), j);
            if j + 1 < nlen {
                assert(e.0.subrange(j, j + 2) =~= colon_space());
                assert(occurs_at(e.0, colon_space(), j));
            } else {
                assert(s[j + 1] == colon_space()[0]);
            }
        }
    }
    lemma_find_from_first(s, colon_space(), 0, nlen);
    assert(s.subrange(0, nlen) =~= e.0);
    assert(s.subrange(nlen + 2, s.len() as int) =~= e.1);
}

/// Folding an entry list into a map is the same front to back as back to
/// front.
proof fn lemma_fold_insert_push(
    m: Map<Seq<char>, Seq<char>>,
    es: Seq<(Seq<char>, Seq<char>)>,
    e: (Seq<char>, Seq<char>),
)
    ensures
        fold_insert(m, es.push(e)) == fold_insert(m, es).insert(e.0, e.1),
    decreases es.len(),
{
    if es.len() == 0 {
        assert(es.push(e)[0] == e);
        assert(es.push(e).skip(1) =~= Seq::<(Seq<char>, Seq<char>)>::empty());
        assert(fold_insert(m, es.push(e)) == fold_insert(
            m.insert(e.0, e.1),
            Seq::<(Seq<char>, Seq<char>)>::empty(),
        ));
        assert(fold_insert(m.insert(e.0, e.1), Seq::<(Seq<char>, Seq<char>)>::empty())
            == m.insert(e.0, e.1));
        assert(fold_insert(m, es) == m);
    } else {
        assert(es.push(e)[0] == es[0]);
        assert(es.push(e).skip(1) =~= es.skip(1).push(e));
        assert(fold_insert(m, es.push(e)) == fold_insert(
            m.insert(es[0].0, es[0].1),
            es.skip(1).push(e),
        ));
        lemma_fold_insert_push(m.insert(es[0].0, es[0].1), es.skip(1), e);
        assert(fold_insert(m, es) == fold_insert(m.insert(es[0].0, es[0].1), es.skip(1)));
    }
}

/// Folding from the empty map denotes the same mapping as the entry list.
proof fn lemma_fold_insert_map_of(es: Seq<(Seq<char>, Seq<char>)>)
    ensures
        fold_insert(Map::empty(), es) == map_of(es),
    decreases es.len(),
{
    if es.len() == 0 {
    } else {
        lemma_fold_insert_map_of(es.drop_last());
        assert(es.drop_last().push(es.last()) =~= es);
        lemma_fold_insert_push(Map::empty(), es.drop_last(), es.last());
    }
}

/// Parsing the serialized lines of well-formed entries folds them all in.
proof fn lemma_parse_entry_lines(m: Map<Seq<char>, Seq<char>>, es: Seq<(Seq<char>, Seq<char>)>)
    requires
        entries_ok(es),
    ensures
        spec_parse_header_lines(entry_lines(es), m) == Ok::<_, ParseError>(fold_insert(m, es)),
    decreases es.len(),
{
    if es.len() == 0 {
        assert(entry_lines(es).len() == 0);
    } else {
        let e = es[0];
        let ls = entry_lines(es);
        assert(ls[0] == entry_line(e));
        lemma_entry_line_clean(e);
        lemma_parse_entry_line(e);
        assert(entries_ok(es.skip(1))) by {
            assert forall|i: int|
                0 <= i < es.skip(1).len() implies header_name_ok(#[trigger] es.skip(1)[i].0)
                && header_value_ok(es.skip(1)[i].1) by {
                assert(es.skip(1)[i] == es[i + 1]);
            }
        }
        lemma_parse_entry_lines(m.insert(e.0, e.1), es.skip(1));
        assert(ls.skip(1) =~= entry_lines(es.skip(1)));
    }
}

/// Parsing the serialized request line of a versioned request gives its
/// method, target and version back.
proof fn lemma_parse_serialized_request_line(m: HttpMethod, u: Seq<char>, v: HttpVersion)
    requires
        uri_ok(u),
        v != HttpVersion::Http09,
    ensures
        spec_parse_request_line(spec_request_line(m, u, v)) == Ok::<_, ParseError>((m, u, v)),
{
    let mt = method_token(m);
    let vt = version_token(v);
    let line = spec_request_line(m, u, v);
    lemma_method_token_ok(m);
    lemma_version_token_ok(v);
    let mlen = mt.len() as int;
    assert(line.subrange(mlen, mlen + 1) =~= seq![' ']);
    assert(occurs_at(line, seq![' '], mlen));
    assert forall|j: int| 0 <= j < mlen implies !occurs_at(line, seq![' '], j) by {
        if occurs_at(line, seq![' '], j) {
            lemma_occurs_single(line, ' ', j);
            assert(line[j] == mt[j]);
            assert(method_token(m)[j] != ' ');
        }
    }
    lemma_find_from_first(line, seq![' '], 0, mlen);
    assert(line.subrange(0, mlen) =~= mt);
    let rest = line.subrange(mlen + 1, line.len() as int);
    assert(rest =~= u + seq![' '] + vt);
    let ulen = u.len() as int;
    assert(rest.subrange(ulen, ulen + 1) =~= seq![' ']);
    assert(occurs_at(rest, seq![' '], ulen));
    assert forall|j: int| 0 <= j < ulen implies !occurs_at(rest, seq![' '], j) by {
        if occurs_at(rest, seq![' '], j) {
            lemma_occurs_single(rest, ' ', j);
            assert(rest[j] == u[j]);
            assert(u[j] != ' ');
        }
    }
    lemma_find_from_first(rest, seq![' '], 0, ulen);
    assert(rest.subrange(0, ulen) =~= u);
    assert(rest.subrange(ulen + 1, rest.len() as int) =~= vt);
}

/// A request line of two tokens — a valid method token, one space, and a
/// target with no further space — parses successfully, and the version it
/// denotes is `Http09`.
pub proof fn lemma_two_token_version(line: Seq<char>)
    requires
        spec_method_of(spec_first_token(line)) is Some,
        find_from(line, seq![' '], 0) is Some,
        ({
            let i = find_from(line, seq![' '], 0)->Some_0;
            find_from(line.subrange(i + 1, line.len() as int), seq![' '], 0) is None
        }),
    ensures
        spec_parse_request_line(line) is Ok,
        spec_parse_request_line(line)->Ok_0.2 == HttpVersion::Http09,
{
}

/// A request line of three tokens whose version token is recognized parses
/// successfully, and the version is exactly the one the token names.
pub proof fn lemma_three_token_version(line: Seq<char>)
    requires
        spec_method_of(spec_first_token(line)) is Some,
        find_from(line, seq![' '], 0) is Some,
        ({
            let i = find_from(line, seq![' '], 0)->Some_0;
            let rest = line.subrange(i + 1, line.len() as int);
            find_from(rest, seq![' '], 0) is Some && spec_version_of(
                rest.subrange(find_from(rest, seq![' '], 0)->Some_0 + 1, rest.len() as int),
            ) is Some
        }),
    ensures
        spec_parse_request_line(line) is Ok,
        ({
            let i = find_from(line, seq![' '], 0)->Some_0;
            let rest = line.subrange(i + 1, line.len() as int);
            let vtok = rest.subrange(find_from(rest, seq![' '], 0)->Some_0 + 1, rest.len() as int);
            spec_parse_request_line(line)->Ok_0.2 == spec_version_of(vtok)->Some_0
        }),
{
}

/// A header block whose first token names no method is rejected with the
/// invalid-method error, whatever else the block holds: no request comes out.
pub proof fn lemma_invalid_method_rejected(head: Seq<char>)
    requires
        spec_method_of(spec_first_token(spec_split_lines(head)[0])) is None,
    ensures
        spec_parse_head(head) == Err::<
            (HttpMethod, Seq<char>, HttpVersion, Map<Seq<char>, Seq<char>>),
            ParseError,
        >(ParseError::InvalidMethod),
{
}

/// Round trip: serializing a request whose target and header entries survive
/// the wire format, and whose version is explicit, then parsing the result,
/// reproduces the method, the target, the version and the name-to-value
/// mapping of the headers.
///
/// An `Http09` request is excluded: its version token serializes to nothing,
/// which leaves a trailing space on the request line, and the line then
/// re-parses as one with an empty, unrecognized version token.
pub proof fn lemma_parse_serialize_round_trip(r: HttpRequest)
    requires
        uri_ok(r.uri@),
        r.version != HttpVersion::Http09,
        entries_ok(r.headers.entries_view()),
    ensures
        spec_parse_head(spec_serialize_head(r)) is Ok,
        ({
            let parsed = spec_parse_head(spec_serialize_head(r))->Ok_0;
            &&& parsed.0 == r.method
            &&& parsed.1 == r.uri@
            &&& parsed.2 == r.version
            &&& parsed.3 == r.headers.as_map()
        }),
{
    let es = r.headers.entries_view();
    let line = spec_request_line(r.method, r.uri@, r.version);
    let head = spec_serialize_head(r);
    lemma_method_token_ok(r.method);
    lemma_version_token_ok(r.version);
    let mt = method_token(r.method);
    let vt = version_token(r.version);
    let sp = seq![' '];
    lemma_not_contains_short(sp, crlf());
    lemma_no_pat_in_concat(mt, sp, crlf());
    lemma_no_pat_in_concat(mt + sp, r.uri@, crlf());
    lemma_no_pat_in_concat(mt + sp + r.uri@, sp, crlf());
    lemma_no_pat_in_concat(mt + sp + r.uri@ + sp, vt, crlf());
    assert(!contains_seq(line, crlf()));
    lemma_split_serialized(line, es);
    let lines = spec_split_lines(head);
    assert(lines[0] == line);
    assert(lines.skip(1) =~= entry_lines(es));
    lemma_parse_serialized_request_line(r.method, r.uri@, r.version);
    lemma_parse_entry_lines(Map::empty(), es);
    lemma_fold_insert_map_of(es);
}

/// The header rewriting never leaves a `Proxy-Connection` or an
/// `Accept-Encoding` entry behind, whatever the headers held before.
pub proof fn lemma_camouflage_strips_hop_headers(m: Map<Seq<char>, Seq<char>>)
    ensures
        !spec_camouflage_headers(m).contains_key("Proxy-Connection"@),
        !spec_camouflage_headers(m).contains_key("Accept-Encoding"@),
{
    reveal_strlit("Proxy-Connection");
    reveal_strlit("Accept-Encoding");
    reveal_strlit("Cache-Control");
    reveal_strlit("Connection");
    assert("Proxy-Connection"@.len() == 16);
    assert("Accept-Encoding"@.len() == 15);
    assert("Cache-Control"@.len() == 13);
    assert("Connection"@.len() == 10);
}

/// The header rewriting never removes or changes a `Host` entry, so a
/// request the relay could resolve before the rewriting it can still resolve
/// after it, to the same endpoint.
pub proof fn lemma_camouflage_keeps_host(m: Map<Seq<char>, Seq<char>>)
    requires
        m.contains_key("Host"@),
    ensures
        spec_camouflage_headers(m).contains_key("Host"@),
        spec_camouflage_headers(m)["Host"@] == m["Host"@],
{
    reveal_strlit("Host");
    reveal_strlit("Proxy-Connection");
    reveal_strlit("Accept-Encoding");
    reveal_strlit("Cache-Control");
    reveal_strlit("Connection");
    assert("Host"@.len() == 4);
    assert("Proxy-Connection"@.len() == 16);
    assert("Accept-Encoding"@.len() == 15);
    assert("Cache-Control"@.len() == 13);
    assert("Connection"@.len() == 10);
}

} // verus!

