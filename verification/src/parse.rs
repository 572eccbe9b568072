//! Parsing a raw header block into a structured request.
//!
//! The header block is split into lines on `CRLF`; the first line is the
//! request line, split on its first two spaces into method, target and
//! version tokens; every later nonempty line is a header field, split on the
//! first `": "` into name and value.  The body bytes are taken verbatim.

use vstd::prelude::*;

use crate::request::HeaderMap;
use crate::request::HttpMethod;
use crate::request::HttpRequest;
use crate::request::HttpVersion;
use crate::request::colon_space;
use crate::request::crlf;
use crate::request::spec_method_of;
use crate::request::spec_version_of;
use crate::search::find_from;
use crate::search::find_str;
use crate::search::lemma_find_from_some;

verus! {

/// Why a header block was rejected.
#[derive(Clone, Copy, PartialEq, Eq, Structural, Debug)]
pub enum ParseError {
    /// The request line's method token is outside the closed method set.
    InvalidMethod,
    /// The request line carries a version token that is neither `HTTP/1.0`
    /// nor `HTTP/1.1`.
    UnknownVersion,
    /// The request line holds a method token alone, with no target.
    MalformedRequestLine,
    /// A header line has no `": "` separator, or an empty name.
    MalformedHeader,
}

/// The lines of a header block: the text split on each `CRLF`.
pub open spec fn spec_split_lines(s: Seq<char>) -> Seq<Seq<char>>
    decreases s.len(),
    via spec_split_lines_decreases
{
    match find_from(s, crlf(), 0) {
        None => seq![s],
        Some(i) => seq![s.subrange(0, i)] + spec_split_lines(s.subrange(i + 2, s.len() as int)),
    }
}

#[via_fn]
proof fn spec_split_lines_decreases(s: Seq<char>) {
    match find_from(s, crlf(), 0) {
        None => {},
        Some(i) => {
            lemma_find_from_some(s, crlf(), 0, i);
        },
    }
}

/// The token before the first space of a line, or the whole line when it
/// holds no space.
pub open spec fn spec_first_token(line: Seq<char>) -> Seq<char> {
    match find_from(line, seq![' '], 0) {
        None => line,
        Some(i) => line.subrange(0, i),
    }
}

/// Parse a request line: method, target and optional version token,
/// separated by the line's first two spaces.  A line of two tokens carries
/// no version token and denotes `Http09`.
pub open spec fn spec_parse_request_line(line: Seq<char>) -> Result<
    (HttpMethod, Seq<char>, HttpVersion),
    ParseError,
> {
    match spec_method_of(spec_first_token(line)) {
        None => Err(ParseError::InvalidMethod),
        Some(m) => match find_from(line, seq![' '], 0) {
            None => Err(ParseError::MalformedRequestLine),
            Some(i) => {
                let rest = line.subrange(i + 1, line.len() as int);
                match find_from(rest, seq![' '], 0) {
                    None => Ok((m, rest, HttpVersion::Http09)),
                    Some(j) => {
                        let uri = rest.subrange(0, j);
                        let vtok = rest.subrange(j + 1, rest.len() as int);
                        match spec_version_of(vtok) {
                            None => Err(ParseError::UnknownVersion),
                            Some(v) => Ok((m, uri, v)),
                        }
                    },
                }
            },
        },
    }
}

/// Parse one header line: the name before the first `": "`, the value after
/// it.  `None` when the separator is missing or the name would be empty.
pub open spec fn spec_parse_header_line(line: Seq<char>) -> Option<(Seq<char>, Seq<char>)> {
    match find_from(line, colon_space(), 0) {
        None => None,
        Some(i) => if i == 0 {
            None
        } else {
            Some((line.subrange(0, i), line.subrange(i + 2, line.len() as int)))
        },
    }
}

/// Fold the header lines into a name-to-value map, skipping empty lines;
/// a later entry for a name overwrites an earlier one.
pub open spec fn spec_parse_header_lines(
    lines: Seq<Seq<char>>,
    m: Map<Seq<char>, Seq<char>>,
) -> Result<Map<Seq<char>, Seq<char>>, ParseError>
    decreases lines.len(),
{
    if lines.len() == 0 {
        Ok(m)
    } else if lines[0].len() == 0 {
        spec_parse_header_lines(lines.skip(1), m)
    } else {
        match spec_parse_header_line(lines[0]) {
            None => Err(ParseError::MalformedHeader),
            Some(kv) => spec_parse_header_lines(lines.skip(1), m.insert(kv.0, kv.1)),
        }
    }
}

/// Parse a whole header block: its first line as the request line, every
/// later nonempty line as a header field.
pub open spec fn spec_parse_head(head: Seq<char>) -> Result<
    (HttpMethod, Seq<char>, HttpVersion, Map<Seq<char>, Seq<char>>),
    ParseError,
> {
    let lines = spec_split_lines(head);
    match spec_parse_request_line(lines[0]) {
        Err(e) => Err(e),
        Ok(rl) => match spec_parse_header_lines(lines.skip(1), Map::empty()) {
            Err(e) => Err(e),
            Ok(hm) => Ok((rl.0, rl.1, rl.2, hm)),
        },
    }
}

/// The text split on each `CRLF`, as owned lines.
fn split_lines(s: &str) -> (r: Vec<String>)
    ensures
        r.deep_view() == spec_split_lines(s@),
        r.deep_view().len() > 0,
{
    proof {
        reveal_strlit("\r\n");
        assert("\r\n"@ =~= crlf());
    }
    let mut lines: Vec<String> = Vec::new();
    let mut rest: &str = s;
    loop
        invariant_except_break
            "\r\n"@ == crlf(),
            lines.deep_view() + spec_split_lines(rest@) =~= spec_split_lines(s@),
        ensures
            lines.deep_view() == spec_split_lines(s@),
            lines.deep_view().len() > 0,
        decreases rest@.len(),
    {
        let n = rest.unicode_len();
        match find_str(rest, "\r\n", 0) {
            Some(i) => {
                proof {
                    lemma_find_from_some(rest@, crlf(), 0, i as int);
                }
                let ghost dv0 = lines.deep_view();
                let ghost rest0 = rest@;
                let line = rest.substring_char(0, i).to_owned();
                lines.push(line);
                rest = rest.substring_char(i + 2, n);
                proof {
                    assert(lines.deep_view() =~= dv0.push(rest0.subrange(0, i as int)));
                    assert(spec_split_lines(rest0) == seq![rest0.subrange(0, i as int)]
                        + spec_split_lines(rest@));
                    assert(lines.deep_view() + spec_split_lines(rest@) =~= dv0 + spec_split_lines(
                        rest0,
                    ));
                }
            },
            None => {
                let ghost dv0 = lines.deep_view();
                lines.push(rest.to_owned());
                proof {
                    assert(spec_split_lines(rest@) == seq![rest@]);
                    assert(lines.deep_view() =~= dv0.push(rest@));
                    assert(lines.deep_view() =~= dv0 + spec_split_lines(rest@));
                }
                break ;
            },
        }
    }
    lines
}

/// Parse a request line into method, target and version.
fn parse_request_line(line: &str) -> (r: Result<(HttpMethod, String, HttpVersion), ParseError>)
    ensures
        match r {
            Ok(rl) => spec_parse_request_line(line@) == Ok::<_, ParseError>(
                (rl.0, rl.1@, rl.2),
            ),
            Err(e) => spec_parse_request_line(line@) == Err::<
                (HttpMethod, Seq<char>, HttpVersion),
                _,
            >(e),
        },
{
    proof {
        reveal_strlit(" ");
        assert(" "@ =~= seq![' ']);
    }
    let n = line.unicode_len();
    let sp_pos = find_str(line, " ", 0);
    let token = match sp_pos {
        Some(i) => {
            proof {
                lemma_find_from_some(line@, seq![' '], 0, i as int);
            }
            line.substring_char(0, i)
        },
        None => line,
    };
    let m = match HttpMethod::from_token(token) {
        Some(m) => m,
        None => {
            return Err(ParseError::InvalidMethod);
        },
    };
    let i = match sp_pos {
        Some(i) => i,
        None => {
            return Err(ParseError::MalformedRequestLine);
        },
    };
    proof {
        lemma_find_from_some(line@, seq![' '], 0, i as int);
    }
    let rest = line.substring_char(i + 1, n);
    let rn = rest.unicode_len();
    match find_str(rest, " ", 0) {
        None => Ok((m, rest.to_owned(), HttpVersion::Http09)),
        Some(j) => {
            proof {
                lemma_find_from_some(rest@, seq![' '], 0, j as int);
            }
            let uri = rest.substring_char(0, j).to_owned();
            let vtok = rest.substring_char(j + 1, rn);
            match HttpVersion::from_token(vtok) {
                Some(v) => Ok((m, uri, v)),
                None => Err(ParseError::UnknownVersion),
            }
        },
    }
}

/// Parse one header line into its name and value.
fn parse_header_line(line: &str) -> (r: Option<(String, String)>)
    ensures
        match r {
            Some(kv) => spec_parse_header_line(line@) == Some((kv.0@, kv.1@)) && kv.0@.len() > 0,
            None => spec_parse_header_line(line@) is None,
        },
{
    proof {
        reveal_strlit(": ");
        assert(": "@ =~= colon_space());
    }
    let n = line.unicode_len();
    match find_str(line, ": ", 0) {
        None => None,
        Some(i) => {
            if i == 0 {
                None
            } else {
                proof {
                    lemma_find_from_some(line@, colon_space(), 0, i as int);
                }
                let name = line.substring_char(0, i).to_owned();
                let value = line.substring_char(i + 2, n).to_owned();
                Some((name, value))
            }
        },
    }
}

/// Parse a raw header block and trailing body bytes into a structured
/// request.
///
/// The outcome follows `spec_parse_head` on the block's characters exactly:
/// the same structured fields on success, the same error otherwise.  The
/// body bytes are taken verbatim and never interpreted.
pub fn http_request_parse(head: &str, body: Vec<u8>) -> (r: Result<HttpRequest, ParseError>)
    ensures
        match r {
            Ok(req) => {
                &&& spec_parse_head(head@) is Ok
                &&& {
                    let parsed = spec_parse_head(head@)->Ok_0;
                    &&& req.method == parsed.0
                    &&& req.uri@ == parsed.1
                    &&& req.version == parsed.2
                    &&& req.headers.as_map() == parsed.3
                }
                &&& req.body@ == body@
                &&& req.wf()
            },
            Err(e) => spec_parse_head(head@) == Err::<
                (HttpMethod, Seq<char>, HttpVersion, Map<Seq<char>, Seq<char>>),
                _,
            >(e),
        },
{
    let lines = split_lines(head);
    let ghost dv = lines.deep_view();
    let rl = match parse_request_line(lines[0].as_str()) {
        Ok(rl) => rl,
        Err(e) => {
            return Err(e);
        },
    };
    let mut headers = HeaderMap::new();
    let n = lines.len();
    let mut i: usize = 1;
    while i < n
        invariant
            1 <= i <= n,
            n == dv.len(),
            dv == lines.deep_view(),
            n == lines@.len(),
            dv == spec_split_lines(head@),
            spec_parse_request_line(dv[0]) == Ok::<_, ParseError>((rl.0, rl.1@, rl.2)),
            headers.wf(),
            spec_parse_header_lines(dv.skip(i as int), headers.as_map())
                == spec_parse_header_lines(dv.skip(1), Map::<Seq<char>, Seq<char>>::empty()),
        decreases n - i,
    {
        let ghost rest = dv.skip(i as int);
        let line = &lines[i];
        proof {
            assert(rest[0] == dv[i as int]);
            assert(rest.skip(1) =~= dv.skip(i + 1));
            assert(dv[i as int] == line@);
        }
        if line.as_str().unicode_len() == 0 {
            proof {
                assert(spec_parse_header_lines(rest, headers.as_map())
                    == spec_parse_header_lines(rest.skip(1), headers.as_map()));
            }
            i += 1;
            continue ;
        }
        match parse_header_line(line.as_str()) {
            None => {
                proof {
                    assert(spec_parse_header_lines(rest, headers.as_map()) == Err::<
                        Map<Seq<char>, Seq<char>>,
                        ParseError,
                    >(ParseError::MalformedHeader));
                    assert(dv[0] == lines@[0]@);
                }
                return Err(ParseError::MalformedHeader);
            },
            Some(kv) => {
                let ghost m0 = headers.as_map();
                let ghost k = kv.0@;
                let ghost v = kv.1@;
                headers.insert(kv.0, kv.1);
                proof {
                    assert(spec_parse_header_lines(rest, m0) == spec_parse_header_lines(
                        rest.skip(1),
                        m0.insert(k, v),
                    ));
                }
            },
        }
        i += 1;
    }
    proof {
        assert(dv.skip(n as int) =~= Seq::<Seq<char>>::empty());
        assert(spec_parse_header_lines(dv.skip(n as int), headers.as_map()) == Ok::<
            Map<Seq<char>, Seq<char>>,
            ParseError,
        >(headers.as_map()));
        assert(dv[0] == lines@[0]@);
    }
    Ok(
        HttpRequest {
            method: rl.0,
            version: rl.2,
            uri: rl.1,
            headers,
            body,
        },
    )
}

} // verus!
