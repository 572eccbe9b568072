//! The structured request flowing through the proxy pipeline: method,
//! version, request-target, header map and body bytes.

use vstd::prelude::*;

verus! {

/// The closed set of request methods the proxy accepts.
#[derive(Clone, Copy, PartialEq, Eq, Structural, Debug)]
pub enum HttpMethod {
    GET,
    POST,
    HEAD,
    OPTIONS,
    PUT,
    DELETE,
    TRACE,
    PATCH,
}

/// The protocol versions the proxy recognizes.  `Http09` stands for a
/// request line that carries no version token at all.
#[derive(Clone, Copy, PartialEq, Eq, Structural, Debug)]
pub enum HttpVersion {
    Http09,
    Http10,
    Http11,
}

/// The wire token of a method.
pub open spec fn method_token(m: HttpMethod) -> Seq<char> {
    match m {
        HttpMethod::GET => "GET"@,
        HttpMethod::POST => "POST"@,
        HttpMethod::HEAD => "HEAD"@,
        HttpMethod::OPTIONS => "OPTIONS"@,
        HttpMethod::PUT => "PUT"@,
        HttpMethod::DELETE => "DELETE"@,
        HttpMethod::TRACE => "TRACE"@,
        HttpMethod::PATCH => "PATCH"@,
    }
}

/// The method a wire token stands for, if any; the match is exact and
/// case-sensitive.
pub open spec fn spec_method_of(t: Seq<char>) -> Option<HttpMethod> {
    if t == "GET"@ {
        Some(HttpMethod::GET)
    } else if t == "POST"@ {
        Some(HttpMethod::POST)
    } else if t == "HEAD"@ {
        Some(HttpMethod::HEAD)
    } else if t == "OPTIONS"@ {
        Some(HttpMethod::OPTIONS)
    } else if t == "PUT"@ {
        Some(HttpMethod::PUT)
    } else if t == "DELETE"@ {
        Some(HttpMethod::DELETE)
    } else if t == "TRACE"@ {
        Some(HttpMethod::TRACE)
    } else if t == "PATCH"@ {
        Some(HttpMethod::PATCH)
    } else {
        None
    }
}

/// The wire token of a version: empty for `Http09`, the protocol literal
/// otherwise.
pub open spec fn version_token(v: HttpVersion) -> Seq<char> {
    match v {
        HttpVersion::Http09 => Seq::<char>::empty(),
        HttpVersion::Http10 => "HTTP/1.0"@,
        HttpVersion::Http11 => "HTTP/1.1"@,
    }
}

/// The version a wire token stands for, if any.
pub open spec fn spec_version_of(t: Seq<char>) -> Option<HttpVersion> {
    if t == "HTTP/1.0"@ {
        Some(HttpVersion::Http10)
    } else if t == "HTTP/1.1"@ {
        Some(HttpVersion::Http11)
    } else {
        None
    }
}

/// The key-to-value mapping a sequence of header entries denotes: a later
/// entry for a key overwrites an earlier one.
pub open spec fn map_of(es: Seq<(Seq<char>, Seq<char>)>) -> Map<Seq<char>, Seq<char>>
    decreases es.len(),
{
    if es.len() == 0 {
        Map::empty()
    } else {
        map_of(es.drop_last()).insert(es.last().0, es.last().1)
    }
}

/// No two entries share a key.
pub open spec fn unique_keys(es: Seq<(Seq<char>, Seq<char>)>) -> bool {
    forall|i: int, j: int| 0 <= i < j < es.len() ==> es[i].0 != es[j].0
}

/// A key is in the denoted map exactly when some entry carries it.
pub proof fn lemma_map_of_contains(es: Seq<(Seq<char>, Seq<char>)>, k: Seq<char>)
    ensures
        map_of(es).contains_key(k) <==> exists|i: int| 0 <= i < es.len() && es[i].0 == k,
    decreases es.len(),
{
    if es.len() == 0 {
    } else {
        lemma_map_of_contains(es.drop_last(), k);
        if es.last().0 == k {
            assert(es[es.len() - 1].0 == k);
        } else if map_of(es).contains_key(k) {
            let i = choose|i: int| 0 <= i < es.drop_last().len() && es.drop_last()[i].0 == k;
            assert(es[i].0 == k);
        } else if exists|i: int| 0 <= i < es.len() && es[i].0 == k {
            let i = choose|i: int| 0 <= i < es.len() && es[i].0 == k;
            assert(es.drop_last()[i].0 == k);
        }
    }
}

/// With unique keys, the entry carrying a key gives its value in the map.
pub proof fn lemma_map_of_index(es: Seq<(Seq<char>, Seq<char>)>, i: int)
    requires
        unique_keys(es),
        0 <= i < es.len(),
    ensures
        map_of(es).contains_key(es[i].0),
        map_of(es)[es[i].0] == es[i].1,
    decreases es.len(),
{
    if i == es.len() - 1 {
    } else {
        assert(es.drop_last()[i] == es[i]);
        lemma_map_of_index(es.drop_last(), i);
        assert(es[i].0 != es.last().0);
    }
}

/// Overwriting the entry that carries a key updates the denoted map at that
/// key alone.
pub proof fn lemma_map_of_update(es: Seq<(Seq<char>, Seq<char>)>, i: int, v: Seq<char>)
    requires
        unique_keys(es),
        0 <= i < es.len(),
    ensures
        map_of(es.update(i, (es[i].0, v))) == map_of(es).insert(es[i].0, v),
    decreases es.len(),
{
    let k = es[i].0;
    let es2 = es.update(i, (k, v));
    if i == es.len() - 1 {
        assert(es2.drop_last() =~= es.drop_last());
        assert(es2.last() == (k, v));
        assert(map_of(es2) =~= map_of(es).insert(k, v));
    } else {
        assert(es2.drop_last() =~= es.drop_last().update(i, (k, v)));
        assert(es.drop_last()[i] == es[i]);
        lemma_map_of_update(es.drop_last(), i, v);
        assert(es.last().0 != k);
        assert(es2.last() == es.last());
        assert(map_of(es2) =~= map_of(es).insert(k, v));
    }
}

/// Dropping the entry that carries a key removes that key from the denoted
/// map and changes nothing else.
pub proof fn lemma_map_of_remove(es: Seq<(Seq<char>, Seq<char>)>, i: int)
    requires
        unique_keys(es),
        0 <= i < es.len(),
    ensures
        map_of(es.remove(i)) == map_of(es).remove(es[i].0),
    decreases es.len(),
{
    let k = es[i].0;
    if i == es.len() - 1 {
        assert(es.remove(i) =~= es.drop_last());
        lemma_map_of_contains(es.drop_last(), k);
        assert(forall|j: int| 0 <= j < es.drop_last().len() ==> es.drop_last()[j] == es[j]);
        assert(!map_of(es.drop_last()).contains_key(k));
        assert(map_of(es.remove(i)) =~= map_of(es).remove(k));
    } else {
        assert(es.remove(i).drop_last() =~= es.drop_last().remove(i));
        assert(forall|j: int| 0 <= j < es.drop_last().len() ==> es.drop_last()[j] == es[j]);
        lemma_map_of_remove(es.drop_last(), i);
        assert(es.remove(i).last() == es.last());
        assert(es.last().0 != k);
        assert(map_of(es.remove(i)) =~= map_of(es).remove(k));
    }
}

/// Appending an entry inserts its pair into the denoted map.
pub proof fn lemma_map_of_push(es: Seq<(Seq<char>, Seq<char>)>, k: Seq<char>, v: Seq<char>)
    ensures
        map_of(es.push((k, v))) == map_of(es).insert(k, v),
{
    assert(es.push((k, v)).drop_last() =~= es);
    assert(es.push((k, v)).last() == (k, v));
}

/// A mapping from header names to header values.
///
/// Entries keep their insertion order, names are matched case-sensitively,
/// no name is empty, and no name occurs twice.
#[derive(Clone)]
pub struct HeaderMap {
    entries: Vec<(String, String)>,
}

impl HeaderMap {
    /// The entries in order, as character sequences.
    pub closed spec fn entries_view(&self) -> Seq<(Seq<char>, Seq<char>)> {
        self.entries@.map_values(|p: (String, String)| (p.0@, p.1@))
    }

    /// The name-to-value mapping the entries denote.
    pub open spec fn as_map(&self) -> Map<Seq<char>, Seq<char>> {
        map_of(self.entries_view())
    }

    /// Every name is nonempty and no name occurs twice.
    pub open spec fn wf(&self) -> bool {
        &&& unique_keys(self.entries_view())
        &&& forall|i: int| 0 <= i < self.entries_view().len() ==> self.entries_view()[i].0.len() > 0
    }

    /// An empty map.
    pub fn new() -> (r: HeaderMap)
        ensures
            r.wf(),
            r.entries_view() == Seq::<(Seq<char>, Seq<char>)>::empty(),
            r.as_map() == Map::<Seq<char>, Seq<char>>::empty(),
    {
        let r = HeaderMap { entries: Vec::new() };
        proof {
            assert(r.entries_view() =~= Seq::<(Seq<char>, Seq<char>)>::empty());
        }
        r
    }

    /// The number of entries.
    pub fn len(&self) -> (r: usize)
        ensures
            r == self.entries_view().len(),
    {
        self.entries.len()
    }

    /// The index of the first entry whose name is `key`, if any.
    fn index_of(&self, key: &str) -> (r: Option<usize>)
        ensures
            match r {
                Some(i) => i < self.entries_view().len() && self.entries_view()[i as int].0
                    == key@,
                None => forall|j: int|
                    0 <= j < self.entries_view().len() ==> self.entries_view()[j].0 != key@,
            },
    {
        let n = self.entries.len();
        let mut i: usize = 0;
        while i < n
            invariant
                0 <= i <= n,
                n == self.entries_view().len(),
                n == self.entries@.len(),
                forall|j: int| 0 <= j < i ==> self.entries_view()[j].0 != key@,
            decreases n - i,
        {
            if crate::search::str_eq(self.entries[i].0.as_str(), key) {
                assert(self.entries_view()[i as int].0 == key@);
                return Some(i);
            }
            assert(self.entries_view()[i as int].0 != key@);
            i += 1;
        }
        None
    }

    /// The value stored under `key`, if any.
    pub fn get(&self, key: &str) -> (r: Option<String>)
        requires
            self.wf(),
        ensures
            match r {
                Some(v) => self.as_map().contains_key(key@) && v@ == self.as_map()[key@],
                None => !self.as_map().contains_key(key@),
            },
    {
        match self.index_of(key) {
            Some(i) => {
                proof {
                    lemma_map_of_index(self.entries_view(), i as int);
                }
                Some(self.entries[i].1.clone())
            },
            None => {
                proof {
                    lemma_map_of_contains(self.entries_view(), key@);
                }
                None
            },
        }
    }

    /// Whether an entry under `key` is present.
    pub fn contains(&self, key: &str) -> (r: bool)
        requires
            self.wf(),
        ensures
            r == self.as_map().contains_key(key@),
    {
        proof {
            lemma_map_of_contains(self.entries_view(), key@);
        }
        self.index_of(key).is_some()
    }

    /// Store `val` under `key`, overwriting any earlier value.
    pub fn insert(&mut self, key: String, val: String)
        requires
            old(self).wf(),
            key@.len() > 0,
        ensures
            final(self).wf(),
            final(self).as_map() == old(self).as_map().insert(key@, val@),
            !old(self).as_map().contains_key(key@) ==> final(self).entries_view() == old(
                self,
            ).entries_view().push((key@, val@)),
    {
        proof {
            lemma_map_of_contains(old(self).entries_view(), key@);
        }
        match self.index_of(key.as_str()) {
            Some(i) => {
                let ghost es = self.entries_view();
                self.entries.remove(i);
                self.entries.insert(i, (key, val));
                proof {
                    assert(self.entries_view() =~= es.update(i as int, (key@, val@)));
                    lemma_map_of_update(es, i as int, val@);
                    assert forall|a: int, b: int|
                        0 <= a < b < self.entries_view().len() implies self.entries_view()[a].0
                        != self.entries_view()[b].0 by {
                        assert(es[a].0 != es[b].0);
                    }
                }
            },
            None => {
                let ghost es = self.entries_view();
                self.entries.push((key, val));
                proof {
                    assert(self.entries_view() =~= es.push((key@, val@)));
                    lemma_map_of_push(es, key@, val@);
                    assert forall|a: int, b: int|
                        0 <= a < b < self.entries_view().len() implies self.entries_view()[a].0
                        != self.entries_view()[b].0 by {
                        if b < es.len() {
                            assert(es[a].0 != es[b].0);
                        }
                    }
                }
            },
        }
    }

    /// Store `val` under `key` only when no entry carries `key` yet; never
    /// overwrite a value already present.
    pub fn insert_if_absent(&mut self, key: String, val: String)
        requires
            old(self).wf(),
            key@.len() > 0,
        ensures
            final(self).wf(),
            old(self).as_map().contains_key(key@) ==> *final(self) == *old(self),
            !old(self).as_map().contains_key(key@) ==> final(self).as_map() == old(
                self,
            ).as_map().insert(key@, val@) && final(self).entries_view() == old(
                self,
            ).entries_view().push((key@, val@)),
    {
        proof {
            lemma_map_of_contains(old(self).entries_view(), key@);
        }
        match self.index_of(key.as_str()) {
            Some(_) => {},
            None => {
                self.insert(key, val);
            },
        }
    }

    /// Drop the entry under `key`, if one is present.
    pub fn remove(&mut self, key: &str)
        requires
            old(self).wf(),
        ensures
            final(self).wf(),
            final(self).as_map() == old(self).as_map().remove(key@),
            !old(self).as_map().contains_key(key@) ==> *final(self) == *old(self),
    {
        proof {
            lemma_map_of_contains(old(self).entries_view(), key@);
        }
        match self.index_of(key) {
            Some(i) => {
                let ghost es = self.entries_view();
                self.entries.remove(i);
                proof {
                    assert(self.entries_view() =~= es.remove(i as int));
                    lemma_map_of_remove(es, i as int);
                    assert forall|a: int, b: int|
                        0 <= a < b < self.entries_view().len() implies self.entries_view()[a].0
                        != self.entries_view()[b].0 by {
                        let a0 = if a < i { a } else { a + 1 };
                        let b0 = if b < i { b } else { b + 1 };
                        assert(es[a0].0 != es[b0].0);
                    }
                }
            },
            None => {
                proof {
                    assert(self.as_map() =~= old(self).as_map().remove(key@));
                }
            },
        }
    }
}

impl HttpMethod {
    /// The wire token of this method, as an owned string.
    pub fn name(&self) -> (r: String)
        ensures
            r@ == method_token(*self),
    {
        match self {
            HttpMethod::GET => "GET".to_owned(),
            HttpMethod::POST => "POST".to_owned(),
            HttpMethod::HEAD => "HEAD".to_owned(),
            HttpMethod::OPTIONS => "OPTIONS".to_owned(),
            HttpMethod::PUT => "PUT".to_owned(),
            HttpMethod::DELETE => "DELETE".to_owned(),
            HttpMethod::TRACE => "TRACE".to_owned(),
            HttpMethod::PATCH => "PATCH".to_owned(),
        }
    }

    /// The method a wire token names, or `None` for any token outside the
    /// closed set.
    pub fn from_token(t: &str) -> (r: Option<HttpMethod>)
        ensures
            r == spec_method_of(t@),
    {
        if crate::search::str_eq(t, "GET") {
            Some(HttpMethod::GET)
        } else if crate::search::str_eq(t, "POST") {
            Some(HttpMethod::POST)
        } else if crate::search::str_eq(t, "HEAD") {
            Some(HttpMethod::HEAD)
        } else if crate::search::str_eq(t, "OPTIONS") {
            Some(HttpMethod::OPTIONS)
        } else if crate::search::str_eq(t, "PUT") {
            Some(HttpMethod::PUT)
        } else if crate::search::str_eq(t, "DELETE") {
            Some(HttpMethod::DELETE)
        } else if crate::search::str_eq(t, "TRACE") {
            Some(HttpMethod::TRACE)
        } else if crate::search::str_eq(t, "PATCH") {
            Some(HttpMethod::PATCH)
        } else {
            None
        }
    }
}

impl HttpVersion {
    /// The wire token of this version, as an owned string.
    pub fn name(&self) -> (r: String)
        ensures
            r@ == version_token(*self),
    {
        match self {
            HttpVersion::Http09 => {
                let r = "".to_owned();
                proof {
                    reveal_strlit("");
                    assert(r@ =~= Seq::<char>::empty());
                }
                r
            },
            HttpVersion::Http10 => "HTTP/1.0".to_owned(),
            HttpVersion::Http11 => "HTTP/1.1".to_owned(),
        }
    }

    /// The version a wire token names, or `None` for an unknown token.
    pub fn from_token(t: &str) -> (r: Option<HttpVersion>)
        ensures
            r == spec_version_of(t@),
    {
        if crate::search::str_eq(t, "HTTP/1.0") {
            Some(HttpVersion::Http10)
        } else if crate::search::str_eq(t, "HTTP/1.1") {
            Some(HttpVersion::Http11)
        } else {
            None
        }
    }
}

/// The two-byte line separator of the wire format, as characters.
pub open spec fn crlf() -> Seq<char> {
    seq!['\r', '\n']
}

/// The separator between a header name and its value.
pub open spec fn colon_space() -> Seq<char> {
    seq![':', ' ']
}

/// A decimal digit.
pub open spec fn is_digit(c: char) -> bool {
    48 <= c as u32 <= 57
}

/// Every character is a decimal digit.
pub open spec fn is_digit_seq(s: Seq<char>) -> bool {
    forall|i: int| 0 <= i < s.len() ==> is_digit(s[i])
}

/// The number a sequence of decimal digits denotes.
pub open spec fn dec_value(s: Seq<char>) -> nat
    decreases s.len(),
{
    if s.len() == 0 {
        0
    } else {
        dec_value(s.drop_last()) * 10 + (s.last() as u32 - 48) as nat
    }
}

/// A digit string's value only grows as more digits are appended.
proof fn lemma_dec_value_prefix(s: Seq<char>, i: int)
    requires
        is_digit_seq(s),
        0 <= i <= s.len(),
    ensures
        dec_value(s.subrange(0, i)) <= dec_value(s),
    decreases s.len() - i,
{
    if i == s.len() {
        assert(s.subrange(0, i) =~= s);
    } else {
        assert(s.subrange(0, i + 1).drop_last() =~= s.subrange(0, i));
        assert(s.subrange(0, i + 1).last() == s[i]);
        assert(dec_value(s.subrange(0, i)) <= dec_value(s.subrange(0, i + 1)));
        lemma_dec_value_prefix(s, i + 1);
    }
}

/// Parse a nonempty all-digit string as a decimal number.
pub fn parse_decimal_u32(s: &str) -> (r: u32)
    requires
        s@.len() > 0,
        is_digit_seq(s@),
        dec_value(s@) <= u32::MAX,
    ensures
        r == dec_value(s@),
{
    let n = s.unicode_len();
    let mut i: usize = 0;
    let mut v: u32 = 0;
    while i < n
        invariant
            0 <= i <= n,
            n == s@.len(),
            is_digit_seq(s@),
            dec_value(s@) <= u32::MAX,
            v == dec_value(s@.subrange(0, i as int)),
        decreases n - i,
    {
        let c = s.get_char(i);
        let d = c as u32;
        proof {
            assert(is_digit(s@[i as int]));
            assert(s@.subrange(0, i + 1).drop_last() =~= s@.subrange(0, i as int));
            assert(s@.subrange(0, i + 1).last() == s@[i as int]);
            lemma_dec_value_prefix(s@, i + 1);
        }
        v = v * 10 + (d - 48);
        i += 1;
    }
    proof {
        assert(s@.subrange(0, n as int) =~= s@);
    }
    v
}

/// The unit of work flowing through the pipeline.
///
/// `uri` is the request-target exactly as received; it may be in origin-form
/// (`/path`) or absolute-form (`http://host/path`).  `body` holds whatever
/// bytes followed the header-terminating blank line, which need not agree
/// with any declared `Content-Length`.
#[derive(Clone)]
pub struct HttpRequest {
    pub method: HttpMethod,
    pub version: HttpVersion,
    pub uri: String,
    pub headers: HeaderMap,
    pub body: Vec<u8>,
}

/// Serialized request line: method, target and version token separated by
/// single spaces.  An `Http09` version token is empty, which leaves the line
/// with a trailing space.
pub open spec fn spec_request_line(m: HttpMethod, uri: Seq<char>, v: HttpVersion) -> Seq<char> {
    method_token(m) + seq![' '] + uri + seq![' '] + version_token(v)
}

/// Serialized header entries: each entry on a line of its own, preceded by
/// the separator that ends the line before it.
pub open spec fn spec_serialize_entries(es: Seq<(Seq<char>, Seq<char>)>) -> Seq<char>
    decreases es.len(),
{
    if es.len() == 0 {
        Seq::empty()
    } else {
        crlf() + es[0].0 + colon_space() + es[0].1 + spec_serialize_entries(es.skip(1))
    }
}

/// The serialized header block of a request, without the final blank line:
/// the request line, then each header entry on a line of its own.
pub open spec fn spec_serialize_head(r: HttpRequest) -> Seq<char> {
    spec_request_line(r.method, r.uri@, r.version) + spec_serialize_entries(
        r.headers.entries_view(),
    )
}

impl HttpRequest {
    /// The header map keeps its invariant.
    pub open spec fn wf(&self) -> bool {
        self.headers.wf()
    }

    /// The declared `Content-Length`, parsed as a decimal number, or `None`
    /// when the header is absent.
    pub fn contentlength(&self) -> (r: Option<u32>)
        requires
            self.wf(),
            self.headers.as_map().contains_key("Content-Length"@) ==> {
                let v = self.headers.as_map()["Content-Length"@];
                v.len() > 0 && is_digit_seq(v) && dec_value(v) <= u32::MAX
            },
        ensures
            match r {
                Some(n) => self.headers.as_map().contains_key("Content-Length"@) && n == dec_value(
                    self.headers.as_map()["Content-Length"@],
                ),
                None => !self.headers.as_map().contains_key("Content-Length"@),
            },
    {
        match self.headers.get("Content-Length") {
            Some(s) => Some(parse_decimal_u32(s.as_str())),
            None => None,
        }
    }

    /// Whether the client asked the proxy leg to stay open: `Some(())`
    /// exactly when a `Proxy-Connection` header is present.
    pub fn keepalive(&self) -> (r: Option<()>)
        requires
            self.wf(),
        ensures
            r is Some <==> self.headers.as_map().contains_key("Proxy-Connection"@),
    {
        if self.headers.contains("Proxy-Connection") {
            Some(())
        } else {
            None
        }
    }

    /// The value stored under `key`, if any, as an owned string.
    pub fn has_key(&self, key: &str) -> (r: Option<String>)
        requires
            self.wf(),
        ensures
            match r {
                Some(v) => self.headers.as_map().contains_key(key@) && v@
                    == self.headers.as_map()[key@],
                None => !self.headers.as_map().contains_key(key@),
            },
    {
        self.headers.get(key)
    }

    /// Store `val` under `key` only when `key` is absent; a value the client
    /// supplied is never overwritten.
    pub fn insert_header(&mut self, key: String, val: String)
        requires
            old(self).wf(),
            key@.len() > 0,
        ensures
            final(self).wf(),
            final(self).method == old(self).method,
            final(self).version == old(self).version,
            final(self).uri == old(self).uri,
            final(self).body == old(self).body,
            old(self).headers.as_map().contains_key(key@) ==> final(self).headers == old(
                self,
            ).headers,
            !old(self).headers.as_map().contains_key(key@) ==> final(self).headers.as_map() == old(
                self,
            ).headers.as_map().insert(key@, val@) && final(self).headers.entries_view() == old(
                self,
            ).headers.entries_view().push((key@, val@)),
    {
        self.headers.insert_if_absent(key, val);
    }

    /// Drop the entry under `key`, if one is present.
    pub fn remove_header(&mut self, key: &str)
        requires
            old(self).wf(),
        ensures
            final(self).wf(),
            final(self).method == old(self).method,
            final(self).version == old(self).version,
            final(self).uri == old(self).uri,
            final(self).body == old(self).body,
            final(self).headers.as_map() == old(self).headers.as_map().remove(key@),
            !old(self).headers.as_map().contains_key(key@) ==> final(self).headers == old(
                self,
            ).headers,
    {
        self.headers.remove(key);
    }

    /// The serialized header block of this request, without the final blank
    /// line: the request line, then each header entry on a line of its own.
    pub fn serialize_head(&self) -> (r: String)
        ensures
            r@ == spec_serialize_head(*self),
    {
        let mut out = self.method.name();
        out.append(" ");
        out.append(self.uri.as_str());
        out.append(" ");
        let vname = self.version.name();
        out.append(vname.as_str());
        proof {
            reveal_strlit(" ");
            assert(" "@ =~= seq![' ']);
            assert(out@ =~= spec_request_line(self.method, self.uri@, self.version));
        }
        let ghost es = self.headers.entries_view();
        proof {
            assert(es.skip(0) =~= es);
        }
        let n = self.headers.entries.len();
        let mut i: usize = 0;
        while i < n
            invariant
                0 <= i <= n,
                n == es.len(),
                es == self.headers.entries_view(),
                n == self.headers.entries@.len(),
                out@ + spec_serialize_entries(es.skip(i as int)) == spec_serialize_head(*self),
            decreases n - i,
        {
            let ghost out0 = out@;
            out.append("\r\n");
            out.append(self.headers.entries[i].0.as_str());
            out.append(": ");
            out.append(self.headers.entries[i].1.as_str());
            proof {
                reveal_strlit("\r\n");
                reveal_strlit(": ");
                assert("\r\n"@ =~= crlf());
                assert(": "@ =~= colon_space());
                let rest = es.skip(i as int);
                assert(rest[0] == es[i as int]);
                assert(rest.skip(1) =~= es.skip(i + 1));
                assert(spec_serialize_entries(rest) == crlf() + es[i as int].0 + colon_space()
                    + es[i as int].1 + spec_serialize_entries(es.skip(i + 1)));
                assert(out@ =~= out0 + crlf() + es[i as int].0 + colon_space() + es[i as int].1);
                assert(out@ + spec_serialize_entries(es.skip(i + 1)) =~= out0
                    + spec_serialize_entries(rest));
            }
            i += 1;
        }
        proof {
            assert(es.skip(n as int) =~= Seq::<(Seq<char>, Seq<char>)>::empty());
            assert(out@ + spec_serialize_entries(es.skip(n as int)) =~= out@);
        }
        out
    }
}

} // verus!
