//! Substring search over sequences of bytes or characters.
//!
//! The frame reader scans a raw byte buffer for the `CRLFCRLF` header
//! terminator, and the parser splits text on `CRLF`, spaces and `": "`.
//! Both reduce to one spec-level notion: the first occurrence of a pattern
//! sequence at or after a starting index.

use vstd::prelude::*;

verus! {

/// The pattern `pat` occurs in `s` at index `i`.
pub open spec fn occurs_at<T>(s: Seq<T>, pat: Seq<T>, i: int) -> bool {
    0 <= i && i + pat.len() <= s.len() && s.subrange(i, i + pat.len() as int) == pat
}

/// Index of the first occurrence of `pat` in `s` at or after `from`,
/// or `None` when there is none.
pub open spec fn find_from<T>(s: Seq<T>, pat: Seq<T>, from: int) -> Option<int>
    decreases s.len() - from + 1 when 0 <= from
{
    if from + pat.len() > s.len() {
        None
    } else if s.subrange(from, from + pat.len() as int) == pat {
        Some(from)
    } else {
        find_from(s, pat, from + 1)
    }
}

/// `pat` occurs somewhere in `s`.
pub open spec fn contains_seq<T>(s: Seq<T>, pat: Seq<T>) -> bool {
    exists|i: int| occurs_at(s, pat, i)
}

/// A `Some` answer of `find_from` is an occurrence, and the earliest one.
pub proof fn lemma_find_from_some<T>(s: Seq<T>, pat: Seq<T>, from: int, i: int)
    requires
        0 <= from,
        find_from(s, pat, from) == Some(i),
    ensures
        from <= i,
        occurs_at(s, pat, i),
        forall|j: int| from <= j < i ==> !occurs_at(s, pat, j),
    decreases s.len() - from + 1,
{
    if from + pat.len() > s.len() {
    } else if s.subrange(from, from + pat.len() as int) == pat {
    } else {
        lemma_find_from_some(s, pat, from + 1, i);
    }
}

/// The earliest occurrence at or after `from` is what `find_from` returns.
pub proof fn lemma_find_from_first<T>(s: Seq<T>, pat: Seq<T>, from: int, i: int)
    requires
        0 <= from <= i,
        occurs_at(s, pat, i),
        forall|j: int| from <= j < i ==> !occurs_at(s, pat, j),
    ensures
        find_from(s, pat, from) == Some(i),
    decreases i - from,
{
    assert(from + pat.len() <= s.len());
    if from == i {
        assert(s.subrange(from, from + pat.len() as int) == pat);
    } else {
        assert(!occurs_at(s, pat, from));
        assert(s.subrange(from, from + pat.len() as int) != pat);
        lemma_find_from_first(s, pat, from + 1, i);
    }
}

/// No occurrence at or after `from` makes `find_from` answer `None`.
pub proof fn lemma_find_from_none_of<T>(s: Seq<T>, pat: Seq<T>, from: int)
    requires
        0 <= from,
        forall|j: int| from <= j ==> !occurs_at(s, pat, j),
    ensures
        find_from(s, pat, from) is None,
    decreases s.len() - from + 1,
{
    if from + pat.len() > s.len() {
    } else if s.subrange(from, from + pat.len() as int) == pat {
        assert(occurs_at(s, pat, from));
    } else {
        lemma_find_from_none_of(s, pat, from + 1);
    }
}

/// Whether two string slices hold the same characters.
pub fn str_eq(a: &str, b: &str) -> (r: bool)
    ensures
        r == (a@ == b@),
{
    let a_owned = a.to_owned();
    let b_owned = b.to_owned();
    a_owned == b_owned
}

/// Whether `pat` matches the characters of `s` starting at index `i`.
fn chars_match_at(s: &str, pat: &str, i: usize) -> (r: bool)
    requires
        i + pat@.len() <= s@.len(),
    ensures
        r == occurs_at(s@, pat@, i as int),
{
    let len1 = s.unicode_len();
    let len2 = pat.unicode_len();
    let mut j: usize = 0;
    while j < len2
        invariant
            0 <= j <= len2,
            len1 == s@.len(),
            len2 == pat@.len(),
            i + len2 <= len1,
            forall|k: int| 0 <= k < j ==> s@[i + k] == pat@[k],
        decreases len2 - j,
    {
        if s.get_char(i + j) != pat.get_char(j) {
            assert(s@.subrange(i as int, i + len2 as int)[j as int] != pat@[j as int]);
            return false;
        }
        j += 1;
    }
    assert(s@.subrange(i as int, i + len2 as int) =~= pat@);
    true
}

/// Index of the first occurrence of the character pattern `pat` in `s` at or
/// after `from`, or `None` when there is none.
pub fn find_str(s: &str, pat: &str, from: usize) -> (r: Option<usize>)
    ensures
        match r {
            Some(i) => find_from(s@, pat@, from as int) == Some(i as int),
            None => find_from(s@, pat@, from as int) is None,
        },
{
    let len1 = s.unicode_len();
    let len2 = pat.unicode_len();
    if len1 < len2 {
        proof {
            assert forall|j: int| from <= j implies !occurs_at(s@, pat@, j) by {
                assert(j + len2 > len1);
            }
            lemma_find_from_none_of(s@, pat@, from as int);
        }
        return None;
    }
    if len2 == 0 {
        if from <= len1 {
            proof {
                assert(s@.subrange(from as int, from as int) =~= pat@);
                assert(occurs_at(s@, pat@, from as int));
                lemma_find_from_first(s@, pat@, from as int, from as int);
            }
            return Some(from);
        } else {
            proof {
                assert forall|j: int| from <= j implies !occurs_at(s@, pat@, j) by {
                    assert(j + len2 > len1);
                }
                lemma_find_from_none_of(s@, pat@, from as int);
            }
            return None;
        }
    }
    let end = len1 - len2;
    if from > end {
        proof {
            assert forall|j: int| from <= j implies !occurs_at(s@, pat@, j) by {
                assert(j + len2 > len1);
            }
            lemma_find_from_none_of(s@, pat@, from as int);
        }
        return None;
    }
    let mut i = from;
    while i <= end
        invariant
            from <= i <= end + 1,
            end == len1 - len2,
            len1 == s@.len(),
            len2 == pat@.len(),
            1 <= len2 <= len1,
            forall|j: int| from <= j < i ==> !occurs_at(s@, pat@, j),
        decreases end + 1 - i,
    {
        if chars_match_at(s, pat, i) {
            proof {
                lemma_find_from_first(s@, pat@, from as int, i as int);
            }
            return Some(i);
        }
        i += 1;
    }
    proof {
        assert forall|j: int| from <= j implies !occurs_at(s@, pat@, j) by {
            if j > end {
                assert(j + len2 > len1);
            }
        }
        lemma_find_from_none_of(s@, pat@, from as int);
    }
    None
}

/// Whether `sdata` matches the bytes of `vec` starting at index `i`.
fn bytes_match_at(vec: &Vec<u8>, sdata: &[u8], i: usize) -> (r: bool)
    requires
        i + sdata@.len() <= vec@.len(),
    ensures
        r == occurs_at(vec@, sdata@, i as int),
{
    let len1 = vec.len();
    let len2 = sdata.len();
    let mut j: usize = 0;
    while j < len2
        invariant
            0 <= j <= len2,
            len1 == vec@.len(),
            len2 == sdata@.len(),
            i + len2 <= len1,
            forall|k: int| 0 <= k < j ==> vec@[i + k] == sdata@[k],
        decreases len2 - j,
    {
        if vec[i + j] != sdata[j] {
            assert(vec@.subrange(i as int, i + len2 as int)[j as int] != sdata@[j as int]);
            return false;
        }
        j += 1;
    }
    assert(vec@.subrange(i as int, i + len2 as int) =~= sdata@);
    true
}

/// Scan `vec` from index `pos` for the byte pattern `sdata`.
///
/// Returns `(i, true)` when `i` is the first index at or after `pos` where
/// `sdata` occurs.  Returns `(0, false)` when `vec` is shorter than `sdata`,
/// and `(vec.len(), false)` when `vec` is long enough but holds no occurrence
/// at or after `pos`.
pub fn find_vec_in_vec(vec: &Vec<u8>, sdata: &[u8], pos: usize) -> (r: (usize, bool))
    ensures
        r.1 == (find_from(vec@, sdata@, pos as int) is Some),
        r.1 ==> find_from(vec@, sdata@, pos as int) == Some(r.0 as int),
        !r.1 && vec@.len() < sdata@.len() ==> r.0 == 0,
        !r.1 && vec@.len() >= sdata@.len() ==> r.0 == vec@.len(),
{
    let len1 = vec.len();
    let len2 = sdata.len();
    if len1 < len2 {
        return (0, false);
    }
    if len2 == 0 {
        if pos <= len1 {
            proof {
                assert(vec@.subrange(pos as int, pos as int) =~= sdata@);
                assert(occurs_at(vec@, sdata@, pos as int));
                lemma_find_from_first(vec@, sdata@, pos as int, pos as int);
            }
            return (pos, true);
        } else {
            proof {
                assert forall|j: int| pos <= j implies !occurs_at(vec@, sdata@, j) by {
                    assert(j + len2 > len1);
                }
                lemma_find_from_none_of(vec@, sdata@, pos as int);
            }
            return (len1, false);
        }
    }
    let end = len1 - len2;
    if pos > end {
        proof {
            assert forall|j: int| pos <= j implies !occurs_at(vec@, sdata@, j) by {
                assert(j + len2 > len1);
            }
            lemma_find_from_none_of(vec@, sdata@, pos as int);
        }
        return (len1, false);
    }
    let mut i = pos;
    while i <= end
        invariant
            pos <= i <= end + 1,
            end == len1 - len2,
            len1 == vec@.len(),
            len2 == sdata@.len(),
            1 <= len2 <= len1,
            forall|j: int| pos <= j < i ==> !occurs_at(vec@, sdata@, j),
        decreases end + 1 - i,
    {
        if bytes_match_at(vec, sdata, i) {
            proof {
                lemma_find_from_first(vec@, sdata@, pos as int, i as int);
            }
            return (i, true);
        }
        i += 1;
    }
    proof {
        assert forall|j: int| pos <= j implies !occurs_at(vec@, sdata@, j) by {
            if j > end {
                assert(j + len2 > len1);
            }
        }
        lemma_find_from_none_of(vec@, sdata@, pos as int);
    }
    (len1, false)
}

} // verus!
