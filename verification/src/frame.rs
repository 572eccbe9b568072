//! Delimiting one HTTP message's header block in a raw byte stream.
//!
//! A header block ends at the four-byte terminator `CRLFCRLF`.  The reader
//! accumulates chunks into a buffer, stops once the buffer ends with the
//! terminator, and splits the buffer at the terminator's first occurrence:
//! what precedes it is the header block, what follows it is the start of the
//! body and must be handed to the parser rather than read again.

use vstd::prelude::*;

use crate::search::find_from;
use crate::search::find_vec_in_vec;
use crate::search::lemma_find_from_some;

verus! {

/// The four-byte header terminator, as raw bytes.
pub open spec fn terminator_bytes() -> Seq<u8> {
    seq![13u8, 10u8, 13u8, 10u8]
}

/// Whether an accumulating read buffer holds a complete header block: more
/// than four bytes, ending with the terminator.
pub fn header_block_complete(data: &Vec<u8>) -> (r: bool)
    ensures
        r == (data@.len() > 4 && data@.subrange(data@.len() - 4, data@.len() as int)
            == terminator_bytes()),
{
    let n = data.len();
    if n <= 4 {
        return false;
    }
    let ghost tail = data@.subrange(data@.len() - 4, data@.len() as int);
    let ok = data[n - 4] == 13 && data[n - 3] == 10 && data[n - 2] == 13 && data[n - 1] == 10;
    proof {
        if ok {
            assert(tail =~= terminator_bytes());
        } else {
            assert(data@[n - 4] == tail[0] && data@[n - 3] == tail[1] && data@[n - 2] == tail[2]
                && data@[n - 1] == tail[3]);
            assert(tail != terminator_bytes());
        }
    }
    ok
}

/// The bytes of `data` from `from` up to `to`, as an owned vector.
fn copy_range(data: &Vec<u8>, from: usize, to: usize) -> (r: Vec<u8>)
    requires
        from <= to <= data@.len(),
    ensures
        r@ == data@.subrange(from as int, to as int),
{
    let mut r: Vec<u8> = Vec::new();
    let mut i = from;
    while i < to
        invariant
            from <= i <= to,
            to <= data@.len(),
            r@ == data@.subrange(from as int, i as int),
        decreases to - i,
    {
        r.push(data[i]);
        proof {
            assert(r@ =~= data@.subrange(from as int, i + 1));
        }
        i += 1;
    }
    r
}

/// Split a raw message buffer at the first header terminator: the header
/// block before it, the body bytes after it.  `None` when the buffer holds
/// no terminator, in which case no parse must be attempted.
pub fn split_message(data: &Vec<u8>) -> (r: Option<(Vec<u8>, Vec<u8>)>)
    ensures
        match r {
            Some(parts) => {
                &&& find_from(data@, terminator_bytes(), 0) == Some(parts.0@.len() as int)
                &&& data@ == parts.0@ + terminator_bytes() + parts.1@
            },
            None => find_from(data@, terminator_bytes(), 0) is None,
        },
{
    let term: Vec<u8> = vec![13u8, 10u8, 13u8, 10u8];
    proof {
        assert(term@ =~= terminator_bytes());
    }
    let (pos, found) = find_vec_in_vec(data, term.as_slice(), 0);
    if !found {
        return None;
    }
    let n = data.len();
    proof {
        lemma_find_from_some(data@, terminator_bytes(), 0, pos as int);
        assert(pos + 4 <= n);
    }
    let head = copy_range(data, 0, pos);
    let body = copy_range(data, pos + 4, n);
    proof {
        assert(data@.subrange(pos as int, pos + 4) == terminator_bytes());
        assert(data@ =~= head@ + terminator_bytes() + body@);
    }
    Some((head, body))
}

} // verus!
