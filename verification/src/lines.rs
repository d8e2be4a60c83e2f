//! Finding the last complete line in a block of bytes.

use vstd::prelude::*;

verus! {

/// The byte that ends a record.
pub const NEWLINE: u8 = 10;

/// `k` is the offset of the last line break in `bytes`.
pub open spec fn is_last_newline(bytes: Seq<u8>, k: int) -> bool {
    &&& 0 <= k < bytes.len()
    &&& bytes[k] == NEWLINE
    &&& forall|j: int| k < j < bytes.len() ==> bytes[j] != NEWLINE
}

/// `bytes` holds no line break at all.
pub open spec fn has_no_newline(bytes: Seq<u8>) -> bool {
    forall|j: int| 0 <= j < bytes.len() ==> bytes[j] != NEWLINE
}

/// Scans `bytes` backward for the last line break.
pub fn find_new_line_pos(bytes: &[u8]) -> (pos: Option<usize>)
    ensures
        match pos {
            Some(k) => is_last_newline(bytes@, k as int),
            None => has_no_newline(bytes@),
        },
{
    let mut i: usize = bytes.len();
    while i > 0
        invariant
            i <= bytes.len(),
            forall|j: int| i <= j < bytes.len() ==> bytes@[j] != NEWLINE,
        decreases i,
    {
        i = i - 1;
        if bytes[i] == NEWLINE {
            return Some(i);
        }
    }
    None
}

} // verus!
