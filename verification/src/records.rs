//! Locating the records of a chunk without copying them.
//!
//! A record is a name, a separator, the text of a measurement and a line
//! break. Scanning yields the offsets of the name and of the text; the bytes
//! stay where they are.

use vstd::prelude::*;
use vstd::slice::slice_subrange;
use crate::lines::NEWLINE;

verus! {

/// The byte between a record's name and its measurement.
pub const SEPARATOR: u8 = 59;

/// `memchr::memchr` searches `haystack` for `needle` from the front.
/// Assumed, not proved, as its documentation says: it returns the index of
/// the first occurrence, which is less than the length of `haystack`, or
/// `None` where the byte does not occur.
pub assume_specification[ memchr::memchr ](needle: u8, haystack: &[u8]) -> (pos: Option<usize>)
    ensures
        match pos {
            Some(i) => {
                &&& i < haystack@.len()
                &&& haystack@[i as int] == needle
                &&& forall|j: int| 0 <= j < i ==> haystack@[j] != needle
            },
            None => forall|j: int| 0 <= j < haystack@.len() ==> haystack@[j] != needle,
        },
;

/// The offset of the first `byte` of `data` at or after `from`, or the length
/// of `data` if there is none.
pub open spec fn first_from(data: Seq<u8>, from: int, byte: u8) -> int
    decreases data.len() - from,
{
    if from < 0 || from >= data.len() {
        data.len() as int
    } else if data[from] == byte {
        from
    } else {
        first_from(data, from + 1, byte)
    }
}

/// `first_from` is the one offset `k` from `from` on with no `byte` before it
/// and either a `byte` at it or the end of `data`.
pub proof fn lemma_first_from(data: Seq<u8>, from: int, byte: u8, k: int)
    requires
        0 <= from <= k <= data.len(),
        forall|j: int| from <= j < k ==> data[j] != byte,
        k < data.len() ==> data[k] == byte,
    ensures
        first_from(data, from, byte) == k,
    decreases k - from,
{
    if from < k {
        lemma_first_from(data, from + 1, byte, k);
    }
}

/// Where one record lies in a chunk. All fields are offsets into the chunk.
#[derive(Clone, Copy, Debug, PartialEq, Eq, Structural)]
pub struct RecordSpan {
    /// The first byte of the name.
    pub name_start: usize,
    /// One past the last byte of the name: the offset of the separator.
    pub name_end: usize,
    /// The first byte of the measurement's text.
    pub value_start: usize,
    /// One past the last byte of the measurement's text: the offset of the
    /// line break, or the end of the chunk where the record has none.
    pub value_end: usize,
    /// Where the next record starts.
    pub next: usize,
}

/// The parts of `r` lie in order inside a chunk of `len` bytes.
pub open spec fn within(r: RecordSpan, len: int) -> bool {
    r.name_start <= r.name_end < r.value_start <= r.value_end <= r.next <= len
}

/// The name of the record `r` of `data`.
pub open spec fn name_of(data: Seq<u8>, r: RecordSpan) -> Seq<u8> {
    data.subrange(r.name_start as int, r.name_end as int)
}

/// The record of `data` that starts at `cursor`, if there is one: its name
/// runs to the next separator, its measurement from there to the next line
/// break or, failing that, to the end of `data`. Without a separator from
/// `cursor` on there is no record.
pub open spec fn record_at(data: Seq<u8>, cursor: int) -> Option<RecordSpan> {
    let sep = first_from(data, cursor, SEPARATOR);
    let end = first_from(data, sep + 1, NEWLINE);
    if cursor < 0 || sep >= data.len() {
        None
    } else {
        Some(
            RecordSpan {
                name_start: cursor as usize,
                name_end: sep as usize,
                value_start: (sep + 1) as usize,
                value_end: end as usize,
                next: (if end < data.len() {
                    end + 1
                } else {
                    end
                }) as usize,
            },
        )
    }
}

/// The records of `data` from `cursor` on, in order.
pub open spec fn records_from(data: Seq<u8>, cursor: int) -> Seq<RecordSpan>
    decreases data.len() - cursor,
{
    match record_at(data, cursor) {
        None => Seq::<RecordSpan>::empty(),
        Some(r) => if cursor < r.next <= data.len() {
            seq![r] + records_from(data, r.next as int)
        } else {
            seq![r]
        },
    }
}

/// `first_from` stays within `data` and never goes back.
pub proof fn lemma_first_from_bounds(data: Seq<u8>, from: int, byte: u8)
    requires
        0 <= from <= data.len(),
    ensures
        from <= first_from(data, from, byte) <= data.len(),
        first_from(data, from, byte) < data.len() ==> data[first_from(data, from, byte)] == byte,
        forall|j: int| from <= j < first_from(data, from, byte) ==> data[j] != byte,
    decreases data.len() - from,
{
    if from < data.len() && data[from] != byte {
        lemma_first_from_bounds(data, from + 1, byte);
    }
}

/// A record lies inside its chunk, its parts in order, and the next record
/// starts after it.
pub proof fn lemma_record_in_bounds(data: Seq<u8>, cursor: int)
    requires
        0 <= cursor <= data.len(),
        data.len() <= usize::MAX,
    ensures
        match record_at(data, cursor) {
            Some(r) => {
                &&& r.name_start == cursor
                &&& r.name_start <= r.name_end < r.value_start <= r.value_end <= r.next
                    <= data.len()
                &&& data[r.name_end as int] == SEPARATOR
                &&& cursor < r.next
            },
            None => true,
        },
{
    lemma_first_from_bounds(data, cursor, SEPARATOR);
    let sep = first_from(data, cursor, SEPARATOR);
    if sep < data.len() {
        lemma_first_from_bounds(data, sep + 1, NEWLINE);
    }
}

/// Every record found lies inside the chunk.
pub proof fn lemma_records_within(data: Seq<u8>, cursor: int)
    requires
        0 <= cursor <= data.len(),
        data.len() <= usize::MAX,
    ensures
        forall|i: int|
            0 <= i < records_from(data, cursor).len() ==> within(
                #[trigger] records_from(data, cursor)[i],
                data.len() as int,
            ),
    decreases data.len() - cursor,
{
    lemma_record_in_bounds(data, cursor);
    match record_at(data, cursor) {
        Some(r) => {
            lemma_records_within(data, r.next as int);
            let rest = records_from(data, r.next as int);
            assert(records_from(data, cursor) == seq![r] + rest);
            assert forall|i: int| 0 <= i < records_from(data, cursor).len() implies within(
                #[trigger] records_from(data, cursor)[i],
                data.len() as int,
            ) by {
                if i > 0 {
                    assert(records_from(data, cursor)[i] == rest[i - 1]);
                }
            }
        },
        None => {},
    }
}

/// `r` moved `by` bytes to the right.
pub open spec fn shifted(r: RecordSpan, by: int) -> RecordSpan {
    RecordSpan {
        name_start: (r.name_start + by) as usize,
        name_end: (r.name_end + by) as usize,
        value_start: (r.value_start + by) as usize,
        value_end: (r.value_end + by) as usize,
        next: (r.next + by) as usize,
    }
}

/// Each record of `spans` moved `by` bytes to the right.
pub open spec fn shifted_all(spans: Seq<RecordSpan>, by: int) -> Seq<RecordSpan> {
    Seq::new(spans.len(), |i: int| shifted(spans[i], by))
}

/// From `cursor` on, `data` is whole records and nothing else: each has its
/// separator and its line break, and the last line break ends `data`.
pub open spec fn complete_from(data: Seq<u8>, cursor: int) -> bool
    decreases data.len() - cursor,
{
    if cursor < 0 || cursor >= data.len() {
        cursor == data.len()
    } else {
        match record_at(data, cursor) {
            Some(r) => if r.value_end < data.len() && cursor < r.next <= data.len() {
                complete_from(data, r.next as int)
            } else {
                false
            },
            None => false,
        }
    }
}

/// A byte found inside `a` is found at the same place when more bytes follow.
pub proof fn lemma_first_from_in_prefix(a: Seq<u8>, b: Seq<u8>, from: int, byte: u8)
    requires
        0 <= from <= a.len(),
        first_from(a, from, byte) < a.len(),
    ensures
        first_from(a + b, from, byte) == first_from(a, from, byte),
{
    lemma_first_from_bounds(a, from, byte);
    let k = first_from(a, from, byte);
    assert forall|j: int| from <= j < k implies (a + b)[j] != byte by {
        assert((a + b)[j] == a[j]);
    }
    assert((a + b)[k] == a[k]);
    lemma_first_from(a + b, from, byte, k);
}

/// Searching after `a` in `a + b` is searching `b`.
pub proof fn lemma_first_from_in_suffix(a: Seq<u8>, b: Seq<u8>, from: int, byte: u8)
    requires
        0 <= from <= b.len(),
    ensures
        first_from(a + b, a.len() + from, byte) == a.len() + first_from(b, from, byte),
{
    lemma_first_from_bounds(b, from, byte);
    let k = first_from(b, from, byte);
    assert forall|j: int| a.len() + from <= j < a.len() + k implies (a + b)[j] != byte by {
        assert((a + b)[j] == b[j - a.len()]);
    }
    if k < b.len() {
        assert((a + b)[a.len() + k] == b[k]);
    }
    lemma_first_from(a + b, a.len() + from, byte, a.len() + k);
}

/// A record of `a` that has its line break is the same record when more
/// bytes follow `a`.
pub proof fn lemma_record_in_prefix(a: Seq<u8>, b: Seq<u8>, cursor: int)
    requires
        0 <= cursor <= a.len(),
        (a + b).len() <= usize::MAX,
        record_at(a, cursor).is_some(),
        record_at(a, cursor).unwrap().value_end < a.len(),
    ensures
        record_at(a + b, cursor) == record_at(a, cursor),
{
    lemma_first_from_bounds(a, cursor, SEPARATOR);
    let sep = first_from(a, cursor, SEPARATOR);
    lemma_first_from_in_prefix(a, b, cursor, SEPARATOR);
    lemma_first_from_bounds(a, sep + 1, NEWLINE);
    lemma_first_from_in_prefix(a, b, sep + 1, NEWLINE);
}

/// The record at a place after `a` in `a + b` is the record of `b` at that
/// place, moved by the length of `a`.
pub proof fn lemma_record_in_suffix(a: Seq<u8>, b: Seq<u8>, cursor: int)
    requires
        0 <= cursor <= b.len(),
        (a + b).len() <= usize::MAX,
    ensures
        record_at(a + b, a.len() + cursor) == match record_at(b, cursor) {
            Some(r) => Some(shifted(r, a.len() as int)),
            None => None,
        },
{
    lemma_first_from_bounds(b, cursor, SEPARATOR);
    lemma_first_from_in_suffix(a, b, cursor, SEPARATOR);
    let sep = first_from(b, cursor, SEPARATOR);
    if sep < b.len() {
        lemma_first_from_bounds(b, sep + 1, NEWLINE);
        lemma_first_from_in_suffix(a, b, sep + 1, NEWLINE);
    }
}

/// Scanning `a + b` from a place after `a` finds the records of `b` from
/// that place, moved by the length of `a`.
pub proof fn lemma_scan_suffix(a: Seq<u8>, b: Seq<u8>, cursor: int)
    requires
        0 <= cursor <= b.len(),
        (a + b).len() <= usize::MAX,
    ensures
        records_from(a + b, a.len() + cursor) == shifted_all(
            records_from(b, cursor),
            a.len() as int,
        ),
    decreases b.len() - cursor,
{
    lemma_record_in_suffix(a, b, cursor);
    lemma_record_in_bounds(b, cursor);
    match record_at(b, cursor) {
        Some(r) => {
            lemma_scan_suffix(a, b, r.next as int);
            assert(records_from(a + b, a.len() + cursor) =~= shifted_all(
                records_from(b, cursor),
                a.len() as int,
            ));
        },
        None => {
            assert(records_from(a + b, a.len() + cursor) =~= shifted_all(
                records_from(b, cursor),
                a.len() as int,
            ));
        },
    }
}

/// Where `a` is whole records from `cursor` on, scanning `a + b` from there
/// finds the records of `a` and then those of `b`, moved by the length of
/// `a`: none is lost, split or found twice.
pub proof fn lemma_scan_joined_from(a: Seq<u8>, b: Seq<u8>, cursor: int)
    requires
        0 <= cursor <= a.len(),
        (a + b).len() <= usize::MAX,
        complete_from(a, cursor),
    ensures
        records_from(a + b, cursor) == records_from(a, cursor) + shifted_all(
            records_from(b, 0),
            a.len() as int,
        ),
    decreases a.len() - cursor,
{
    if cursor == a.len() {
        lemma_scan_suffix(a, b, 0);
        assert(record_at(a, cursor).is_none());
        assert(records_from(a, cursor) + shifted_all(records_from(b, 0), a.len() as int)
            =~= shifted_all(records_from(b, 0), a.len() as int));
    } else {
        let r = record_at(a, cursor).unwrap();
        lemma_record_in_prefix(a, b, cursor);
        lemma_scan_joined_from(a, b, r.next as int);
        assert(records_from(a + b, cursor) =~= records_from(a, cursor) + shifted_all(
            records_from(b, 0),
            a.len() as int,
        ));
    }
}

/// Whole records stay whole records when they follow other bytes.
pub proof fn lemma_complete_suffix(a: Seq<u8>, b: Seq<u8>, cursor: int)
    requires
        0 <= cursor <= b.len(),
        (a + b).len() <= usize::MAX,
        complete_from(b, cursor),
    ensures
        complete_from(a + b, a.len() + cursor),
    decreases b.len() - cursor,
{
    if cursor < b.len() {
        lemma_record_in_suffix(a, b, cursor);
        lemma_record_in_bounds(b, cursor);
        let r = record_at(b, cursor).unwrap();
        lemma_complete_suffix(a, b, r.next as int);
    }
}

/// Whole records followed by whole records are whole records.
pub proof fn lemma_complete_joined(a: Seq<u8>, b: Seq<u8>, cursor: int)
    requires
        0 <= cursor <= a.len(),
        (a + b).len() <= usize::MAX,
        complete_from(a, cursor),
        complete_from(b, 0),
    ensures
        complete_from(a + b, cursor),
    decreases a.len() - cursor,
{
    if cursor == a.len() {
        lemma_complete_suffix(a, b, 0);
    } else {
        let r = record_at(a, cursor).unwrap();
        lemma_record_in_prefix(a, b, cursor);
        lemma_complete_joined(a, b, r.next as int);
    }
}

/// Where `a` and `a + c` are both whole records from `cursor` on, a record
/// of `a + c` starts right after `a`.
pub proof fn lemma_complete_reaches_end(a: Seq<u8>, c: Seq<u8>, cursor: int)
    requires
        0 <= cursor <= a.len(),
        (a + c).len() <= usize::MAX,
        complete_from(a, cursor),
        complete_from(a + c, cursor),
    ensures
        complete_from(a + c, a.len() as int),
    decreases a.len() - cursor,
{
    if cursor < a.len() {
        let r = record_at(a, cursor).unwrap();
        lemma_record_in_prefix(a, c, cursor);
        lemma_complete_reaches_end(a, c, r.next as int);
    }
}

/// Whole records after `a` in `a + c` are whole records of `c`.
pub proof fn lemma_complete_without_front(a: Seq<u8>, c: Seq<u8>, cursor: int)
    requires
        0 <= cursor <= c.len(),
        (a + c).len() <= usize::MAX,
        complete_from(a + c, a.len() + cursor),
    ensures
        complete_from(c, cursor),
    decreases c.len() - cursor,
{
    if cursor < c.len() {
        lemma_record_in_suffix(a, c, cursor);
        lemma_record_in_bounds(c, cursor);
        let r = record_at(c, cursor).unwrap();
        lemma_complete_without_front(a, c, r.next as int);
    }
}

/// Where a stream and its front part are both whole records, so is the
/// rest.
pub proof fn lemma_complete_rest(a: Seq<u8>, c: Seq<u8>)
    requires
        (a + c).len() <= usize::MAX,
        complete_from(a, 0),
        complete_from(a + c, 0),
    ensures
        complete_from(c, 0),
{
    lemma_complete_reaches_end(a, c, 0);
    lemma_complete_without_front(a, c, 0);
}

/// A chunk of whole records followed by more bytes holds the chunk's
/// records and then those of the rest.
pub proof fn lemma_scan_joined(a: Seq<u8>, b: Seq<u8>)
    requires
        (a + b).len() <= usize::MAX,
        complete_from(a, 0),
    ensures
        records_from(a + b, 0) == records_from(a, 0) + shifted_all(
            records_from(b, 0),
            a.len() as int,
        ),
{
    lemma_scan_joined_from(a, b, 0);
}

/// The offset of the first `byte` of `data` at or after `from`, or the length
/// of `data` if there is none.
pub fn find_from(data: &[u8], from: usize, byte: u8) -> (k: usize)
    requires
        from <= data.len(),
    ensures
        k == first_from(data@, from as int, byte),
        from <= k <= data.len(),
{
    let rest = slice_subrange(data, from, data.len());
    let k: usize = match memchr::memchr(byte, rest) {
        Some(i) => from + i,
        None => data.len(),
    };
    proof {
        assert forall|j: int| from <= j < k implies data@[j] != byte by {
            assert(rest@[j - from] == data@[j]);
        }
        if k < data.len() {
            assert(rest@[k - from] == data@[k as int]);
        }
        lemma_first_from(data@, from as int, byte, k as int);
    }
    k
}

/// Finds the record of `data` that starts at `cursor`.
pub fn next_record(data: &[u8], cursor: usize) -> (r: Option<RecordSpan>)
    requires
        cursor <= data.len(),
    ensures
        r == record_at(data@, cursor as int),
{
    let sep = find_from(data, cursor, SEPARATOR);
    if sep >= data.len() {
        return None;
    }
    let end = find_from(data, sep + 1, NEWLINE);
    let next: usize = if end < data.len() {
        end + 1
    } else {
        end
    };
    Some(RecordSpan { name_start: cursor, name_end: sep, value_start: sep + 1, value_end: end, next })
}

/// Finds all the records of `data`, in order.
pub fn scan_records(data: &[u8]) -> (spans: Vec<RecordSpan>)
    ensures
        spans@ == records_from(data@, 0),
        forall|i: int| 0 <= i < spans@.len() ==> within(#[trigger] spans@[i], data@.len() as int),
{
    let mut spans: Vec<RecordSpan> = Vec::new();
    let mut cursor: usize = 0;
    loop
        invariant
            cursor <= data.len(),
            spans@ + records_from(data@, cursor as int) == records_from(data@, 0),
            forall|i: int|
                0 <= i < spans@.len() ==> within(#[trigger] spans@[i], data@.len() as int),
        decreases data.len() - cursor,
    {
        proof {
            lemma_record_in_bounds(data@, cursor as int);
        }
        match next_record(data, cursor) {
            None => {
                proof {
                    assert(spans@ + Seq::<RecordSpan>::empty() =~= spans@);
                }
                return spans;
            },
            Some(r) => {
                let ghost before = spans@;
                spans.push(r);
                proof {
                    assert(before + (seq![r] + records_from(data@, r.next as int)) =~= before.push(
                        r,
                    ) + records_from(data@, r.next as int));
                }
                cursor = r.next;
            },
        }
    }
}

/// The name of the record `r` of `data`.
pub fn record_name<'a>(data: &'a [u8], r: &RecordSpan) -> (name: &'a [u8])
    requires
        r.name_start <= r.name_end <= data.len(),
    ensures
        name@ == name_of(data@, *r),
{
    slice_subrange(data, r.name_start, r.name_end)
}

/// The text of the measurement of the record `r` of `data`.
pub fn record_value<'a>(data: &'a [u8], r: &RecordSpan) -> (text: &'a [u8])
    requires
        r.value_start <= r.value_end <= data.len(),
    ensures
        text@ == data@.subrange(r.value_start as int, r.value_end as int),
{
    slice_subrange(data, r.value_start, r.value_end)
}

} // verus!
