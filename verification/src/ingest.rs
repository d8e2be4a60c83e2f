//! Counting the records of a chunk into a station table.

use vstd::prelude::*;
use crate::dispatch::{
    block_end, carried, chunks_from, concat, flushed, lemma_chunks_reproduce_stream,
    lemma_concat_push, lemma_some_last_newline, lemma_step_keeps_bytes, released, stream_chunks,
    with_chunk,
};
use crate::lines::{is_last_newline, NEWLINE};
use crate::records::{
    complete_from, lemma_complete_joined, lemma_complete_rest, lemma_records_within, lemma_scan_joined, name_of, record_name, records_from,
    scan_records, shifted, shifted_all, within, RecordSpan,
};
use crate::table::{lemma_slot_known, lemma_tally_bounded, slot_of, StationTable, TableError};

verus! {

/// How many of the first `upto` records of `spans` bear `name`.
pub open spec fn occurrences(data: Seq<u8>, spans: Seq<RecordSpan>, upto: int, name: Seq<u8>) -> nat
    decreases upto,
{
    if upto <= 0 {
        0
    } else {
        occurrences(data, spans, upto - 1, name) + (if name_of(data, spans[upto - 1]) == name {
            1nat
        } else {
            0nat
        })
    }
}

/// How many records of the chunk `data` bear `name`.
pub open spec fn records_named(data: Seq<u8>, name: Seq<u8>) -> nat {
    occurrences(data, records_from(data, 0), records_from(data, 0).len() as int, name)
}

/// Counting further records never lowers a count.
pub proof fn lemma_occurrences_grow(
    data: Seq<u8>,
    spans: Seq<RecordSpan>,
    few: int,
    many: int,
    name: Seq<u8>,
)
    requires
        few <= many,
    ensures
        occurrences(data, spans, few, name) <= occurrences(data, spans, many, name),
    decreases many - few,
{
    if few < many {
        lemma_occurrences_grow(data, spans, few, many - 1, name);
    }
}

/// Records inside `a` bear the same names when more bytes follow `a`.
proof fn lemma_occurrences_in_prefix(
    a: Seq<u8>,
    b: Seq<u8>,
    ra: Seq<RecordSpan>,
    rest: Seq<RecordSpan>,
    upto: int,
    name: Seq<u8>,
)
    requires
        0 <= upto <= ra.len(),
        forall|i: int| 0 <= i < ra.len() ==> within(#[trigger] ra[i], a.len() as int),
    ensures
        occurrences(a + b, ra + rest, upto, name) == occurrences(a, ra, upto, name),
    decreases upto,
{
    if upto > 0 {
        lemma_occurrences_in_prefix(a, b, ra, rest, upto - 1, name);
        let r = ra[upto - 1];
        assert((ra + rest)[upto - 1] == r);
        assert(within(r, a.len() as int));
        assert(name_of(a + b, r) =~= name_of(a, r));
    }
}

/// Records of `b` bear the same names when they are found after `a`.
proof fn lemma_occurrences_in_suffix(
    a: Seq<u8>,
    b: Seq<u8>,
    ra: Seq<RecordSpan>,
    rb: Seq<RecordSpan>,
    upto: int,
    name: Seq<u8>,
)
    requires
        0 <= upto <= rb.len(),
        (a + b).len() <= usize::MAX,
        forall|i: int| 0 <= i < ra.len() ==> within(#[trigger] ra[i], a.len() as int),
        forall|i: int| 0 <= i < rb.len() ==> within(#[trigger] rb[i], b.len() as int),
    ensures
        occurrences(a + b, ra + shifted_all(rb, a.len() as int), ra.len() + upto, name)
            == occurrences(a, ra, ra.len() as int, name) + occurrences(b, rb, upto, name),
    decreases upto,
{
    let all = ra + shifted_all(rb, a.len() as int);
    if upto > 0 {
        lemma_occurrences_in_suffix(a, b, ra, rb, upto - 1, name);
        let r = rb[upto - 1];
        assert(within(r, b.len() as int));
        assert(all[ra.len() + upto - 1] == shifted(r, a.len() as int));
        assert(name_of(a + b, shifted(r, a.len() as int)) =~= name_of(b, r));
    } else {
        lemma_occurrences_in_prefix(a, b, ra, shifted_all(rb, a.len() as int), ra.len() as int, name);
    }
}

/// Cutting a stream after a whole record changes no count: a chunk of whole
/// records and what follows it hold, for every station, as many records
/// apart as together.
pub proof fn lemma_cut_keeps_counts(a: Seq<u8>, b: Seq<u8>, name: Seq<u8>)
    requires
        (a + b).len() <= usize::MAX,
        complete_from(a, 0),
    ensures
        records_named(a + b, name) == records_named(a, name) + records_named(b, name),
{
    lemma_scan_joined(a, b);
    lemma_records_within(a, 0);
    lemma_records_within(b, 0);
    let ra = records_from(a, 0);
    let rb = records_from(b, 0);
    lemma_occurrences_in_suffix(a, b, ra, rb, rb.len() as int, name);
}

/// How many records of all of `chunks`, each scanned by itself, bear `name`.
pub open spec fn chunks_named(chunks: Seq<Seq<u8>>, name: Seq<u8>) -> nat
    decreases chunks.len(),
{
    if chunks.len() == 0 {
        0
    } else {
        chunks_named(chunks.drop_last(), name) + records_named(chunks.last(), name)
    }
}

/// Two lots of chunks hold together what they hold apart.
pub proof fn lemma_chunks_named_split(front: Seq<Seq<u8>>, back: Seq<Seq<u8>>, name: Seq<u8>)
    ensures
        chunks_named(front + back, name) == chunks_named(front, name) + chunks_named(back, name),
    decreases back.len(),
{
    if back.len() == 0 {
        assert(front + back =~= front);
    } else {
        lemma_chunks_named_split(front, back.drop_last(), name);
        assert((front + back).drop_last() =~= front + back.drop_last());
        assert((front + back).last() == back.last());
    }
}

/// Leaving out one chunk lowers the count by what that chunk holds.
pub proof fn lemma_chunks_named_without(chunks: Seq<Seq<u8>>, i: int, name: Seq<u8>)
    requires
        0 <= i < chunks.len(),
    ensures
        chunks_named(chunks, name) == chunks_named(chunks.remove(i), name) + records_named(
            chunks[i],
            name,
        ),
    decreases chunks.len(),
{
    if i == chunks.len() - 1 {
        assert(chunks.remove(i) =~= chunks.drop_last());
    } else {
        lemma_chunks_named_without(chunks.drop_last(), i, name);
        assert(chunks.remove(i).drop_last() =~= chunks.drop_last().remove(i));
        assert(chunks.remove(i).last() == chunks.last());
    }
}

/// The same chunks in any order hold the same number of records for every
/// station: it does not matter which chunk is scanned first.
pub proof fn lemma_chunks_named_any_order(a: Seq<Seq<u8>>, b: Seq<Seq<u8>>, name: Seq<u8>)
    requires
        a.to_multiset() == b.to_multiset(),
    ensures
        chunks_named(a, name) == chunks_named(b, name),
    decreases a.len(),
{
    a.to_multiset_ensures();
    b.to_multiset_ensures();
    if a.len() == 0 {
        assert(b.len() == 0);
    } else {
        let x = a.last();
        assert(a[a.len() - 1] == x);
        assert(a.contains(x));
        assert(a.to_multiset().count(x) > 0);
        assert(b.to_multiset().count(x) > 0);
        assert(b.contains(x));
        let i = choose|i: int| 0 <= i < b.len() && b[i] == x;
        assert(a.remove(a.len() - 1) =~= a.drop_last());
        assert(a.drop_last().to_multiset() =~= b.remove(i).to_multiset());
        lemma_chunks_named_any_order(a.drop_last(), b.remove(i), name);
        lemma_chunks_named_without(b, i, name);
    }
}

/// Chunks of whole records, put end to end, are whole records.
pub proof fn lemma_whole_chunks_join(chunks: Seq<Seq<u8>>)
    requires
        concat(chunks).len() <= usize::MAX,
        forall|i: int| 0 <= i < chunks.len() ==> complete_from(#[trigger] chunks[i], 0),
    ensures
        complete_from(concat(chunks), 0),
    decreases chunks.len(),
{
    if chunks.len() > 0 {
        lemma_whole_chunks_join(chunks.drop_last());
        lemma_complete_joined(concat(chunks.drop_last()), chunks.last(), 0);
    }
}

/// Scanning a stream chunk by chunk finds, for every station, as many
/// records as scanning it in one piece, provided that every chunk but the
/// last is whole records. So the counts do not depend on where the stream
/// was cut, nor on how many workers shared the chunks.
pub proof fn lemma_chunks_keep_counts(chunks: Seq<Seq<u8>>, name: Seq<u8>)
    requires
        concat(chunks).len() <= usize::MAX,
        forall|i: int| 0 <= i < chunks.len() - 1 ==> complete_from(#[trigger] chunks[i], 0),
    ensures
        records_named(concat(chunks), name) == chunks_named(chunks, name),
    decreases chunks.len(),
{
    if chunks.len() == 0 {
        assert(records_from(concat(chunks), 0) =~= Seq::<RecordSpan>::empty());
    } else {
        let front = chunks.drop_last();
        lemma_chunks_keep_counts(front, name);
        lemma_whole_chunks_join(front);
        lemma_cut_keeps_counts(concat(front), chunks.last(), name);
    }
}

/// Every part of `input` from its start to one of its line breaks is whole
/// records: each line holds a name, a separator and a measurement.
pub open spec fn well_formed(input: Seq<u8>) -> bool {
    forall|k: int|
        0 <= k < input.len() && input[k] == NEWLINE ==> complete_from(
            #[trigger] input.subrange(0, k + 1),
            0,
        )
}

/// Reading a well-formed stream on from `pos` releases whole records only,
/// but for the last chunk, which may lack its line break.
pub proof fn lemma_chunks_from_whole(
    input: Seq<u8>,
    block_size: int,
    pos: int,
    pending: Seq<u8>,
    acc: Seq<Seq<u8>>,
)
    requires
        block_size > 0,
        0 <= pos <= input.len(),
        input.len() <= usize::MAX,
        well_formed(input),
        concat(acc) + pending == input.subrange(0, pos),
        forall|i: int| 0 <= i < acc.len() ==> complete_from(#[trigger] acc[i], 0),
    ensures
        forall|i: int|
            0 <= i < chunks_from(input, block_size, pos, pending, acc).len() - 1 ==> complete_from(
                #[trigger] chunks_from(input, block_size, pos, pending, acc)[i],
                0,
            ),
    decreases input.len() - pos,
{
    if pos < input.len() {
        let end = block_end(input, block_size, pos);
        let block = input.subrange(pos, end);
        let next = with_chunk(acc, released(pending, block));
        lemma_step_keeps_bytes(pending, block);
        assert(input.subrange(0, pos) + block =~= input.subrange(0, end));
        assert(concat(acc) + (pending + block) =~= (concat(acc) + pending) + block);
        match released(pending, block) {
            Some(c) => {
                lemma_some_last_newline(block, block.len() as int);
                let k = choose|k: int| is_last_newline(block, k);
                lemma_concat_push(acc, c);
                assert(concat(next) + carried(pending, block) =~= concat(acc) + (c + carried(
                    pending,
                    block,
                )));
                assert(input[pos + k] == block[k]);
                assert(concat(acc) + c =~= input.subrange(0, pos + k + 1));
                assert(complete_from(input.subrange(0, pos + k + 1), 0));
                assert(concat(acc).len() <= input.len());
                lemma_whole_chunks_join(acc);
                lemma_complete_rest(concat(acc), c);
            },
            None => {},
        }
        lemma_chunks_from_whole(input, block_size, end, carried(pending, block), next);
        assert(chunks_from(input, block_size, pos, pending, acc) == chunks_from(
            input,
            block_size,
            end,
            carried(pending, block),
            next,
        ));
    } else {
        let last = chunks_from(input, block_size, pos, pending, acc);
        assert(last == with_chunk(acc, flushed(pending)));
        assert forall|i: int| 0 <= i < last.len() - 1 implies complete_from(
            #[trigger] last[i],
            0,
        ) by {
            assert(last[i] == acc[i]);
        }
    }
}

/// The chunks of a well-formed stream hold, for every station, as many
/// records as the stream, whatever the block size.
pub proof fn lemma_stream_chunks_keep_counts(input: Seq<u8>, block_size: int, name: Seq<u8>)
    requires
        block_size > 0,
        input.len() <= usize::MAX,
        well_formed(input),
    ensures
        chunks_named(stream_chunks(input, block_size), name) == records_named(input, name),
{
    let none = Seq::<Seq<u8>>::empty();
    assert(concat(none) + Seq::<u8>::empty() =~= input.subrange(0, 0));
    lemma_chunks_from_whole(input, block_size, 0, Seq::<u8>::empty(), none);
    lemma_chunks_reproduce_stream(input, block_size);
    lemma_chunks_keep_counts(stream_chunks(input, block_size), name);
}

/// One record of a chunk, as the table placed it.
#[derive(Clone, Copy, Debug, PartialEq, Eq, Structural)]
pub struct Observation {
    /// The slot of the record's station.
    pub slot: usize,
    /// Whether this record is the first of its station.
    pub fresh: bool,
    /// The first byte of the measurement's text in the chunk.
    pub value_start: usize,
    /// One past the last byte of the measurement's text.
    pub value_end: usize,
}

/// `o` is what record number `i` of `spans` gives in a table that began with
/// `before` and now holds `names`: the station's slot, whether no record of
/// the station came before, and where the measurement's text lies.
pub open spec fn observes(
    o: Observation,
    data: Seq<u8>,
    spans: Seq<RecordSpan>,
    i: int,
    before: StationTable,
    names: Seq<Seq<u8>>,
) -> bool {
    let name = name_of(data, spans[i]);
    &&& slot_of(names, name) == Some(o.slot as int)
    &&& o.fresh == (before.tally(name) == 0 && occurrences(data, spans, i, name) == 0)
    &&& o.value_start == spans[i].value_start
    &&& o.value_end == spans[i].value_end
}

/// `after` is `before` with the first `j` records of `spans` counted, and
/// the station of record number `j` has as many records as the counter
/// holds.
pub open spec fn stopped_at(
    before: StationTable,
    after: StationTable,
    data: Seq<u8>,
    spans: Seq<RecordSpan>,
    j: int,
) -> bool {
    &&& forall|name: Seq<u8>| #[trigger]
        after.tally(name) == before.tally(name) + occurrences(data, spans, j, name)
    &&& after.tally(name_of(data, spans[j])) == u32::MAX
}

/// Counts every record of the chunk `data` into `table`, in order, and says
/// for each where it went. Stations that the table had keep their slots.
/// The call fails where some station would have more records than the
/// counter holds; the table has then counted the records before the one
/// that did not fit.
pub fn process_chunk(data: &[u8], table: &mut StationTable) -> (r: Result<
    Vec<Observation>,
    TableError,
>)
    requires
        old(table).wf(),
    ensures
        final(table).wf(),
        old(table).names().is_prefix_of(final(table).names()),
        r.is_ok() <==> forall|name: Seq<u8>| #[trigger]
            old(table).tally(name) + records_named(data@, name) <= u32::MAX,
        match r {
            Ok(seen) => {
                &&& seen@.len() == records_from(data@, 0).len()
                &&& forall|name: Seq<u8>| #[trigger]
                    final(table).tally(name) == old(table).tally(name) + records_named(
                        data@,
                        name,
                    )
                &&& forall|i: int|
                    0 <= i < seen@.len() ==> observes(
                        #[trigger] seen@[i],
                        data@,
                        records_from(data@, 0),
                        i,
                        *old(table),
                        final(table).names(),
                    )
                &&& forall|i: int, k: int|
                    0 <= i < k < seen@.len() && seen@[k].fresh ==> seen@[i].slot < seen@[k].slot
            },
            Err(e) => {
                &&& e == TableError::CountOverflow
                &&& exists|j: int|
                    0 <= j < records_from(data@, 0).len() && stopped_at(
                        *old(table),
                        *final(table),
                        data@,
                        records_from(data@, 0),
                        j,
                    )
            },
        },
{
    let spans = scan_records(data);
    let mut seen: Vec<Observation> = Vec::new();
    let mut j: usize = 0;
    while j < spans.len()
        invariant
            j <= spans@.len(),
            spans@ == records_from(data@, 0),
            forall|i: int| 0 <= i < spans@.len() ==> within(
                #[trigger] spans@[i],
                data@.len() as int,
            ),
            table.wf(),
            old(table).wf(),
            old(table).names().is_prefix_of(table.names()),
            seen@.len() == j,
            forall|name: Seq<u8>| #[trigger]
                table.tally(name) == old(table).tally(name) + occurrences(
                    data@,
                    spans@,
                    j as int,
                    name,
                ),
            forall|i: int|
                0 <= i < j ==> observes(
                    #[trigger] seen@[i],
                    data@,
                    spans@,
                    i,
                    *old(table),
                    table.names(),
                ),
            forall|i: int| 0 <= i < j ==> seen@[i].slot < table.names().len(),
            forall|i: int, k: int| 0 <= i < k < j && seen@[k].fresh ==> seen@[i].slot < seen@[k].slot,
        decreases spans@.len() - j,
    {
        let span = spans[j];
        let ghost before = *table;
        let ghost name = name_of(data@, span);
        assert(within(spans@[j as int], data@.len() as int));
        match table.add(record_name(data, &span), 1) {
            Ok(p) => {
                seen.push(
                    Observation {
                        slot: p.slot,
                        fresh: p.fresh,
                        value_start: span.value_start,
                        value_end: span.value_end,
                    },
                );
                proof {
                    match slot_of(before.names(), name) {
                        Some(i) => {
                            assert(before.names()[i] == name);
                        },
                        None => {
                            assert(before.names().push(name)[p.slot as int] == name);
                        },
                    }
                    lemma_slot_known(table.names(), name, p.slot as int);
                    assert(before.tally(name) == old(table).tally(name) + occurrences(
                        data@,
                        spans@,
                        j as int,
                        name,
                    ));
                    assert forall|i: int| 0 <= i < j + 1 implies observes(
                        #[trigger] seen@[i],
                        data@,
                        spans@,
                        i,
                        *old(table),
                        table.names(),
                    ) by {
                        if i < j {
                            let s = seen@[i].slot as int;
                            let n = name_of(data@, spans@[i]);
                            assert(slot_of(before.names(), n) == Some(s));
                            assert(before.names()[s] == n);
                            lemma_slot_known(table.names(), n, s);
                        }
                    }
                    assert forall|k: Seq<u8>| #[trigger]
                        table.tally(k) == old(table).tally(k) + occurrences(
                            data@,
                            spans@,
                            j + 1,
                            k,
                        ) by {
                        assert(table.tally(k) == before.tally(k) + (if k == name {
                            1nat
                        } else {
                            0nat
                        }));
                    }
                }
            },
            Err(e) => {
                proof {
                    lemma_occurrences_grow(data@, spans@, j + 1, spans@.len() as int, name);
                    assert(before.tally(name) == old(table).tally(name) + occurrences(
                        data@,
                        spans@,
                        j as int,
                        name,
                    ));
                    assert(old(table).tally(name) + records_named(data@, name) > u32::MAX);
                    lemma_tally_bounded(before, name);
                    assert(table.names() == before.names());
                    assert(table.counts() == before.counts());
                    assert(name == name_of(data@, spans@[j as int]));
                    assert(table.tally(name) == u32::MAX);
                    assert forall|k: Seq<u8>| #[trigger]
                        table.tally(k) == old(table).tally(k) + occurrences(
                            data@,
                            spans@,
                            j as int,
                            k,
                        ) by {
                        assert(table.tally(k) == before.tally(k));
                    }
                    assert(stopped_at(*old(table), *table, data@, spans@, j as int));
                }
                return Err(e);
            },
        }
        j = j + 1;
    }
    proof {
        assert forall|name: Seq<u8>| #[trigger]
            old(table).tally(name) + records_named(data@, name) <= u32::MAX by {
            assert(table.tally(name) == old(table).tally(name) + records_named(data@, name));
        }
    }
    Ok(seen)
}

} // verus!
