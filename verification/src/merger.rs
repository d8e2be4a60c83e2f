//! Combining the tables of several workers into one.
//!
//! The count of a station in the combined table is the sum of its counts in
//! the parts, so the order in which the parts arrive does not matter.

use vstd::prelude::*;
use crate::table::{lemma_slot_known, slot_of, StationTable, TableError};

verus! {

/// The number of records counted for `name` in all of `parts` together.
pub open spec fn total_tally(parts: Seq<StationTable>, name: Seq<u8>) -> nat
    decreases parts.len(),
{
    if parts.len() == 0 {
        0
    } else {
        total_tally(parts.drop_last(), name) + parts.last().tally(name)
    }
}

/// The total over the first parts is no more than the total over all.
pub proof fn lemma_total_grows(parts: Seq<StationTable>, upto: int, name: Seq<u8>)
    requires
        0 <= upto <= parts.len(),
    ensures
        total_tally(parts.take(upto), name) <= total_tally(parts, name),
    decreases parts.len() - upto,
{
    if upto < parts.len() {
        lemma_total_grows(parts.drop_last(), upto, name);
        assert(parts.drop_last().take(upto) =~= parts.take(upto));
    } else {
        assert(parts.take(upto) =~= parts);
    }
}

/// Leaving out one part lowers the total by that part's count.
pub proof fn lemma_total_without(parts: Seq<StationTable>, i: int, name: Seq<u8>)
    requires
        0 <= i < parts.len(),
    ensures
        total_tally(parts, name) == total_tally(parts.remove(i), name) + parts[i].tally(name),
    decreases parts.len(),
{
    if i == parts.len() - 1 {
        assert(parts.remove(i) =~= parts.drop_last());
    } else {
        lemma_total_without(parts.drop_last(), i, name);
        assert(parts.remove(i).drop_last() =~= parts.drop_last().remove(i));
        assert(parts.remove(i).last() == parts.last());
    }
}

/// The same parts in any order give the same total for every station.
pub proof fn lemma_total_any_order(a: Seq<StationTable>, b: Seq<StationTable>, name: Seq<u8>)
    requires
        a.to_multiset() == b.to_multiset(),
    ensures
        total_tally(a, name) == total_tally(b, name),
    decreases a.len(),
{
    a.to_multiset_ensures();
    b.to_multiset_ensures();
    if a.len() == 0 {
        assert(b.len() == 0);
    } else {
        let x = a.last();
        assert(a[a.len() - 1] == x);
        assert(a.contains(x));
        assert(a.to_multiset().count(x) > 0);
        assert(b.to_multiset().count(x) > 0);
        assert(b.contains(x));
        let i = choose|i: int| 0 <= i < b.len() && b[i] == x;
        assert(a.remove(a.len() - 1) =~= a.drop_last());
        assert(a.drop_last().to_multiset() =~= b.remove(i).to_multiset());
        lemma_total_any_order(a.drop_last(), b.remove(i), name);
        lemma_total_without(b, i, name);
    }
}

/// The table of all parts together and, for each part, the slot in that
/// table of each of the part's slots.
pub struct Merged {
    /// The stations of all parts, each with the sum of its counts.
    pub table: StationTable,
    /// For part `p` and its slot `j`, `slots[p][j]` is the station's slot in
    /// `table`.
    pub slots: Vec<Vec<usize>>,
}

/// `slots` gives, for every slot of `part`, the slot of the same station
/// among `names`.
pub open spec fn maps_slots(slots: Seq<usize>, part: StationTable, names: Seq<Seq<u8>>) -> bool {
    &&& slots.len() == part.names().len()
    &&& forall|j: int|
        0 <= j < slots.len() ==> slot_of(names, #[trigger] part.names()[j]) == Some(
            slots[j] as int,
        )
}

/// No part before number `q` has counted a record for `name`.
pub open spec fn unseen_before(parts: Seq<StationTable>, q: int, name: Seq<u8>) -> bool {
    forall|p: int| 0 <= p < q ==> (#[trigger] parts[p]).tally(name) == 0
}

/// A station that no part before number `q` has seen has no record in all
/// of them together.
pub proof fn lemma_unseen_total(parts: Seq<StationTable>, q: int, name: Seq<u8>)
    requires
        0 <= q <= parts.len(),
        unseen_before(parts, q, name),
    ensures
        total_tally(parts.take(q), name) == 0,
    decreases q,
{
    if q > 0 {
        lemma_unseen_total(parts, q - 1, name);
        assert(parts.take(q).drop_last() =~= parts.take(q - 1));
        assert(parts.take(q).last() == parts[q - 1]);
    }
}

/// Stations get their slots in the order in which they first appear: a
/// station that first appears as number `t` of part `q` has a larger slot
/// than every station that stands before it, in an earlier part or earlier
/// in the same part.
pub open spec fn slots_in_order_seen(slots: Seq<Vec<usize>>, parts: Seq<StationTable>) -> bool {
    forall|p: int, s: int, q: int, t: int|
        0 <= p <= q < slots.len() && 0 <= s < slots[p]@.len() && 0 <= t < slots[q]@.len() && (p < q
            || s < t) && unseen_before(parts, q, parts[q].names()[t]) ==> #[trigger] slots[p]@[s]
            < #[trigger] slots[q]@[t]
}

/// Combines `parts` into one table, the first part first. The call fails
/// where some station has more records in all parts together than the
/// counter holds.
pub fn merge_all(parts: &Vec<StationTable>) -> (r: Result<Merged, TableError>)
    requires
        forall|p: int| 0 <= p < parts@.len() ==> (#[trigger] parts@[p]).wf(),
    ensures
        r.is_ok() <==> forall|name: Seq<u8>| #[trigger] total_tally(parts@, name) <= u32::MAX,
        match r {
            Ok(m) => {
                &&& m.table.wf()
                &&& forall|name: Seq<u8>| #[trigger]
                    m.table.tally(name) == total_tally(parts@, name)
                &&& m.slots@.len() == parts@.len()
                &&& forall|p: int|
                    0 <= p < parts@.len() ==> maps_slots(
                        (#[trigger] m.slots@[p])@,
                        parts@[p],
                        m.table.names(),
                    )
                &&& slots_in_order_seen(m.slots@, parts@)
            },
            Err(e) => e == TableError::CountOverflow,
        },
{
    let mut table = StationTable::new();
    let mut slots: Vec<Vec<usize>> = Vec::new();
    let mut p: usize = 0;
    proof {
        assert(parts@.take(0) =~= Seq::<StationTable>::empty());
    }
    while p < parts.len()
        invariant
            p <= parts@.len(),
            forall|q: int| 0 <= q < parts@.len() ==> (#[trigger] parts@[q]).wf(),
            table.wf(),
            forall|name: Seq<u8>| #[trigger]
                table.tally(name) == total_tally(parts@.take(p as int), name),
            slots@.len() == p,
            forall|q: int|
                0 <= q < p ==> maps_slots((#[trigger] slots@[q])@, parts@[q], table.names()),
            forall|q: int, t: int|
                0 <= q < p && 0 <= t < slots@[q]@.len() ==> #[trigger] slots@[q]@[t]
                    < table.names().len(),
            slots_in_order_seen(slots@, parts@),
        decreases parts@.len() - p,
    {
        let ghost before = table;
        proof {
            assert(parts@.take(p + 1).drop_last() =~= parts@.take(p as int));
            assert(parts@.take(p + 1).last() == parts@[p as int]);
        }
        match table.merge(&parts[p]) {
            Ok(placed) => {
                let ghost earlier = slots@;
                slots.push(placed);
                proof {
                    assert forall|t: int| 0 <= t < placed@.len() implies placed@[t]
                        < table.names().len() && (unseen_before(
                        parts@,
                        p as int,
                        parts@[p as int].names()[t],
                    ) ==> placed@[t] >= before.names().len()) by {
                        let n = parts@[p as int].names()[t];
                        assert(slot_of(table.names(), n) == Some(placed@[t] as int));
                        assert(table.names()[placed@[t] as int] == n);
                        if unseen_before(parts@, p as int, n) {
                            lemma_unseen_total(parts@, p as int, n);
                            assert(before.tally(n) == 0);
                            if placed@[t] < before.names().len() {
                                assert(before.names()[placed@[t] as int] == n);
                                lemma_slot_known(before.names(), n, placed@[t] as int);
                                assert(before.counts()[placed@[t] as int] >= 1);
                                assert(false);
                            }
                        }
                    }
                    assert forall|q: int, t: int|
                        0 <= q < p + 1 && 0 <= t < slots@[q]@.len() implies #[trigger] slots@[q]@[t]
                        < table.names().len() by {
                        if q < p {
                            assert(slots@[q] == earlier[q]);
                            assert(earlier[q]@[t] < before.names().len());
                        }
                    }
                    assert forall|a: int, s: int, q: int, t: int|
                        0 <= a <= q < slots@.len() && 0 <= s < slots@[a]@.len() && 0 <= t
                            < slots@[q]@.len() && (a < q || s < t) && unseen_before(
                            parts@,
                            q,
                            parts@[q].names()[t],
                        ) implies #[trigger] slots@[a]@[s] < #[trigger] slots@[q]@[t] by {
                        if q < p {
                            assert(slots@[a] == earlier[a]);
                            assert(slots@[q] == earlier[q]);
                        } else if a < p {
                            assert(slots@[a] == earlier[a]);
                            assert(earlier[a]@[s] < before.names().len());
                        }
                    }
                    assert forall|q: int| 0 <= q < p + 1 implies maps_slots(
                        (#[trigger] slots@[q])@,
                        parts@[q],
                        table.names(),
                    ) by {
                        if q < p {
                            assert(maps_slots(slots@[q]@, parts@[q], before.names()));
                            assert forall|j: int| 0 <= j < slots@[q]@.len() implies slot_of(
                                table.names(),
                                #[trigger] parts@[q].names()[j],
                            ) == Some(slots@[q]@[j] as int) by {
                                let s = slots@[q]@[j] as int;
                                let n = parts@[q].names()[j];
                                assert(slot_of(before.names(), n) == Some(s));
                                assert(before.names()[s] == n);
                                assert(table.names()[s] == n);
                                lemma_slot_known(table.names(), n, s);
                            }
                        }
                    }
                    assert forall|name: Seq<u8>| #[trigger]
                        table.tally(name) == total_tally(parts@.take(p + 1), name) by {
                        assert(table.tally(name) == before.tally(name) + parts@[p as int].tally(
                            name,
                        ));
                    }
                }
            },
            Err(e) => {
                proof {
                    let name = choose|name: Seq<u8>|
                        !(#[trigger] before.tally(name) + parts@[p as int].tally(name)
                            <= u32::MAX);
                    assert(before.tally(name) == total_tally(parts@.take(p as int), name));
                    lemma_total_grows(parts@, p + 1, name);
                    assert(total_tally(parts@, name) > u32::MAX);
                }
                return Err(e);
            },
        }
        p = p + 1;
    }
    proof {
        assert(parts@.take(p as int) =~= parts@);
        assert forall|name: Seq<u8>| #[trigger] total_tally(parts@, name) <= u32::MAX by {
            assert(table.tally(name) == total_tally(parts@, name));
            crate::table::lemma_tally_bounded(table, name);
        }
    }
    Ok(Merged { table, slots })
}

} // verus!
