//! The stations seen so far, each with a slot and the number of its records.
//!
//! A [`StationTable`] gives every distinct name a slot, numbered in the order
//! in which the names first arrive, and counts the records of each name. A
//! caller keeps whatever else it gathers per station in a vector of its own,
//! indexed by slot.

use vstd::prelude::*;
use vstd::slice::slice_to_vec;
use rustc_hash::FxHashMap;
use crate::order::{
    compare_names, lemma_precedes_asymmetric, lemma_precedes_total, lemma_precedes_transitive,
    precedes, NameOrder,
};

verus! {

/// `rustc_hash::FxBuildHasher`, the hasher of the table's index. It is only
/// named here; nothing is claimed of it.
#[verifier::external_type_specification]
#[verifier::external_body]
pub struct ExFxBuildHasher(rustc_hash::FxBuildHasher);

/// The index of a table: a hash map of `rustc_hash` from each name to its
/// slot.
pub type NameIndex = FxHashMap<Box<[u8]>, usize>;

/// What an index holds: the slot stored under each name, a name being taken
/// as its bytes.
pub uninterp spec fn index_entries(index: NameIndex) -> Map<Seq<u8>, usize>;

/// An index that holds nothing.
pub open spec fn no_entries() -> Map<Seq<u8>, usize> {
    Map::empty()
}

/// Calls `FxHashMap::default`. Assumed, not proved: the map it makes holds
/// nothing.
#[verifier::external_body]
fn index_new() -> (made: NameIndex)
    ensures
        index_entries(made) == no_entries(),
{
    FxHashMap::default()
}

/// Calls `HashMap::get` on the index. Assumed, not proved: it returns the
/// slot stored under the key whose bytes are those of `name`, and `None`
/// where the map holds no such key. Boxed byte strings are equal, and hash
/// alike, exactly when their bytes are the same.
#[verifier::external_body]
fn index_get(index: &NameIndex, name: &[u8]) -> (slot: Option<usize>)
    ensures
        slot == (if index_entries(*index).contains_key(name@) {
            Some(index_entries(*index)[name@])
        } else {
            None
        }),
{
    index.get(name).copied()
}

/// Calls `HashMap::insert` on the index with a boxed copy of `name`.
/// Assumed, not proved: afterwards `slot` is stored under `name`, in place of
/// what was stored under it before, and every other key is as it was.
#[verifier::external_body]
fn index_insert(index: &mut NameIndex, name: &[u8], slot: usize)
    ensures
        index_entries(*final(index)) == index_entries(*old(index)).insert(name@, slot),
{
    index.insert(name.into(), slot);
}

/// The slot of `name` among `names`, if it is one of them.
pub open spec fn slot_of(names: Seq<Seq<u8>>, name: Seq<u8>) -> Option<int> {
    if exists|i: int| 0 <= i < names.len() && names[i] == name {
        Some(choose|i: int| 0 <= i < names.len() && names[i] == name)
    } else {
        None
    }
}

/// No name occurs twice in `names`.
pub open spec fn distinct(names: Seq<Seq<u8>>) -> bool {
    forall|i: int, j: int| 0 <= i < j < names.len() ==> names[i] != names[j]
}

/// The number of records counted for `name`: nothing if it has no slot.
pub open spec fn count_in(names: Seq<Seq<u8>>, counts: Seq<u32>, name: Seq<u8>) -> nat {
    match slot_of(names, name) {
        Some(i) => counts[i] as nat,
        None => 0,
    }
}

/// Among distinct names, a name found in a slot has that slot and no other.
pub proof fn lemma_slot_known(names: Seq<Seq<u8>>, name: Seq<u8>, i: int)
    requires
        distinct(names),
        0 <= i < names.len(),
        names[i] == name,
    ensures
        slot_of(names, name) == Some(i),
{
}

/// A station that `now` holds without having counted any record for it since
/// `before` has its slot from `before`.
pub proof fn lemma_seen_before(before: StationTable, now: StationTable, name: Seq<u8>)
    requires
        before.wf(),
        now.wf(),
        before.names().is_prefix_of(now.names()),
        now.tally(name) == before.tally(name),
        slot_of(now.names(), name).is_some(),
    ensures
        slot_of(before.names(), name) == slot_of(now.names(), name),
        slot_of(now.names(), name).unwrap() < before.names().len(),
{
    let i = slot_of(now.names(), name).unwrap();
    assert(now.counts()[i] >= 1);
    let h = slot_of(before.names(), name).unwrap();
    assert(before.names()[h] == name);
    assert(now.names()[h] == name);
    lemma_slot_known(now.names(), name, h);
}

/// No station has more records than the counter holds.
pub proof fn lemma_tally_bounded(table: StationTable, name: Seq<u8>)
    ensures
        table.tally(name) <= u32::MAX,
{
}

/// The number of records counted for `name` in the slots before `upto`.
pub open spec fn count_before(
    names: Seq<Seq<u8>>,
    counts: Seq<u32>,
    upto: int,
    name: Seq<u8>,
) -> nat {
    match slot_of(names, name) {
        Some(i) => if i < upto {
            counts[i] as nat
        } else {
            0
        },
        None => 0,
    }
}

/// `slots` names slots of `names` only, and the names in them come one
/// strictly before the next.
pub open spec fn ordered_by_name(names: Seq<Seq<u8>>, slots: Seq<usize>) -> bool {
    &&& forall|i: int| 0 <= i < slots.len() ==> slots[i] < names.len()
    &&& forall|i: int, j: int|
        0 <= i < j < slots.len() ==> precedes(names[slots[i] as int], names[slots[j] as int])
}

/// Slots ordered by name hold no station twice: neither a slot nor a name
/// comes again.
pub proof fn lemma_ordered_without_repeats(names: Seq<Seq<u8>>, slots: Seq<usize>)
    requires
        ordered_by_name(names, slots),
    ensures
        forall|i: int, j: int|
            0 <= i < j < slots.len() ==> slots[i] != slots[j] && names[slots[i] as int]
                != names[slots[j] as int],
{
    assert forall|i: int, j: int| 0 <= i < j < slots.len() implies slots[i] != slots[j]
        && names[slots[i] as int] != names[slots[j] as int] by {
        lemma_precedes_asymmetric(names[slots[i] as int], names[slots[j] as int]);
    }
}

/// Why a table refused a change.
#[derive(Clone, Copy, Debug, PartialEq, Eq, Structural)]
pub enum TableError {
    /// A station would have more records than the counter can hold.
    CountOverflow,
}

/// Where a record went.
#[derive(Clone, Copy, Debug, PartialEq, Eq, Structural)]
pub struct Placement {
    /// The slot of the record's station.
    pub slot: usize,
    /// Whether the station was new to the table, so that the slot is too.
    pub fresh: bool,
}

/// The stations seen so far.
pub struct StationTable {
    names: Vec<Vec<u8>>,
    counts: Vec<u32>,
    index: NameIndex,
}

impl StationTable {
    /// The names, by slot.
    pub closed spec fn names(&self) -> Seq<Seq<u8>> {
        Seq::new(self.names@.len(), |i: int| self.names@[i]@)
    }

    /// The number of records of each station, by slot.
    pub closed spec fn counts(&self) -> Seq<u32> {
        self.counts@
    }

    /// The index holds each name with its slot and nothing else.
    pub closed spec fn indexed(&self) -> bool {
        let entries = index_entries(self.index);
        &&& forall|i: int|
            0 <= i < self.names().len() ==> #[trigger] entries.contains_key(self.names()[i])
                && entries[self.names()[i]] == i
        &&& forall|k: Seq<u8>| #[trigger]
            entries.contains_key(k) ==> entries[k] < self.names().len() && self.names()[entries[k] as int]
                == k
    }

    /// Every slot has a name and a count of at least one, no name has two
    /// slots, and the index agrees.
    pub open spec fn wf(&self) -> bool {
        &&& self.names().len() == self.counts().len()
        &&& distinct(self.names())
        &&& forall|i: int| 0 <= i < self.counts().len() ==> self.counts()[i] >= 1
        &&& self.indexed()
    }

    /// The number of records counted for `name`.
    pub open spec fn tally(&self, name: Seq<u8>) -> nat {
        count_in(self.names(), self.counts(), name)
    }

    /// A table without stations.
    pub fn new() -> (t: Self)
        ensures
            t.wf(),
            t.names() == Seq::<Seq<u8>>::empty(),
            t.counts() == Seq::<u32>::empty(),
    {
        let t = StationTable { names: Vec::new(), counts: Vec::new(), index: index_new() };
        proof {
            assert(t.names() =~= Seq::<Seq<u8>>::empty());
        }
        t
    }

    /// The number of stations.
    pub fn len(&self) -> (n: usize)
        ensures
            n == self.names().len(),
    {
        self.names.len()
    }

    /// The name in `slot`.
    pub fn name(&self, slot: usize) -> (name: &[u8])
        requires
            slot < self.names().len(),
        ensures
            name@ == self.names()[slot as int],
    {
        self.names[slot].as_slice()
    }

    /// The number of records of the station in `slot`.
    pub fn count(&self, slot: usize) -> (n: u32)
        requires
            self.wf(),
            slot < self.names().len(),
        ensures
            n == self.counts()[slot as int],
    {
        self.counts[slot]
    }

    /// The slot of `name`, if the table has seen it.
    pub fn find(&self, name: &[u8]) -> (slot: Option<usize>)
        requires
            self.wf(),
        ensures
            match slot {
                Some(i) => slot_of(self.names(), name@) == Some(i as int),
                None => slot_of(self.names(), name@).is_none(),
            },
    {
        index_get(&self.index, name)
    }

    /// Counts `count` more records for `name`. A name that the table has not
    /// seen gets the next free slot. Where the station's count would pass
    /// what the counter holds, nothing changes and the call fails.
    pub fn add(&mut self, name: &[u8], count: u32) -> (r: Result<Placement, TableError>)
        requires
            old(self).wf(),
            count >= 1,
        ensures
            final(self).wf(),
            r.is_ok() ==> forall|k: Seq<u8>| #[trigger]
                final(self).tally(k) == old(self).tally(k) + (if k == name@ {
                    count as nat
                } else {
                    0
                }),
            match r {
                Ok(p) => match slot_of(old(self).names(), name@) {
                    Some(i) => {
                        &&& p.slot == i
                        &&& !p.fresh
                        &&& old(self).counts()[i] + count <= u32::MAX
                        &&& final(self).names() == old(self).names()
                        &&& final(self).counts() == old(self).counts().update(
                            i,
                            (old(self).counts()[i] + count) as u32,
                        )
                    },
                    None => {
                        &&& p.slot == old(self).names().len()
                        &&& p.fresh
                        &&& final(self).names() == old(self).names().push(name@)
                        &&& final(self).counts() == old(self).counts().push(count)
                    },
                },
                Err(e) => {
                    &&& e == TableError::CountOverflow
                    &&& old(self).tally(name@) + count > u32::MAX
                    &&& final(self).names() == old(self).names()
                    &&& final(self).counts() == old(self).counts()
                },
            },
    {
        match index_get(&self.index, name) {
            Some(slot) => {
                let seen = self.counts[slot];
                if seen > u32::MAX - count {
                    Err(TableError::CountOverflow)
                } else {
                    self.counts.set(slot, seen + count);
                    proof {
                        assert forall|k: Seq<u8>| #[trigger]
                            self.tally(k) == old(self).tally(k) + (if k == name@ {
                                count as nat
                            } else {
                                0
                            }) by {
                            if k == name@ {
                                lemma_slot_known(self.names(), k, slot as int);
                            }
                        }
                    }
                    Ok(Placement { slot, fresh: false })
                }
            },
            None => {
                let slot = self.names.len();
                self.names.push(slice_to_vec(name));
                self.counts.push(count);
                index_insert(&mut self.index, name, slot);
                proof {
                    assert(self.names() =~= old(self).names().push(name@));
                    assert forall|k: Seq<u8>| #[trigger]
                        self.tally(k) == old(self).tally(k) + (if k == name@ {
                            count as nat
                        } else {
                            0
                        }) by {
                        if k == name@ {
                            lemma_slot_known(self.names(), k, slot as int);
                        } else {
                            match slot_of(old(self).names(), k) {
                                Some(i) => {
                                    assert(self.names()[i] == k);
                                    lemma_slot_known(self.names(), k, i);
                                },
                                None => {
                                    if slot_of(self.names(), k).is_some() {
                                        let i = slot_of(self.names(), k).unwrap();
                                        assert(old(self).names()[i] == k);
                                    }
                                },
                            }
                        }
                    }
                }
                Ok(Placement { slot, fresh: true })
            },
        }
    }

    /// Counts one record for `name`.
    pub fn observe(&mut self, name: &[u8]) -> (r: Result<Placement, TableError>)
        requires
            old(self).wf(),
        ensures
            final(self).wf(),
            match r {
                Ok(p) => match slot_of(old(self).names(), name@) {
                    Some(i) => {
                        &&& p.slot == i
                        &&& !p.fresh
                        &&& old(self).counts()[i] < u32::MAX
                        &&& final(self).names() == old(self).names()
                        &&& final(self).counts() == old(self).counts().update(
                            i,
                            (old(self).counts()[i] + 1) as u32,
                        )
                    },
                    None => {
                        &&& p.slot == old(self).names().len()
                        &&& p.fresh
                        &&& final(self).names() == old(self).names().push(name@)
                        &&& final(self).counts() == old(self).counts().push(1u32)
                    },
                },
                Err(e) => {
                    &&& e == TableError::CountOverflow
                    &&& old(self).tally(name@) == u32::MAX
                    &&& final(self).names() == old(self).names()
                    &&& final(self).counts() == old(self).counts()
                },
            },
    {
        self.add(name, 1)
    }
    /// Whether every station's records in `self` and `other` together fit the
    /// counter.
    pub open spec fn fits_with(&self, other: &StationTable) -> bool {
        forall|name: Seq<u8>| #[trigger] self.tally(name) + other.tally(name) <= u32::MAX
    }

    /// Adds the stations and counts of `other` to `self`. A station of
    /// `other` that `self` has keeps its slot in `self`; one that `self`
    /// lacks gets the next free slot, in the order of `other`. The result
    /// gives, for each slot of `other`, the station's slot in `self`. Where
    /// some station's count would pass what the counter holds, nothing
    /// changes and the call fails.
    pub fn merge(&mut self, other: &StationTable) -> (r: Result<Vec<usize>, TableError>)
        requires
            old(self).wf(),
            other.wf(),
        ensures
            final(self).wf(),
            r.is_ok() <==> old(self).fits_with(other),
            match r {
                Ok(slots) => {
                    &&& forall|name: Seq<u8>| #[trigger]
                        final(self).tally(name) == old(self).tally(name) + other.tally(name)
                    &&& old(self).names().is_prefix_of(final(self).names())
                    &&& slots@.len() == other.names().len()
                    &&& forall|j: int|
                        0 <= j < slots@.len() ==> slot_of(
                            final(self).names(),
                            #[trigger] other.names()[j],
                        ) == Some(slots@[j] as int)
                    &&& forall|s: int, t: int|
                        0 <= s < t < slots@.len() && slots@[t] >= old(self).names().len()
                            ==> slots@[s] < slots@[t]
                },
                Err(e) => {
                    &&& e == TableError::CountOverflow
                    &&& final(self).names() == old(self).names()
                    &&& final(self).counts() == old(self).counts()
                },
            },
    {
        let n = other.len();
        let mut j: usize = 0;
        while j < n
            invariant
                j <= n,
                n == other.names().len(),
                self.wf(),
                other.wf(),
                *self == *old(self),
                forall|t: int|
                    0 <= t < j ==> self.tally(#[trigger] other.names()[t]) + other.counts()[t]
                        <= u32::MAX,
            decreases n - j,
        {
            let extra = other.count(j);
            match self.find(other.name(j)) {
                Some(i) => {
                    if self.count(i) > u32::MAX - extra {
                        proof {
                            lemma_slot_known(other.names(), other.names()[j as int], j as int);
                            assert(self.tally(other.names()[j as int]) + other.tally(
                                other.names()[j as int],
                            ) > u32::MAX);
                        }
                        return Err(TableError::CountOverflow);
                    }
                },
                None => {},
            }
            j = j + 1;
        }
        proof {
            assert forall|name: Seq<u8>| #[trigger]
                self.tally(name) + other.tally(name) <= u32::MAX by {
                match slot_of(other.names(), name) {
                    Some(t) => {
                        assert(other.names()[t] == name);
                    },
                    None => {},
                }
            }
        }
        let mut slots: Vec<usize> = Vec::new();
        let mut j: usize = 0;
        while j < n
            invariant
                j <= n,
                n == other.names().len(),
                self.wf(),
                other.wf(),
                old(self).wf(),
                old(self).fits_with(other),
                forall|name: Seq<u8>| #[trigger]
                    self.tally(name) == old(self).tally(name) + count_before(
                        other.names(),
                        other.counts(),
                        j as int,
                        name,
                    ),
                old(self).names().is_prefix_of(self.names()),
                slots@.len() == j,
                forall|t: int|
                    0 <= t < j ==> slot_of(self.names(), #[trigger] other.names()[t]) == Some(
                        slots@[t] as int,
                    ),
                forall|t: int| 0 <= t < j ==> slots@[t] < self.names().len(),
                forall|s: int, t: int|
                    0 <= s < t < j && slots@[t] >= old(self).names().len() ==> slots@[s]
                        < slots@[t],
            decreases n - j,
        {
            let ghost before = *self;
            let ghost name = other.names()[j as int];
            proof {
                lemma_slot_known(other.names(), name, j as int);
                assert(self.tally(name) == old(self).tally(name));
                assert(old(self).tally(name) + other.tally(name) <= u32::MAX);
            }
            match self.add(other.name(j), other.count(j)) {
                Ok(p) => {
                    slots.push(p.slot);
                    proof {
                        if !p.fresh {
                            lemma_seen_before(*old(self), before, name);
                        }
                        assert(slot_of(self.names(), name) == Some(p.slot as int)) by {
                            match slot_of(before.names(), name) {
                                Some(i) => {
                                    assert(before.names()[i] == name);
                                },
                                None => {
                                    assert(before.names().push(name)[p.slot as int] == name);
                                },
                            }
                            lemma_slot_known(self.names(), name, p.slot as int);
                        }
                        assert forall|t: int| 0 <= t < j implies slot_of(
                            self.names(),
                            #[trigger] other.names()[t],
                        ) == Some(slots@[t] as int) by {
                            let i = slots@[t] as int;
                            assert(slot_of(before.names(), other.names()[t]) == Some(i));
                            assert(before.names()[i] == other.names()[t]);
                            lemma_slot_known(self.names(), other.names()[t], i);
                        }
                        assert forall|k: Seq<u8>| #[trigger]
                            self.tally(k) == old(self).tally(k) + count_before(
                                other.names(),
                                other.counts(),
                                j + 1,
                                k,
                            ) by {
                            assert(self.tally(k) == before.tally(k) + (if k == name {
                                other.counts()[j as int] as nat
                            } else {
                                0
                            }));
                            if k != name {
                                match slot_of(other.names(), k) {
                                    Some(t) => {
                                        assert(other.names()[t] == k);
                                    },
                                    None => {},
                                }
                            }
                        }
                    }
                },
                Err(e) => {
                    proof {
                        assert(false);
                    }
                    return Err(e);
                },
            }
            j = j + 1;
        }
        Ok(slots)
    }

    /// The slots in the order of their names. Every slot occurs, and the
    /// names come strictly one before the next, so none occurs twice.
    pub fn sorted_slots(&self) -> (slots: Vec<usize>)
        requires
            self.wf(),
        ensures
            slots@.len() == self.names().len(),
            ordered_by_name(self.names(), slots@),
            forall|s: usize| s < self.names().len() ==> slots@.contains(s),
    {
        let n = self.len();
        let mut slots: Vec<usize> = Vec::new();
        let mut s: usize = 0;
        while s < n
            invariant
                s <= n,
                n == self.names().len(),
                self.wf(),
                slots@.len() == s,
                ordered_by_name(self.names(), slots@),
                forall|i: int| 0 <= i < slots@.len() ==> slots@[i] < s,
                forall|t: usize| t < s ==> slots@.contains(t),
            decreases n - s,
        {
            let name = self.name(s);
            let mut p: usize = 0;
            while p < slots.len() && !matches!(
                compare_names(name, self.name(slots[p])),
                NameOrder::Before
            )
                invariant
                    p <= slots@.len(),
                    s < n,
                    n == self.names().len(),
                    name@ == self.names()[s as int],
                    self.wf(),
                    forall|i: int| 0 <= i < slots@.len() ==> slots@[i] < s,
                    forall|i: int|
                        0 <= i < p ==> precedes(self.names()[slots@[i] as int], name@),
                decreases slots@.len() - p,
            {
                proof {
                    lemma_precedes_total(name@, self.names()[slots@[p as int] as int]);
                }
                p = p + 1;
            }
            let ghost before = slots@;
            slots.insert(p, s);
            proof {
                assert forall|i: int, j: int| 0 <= i < j < slots@.len() implies precedes(
                    self.names()[slots@[i] as int],
                    self.names()[slots@[j] as int],
                ) by {
                    if i == p {
                        assert(slots@[j] == before[j - 1]);
                        if j - 1 > p {
                            lemma_precedes_transitive(
                                name@,
                                self.names()[before[p as int] as int],
                                self.names()[before[j - 1] as int],
                            );
                        }
                    } else if j == p {
                        assert(slots@[i] == before[i]);
                    } else if i < p {
                        assert(slots@[i] == before[i]);
                        if j < p {
                            assert(slots@[j] == before[j]);
                        } else {
                            assert(slots@[j] == before[j - 1]);
                        }
                    } else {
                        assert(slots@[i] == before[i - 1]);
                        assert(slots@[j] == before[j - 1]);
                    }
                }
                assert forall|t: usize| t < s + 1 implies slots@.contains(t) by {
                    if t == s {
                        assert(slots@[p as int] == t);
                    } else {
                        assert(before.contains(t));
                        let i = choose|i: int| 0 <= i < before.len() && before[i] == t;
                        if i < p {
                            assert(slots@[i] == t);
                        } else {
                            assert(slots@[i + 1] == t);
                        }
                    }
                }
                assert forall|i: int| 0 <= i < slots@.len() implies slots@[i] < s + 1 by {
                    if i < p {
                        assert(slots@[i] == before[i]);
                    } else if i > p {
                        assert(slots@[i] == before[i - 1]);
                    }
                }
            }
            s = s + 1;
        }
        slots
    }
}

} // verus!
