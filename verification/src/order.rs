//! The order of station names: byte by byte, a proper prefix first.

use vstd::prelude::*;

verus! {

/// `a` comes strictly before `b`: at the first offset where they differ `a`
/// has the smaller byte, or `a` ends there and `b` goes on.
pub open spec fn precedes(a: Seq<u8>, b: Seq<u8>) -> bool {
    exists|k: int| differs_in_favour(a, b, k)
}

/// `a` and `b` agree before offset `k`, and at `k` either `a` has ended and
/// `b` has not, or `a` has the smaller byte.
pub open spec fn differs_in_favour(a: Seq<u8>, b: Seq<u8>, k: int) -> bool {
    &&& 0 <= k <= a.len()
    &&& k < b.len()
    &&& forall|j: int| 0 <= j < k ==> a[j] == b[j]
    &&& (k == a.len() || a[k] < b[k])
}

/// How one name stands to another.
#[derive(Clone, Copy, Debug, PartialEq, Eq, Structural)]
pub enum NameOrder {
    Before,
    Same,
    After,
}

/// How `a` stands to `b`.
pub open spec fn name_order(a: Seq<u8>, b: Seq<u8>) -> NameOrder {
    if a == b {
        NameOrder::Same
    } else if precedes(a, b) {
        NameOrder::Before
    } else {
        NameOrder::After
    }
}

/// No name comes before itself, and of two names at most one comes before
/// the other.
pub proof fn lemma_precedes_asymmetric(a: Seq<u8>, b: Seq<u8>)
    requires
        precedes(a, b),
    ensures
        a != b,
        !precedes(b, a),
{
    let k = choose|k: int| differs_in_favour(a, b, k);
    if a == b {
        assert(false);
    }
    if precedes(b, a) {
        let m = choose|m: int| differs_in_favour(b, a, m);
        if k < m {
            assert(b[k] == a[k]);
        } else if m < k {
            assert(a[m] == b[m]);
        }
        assert(false);
    }
}

/// The order of names is transitive.
pub proof fn lemma_precedes_transitive(a: Seq<u8>, b: Seq<u8>, c: Seq<u8>)
    requires
        precedes(a, b),
        precedes(b, c),
    ensures
        precedes(a, c),
{
    let k = choose|k: int| differs_in_favour(a, b, k);
    let m = choose|m: int| differs_in_favour(b, c, m);
    let n = if k <= m {
        k
    } else {
        m
    };
    assert forall|j: int| 0 <= j < n implies a[j] == c[j] by {
        assert(a[j] == b[j]);
        assert(b[j] == c[j]);
    }
    if n < m {
        assert(b[n] == c[n]);
    }
    if n < k {
        assert(a[n] == b[n]);
    }
    assert(differs_in_favour(a, c, n));
}

/// Of two different names one comes before the other.
pub proof fn lemma_precedes_total(a: Seq<u8>, b: Seq<u8>)
    ensures
        a == b || precedes(a, b) || precedes(b, a),
{
    lemma_total_from(a, b, 0);
}

proof fn lemma_total_from(a: Seq<u8>, b: Seq<u8>, i: int)
    requires
        0 <= i <= a.len(),
        i <= b.len(),
        forall|j: int| 0 <= j < i ==> a[j] == b[j],
    ensures
        a == b || precedes(a, b) || precedes(b, a),
    decreases a.len() - i,
{
    if i == a.len() {
        if i == b.len() {
            assert(a =~= b);
        } else {
            assert(differs_in_favour(a, b, i));
        }
    } else if i == b.len() {
        assert(differs_in_favour(b, a, i));
    } else if a[i] < b[i] {
        assert(differs_in_favour(a, b, i));
    } else if b[i] < a[i] {
        assert(differs_in_favour(b, a, i));
    } else {
        lemma_total_from(a, b, i + 1);
    }
}

/// Compares two names byte by byte.
pub fn compare_names(a: &[u8], b: &[u8]) -> (r: NameOrder)
    ensures
        r == name_order(a@, b@),
{
    let mut i: usize = 0;
    while i < a.len() && i < b.len()
        invariant
            i <= a.len(),
            i <= b.len(),
            forall|j: int| 0 <= j < i ==> a@[j] == b@[j],
        decreases a.len() - i,
    {
        if a[i] < b[i] {
            proof {
                assert(differs_in_favour(a@, b@, i as int));
                lemma_precedes_asymmetric(a@, b@);
            }
            return NameOrder::Before;
        }
        if a[i] > b[i] {
            proof {
                assert(differs_in_favour(b@, a@, i as int));
                lemma_precedes_asymmetric(b@, a@);
            }
            return NameOrder::After;
        }
        i = i + 1;
    }
    if a.len() < b.len() {
        proof {
            assert(differs_in_favour(a@, b@, i as int));
            lemma_precedes_asymmetric(a@, b@);
        }
        NameOrder::Before
    } else if a.len() > b.len() {
        proof {
            assert(differs_in_favour(b@, a@, i as int));
            lemma_precedes_asymmetric(b@, a@);
        }
        NameOrder::After
    } else {
        proof {
            assert(a@ =~= b@);
        }
        NameOrder::Same
    }
}

} // verus!
