//! The global acquisition order: resources are always taken in ascending
//! identity order, whatever order they were registered in.
use crate::slots::Slot;
use vstd::prelude::*;

verus! {

/// The identities of a list of slots, in the same order.
pub open spec fn identities(s: Seq<Slot>) -> Seq<usize> {
    s.map_values(|x: Slot| x.0)
}

/// `s` never steps down.
pub open spec fn ascending(s: Seq<usize>) -> bool {
    forall|i: int, j: int| 0 <= i < j < s.len() ==> s[i] <= s[j]
}

/// `acquired` is the order in which the identities of `registered` are taken:
/// the same identities, each as often, in ascending order.
pub open spec fn is_acquisition_order(registered: Seq<usize>, acquired: Seq<usize>) -> bool {
    &&& ascending(acquired)
    &&& acquired.to_multiset() == registered.to_multiset()
}

pub proof fn lemma_identities_push(s: Seq<Slot>, x: Slot)
    ensures
        identities(s.push(x)) == identities(s).push(x.0),
{
    assert(identities(s.push(x)) =~= identities(s).push(x.0));
}

pub proof fn lemma_identities_insert(s: Seq<Slot>, i: int, x: Slot)
    requires
        0 <= i <= s.len(),
    ensures
        identities(s.insert(i, x)) == identities(s).insert(i, x.0),
{
    s.insert_ensures(i, x);
    identities(s).insert_ensures(i, x.0);
    assert(identities(s.insert(i, x)) =~= identities(s).insert(i, x.0));
}

/// Two ascending sequences that hold the same identities, each as often, are
/// the same sequence.
pub proof fn lemma_ascending_unique(a: Seq<usize>, b: Seq<usize>)
    requires
        ascending(a),
        ascending(b),
        a.to_multiset() == b.to_multiset(),
    ensures
        a == b,
    decreases a.len(),
{
    broadcast use vstd::seq_lib::group_to_multiset_ensures;

    if a.len() == 0 {
        assert(b.to_multiset().len() == 0);
        assert(a =~= b);
    } else {
        a.to_multiset_ensures();
        b.to_multiset_ensures();
        assert(b.len() == a.len());
        assert(a.contains(a[0]));
        assert(a.to_multiset().count(a[0]) > 0);
        assert(b.contains(a[0]));
        assert(b.contains(b[0]));
        assert(b.to_multiset().count(b[0]) > 0);
        assert(a.contains(b[0]));
        let i = choose|i: int| 0 <= i < b.len() && b[i] == a[0];
        let j = choose|j: int| 0 <= j < a.len() && a[j] == b[0];
        assert(b[0] <= b[i]);
        assert(a[0] <= a[j]);
        assert(a[0] == b[0]);
        let a1 = a.drop_first();
        let b1 = b.drop_first();
        assert(a.remove(0) =~= a1);
        assert(b.remove(0) =~= b1);
        assert(a1.to_multiset() == b1.to_multiset());
        assert(ascending(a1)) by {
            assert forall|p: int, q: int| 0 <= p < q < a1.len() implies a1[p] <= a1[q] by {
                assert(a1[p] == a[p + 1] && a1[q] == a[q + 1]);
            }
        }
        assert(ascending(b1)) by {
            assert forall|p: int, q: int| 0 <= p < q < b1.len() implies b1[p] <= b1[q] by {
                assert(b1[p] == b[p + 1] && b1[q] == b[q + 1]);
            }
        }
        lemma_ascending_unique(a1, b1);
        assert(a =~= b) by {
            assert forall|k: int| 0 <= k < a.len() implies a[k] == b[k] by {
                if k > 0 {
                    assert(a[k] == a1[k - 1] && b[k] == b1[k - 1]);
                }
            }
        }
    }
}

/// The order in which a session takes its locks depends only on which locks
/// were registered, and how often, never on the order of registration.
pub proof fn lemma_order_independent(
    registered1: Seq<usize>,
    acquired1: Seq<usize>,
    registered2: Seq<usize>,
    acquired2: Seq<usize>,
)
    requires
        is_acquisition_order(registered1, acquired1),
        is_acquisition_order(registered2, acquired2),
        registered1.to_multiset() == registered2.to_multiset(),
    ensures
        acquired1 == acquired2,
{
    lemma_ascending_unique(acquired1, acquired2);
}

/// No two sessions take two different locks in opposite orders, so no two
/// sessions can each hold a lock the other waits for: if one takes `x`
/// before `y` and the other takes `y` before `x`, then `x` and `y` are the
/// same lock.
pub proof fn lemma_no_opposite_order(
    registered1: Seq<usize>,
    acquired1: Seq<usize>,
    registered2: Seq<usize>,
    acquired2: Seq<usize>,
    i: int,
    j: int,
    k: int,
    m: int,
)
    requires
        is_acquisition_order(registered1, acquired1),
        is_acquisition_order(registered2, acquired2),
        0 <= i < j < acquired1.len(),
        0 <= k < m < acquired2.len(),
        acquired1[i] == acquired2[m],
        acquired1[j] == acquired2[k],
    ensures
        acquired1[i] == acquired1[j],
{
    assert(acquired1[i] <= acquired1[j]);
    assert(acquired2[k] <= acquired2[m]);
}

} // verus!
