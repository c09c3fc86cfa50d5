//! A verified insertion sort on `(u64, u64)` keys in ascending lexicographic
//! order. The network code encodes every ordering it needs — neighbor lists
//! by distance, value distributions, gap rankings — into such keys.

use vstd::prelude::*;
use vstd::pervasive::VecAdditionalExecFns;
use vstd::relations::sorted_by;
use vstd::seq_lib::lemma_sorted_unique;

verus! {

/// Ascending lexicographic order on key pairs.
pub open spec fn key_leq(a: (u64, u64), b: (u64, u64)) -> bool {
    a.0 < b.0 || (a.0 == b.0 && a.1 <= b.1)
}

/// Sorts the vector in ascending lexicographic key order, keeping exactly
/// the same elements.
pub fn sort_keyed(v: &mut Vec<(u64, u64)>)
    ensures
        final(v)@.to_multiset() == old(v)@.to_multiset(),
        final(v)@.len() == old(v)@.len(),
        sorted_by(final(v)@, |a: (u64, u64), b: (u64, u64)| key_leq(a, b)),
{
    broadcast use vstd::seq_lib::to_multiset_update;
    broadcast use vstd::seq_lib::group_to_multiset_ensures;
    broadcast use vstd::multiset::group_multiset_axioms;

    let ghost orig = v@;
    let mut i: usize = 1;
    while i < v.len()
        invariant
            i >= 1,
            v@.len() == orig.len(),
            v@.to_multiset() == orig.to_multiset(),
            forall|a: int, b: int| 0 <= a < b < i && b < v@.len() ==> key_leq(v@[a], v@[b]),
        decreases v@.len() - i,
    {
        let mut j: usize = i;
        loop
            invariant_except_break
                j <= i < v@.len(),
                v@.len() == orig.len(),
                v@.to_multiset() == orig.to_multiset(),
                forall|a: int, b: int| 0 <= a < b <= i && b != j ==> key_leq(v@[a], v@[b]),
            ensures
                j <= i < v@.len(),
                v@.len() == orig.len(),
                v@.to_multiset() == orig.to_multiset(),
                forall|a: int, b: int| 0 <= a < b <= i && b != j ==> key_leq(v@[a], v@[b]),
                j == 0 || key_leq(v@[j - 1], v@[j as int]),
            decreases j,
        {
            if j == 0 {
                break ;
            }
            let x = v[j];
            let y = v[j - 1];
            if !(x.0 < y.0 || (x.0 == y.0 && x.1 < y.1)) {
                break ;
            }
            let ghost before = v@;
            v.set(j, y);
            let ghost mid = v@;
            v.set(j - 1, x);
            proof {
                assert(mid == before.update(j as int, y));
                assert(v@ == mid.update(j - 1, x));
                assert(before.contains(x)) by {
                    assert(before[j as int] == x);
                }
                assert(mid.contains(y)) by {
                    assert(mid[j - 1] == y);
                }
                vstd::seq_lib::to_multiset_contains(before, x);
                vstd::seq_lib::to_multiset_contains(mid, y);
                let ghost bm = before.to_multiset();
                vstd::seq_lib::to_multiset_update(before, j as int, y);
                vstd::seq_lib::to_multiset_update(mid, j - 1, x);
                assert(mid.to_multiset() == bm.insert(y).remove(x));
                assert(v@.to_multiset() == mid.to_multiset().insert(x).remove(y));
                assert forall|e: (u64, u64)| v@.to_multiset().count(e) == bm.count(e) by {
                    assert(bm.count(x) >= 1);
                    assert(mid.to_multiset().count(y) >= 1);
                }
                assert(v@.to_multiset() =~= before.to_multiset());
            }
            j = j - 1;
        }
        proof {
            assert forall|a: int, b: int|
                0 <= a < b <= i && b < v@.len() implies key_leq(v@[a], v@[b]) by {
                if b == j && j > 0 && a < j - 1 {
                    assert(key_leq(v@[a], v@[j - 1]));
                    assert(key_leq(v@[j - 1], v@[j as int]));
                }
            }
        }
        i = i + 1;
    }
    assert(sorted_by(v@, |a: (u64, u64), b: (u64, u64)| key_leq(a, b)));
}

/// `key_leq` is a total ordering, so sorting is canonical: any sorted
/// arrangement of the same elements equals `sort_by(key_leq)`.
pub proof fn lemma_key_leq_total_ordering()
    ensures
        vstd::relations::total_ordering(|a: (u64, u64), b: (u64, u64)| key_leq(a, b)),
{
    let leq = |a: (u64, u64), b: (u64, u64)| key_leq(a, b);
    assert forall|a: (u64, u64), b: (u64, u64), c: (u64, u64)|
        #![trigger leq(a, b), leq(b, c)]
        leq(a, b) && leq(b, c) implies leq(a, c) by {}
    assert forall|a: (u64, u64), b: (u64, u64)| #![trigger leq(a, b)]
        leq(a, b) && leq(b, a) implies a == b by {}
    assert forall|a: (u64, u64), b: (u64, u64)| #![trigger leq(a, b)]
        leq(a, b) || leq(b, a) by {}
}

/// A sorted rearrangement of `b` is exactly `b.sort_by(key_leq)`.
pub proof fn lemma_canonical_sort(a: Seq<(u64, u64)>, b: Seq<(u64, u64)>)
    requires
        sorted_by(a, |x: (u64, u64), y: (u64, u64)| key_leq(x, y)),
        a.to_multiset() == b.to_multiset(),
    ensures
        a == b.sort_by(|x: (u64, u64), y: (u64, u64)| key_leq(x, y)),
{
    lemma_key_leq_total_ordering();
    b.lemma_sort_by_ensures(|x: (u64, u64), y: (u64, u64)| key_leq(x, y));
    lemma_sorted_unique(
        a,
        b.sort_by(|x: (u64, u64), y: (u64, u64)| key_leq(x, y)),
        |x: (u64, u64), y: (u64, u64)| key_leq(x, y),
    );
}

/// The values paired with their positions, ready for keyed sorting.
pub open spec fn keyed_of_u64s(vs: Seq<u64>) -> Seq<(u64, u64)> {
    Seq::new(vs.len(), |i: int| (vs[i], i as u64))
}

/// The values in ascending order: the first components of the canonical
/// sort of the keyed values.
pub open spec fn sorted_u64s(vs: Seq<u64>) -> Seq<u64> {
    keyed_of_u64s(vs).sort_by(|a: (u64, u64), b: (u64, u64)| key_leq(a, b)).map_values(
        |p: (u64, u64)| p.0,
    )
}

/// Pairs each value with its position and sorts; the first components of
/// the result are the values in ascending order.
pub fn sort_indexed(vs: &Vec<u64>) -> (r: Vec<(u64, u64)>)
    ensures
        r@ == keyed_of_u64s(vs@).sort_by(|a: (u64, u64), b: (u64, u64)| key_leq(a, b)),
        r@.len() == vs@.len(),
        sorted_u64s(vs@).len() == vs@.len(),
        forall|t: int| 0 <= t < r@.len() ==> (#[trigger] r@[t]).0 == sorted_u64s(vs@)[t],
{
    let n = vs.len();
    let mut kp: Vec<(u64, u64)> = Vec::new();
    let mut i: usize = 0;
    while i < n
        invariant
            n == vs@.len(),
            i <= n,
            kp@.len() == i,
            forall|t: int| 0 <= t < i ==> #[trigger] kp@[t] == (vs@[t], t as u64),
        decreases n - i,
    {
        kp.push((vs[i], i as u64));
        i = i + 1;
    }
    proof {
        assert(kp@ =~= keyed_of_u64s(vs@));
    }
    sort_keyed(&mut kp);
    proof {
        lemma_canonical_sort(kp@, keyed_of_u64s(vs@));
    }
    kp
}

} // verus!
