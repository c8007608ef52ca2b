use vstd::prelude::*;
use vstd::seq_lib::*;

use crate::bounds::OrderedPoint;

verus! {

broadcast use vstd::seq_lib::group_to_multiset_ensures, vstd::multiset::group_multiset_axioms;

/// The sort key of primitive `x`: its center along `axis`.
pub open spec fn ckey(centers: Seq<OrderedPoint>, x: usize, axis: int) -> u32 {
    centers[x as int].coord(axis)
}

/// `s` is ordered by the centers' key along `axis`.
pub open spec fn sorted_by_key(centers: Seq<OrderedPoint>, s: Seq<usize>, axis: int) -> bool {
    forall|p: int, q: int| 0 <= p < q < s.len() ==> ckey(centers, s[p], axis) <= ckey(centers, s[q], axis)
}

/// Merges the ordered runs `order[lo..mid]` and `order[mid..hi]`; on equal
/// keys the element of the first run comes first.
fn merge_runs(
    centers: &Vec<OrderedPoint>,
    order: &Vec<usize>,
    lo: usize,
    mid: usize,
    hi: usize,
    axis: usize,
) -> (m: Vec<usize>)
    requires
        lo <= mid <= hi <= order.len(),
        forall|k: int| 0 <= k < order.len() ==> order[k] < centers.len(),
        sorted_by_key(centers@, order@.subrange(lo as int, mid as int), axis as int),
        sorted_by_key(centers@, order@.subrange(mid as int, hi as int), axis as int),
    ensures
        m.len() == hi - lo,
        m@.to_multiset() == order@.subrange(lo as int, hi as int).to_multiset(),
        sorted_by_key(centers@, m@, axis as int),
        forall|k: int| 0 <= k < m.len() ==> m[k] < centers.len(),
{
    let ghost ax = axis as int;
    let mut m: Vec<usize> = Vec::new();
    let mut i: usize = lo;
    let mut j: usize = mid;
    while i < mid || j < hi
        invariant
            lo <= i <= mid <= j <= hi <= order.len(),
            ax == axis as int,
            forall|k: int| 0 <= k < order.len() ==> order[k] < centers.len(),
            sorted_by_key(centers@, order@.subrange(lo as int, mid as int), ax),
            sorted_by_key(centers@, order@.subrange(mid as int, hi as int), ax),
            m.len() == (i - lo) + (j - mid),
            m@.to_multiset() == order@.subrange(lo as int, i as int).to_multiset().add(
                order@.subrange(mid as int, j as int).to_multiset(),
            ),
            sorted_by_key(centers@, m@, ax),
            forall|k: int| 0 <= k < m.len() ==> m[k] < centers.len(),
            m.len() > 0 && i < mid ==> ckey(centers@, m@.last(), ax) <= ckey(centers@, order[i as int], ax),
            m.len() > 0 && j < hi ==> ckey(centers@, m@.last(), ax) <= ckey(centers@, order[j as int], ax),
        decreases (mid - i) + (hi - j),
    {
        let ghost before = m@;
        let take_left = if j >= hi {
            true
        } else if i < mid {
            centers[order[i]].get(axis) <= centers[order[j]].get(axis)
        } else {
            false
        };
        let ghost x: usize;
        if take_left {
            proof {
                x = order[i as int];
                assert(order@.subrange(lo as int, i + 1) =~= order@.subrange(lo as int, i as int).push(x));
                if i + 1 < mid {
                    assert(order@.subrange(lo as int, mid as int)[i - lo] == x);
                    assert(order@.subrange(lo as int, mid as int)[i + 1 - lo] == order[i + 1]);
                }
            }
            m.push(order[i]);
            i = i + 1;
        } else {
            proof {
                x = order[j as int];
                assert(order@.subrange(mid as int, j + 1) =~= order@.subrange(mid as int, j as int).push(x));
                if j + 1 < hi {
                    assert(order@.subrange(mid as int, hi as int)[j - mid] == x);
                    assert(order@.subrange(mid as int, hi as int)[j + 1 - mid] == order[j + 1]);
                }
            }
            m.push(order[j]);
            j = j + 1;
        }
        proof {
            assert(m@ == before.push(x));
            assert forall|p: int, q: int| 0 <= p < q < m.len() implies ckey(centers@, m@[p], ax) <= ckey(
                centers@,
                m@[q],
                ax,
            ) by {
                if q == m.len() - 1 && p < before.len() - 1 {
                    assert(ckey(centers@, before[p], ax) <= ckey(centers@, before.last(), ax));
                }
            }
        }
    }
    proof {
        let whole = order@.subrange(lo as int, hi as int);
        assert(whole =~= order@.subrange(lo as int, mid as int) + order@.subrange(mid as int, hi as int));
        lemma_multiset_commutative(order@.subrange(lo as int, mid as int), order@.subrange(mid as int, hi as int));
    }
    m
}

/// Merge sort of `order[lo..hi]` by the centers' key along `axis`; the
/// positions outside the range keep their elements.
pub fn merge_sort_range(
    centers: &Vec<OrderedPoint>,
    order: &mut Vec<usize>,
    lo: usize,
    hi: usize,
    axis: usize,
)
    requires
        lo <= hi <= old(order).len(),
        forall|k: int| 0 <= k < old(order).len() ==> old(order)[k] < centers.len(),
    ensures
        final(order).len() == old(order).len(),
        forall|k: int|
            0 <= k < old(order).len() && !(lo <= k < hi) ==> final(order)[k] == old(order)[k],
        final(order)@.subrange(lo as int, hi as int).to_multiset() == old(order)@.subrange(
            lo as int,
            hi as int,
        ).to_multiset(),
        forall|k: int| 0 <= k < final(order).len() ==> final(order)[k] < centers.len(),
        sorted_by_key(centers@, final(order)@.subrange(lo as int, hi as int), axis as int),
    decreases hi - lo,
{
    if hi - lo <= 1 {
        return;
    }
    let mid = lo + (hi - lo) / 2;
    let ghost s0 = order@;
    merge_sort_range(centers, order, lo, mid, axis);
    let ghost s1 = order@;
    merge_sort_range(centers, order, mid, hi, axis);
    let ghost s2 = order@;
    proof {
        assert(s2.subrange(lo as int, mid as int) =~= s1.subrange(lo as int, mid as int));
        assert(s1.subrange(mid as int, hi as int) =~= s0.subrange(mid as int, hi as int));
    }
    let m = merge_runs(centers, order, lo, mid, hi, axis);
    proof {
        assert(s2.subrange(lo as int, hi as int) =~= s2.subrange(lo as int, mid as int) + s2.subrange(mid as int, hi as int));
        assert(s0.subrange(lo as int, hi as int) =~= s0.subrange(lo as int, mid as int) + s0.subrange(mid as int, hi as int));
        lemma_multiset_commutative(s2.subrange(lo as int, mid as int), s2.subrange(mid as int, hi as int));
        lemma_multiset_commutative(s0.subrange(lo as int, mid as int), s0.subrange(mid as int, hi as int));
    }
    let mut t: usize = 0;
    while t < hi - lo
        invariant
            lo <= hi <= order.len(),
            order.len() == s0.len(),
            m.len() == hi - lo,
            t <= hi - lo,
            forall|k: int| 0 <= k < m.len() ==> m[k] < centers.len(),
            forall|k: int| 0 <= k < s0.len() && !(lo <= k < hi) ==> order[k] == s0[k],
            forall|k: int| 0 <= k < s0.len() ==> s0[k] < centers.len(),
            forall|k: int| lo <= k < lo + t ==> order[k] == m[k - lo],
            forall|k: int| lo + t <= k < hi ==> order[k] < centers.len(),
        decreases hi - lo - t,
    {
        order.set(lo + t, m[t]);
        t = t + 1;
    }
    proof {
        assert(order@.subrange(lo as int, hi as int) =~= m@);
        assert forall|k: int| 0 <= k < order.len() implies order[k] < centers.len() by {
            if lo <= k < hi {
                assert(order[k] == m[k - lo]);
            } else {
                assert(order[k] == s0[k]);
            }
        }
    }
}

} // verus!
