use vstd::prelude::*;

use crate::bounds::{AABB, OrderedPoint};
use crate::center_sort::merge_sort_range;
use crate::order_key::INFINITY_KEY;

verus! {

/// Slices reached below this depth become leaves whatever their size.
pub const MAX_BUILD_DEPTH: u32 = 32;

/// A node of the hierarchy. A leaf names one primitive; an inner node names
/// two children, both stored before it.
#[derive(Clone, Copy, Debug)]
pub struct BvhNode {
    pub bounds: AABB,
    pub left: Option<usize>,
    pub right: Option<usize>,
    pub object_index: Option<usize>,
}

/// The nearest intersection found: which primitive, and the order key of its
/// distance along the ray.
#[derive(Clone, Copy, Debug, PartialEq, Eq, Structural)]
pub struct Hit {
    pub object_index: usize,
    pub distance: u32,
}

/// A bounding-volume hierarchy over the primitives `0..count`. Nodes are stored
/// children first; the root is the last node.
pub struct BVH {
    nodes: Vec<BvhNode>,
    count: usize,
}

pub open spec fn power_of_two(e: nat) -> nat
    decreases e,
{
    if e == 0 {
        1
    } else {
        2 * power_of_two((e - 1) as nat)
    }
}

/// Index of a child, or -1 for none.
pub open spec fn child(c: Option<usize>) -> int {
    match c {
        Some(k) => k as int,
        None => -1,
    }
}

pub open spec fn node_wf(nodes: Seq<BvhNode>, i: int, count: nat) -> bool {
    match nodes[i].object_index {
        Some(p) => p < count,
        None => 0 <= child(nodes[i].left) < i && 0 <= child(nodes[i].right) < i,
    }
}

pub open spec fn tree_wf(nodes: Seq<BvhNode>, count: nat) -> bool {
    forall|i: int| 0 <= i < nodes.len() ==> #[trigger] node_wf(nodes, i, count)
}

/// The primitives named by the leaves under node `i`.
pub open spec fn leaves(nodes: Seq<BvhNode>, i: int) -> Set<usize>
    decreases i,
{
    if 0 <= i < nodes.len() {
        match nodes[i].object_index {
            Some(p) => set![p],
            None => {
                let l = child(nodes[i].left);
                let r = child(nodes[i].right);
                let ls = if 0 <= l < i {
                    leaves(nodes, l)
                } else {
                    Set::empty()
                };
                let rs = if 0 <= r < i {
                    leaves(nodes, r)
                } else {
                    Set::empty()
                };
                ls.union(rs)
            },
        }
    } else {
        Set::empty()
    }
}

/// The elements of `s` at positions `lo..hi`.
pub open spec fn range_set(s: Seq<usize>, lo: int, hi: int) -> Set<usize> {
    Set::new(|x: usize| exists|k: int| lo <= k < hi && s[k] == x)
}

/// The sort key of the element at position `k`: its center along `axis`.
pub open spec fn center_key(centers: Seq<OrderedPoint>, order: Seq<usize>, k: int, axis: int) -> u32 {
    centers[order[k] as int].coord(axis)
}

/// Distance bound that a hit must beat: none found yet means infinity.
pub open spec fn best_distance(best: Option<Hit>) -> u32 {
    match best {
        Some(h) => h.distance,
        None => INFINITY_KEY,
    }
}

/// Depth-first traversal from node `i`, with `box_hit` telling whether the ray
/// meets a box and `prim_hit` the distance at which it meets a primitive.
/// A subtree whose box is missed is skipped; a leaf replaces `best` only when
/// strictly nearer.
pub open spec fn traverse(
    nodes: Seq<BvhNode>,
    i: int,
    box_hit: spec_fn(AABB) -> bool,
    prim_hit: spec_fn(usize) -> Option<u32>,
    best: Option<Hit>,
) -> Option<Hit>
    decreases i,
{
    if 0 <= i < nodes.len() && box_hit(nodes[i].bounds) {
        match nodes[i].object_index {
            Some(p) => match prim_hit(p) {
                Some(d) => if d < best_distance(best) {
                    Some(Hit { object_index: p, distance: d })
                } else {
                    best
                },
                None => best,
            },
            None => {
                let l = child(nodes[i].left);
                let r = child(nodes[i].right);
                let after_left = if 0 <= l < i {
                    traverse(nodes, l, box_hit, prim_hit, best)
                } else {
                    best
                };
                if 0 <= r < i {
                    traverse(nodes, r, box_hit, prim_hit, after_left)
                } else {
                    after_left
                }
            },
        }
    } else {
        best
    }
}

/// The two tests answer as `box_hit` and `prim_hit` do.
pub open spec fn answers<B: Fn(AABB) -> bool, P: Fn(usize) -> Option<u32>>(
    box_test: B,
    prim_test: P,
    box_hit: spec_fn(AABB) -> bool,
    prim_hit: spec_fn(usize) -> Option<u32>,
) -> bool {
    &&& forall|b: AABB, x: bool| box_test.ensures((b,), x) ==> x == box_hit(b)
    &&& forall|p: usize, o: Option<u32>| prim_test.ensures((p,), o) ==> o == prim_hit(p)
}

/// A ray that meets a primitive meets the box of every node above it.
pub open spec fn conservative(
    nodes: Seq<BvhNode>,
    box_hit: spec_fn(AABB) -> bool,
    prim_hit: spec_fn(usize) -> Option<u32>,
) -> bool {
    forall|i: int, p: usize|
        0 <= i < nodes.len() && #[trigger] leaves(nodes, i).contains(p) && prim_hit(p) is Some
            ==> box_hit(nodes[i].bounds)
}

/// Brute force: every primitive `0..n` in index order, each replacing the best
/// hit so far when strictly nearer.
pub open spec fn scan(prim_hit: spec_fn(usize) -> Option<u32>, n: nat) -> Option<Hit>
    decreases n,
{
    if n == 0 {
        None
    } else {
        let best = scan(prim_hit, (n - 1) as nat);
        let p = (n - 1) as usize;
        match prim_hit(p) {
            Some(d) => if d < best_distance(best) {
                Some(Hit { object_index: p, distance: d })
            } else {
                best
            },
            None => best,
        }
    }
}

proof fn lemma_traverse_nearest(
    nodes: Seq<BvhNode>,
    i: int,
    bh: spec_fn(AABB) -> bool,
    ph: spec_fn(usize) -> Option<u32>,
    best: Option<Hit>,
)
    requires
        conservative(nodes, bh, ph),
    ensures
        best_distance(traverse(nodes, i, bh, ph, best)) <= best_distance(best),
        forall|p: usize|
            #[trigger] leaves(nodes, i).contains(p) && ph(p) is Some ==> best_distance(
                traverse(nodes, i, bh, ph, best),
            ) <= ph(p).unwrap(),
        traverse(nodes, i, bh, ph, best) == best || ({
            let h = traverse(nodes, i, bh, ph, best).unwrap();
            &&& traverse(nodes, i, bh, ph, best) is Some
            &&& ph(h.object_index) == Some(h.distance)
            &&& leaves(nodes, i).contains(h.object_index)
            &&& h.distance < best_distance(best)
        }),
    decreases i,
{
    if 0 <= i < nodes.len() {
        if !bh(nodes[i].bounds) {
            assert forall|p: usize| #[trigger] leaves(nodes, i).contains(p) && ph(p) is Some implies false by {}
        } else {
            match nodes[i].object_index {
                Some(p) => {
                    assert(leaves(nodes, i) == set![p]);
                },
                None => {
                    let l = child(nodes[i].left);
                    let r = child(nodes[i].right);
                    let after_left = if 0 <= l < i {
                        traverse(nodes, l, bh, ph, best)
                    } else {
                        best
                    };
                    if 0 <= l < i {
                        lemma_traverse_nearest(nodes, l, bh, ph, best);
                    }
                    if 0 <= r < i {
                        lemma_traverse_nearest(nodes, r, bh, ph, after_left);
                    }
                    let fin = traverse(nodes, i, bh, ph, best);
                    assert(fin == if 0 <= r < i {
                        traverse(nodes, r, bh, ph, after_left)
                    } else {
                        after_left
                    });
                    assert forall|p: usize|
                        #[trigger] leaves(nodes, i).contains(p) && ph(p) is Some implies best_distance(fin)
                            <= ph(p).unwrap() by {
                        if 0 <= l < i && leaves(nodes, l).contains(p) {
                        } else {
                            assert(0 <= r < i && leaves(nodes, r).contains(p));
                        }
                    }
                },
            }
        }
    }
}

proof fn lemma_scan_nearest(ph: spec_fn(usize) -> Option<u32>, n: nat)
    requires
        n <= usize::MAX + 1,
    ensures
        best_distance(scan(ph, n)) <= INFINITY_KEY,
        forall|p: usize| p < n && #[trigger] ph(p) is Some ==> best_distance(scan(ph, n)) <= ph(p).unwrap(),
        scan(ph, n) is None || ({
            let h = scan(ph, n).unwrap();
            &&& ph(h.object_index) == Some(h.distance)
            &&& h.object_index < n
            &&& h.distance < INFINITY_KEY
        }),
    decreases n,
{
    if n > 0 {
        lemma_scan_nearest(ph, (n - 1) as nat);
    }
}

/// The hierarchy finds what a brute-force scan of every primitive finds: a hit
/// at the same distance, or no hit for both, provided that a ray meeting a
/// primitive also meets every box above it.
pub proof fn lemma_bvh_matches_scan(
    bvh: &BVH,
    box_hit: spec_fn(AABB) -> bool,
    prim_hit: spec_fn(usize) -> Option<u32>,
)
    requires
        bvh.wf(),
        bvh.covers_all(),
        conservative(bvh.nodes(), box_hit, prim_hit),
    ensures
        best_distance(bvh.nearest(box_hit, prim_hit)) == best_distance(scan(prim_hit, bvh.count())),
        bvh.nearest(box_hit, prim_hit) is None <==> scan(prim_hit, bvh.count()) is None,
        bvh.nearest(box_hit, prim_hit) is Some ==> ({
            let h = bvh.nearest(box_hit, prim_hit).unwrap();
            &&& h.object_index < bvh.count()
            &&& prim_hit(h.object_index) == Some(h.distance)
        }),
{
    bvh.lemma_count_fits();
    let t = bvh.nearest(box_hit, prim_hit);
    let s = scan(prim_hit, bvh.count());
    lemma_traverse_nearest(bvh.nodes(), bvh.root(), box_hit, prim_hit, None);
    lemma_scan_nearest(prim_hit, bvh.count());
    if t is Some {
        let h = t.unwrap();
        assert(leaves(bvh.nodes(), bvh.root()).contains(h.object_index));
    }
    if s is Some {
        let h = s.unwrap();
        assert(leaves(bvh.nodes(), bvh.root()).contains(h.object_index));
    }
}

/// Each node's box encloses the box of every primitive beneath it.
pub open spec fn bounds_enclose(nodes: Seq<BvhNode>, bounds: Seq<AABB>) -> bool {
    forall|i: int, p: usize|
        0 <= i < nodes.len() && #[trigger] leaves(nodes, i).contains(p) ==> p < bounds.len()
            && nodes[i].bounds.encloses(bounds[p as int])
}

/// Along `axis`, no primitive under the left child of node `i` has a larger
/// center key than a primitive under its right child.
pub open spec fn ordered_across(nodes: Seq<BvhNode>, i: int, centers: Seq<OrderedPoint>, axis: usize) -> bool {
    forall|p: usize, q: usize|
        #![trigger leaves(nodes, child(nodes[i].left)).contains(p), leaves(nodes, child(nodes[i].right)).contains(q)]
        leaves(nodes, child(nodes[i].left)).contains(p) && leaves(nodes, child(nodes[i].right)).contains(q)
            ==> centers[p as int].coord(axis as int) <= centers[q as int].coord(axis as int)
}

/// Inner node `i` splits its primitives along an axis that `widest_axis`
/// picks for the node's box.
pub open spec fn split_along_chosen_axis<F: Fn(AABB) -> usize>(
    nodes: Seq<BvhNode>,
    i: int,
    centers: Seq<OrderedPoint>,
    widest_axis: F,
) -> bool {
    nodes[i].object_index is None ==> exists|axis: usize|
        widest_axis.ensures((nodes[i].bounds,), axis) && ordered_across(nodes, i, centers, axis)
}

/// Every inner node splits its primitives along the axis chosen for its box.
pub open spec fn splits_ordered<F: Fn(AABB) -> usize>(
    nodes: Seq<BvhNode>,
    centers: Seq<OrderedPoint>,
    widest_axis: F,
) -> bool {
    forall|i: int| 0 <= i < nodes.len() ==> #[trigger] split_along_chosen_axis(nodes, i, centers, widest_axis)
}

proof fn lemma_splits_extend<F: Fn(AABB) -> usize>(
    a: Seq<BvhNode>,
    b: Seq<BvhNode>,
    centers: Seq<OrderedPoint>,
    widest_axis: F,
)
    requires
        a.len() <= b.len(),
        forall|k: int| 0 <= k < a.len() ==> a[k] == b[k],
        tree_wf(a, centers.len()),
        splits_ordered(a, centers, widest_axis),
    ensures
        forall|i: int| 0 <= i < a.len() ==> #[trigger] split_along_chosen_axis(b, i, centers, widest_axis),
{
    assert forall|i: int| 0 <= i < a.len() implies #[trigger] split_along_chosen_axis(b, i, centers, widest_axis) by {
        assert(split_along_chosen_axis(a, i, centers, widest_axis));
        if b[i].object_index is None {
            assert(node_wf(a, i, centers.len()));
            let l = child(a[i].left);
            let r = child(a[i].right);
            lemma_leaves_extend(a, b, l);
            lemma_leaves_extend(a, b, r);
            let axis = choose|axis: usize|
                widest_axis.ensures((a[i].bounds,), axis) && ordered_across(a, i, centers, axis);
            assert(ordered_across(b, i, centers, axis));
        }
    }
}

/// `b` is the smallest box around the boxes of the primitives in `s`: it
/// encloses each of them, and every box that encloses each of them encloses it.
pub open spec fn smallest_around(b: AABB, bounds: Seq<AABB>, s: Set<usize>) -> bool {
    &&& forall|p: usize| #[trigger] s.contains(p) ==> p < bounds.len() && b.encloses(bounds[p as int])
    &&& forall|c: AABB|
        (forall|p: usize| #[trigger] s.contains(p) ==> c.encloses(bounds[p as int])) ==> #[trigger] c.encloses(b)
}

/// Along `a`, `b`'s minimum is the minimum of some box of `s`.
pub open spec fn min_attained(b: AABB, bounds: Seq<AABB>, s: Set<usize>, a: int) -> bool {
    exists|p: usize| s.contains(p) && bounds[p as int].min.coord(a) == b.min.coord(a)
}

/// Along `a`, `b`'s maximum is the maximum of some box of `s`.
pub open spec fn max_attained(b: AABB, bounds: Seq<AABB>, s: Set<usize>, a: int) -> bool {
    exists|p: usize| s.contains(p) && bounds[p as int].max.coord(a) == b.max.coord(a)
}

/// Each of `b`'s six coordinates is the coordinate of some box of `s`.
pub open spec fn attained(b: AABB, bounds: Seq<AABB>, s: Set<usize>) -> bool {
    &&& min_attained(b, bounds, s, 0)
    &&& min_attained(b, bounds, s, 1)
    &&& min_attained(b, bounds, s, 2)
    &&& max_attained(b, bounds, s, 0)
    &&& max_attained(b, bounds, s, 1)
    &&& max_attained(b, bounds, s, 2)
}

proof fn lemma_attained_smallest(b: AABB, bounds: Seq<AABB>, s: Set<usize>)
    requires
        forall|p: usize| #[trigger] s.contains(p) ==> p < bounds.len() && b.encloses(bounds[p as int]),
        attained(b, bounds, s),
    ensures
        smallest_around(b, bounds, s),
{
    assert forall|c: AABB| (forall|p: usize| #[trigger] s.contains(p) ==> c.encloses(bounds[p as int])) implies #[trigger] c.encloses(b) by {
        assert forall|a: int| 0 <= a < 3 implies c.min.coord(a) <= b.min.coord(a) && b.max.coord(a) <= c.max.coord(a) by {
            assert(a == 0 || a == 1 || a == 2);
            let p = choose|p: usize| s.contains(p) && bounds[p as int].min.coord(a) == b.min.coord(a);
            let q = choose|q: usize| s.contains(q) && bounds[q as int].max.coord(a) == b.max.coord(a);
            assert(c.encloses(bounds[p as int]));
            assert(c.encloses(bounds[q as int]));
        }
        assert(c.min.coord(0) <= b.min.coord(0) && b.max.coord(0) <= c.max.coord(0));
        assert(c.min.coord(1) <= b.min.coord(1) && b.max.coord(1) <= c.max.coord(1));
        assert(c.min.coord(2) <= b.min.coord(2) && b.max.coord(2) <= c.max.coord(2));
    }
}

proof fn lemma_attained_step(
    prev: AABB,
    b: AABB,
    x: usize,
    bounds: Seq<AABB>,
    old_set: Set<usize>,
    new_set: Set<usize>,
    a: int,
)
    requires
        min_attained(prev, bounds, old_set, a),
        max_attained(prev, bounds, old_set, a),
        old_set.subset_of(new_set),
        new_set.contains(x),
        b.min.coord(a) == crate::bounds::min_u32(prev.min.coord(a), bounds[x as int].min.coord(a)),
        b.max.coord(a) == crate::bounds::max_u32(prev.max.coord(a), bounds[x as int].max.coord(a)),
    ensures
        min_attained(b, bounds, new_set, a),
        max_attained(b, bounds, new_set, a),
{
    if b.min.coord(a) == prev.min.coord(a) {
        let p = choose|p: usize| old_set.contains(p) && bounds[p as int].min.coord(a) == prev.min.coord(a);
        assert(new_set.contains(p));
    } else {
        assert(bounds[x as int].min.coord(a) == b.min.coord(a));
    }
    if b.max.coord(a) == prev.max.coord(a) {
        let p = choose|p: usize| old_set.contains(p) && bounds[p as int].max.coord(a) == prev.max.coord(a);
        assert(new_set.contains(p));
    } else {
        assert(bounds[x as int].max.coord(a) == b.max.coord(a));
    }
}

/// The union of the boxes of `order[lo..hi]`.
fn slice_bounds(bounds: &Vec<AABB>, order: &Vec<usize>, lo: usize, hi: usize) -> (b: AABB)
    requires
        lo < hi <= order.len(),
        forall|k: int| 0 <= k < order.len() ==> order[k] < bounds.len(),
    ensures
        smallest_around(b, bounds@, range_set(order@, lo as int, hi as int)),
{
    let mut b = bounds[order[lo]];
    proof {
        let first = range_set(order@, lo as int, lo + 1);
        assert(first.contains(order[lo as int]));
        let f = order[lo as int];
        assert(bounds[f as int].min.coord(0) == b.min.coord(0) && bounds[f as int].max.coord(0) == b.max.coord(0));
        assert(bounds[f as int].min.coord(1) == b.min.coord(1) && bounds[f as int].max.coord(1) == b.max.coord(1));
        assert(bounds[f as int].min.coord(2) == b.min.coord(2) && bounds[f as int].max.coord(2) == b.max.coord(2));
    }
    let mut k: usize = lo + 1;
    while k < hi
        invariant
            lo < k <= hi,
            hi <= order.len(),
            forall|q: int| 0 <= q < order.len() ==> order[q] < bounds.len(),
            forall|q: int| lo <= q < k ==> b.encloses(#[trigger] bounds[order[q] as int]),
            attained(b, bounds@, range_set(order@, lo as int, k as int)),
        decreases hi - k,
    {
        let ghost prev = b;
        let ghost x = bounds[order[k as int] as int];
        b = b.union(&bounds[order[k]]);
        proof {
            assert forall|q: int| lo <= q < k + 1 implies b.encloses(
                #[trigger] bounds[order[q] as int],
            ) by {
                if q < k {
                    lemma_encloses_trans(b, prev, bounds[order[q] as int]);
                }
            }
            let old_set = range_set(order@, lo as int, k as int);
            let new_set = range_set(order@, lo as int, k + 1);
            assert(new_set.contains(order[k as int]));
            assert forall|p: usize| old_set.contains(p) implies new_set.contains(p) by {
                let q = choose|q: int| lo <= q < k && order@[q] == p;
                assert(lo <= q < k + 1 && order@[q] == p);
            }
            lemma_attained_step(prev, b, order[k as int], bounds@, old_set, new_set, 0);
            lemma_attained_step(prev, b, order[k as int], bounds@, old_set, new_set, 1);
            lemma_attained_step(prev, b, order[k as int], bounds@, old_set, new_set, 2);
            assert(attained(b, bounds@, new_set));
        }
        k = k + 1;
    }
    proof {
        let all = range_set(order@, lo as int, hi as int);
        assert forall|p: usize| #[trigger] all.contains(p) implies p < bounds.len() && b.encloses(bounds[p as int]) by {
            let q = choose|q: int| lo <= q < hi && order@[q] == p;
            assert(b.encloses(bounds[order[q] as int]));
        }
        lemma_attained_smallest(b, bounds@, all);
    }
    b
}

/// No primitive is named by two leaves.
pub open spec fn unique_leaves(nodes: Seq<BvhNode>) -> bool {
    forall|i: int, j: int|
        0 <= i < nodes.len() && 0 <= j < nodes.len() && nodes[i].object_index is Some
            && #[trigger] nodes[i].object_index == #[trigger] nodes[j].object_index ==> i == j
}

/// The leaves among `nodes[start..]` name primitives of `s` only.
pub open spec fn new_leaves_within(nodes: Seq<BvhNode>, start: int, s: Set<usize>) -> bool {
    forall|i: int|
        start <= i < nodes.len() && #[trigger] nodes[i].object_index is Some ==> s.contains(
            nodes[i].object_index.unwrap(),
        )
}

/// The leaves among `nodes[..end]` name no primitive of `s`.
pub open spec fn old_leaves_outside(nodes: Seq<BvhNode>, end: int, s: Set<usize>) -> bool {
    forall|i: int|
        0 <= i < end && #[trigger] nodes[i].object_index is Some ==> !s.contains(
            nodes[i].object_index.unwrap(),
        )
}

/// From `start` on, every node's box is the smallest box around the boxes of
/// the primitives beneath it.
pub open spec fn boxes_tight_from(nodes: Seq<BvhNode>, bounds: Seq<AABB>, start: int) -> bool {
    forall|i: int|
        start <= i < nodes.len() ==> #[trigger] smallest_around(nodes[i].bounds, bounds, leaves(nodes, i))
}

/// A slice of `len` primitives at `depth` never meets the depth cap below it.
pub open spec fn below_cap(depth: u32, len: int) -> bool {
    depth <= MAX_BUILD_DEPTH && len <= power_of_two((MAX_BUILD_DEPTH - depth) as nat)
}

proof fn lemma_encloses_trans(a: AABB, b: AABB, c: AABB)
    requires
        a.encloses(b),
        b.encloses(c),
    ensures
        a.encloses(c),
{
}

proof fn lemma_enclose_extend(a: Seq<BvhNode>, b: Seq<BvhNode>, bounds: Seq<AABB>)
    requires
        a.len() <= b.len(),
        forall|k: int| 0 <= k < a.len() ==> a[k] == b[k],
        bounds_enclose(a, bounds),
    ensures
        forall|i: int, p: usize|
            0 <= i < a.len() && #[trigger] leaves(b, i).contains(p) ==> p < bounds.len()
                && b[i].bounds.encloses(bounds[p as int]),
{
    assert forall|i: int, p: usize| 0 <= i < a.len() && #[trigger] leaves(b, i).contains(p) implies p
        < bounds.len() && b[i].bounds.encloses(bounds[p as int]) by {
        lemma_leaves_extend(a, b, i);
        assert(leaves(a, i).contains(p));
    }
}

/// For any scene: when a ray that meets a box also meets every box enclosing
/// it, and a ray that meets a primitive meets that primitive's box, the
/// hierarchy built over the primitives' boxes finds the nearest hit that a
/// brute-force scan of all primitives finds.
pub proof fn lemma_bvh_nearest_is_brute_force(
    bvh: &BVH,
    bounds: Seq<AABB>,
    box_hit: spec_fn(AABB) -> bool,
    prim_hit: spec_fn(usize) -> Option<u32>,
)
    requires
        bvh.wf(),
        bvh.covers_all(),
        bounds_enclose(bvh.nodes(), bounds),
        forall|a: AABB, b: AABB|
            #![trigger box_hit(a), box_hit(b)]
            box_hit(a) && b.encloses(a) ==> box_hit(b),
        forall|p: usize| p < bounds.len() && #[trigger] prim_hit(p) is Some ==> box_hit(bounds[p as int]),
    ensures
        best_distance(bvh.nearest(box_hit, prim_hit)) == best_distance(scan(prim_hit, bvh.count())),
        bvh.nearest(box_hit, prim_hit) is None <==> scan(prim_hit, bvh.count()) is None,
        bvh.nearest(box_hit, prim_hit) is Some ==> ({
            let h = bvh.nearest(box_hit, prim_hit).unwrap();
            &&& h.object_index < bvh.count()
            &&& prim_hit(h.object_index) == Some(h.distance)
        }),
{
    let nodes = bvh.nodes();
    assert forall|i: int, p: usize|
        0 <= i < nodes.len() && #[trigger] leaves(nodes, i).contains(p) && prim_hit(p) is Some implies box_hit(
        nodes[i].bounds,
    ) by {
        assert(box_hit(bounds[p as int]));
    }
    lemma_bvh_matches_scan(bvh, box_hit, prim_hit);
}

proof fn lemma_range_split(s: Seq<usize>, lo: int, mid: int, hi: int)
    requires
        lo <= mid <= hi,
    ensures
        range_set(s, lo, hi) == range_set(s, lo, mid).union(range_set(s, mid, hi)),
{
    assert forall|x: usize| range_set(s, lo, hi).contains(x) implies range_set(s, lo, mid).union(
        range_set(s, mid, hi),
    ).contains(x) by {
        let k = choose|k: int| lo <= k < hi && s[k] == x;
        if k < mid {
            assert(range_set(s, lo, mid).contains(x));
        } else {
            assert(range_set(s, mid, hi).contains(x));
        }
    }
    assert(range_set(s, lo, hi) =~= range_set(s, lo, mid).union(range_set(s, mid, hi)));
}

proof fn lemma_range_agree(s: Seq<usize>, t: Seq<usize>, lo: int, hi: int)
    requires
        forall|k: int| lo <= k < hi ==> s[k] == t[k],
    ensures
        range_set(s, lo, hi) == range_set(t, lo, hi),
{
    assert forall|x: usize| range_set(s, lo, hi).contains(x) implies range_set(t, lo, hi).contains(x) by {
        let k = choose|k: int| lo <= k < hi && s[k] == x;
        assert(t[k] == x);
    }
    assert forall|x: usize| range_set(t, lo, hi).contains(x) implies range_set(s, lo, hi).contains(x) by {
        let k = choose|k: int| lo <= k < hi && t[k] == x;
        assert(s[k] == x);
    }
    assert(range_set(s, lo, hi) =~= range_set(t, lo, hi));
}

/// Positions on either side of `mid` hold different elements.
proof fn lemma_range_disjoint(s: Seq<usize>, lo: int, mid: int, hi: int)
    requires
        s.no_duplicates(),
        0 <= lo <= mid <= hi <= s.len(),
    ensures
        forall|x: usize| !(#[trigger] range_set(s, lo, mid).contains(x) && range_set(s, mid, hi).contains(x)),
{
    assert forall|x: usize| !(#[trigger] range_set(s, lo, mid).contains(x) && range_set(s, mid, hi).contains(x)) by {
        if range_set(s, lo, mid).contains(x) && range_set(s, mid, hi).contains(x) {
            let a = choose|a: int| lo <= a < mid && s[a] == x;
            let b = choose|b: int| mid <= b < hi && s[b] == x;
            assert(s[a] == s[b]);
        }
    }
}

/// Rearranging `lo..hi` keeps the set of elements there, and keeps a sequence
/// free of duplicates.
proof fn lemma_permuted_range(s: Seq<usize>, t: Seq<usize>, lo: int, hi: int)
    requires
        0 <= lo <= hi <= s.len(),
        s.len() == t.len(),
        forall|k: int| 0 <= k < s.len() && !(lo <= k < hi) ==> t[k] == s[k],
        t.subrange(lo, hi).to_multiset() == s.subrange(lo, hi).to_multiset(),
    ensures
        range_set(t, lo, hi) == range_set(s, lo, hi),
        s.no_duplicates() ==> t.no_duplicates(),
{
    broadcast use vstd::seq_lib::group_to_multiset_ensures;

    let rs = s.subrange(lo, hi);
    let rt = t.subrange(lo, hi);
    assert forall|x: usize| range_set(s, lo, hi).contains(x) <==> rs.contains(x) by {
        if range_set(s, lo, hi).contains(x) {
            let k = choose|k: int| lo <= k < hi && s[k] == x;
            assert(rs[k - lo] == x);
        }
        if rs.contains(x) {
            let k = choose|k: int| 0 <= k < rs.len() && rs[k] == x;
            assert(s[lo + k] == x);
        }
    }
    assert forall|x: usize| range_set(t, lo, hi).contains(x) <==> rt.contains(x) by {
        if range_set(t, lo, hi).contains(x) {
            let k = choose|k: int| lo <= k < hi && t[k] == x;
            assert(rt[k - lo] == x);
        }
        if rt.contains(x) {
            let k = choose|k: int| 0 <= k < rt.len() && rt[k] == x;
            assert(t[lo + k] == x);
        }
    }
    assert forall|x: usize| rs.contains(x) <==> rt.contains(x) by {
        assert(rs.to_multiset().count(x) == rt.to_multiset().count(x));
    }
    assert forall|x: usize| range_set(t, lo, hi).contains(x) <==> range_set(s, lo, hi).contains(x) by {
        assert(range_set(s, lo, hi).contains(x) <==> rs.contains(x));
        assert(range_set(t, lo, hi).contains(x) <==> rt.contains(x));
        assert(rs.contains(x) <==> rt.contains(x));
    }
    assert(range_set(t, lo, hi) =~= range_set(s, lo, hi));
    if s.no_duplicates() {
        assert(rs.no_duplicates()) by {
            assert forall|i: int, j: int| 0 <= i < rs.len() && 0 <= j < rs.len() && i != j implies rs[i] != rs[j] by {
                assert(rs[i] == s[lo + i] && rs[j] == s[lo + j]);
            }
        }
        rs.lemma_multiset_has_no_duplicates();
        rt.lemma_multiset_has_no_duplicates_conv();
        assert forall|i: int, j: int| 0 <= i < t.len() && 0 <= j < t.len() && i != j implies t[i] != t[j] by {
            let ii = lo <= i < hi;
            let jj = lo <= j < hi;
            if ii && jj {
                assert(rt[i - lo] == t[i] && rt[j - lo] == t[j]);
            } else if ii {
                assert(rt[i - lo] == t[i]);
                assert(range_set(t, lo, hi).contains(t[i]));
                let k = choose|k: int| lo <= k < hi && s[k] == t[i];
                assert(s[k] != s[j]);
            } else if jj {
                assert(rt[j - lo] == t[j]);
                assert(range_set(t, lo, hi).contains(t[j]));
                let k = choose|k: int| lo <= k < hi && s[k] == t[j];
                assert(s[k] != s[i]);
            } else {
                assert(s[i] != s[j]);
            }
        }
    }
}

proof fn lemma_leaves_extend(a: Seq<BvhNode>, b: Seq<BvhNode>, i: int)
    requires
        a.len() <= b.len(),
        forall|k: int| 0 <= k < a.len() ==> a[k] == b[k],
        0 <= i < a.len(),
    ensures
        leaves(b, i) == leaves(a, i),
    decreases i,
{
    let l = child(a[i].left);
    let r = child(a[i].right);
    if 0 <= l < i {
        lemma_leaves_extend(a, b, l);
    }
    if 0 <= r < i {
        lemma_leaves_extend(a, b, r);
    }
}

/// Sorts `order[lo..hi]` by the centers' key along `axis`.
fn sort_range(centers: &Vec<OrderedPoint>, order: &mut Vec<usize>, lo: usize, hi: usize, axis: usize)
    requires
        lo < hi <= old(order).len(),
        forall|k: int| 0 <= k < old(order).len() ==> old(order)[k] < centers.len(),
        old(order)@.no_duplicates(),
    ensures
        final(order)@.no_duplicates(),
        final(order).len() == old(order).len(),
        forall|k: int|
            0 <= k < old(order).len() && !(lo <= k < hi) ==> final(order)[k] == old(order)[k],
        range_set(final(order)@, lo as int, hi as int) == range_set(old(order)@, lo as int, hi as int),
        forall|k: int| 0 <= k < final(order).len() ==> final(order)[k] < centers.len(),
        forall|a: int, b: int|
            lo <= a < b < hi ==> center_key(centers@, final(order)@, a, axis as int) <= center_key(
                centers@,
                final(order)@,
                b,
                axis as int,
            ),
{
    let ghost before = order@;
    merge_sort_range(centers, order, lo, hi, axis);
    proof {
        lemma_permuted_range(before, order@, lo as int, hi as int);
        assert forall|a: int, b: int| lo <= a < b < hi implies center_key(centers@, order@, a, axis as int)
            <= center_key(centers@, order@, b, axis as int) by {
            let run = order@.subrange(lo as int, hi as int);
            assert(run[a - lo] == order@[a] && run[b - lo] == order@[b]);
        }
    }
}

impl BVH {
    pub closed spec fn nodes(&self) -> Seq<BvhNode> {
        self.nodes@
    }

    pub closed spec fn count(&self) -> nat {
        self.count as nat
    }

    proof fn lemma_count_fits(&self)
        ensures
            self.count() <= usize::MAX,
    {
    }

    pub open spec fn root(&self) -> int {
        self.nodes().len() - 1
    }

    /// Every node is well formed, and the tree is empty exactly when there
    /// are no primitives.
    pub open spec fn wf(&self) -> bool {
        &&& tree_wf(self.nodes(), self.count())
        &&& (self.count() == 0 <==> self.nodes().len() == 0)
    }

    #[verifier::type_invariant]
    spec fn inv(self) -> bool {
        self.wf()
    }

    /// The leaves under the root name every primitive.
    pub open spec fn covers_all(&self) -> bool {
        leaves(self.nodes(), self.root()) == Set::new(|p: usize| p < self.count())
    }

    /// The hit that a traversal from the root returns.
    pub open spec fn nearest(
        &self,
        box_hit: spec_fn(AABB) -> bool,
        prim_hit: spec_fn(usize) -> Option<u32>,
    ) -> Option<Hit> {
        traverse(self.nodes(), self.root(), box_hit, prim_hit, None)
    }

    fn build_recursive<F: Fn(AABB) -> usize>(
        bounds: &Vec<AABB>,
        centers: &Vec<OrderedPoint>,
        widest_axis: &F,
        order: &mut Vec<usize>,
        lo: usize,
        hi: usize,
        nodes: &mut Vec<BvhNode>,
        depth: u32,
    ) -> (r: usize)
        requires
            lo < hi <= old(order).len(),
            bounds.len() == centers.len(),
            forall|k: int| 0 <= k < old(order).len() ==> old(order)[k] < bounds.len(),
            tree_wf(old(nodes)@, bounds.len() as nat),
            bounds_enclose(old(nodes)@, bounds@),
            splits_ordered(old(nodes)@, centers@, *widest_axis),
            forall|b: AABB| widest_axis.requires((b,)),
            old(order)@.no_duplicates(),
            unique_leaves(old(nodes)@),
            old_leaves_outside(old(nodes)@, old(nodes).len() as int, range_set(old(order)@, lo as int, hi as int)),
        ensures
            final(order)@.no_duplicates(),
            unique_leaves(final(nodes)@),
            new_leaves_within(final(nodes)@, old(nodes).len() as int, range_set(old(order)@, lo as int, hi as int)),
            smallest_around(final(nodes)[r as int].bounds, bounds@, range_set(old(order)@, lo as int, hi as int)),
            hi - lo == 1 || depth > MAX_BUILD_DEPTH ==> {
                &&& final(nodes).len() == old(nodes).len() + 1
                &&& final(nodes)[r as int].object_index == Some(old(order)[lo as int])
                &&& final(order)@ == old(order)@
            },
            !(hi - lo == 1 || depth > MAX_BUILD_DEPTH) ==> {
                let mid = lo + (hi - lo) / 2;
                let node = final(nodes)[r as int];
                &&& node.object_index is None
                &&& node.left is Some
                &&& node.right is Some
                &&& leaves(final(nodes)@, child(node.left)).subset_of(range_set(final(order)@, lo as int, mid))
                &&& leaves(final(nodes)@, child(node.right)).subset_of(range_set(final(order)@, mid, hi as int))
                &&& below_cap(depth, hi - lo) ==> leaves(final(nodes)@, child(node.left)) == range_set(
                    final(order)@,
                    lo as int,
                    mid,
                ) && leaves(final(nodes)@, child(node.right)) == range_set(final(order)@, mid, hi as int)
            },
            below_cap(depth, hi - lo) ==> final(nodes).len() == old(nodes).len() + 2 * (hi - lo) - 1
                && boxes_tight_from(final(nodes)@, bounds@, old(nodes).len() as int),
            bounds_enclose(final(nodes)@, bounds@),
            splits_ordered(final(nodes)@, centers@, *widest_axis),
            final(order).len() == old(order).len(),
            forall|k: int|
                0 <= k < old(order).len() && !(lo <= k < hi) ==> final(order)[k] == old(order)[k],
            range_set(final(order)@, lo as int, hi as int) == range_set(
                old(order)@,
                lo as int,
                hi as int,
            ),
            forall|k: int| 0 <= k < final(order).len() ==> final(order)[k] < bounds.len(),
            final(nodes).len() > old(nodes).len(),
            r == final(nodes).len() - 1,
            forall|k: int| 0 <= k < old(nodes).len() ==> final(nodes)[k] == old(nodes)[k],
            tree_wf(final(nodes)@, bounds.len() as nat),
            leaves(final(nodes)@, r as int).subset_of(range_set(old(order)@, lo as int, hi as int)),
            below_cap(depth, hi - lo) ==> leaves(final(nodes)@, r as int) == range_set(
                old(order)@,
                lo as int,
                hi as int,
            ),
        decreases hi - lo,
    {
        let ghost n = bounds.len() as nat;
        let b = slice_bounds(bounds, order, lo, hi);
        if hi - lo == 1 || depth > MAX_BUILD_DEPTH {
            let ghost before = nodes@;
            let node_index = nodes.len();
            let first = order[lo];
            nodes.push(BvhNode { bounds: b, left: None, right: None, object_index: Some(first) });
            proof {
                assert forall|q: int| 0 <= q < nodes.len() implies #[trigger] node_wf(nodes@, q, n) by {
                    if q < before.len() {
                        assert(node_wf(before, q, n));
                    }
                }
                lemma_enclose_extend(before, nodes@, bounds@);
                lemma_splits_extend(before, nodes@, centers@, *widest_axis);
                assert(split_along_chosen_axis(nodes@, node_index as int, centers@, *widest_axis));
                assert(leaves(nodes@, node_index as int) == set![first]);
                assert(range_set(order@, lo as int, hi as int).contains(first));
                if hi - lo == 1 {
                    assert forall|x: usize| range_set(order@, lo as int, hi as int).contains(x) implies x
                        == first by {}
                    assert(leaves(nodes@, node_index as int) =~= range_set(order@, lo as int, hi as int));
                }
                assert forall|i: int, j: int|
                    0 <= i < nodes.len() && 0 <= j < nodes.len() && nodes@[i].object_index is Some
                        && #[trigger] nodes@[i].object_index == #[trigger] nodes@[j].object_index implies i == j by {
                    if i < before.len() && j < before.len() {
                        assert(before[i].object_index == before[j].object_index);
                    } else if i < before.len() {
                        assert(before[i].object_index is Some);
                    } else if j < before.len() {
                        assert(before[j].object_index is Some);
                    }
                }
            }
            return node_index;
        }
        let axis = widest_axis(b);
        let ghost unsorted = order@;
        sort_range(centers, order, lo, hi, axis);
        let ghost sorted = order@;
        let mid = lo + (hi - lo) / 2;
        let ghost nodes0 = nodes@;
        proof {
            lemma_range_split(sorted, lo as int, mid as int, hi as int);
            lemma_range_disjoint(sorted, lo as int, mid as int, hi as int);
        }
        let left = Self::build_recursive(bounds, centers, widest_axis, order, lo, mid, nodes, depth + 1);
        let ghost after_left = order@;
        let ghost nodes1 = nodes@;
        proof {
            lemma_range_agree(after_left, sorted, mid as int, hi as int);
            assert forall|i: int|
                0 <= i < nodes1.len() && #[trigger] nodes1[i].object_index is Some implies !range_set(
                after_left,
                mid as int,
                hi as int,
            ).contains(nodes1[i].object_index.unwrap()) by {
                let x = nodes1[i].object_index.unwrap();
                if i < nodes0.len() {
                    assert(nodes0[i].object_index is Some);
                } else {
                    assert(range_set(sorted, lo as int, mid as int).contains(x));
                }
            }
        }
        let right = Self::build_recursive(bounds, centers, widest_axis, order, mid, hi, nodes, depth + 1);
        let ghost nodes2 = nodes@;
        let node_index = nodes.len();
        nodes.push(
            BvhNode { bounds: b, left: Some(left), right: Some(right), object_index: None },
        );
        proof {
            let fin = nodes@;
            assert forall|q: int| 0 <= q < fin.len() implies #[trigger] node_wf(fin, q, n) by {
                if q < nodes2.len() {
                    assert(node_wf(nodes2, q, n));
                    assert(fin[q] == nodes2[q]);
                }
            }
            lemma_enclose_extend(nodes2, fin, bounds@);
            lemma_splits_extend(nodes2, fin, centers@, *widest_axis);
            lemma_leaves_extend(nodes1, fin, left as int);
            lemma_leaves_extend(nodes2, fin, right as int);
            assert(leaves(fin, node_index as int) == leaves(fin, left as int).union(
                leaves(fin, right as int),
            ));
            lemma_range_agree(after_left, sorted, mid as int, hi as int);
            lemma_range_agree(order@, after_left, lo as int, mid as int);
            lemma_range_split(order@, lo as int, mid as int, hi as int);
            lemma_range_split(sorted, lo as int, mid as int, hi as int);
            assert(leaves(fin, node_index as int).subset_of(range_set(unsorted, lo as int, hi as int)));
            assert forall|q: int, p: usize|
                0 <= q < fin.len() && #[trigger] leaves(fin, q).contains(p) implies p < bounds.len()
                    && fin[q].bounds.encloses(bounds[p as int]) by {
                if q == node_index {
                    assert(range_set(unsorted, lo as int, hi as int).contains(p));
                }
            }
            assert(leaves(fin, left as int).subset_of(range_set(sorted, lo as int, mid as int)));
            assert(leaves(fin, right as int).subset_of(range_set(sorted, mid as int, hi as int)));
            assert forall|p: usize, q: usize|
                leaves(fin, left as int).contains(p) && leaves(fin, right as int).contains(q) implies centers@[p as int].coord(
                axis as int,
            ) <= centers@[q as int].coord(axis as int) by {
                assert(range_set(sorted, lo as int, mid as int).contains(p));
                assert(range_set(sorted, mid as int, hi as int).contains(q));
                let a = choose|a: int| lo <= a < mid && sorted[a] == p;
                let c = choose|c: int| mid <= c < hi && sorted[c] == q;
                assert(center_key(centers@, sorted, a, axis as int) <= center_key(centers@, sorted, c, axis as int));
            }
            assert(ordered_across(fin, node_index as int, centers@, axis));
            assert(split_along_chosen_axis(fin, node_index as int, centers@, *widest_axis));
            assert forall|q: int| 0 <= q < fin.len() implies #[trigger] split_along_chosen_axis(fin, q, centers@, *widest_axis) by {
                if q < nodes2.len() {
                }
            }
            if depth <= MAX_BUILD_DEPTH && hi - lo <= power_of_two((MAX_BUILD_DEPTH - depth) as nat) {
                assert(depth < MAX_BUILD_DEPTH);
                assert(power_of_two((MAX_BUILD_DEPTH - depth) as nat) == 2 * power_of_two(
                    (MAX_BUILD_DEPTH - (depth + 1)) as nat,
                ));
                assert(below_cap((depth + 1) as u32, mid - lo));
                assert(below_cap((depth + 1) as u32, hi - mid));
                assert(fin.len() == nodes0.len() + 2 * (hi - lo) - 1);
                assert forall|i: int| nodes0.len() <= i < fin.len() implies #[trigger] smallest_around(
                    fin[i].bounds,
                    bounds@,
                    leaves(fin, i),
                ) by {
                    if i < nodes1.len() {
                        assert(smallest_around(nodes1[i].bounds, bounds@, leaves(nodes1, i)));
                        lemma_leaves_extend(nodes1, fin, i);
                    } else if i < nodes2.len() {
                        assert(smallest_around(nodes2[i].bounds, bounds@, leaves(nodes2, i)));
                        lemma_leaves_extend(nodes2, fin, i);
                    } else {
                        assert(leaves(fin, node_index as int) == range_set(unsorted, lo as int, hi as int));
                    }
                }
            }
        }
        node_index
    }

    /// Builds the hierarchy over the primitives whose boxes are `bounds` and
    /// whose box centers are `centers`. Each slice is bounded by the union of
    /// its boxes, ordered along the axis that `widest_axis` picks for that
    /// union (0 is x, 1 is y, anything else z), and split at its middle index;
    /// a slice of one primitive, or one below the depth cap, becomes a leaf
    /// naming its first primitive. With at most 2^32 primitives the cap never
    /// fires: every primitive is named by exactly one leaf, there are
    /// `2n - 1` nodes, and each node's box is the union of its primitives' boxes.
    pub fn build<F: Fn(AABB) -> usize>(
        bounds: &Vec<AABB>,
        centers: &Vec<OrderedPoint>,
        widest_axis: F,
    ) -> (r: BVH)
        requires
            bounds.len() == centers.len(),
            forall|b: AABB| widest_axis.requires((b,)),
        ensures
            r.wf(),
            r.count() == bounds.len(),
            bounds_enclose(r.nodes(), bounds@),
            splits_ordered(r.nodes(), centers@, widest_axis),
            unique_leaves(r.nodes()),
            bounds.len() > 0 ==> smallest_around(
                r.nodes()[r.root()].bounds,
                bounds@,
                Set::new(|p: usize| p < bounds.len()),
            ),
            bounds.len() <= power_of_two(MAX_BUILD_DEPTH as nat) ==> r.covers_all(),
            bounds.len() <= power_of_two(MAX_BUILD_DEPTH as nat) ==> boxes_tight_from(r.nodes(), bounds@, 0),
            0 < bounds.len() <= power_of_two(MAX_BUILD_DEPTH as nat) ==> r.nodes().len() == 2 * bounds.len() - 1,
    {
        let mut nodes: Vec<BvhNode> = Vec::new();
        if bounds.len() == 0 {
            let r = BVH { nodes, count: 0 };
            proof {
                assert(r.nodes().len() == 0);
                assert(leaves(r.nodes(), r.root()) =~= Set::new(|p: usize| p < r.count()));
            }
            return r;
        }
        let mut order: Vec<usize> = Vec::new();
        let mut i: usize = 0;
        while i < bounds.len()
            invariant
                i <= bounds.len(),
                order.len() == i,
                forall|k: int| 0 <= k < i ==> order[k] == k,
            decreases bounds.len() - i,
        {
            order.push(i);
            i = i + 1;
        }
        let ghost initial = order@;
        let root = Self::build_recursive(bounds, centers, &widest_axis, &mut order, 0, bounds.len(), &mut nodes, 0);
        proof {
            assert(range_set(initial, 0, bounds.len() as int) =~= Set::new(
                |p: usize| p < bounds.len(),
            )) by {
                assert forall|p: usize| p < bounds.len() implies range_set(
                    initial,
                    0,
                    bounds.len() as int,
                ).contains(p) by {
                    assert(initial[p as int] == p);
                }
            }
        }
        BVH { nodes, count: bounds.len() }
    }

    fn intersect_recursive<B: Fn(AABB) -> bool, P: Fn(usize) -> Option<u32>>(
        &self,
        i: usize,
        box_test: &B,
        prim_test: &P,
        best: Option<Hit>,
    ) -> (r: Option<Hit>)
        requires
            self.wf(),
            i < self.nodes().len(),
            forall|b: AABB| box_test.requires((b,)),
            forall|p: usize| p < self.count() ==> prim_test.requires((p,)),
        ensures
            forall|bh: spec_fn(AABB) -> bool, ph: spec_fn(usize) -> Option<u32>|
                #[trigger] answers(*box_test, *prim_test, bh, ph) ==> r == traverse(
                    self.nodes(),
                    i as int,
                    bh,
                    ph,
                    best,
                ),
        decreases i,
    {
        let node = self.nodes[i];
        proof {
            assert(node_wf(self.nodes(), i as int, self.count()));
        }
        let hit_box = box_test(node.bounds);
        if !hit_box {
            return best;
        }
        match node.object_index {
            Some(p) => {
                let found = prim_test(p);
                let bound = match best {
                    Some(h) => h.distance,
                    None => INFINITY_KEY,
                };
                match found {
                    Some(d) => {
                        if d < bound {
                            Some(Hit { object_index: p, distance: d })
                        } else {
                            best
                        }
                    },
                    None => best,
                }
            },
            None => {
                let l = node.left.unwrap();
                let r = node.right.unwrap();
                let after_left = self.intersect_recursive(l, box_test, prim_test, best);
                self.intersect_recursive(r, box_test, prim_test, after_left)
            },
        }
    }

    /// The nearest primitive that the ray meets, found by depth-first descent:
    /// `box_test` says whether the ray meets a box, and prunes the subtree when
    /// it does not; `prim_test` gives the order key of the distance at which the
    /// ray meets a primitive, if it does. A hit replaces the best one so far
    /// only when strictly nearer. With no primitives there is never a hit.
    pub fn intersect<B: Fn(AABB) -> bool, P: Fn(usize) -> Option<u32>>(
        &self,
        box_test: B,
        prim_test: P,
    ) -> (r: Option<Hit>)
        requires
            forall|b: AABB| box_test.requires((b,)),
            forall|p: usize| p < self.count() ==> prim_test.requires((p,)),
        ensures
            forall|bh: spec_fn(AABB) -> bool, ph: spec_fn(usize) -> Option<u32>|
                #[trigger] answers(box_test, prim_test, bh, ph) ==> r == self.nearest(bh, ph),
            self.count() == 0 ==> r is None,
    {
        proof {
            use_type_invariant(self);
        }
        if self.nodes.len() == 0 {
            return None;
        }
        self.intersect_recursive(self.nodes.len() - 1, &box_test, &prim_test, None)
    }

    /// The number of primitives the hierarchy was built over.
    pub fn len(&self) -> (r: usize)
        ensures
            r == self.count(),
    {
        self.count
    }
}

} // verus!