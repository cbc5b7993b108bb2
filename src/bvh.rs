use crate::geometry::{
    box_entry, empty_box, lemma_box_entry, lemma_in_box_mono, ray_scale, Axis, Hittable, Point3, Ray,
    AABB, DIR_LIMIT,
};
use vstd::prelude::*;

verus! {

/// The number of buckets that the surface-area heuristic sorts centroids into.
pub const SAH_BUCKETS: usize = 12;

/// The most primitives that a split may leave in one leaf when splitting costs more.
pub const MAX_PRIMS_IN_NODE: usize = 4;

/// The most primitives a hierarchy holds: node and primitive offsets are 32-bit.
pub const MAX_PRIMITIVES: usize = 2147483647;

/// A primitive during the build: its index in the input and its box.
#[derive(Clone, Copy)]
struct BvhPrimitive {
    id: usize,
    aabb: AABB,
}

/// The owned tree that the build produces before it is flattened.
enum BuildBvhNode {
    Leaf { aabb: AABB, first_prim_offset: usize, primitive_count: usize },
    Interior {
        aabb: AABB,
        split_axis: Axis,
        child_l: Box<BuildBvhNode>,
        child_r: Box<BuildBvhNode>,
    },
}

/// The union of `boxes[lo..hi]`.
pub open spec fn union_range(boxes: Seq<AABB>, lo: int, hi: int) -> AABB
    decreases hi - lo,
{
    if hi <= lo {
        empty_box()
    } else {
        union_range(boxes, lo, hi - 1).spec_union(boxes[hi - 1])
    }
}

spec fn boxes_of(s: Seq<BvhPrimitive>) -> Seq<AABB> {
    Seq::new(s.len(), |i: int| s[i].aabb)
}

spec fn ids_of(s: Seq<BvhPrimitive>) -> Seq<usize> {
    Seq::new(s.len(), |i: int| s[i].id)
}

/// The point box at twice the center of `b`.
pub open spec fn center_box(b: AABB) -> AABB {
    let c = Point3 {
        x: (b.min.x + b.max.x) as i64,
        y: (b.min.y + b.max.y) as i64,
        z: (b.min.z + b.max.z) as i64,
    };
    AABB { min: c, max: c }
}

/// The point boxes at twice the centers of `boxes`.
pub open spec fn box_centers(boxes: Seq<AABB>) -> Seq<AABB> {
    Seq::new(boxes.len(), |i: int| center_box(boxes[i]))
}

/// A leaf holds at most `MAX_PRIMS_IN_NODE` primitives, unless their bounds are flat
/// or their centroids coincide.
pub open spec fn leaf_size_ok(boxes: Seq<AABB>, lo: int, hi: int) -> bool {
    ||| hi - lo <= MAX_PRIMS_IN_NODE
    ||| union_range(boxes, lo, hi).spec_area() == 0
    ||| union_range(box_centers(boxes), lo, hi).min == union_range(box_centers(boxes), lo, hi).max
}

spec fn centers_of(s: Seq<BvhPrimitive>) -> Seq<AABB> {
    Seq::new(s.len(), |i: int| center_box(s[i].aabb))
}

/// Every primitive carries the box of the input primitive it names, and no two name
/// the same one.
spec fn prims_ok(s: Seq<BvhPrimitive>, boxes0: Seq<AABB>) -> bool {
    &&& s.len() == boxes0.len()
    &&& forall|i: int| 0 <= i < s.len() ==> #[trigger] s[i].id < s.len()
    &&& forall|i: int| 0 <= i < s.len() ==> #[trigger] s[i].aabb == boxes0[s[i].id as int]
    &&& forall|i: int, j: int| 0 <= i < j < s.len() ==> #[trigger] s[i].id != #[trigger] s[j].id
}

pub open spec fn all_valid(boxes: Seq<AABB>) -> bool {
    forall|i: int| 0 <= i < boxes.len() ==> #[trigger] boxes[i].valid()
}

/// `perm` maps each index below `n` to a distinct index below `n`.
pub open spec fn is_permutation(perm: Seq<int>, n: nat) -> bool {
    &&& perm.len() == n
    &&& forall|i: int| 0 <= i < n ==> 0 <= #[trigger] perm[i] < n
    &&& forall|i: int, j: int| 0 <= i < j < n ==> #[trigger] perm[i] != #[trigger] perm[j]
}

impl BuildBvhNode {
    spec fn aabb_of(self) -> AABB {
        match self {
            BuildBvhNode::Leaf { aabb, .. } => aabb,
            BuildBvhNode::Interior { aabb, .. } => aabb,
        }
    }

    spec fn size(self) -> nat
        decreases self,
    {
        match self {
            BuildBvhNode::Leaf { .. } => 1,
            BuildBvhNode::Interior { child_l, child_r, .. } => 1 + child_l.size()
                + child_r.size(),
        }
    }

    /// The first primitive of the subtree.
    spec fn lo(self) -> int
        decreases self,
    {
        match self {
            BuildBvhNode::Leaf { first_prim_offset, .. } => first_prim_offset as int,
            BuildBvhNode::Interior { child_l, .. } => child_l.lo(),
        }
    }

    /// One past the last primitive of the subtree.
    spec fn hi(self) -> int
        decreases self,
    {
        match self {
            BuildBvhNode::Leaf { first_prim_offset, primitive_count, .. } => first_prim_offset
                + primitive_count,
            BuildBvhNode::Interior { child_r, .. } => child_r.hi(),
        }
    }

    /// Leaves hold consecutive non-empty runs of `boxes`, left before right, and
    /// each box is the union of what lies below it.
    spec fn ok(self, boxes: Seq<AABB>) -> bool
        decreases self,
    {
        match self {
            BuildBvhNode::Leaf { aabb, first_prim_offset, primitive_count } => {
                &&& primitive_count > 0
                &&& first_prim_offset + primitive_count <= boxes.len()
                &&& aabb == union_range(
                    boxes,
                    first_prim_offset as int,
                    first_prim_offset + primitive_count,
                )
                &&& leaf_size_ok(boxes, first_prim_offset as int, first_prim_offset + primitive_count)
            },
            BuildBvhNode::Interior { aabb, child_l, child_r, .. } => {
                &&& child_l.ok(boxes)
                &&& child_r.ok(boxes)
                &&& child_l.hi() == child_r.lo()
                &&& aabb == child_l.aabb_of().spec_union(child_r.aabb_of())
            },
        }
    }
}

proof fn lemma_tree_span(t: BuildBvhNode, boxes: Seq<AABB>)
    requires
        t.ok(boxes),
    ensures
        0 <= t.lo() < t.hi() <= boxes.len(),
        t.size() <= 2 * (t.hi() - t.lo()) - 1,
    decreases t,
{
    if let BuildBvhNode::Interior { child_l, child_r, .. } = t {
        lemma_tree_span(*child_l, boxes);
        lemma_tree_span(*child_r, boxes);
    }
}

proof fn lemma_union_range_frame(b1: Seq<AABB>, b2: Seq<AABB>, lo: int, hi: int)
    requires
        0 <= lo,
        hi <= b1.len(),
        hi <= b2.len(),
        forall|k: int| lo <= k < hi ==> b1[k] == b2[k],
    ensures
        union_range(b1, lo, hi) == union_range(b2, lo, hi),
    decreases hi - lo,
{
    if lo < hi {
        lemma_union_range_frame(b1, b2, lo, hi - 1);
    }
}

/// A subtree depends only on the boxes of its own primitives.
proof fn lemma_tree_frame(t: BuildBvhNode, b1: Seq<AABB>, b2: Seq<AABB>)
    requires
        t.ok(b1),
        b2.len() == b1.len(),
        forall|k: int| t.lo() <= k < t.hi() ==> b1[k] == b2[k],
    ensures
        t.ok(b2),
    decreases t,
{
    lemma_tree_span(t, b1);
    match t {
        BuildBvhNode::Leaf { first_prim_offset, primitive_count, .. } => {
            lemma_union_range_frame(
                b1,
                b2,
                first_prim_offset as int,
                first_prim_offset + primitive_count,
            );
            lemma_union_range_frame(
                box_centers(b1),
                box_centers(b2),
                first_prim_offset as int,
                first_prim_offset + primitive_count,
            );
        },
        BuildBvhNode::Interior { child_l, child_r, .. } => {
            lemma_tree_span(*child_l, b1);
            lemma_tree_span(*child_r, b1);
            lemma_tree_frame(*child_l, b1, b2);
            lemma_tree_frame(*child_r, b1, b2);
        },
    }
}

/// The union of a non-empty run of bounded, ordered boxes is bounded and ordered,
/// contains each of them, and takes each of its coordinates from one of them.
proof fn lemma_union_range(boxes: Seq<AABB>, lo: int, hi: int)
    requires
        0 <= lo < hi <= boxes.len(),
        forall|k: int| lo <= k < hi ==> #[trigger] boxes[k].bounded() && boxes[k].ordered(),
    ensures
        union_range(boxes, lo, hi).bounded(),
        union_range(boxes, lo, hi).ordered(),
        forall|k: int| lo <= k < hi ==> union_range(boxes, lo, hi).contains_box(#[trigger] boxes[k]),
        forall|a: Axis|
            exists|k: int|
                lo <= k < hi && #[trigger] union_range(boxes, lo, hi).min.at(a) == boxes[k].min.at(
                    a,
                ),
        forall|a: Axis|
            exists|k: int|
                lo <= k < hi && #[trigger] union_range(boxes, lo, hi).max.at(a) == boxes[k].max.at(
                    a,
                ),
    decreases hi - lo,
{
    let u = union_range(boxes, lo, hi);
    let b = boxes[hi - 1];
    assert(b.bounded() && b.ordered());
    if hi - 1 == lo {
        assert(union_range(boxes, lo, lo) == empty_box());
        assert(u == b);
        assert forall|a: Axis| exists|k: int| lo <= k < hi && #[trigger] u.min.at(a) == boxes[k].min.at(a) by {
            assert(u.min.at(a) == boxes[lo].min.at(a));
        }
        assert forall|a: Axis| exists|k: int| lo <= k < hi && #[trigger] u.max.at(a) == boxes[k].max.at(a) by {
            assert(u.max.at(a) == boxes[lo].max.at(a));
        }
    } else {
        lemma_union_range(boxes, lo, hi - 1);
        let p = union_range(boxes, lo, hi - 1);
        assert(u == p.spec_union(b));
        assert forall|k: int| lo <= k < hi implies u.contains_box(#[trigger] boxes[k]) by {
            if k < hi - 1 {
                assert(p.contains_box(boxes[k]));
            }
        }
        assert forall|a: Axis| exists|k: int| lo <= k < hi && #[trigger] u.min.at(a) == boxes[k].min.at(a) by {
            if u.min.at(a) == b.min.at(a) {
                assert(lo <= hi - 1 < hi && u.min.at(a) == boxes[hi - 1].min.at(a));
            } else {
                assert(u.min.at(a) == p.min.at(a));
                let k = choose|k: int| lo <= k < hi - 1 && #[trigger] p.min.at(a) == boxes[k].min.at(a);
                assert(lo <= k < hi && u.min.at(a) == boxes[k].min.at(a));
            }
        }
        assert forall|a: Axis| exists|k: int| lo <= k < hi && #[trigger] u.max.at(a) == boxes[k].max.at(a) by {
            if u.max.at(a) == b.max.at(a) {
                assert(lo <= hi - 1 < hi && u.max.at(a) == boxes[hi - 1].max.at(a));
            } else {
                assert(u.max.at(a) == p.max.at(a));
                let k = choose|k: int| lo <= k < hi - 1 && #[trigger] p.max.at(a) == boxes[k].max.at(a);
                assert(lo <= k < hi && u.max.at(a) == boxes[k].max.at(a));
            }
        }
    }
}

/// The bucket of a doubled centroid coordinate `c` in `[cmin, cmax]`.
pub open spec fn bucket_of(c: int, cmin: int, cmax: int) -> int {
    let b = (SAH_BUCKETS as int * (c - cmin)) / (cmax - cmin);
    if b >= SAH_BUCKETS as int {
        SAH_BUCKETS as int - 1
    } else {
        b
    }
}

/// Whether a primitive goes to the left child of a split after bucket `split`.
spec fn goes_left(p: BvhPrimitive, axis: Axis, cb: AABB, split: int) -> bool {
    bucket_of(center_box(p.aabb).min.at(axis), cb.min.at(axis), cb.max.at(axis)) <= split
}

fn bucket_index(c: i64, cmin: i64, cmax: i64) -> (r: usize)
    requires
        cmin <= c <= cmax,
        cmin < cmax,
        -4294967296 <= cmin,
        cmax <= 4294967296,
    ensures
        r == bucket_of(c as int, cmin as int, cmax as int),
        r < SAH_BUCKETS,
{
    let num = 12 * (c - cmin);
    let den = cmax - cmin;
    let b = num / den;
    assert(0 <= b <= 12) by (nonlinear_arith)
        requires
            0 <= c - cmin <= cmax - cmin,
            num == 12 * (c - cmin),
            den == cmax - cmin,
            den > 0,
            b == num / den,
    ;
    if b >= 12 {
        11
    } else {
        b as usize
    }
}

/// `x` is one of `b[lo..hi]`.
spec fn found_in(b: Seq<BvhPrimitive>, lo: int, hi: int, x: BvhPrimitive) -> bool {
    exists|k: int| lo <= k < hi && #[trigger] b[k] == x
}

/// Every element of `a[lo..hi]` was somewhere in `b[lo..hi]`.
#[verifier::opaque]
spec fn from_range(a: Seq<BvhPrimitive>, b: Seq<BvhPrimitive>, lo: int, hi: int) -> bool {
    &&& a.len() == b.len()
    &&& 0 <= lo <= hi <= a.len()
    &&& forall|j: int| lo <= j < hi ==> #[trigger] found_in(b, lo, hi, a[j])
}

proof fn lemma_from_range_same(b: Seq<BvhPrimitive>, lo: int, hi: int)
    requires
        0 <= lo <= hi <= b.len(),
    ensures
        from_range(b, b, lo, hi),
{
    reveal(from_range);
    assert forall|x: int| lo <= x < hi implies #[trigger] found_in(b, lo, hi, b[x]) by {
        assert(b[x] == b[x]);
    }
}

proof fn lemma_from_range_swap(b: Seq<BvhPrimitive>, i: int, j: int, lo: int, hi: int)
    requires
        0 <= lo <= i < hi,
        lo <= j < hi,
        hi <= b.len(),
    ensures
        from_range(b.update(i, b[j]).update(j, b[i]), b, lo, hi),
{
    reveal(from_range);
    let a = b.update(i, b[j]).update(j, b[i]);
    assert forall|x: int| lo <= x < hi implies #[trigger] found_in(b, lo, hi, a[x]) by {
        if x == j {
            assert(b[i] == a[x]);
        } else if x == i {
            assert(b[j] == a[x]);
        } else {
            assert(b[x] == a[x]);
        }
    }
}

/// Chaining: `a` from `b` from `c` over the same range.
proof fn lemma_from_range_trans(a: Seq<BvhPrimitive>, b: Seq<BvhPrimitive>, c: Seq<BvhPrimitive>, lo: int, hi: int)
    requires
        from_range(a, b, lo, hi),
        from_range(b, c, lo, hi),
    ensures
        from_range(a, c, lo, hi),
{
    reveal(from_range);
    assert forall|x: int| lo <= x < hi implies #[trigger] found_in(c, lo, hi, a[x]) by {
        assert(found_in(b, lo, hi, a[x]));
        let k1 = choose|k: int| lo <= k < hi && #[trigger] b[k] == a[x];
        assert(found_in(c, lo, hi, b[k1]));
        let k2 = choose|k: int| lo <= k < hi && #[trigger] c[k] == b[k1];
        assert(c[k2] == a[x]);
    }
}

/// A rearrangement of a part of a range, leaving the rest, rearranges the range.
proof fn lemma_from_range_widen(a: Seq<BvhPrimitive>, b: Seq<BvhPrimitive>, lo: int, l2: int, h2: int, hi: int)
    requires
        0 <= lo <= l2 <= h2 <= hi <= a.len(),
        a.len() == b.len(),
        from_range(a, b, l2, h2),
        forall|j: int| lo <= j < hi && !(l2 <= j < h2) ==> a[j] == b[j],
    ensures
        from_range(a, b, lo, hi),
{
    reveal(from_range);
    assert forall|x: int| lo <= x < hi implies #[trigger] found_in(b, lo, hi, a[x]) by {
        if l2 <= x < h2 {
            assert(found_in(b, l2, h2, a[x]));
            let k = choose|k: int| l2 <= k < h2 && #[trigger] b[k] == a[x];
            assert(b[k] == a[x]);
        } else {
            assert(b[x] == a[x]);
        }
    }
}

/// Swaps two primitives of the working array.
fn swap_prims(prims: &mut Vec<BvhPrimitive>, i: usize, j: usize, Ghost(boxes0): Ghost<Seq<AABB>>)
    requires
        i < old(prims).len(),
        j < old(prims).len(),
        prims_ok(old(prims)@, boxes0),
    ensures
        final(prims)@ == old(prims)@.update(i as int, old(prims)@[j as int]).update(
            j as int,
            old(prims)@[i as int],
        ),
        prims_ok(final(prims)@, boxes0),
{
    let a = prims[i];
    let b = prims[j];
    prims.set(i, b);
    prims.set(j, a);
    proof {
        let s0 = old(prims)@;
        let s = prims@;
        assert forall|x: int, y: int| 0 <= x < y < s.len() implies #[trigger] s[x].id
            != #[trigger] s[y].id by {
            let x0 = if x == i { j as int } else if x == j { i as int } else { x };
            let y0 = if y == i { j as int } else if y == j { i as int } else { y };
            assert(s[x] == s0[x0]);
            assert(s[y] == s0[y0]);
            assert(x0 != y0);
            if x0 < y0 {
                assert(s0[x0].id != s0[y0].id);
            } else {
                assert(s0[y0].id != s0[x0].id);
            }
        }
        assert forall|x: int| 0 <= x < s.len() implies #[trigger] s[x].aabb == boxes0[s[x].id as int] && s[x].id < s.len() by {
            let x0 = if x == i { j as int } else if x == j { i as int } else { x };
            assert(s[x] == s0[x0]);
        }
    }
}

/// The union of the boxes of `prims[lo..hi]`.
fn bounds_union(prims: &Vec<BvhPrimitive>, lo: usize, hi: usize) -> (r: AABB)
    requires
        lo <= hi <= prims.len(),
        forall|k: int| lo <= k < hi ==> (#[trigger] prims@[k]).aabb.valid(),
    ensures
        r == union_range(boxes_of(prims@), lo as int, hi as int),
{
    let ghost boxes = boxes_of(prims@);
    let mut aabb = AABB::empty();
    let mut k = lo;
    while k < hi
        invariant
            lo <= k <= hi <= prims.len(),
            boxes == boxes_of(prims@),
            aabb == union_range(boxes, lo as int, k as int),
        decreases hi - k,
    {
        aabb = aabb.union_aabb(prims[k].aabb);
        k += 1;
    }
    aabb
}

/// The box around the doubled centroids of `prims[lo..hi]`.
fn centroid_bounds(prims: &Vec<BvhPrimitive>, lo: usize, hi: usize) -> (r: AABB)
    requires
        lo <= hi <= prims.len(),
        forall|k: int| lo <= k < hi ==> (#[trigger] prims@[k]).aabb.valid(),
    ensures
        r == union_range(centers_of(prims@), lo as int, hi as int),
{
    let ghost centers = centers_of(prims@);
    let mut cb = AABB::empty();
    let mut k = lo;
    while k < hi
        invariant
            lo <= k <= hi <= prims.len(),
            centers == centers_of(prims@),
            forall|j: int| lo <= j < hi ==> (#[trigger] prims@[j]).aabb.valid(),
            cb == union_range(centers, lo as int, k as int),
        decreases hi - k,
    {
        let c = prims[k].aabb.double_center();
        assert(center_box(prims@[k as int].aabb) == (AABB { min: c, max: c }));
        cb = cb.union_point(c);
        k += 1;
    }
    cb
}

/// The bucket of a primitive's centroid along `axis` within the centroid box `cb`.
spec fn prim_bucket(p: BvhPrimitive, axis: Axis, cb: AABB) -> int {
    bucket_of(center_box(p.aabb).min.at(axis), cb.min.at(axis), cb.max.at(axis))
}

/// How many of `s[lo..hi]` fall in buckets `b0..=b1`.
spec fn count_in(s: Seq<BvhPrimitive>, lo: int, hi: int, axis: Axis, cb: AABB, b0: int, b1: int) -> int
    decreases hi - lo,
{
    if hi <= lo {
        0
    } else {
        count_in(s, lo, hi - 1, axis, cb, b0, b1) + if b0 <= prim_bucket(s[hi - 1], axis, cb) <= b1 {
            1int
        } else {
            0int
        }
    }
}

/// The union of the boxes of those of `s[lo..hi]` that fall in buckets `b0..=b1`.
spec fn box_in(s: Seq<BvhPrimitive>, lo: int, hi: int, axis: Axis, cb: AABB, b0: int, b1: int) -> AABB
    decreases hi - lo,
{
    if hi <= lo {
        empty_box()
    } else {
        let u = box_in(s, lo, hi - 1, axis, cb, b0, b1);
        if b0 <= prim_bucket(s[hi - 1], axis, cb) <= b1 {
            u.spec_union(s[hi - 1].aabb)
        } else {
            u
        }
    }
}

/// The cost of splitting after bucket `i`: each side's primitive count times its area.
spec fn split_cost(s: Seq<BvhPrimitive>, lo: int, hi: int, axis: Axis, cb: AABB, i: int) -> int {
    let last = SAH_BUCKETS as int - 1;
    count_in(s, lo, hi, axis, cb, 0, i) * box_in(s, lo, hi, axis, cb, 0, i).spec_area() + count_in(
        s,
        lo,
        hi,
        axis,
        cb,
        i + 1,
        last,
    ) * box_in(s, lo, hi, axis, cb, i + 1, last).spec_area()
}

/// The first split among `0..=k` of least cost.
spec fn best_split(s: Seq<BvhPrimitive>, lo: int, hi: int, axis: Axis, cb: AABB, k: int) -> int
    decreases k,
{
    if k <= 0 {
        0
    } else {
        let b = best_split(s, lo, hi, axis, cb, k - 1);
        if split_cost(s, lo, hi, axis, cb, k) < split_cost(s, lo, hi, axis, cb, b) {
            k
        } else {
            b
        }
    }
}

/// The heuristic's verdict on `s[lo..hi]` with bounds `aabb`: the bucket to split
/// after, or none for a leaf. A split costs `1/2 + cost / area` against the leaf's
/// `n`; it is taken when cheaper, and always above `MAX_PRIMS_IN_NODE` primitives.
spec fn sah_choice(s: Seq<BvhPrimitive>, lo: int, hi: int, aabb: AABB, axis: Axis, cb: AABB) -> Option<
    int,
> {
    let best = best_split(s, lo, hi, axis, cb, SAH_BUCKETS as int - 2);
    let n = hi - lo;
    let area = aabb.spec_area();
    if n > MAX_PRIMS_IN_NODE || area + 2 * split_cost(s, lo, hi, axis, cb, best) < 2 * n * area {
        Some(best)
    } else {
        None
    }
}

proof fn lemma_box_in_none(s: Seq<BvhPrimitive>, lo: int, hi: int, axis: Axis, cb: AABB, b0: int, b1: int)
    requires
        b1 < b0,
    ensures
        box_in(s, lo, hi, axis, cb, b0, b1) == empty_box(),
        count_in(s, lo, hi, axis, cb, b0, b1) == 0,
    decreases hi - lo,
{
    if hi > lo {
        lemma_box_in_none(s, lo, hi - 1, axis, cb, b0, b1);
    }
}

/// Buckets `b0..=b1` split at `m` into `b0..=m` and `m + 1..=b1`.
proof fn lemma_in_split(
    s: Seq<BvhPrimitive>,
    lo: int,
    hi: int,
    axis: Axis,
    cb: AABB,
    b0: int,
    m: int,
    b1: int,
)
    requires
        b0 - 1 <= m <= b1,
    ensures
        count_in(s, lo, hi, axis, cb, b0, b1) == count_in(s, lo, hi, axis, cb, b0, m) + count_in(
            s,
            lo,
            hi,
            axis,
            cb,
            m + 1,
            b1,
        ),
        box_in(s, lo, hi, axis, cb, b0, b1) == box_in(s, lo, hi, axis, cb, b0, m).spec_union(
            box_in(s, lo, hi, axis, cb, m + 1, b1),
        ),
    decreases hi - lo,
{
    if hi > lo {
        lemma_in_split(s, lo, hi - 1, axis, cb, b0, m, b1);
    }
}

/// Decides by the surface-area heuristic whether to split `prims[lo..hi]`, and if so
/// returns the last bucket that goes left.
#[verifier::rlimit(40)]
#[verifier::spinoff_prover]
fn sah_split(prims: &Vec<BvhPrimitive>, lo: usize, hi: usize, aabb: AABB, cb: AABB, axis: Axis) -> (r:
    Option<usize>)
    requires
        lo < hi <= prims.len() <= MAX_PRIMITIVES,
        forall|k: int| lo <= k < hi ==> (#[trigger] prims@[k]).aabb.valid(),
        cb == union_range(centers_of(prims@), lo as int, hi as int),
        cb.min.at(axis) < cb.max.at(axis),
        aabb.bounded(),
    ensures
        r matches Some(s) ==> s < SAH_BUCKETS - 1,
        match r {
            Some(s) => sah_choice(prims@, lo as int, hi as int, aabb, axis, cb) == Some(s as int),
            None => sah_choice(prims@, lo as int, hi as int, aabb, axis, cb) is None,
        },
{
    let ghost sq = prims@;
    let ghost (l, h) = (lo as int, hi as int);
    proof {
        assert forall|k: int| lo <= k < hi implies (#[trigger] centers_of(prims@)[k]).bounded()
            && centers_of(prims@)[k].ordered() by {
            assert(prims@[k].aabb.valid());
        }
        lemma_union_range(centers_of(prims@), lo as int, hi as int);
    }
    let cmin = cb.min.get(axis);
    let cmax = cb.max.get(axis);
    let mut counts: Vec<usize> = Vec::new();
    let mut bboxes: Vec<AABB> = Vec::new();
    let mut b: usize = 0;
    while b < SAH_BUCKETS
        invariant
            b <= SAH_BUCKETS,
            counts.len() == b,
            bboxes.len() == b,
            forall|j: int| 0 <= j < b ==> #[trigger] counts@[j] == 0,
            forall|j: int| 0 <= j < b ==> #[trigger] bboxes@[j] == empty_box(),
        decreases SAH_BUCKETS - b,
    {
        counts.push(0);
        bboxes.push(AABB::empty());
        b += 1;
    }
    let mut k = lo;
    while k < hi
        invariant
            lo <= k <= hi <= prims.len(),
            sq == prims@,
            l == lo,
            forall|j: int| lo <= j < hi ==> cb.contains_box(#[trigger] centers_of(prims@)[j]),
            forall|j: int| lo <= j < hi ==> (#[trigger] prims@[j]).aabb.valid(),
            cb.bounded(),
            cmin == cb.min.at(axis),
            cmax == cb.max.at(axis),
            cmin < cmax,
            counts.len() == SAH_BUCKETS,
            bboxes.len() == SAH_BUCKETS,
            forall|j: int| 0 <= j < SAH_BUCKETS ==> #[trigger] counts@[j] <= k - lo,
            forall|j: int| 0 <= j < SAH_BUCKETS ==> (#[trigger] bboxes@[j]).bounded(),
            forall|j: int|
                0 <= j < SAH_BUCKETS ==> #[trigger] counts@[j] == count_in(sq, l, k as int, axis, cb, j, j),
            forall|j: int|
                0 <= j < SAH_BUCKETS ==> #[trigger] bboxes@[j] == box_in(sq, l, k as int, axis, cb, j, j),
        decreases hi - k,
    {
        let p = prims[k].aabb;
        assert(cb.contains_box(centers_of(prims@)[k as int]));
        let c = p.double_center().get(axis);
        let bucket = bucket_index(c, cmin, cmax);
        assert(bucket == prim_bucket(sq[k as int], axis, cb));
        counts.set(bucket, counts[bucket] + 1);
        bboxes.set(bucket, bboxes[bucket].union_aabb(p));
        k += 1;
    }
    let ghost n = (hi - lo) as int;
    let ghost last = SAH_BUCKETS as int - 1;
    let bound: i128 = 2852213850513516153367582212096;
    let mut costs: Vec<i128> = Vec::new();
    let mut count_below: u64 = 0;
    let mut below = AABB::empty();
    proof {
        lemma_box_in_none(sq, l, h, axis, cb, 0, -1);
    }
    let mut i: usize = 0;
    while i < SAH_BUCKETS - 1
        invariant
            i <= SAH_BUCKETS - 1,
            n == hi - lo,
            l == lo,
            h == hi,
            last == SAH_BUCKETS - 1,
            counts.len() == SAH_BUCKETS,
            bboxes.len() == SAH_BUCKETS,
            forall|j: int| 0 <= j < SAH_BUCKETS ==> #[trigger] counts@[j] <= n,
            forall|j: int| 0 <= j < SAH_BUCKETS ==> (#[trigger] bboxes@[j]).bounded(),
            forall|j: int| 0 <= j < SAH_BUCKETS ==> #[trigger] counts@[j] == count_in(sq, l, h, axis, cb, j, j),
            forall|j: int| 0 <= j < SAH_BUCKETS ==> #[trigger] bboxes@[j] == box_in(sq, l, h, axis, cb, j, j),
            below.bounded(),
            below == box_in(sq, l, h, axis, cb, 0, i - 1),
            count_below == count_in(sq, l, h, axis, cb, 0, i - 1),
            n <= MAX_PRIMITIVES,
            bound == 2852213850513516153367582212096,
            count_below <= i * 2147483648,
            costs.len() == i,
            forall|j: int| 0 <= j < i ==> -bound <= #[trigger] costs@[j] <= bound,
            forall|j: int|
                0 <= j < i ==> #[trigger] costs@[j] == count_in(sq, l, h, axis, cb, 0, j) * box_in(
                    sq,
                    l,
                    h,
                    axis,
                    cb,
                    0,
                    j,
                ).spec_area(),
        decreases SAH_BUCKETS - 1 - i,
    {
        proof {
            lemma_in_split(sq, l, h, axis, cb, 0, i - 1, i as int);
        }
        below = below.union_aabb(bboxes[i]);
        count_below = count_below + counts[i] as u64;
        let a = below.area();
        let c = count_below as i128;
        assert(-bound <= c * a <= bound) by (nonlinear_arith)
            requires
                0 <= c <= 12 * 2147483648,
                -110680464442257309696 <= a <= 110680464442257309696,
                bound == 2852213850513516153367582212096,
        ;
        costs.push(c * a);
        i += 1;
    }
    let mut count_above: u64 = 0;
    let mut above = AABB::empty();
    proof {
        lemma_box_in_none(sq, l, h, axis, cb, last + 1, last);
    }
    let mut i: usize = SAH_BUCKETS - 1;
    while i >= 1
        invariant
            0 <= i <= SAH_BUCKETS - 1,
            n == hi - lo,
            l == lo,
            h == hi,
            last == SAH_BUCKETS - 1,
            counts.len() == SAH_BUCKETS,
            bboxes.len() == SAH_BUCKETS,
            forall|j: int| 0 <= j < SAH_BUCKETS ==> #[trigger] counts@[j] <= n,
            forall|j: int| 0 <= j < SAH_BUCKETS ==> (#[trigger] bboxes@[j]).bounded(),
            forall|j: int| 0 <= j < SAH_BUCKETS ==> #[trigger] counts@[j] == count_in(sq, l, h, axis, cb, j, j),
            forall|j: int| 0 <= j < SAH_BUCKETS ==> #[trigger] bboxes@[j] == box_in(sq, l, h, axis, cb, j, j),
            above.bounded(),
            above == box_in(sq, l, h, axis, cb, i + 1, last),
            count_above == count_in(sq, l, h, axis, cb, i + 1, last),
            n <= MAX_PRIMITIVES,
            bound == 2852213850513516153367582212096,
            count_above <= (SAH_BUCKETS - 1 - i) * 2147483648,
            costs.len() == SAH_BUCKETS - 1,
            forall|j: int| 0 <= j < i ==> -bound <= #[trigger] costs@[j] <= bound,
            forall|j: int| i <= j < SAH_BUCKETS - 1 ==> -2 * bound <= #[trigger] costs@[j] <= 2 * bound,
            forall|j: int|
                0 <= j < i ==> #[trigger] costs@[j] == count_in(sq, l, h, axis, cb, 0, j) * box_in(
                    sq,
                    l,
                    h,
                    axis,
                    cb,
                    0,
                    j,
                ).spec_area(),
            forall|j: int|
                i <= j < SAH_BUCKETS - 1 ==> #[trigger] costs@[j] == split_cost(sq, l, h, axis, cb, j),
        decreases i,
    {
        proof {
            lemma_in_split(sq, l, h, axis, cb, i as int, i as int, last);
        }
        above = above.union_aabb(bboxes[i]);
        count_above = count_above + counts[i] as u64;
        let a = above.area();
        let c = count_above as i128;
        assert(-bound <= c * a <= bound) by (nonlinear_arith)
            requires
                0 <= c <= 12 * 2147483648,
                -110680464442257309696 <= a <= 110680464442257309696,
                bound == 2852213850513516153367582212096,
        ;
        let prev = costs[i - 1];
        costs.set(i - 1, prev + c * a);
        i -= 1;
    }
    let mut best: usize = 0;
    let mut min_cost: i128 = costs[0];
    let mut i: usize = 1;
    while i < SAH_BUCKETS - 1
        invariant
            1 <= i <= SAH_BUCKETS - 1,
            l == lo,
            h == hi,
            best < SAH_BUCKETS - 1,
            costs.len() == SAH_BUCKETS - 1,
            forall|j: int| 0 <= j < SAH_BUCKETS - 1 ==> -2 * bound <= #[trigger] costs@[j] <= 2 * bound,
            forall|j: int|
                0 <= j < SAH_BUCKETS - 1 ==> #[trigger] costs@[j] == split_cost(sq, l, h, axis, cb, j),
            best == best_split(sq, l, h, axis, cb, i - 1),
            min_cost == costs@[best as int],
            -2 * bound <= min_cost <= 2 * bound,
            bound == 2852213850513516153367582212096,
        decreases SAH_BUCKETS - 1 - i,
    {
        if costs[i] < min_cost {
            min_cost = costs[i];
            best = i;
        }
        i += 1;
    }
    // Splitting pays when 1/2 + min_cost / area < n, in integers since area > 0.
    let area = aabb.area();
    let count = (hi - lo) as i128;
    assert(-2147483648 * 110680464442257309696 <= count * area <= 2147483648
        * 110680464442257309696) by (nonlinear_arith)
        requires
            0 <= count <= 2147483648,
            -110680464442257309696 <= area <= 110680464442257309696,
    ;
    assert(2 * (count * area) == 2 * count * area) by (nonlinear_arith);
    assert(best == best_split(sq, l, h, axis, cb, SAH_BUCKETS as int - 2));
    assert(min_cost == split_cost(sq, l, h, axis, cb, best as int));
    if hi - lo > MAX_PRIMS_IN_NODE || area + 2 * min_cost < 2 * (count * area) {
        Some(best)
    } else {
        None
    }
}

/// Moves the primitives of `prims[lo..hi]` whose bucket is at most `split` before the
/// others, and returns where the others start. Both sides are non-empty.
#[verifier::rlimit(80)]
#[verifier::spinoff_prover]
fn partition(
    prims: &mut Vec<BvhPrimitive>,
    lo: usize,
    hi: usize,
    axis: Axis,
    cb: AABB,
    split: usize,
    Ghost(boxes0): Ghost<Seq<AABB>>,
) -> (mid: usize)
    requires
        lo < hi <= old(prims).len(),
        prims_ok(old(prims)@, boxes0),
        all_valid(boxes0),
        cb == union_range(centers_of(old(prims)@), lo as int, hi as int),
        cb.min.at(axis) < cb.max.at(axis),
        split < SAH_BUCKETS - 1,
    ensures
        lo < mid < hi,
        final(prims)@.len() == old(prims)@.len(),
        prims_ok(final(prims)@, boxes0),
        forall|j: int|
            0 <= j < lo || hi <= j < old(prims)@.len() ==> #[trigger] final(prims)@[j] == old(
                prims,
            )@[j],
        forall|j: int| lo <= j < mid ==> goes_left(#[trigger] final(prims)@[j], axis, cb, split as int),
        forall|j: int| mid <= j < hi ==> !goes_left(#[trigger] final(prims)@[j], axis, cb, split as int),
        from_range(final(prims)@, old(prims)@, lo as int, hi as int),
{
    let ghost p0 = prims@;
    let ghost centers = centers_of(p0);
    proof {
        lemma_from_range_same(p0, lo as int, hi as int);
        assert forall|k: int| lo <= k < hi implies (#[trigger] centers[k]).bounded()
            && centers[k].ordered() by {
            assert(p0[k].aabb == boxes0[p0[k].id as int]);
            assert(boxes0[p0[k].id as int].valid());
        }
        lemma_union_range(centers, lo as int, hi as int);
    }
    let cmin = cb.min.get(axis);
    let cmax = cb.max.get(axis);
    let ghost jl = choose|k: int| lo <= k < hi && #[trigger] cb.min.at(axis) == centers[k].min.at(axis);
    let ghost jr = choose|k: int| lo <= k < hi && #[trigger] cb.max.at(axis) == centers[k].max.at(axis);
    proof {
        let d = cmax - cmin;
        vstd::arithmetic::div_mod::lemma_div_multiples_vanish(12, d as int);
        assert(bucket_of(cmax as int, cmin as int, cmax as int) == SAH_BUCKETS - 1);
        assert(bucket_of(cmin as int, cmin as int, cmax as int) == 0);
    }
    let mut mid = lo;
    let mut k = lo;
    while k < hi
        invariant
            lo <= mid <= k <= hi <= prims@.len(),
            prims@.len() == p0.len(),
            prims_ok(prims@, boxes0),
            all_valid(boxes0),
            forall|j: int| 0 <= j < lo || hi <= j < p0.len() ==> #[trigger] prims@[j] == p0[j],
            forall|j: int| k <= j < hi ==> #[trigger] prims@[j] == p0[j],
            forall|j: int| lo <= j < hi ==> cb.contains_box(#[trigger] centers[j]),
            centers == centers_of(p0),
            cmin == cb.min.at(axis),
            cmax == cb.max.at(axis),
            cmin < cmax,
            cb.bounded(),
            split < SAH_BUCKETS - 1,
            lo <= jl < hi,
            lo <= jr < hi,
            bucket_of(centers[jl].min.at(axis), cmin as int, cmax as int) == 0,
            bucket_of(centers[jr].min.at(axis), cmin as int, cmax as int) == SAH_BUCKETS - 1,
            mid > lo || jl >= k,
            mid < k || jr >= k,
            forall|j: int| lo <= j < mid ==> goes_left(#[trigger] prims@[j], axis, cb, split as int),
            forall|j: int| mid <= j < k ==> !goes_left(#[trigger] prims@[j], axis, cb, split as int),
            from_range(prims@, p0, lo as int, hi as int),
        decreases hi - k,
    {
        let p = prims[k].aabb;
        assert(p == p0[k as int].aabb);
        assert(cb.contains_box(centers[k as int]));
        assert(boxes0[p0[k as int].id as int].valid());
        let c = p.double_center().get(axis);
        assert(c == centers[k as int].min.at(axis));
        let bucket = bucket_index(c, cmin, cmax);
        assert(goes_left(prims@[k as int], axis, cb, split as int) == (bucket <= split));
        if bucket <= split {
            let ghost before = prims@;
            swap_prims(prims, k, mid, Ghost(boxes0));
            proof {
                lemma_from_range_swap(before, k as int, mid as int, lo as int, hi as int);
                lemma_from_range_trans(prims@, before, p0, lo as int, hi as int);
            }
            mid += 1;
        }
        k += 1;
    }
    mid
}

/// A node of the flat hierarchy. A leaf (`primitive_count > 0`) holds the primitives
/// from `primitive_offset_or_second_child_offset` on; an interior node has its left
/// child right after it and its right child at `primitive_offset_or_second_child_offset`.
#[derive(Clone, Copy, Debug, PartialEq, Eq, Structural)]
pub struct LinearBvhNode {
    pub aabb: AABB,
    pub primitive_offset_or_second_child_offset: u32,
    pub primitive_count: u32,
    pub split_axis: Axis,
}

impl LinearBvhNode {
    fn new_leaf(aabb: AABB, primitive_offset: u32, primitive_count: u32) -> (r: Self)
        ensures
            r == (LinearBvhNode {
                aabb,
                primitive_offset_or_second_child_offset: primitive_offset,
                primitive_count,
                split_axis: Axis::X,
            }),
    {
        Self {
            aabb,
            primitive_offset_or_second_child_offset: primitive_offset,
            primitive_count,
            split_axis: Axis::X,
        }
    }

    fn new_interior(aabb: AABB, second_child_offset: u32, axis: Axis) -> (r: Self)
        ensures
            r == (LinearBvhNode {
                aabb,
                primitive_offset_or_second_child_offset: second_child_offset,
                primitive_count: 0,
                split_axis: axis,
            }),
    {
        Self {
            aabb,
            primitive_offset_or_second_child_offset: second_child_offset,
            primitive_count: 0,
            split_axis: axis,
        }
    }
}

/// `nodes` holds the subtree `t` in depth-first order from index `i` on.
spec fn encodes(nodes: Seq<LinearBvhNode>, i: int, t: BuildBvhNode) -> bool
    decreases t,
{
    &&& 0 <= i < nodes.len()
    &&& match t {
        BuildBvhNode::Leaf { aabb, first_prim_offset, primitive_count } => {
            &&& first_prim_offset <= u32::MAX
            &&& 0 < primitive_count <= u32::MAX
            &&& nodes[i] == LinearBvhNode {
                aabb,
                primitive_offset_or_second_child_offset: first_prim_offset as u32,
                primitive_count: primitive_count as u32,
                split_axis: Axis::X,
            }
        },
        BuildBvhNode::Interior { aabb, split_axis, child_l, child_r } => {
            &&& nodes[i].aabb == aabb
            &&& nodes[i].primitive_count == 0
            &&& nodes[i].split_axis == split_axis
            &&& nodes[i].primitive_offset_or_second_child_offset == i + 1 + child_l.size()
            &&& encodes(nodes, i + 1, *child_l)
            &&& encodes(nodes, i + 1 + child_l.size(), *child_r)
        },
    }
}

proof fn lemma_encodes_frame(n1: Seq<LinearBvhNode>, n2: Seq<LinearBvhNode>, i: int, t: BuildBvhNode)
    requires
        encodes(n1, i, t),
        i + t.size() <= n2.len(),
        forall|j: int| i <= j < i + t.size() ==> n1[j] == n2[j],
    ensures
        encodes(n2, i, t),
    decreases t,
{
    if let BuildBvhNode::Interior { child_l, child_r, .. } = t {
        lemma_encodes_frame(n1, n2, i + 1, *child_l);
        lemma_encodes_frame(n1, n2, i + 1 + child_l.size(), *child_r);
    }
}

impl BuildBvhNode {
    fn aabb(&self) -> (r: AABB)
        ensures
            r == self.aabb_of(),
    {
        match self {
            BuildBvhNode::Leaf { aabb, .. } => *aabb,
            BuildBvhNode::Interior { aabb, .. } => *aabb,
        }
    }
}

/// Makes a leaf of `prims[lo..hi]` and appends their ids to `ordered`.
fn create_leaf_node(
    prims: &Vec<BvhPrimitive>,
    lo: usize,
    hi: usize,
    ordered: &mut Vec<usize>,
    aabb: AABB,
) -> (r: BuildBvhNode)
    requires
        lo < hi <= prims.len(),
        old(ordered)@.len() == lo,
        aabb == union_range(boxes_of(prims@), lo as int, hi as int),
        leaf_size_ok(boxes_of(prims@), lo as int, hi as int),
    ensures
        final(ordered)@ == old(ordered)@ + ids_of(prims@).subrange(lo as int, hi as int),
        r == (BuildBvhNode::Leaf { aabb, first_prim_offset: lo, primitive_count: (hi - lo) as usize }),
        r.ok(boxes_of(prims@)),
        r.lo() == lo,
        r.hi() == hi,
        r.size() == 1,
{
    let mut k = lo;
    while k < hi
        invariant
            lo <= k <= hi <= prims.len(),
            ordered@ == old(ordered)@ + ids_of(prims@).subrange(lo as int, k as int),
        decreases hi - k,
    {
        ordered.push(prims[k].id);
        k += 1;
        assert(ordered@ =~= old(ordered)@ + ids_of(prims@).subrange(lo as int, k as int));
    }
    BuildBvhNode::Leaf { aabb, first_prim_offset: lo, primitive_count: hi - lo }
}

/// How an interior node over `old[lo..hi]` divides it at `mid`, as `new` holds it: two
/// primitives go in centroid order along the split axis; more go left exactly when
/// their bucket is at most the split the heuristic chose.
#[verifier::opaque]
spec fn children_split(old: Seq<BvhPrimitive>, new: Seq<BvhPrimitive>, lo: int, mid: int, hi: int) -> bool {
    let cb = union_range(centers_of(old), lo, hi);
    let axis = cb.spec_max_axis();
    let split = sah_choice(old, lo, hi, union_range(boxes_of(old), lo, hi), axis, cb)->Some_0;
    &&& hi - lo == 2 ==> mid == lo + 1 && center_box(new[lo].aabb).min.at(axis) <= center_box(
        new[lo + 1].aabb,
    ).min.at(axis)
    &&& hi - lo > 2 ==> {
        &&& forall|j: int| lo <= j < mid ==> goes_left(#[trigger] new[j], axis, cb, split)
        &&& forall|j: int| mid <= j < hi ==> !goes_left(#[trigger] new[j], axis, cb, split)
    }
}

/// The children's rearrangements keep the division made at `mid`.
proof fn lemma_sides_kept(
    p0: Seq<BvhPrimitive>,
    p1: Seq<BvhPrimitive>,
    p2: Seq<BvhPrimitive>,
    p3: Seq<BvhPrimitive>,
    lo: int,
    mid: int,
    hi: int,
)
    requires
        lo < mid < hi <= p1.len(),
        children_split(p0, p1, lo, mid, hi),
        from_range(p2, p1, lo, mid),
        from_range(p3, p2, mid, hi),
        forall|j: int| mid <= j < hi ==> p2[j] == p1[j],
        forall|j: int| lo <= j < mid ==> p3[j] == p2[j],
    ensures
        children_split(p0, p3, lo, mid, hi),
{
    reveal(from_range);
    reveal(children_split);

    let cbs = union_range(centers_of(p0), lo, hi);
    let ax = cbs.spec_max_axis();
    if hi - lo == 2 {
        assert(found_in(p1, lo, mid, p2[lo]));
        assert(found_in(p2, mid, hi, p3[mid]));
        assert(p3[lo] == p1[lo]);
        assert(p3[mid] == p1[mid]);
    } else {
        let split = sah_choice(p0, lo, hi, union_range(boxes_of(p0), lo, hi), ax, cbs)->Some_0;
        assert forall|j: int| lo <= j < mid implies goes_left(#[trigger] p3[j], ax, cbs, split) by {
            assert(p3[j] == p2[j]);
            assert(found_in(p1, lo, mid, p2[j]));
            let k = choose|k: int| lo <= k < mid && #[trigger] p1[k] == p2[j];
            assert(goes_left(p1[k], ax, cbs, split));
        }
        assert forall|j: int| mid <= j < hi implies !goes_left(#[trigger] p3[j], ax, cbs, split) by {
            assert(found_in(p2, mid, hi, p3[j]));
            let k = choose|k: int| mid <= k < hi && #[trigger] p2[k] == p3[j];
            assert(p2[k] == p1[k]);
            assert(!goes_left(p1[k], ax, cbs, split));
        }
    }
}

/// Whether the build makes `s[lo..hi]` a leaf: a flat or single cluster, one whose
/// centroids coincide, or one that the heuristic does not split.
spec fn leaf_wanted(s: Seq<BvhPrimitive>, lo: int, hi: int) -> bool {
    let aabb = union_range(boxes_of(s), lo, hi);
    let cb = union_range(centers_of(s), lo, hi);
    ||| aabb.spec_area() == 0
    ||| hi - lo == 1
    ||| cb.min == cb.max
    ||| (hi - lo > 2 && sah_choice(s, lo, hi, aabb, cb.spec_max_axis(), cb) is None)
}

/// Builds the subtree over `prims[lo..hi]`, reordering that range so that each leaf
/// holds a consecutive run, and appends the ids of the run in their final order to
/// `ordered`.
#[verifier::rlimit(100)]
#[verifier::spinoff_prover]
fn build_recursive(
    prims: &mut Vec<BvhPrimitive>,
    lo: usize,
    hi: usize,
    ordered: &mut Vec<usize>,
    total_nodes: &mut usize,
    Ghost(boxes0): Ghost<Seq<AABB>>,
) -> (r: BuildBvhNode)
    requires
        lo < hi <= old(prims).len() <= MAX_PRIMITIVES,
        prims_ok(old(prims)@, boxes0),
        all_valid(boxes0),
        old(ordered)@.len() == lo,
        *old(total_nodes) + 2 * (hi - lo) <= usize::MAX,
    ensures
        final(prims)@.len() == old(prims)@.len(),
        prims_ok(final(prims)@, boxes0),
        forall|j: int|
            0 <= j < lo || hi <= j < old(prims)@.len() ==> #[trigger] final(prims)@[j] == old(
                prims,
            )@[j],
        final(ordered)@ == old(ordered)@ + ids_of(final(prims)@).subrange(lo as int, hi as int),
        r.ok(boxes_of(final(prims)@)),
        r.lo() == lo,
        r.hi() == hi,
        *final(total_nodes) == *old(total_nodes) + r.size(),
        (r is Leaf) == leaf_wanted(old(prims)@, lo as int, hi as int),
        r matches BuildBvhNode::Interior { split_axis, .. } ==> split_axis == union_range(
            centers_of(old(prims)@),
            lo as int,
            hi as int,
        ).spec_max_axis(),
        r matches BuildBvhNode::Interior { child_l, .. } ==> children_split(
            old(prims)@,
            final(prims)@,
            lo as int,
            child_l.hi(),
            hi as int,
        ),
        from_range(final(prims)@, old(prims)@, lo as int, hi as int),
    decreases hi - lo,
{
    proof {
        assert(centers_of(prims@) =~= box_centers(boxes_of(prims@)));
        lemma_from_range_same(prims@, lo as int, hi as int);
        assert forall|k: int| lo <= k < hi implies (#[trigger] prims@[k]).aabb.valid() by {
            assert(prims@[k].aabb == boxes0[prims@[k].id as int]);
        }
        assert forall|k: int| lo <= k < hi implies (#[trigger] boxes_of(prims@)[k]).bounded()
            && boxes_of(prims@)[k].ordered() by {
            assert(prims@[k].aabb.valid());
        }
        lemma_union_range(boxes_of(prims@), lo as int, hi as int);
    }
    let aabb = bounds_union(prims, lo, hi);
    if aabb.area() == 0 || hi - lo == 1 {
        let leaf = create_leaf_node(prims, lo, hi, ordered, aabb);
        *total_nodes = *total_nodes + 1;
        return leaf;
    }
    let cb = centroid_bounds(prims, lo, hi);
    proof {
        assert forall|k: int| lo <= k < hi implies (#[trigger] centers_of(prims@)[k]).bounded()
            && centers_of(prims@)[k].ordered() by {
            assert(prims@[k].aabb.valid());
        }
        lemma_union_range(centers_of(prims@), lo as int, hi as int);
    }
    let split_axis = cb.max_axis();
    if cb.is_empty() {
        let leaf = create_leaf_node(prims, lo, hi, ordered, aabb);
        *total_nodes = *total_nodes + 1;
        return leaf;
    }
    assert(cb.min.at(split_axis) < cb.max.at(split_axis));
    let ghost p0 = prims@;
    proof {
        lemma_from_range_same(p0, lo as int, hi as int);
    }
    let mid: usize = if hi - lo <= 2 {
        // Equal counts: with two primitives the heuristic has nothing to weigh.
        let c0 = prims[lo].aabb.double_center().get(split_axis);
        let c1 = prims[lo + 1].aabb.double_center().get(split_axis);
        if c1 < c0 {
            swap_prims(prims, lo, lo + 1, Ghost(boxes0));
            proof {
                lemma_from_range_swap(p0, lo as int, lo + 1, lo as int, hi as int);
            }
        }
        lo + 1
    } else {
        match sah_split(prims, lo, hi, aabb, cb, split_axis) {
            Some(split) => partition(prims, lo, hi, split_axis, cb, split, Ghost(boxes0)),
            None => {
                let leaf = create_leaf_node(prims, lo, hi, ordered, aabb);
                *total_nodes = *total_nodes + 1;
                return leaf;
            },
        }
    };
    let ghost o1 = ordered@;
    let ghost p1 = prims@;
    proof {
        reveal(children_split);
        assert(children_split(p0, p1, lo as int, mid as int, hi as int));
    }
    let child_l = build_recursive(prims, lo, mid, ordered, total_nodes, Ghost(boxes0));
    let ghost p2 = prims@;
    let ghost o2 = ordered@;
    proof {
        lemma_tree_span(child_l, boxes_of(p2));
    }
    let child_r = build_recursive(prims, mid, hi, ordered, total_nodes, Ghost(boxes0));
    let ghost p3 = prims@;
    proof {
        lemma_tree_span(child_r, boxes_of(p3));
        lemma_tree_frame(child_l, boxes_of(p2), boxes_of(p3));
        assert(ids_of(p2).subrange(lo as int, mid as int) =~= ids_of(p3).subrange(
            lo as int,
            mid as int,
        ));
        assert(ordered@ =~= o1 + ids_of(p3).subrange(lo as int, hi as int));
        lemma_from_range_widen(p2, p1, lo as int, lo as int, mid as int, hi as int);
        lemma_from_range_widen(p3, p2, lo as int, mid as int, hi as int, hi as int);
        lemma_from_range_trans(p3, p2, p1, lo as int, hi as int);
        lemma_from_range_trans(p3, p1, p0, lo as int, hi as int);
        lemma_sides_kept(p0, p1, p2, p3, lo as int, mid as int, hi as int);
    }
    *total_nodes = *total_nodes + 1;
    let aabb = child_l.aabb().union_aabb(child_r.aabb());
    BuildBvhNode::Interior {
        aabb,
        split_axis,
        child_l: Box::new(child_l),
        child_r: Box::new(child_r),
    }
}

/// Appends `node` and its subtree to `flat_nodes` in depth-first order and returns how
/// many nodes it appended.
fn flatten_inner(node: &BuildBvhNode, flat_nodes: &mut Vec<LinearBvhNode>, Ghost(boxes): Ghost<
    Seq<AABB>,
>) -> (r: u32)
    requires
        node.ok(boxes),
        boxes.len() <= MAX_PRIMITIVES,
        old(flat_nodes)@.len() + node.size() <= u32::MAX,
    ensures
        final(flat_nodes)@.len() == old(flat_nodes)@.len() + node.size(),
        r == node.size(),
        forall|j: int| 0 <= j < old(flat_nodes)@.len() ==> #[trigger] final(flat_nodes)@[j] == old(
            flat_nodes,
        )@[j],
        encodes(final(flat_nodes)@, old(flat_nodes)@.len() as int, *node),
    decreases node,
{
    match node {
        BuildBvhNode::Leaf { aabb, first_prim_offset, primitive_count } => {
            flat_nodes.push(
                LinearBvhNode::new_leaf(*aabb, *first_prim_offset as u32, *primitive_count as u32),
            );
            1
        },
        BuildBvhNode::Interior { aabb, split_axis, child_l, child_r } => {
            let index = flat_nodes.len();
            flat_nodes.push(LinearBvhNode::new_interior(*aabb, 0, *split_axis));
            let left_count = flatten_inner(child_l, flat_nodes, Ghost(boxes));
            let ghost n1 = flat_nodes@;
            let mut interior = flat_nodes[index];
            interior.primitive_offset_or_second_child_offset = index as u32 + left_count + 1;
            flat_nodes.set(index, interior);
            let ghost n2 = flat_nodes@;
            proof {
                lemma_encodes_frame(n1, n2, index + 1, **child_l);
            }
            let right_count = flatten_inner(child_r, flat_nodes, Ghost(boxes));
            proof {
                lemma_encodes_frame(n2, flat_nodes@, index + 1, **child_l);
            }
            left_count + right_count + 1
        },
    }
}

/// Relies on `<[T]>::swap`: it exchanges the elements at the two indices, which must
/// both be in bounds.
pub assume_specification<T>[ <[T]>::swap ](s: &mut [T], a: usize, b: usize)
    requires
        a < old(s)@.len(),
        b < old(s)@.len(),
    ensures
        final(s)@ == old(s)@.update(a as int, old(s)@[b as int]).update(b as int, old(s)@[a as int]),
;

/// The boxes of a sequence of primitives.
pub open spec fn bounds_of<P: Hittable>(s: Seq<P>) -> Seq<AABB> {
    Seq::new(s.len(), |i: int| s[i].bounds())
}

pub open spec fn as_ints(s: Seq<usize>) -> Seq<int> {
    Seq::new(s.len(), |i: int| s[i] as int)
}

/// Permutes `data` in place so that position `i` receives what was at `indices[i]`.
/// Each step swaps one element into its final place, tracking where the others went.
pub fn sort_by_indices<E>(data: &mut Vec<E>, indices: Vec<usize>)
    requires
        is_permutation(as_ints(indices@), old(data)@.len()),
    ensures
        final(data)@.len() == old(data)@.len(),
        forall|i: int| 0 <= i < old(data)@.len() ==> #[trigger] final(data)@[i] == old(data)@[indices@[i] as int],
{
    let n = data.len();
    let ghost d0 = data@;
    // `at[k]`: where the element first at `k` is now; `who[p]`: where the element at `p` was first.
    let mut at: Vec<usize> = Vec::new();
    let mut who: Vec<usize> = Vec::new();
    let mut k: usize = 0;
    while k < n
        invariant
            k <= n,
            at@.len() == k,
            who@.len() == k,
            forall|j: int| 0 <= j < k ==> at@[j] == j && who@[j] == j,
        decreases n - k,
    {
        at.push(k);
        who.push(k);
        k += 1;
    }
    let mut i: usize = 0;
    while i < n
        invariant
            i <= n,
            n == d0.len(),
            is_permutation(as_ints(indices@), n as nat),
            data@.len() == n,
            at@.len() == n,
            who@.len() == n,
            forall|p: int| 0 <= p < n ==> #[trigger] data@[p] == d0[who@[p] as int],
            forall|p: int| 0 <= p < n ==> #[trigger] who@[p] < n && at@[who@[p] as int] == p,
            forall|q: int| 0 <= q < n ==> #[trigger] at@[q] < n && who@[at@[q] as int] == q,
            forall|p: int| 0 <= p < i ==> #[trigger] who@[p] == indices@[p],
        decreases n - i,
    {
        let k = indices[i];
        assert(as_ints(indices@)[i as int] == k);
        let p = at[k];
        assert(p >= i) by {
            if p < i {
                assert(who@[p as int] == indices@[p as int]);
                assert(who@[p as int] == k);
                assert(as_ints(indices@)[p as int] == as_ints(indices@)[i as int]);
            }
        }
        let ghost d1 = data@;
        data.as_mut_slice().swap(i, p);
        let w = who[i];
        who.set(p, w);
        at.set(w, p);
        who.set(i, k);
        at.set(k, i);
        proof {
            assert forall|q: int| 0 <= q < n implies #[trigger] data@[q] == d0[who@[q] as int] by {
                if q == i as int {
                } else if q == p as int {
                } else {
                    assert(data@[q] == d1[q]);
                }
            }
        }
        i += 1;
    }
}

/// A bounding volume hierarchy in a flat, depth-first array of nodes.
pub struct Bvh {
    nodes: Vec<LinearBvhNode>,
    tree: Ghost<BuildBvhNode>,
}

/// Node `i` is a leaf whose range of primitives holds position `k`.
pub open spec fn leaf_holds(nodes: Seq<LinearBvhNode>, i: int, k: int) -> bool {
    &&& 0 <= i < nodes.len()
    &&& nodes[i].primitive_count > 0
    &&& nodes[i].primitive_offset_or_second_child_offset <= k
    &&& k < nodes[i].primitive_offset_or_second_child_offset + nodes[i].primitive_count
}

impl Bvh {
    /// The flat array of nodes; node 0 is the root.
    pub closed spec fn nodes(&self) -> Seq<LinearBvhNode> {
        self.nodes@
    }

    /// The hierarchy describes the primitives whose boxes are `boxes`, in the order
    /// the build left them.
    pub closed spec fn wf(&self, boxes: Seq<AABB>) -> bool {
        &&& boxes.len() <= MAX_PRIMITIVES
        &&& all_valid(boxes)
        &&& self.tree@.ok(boxes)
        &&& self.tree@.lo() == 0
        &&& self.tree@.hi() == boxes.len()
        &&& self.nodes@.len() == self.tree@.size()
        &&& encodes(self.nodes@, 0, self.tree@)
    }

    /// The flat array of nodes.
    pub fn node_array(&self) -> (r: &Vec<LinearBvhNode>)
        ensures
            r@ == self.nodes(),
    {
        &self.nodes
    }

    /// Builds the hierarchy over `primitives`, which it permutes so that every leaf
    /// holds a consecutive run of them.
    #[verifier::rlimit(40)]
    #[verifier::spinoff_prover]
    pub fn build<P: Hittable>(primitives: &mut Vec<P>) -> (r: Self)
        requires
            0 < old(primitives)@.len() <= MAX_PRIMITIVES,
            all_valid(bounds_of(old(primitives)@)),
        ensures
            final(primitives)@.len() == old(primitives)@.len(),
            exists|perm: Seq<int>|
                is_permutation(perm, old(primitives)@.len()) && forall|i: int|
                    0 <= i < old(primitives)@.len() ==> #[trigger] final(primitives)@[i] == old(
                        primitives,
                    )@[perm[i]],
            r.wf(bounds_of(final(primitives)@)),
            old(primitives)@.len() == 1 ==> r.nodes().len() == 1 && r.nodes()[0] == (LinearBvhNode {
                aabb: old(primitives)@[0].bounds(),
                primitive_offset_or_second_child_offset: 0,
                primitive_count: 1,
                split_axis: Axis::X,
            }),
    {
        let n = primitives.len();
        let ghost boxes0 = bounds_of(primitives@);
        let mut bvh_primitives: Vec<BvhPrimitive> = Vec::new();
        let mut i: usize = 0;
        while i < n
            invariant
                i <= n,
                n == primitives@.len(),
                boxes0 == bounds_of(primitives@),
                bvh_primitives@.len() == i,
                forall|j: int| 0 <= j < i ==> #[trigger] bvh_primitives@[j] == (BvhPrimitive { id: j as usize, aabb: boxes0[j] }),
            decreases n - i,
        {
            let aabb = primitives[i].aabb();
            bvh_primitives.push(BvhPrimitive { id: i, aabb });
            i += 1;
        }
        let mut ordered: Vec<usize> = Vec::with_capacity(n);
        let mut total_nodes: usize = 0;
        let root = build_recursive(&mut bvh_primitives, 0, n, &mut ordered, &mut total_nodes, Ghost(boxes0));
        let ghost prims = bvh_primitives@;
        let ghost boxes = boxes_of(prims);
        proof {
            assert(ordered@ =~= ids_of(prims));
            assert forall|a: int, b: int| 0 <= a < b < n implies #[trigger] as_ints(ordered@)[a] != #[trigger] as_ints(ordered@)[b] by {
                assert(prims[a].id != prims[b].id);
            }
            assert forall|a: int| 0 <= a < n implies 0 <= #[trigger] as_ints(ordered@)[a] < n by {
                assert(prims[a].id < n);
            }
        }
        let ghost order = as_ints(ordered@);
        let ghost old_prims = primitives@;
        sort_by_indices(primitives, ordered);
        proof {
            assert forall|k: int| 0 <= k < n implies #[trigger] primitives@[k] == old_prims[order[k]] by {
            }
            assert(bounds_of(primitives@) =~= boxes) by {
                assert forall|k: int| 0 <= k < n implies #[trigger] bounds_of(primitives@)[k] == boxes[k] by {
                    assert(prims[k].aabb == boxes0[prims[k].id as int]);
                }
            }
            assert forall|k: int| 0 <= k < n implies (#[trigger] boxes[k]).valid() by {
                assert(prims[k].aabb == boxes0[prims[k].id as int]);
            }
            lemma_tree_span(root, boxes);
            assert(is_permutation(order, n as nat) && forall|k: int|
                0 <= k < n ==> #[trigger] primitives@[k] == old_prims[order[k]]);
            if n == 1 {
                assert(order[0] == 0);
                assert(boxes[0] == old_prims[0].bounds());
                assert(boxes[0].valid());
                assert(union_range(boxes, 0, 0) == empty_box());
                assert(union_range(boxes, 0, 1) == empty_box().spec_union(boxes[0]));
                assert(empty_box().spec_union(boxes[0]) == boxes[0]);
            }
        }
        Self::flatten(root, total_nodes, Ghost(boxes))
    }

    /// Lays the owned tree out as a flat array of `total_nodes` nodes.
    fn flatten(root: BuildBvhNode, total_nodes: usize, Ghost(boxes): Ghost<Seq<AABB>>) -> (r: Self)
        requires
            boxes.len() <= MAX_PRIMITIVES,
            all_valid(boxes),
            root.ok(boxes),
            root.lo() == 0,
            root.hi() == boxes.len(),
            total_nodes == root.size(),
        ensures
            r.wf(boxes),
            r.nodes().len() == root.size(),
            encodes(r.nodes(), 0, root),
    {
        proof {
            lemma_tree_span(root, boxes);
        }
        let mut nodes: Vec<LinearBvhNode> = Vec::with_capacity(total_nodes);
        flatten_inner(&root, &mut nodes, Ghost(boxes));
        Bvh { nodes, tree: Ghost(root) }
    }
}

/// Within the node range of an encoded subtree, leaves hold exactly the subtree's
/// primitives, each in exactly one leaf.
proof fn lemma_encoded_leaves(
    nodes: Seq<LinearBvhNode>,
    j: int,
    t: BuildBvhNode,
    boxes: Seq<AABB>,
    k: int,
    i1: int,
    i2: int,
)
    requires
        encodes(nodes, j, t),
        t.ok(boxes),
        boxes.len() <= MAX_PRIMITIVES,
    ensures
        t.lo() <= k < t.hi() ==> exists|i: int| j <= i < j + t.size() && #[trigger] leaf_holds(nodes, i, k),
        j <= i1 < j + t.size() && leaf_holds(nodes, i1, k) ==> t.lo() <= k < t.hi(),
        j <= i1 < j + t.size() && j <= i2 < j + t.size() && leaf_holds(nodes, i1, k) && leaf_holds(
            nodes,
            i2,
            k,
        ) ==> i1 == i2,
    decreases t,
{
    lemma_tree_span(t, boxes);
    match t {
        BuildBvhNode::Leaf { first_prim_offset, primitive_count, .. } => {
            if t.lo() <= k < t.hi() {
                assert(leaf_holds(nodes, j, k));
            }
        },
        BuildBvhNode::Interior { child_l, child_r, .. } => {
            let l = *child_l;
            let r = *child_r;
            let jr = j + 1 + l.size();
            lemma_tree_span(l, boxes);
            lemma_tree_span(r, boxes);
            lemma_encoded_leaves(nodes, j + 1, l, boxes, k, i1, i2);
            lemma_encoded_leaves(nodes, jr, r, boxes, k, i1, i2);
            if t.lo() <= k < t.hi() {
                if k < l.hi() {
                    let i = choose|i: int| j + 1 <= i < j + 1 + l.size() && #[trigger] leaf_holds(nodes, i, k);
                    assert(j <= i < j + t.size());
                } else {
                    let i = choose|i: int| jr <= i < jr + r.size() && #[trigger] leaf_holds(nodes, i, k);
                    assert(j <= i < j + t.size());
                }
            }
            // Mixed cases: one index on each side.
            lemma_encoded_leaves(nodes, j + 1, l, boxes, k, i2, i1);
            lemma_encoded_leaves(nodes, jr, r, boxes, k, i2, i1);
        },
    }
}

/// Within the node range of an encoded subtree, leaf boxes contain their primitives'
/// boxes and interior boxes are the unions of their children's boxes.
proof fn lemma_encoded_boxes(nodes: Seq<LinearBvhNode>, j: int, t: BuildBvhNode, boxes: Seq<AABB>, i: int)
    requires
        encodes(nodes, j, t),
        t.ok(boxes),
        all_valid(boxes),
        boxes.len() <= MAX_PRIMITIVES,
        j <= i < j + t.size(),
    ensures
        nodes[j].aabb == t.aabb_of(),
        node_boxes_ok(nodes, i, boxes),
    decreases t,
{
    lemma_tree_span(t, boxes);
    match t {
        BuildBvhNode::Leaf { first_prim_offset, primitive_count, .. } => {
            let lo = first_prim_offset as int;
            let hi = first_prim_offset + primitive_count;
            assert forall|k: int| lo <= k < hi implies #[trigger] boxes[k].bounded()
                && boxes[k].ordered() by {
                assert(boxes[k].valid());
            }
            lemma_union_range(boxes, lo, hi);
            assert(i == j);
            let node = nodes[i];
            assert(node.primitive_offset_or_second_child_offset as int == lo);
            assert(node.primitive_count as int == primitive_count);
            assert(node.aabb == union_range(boxes, lo, hi));
            assert forall|k: int| lo <= k < hi implies node.aabb.contains_box(#[trigger] boxes[k]) by {
                assert(union_range(boxes, lo, hi).contains_box(boxes[k]));
            }
            assert(node.primitive_count > 0);
            assert(lo + node.primitive_count <= boxes.len());
            assert(node_boxes_ok(nodes, i, boxes));
        },
        BuildBvhNode::Interior { child_l, child_r, .. } => {
            let l = *child_l;
            let r = *child_r;
            let jr = j + 1 + l.size();
            lemma_encoded_boxes(nodes, j + 1, l, boxes, j + 1);
            lemma_encoded_boxes(nodes, jr, r, boxes, jr);
            if i == j {
                let node = nodes[j];
                assert(encodes(nodes, jr, r));
                assert(encodes(nodes, j + 1, l));
                assert(jr < nodes.len() && j + 1 < nodes.len());
                assert(node.primitive_offset_or_second_child_offset as int == jr);
                assert(node.aabb == l.aabb_of().spec_union(r.aabb_of()));
                assert(node_boxes_ok(nodes, i, boxes));
            }
            if i > j {
                if i < jr {
                    lemma_encoded_boxes(nodes, j + 1, l, boxes, i);
                } else {
                    lemma_encoded_boxes(nodes, jr, r, boxes, i);
                }
            }
        },
    }
}

/// A leaf's box is the union of its primitives' boxes and so contains each, and a
/// leaf holds at most `MAX_PRIMS_IN_NODE` primitives unless they are flat or their
/// centroids coincide; an interior node's box is the union of its two children's
/// boxes.
pub open spec fn node_boxes_ok(nodes: Seq<LinearBvhNode>, i: int, boxes: Seq<AABB>) -> bool {
    let node = nodes[i];
    let off = node.primitive_offset_or_second_child_offset as int;
    if node.primitive_count > 0 {
        &&& off + node.primitive_count <= boxes.len()
        &&& forall|k: int| off <= k < off + node.primitive_count ==> node.aabb.contains_box(#[trigger] boxes[k])
        &&& node.aabb == union_range(boxes, off, off + node.primitive_count)
        &&& leaf_size_ok(boxes, off, off + node.primitive_count)
    } else {
        &&& i + 1 < nodes.len()
        &&& off < nodes.len()
        &&& node.aabb == nodes[i + 1].aabb.spec_union(nodes[off].aabb)
    }
}

/// After a build over `n` primitives the leaves' ranges cover every position below
/// `n`, no position is held by two leaves, and no leaf reaches past `n`.
pub proof fn lemma_leaves_partition_primitives(bvh: &Bvh, boxes: Seq<AABB>, k: int, i1: int, i2: int)
    requires
        bvh.wf(boxes),
    ensures
        0 <= k < boxes.len() ==> exists|i: int| #[trigger] leaf_holds(bvh.nodes(), i, k),
        leaf_holds(bvh.nodes(), i1, k) && leaf_holds(bvh.nodes(), i2, k) ==> i1 == i2,
        leaf_holds(bvh.nodes(), i1, k) ==> 0 <= k < boxes.len(),
{
    lemma_encoded_leaves(bvh.nodes@, 0, bvh.tree@, boxes, k, i1, i2);
    if 0 <= k < boxes.len() {
        let i = choose|i: int| 0 <= i < 0 + bvh.tree@.size() && #[trigger] leaf_holds(bvh.nodes@, i, k);
        assert(leaf_holds(bvh.nodes(), i, k));
    }
}

/// Every leaf's box is exactly the union of its primitives' boxes, every leaf holds
/// at most `MAX_PRIMS_IN_NODE` primitives unless they are flat or their centroids
/// coincide, and every interior node's box is the union of its two children's boxes.
pub proof fn lemma_node_containment(bvh: &Bvh, boxes: Seq<AABB>, i: int)
    requires
        bvh.wf(boxes),
        0 <= i < bvh.nodes().len(),
    ensures
        node_boxes_ok(bvh.nodes(), i, boxes),
{
    lemma_encoded_boxes(bvh.nodes@, 0, bvh.tree@, boxes, i);
}

/// The subtree of `t`, laid out from node `j`, whose root is node `i`.
spec fn subtree_at(t: BuildBvhNode, j: int, i: int) -> BuildBvhNode
    decreases t,
{
    match t {
        BuildBvhNode::Leaf { .. } => t,
        BuildBvhNode::Interior { child_l, child_r, .. } => {
            if i == j {
                t
            } else if i < j + 1 + child_l.size() {
                subtree_at(*child_l, j + 1, i)
            } else {
                subtree_at(*child_r, j + 1 + child_l.size(), i)
            }
        },
    }
}

proof fn lemma_size_pos(t: BuildBvhNode)
    ensures
        t.size() >= 1,
{
}

/// Every subtree's box is a valid box.
proof fn lemma_tree_valid(t: BuildBvhNode, boxes: Seq<AABB>)
    requires
        t.ok(boxes),
        all_valid(boxes),
    ensures
        t.aabb_of().valid(),
    decreases t,
{
    lemma_tree_span(t, boxes);
    match t {
        BuildBvhNode::Leaf { first_prim_offset, primitive_count, .. } => {
            let lo = first_prim_offset as int;
            let hi = first_prim_offset + primitive_count;
            assert forall|q: int| lo <= q < hi implies #[trigger] boxes[q].bounded()
                && boxes[q].ordered() by {
                assert(boxes[q].valid());
            }
            lemma_union_range(boxes, lo, hi);
            let u = union_range(boxes, lo, hi);
            assert forall|a: Axis| crate::geometry::coord_ok(#[trigger] u.min.at(a) as i64) && crate::geometry::coord_ok(u.max.at(a) as i64) by {
                let k1 = choose|k: int| lo <= k < hi && #[trigger] u.min.at(a) == boxes[k].min.at(a);
                let k2 = choose|k: int| lo <= k < hi && #[trigger] u.max.at(a) == boxes[k].max.at(a);
                assert(boxes[k1].valid());
                assert(boxes[k2].valid());
            }
            assert(crate::geometry::coord_ok(u.min.at(Axis::X) as i64));
            assert(crate::geometry::coord_ok(u.min.at(Axis::Y) as i64));
            assert(crate::geometry::coord_ok(u.min.at(Axis::Z) as i64));
            assert(crate::geometry::coord_ok(u.max.at(Axis::X) as i64));
            assert(crate::geometry::coord_ok(u.max.at(Axis::Y) as i64));
            assert(crate::geometry::coord_ok(u.max.at(Axis::Z) as i64));
        },
        BuildBvhNode::Interior { child_l, child_r, .. } => {
            lemma_tree_valid(*child_l, boxes);
            lemma_tree_valid(*child_r, boxes);
        },
    }
}

proof fn lemma_subtree_at_root(t: BuildBvhNode, j: int)
    ensures
        subtree_at(t, j, j) == t,
{
}

proof fn lemma_subtree(nodes: Seq<LinearBvhNode>, t: BuildBvhNode, j: int, i: int, boxes: Seq<AABB>)
    requires
        encodes(nodes, j, t),
        t.ok(boxes),
        j <= i < j + t.size(),
    ensures
        encodes(nodes, i, subtree_at(t, j, i)),
        subtree_at(t, j, i).ok(boxes),
        t.lo() <= subtree_at(t, j, i).lo(),
        subtree_at(t, j, i).hi() <= t.hi(),
        i + subtree_at(t, j, i).size() <= j + t.size(),
        subtree_at(t, j, i) matches BuildBvhNode::Interior { child_l, child_r, .. } ==> {
            &&& subtree_at(t, j, i + 1) == *child_l
            &&& subtree_at(t, j, i + 1 + child_l.size()) == *child_r
        },
    decreases t,
{
    lemma_tree_span(t, boxes);
    if let BuildBvhNode::Interior { child_l, child_r, .. } = t {
        let l = *child_l;
        let r = *child_r;
        let jr = j + 1 + l.size();
        lemma_tree_span(l, boxes);
        lemma_tree_span(r, boxes);
        lemma_size_pos(l);
        lemma_size_pos(r);
        if i == j {
            lemma_subtree_at_root(l, j + 1);
            lemma_subtree_at_root(r, jr);
        } else if i < jr {
            lemma_subtree(nodes, l, j + 1, i, boxes);
            let sub = subtree_at(l, j + 1, i);
            if let BuildBvhNode::Interior { child_l: ll, child_r: rr, .. } = sub {
                lemma_size_pos(*ll);
                lemma_size_pos(*rr);
                assert(i + 1 < jr);
                assert(i + 1 + ll.size() < jr);
            }
        } else {
            lemma_subtree(nodes, r, jr, i, boxes);
            let sub = subtree_at(r, jr, i);
            if let BuildBvhNode::Interior { child_l: ll, child_r: rr, .. } = sub {
                lemma_size_pos(*ll);
                lemma_size_pos(*rr);
                assert(i + 1 > j);
            }
        }
    }
}

/// A subtree's box contains the boxes of all its primitives.
proof fn lemma_tree_contains(t: BuildBvhNode, boxes: Seq<AABB>, k: int)
    requires
        t.ok(boxes),
        all_valid(boxes),
        t.lo() <= k < t.hi(),
    ensures
        t.aabb_of().contains_box(boxes[k]),
    decreases t,
{
    lemma_tree_span(t, boxes);
    match t {
        BuildBvhNode::Leaf { first_prim_offset, primitive_count, .. } => {
            let lo = first_prim_offset as int;
            let hi = first_prim_offset + primitive_count;
            assert forall|q: int| lo <= q < hi implies #[trigger] boxes[q].bounded()
                && boxes[q].ordered() by {
                assert(boxes[q].valid());
            }
            lemma_union_range(boxes, lo, hi);
        },
        BuildBvhNode::Interior { child_l, child_r, .. } => {
            lemma_tree_span(*child_l, boxes);
            lemma_tree_span(*child_r, boxes);
            if k < child_l.hi() {
                lemma_tree_contains(*child_l, boxes, k);
            } else {
                lemma_tree_contains(*child_r, boxes, k);
            }
        },
    }
}

/// The total size of the subtrees whose roots are on the stack.
spec fn pending(t: BuildBvhNode, stack: Seq<usize>) -> nat
    decreases stack.len(),
{
    if stack.len() == 0 {
        0
    } else {
        pending(t, stack.drop_last()) + subtree_at(t, 0, stack.last() as int).size()
    }
}

proof fn lemma_pending_push(t: BuildBvhNode, stack: Seq<usize>, x: usize)
    ensures
        pending(t, stack.push(x)) == pending(t, stack) + subtree_at(t, 0, x as int).size(),
{
    assert(stack.push(x).drop_last() =~= stack);
}

/// Primitive `k` lies under node `i`.
spec fn under(t: BuildBvhNode, i: int, k: int) -> bool {
    subtree_at(t, 0, i).lo() <= k < subtree_at(t, 0, i).hi()
}

/// A hit found by traversal: the primitive and the step at which the ray meets it.
#[derive(Clone, Copy, Debug, PartialEq, Eq, Structural)]
pub struct BvhHit {
    pub index: usize,
    pub t: i128,
}

/// Primitive `k` is hit before step `tmax`.
pub open spec fn hit_before<P: Hittable>(prims: Seq<P>, ray: Ray, k: int, tmax: int) -> bool {
    prims[k].hit_param(ray) matches Some(e) && e < tmax
}

/// What traversal promises for `ray` before step `tmax`: no hit when no primitive is
/// hit before `tmax`, else a real hit that no primitive's hit precedes.
pub open spec fn traversal_ok<P: Hittable>(prims: Seq<P>, ray: Ray, tmax: int, r: Option<BvhHit>) -> bool {
    match r {
        None => forall|k: int| 0 <= k < prims.len() ==> !hit_before(prims, ray, k, tmax),
        Some(h) => {
            &&& h.index < prims.len()
            &&& prims[h.index as int].hit_param(ray) == Some(h.t as int)
            &&& h.t < tmax
            &&& forall|k: int| 0 <= k < prims.len() ==> !hit_before(prims, ray, k, h.t as int)
        },
    }
}

/// The least step before `tmax` at which one of `prims[..k]` is hit, found by testing
/// each primitive in turn.
pub open spec fn brute_force_hit<P: Hittable>(prims: Seq<P>, ray: Ray, tmax: int, k: int) -> Option<int>
    decreases k,
{
    if k <= 0 {
        None
    } else {
        let prev = brute_force_hit(prims, ray, tmax, k - 1);
        match prims[k - 1].hit_param(ray) {
            Some(e) => if e < tmax && (prev matches Some(p) ==> e < p) {
                Some(e)
            } else {
                prev
            },
            None => prev,
        }
    }
}

proof fn lemma_brute_force<P: Hittable>(prims: Seq<P>, ray: Ray, tmax: int, k: int)
    requires
        0 <= k <= prims.len(),
    ensures
        brute_force_hit(prims, ray, tmax, k) is None <==> forall|q: int|
            0 <= q < k ==> !hit_before(prims, ray, q, tmax),
        brute_force_hit(prims, ray, tmax, k) matches Some(m) ==> {
            &&& m < tmax
            &&& exists|q: int| 0 <= q < k && #[trigger] prims[q].hit_param(ray) == Some(m)
            &&& forall|q: int| 0 <= q < k ==> !hit_before(prims, ray, q, m)
        },
    decreases k,
{
    if k > 0 {
        lemma_brute_force(prims, ray, tmax, k - 1);
        let prev = brute_force_hit(prims, ray, tmax, k - 1);
        let cur = brute_force_hit(prims, ray, tmax, k);
        let x = prims[k - 1].hit_param(ray);
        if cur != prev {
            // The last primitive gives the new least hit.
            let e = x->Some_0;
            assert(x == Some(e) && e < tmax && cur == Some(e));
            assert(0 <= k - 1 < k && prims[k - 1].hit_param(ray) == Some(e));
            assert forall|q: int| 0 <= q < k implies !hit_before(prims, ray, q, e) by {
                if q < k - 1 {
                    if hit_before(prims, ray, q, e) {
                        match prev {
                            Some(p) => {
                                assert(hit_before(prims, ray, q, p));
                            },
                            None => {
                                assert(hit_before(prims, ray, q, tmax));
                            },
                        }
                    }
                }
            }
        } else {
            match prev {
                Some(p) => {
                    let q0 = choose|q: int| 0 <= q < k - 1 && #[trigger] prims[q].hit_param(ray) == Some(p);
                    assert(0 <= q0 < k && prims[q0].hit_param(ray) == Some(p));
                    assert forall|q: int| 0 <= q < k implies !hit_before(prims, ray, q, p) by {
                        if q == k - 1 {
                        }
                    }
                },
                None => {
                    assert forall|q: int| 0 <= q < k implies !hit_before(prims, ray, q, tmax) by {
                        if q == k - 1 {
                        }
                    }
                },
            }
        }
        if cur is None {
            assert(prev is None);
        } else {
            assert(!hit_before(prims, ray, k - 1, tmax) ==> cur == prev);
            if forall|q: int| 0 <= q < k ==> !hit_before(prims, ray, q, tmax) {
                assert(!hit_before(prims, ray, k - 1, tmax));
                assert(forall|q: int| 0 <= q < k - 1 ==> !hit_before(prims, ray, q, tmax));
            }
        }
    }
}

/// Traversal agrees with testing every primitive: it reports no hit exactly when
/// brute force finds none, and otherwise a hit at the step brute force finds.
pub proof fn lemma_traversal_matches_brute_force<P: Hittable>(
    prims: Seq<P>,
    ray: Ray,
    tmax: int,
    r: Option<BvhHit>,
)
    requires
        traversal_ok(prims, ray, tmax, r),
    ensures
        match r {
            None => brute_force_hit(prims, ray, tmax, prims.len() as int) is None,
            Some(h) => brute_force_hit(prims, ray, tmax, prims.len() as int) == Some(h.t as int),
        },
{
    let n = prims.len() as int;
    lemma_brute_force(prims, ray, tmax, n);
    if let Some(h) = r {
        if let Some(m) = brute_force_hit(prims, ray, tmax, n) {
            let q = choose|q: int| 0 <= q < n && #[trigger] prims[q].hit_param(ray) == Some(m);
            assert(!hit_before(prims, ray, q, h.t as int));
            assert(!hit_before(prims, ray, h.index as int, m));
        } else {
            assert(hit_before(prims, ray, h.index as int, tmax));
        }
    }
}

/// Over a single primitive, traversal reports exactly that primitive's own hit when
/// it comes before `tmax`.
pub proof fn lemma_single_primitive_traversal<P: Hittable>(
    prims: Seq<P>,
    ray: Ray,
    tmax: int,
    r: Option<BvhHit>,
)
    requires
        prims.len() == 1,
        traversal_ok(prims, ray, tmax, r),
    ensures
        match r {
            None => !(prims[0].hit_param(ray) matches Some(e) && e < tmax),
            Some(h) => h.index == 0 && prims[0].hit_param(ray) == Some(h.t as int) && h.t < tmax,
        },
{
    if r is None {
        assert(!hit_before(prims, ray, 0, tmax));
    }
}

impl Bvh {
    /// The closest hit of `ray` before step `tmax` among `primitives`, which must be
    /// the array that the build reordered.
    #[verifier::rlimit(40)]
    #[verifier::spinoff_prover]
    pub fn intersect<P: Hittable>(&self, ray: &Ray, tmax: i128, primitives: &Vec<P>) -> (r: Option<BvhHit>)
        requires
            self.wf(bounds_of(primitives@)),
            ray.wf(),
        ensures
            traversal_ok(primitives@, *ray, tmax as int, r),
    {
        let ghost t = self.tree@;
        let ghost boxes = bounds_of(primitives@);
        let ghost n = primitives@.len() as int;
        let ghost nodes = self.nodes@;
        let tmax0 = tmax;
        let mut tmax = tmax;
        let mut closest: Option<BvhHit> = None;
        let mut stack: Vec<usize> = Vec::new();
        stack.push(0);
        proof {
            lemma_tree_span(t, boxes);
            lemma_subtree_at_root(t, 0);
            assert forall|k: int| 0 <= k < n && hit_before(primitives@, *ray, k, tmax as int) implies exists|s: int|
                0 <= s < stack@.len() && #[trigger] under(t, stack@[s] as int, k) by {
                assert(under(t, stack@[0] as int, k));
            }
            assert(stack@.drop_last() =~= Seq::<usize>::empty());
        }
        while stack.len() > 0
            invariant
                self.wf(boxes),
                boxes == bounds_of(primitives@),
                t == self.tree@,
                nodes == self.nodes@,
                n == primitives@.len(),
                ray.wf(),
                tmax <= tmax0,
                forall|s: int| 0 <= s < stack@.len() ==> #[trigger] stack@[s] < nodes.len(),
                forall|k: int|
                    0 <= k < n && hit_before(primitives@, *ray, k, tmax as int) ==> exists|s: int|
                        0 <= s < stack@.len() && #[trigger] under(t, stack@[s] as int, k),
                match closest {
                    None => tmax == tmax0,
                    Some(h) => {
                        &&& h.index < n
                        &&& primitives@[h.index as int].hit_param(*ray) == Some(h.t as int)
                        &&& h.t == tmax
                        &&& tmax < tmax0
                    },
                },
            decreases pending(t, stack@),
        {
            let ghost old_stack = stack@;
            let ghost old_tmax = tmax;
            let i = stack.pop().unwrap();
            let ghost rest = stack@;
            let ghost sub = subtree_at(t, 0, i as int);
            proof {
                assert(old_stack =~= rest.push(i));
                lemma_subtree(nodes, t, 0, i as int, boxes);
                lemma_tree_span(sub, boxes);
                lemma_tree_span(t, boxes);
            }
            let node = self.nodes[i];
            proof {
                assert(node.aabb == sub.aabb_of());
                lemma_tree_valid(sub, boxes);
            }
            if node.aabb.intersects(ray, tmax) {
                if node.primitive_count > 0 {
                    assert(sub is Leaf);
                    let off = node.primitive_offset_or_second_child_offset as usize;
                    let end = off + node.primitive_count as usize;
                    let mut k = off;
                    while k < end
                        invariant
                            sub.lo() == off,
                            sub.hi() == end,
                            off <= k <= end <= n,
                            self.wf(boxes),
                            boxes == bounds_of(primitives@),
                            n == primitives@.len(),
                            ray.wf(),
                            tmax <= old_tmax,
                            old_tmax <= tmax0,
                            forall|q: int|
                                off <= q < k ==> (#[trigger] primitives@[q].hit_param(*ray) matches Some(e)
                                    ==> e >= tmax),
                            match closest {
                                None => tmax == tmax0,
                                Some(h) => {
                                    &&& h.index < n
                                    &&& primitives@[h.index as int].hit_param(*ray) == Some(h.t as int)
                                    &&& h.t == tmax
                                    &&& tmax < tmax0
                                },
                            },
                        decreases end - k,
                    {
                        proof {
                            assert(boxes[k as int].valid());
                        }
                        match primitives[k].intersect(ray) {
                            Some(e) => {
                                if e < tmax {
                                    tmax = e;
                                    closest = Some(BvhHit { index: k, t: e });
                                }
                            },
                            None => {},
                        }
                        k += 1;
                    }
                    proof {
                        assert forall|q: int| 0 <= q < n && hit_before(primitives@, *ray, q, tmax as int) implies exists|s: int|
                            0 <= s < stack@.len() && #[trigger] under(t, stack@[s] as int, q) by {
                            assert(hit_before(primitives@, *ray, q, old_tmax as int));
                            let s = choose|s: int| 0 <= s < old_stack.len() && #[trigger] under(t, old_stack[s] as int, q);
                            if s == old_stack.len() - 1 {
                                assert(off <= q < end);
                                assert(primitives@[q].hit_param(*ray) matches Some(e) ==> e >= tmax);
                                assert(false);
                            } else {
                                assert(stack@[s] == old_stack[s]);
                            }
                        }
                        lemma_pending_push(t, rest, i);
                    }
                } else {
                    assert(sub is Interior);
                    let off = node.primitive_offset_or_second_child_offset as usize;
                    let ghost l = subtree_at(t, 0, i + 1);
                    let ghost r = subtree_at(t, 0, off as int);
                    // Visit first the child that lies first along the ray.
                    if ray.dir.get(node.split_axis) < 0 {
                        stack.push(i + 1);
                        stack.push(off);
                    } else {
                        stack.push(off);
                        stack.push(i + 1);
                    }
                    proof {
                        let len = stack@.len();
                        assert(stack@.subrange(0, len - 2) =~= rest);
                        assert(stack@.drop_last().drop_last() =~= rest);
                        assert forall|q: int| 0 <= q < n && hit_before(primitives@, *ray, q, tmax as int) implies exists|s: int|
                            0 <= s < stack@.len() && #[trigger] under(t, stack@[s] as int, q) by {
                            let s = choose|s: int| 0 <= s < old_stack.len() && #[trigger] under(t, old_stack[s] as int, q);
                            if s == old_stack.len() - 1 {
                                if q < l.hi() {
                                    assert(under(t, (i + 1) as int, q));
                                    if stack@[len - 1] == i + 1 {
                                        assert(under(t, stack@[len - 1] as int, q));
                                    } else {
                                        assert(under(t, stack@[len - 2] as int, q));
                                    }
                                } else {
                                    assert(under(t, off as int, q));
                                    if stack@[len - 1] == off {
                                        assert(under(t, stack@[len - 1] as int, q));
                                    } else {
                                        assert(under(t, stack@[len - 2] as int, q));
                                    }
                                }
                            } else {
                                assert(stack@[s] == old_stack[s]);
                            }
                        }
                        lemma_pending_push(t, rest, i);
                        lemma_pending_push(t, stack@.drop_last().drop_last(), stack@[len - 2]);
                        lemma_pending_push(t, stack@.drop_last(), stack@[len - 1]);
                        assert(stack@.drop_last().drop_last().push(stack@[len - 2]) =~= stack@.drop_last());
                        assert(stack@.drop_last().push(stack@[len - 1]) =~= stack@);
                    }
                }
            } else {
                proof {
                    assert forall|q: int| 0 <= q < n && hit_before(primitives@, *ray, q, tmax as int) implies exists|s: int|
                        0 <= s < stack@.len() && #[trigger] under(t, stack@[s] as int, q) by {
                        let s = choose|s: int| 0 <= s < old_stack.len() && #[trigger] under(t, old_stack[s] as int, q);
                        if s == old_stack.len() - 1 {
                            let e = primitives@[q].hit_param(*ray)->Some_0;
                            assert(boxes[q].valid());
                            primitives@[q].lemma_hit_in_bounds(*ray);
                            lemma_tree_contains(sub, boxes, q);
                            lemma_in_box_mono(*ray, e, boxes[q], node.aabb);
                            lemma_box_entry(*ray, node.aabb, e);
                            assert(false);
                        } else {
                            assert(stack@[s] == old_stack[s]);
                        }
                    }
                    lemma_pending_push(t, rest, i);
                }
            }
        }
        closest
    }
}

/// The union of a run splits at any point inside it.
proof fn lemma_union_range_split(boxes: Seq<AABB>, lo: int, mid: int, hi: int)
    requires
        0 <= lo <= mid <= hi <= boxes.len(),
        forall|k: int| lo <= k < hi ==> #[trigger] boxes[k].bounded() && boxes[k].ordered(),
    ensures
        union_range(boxes, lo, hi) == union_range(boxes, lo, mid).spec_union(union_range(boxes, mid, hi)),
    decreases hi - mid,
{
    if hi == mid {
        if lo < mid {
            lemma_union_range(boxes, lo, mid);
        }
    } else {
        lemma_union_range_split(boxes, lo, mid, hi - 1);
    }
}

/// A subtree's box is the union of the boxes of all its primitives.
proof fn lemma_tree_box(t: BuildBvhNode, boxes: Seq<AABB>)
    requires
        t.ok(boxes),
        all_valid(boxes),
    ensures
        t.aabb_of() == union_range(boxes, t.lo(), t.hi()),
    decreases t,
{
    lemma_tree_span(t, boxes);
    if let BuildBvhNode::Interior { child_l, child_r, .. } = t {
        lemma_tree_span(*child_l, boxes);
        lemma_tree_span(*child_r, boxes);
        lemma_tree_box(*child_l, boxes);
        lemma_tree_box(*child_r, boxes);
        assert forall|k: int| t.lo() <= k < t.hi() implies #[trigger] boxes[k].bounded() && boxes[k].ordered() by {
            assert(boxes[k].valid());
        }
        lemma_union_range_split(boxes, t.lo(), child_l.hi(), t.hi());
    }
}

/// The root's box is the union of the boxes of all primitives.
pub proof fn lemma_root_box(bvh: &Bvh, boxes: Seq<AABB>)
    requires
        bvh.wf(boxes),
    ensures
        bvh.nodes()[0].aabb == union_range(boxes, 0, boxes.len() as int),
{
    lemma_tree_box(bvh.tree@, boxes);
    lemma_encoded_boxes(bvh.nodes@, 0, bvh.tree@, boxes, 0);
}

/// `nodes[i..end]` is one subtree in depth-first order: a leaf alone, or an interior
/// node followed by its left subtree, up to the stored offset where its right subtree
/// starts and runs to `end`.
pub open spec fn flat_subtree(nodes: Seq<LinearBvhNode>, i: int, end: int) -> bool
    decreases end - i,
{
    if 0 <= i < end <= nodes.len() {
        if nodes[i].primitive_count > 0 {
            end == i + 1
        } else {
            let o = nodes[i].primitive_offset_or_second_child_offset as int;
            i + 1 < o < end && flat_subtree(nodes, i + 1, o) && flat_subtree(nodes, o, end)
        }
    } else {
        false
    }
}

proof fn lemma_encodes_flat(nodes: Seq<LinearBvhNode>, j: int, t: BuildBvhNode, boxes: Seq<AABB>)
    requires
        encodes(nodes, j, t),
        t.ok(boxes),
        j + t.size() <= nodes.len(),
    ensures
        flat_subtree(nodes, j, j + t.size()),
    decreases t,
{
    if let BuildBvhNode::Interior { child_l, child_r, .. } = t {
        lemma_size_pos(*child_l);
        lemma_size_pos(*child_r);
        lemma_encodes_flat(nodes, j + 1, *child_l, boxes);
        lemma_encodes_flat(nodes, j + 1 + child_l.size(), *child_r, boxes);
    }
}

/// The whole array is one depth-first tree rooted at node 0: every interior node's
/// left child follows it, its left subtree fills the nodes up to its stored offset,
/// and its right subtree starts there.
pub proof fn lemma_depth_first_layout(bvh: &Bvh, boxes: Seq<AABB>)
    requires
        bvh.wf(boxes),
    ensures
        flat_subtree(bvh.nodes(), 0, bvh.nodes().len() as int),
{
    lemma_encodes_flat(bvh.nodes@, 0, bvh.tree@, boxes);
}

impl Bvh {
    /// Whether nothing lies between `start` and `end`: no primitive is hit before the
    /// ray from `start` along `end - start` reaches `end`, which is step
    /// `ray_scale(end - start)`. A hit exactly at `end` does not occlude.
    pub fn is_unoccluded<P: Hittable>(&self, start: Point3, end: Point3, primitives: &Vec<P>) -> (r: bool)
        requires
            self.wf(bounds_of(primitives@)),
            start.in_range(),
            end.in_range(),
            -DIR_LIMIT <= end.x - start.x <= DIR_LIMIT,
            -DIR_LIMIT <= end.y - start.y <= DIR_LIMIT,
            -DIR_LIMIT <= end.z - start.z <= DIR_LIMIT,
        ensures
            ({
                let ray = Ray {
                    orig: start,
                    dir: Point3 {
                        x: (end.x - start.x) as i64,
                        y: (end.y - start.y) as i64,
                        z: (end.z - start.z) as i64,
                    },
                };
                r == forall|k: int|
                    0 <= k < primitives@.len() ==> !hit_before(primitives@, ray, k, ray_scale(ray.dir))
            }),
    {
        let dir = Point3::new(end.x - start.x, end.y - start.y, end.z - start.z);
        let ray = Ray::new(start, dir);
        let scale = ray.scale();
        match self.intersect(&ray, scale, primitives) {
            Some(hit) => {
                assert(hit_before(primitives@, ray, hit.index as int, scale as int));
                false
            },
            None => true,
        }
    }
}

/// How many of `nodes[lo..hi]` are leaves.
pub open spec fn leaf_count(nodes: Seq<LinearBvhNode>, lo: int, hi: int) -> int
    decreases hi - lo,
{
    if hi <= lo {
        0
    } else {
        leaf_count(nodes, lo, hi - 1) + if nodes[hi - 1].primitive_count > 0 {
            1int
        } else {
            0int
        }
    }
}

proof fn lemma_leaf_count_split(nodes: Seq<LinearBvhNode>, a: int, b: int, c: int)
    requires
        a <= b <= c,
    ensures
        leaf_count(nodes, a, c) == leaf_count(nodes, a, b) + leaf_count(nodes, b, c),
    decreases c - b,
{
    if c > b {
        lemma_leaf_count_split(nodes, a, b, c - 1);
    }
}

proof fn lemma_flat_leaf_count(nodes: Seq<LinearBvhNode>, i: int, end: int)
    requires
        flat_subtree(nodes, i, end),
    ensures
        end - i == 2 * leaf_count(nodes, i, end) - 1,
    decreases end - i,
{
    assert(leaf_count(nodes, i, i) == 0);
    assert(leaf_count(nodes, i, i + 1) == if nodes[i].primitive_count > 0 { 1int } else { 0int });
    if nodes[i].primitive_count == 0 {
        let o = nodes[i].primitive_offset_or_second_child_offset as int;
        lemma_flat_leaf_count(nodes, i + 1, o);
        lemma_flat_leaf_count(nodes, o, end);
        lemma_leaf_count_split(nodes, i, i + 1, o);
        lemma_leaf_count_split(nodes, i, o, end);
    }
}

/// A hierarchy with `l` leaves has `2 * l - 1` nodes: every interior node has two
/// children.
pub proof fn lemma_node_count(bvh: &Bvh, boxes: Seq<AABB>)
    requires
        bvh.wf(boxes),
    ensures
        bvh.nodes().len() == 2 * leaf_count(bvh.nodes(), 0, bvh.nodes().len() as int) - 1,
{
    lemma_depth_first_layout(bvh, boxes);
    lemma_flat_leaf_count(bvh.nodes(), 0, bvh.nodes().len() as int);
}

} // verus!
