use vstd::prelude::*;

use crate::bounding_box::{
    empty_box, lemma_contains_transitive, lemma_intersect_monotone, lemma_union_contains,
    BoundingBox,
};
use crate::helpers::Point;
use crate::ray::Ray;

verus! {

/// Number of buckets of the surface-area heuristic.
pub const N_BUCKETS: usize = 12;

/// Above this many primitives a node is always split.
pub const MAX_PRIMS_IN_NODE: usize = 250;

/// Largest number of primitives a hierarchy is built over.
pub const MAX_PRIMITIVES: usize = 0x8000_0000;

/// A node of the hierarchy. A leaf holds the half-open range
/// `[first_prim_offset, first_prim_offset + number_primitives)` of the
/// hierarchy's `ordered_prims`; an interior node holds two children and the
/// axis along which they were split.
#[derive(Debug)]
pub enum BVHNode {
    Leaf { bounds: BoundingBox, first_prim_offset: usize, number_primitives: usize },
    Interior { bounds: BoundingBox, split_axis: usize, left: Box<BVHNode>, right: Box<BVHNode> },
}

impl BVHNode {
    pub open spec fn bounds(self) -> BoundingBox {
        match self {
            BVHNode::Leaf { bounds, .. } => bounds,
            BVHNode::Interior { bounds, .. } => bounds,
        }
    }

    /// The primitive ids that the leaves of this subtree reach, left to right.
    pub open spec fn prims(self, ordered: Seq<usize>) -> Seq<usize>
        decreases self,
    {
        match self {
            BVHNode::Leaf { first_prim_offset, number_primitives, .. } => ordered.subrange(
                first_prim_offset as int,
                first_prim_offset + number_primitives,
            ),
            BVHNode::Interior { left, right, .. } => left.prims(ordered) + right.prims(ordered),
        }
    }

    /// Every leaf range lies inside `ordered_prims` and every split axis is an axis.
    pub open spec fn ranges_ok(self, len: int) -> bool
        decreases self,
    {
        match self {
            BVHNode::Leaf { first_prim_offset, number_primitives, .. } => first_prim_offset
                + number_primitives <= len,
            BVHNode::Interior { split_axis, left, right, .. } => split_axis < 3 && left.ranges_ok(
                len,
            ) && right.ranges_ok(len),
        }
    }

    /// Leaves bound the boxes of their primitives; interior nodes are bounded
    /// by the union of their children.
    pub open spec fn well_formed(self, ordered: Seq<usize>, boxes: Seq<BoundingBox>) -> bool
        decreases self,
    {
        match self {
            BVHNode::Leaf { bounds, first_prim_offset, number_primitives } => {
                &&& first_prim_offset + number_primitives <= ordered.len()
                &&& forall|j: int|
                    first_prim_offset <= j < first_prim_offset + number_primitives ==> (
                    #[trigger] ordered[j] < boxes.len() && bounds.contains(boxes[ordered[j] as int]))
            },
            BVHNode::Interior { bounds, split_axis, left, right } => {
                &&& split_axis < 3
                &&& bounds == left.bounds().spec_union(right.bounds())
                &&& left.well_formed(ordered, boxes)
                &&& right.well_formed(ordered, boxes)
            },
        }
    }

    /// The box of every node contains the box of every primitive that its
    /// subtree reaches.
    pub open spec fn covers(self, ordered: Seq<usize>, boxes: Seq<BoundingBox>) -> bool
        decreases self,
    {
        &&& forall|k: int|
            0 <= k < self.prims(ordered).len() ==> #[trigger] self.prims(ordered)[k] < boxes.len()
                && self.bounds().contains(boxes[self.prims(ordered)[k] as int])
        &&& match self {
            BVHNode::Leaf { .. } => true,
            BVHNode::Interior { left, right, .. } => left.covers(ordered, boxes) && right.covers(
                ordered,
                boxes,
            ),
        }
    }

    /// Every interior node splits its primitives along its split axis: no
    /// centroid on the left lies beyond a centroid on the right.
    pub open spec fn separated(self, ordered: Seq<usize>, boxes: Seq<BoundingBox>) -> bool
        decreases self,
    {
        match self {
            BVHNode::Leaf { .. } => true,
            BVHNode::Interior { split_axis, left, right, .. } => {
                &&& forall|a: int, b: int|
                    0 <= a < left.prims(ordered).len() && 0 <= b < right.prims(ordered).len()
                        ==> centroid_of(boxes[#[trigger] left.prims(ordered)[a] as int]).coord(
                        split_axis as int,
                    ) <= centroid_of(boxes[#[trigger] right.prims(ordered)[b] as int]).coord(
                        split_axis as int,
                    )
                &&& left.separated(ordered, boxes)
                &&& right.separated(ordered, boxes)
            },
        }
    }

    /// The node is built as the surface-area build rules say for its
    /// primitives `p`, and so are all nodes below it. A leaf is non-empty,
    /// bounded by the union of its primitives' boxes, and holds one
    /// primitive, or primitives whose centroids coincide along the longest
    /// axis of their centroid box, or more than four for which the
    /// heuristic does not split. An interior node splits along that axis:
    /// at the median, the lower half (rounded down) going left, when it holds
    /// at most four primitives; else after the bucket of least split cost,
    /// which the heuristic must accept.
    pub open spec fn follows_policy(self, ordered: Seq<usize>, boxes: Seq<BoundingBox>) -> bool
        decreases self,
    {
        let p = self.prims(ordered);
        match self {
            BVHNode::Leaf { bounds, .. } => {
                &&& p.len() >= 1
                &&& bounds == prim_bounds(p, boxes)
                &&& (p.len() == 1 || degenerate(p, boxes) || (p.len() > 4 && !sah_splits(
                    p,
                    boxes,
                )))
            },
            BVHNode::Interior { split_axis, left, right, .. } => {
                &&& p.len() >= 2
                &&& !degenerate(p, boxes)
                &&& split_axis == split_dim(p, boxes)
                &&& p.len() <= 4 ==> left.prims(ordered).len() == p.len() / 2
                &&& p.len() > 4 ==> {
                    &&& sah_splits(p, boxes)
                    &&& forall|a: int|
                        0 <= a < left.prims(ordered).len() ==> bucket_of_prim(
                            p,
                            boxes,
                            #[trigger] left.prims(ordered)[a],
                        ) <= sah_best(p, boxes)
                    &&& forall|b: int|
                        0 <= b < right.prims(ordered).len() ==> bucket_of_prim(
                            p,
                            boxes,
                            #[trigger] right.prims(ordered)[b],
                        ) > sah_best(p, boxes)
                }
                &&& left.follows_policy(ordered, boxes)
                &&& right.follows_policy(ordered, boxes)
            },
        }
    }

    /// The leaf ranges of the subtree, left to right, lie end to end and
    /// cover `[lo, hi)` exactly.
    pub open spec fn tiles(self, lo: int, hi: int) -> bool
        decreases self,
    {
        match self {
            BVHNode::Leaf { first_prim_offset, number_primitives, .. } => first_prim_offset == lo
                && first_prim_offset + number_primitives == hi,
            BVHNode::Interior { left, right, .. } => left.tiles(lo, lo + left.prim_count())
                && right.tiles(lo + left.prim_count(), hi),
        }
    }

    /// Number of primitives in the leaves of the subtree.
    pub open spec fn prim_count(self) -> int
        decreases self,
    {
        match self {
            BVHNode::Leaf { number_primitives, .. } => number_primitives as int,
            BVHNode::Interior { left, right, .. } => left.prim_count() + right.prim_count(),
        }
    }

    /// The candidates a traversal reports: the primitives of every leaf that
    /// the ray pierces along with all of its ancestors, the child nearer
    /// along the split axis first.
    pub open spec fn spec_traverse(self, r: Ray, ordered: Seq<usize>) -> Seq<usize>
        decreases self,
    {
        if !self.bounds().spec_intersect(r) {
            Seq::empty()
        } else {
            match self {
                BVHNode::Leaf { first_prim_offset, number_primitives, .. } => ordered.subrange(
                    first_prim_offset as int,
                    first_prim_offset + number_primitives,
                ),
                BVHNode::Interior { split_axis, left, right, .. } => {
                    if r.direction.coord(split_axis as int) < 0 {
                        right.spec_traverse(r, ordered) + left.spec_traverse(r, ordered)
                    } else {
                        left.spec_traverse(r, ordered) + right.spec_traverse(r, ordered)
                    }
                },
            }
        }
    }

    /// Number of nodes of the subtree.
    pub open spec fn size(self) -> nat
        decreases self,
    {
        match self {
            BVHNode::Leaf { .. } => 1,
            BVHNode::Interior { left, right, .. } => 1 + left.size() + right.size(),
        }
    }

    pub fn new_leaf(bounds: BoundingBox, number_primitives: usize, first_prim_offset: usize) -> (r:
        BVHNode)
        ensures
            r == (BVHNode::Leaf { bounds, first_prim_offset, number_primitives }),
    {
        BVHNode::Leaf { bounds, first_prim_offset, number_primitives }
    }

    pub fn new_interior(axis: usize, left_child: Box<BVHNode>, right_child: Box<BVHNode>) -> (r:
        BVHNode)
        ensures
            r == (BVHNode::Interior {
                bounds: left_child.bounds().spec_union(right_child.bounds()),
                split_axis: axis,
                left: left_child,
                right: right_child,
            }),
    {
        let bounds = left_child.get_bounds().union(right_child.get_bounds());
        BVHNode::Interior { bounds, split_axis: axis, left: left_child, right: right_child }
    }

    pub fn get_bounds(&self) -> (r: &BoundingBox)
        ensures
            *r == self.bounds(),
    {
        match self {
            BVHNode::Leaf { bounds, .. } => bounds,
            BVHNode::Interior { bounds, .. } => bounds,
        }
    }
}

/// The axis along which the centroids of the primitives `p` spread most.
pub open spec fn split_dim(p: Seq<usize>, boxes: Seq<BoundingBox>) -> int {
    centroid_box(p, boxes).spec_maximum_extent() as int
}

/// The centroids of the primitives `p` do not spread along `split_dim`.
pub open spec fn degenerate(p: Seq<usize>, boxes: Seq<BoundingBox>) -> bool {
    centroid_box(p, boxes).max.coord(split_dim(p, boxes)) == centroid_box(p, boxes).min.coord(
        split_dim(p, boxes),
    )
}

/// The bucket of primitive `id` among the primitives `p`.
pub open spec fn bucket_of_prim(p: Seq<usize>, boxes: Seq<BoundingBox>, id: usize) -> int {
    let dim = split_dim(p, boxes);
    bucket_of(
        centroid_of(boxes[id as int]).coord(dim) as int,
        centroid_box(p, boxes).min.coord(dim) as int,
        centroid_box(p, boxes).max.coord(dim) as int,
    )
}

pub open spec fn sah_counts(p: Seq<usize>, boxes: Seq<BoundingBox>) -> Seq<usize> {
    let dim = split_dim(p, boxes);
    bucket_counts(
        p,
        boxes,
        dim,
        centroid_box(p, boxes).min.coord(dim) as int,
        centroid_box(p, boxes).max.coord(dim) as int,
    )
}

pub open spec fn sah_bounds(p: Seq<usize>, boxes: Seq<BoundingBox>) -> Seq<BoundingBox> {
    let dim = split_dim(p, boxes);
    bucket_bounds(
        p,
        boxes,
        dim,
        centroid_box(p, boxes).min.coord(dim) as int,
        centroid_box(p, boxes).max.coord(dim) as int,
    )
}

/// The bucket after which the heuristic splits the primitives `p`.
pub open spec fn sah_best(p: Seq<usize>, boxes: Seq<BoundingBox>) -> int {
    best_split(sah_counts(p, boxes), sah_bounds(p, boxes))
}

/// The heuristic splits the primitives `p`: there are more than
/// `MAX_PRIMS_IN_NODE`, or the best split costs less than a leaf,
/// `0.125 + cost / area < n` multiplied through by `8 * area`.
pub open spec fn sah_splits(p: Seq<usize>, boxes: Seq<BoundingBox>) -> bool {
    let area = prim_bounds(p, boxes).spec_surface_area();
    p.len() > MAX_PRIMS_IN_NODE || area + 8 * split_cost(
        sah_counts(p, boxes),
        sah_bounds(p, boxes),
        sah_best(p, boxes),
    ) < 8 * p.len() * area
}

/// The spec functions of the build rules agree on two orders of the same primitives.
proof fn lemma_policy_perm(p: Seq<usize>, q: Seq<usize>, boxes: Seq<BoundingBox>)
    requires
        p.to_multiset() == q.to_multiset(),
    ensures
        centroid_box(p, boxes) == centroid_box(q, boxes),
        prim_bounds(p, boxes) == prim_bounds(q, boxes),
        sah_counts(p, boxes) == sah_counts(q, boxes),
        sah_bounds(p, boxes) == sah_bounds(q, boxes),
        p.len() == q.len(),
{
    vstd::seq_lib::to_multiset_len(p);
    vstd::seq_lib::to_multiset_len(q);
    lemma_union_map_perm(p, q, centroid_fn(boxes));
    lemma_union_map_perm(p, q, box_fn(boxes));
    let dim = split_dim(p, boxes);
    let cmin = centroid_box(p, boxes).min.coord(dim) as int;
    let cmax = centroid_box(p, boxes).max.coord(dim) as int;
    assert forall|b: int| 0 <= b < N_BUCKETS implies count_where(
        p,
        #[trigger] in_bucket_fn(boxes, dim, cmin, cmax, b),
    ) == count_where(q, in_bucket_fn(boxes, dim, cmin, cmax, b)) by {
        lemma_count_where_perm(p, q, in_bucket_fn(boxes, dim, cmin, cmax, b));
    }
    assert forall|b: int| 0 <= b < N_BUCKETS implies union_map(
        p,
        #[trigger] bucket_box_fn(boxes, dim, cmin, cmax, b),
    ) == union_map(q, bucket_box_fn(boxes, dim, cmin, cmax, b)) by {
        lemma_union_map_perm(p, q, bucket_box_fn(boxes, dim, cmin, cmax, b));
    }
    assert(sah_counts(p, boxes) =~= sah_counts(q, boxes));
    assert(sah_bounds(p, boxes) =~= sah_bounds(q, boxes));
}

/// Per-primitive data of the build. `centroid` is twice the centre of the
/// primitive's box, `min + max`, so that it stays on the grid.
#[derive(Clone, Copy, Debug)]
struct PrimitiveInfo {
    id: usize,
    bounding_box: BoundingBox,
    centroid: Point,
}

/// Twice the centre of a box.
pub open spec fn centroid_of(b: BoundingBox) -> Point {
    Point {
        x: (b.min.x + b.max.x) as i64,
        y: (b.min.y + b.max.y) as i64,
        z: (b.min.z + b.max.z) as i64,
    }
}

/// Every coordinate lies within twice `COORD_LIMIT`.
pub open spec fn in_double_limits(p: Point) -> bool {
    -0x8000_0000 <= p.x <= 0x8000_0000 && -0x8000_0000 <= p.y <= 0x8000_0000 && -0x8000_0000
        <= p.z <= 0x8000_0000
}

spec fn info_ok(p: PrimitiveInfo, boxes: Seq<BoundingBox>) -> bool {
    &&& p.id < boxes.len()
    &&& p.bounding_box == boxes[p.id as int]
    &&& p.bounding_box.valid()
    &&& p.centroid == centroid_of(p.bounding_box)
}

spec fn infos_ok(s: Seq<PrimitiveInfo>, boxes: Seq<BoundingBox>) -> bool {
    forall|k: int| 0 <= k < s.len() ==> info_ok(#[trigger] s[k], boxes)
}

spec fn ids(s: Seq<PrimitiveInfo>) -> Seq<usize> {
    s.map_values(|p: PrimitiveInfo| p.id)
}

impl PrimitiveInfo {
    fn new(id: usize, bounding_box: BoundingBox) -> (r: PrimitiveInfo)
        requires
            bounding_box.valid(),
        ensures
            r.id == id,
            r.bounding_box == bounding_box,
            r.centroid == centroid_of(bounding_box),
    {
        let (min, max) = bounding_box.get_min_max();
        PrimitiveInfo {
            id,
            bounding_box,
            centroid: Point::new(min.x + max.x, min.y + max.y, min.z + max.z),
        }
    }
}

/// Union of `f(id)` over the ids of `ids`.
pub open spec fn union_map(ids: Seq<usize>, f: spec_fn(usize) -> BoundingBox) -> BoundingBox
    decreases ids.len(),
{
    if ids.len() == 0 {
        empty_box()
    } else {
        union_map(ids.drop_last(), f).spec_union(f(ids.last()))
    }
}

/// Number of ids of `ids` that satisfy `p`.
pub open spec fn count_where(ids: Seq<usize>, p: spec_fn(usize) -> bool) -> nat
    decreases ids.len(),
{
    if ids.len() == 0 {
        0
    } else {
        count_where(ids.drop_last(), p) + if p(ids.last()) {
            1nat
        } else {
            0nat
        }
    }
}

/// The box of each primitive.
pub open spec fn box_fn(boxes: Seq<BoundingBox>) -> spec_fn(usize) -> BoundingBox {
    |id: usize| boxes[id as int]
}

/// The centroid of each primitive, as a box of one point.
pub open spec fn centroid_fn(boxes: Seq<BoundingBox>) -> spec_fn(usize) -> BoundingBox {
    |id: usize| BoundingBox { min: centroid_of(boxes[id as int]), max: centroid_of(boxes[id as int]) }
}

/// The union of the boxes of the primitives `ids`.
pub open spec fn prim_bounds(ids: Seq<usize>, boxes: Seq<BoundingBox>) -> BoundingBox {
    union_map(ids, box_fn(boxes))
}

/// The box of the centroids of the primitives `ids`.
pub open spec fn centroid_box(ids: Seq<usize>, boxes: Seq<BoundingBox>) -> BoundingBox {
    union_map(ids, centroid_fn(boxes))
}

proof fn lemma_union_map_remove(s: Seq<usize>, f: spec_fn(usize) -> BoundingBox, j: int)
    requires
        0 <= j < s.len(),
    ensures
        union_map(s, f) == union_map(s.remove(j), f).spec_union(f(s[j])),
    decreases s.len(),
{
    if j == s.len() - 1 {
        assert(s.remove(j) =~= s.drop_last());
    } else {
        let t = s.drop_last();
        assert(s.remove(j).drop_last() =~= t.remove(j));
        assert(s.remove(j).last() == s.last());
        lemma_union_map_remove(t, f, j);
    }
}

proof fn lemma_count_where_remove(s: Seq<usize>, p: spec_fn(usize) -> bool, j: int)
    requires
        0 <= j < s.len(),
    ensures
        count_where(s, p) == count_where(s.remove(j), p) + if p(s[j]) {
            1nat
        } else {
            0nat
        },
    decreases s.len(),
{
    if j == s.len() - 1 {
        assert(s.remove(j) =~= s.drop_last());
    } else {
        let t = s.drop_last();
        assert(s.remove(j).drop_last() =~= t.remove(j));
        assert(s.remove(j).last() == s.last());
        lemma_count_where_remove(t, p, j);
    }
}

/// A sequence with the multiset of ids of `s1` and `s2` less the last of `s1`.
proof fn lemma_perm_drop_last(s1: Seq<usize>, s2: Seq<usize>) -> (j: int)
    requires
        s1.to_multiset() == s2.to_multiset(),
        s1.len() > 0,
    ensures
        0 <= j < s2.len(),
        s2[j] == s1.last(),
        s1.drop_last().to_multiset() == s2.remove(j).to_multiset(),
{
    let x = s1.last();
    vstd::seq_lib::to_multiset_contains(s1, x);
    vstd::seq_lib::to_multiset_contains(s2, x);
    let j = choose|j: int| 0 <= j < s2.len() && s2[j] == x;
    vstd::seq_lib::to_multiset_remove(s1, s1.len() - 1);
    vstd::seq_lib::to_multiset_remove(s2, j);
    assert(s1.remove(s1.len() - 1) =~= s1.drop_last());
    j
}

/// `union_map` does not depend on the order of the ids.
pub proof fn lemma_union_map_perm(s1: Seq<usize>, s2: Seq<usize>, f: spec_fn(usize) -> BoundingBox)
    requires
        s1.to_multiset() == s2.to_multiset(),
    ensures
        union_map(s1, f) == union_map(s2, f),
    decreases s1.len(),
{
    vstd::seq_lib::to_multiset_len(s1);
    vstd::seq_lib::to_multiset_len(s2);
    if s1.len() > 0 {
        let j = lemma_perm_drop_last(s1, s2);
        lemma_union_map_perm(s1.drop_last(), s2.remove(j), f);
        lemma_union_map_remove(s2, f, j);
    }
}

/// `count_where` does not depend on the order of the ids.
pub proof fn lemma_count_where_perm(s1: Seq<usize>, s2: Seq<usize>, p: spec_fn(usize) -> bool)
    requires
        s1.to_multiset() == s2.to_multiset(),
    ensures
        count_where(s1, p) == count_where(s2, p),
    decreases s1.len(),
{
    vstd::seq_lib::to_multiset_len(s1);
    vstd::seq_lib::to_multiset_len(s2);
    if s1.len() > 0 {
        let j = lemma_perm_drop_last(s1, s2);
        lemma_count_where_perm(s1.drop_last(), s2.remove(j), p);
        lemma_count_where_remove(s2, p, j);
    }
}

proof fn lemma_coord_min_max(a: Point, b: Point, axis: int)
    ensures
        a.spec_min(b).coord(axis) == crate::helpers::min_i64(a.coord(axis), b.coord(axis)),
        a.spec_max(b).coord(axis) == crate::helpers::max_i64(a.coord(axis), b.coord(axis)),
{
}

/// The lower bound of a union along an axis is that of one of its terms.
proof fn lemma_union_map_min_attained(s: Seq<usize>, f: spec_fn(usize) -> BoundingBox, axis: int)
    -> (k: int)
    requires
        s.len() > 0,
    ensures
        0 <= k < s.len(),
        f(s[k]).min.coord(axis) == union_map(s, f).min.coord(axis),
    decreases s.len(),
{
    if s.len() == 1 {
        assert(s.drop_last() =~= Seq::<usize>::empty());
        assert(union_map(s.drop_last(), f) == empty_box());
        lemma_coord_min_max(empty_box().min, f(s[0]).min, axis);
        lemma_coord_min_max(empty_box().max, f(s[0]).max, axis);
        0
    } else {
        let k = lemma_union_map_min_attained(s.drop_last(), f, axis);
        assert(s.drop_last()[k] == s[k]);
        let u = union_map(s.drop_last(), f);
        let x = f(s.last());
        assert(union_map(s, f) == u.spec_union(x));
        lemma_coord_min_max(u.min, x.min, axis);
        if f(s.last()).min.coord(axis) <= union_map(s.drop_last(), f).min.coord(axis) {
            s.len() - 1
        } else {
            k
        }
    }
}

/// The upper bound of a union along an axis is that of one of its terms.
proof fn lemma_union_map_max_attained(s: Seq<usize>, f: spec_fn(usize) -> BoundingBox, axis: int)
    -> (k: int)
    requires
        s.len() > 0,
    ensures
        0 <= k < s.len(),
        f(s[k]).max.coord(axis) == union_map(s, f).max.coord(axis),
    decreases s.len(),
{
    if s.len() == 1 {
        assert(s.drop_last() =~= Seq::<usize>::empty());
        assert(union_map(s.drop_last(), f) == empty_box());
        lemma_coord_min_max(empty_box().min, f(s[0]).min, axis);
        lemma_coord_min_max(empty_box().max, f(s[0]).max, axis);
        0
    } else {
        let k = lemma_union_map_max_attained(s.drop_last(), f, axis);
        assert(s.drop_last()[k] == s[k]);
        let u = union_map(s.drop_last(), f);
        let x = f(s.last());
        assert(union_map(s, f) == u.spec_union(x));
        lemma_coord_min_max(u.max, x.max, axis);
        if f(s.last()).max.coord(axis) >= union_map(s.drop_last(), f).max.coord(axis) {
            s.len() - 1
        } else {
            k
        }
    }
}

/// The union of the boxes of the primitives.
fn union_of_boxes(infos: &Vec<PrimitiveInfo>, Ghost(boxes): Ghost<Seq<BoundingBox>>) -> (r:
    BoundingBox)
    requires
        infos@.len() >= 1,
        infos_ok(infos@, boxes),
    ensures
        r.valid(),
        forall|k: int| 0 <= k < infos@.len() ==> r.contains(#[trigger] infos@[k].bounding_box),
        r == prim_bounds(ids(infos@), boxes),
{
    let mut acc = BoundingBox::default();
    let mut i: usize = 0;
    assert(ids(infos@.take(0)) =~= Seq::<usize>::empty());
    while i < infos.len()
        invariant
            0 <= i <= infos@.len(),
            infos_ok(infos@, boxes),
            acc == prim_bounds(ids(infos@.take(i as int)), boxes),
            i == 0 ==> acc == empty_box(),
            i > 0 ==> acc.valid(),
            forall|k: int| 0 <= k < i ==> acc.contains(#[trigger] infos@[k].bounding_box),
        decreases infos@.len() - i,
    {
        assert(info_ok(infos@[i as int], boxes));
        assert(ids(infos@.take(i + 1)).drop_last() =~= ids(infos@.take(i as int)));
        acc = acc.union(&infos[i].bounding_box);
        i = i + 1;
    }
    assert(infos@.take(infos@.len() as int) =~= infos@);
    acc
}

/// The box of the primitives' centroids.
fn centroid_bounds(infos: &Vec<PrimitiveInfo>, Ghost(boxes): Ghost<Seq<BoundingBox>>) -> (r:
    BoundingBox)
    requires
        infos@.len() >= 1,
        infos_ok(infos@, boxes),
    ensures
        in_double_limits(r.min),
        in_double_limits(r.max),
        forall|k: int|
            0 <= k < infos@.len() ==> r.min.le(#[trigger] infos@[k].centroid) && infos@[k].centroid.le(
                r.max,
            ),
        r == centroid_box(ids(infos@), boxes),
{
    let mut acc = BoundingBox::default();
    let mut i: usize = 0;
    assert(ids(infos@.take(0)) =~= Seq::<usize>::empty());
    while i < infos.len()
        invariant
            0 <= i <= infos@.len(),
            infos_ok(infos@, boxes),
            acc == centroid_box(ids(infos@.take(i as int)), boxes),
            i == 0 ==> acc == empty_box(),
            i > 0 ==> in_double_limits(acc.min) && in_double_limits(acc.max),
            forall|k: int|
                0 <= k < i ==> acc.min.le(#[trigger] infos@[k].centroid) && infos@[k].centroid.le(
                    acc.max,
                ),
        decreases infos@.len() - i,
    {
        assert(info_ok(infos@[i as int], boxes));
        assert(ids(infos@.take(i + 1)).drop_last() =~= ids(infos@.take(i as int)));
        acc = acc.union_with_point(&infos[i].centroid);
        i = i + 1;
    }
    assert(infos@.take(infos@.len() as int) =~= infos@);
    acc
}

/// The bucket of a centroid coordinate `c` in `[cmin, cmax]`: its offset in
/// that interval scaled to `N_BUCKETS` and rounded down, the top end going
/// to the last bucket.
pub open spec fn bucket_of(c: int, cmin: int, cmax: int) -> int {
    let b = (N_BUCKETS as int * (c - cmin)) / (cmax - cmin);
    if b >= N_BUCKETS as int {
        N_BUCKETS as int - 1
    } else {
        b
    }
}

/// Whether the centroid of a primitive falls in bucket `b` along `dim`.
pub open spec fn in_bucket_fn(boxes: Seq<BoundingBox>, dim: int, cmin: int, cmax: int, b: int) -> spec_fn(
    usize,
) -> bool {
    |id: usize| bucket_of(centroid_of(boxes[id as int]).coord(dim) as int, cmin, cmax) == b
}

/// The box of a primitive whose centroid falls in bucket `b`, else the empty box.
pub open spec fn bucket_box_fn(boxes: Seq<BoundingBox>, dim: int, cmin: int, cmax: int, b: int) -> spec_fn(
    usize,
) -> BoundingBox {
    |id: usize|
        if bucket_of(centroid_of(boxes[id as int]).coord(dim) as int, cmin, cmax) == b {
            boxes[id as int]
        } else {
            empty_box()
        }
}

/// How many of the primitives `ids` fall in each bucket.
pub open spec fn bucket_counts(
    ids: Seq<usize>,
    boxes: Seq<BoundingBox>,
    dim: int,
    cmin: int,
    cmax: int,
) -> Seq<usize> {
    Seq::new(
        N_BUCKETS as nat,
        |b: int| count_where(ids, in_bucket_fn(boxes, dim, cmin, cmax, b)) as usize,
    )
}

/// The union of the boxes of the primitives `ids` in each bucket.
pub open spec fn bucket_bounds(
    ids: Seq<usize>,
    boxes: Seq<BoundingBox>,
    dim: int,
    cmin: int,
    cmax: int,
) -> Seq<BoundingBox> {
    Seq::new(N_BUCKETS as nat, |b: int| union_map(ids, bucket_box_fn(boxes, dim, cmin, cmax, b)))
}

fn bucket_index(c: i64, cmin: i64, cmax: i64) -> (r: usize)
    requires
        cmin < cmax,
        cmin <= c <= cmax,
        -0x8000_0000 <= cmin,
        cmax <= 0x8000_0000,
    ensures
        r == bucket_of(c as int, cmin as int, cmax as int),
        r < N_BUCKETS,
{
    let num: u128 = 12 * ((c - cmin) as u128);
    let den: u128 = (cmax - cmin) as u128;
    let b = num / den;
    if b >= 12 {
        11
    } else {
        b as usize
    }
}

/// Buckets follow the order of the coordinates.
proof fn lemma_bucket_monotone(c1: int, c2: int, cmin: int, cmax: int)
    requires
        cmin < cmax,
        cmin <= c1 <= c2,
    ensures
        bucket_of(c1, cmin, cmax) <= bucket_of(c2, cmin, cmax),
{
    assert(N_BUCKETS as int * (c1 - cmin) <= N_BUCKETS as int * (c2 - cmin));
    vstd::arithmetic::div_mod::lemma_div_is_ordered(
        N_BUCKETS as int * (c1 - cmin),
        N_BUCKETS as int * (c2 - cmin),
        cmax - cmin,
    );
}

/// Sum of the bucket counts `cs[lo..hi]`.
pub open spec fn count_range(cs: Seq<usize>, lo: int, hi: int) -> int
    decreases hi - lo,
{
    if hi <= lo {
        0
    } else {
        count_range(cs, lo, hi - 1) + cs[hi - 1]
    }
}

/// Union of the bucket boxes `bs[lo..hi]`.
pub open spec fn union_range(bs: Seq<BoundingBox>, lo: int, hi: int) -> BoundingBox
    decreases hi - lo,
{
    if hi <= lo {
        empty_box()
    } else {
        union_range(bs, lo, hi - 1).spec_union(bs[hi - 1])
    }
}

/// Cost of splitting after bucket `k`, scaled by the surface area of the
/// node: count times surface area on each side.
pub open spec fn split_cost(cs: Seq<usize>, bs: Seq<BoundingBox>, k: int) -> int {
    count_range(cs, 0, k + 1) * union_range(bs, 0, k + 1).spec_surface_area() + count_range(
        cs,
        k + 1,
        N_BUCKETS as int,
    ) * union_range(bs, k + 1, N_BUCKETS as int).spec_surface_area()
}

/// The first split of least cost among the splits after buckets `0 .. m`.
pub open spec fn best_upto(cs: Seq<usize>, bs: Seq<BoundingBox>, m: int) -> int
    decreases m,
{
    if m <= 1 {
        0
    } else {
        let b = best_upto(cs, bs, m - 1);
        if split_cost(cs, bs, m - 1) < split_cost(cs, bs, b) {
            m - 1
        } else {
            b
        }
    }
}

/// The split that the surface-area heuristic chooses.
pub open spec fn best_split(cs: Seq<usize>, bs: Seq<BoundingBox>) -> int {
    best_upto(cs, bs, N_BUCKETS - 2)
}

/// The surface area of a bounded box is below 2^65.
proof fn lemma_surface_area_bound(b: BoundingBox)
    requires
        b.bounded(),
    ensures
        0 <= b.spec_surface_area() <= 0x6_0000_0000_0000_0000,
{
    if !b.is_empty() {
        let e0 = b.extent(0);
        let e1 = b.extent(1);
        let e2 = b.extent(2);
        assert(e0 * e1 <= 0x4000_0000_0000_0000 && e0 * e2 <= 0x4000_0000_0000_0000 && e1 * e2
            <= 0x4000_0000_0000_0000 && 0 <= e0 * e1 && 0 <= e0 * e2 && 0 <= e1 * e2)
            by (nonlinear_arith)
            requires
                0 <= e0 <= 0x8000_0000,
                0 <= e1 <= 0x8000_0000,
                0 <= e2 <= 0x8000_0000,
        ;
    }
}

fn sum_counts(cs: &Vec<usize>, lo: usize, hi: usize) -> (r: u128)
    requires
        lo <= hi <= cs@.len(),
        forall|i: int| 0 <= i < cs@.len() ==> #[trigger] cs@[i] <= MAX_PRIMITIVES,
    ensures
        r == count_range(cs@, lo as int, hi as int),
        r <= (hi - lo) * MAX_PRIMITIVES,
{
    let mut acc: u128 = 0;
    let mut j = lo;
    while j < hi
        invariant
            lo <= j <= hi <= cs@.len(),
            forall|i: int| 0 <= i < cs@.len() ==> #[trigger] cs@[i] <= MAX_PRIMITIVES,
            acc == count_range(cs@, lo as int, j as int),
            acc <= (j - lo) * MAX_PRIMITIVES,
        decreases hi - j,
    {
        assert(cs@[j as int] <= MAX_PRIMITIVES);
        acc = acc + cs[j] as u128;
        j = j + 1;
    }
    acc
}

fn union_buckets(bs: &Vec<BoundingBox>, lo: usize, hi: usize) -> (r: BoundingBox)
    requires
        lo <= hi <= bs@.len(),
        forall|i: int| 0 <= i < bs@.len() ==> (#[trigger] bs@[i]).bounded(),
    ensures
        r == union_range(bs@, lo as int, hi as int),
        r.bounded(),
{
    let mut acc = BoundingBox::default();
    let mut j = lo;
    while j < hi
        invariant
            lo <= j <= hi <= bs@.len(),
            forall|i: int| 0 <= i < bs@.len() ==> (#[trigger] bs@[i]).bounded(),
            acc == union_range(bs@, lo as int, j as int),
            acc.bounded(),
        decreases hi - j,
    {
        proof {
            crate::bounding_box::lemma_union_bounded(acc, bs@[j as int]);
        }
        acc = acc.union(&bs[j]);
        j = j + 1;
    }
    acc
}

fn split_cost_of(cs: &Vec<usize>, bs: &Vec<BoundingBox>, k: usize) -> (r: u128)
    requires
        k < N_BUCKETS - 1,
        cs@.len() == N_BUCKETS,
        bs@.len() == N_BUCKETS,
        forall|i: int| 0 <= i < cs@.len() ==> #[trigger] cs@[i] <= MAX_PRIMITIVES,
        forall|i: int| 0 <= i < bs@.len() ==> (#[trigger] bs@[i]).bounded(),
    ensures
        r == split_cost(cs@, bs@, k as int),
        r <= 0x80_0000_0000_0000_0000_0000_0000,
{
    let n0 = sum_counts(cs, 0, k + 1);
    let n1 = sum_counts(cs, k + 1, N_BUCKETS);
    let b0 = union_buckets(bs, 0, k + 1);
    let b1 = union_buckets(bs, k + 1, N_BUCKETS);
    let a0 = b0.surface_area();
    let a1 = b1.surface_area();
    proof {
        lemma_surface_area_bound(b0);
        lemma_surface_area_bound(b1);
        assert(n0 * a0 <= 0x40_0000_0000_0000_0000_0000_0000 && n1 * a1
            <= 0x40_0000_0000_0000_0000_0000_0000) by (nonlinear_arith)
            requires
                0 <= n0,
                0 <= n1,
                0 <= a0,
                0 <= a1,
                n0 <= 12 * 0x8000_0000,
                n1 <= 12 * 0x8000_0000,
                a0 <= 0x6_0000_0000_0000_0000,
                a1 <= 0x6_0000_0000_0000_0000,
        ;
    }
    n0 * a0 + n1 * a1
}

/// The split of least cost among the splits after buckets `0 .. N_BUCKETS - 2`,
/// the first one on a tie, with its cost.
fn choose_split(cs: &Vec<usize>, bs: &Vec<BoundingBox>) -> (r: (usize, u128))
    requires
        cs@.len() == N_BUCKETS,
        bs@.len() == N_BUCKETS,
        forall|i: int| 0 <= i < cs@.len() ==> #[trigger] cs@[i] <= MAX_PRIMITIVES,
        forall|i: int| 0 <= i < bs@.len() ==> (#[trigger] bs@[i]).bounded(),
    ensures
        r.0 < N_BUCKETS - 2,
        r.0 == best_split(cs@, bs@),
        r.1 == split_cost(cs@, bs@, r.0 as int),
        r.1 <= 0x80_0000_0000_0000_0000_0000_0000,
        forall|k: int| 0 <= k < N_BUCKETS - 2 ==> r.1 <= #[trigger] split_cost(cs@, bs@, k),
        forall|k: int| 0 <= k < r.0 ==> r.1 < #[trigger] split_cost(cs@, bs@, k),
{
    let mut best_k: usize = 0;
    let mut best = split_cost_of(cs, bs, 0);
    let mut k: usize = 1;
    while k < N_BUCKETS - 2
        invariant
            1 <= k <= N_BUCKETS - 2,
            best_k < k,
            cs@.len() == N_BUCKETS,
            bs@.len() == N_BUCKETS,
            forall|i: int| 0 <= i < cs@.len() ==> #[trigger] cs@[i] <= MAX_PRIMITIVES,
            forall|i: int| 0 <= i < bs@.len() ==> (#[trigger] bs@[i]).bounded(),
            best == split_cost(cs@, bs@, best_k as int),
            best_k == best_upto(cs@, bs@, k as int),
            best <= 0x80_0000_0000_0000_0000_0000_0000,
            forall|j: int| 0 <= j < k ==> best <= #[trigger] split_cost(cs@, bs@, j),
            forall|j: int| 0 <= j < best_k ==> best < #[trigger] split_cost(cs@, bs@, j),
        decreases N_BUCKETS - 2 - k,
    {
        let c = split_cost_of(cs, bs, k);
        if c < best {
            best = c;
            best_k = k;
        }
        k = k + 1;
    }
    (best_k, best)
}

/// No centroid of `l` lies beyond a centroid of `r` along `dim`.
spec fn split_along(l: Seq<PrimitiveInfo>, r: Seq<PrimitiveInfo>, dim: int) -> bool {
    forall|a: int, b: int|
        0 <= a < l.len() && 0 <= b < r.len() ==> (#[trigger] l[a]).centroid.coord(dim) <= (
        #[trigger] r[b]).centroid.coord(dim)
}

/// Stable insertion sort of the primitives by centroid along `dim`.
fn sort_by_axis(infos: Vec<PrimitiveInfo>, dim: usize, Ghost(boxes): Ghost<Seq<BoundingBox>>) -> (r:
    Vec<PrimitiveInfo>)
    requires
        dim < 3,
        infos_ok(infos@, boxes),
    ensures
        r@.len() == infos@.len(),
        infos_ok(r@, boxes),
        ids(r@).to_multiset() == ids(infos@).to_multiset(),
        forall|a: int, b: int|
            0 <= a < b < r@.len() ==> (#[trigger] r@[a]).centroid.coord(dim as int) <= (
            #[trigger] r@[b]).centroid.coord(dim as int),
{
    let mut out: Vec<PrimitiveInfo> = Vec::new();
    let mut i: usize = 0;
    assert(ids(out@) =~= ids(infos@.take(0)));
    while i < infos.len()
        invariant
            0 <= i <= infos@.len(),
            dim < 3,
            out@.len() == i,
            infos_ok(infos@, boxes),
            infos_ok(out@, boxes),
            ids(out@).to_multiset() == ids(infos@.take(i as int)).to_multiset(),
            forall|a: int, b: int|
                0 <= a < b < out@.len() ==> (#[trigger] out@[a]).centroid.coord(dim as int) <= (
                #[trigger] out@[b]).centroid.coord(dim as int),
        decreases infos@.len() - i,
    {
        let x = infos[i];
        let key = x.centroid.get(dim);
        let mut p: usize = 0;
        while p < out.len() && out[p].centroid.get(dim) <= key
            invariant
                0 <= p <= out@.len(),
                dim < 3,
                forall|q: int| 0 <= q < p ==> (#[trigger] out@[q]).centroid.coord(dim as int) <= key,
            decreases out@.len() - p,
        {
            p = p + 1;
        }
        let ghost before = out@;
        out.insert(p, x);
        proof {
            assert(ids(out@) =~= ids(before).insert(p as int, x.id));
            vstd::seq_lib::to_multiset_insert(ids(before), p as int, x.id);
            assert(ids(infos@.take(i + 1)) =~= ids(infos@.take(i as int)).push(x.id));
            vstd::seq_lib::to_multiset_build(ids(infos@.take(i as int)), x.id);
            assert(info_ok(infos@[i as int], boxes));
            assert forall|k: int| 0 <= k < out@.len() implies info_ok(#[trigger] out@[k], boxes) by {
                if k < p {
                    assert(out@[k] == before[k]);
                } else if k > p {
                    assert(out@[k] == before[k - 1]);
                }
            }
            assert forall|a: int, b: int| 0 <= a < b < out@.len() implies (#[trigger] out@[a]).centroid.coord(
                dim as int,
            ) <= (#[trigger] out@[b]).centroid.coord(dim as int) by {
                if p < before.len() {
                    assert(before[p as int].centroid.coord(dim as int) > key);
                }
                if a < p && b == p {
                } else if a < p && b > p {
                    assert(out@[b] == before[b - 1]);
                } else if a == p && b > p {
                    assert(out@[b] == before[b - 1]);
                    assert(before[p as int].centroid.coord(dim as int) <= before[b
                        - 1].centroid.coord(dim as int));
                } else if a > p {
                    assert(out@[a] == before[a - 1]);
                    assert(out@[b] == before[b - 1]);
                }
            }
        }
        i = i + 1;
    }
    assert(infos@.take(infos@.len() as int) =~= infos@);
    out
}

/// Splits the primitives at the median centroid along `dim`: the lower
/// half (rounded down) goes left.
fn split_median(infos: Vec<PrimitiveInfo>, dim: usize, Ghost(boxes): Ghost<Seq<BoundingBox>>) -> (r:
    (Vec<PrimitiveInfo>, Vec<PrimitiveInfo>))
    requires
        dim < 3,
        infos@.len() >= 2,
        infos_ok(infos@, boxes),
    ensures
        r.0@.len() == infos@.len() / 2,
        r.1@.len() == infos@.len() - infos@.len() / 2,
        infos_ok(r.0@, boxes),
        infos_ok(r.1@, boxes),
        (ids(r.0@) + ids(r.1@)).to_multiset() == ids(infos@).to_multiset(),
        split_along(r.0@, r.1@, dim as int),
{
    let n = infos.len();
    let mut sorted = sort_by_axis(infos, dim, Ghost(boxes));
    let ghost whole = sorted@;
    let right = sorted.split_off(n / 2);
    proof {
        assert(ids(whole) =~= ids(sorted@) + ids(right@));
        assert forall|k: int| 0 <= k < sorted@.len() implies info_ok(#[trigger] sorted@[k], boxes) by {
            assert(sorted@[k] == whole[k]);
        }
        assert forall|k: int| 0 <= k < right@.len() implies info_ok(#[trigger] right@[k], boxes) by {
            assert(right@[k] == whole[k + n / 2]);
        }
        assert forall|a: int, b: int| 0 <= a < sorted@.len() && 0 <= b < right@.len() implies (
        #[trigger] sorted@[a]).centroid.coord(dim as int) <= (#[trigger] right@[b]).centroid.coord(
            dim as int,
        ) by {
            assert(sorted@[a] == whole[a]);
            assert(right@[b] == whole[b + n / 2]);
        }
    }
    (sorted, right)
}

/// Splits the primitives by bucket: those whose centroid falls in a bucket
/// up to `split` go left.
fn partition_by_bucket(
    infos: Vec<PrimitiveInfo>,
    dim: usize,
    cmin: i64,
    cmax: i64,
    split: usize,
    Ghost(boxes): Ghost<Seq<BoundingBox>>,
) -> (r: (Vec<PrimitiveInfo>, Vec<PrimitiveInfo>))
    requires
        dim < 3,
        cmin < cmax,
        -0x8000_0000 <= cmin,
        cmax <= 0x8000_0000,
        infos_ok(infos@, boxes),
        forall|k: int|
            0 <= k < infos@.len() ==> cmin <= (#[trigger] infos@[k]).centroid.coord(dim as int)
                <= cmax,
    ensures
        r.0@.len() + r.1@.len() == infos@.len(),
        infos_ok(r.0@, boxes),
        infos_ok(r.1@, boxes),
        (ids(r.0@) + ids(r.1@)).to_multiset() == ids(infos@).to_multiset(),
        split_along(r.0@, r.1@, dim as int),
        forall|k: int|
            0 <= k < r.0@.len() ==> bucket_of(
                (#[trigger] r.0@[k]).centroid.coord(dim as int) as int,
                cmin as int,
                cmax as int,
            ) <= split,
        forall|k: int|
            0 <= k < r.1@.len() ==> bucket_of(
                (#[trigger] r.1@[k]).centroid.coord(dim as int) as int,
                cmin as int,
                cmax as int,
            ) > split,
{
    let mut left: Vec<PrimitiveInfo> = Vec::new();
    let mut right: Vec<PrimitiveInfo> = Vec::new();
    let mut i: usize = 0;
    proof {
        assert(ids(left@) =~= ids(infos@.take(0)));
        vstd::seq_lib::to_multiset_len(ids(right@));
        vstd::multiset::lemma_multiset_empty_len(ids(right@).to_multiset());
        assert(ids(left@).to_multiset().add(ids(right@).to_multiset()) =~= ids(
            infos@.take(0),
        ).to_multiset());
    }
    while i < infos.len()
        invariant
            0 <= i <= infos@.len(),
            dim < 3,
            cmin < cmax,
            -0x8000_0000 <= cmin,
            cmax <= 0x8000_0000,
            infos_ok(infos@, boxes),
            forall|k: int|
                0 <= k < infos@.len() ==> cmin <= (#[trigger] infos@[k]).centroid.coord(dim as int)
                    <= cmax,
            left@.len() + right@.len() == i,
            infos_ok(left@, boxes),
            infos_ok(right@, boxes),
            ids(left@).to_multiset().add(ids(right@).to_multiset()) == ids(
                infos@.take(i as int),
            ).to_multiset(),
            forall|k: int|
                0 <= k < left@.len() ==> cmin <= (#[trigger] left@[k]).centroid.coord(dim as int)
                    <= cmax && bucket_of(left@[k].centroid.coord(dim as int) as int, cmin as int, cmax as int)
                    <= split,
            forall|k: int|
                0 <= k < right@.len() ==> cmin <= (#[trigger] right@[k]).centroid.coord(dim as int)
                    <= cmax && bucket_of(right@[k].centroid.coord(dim as int) as int, cmin as int, cmax as int)
                    > split,
        decreases infos@.len() - i,
    {
        let x = infos[i];
        assert(info_ok(infos@[i as int], boxes));
        assert(cmin <= infos@[i as int].centroid.coord(dim as int) <= cmax);
        let b = bucket_index(x.centroid.get(dim), cmin, cmax);
        proof {
            assert(ids(infos@.take(i + 1)) =~= ids(infos@.take(i as int)).push(x.id));
            vstd::seq_lib::to_multiset_build(ids(infos@.take(i as int)), x.id);
        }
        if b <= split {
            let ghost before = left@;
            left.push(x);
            proof {
                assert(ids(left@) =~= ids(before).push(x.id));
                vstd::seq_lib::to_multiset_build(ids(before), x.id);
                assert(ids(left@).to_multiset().add(ids(right@).to_multiset()) =~= ids(
                    infos@.take(i + 1),
                ).to_multiset());
            }
        } else {
            let ghost before = right@;
            right.push(x);
            proof {
                assert(ids(right@) =~= ids(before).push(x.id));
                vstd::seq_lib::to_multiset_build(ids(before), x.id);
                assert(ids(left@).to_multiset().add(ids(right@).to_multiset()) =~= ids(
                    infos@.take(i + 1),
                ).to_multiset());
            }
        }
        i = i + 1;
    }
    proof {
        assert(infos@.take(infos@.len() as int) =~= infos@);
        vstd::seq_lib::lemma_multiset_commutative(ids(left@), ids(right@));
        assert forall|a: int, b: int| 0 <= a < left@.len() && 0 <= b < right@.len() implies (
        #[trigger] left@[a]).centroid.coord(dim as int) <= (#[trigger] right@[b]).centroid.coord(
            dim as int,
        ) by {
            let ca = left@[a].centroid.coord(dim as int) as int;
            let cb = right@[b].centroid.coord(dim as int) as int;
            if ca > cb {
                lemma_bucket_monotone(cb, ca, cmin as int, cmax as int);
            }
        }
    }
    (left, right)
}

/// Counts and boxes of the primitives in each bucket along `dim`.
fn fill_buckets(
    infos: &Vec<PrimitiveInfo>,
    dim: usize,
    cmin: i64,
    cmax: i64,
    Ghost(boxes): Ghost<Seq<BoundingBox>>,
) -> (r: (Vec<usize>, Vec<BoundingBox>))
    requires
        dim < 3,
        cmin < cmax,
        -0x8000_0000 <= cmin,
        cmax <= 0x8000_0000,
        infos@.len() <= MAX_PRIMITIVES,
        infos_ok(infos@, boxes),
        forall|k: int|
            0 <= k < infos@.len() ==> cmin <= (#[trigger] infos@[k]).centroid.coord(dim as int)
                <= cmax,
    ensures
        r.0@.len() == N_BUCKETS,
        r.1@.len() == N_BUCKETS,
        forall|b: int| 0 <= b < N_BUCKETS ==> #[trigger] r.0@[b] <= MAX_PRIMITIVES,
        forall|b: int| 0 <= b < N_BUCKETS ==> (#[trigger] r.1@[b]).bounded(),
        r.0@ == bucket_counts(ids(infos@), boxes, dim as int, cmin as int, cmax as int),
        r.1@ == bucket_bounds(ids(infos@), boxes, dim as int, cmin as int, cmax as int),
{
    let mut counts: Vec<usize> = Vec::new();
    let mut bounds: Vec<BoundingBox> = Vec::new();
    let mut b: usize = 0;
    while b < N_BUCKETS
        invariant
            0 <= b <= N_BUCKETS,
            counts@.len() == b,
            bounds@.len() == b,
            forall|j: int| 0 <= j < b ==> #[trigger] counts@[j] == 0,
            forall|j: int| 0 <= j < b ==> #[trigger] bounds@[j] == empty_box(),
        decreases N_BUCKETS - b,
    {
        counts.push(0);
        bounds.push(BoundingBox::default());
        b = b + 1;
    }
    let mut i: usize = 0;
    assert(ids(infos@.take(0)) =~= Seq::<usize>::empty());
    while i < infos.len()
        invariant
            0 <= i <= infos@.len() <= MAX_PRIMITIVES,
            dim < 3,
            cmin < cmax,
            -0x8000_0000 <= cmin,
            cmax <= 0x8000_0000,
            infos_ok(infos@, boxes),
            forall|k: int|
                0 <= k < infos@.len() ==> cmin <= (#[trigger] infos@[k]).centroid.coord(dim as int)
                    <= cmax,
            counts@.len() == N_BUCKETS,
            bounds@.len() == N_BUCKETS,
            forall|j: int| 0 <= j < N_BUCKETS ==> #[trigger] counts@[j] <= i,
            forall|j: int| 0 <= j < N_BUCKETS ==> (#[trigger] bounds@[j]).bounded(),
            forall|j: int|
                0 <= j < N_BUCKETS ==> #[trigger] counts@[j] == count_where(
                    ids(infos@.take(i as int)),
                    in_bucket_fn(boxes, dim as int, cmin as int, cmax as int, j),
                ),
            forall|j: int|
                0 <= j < N_BUCKETS ==> #[trigger] bounds@[j] == union_map(
                    ids(infos@.take(i as int)),
                    bucket_box_fn(boxes, dim as int, cmin as int, cmax as int, j),
                ),
        decreases infos@.len() - i,
    {
        let x = infos[i];
        assert(info_ok(infos@[i as int], boxes));
        assert(cmin <= infos@[i as int].centroid.coord(dim as int) <= cmax);
        let k = bucket_index(x.centroid.get(dim), cmin, cmax);
        let ghost prev = ids(infos@.take(i as int));
        proof {
            assert(ids(infos@.take(i + 1)).drop_last() =~= prev);
            assert(ids(infos@.take(i + 1)).last() == x.id);
        }
        let c = counts[k];
        counts.set(k, c + 1);
        let nb = bounds[k].union(&x.bounding_box);
        proof {
            crate::bounding_box::lemma_union_bounded(bounds@[k as int], x.bounding_box);
        }
        bounds.set(k, nb);
        i = i + 1;
    }
    proof {
        assert(infos@.take(infos@.len() as int) =~= infos@);
        assert(counts@ =~= bucket_counts(ids(infos@), boxes, dim as int, cmin as int, cmax as int));
        assert(bounds@ =~= bucket_bounds(ids(infos@), boxes, dim as int, cmin as int, cmax as int));
    }
    (counts, bounds)
}

/// Appends the ids of the primitives to `ordered_prims` in their current
/// order and makes a leaf over them.
fn emit_leaf(
    infos: &Vec<PrimitiveInfo>,
    ordered: &mut Vec<usize>,
    bounds: BoundingBox,
    Ghost(boxes): Ghost<Seq<BoundingBox>>,
) -> (node: BVHNode)
    requires
        infos@.len() >= 1,
        infos_ok(infos@, boxes),
        bounds == prim_bounds(ids(infos@), boxes),
        forall|k: int| 0 <= k < infos@.len() ==> bounds.contains(#[trigger] infos@[k].bounding_box),
        old(ordered)@.len() + infos@.len() <= MAX_PRIMITIVES,
        infos@.len() == 1 || degenerate(ids(infos@), boxes) || (infos@.len() > 4 && !sah_splits(
            ids(infos@),
            boxes,
        )),
    ensures
        final(ordered)@ == old(ordered)@ + ids(infos@),
        node == (BVHNode::Leaf {
            bounds,
            first_prim_offset: old(ordered)@.len() as usize,
            number_primitives: infos@.len() as usize,
        }),
        node.prims(final(ordered)@) == ids(infos@),
        node.well_formed(final(ordered)@, boxes),
        node.separated(final(ordered)@, boxes),
        node.follows_policy(final(ordered)@, boxes),
{
    let first = ordered.len();
    let mut i: usize = 0;
    while i < infos.len()
        invariant
            0 <= i <= infos@.len(),
            first == old(ordered)@.len(),
            first + infos@.len() <= MAX_PRIMITIVES,
            ordered@ == old(ordered)@ + ids(infos@.take(i as int)),
        decreases infos@.len() - i,
    {
        ordered.push(infos[i].id);
        assert(ids(infos@.take(i + 1)) =~= ids(infos@.take(i as int)).push(infos@[i as int].id));
        i = i + 1;
    }
    proof {
        assert(infos@.take(infos@.len() as int) =~= infos@);
        assert(ordered@.subrange(first as int, ordered@.len() as int) =~= ids(infos@));
        assert forall|j: int| first <= j < first + infos@.len() implies #[trigger] ordered@[j]
            < boxes.len() && bounds.contains(boxes[ordered@[j] as int]) by {
            assert(ordered@[j] == infos@[j - first].id);
            assert(info_ok(infos@[j - first], boxes));
        }
    }
    BVHNode::new_leaf(bounds, infos.len(), first)
}

/// An id of a segment whose ids are those of `infos` belongs to one of them.
proof fn lemma_info_of_id(
    seg: Seq<usize>,
    infos: Seq<PrimitiveInfo>,
    boxes: Seq<BoundingBox>,
    a: int,
) -> (k: int)
    requires
        seg.to_multiset() == ids(infos).to_multiset(),
        infos_ok(infos, boxes),
        0 <= a < seg.len(),
    ensures
        0 <= k < infos.len(),
        infos[k].id == seg[a],
        infos[k].centroid == centroid_of(boxes[seg[a] as int]),
{
    vstd::seq_lib::to_multiset_contains(seg, seg[a]);
    vstd::seq_lib::to_multiset_contains(ids(infos), seg[a]);
    let k = choose|k: int| 0 <= k < ids(infos).len() && ids(infos)[k] == seg[a];
    assert(info_ok(infos[k], boxes));
    k
}

/// Both sides of a bucket split are non-empty: the primitive of least
/// centroid falls in the first bucket and the one of greatest in the last,
/// and the split comes before the last bucket.
proof fn lemma_sides_nonempty(
    infos: Seq<PrimitiveInfo>,
    l: Seq<PrimitiveInfo>,
    r: Seq<PrimitiveInfo>,
    boxes: Seq<BoundingBox>,
    dim: int,
    cmin: int,
    cmax: int,
    split: int,
)
    requires
        infos.len() >= 1,
        infos_ok(l, boxes),
        infos_ok(r, boxes),
        (ids(l) + ids(r)).to_multiset() == ids(infos).to_multiset(),
        centroid_box(ids(infos), boxes).min.coord(dim) == cmin,
        centroid_box(ids(infos), boxes).max.coord(dim) == cmax,
        cmin < cmax,
        0 <= split < N_BUCKETS - 2,
        forall|k: int|
            0 <= k < l.len() ==> bucket_of((#[trigger] l[k]).centroid.coord(dim) as int, cmin, cmax)
                <= split,
        forall|k: int|
            0 <= k < r.len() ==> bucket_of((#[trigger] r[k]).centroid.coord(dim) as int, cmin, cmax)
                > split,
    ensures
        l.len() > 0,
        r.len() > 0,
{
    let all = ids(infos);
    let both = ids(l) + ids(r);
    let kmin = lemma_union_map_min_attained(all, centroid_fn(boxes), dim);
    let kmax = lemma_union_map_max_attained(all, centroid_fn(boxes), dim);
    vstd::seq_lib::to_multiset_contains(all, all[kmin]);
    vstd::seq_lib::to_multiset_contains(both, all[kmin]);
    vstd::seq_lib::to_multiset_contains(all, all[kmax]);
    vstd::seq_lib::to_multiset_contains(both, all[kmax]);
    assert(bucket_of(cmin, cmin, cmax) == 0);
    vstd::arithmetic::div_mod::lemma_div_multiples_vanish(N_BUCKETS as int, cmax - cmin);
    assert(bucket_of(cmax, cmin, cmax) == N_BUCKETS - 1);
    let w = choose|w: int| 0 <= w < both.len() && both[w] == all[kmin];
    if w >= ids(l).len() {
        let j = w - ids(l).len();
        assert(ids(r)[j] == r[j].id);
        assert(info_ok(r[j], boxes));
        assert(false);
    }
    let v = choose|v: int| 0 <= v < both.len() && both[v] == all[kmax];
    if v < ids(l).len() {
        assert(ids(l)[v] == l[v].id);
        assert(info_ok(l[v], boxes));
        assert(false);
    }
}

/// Builds the subtree over `infos`, appending their ids to `ordered_prims`
/// in leaf order.
#[verifier::rlimit(100)]
fn recursive_build(
    infos: Vec<PrimitiveInfo>,
    ordered: &mut Vec<usize>,
    Ghost(boxes): Ghost<Seq<BoundingBox>>,
) -> (node: BVHNode)
    requires
        infos@.len() >= 1,
        infos_ok(infos@, boxes),
        old(ordered)@.len() + infos@.len() <= MAX_PRIMITIVES,
    ensures
        final(ordered)@.len() == old(ordered)@.len() + infos@.len(),
        forall|j: int| 0 <= j < old(ordered)@.len() ==> #[trigger] final(ordered)@[j] == old(ordered)@[j],
        node.prims(final(ordered)@) == final(ordered)@.subrange(
            old(ordered)@.len() as int,
            final(ordered)@.len() as int,
        ),
        final(ordered)@.subrange(
            old(ordered)@.len() as int,
            final(ordered)@.len() as int,
        ).to_multiset() == ids(infos@).to_multiset(),
        node.well_formed(final(ordered)@, boxes),
        node.separated(final(ordered)@, boxes),
        node.follows_policy(final(ordered)@, boxes),
        node.tiles(old(ordered)@.len() as int, final(ordered)@.len() as int),
        infos@.len() == 1 || degenerate(ids(infos@), boxes) ==> node is Leaf,
        node is Leaf ==> {
            &&& final(ordered)@ == old(ordered)@ + ids(infos@)
            &&& node == (BVHNode::Leaf {
                bounds: prim_bounds(ids(infos@), boxes),
                first_prim_offset: old(ordered)@.len() as usize,
                number_primitives: infos@.len() as usize,
            })
        },
    decreases infos@.len(),
{
    let n = infos.len();
    let ghost p0 = ids(infos@);
    let bounds = union_of_boxes(&infos, Ghost(boxes));
    if n == 1 {
        return emit_leaf(&infos, ordered, bounds, Ghost(boxes));
    }
    let centroids = centroid_bounds(&infos, Ghost(boxes));
    let dim = centroids.maximum_extent();
    let cmin = centroids.min.get(dim);
    let cmax = centroids.max.get(dim);
    assert(split_dim(p0, boxes) == dim as int);
    if cmax == cmin {
        return emit_leaf(&infos, ordered, bounds, Ghost(boxes));
    }
    assert(cmin < cmax) by {
        assert(centroids.min.le(infos@[0].centroid) && infos@[0].centroid.le(centroids.max));
    }
    assert forall|k: int| 0 <= k < infos@.len() implies cmin <= (
    #[trigger] infos@[k]).centroid.coord(dim as int) <= cmax by {
        assert(centroids.min.le(infos@[k].centroid) && infos@[k].centroid.le(centroids.max));
    }
    let (left, right) = if n <= 4 {
        split_median(infos, dim, Ghost(boxes))
    } else {
        let (counts, bucket_bounds) = fill_buckets(&infos, dim, cmin, cmax, Ghost(boxes));
        let (split, best) = choose_split(&counts, &bucket_bounds);
        let area = bounds.surface_area();
        proof {
            lemma_surface_area_bound(bounds);
            assert(8 * (n as u128) * area <= 0x100_0000_0000_0000_0000_0000_0000) by (nonlinear_arith)
                requires
                    0 <= n <= 0x8000_0000,
                    0 <= area <= 0x6_0000_0000_0000_0000,
            ;
            assert(counts@ == sah_counts(p0, boxes));
            assert(bucket_bounds@ == sah_bounds(p0, boxes));
        }
        // split when the node is too large, or when the cost of the best split,
        // `0.125 + best / area`, is below the leaf cost `n`; both sides of
        // that comparison are multiplied by `8 * area`
        if n > MAX_PRIMS_IN_NODE || area + 8 * best < 8 * (n as u128) * area {
            let ghost whole = infos@;
            let (l, r) = partition_by_bucket(infos, dim, cmin, cmax, split, Ghost(boxes));
            proof {
                lemma_sides_nonempty(
                    whole,
                    l@,
                    r@,
                    boxes,
                    dim as int,
                    cmin as int,
                    cmax as int,
                    split as int,
                );
            }
            (l, r)
        } else {
            return emit_leaf(&infos, ordered, bounds, Ghost(boxes));
        }
    };
    let ghost left_infos = left@;
    let ghost right_infos = right@;
    let ghost left_ids = ids(left@);
    let ghost right_ids = ids(right@);
    let ghost o0 = ordered@;
    let left_node = recursive_build(left, ordered, Ghost(boxes));
    let ghost o1 = ordered@;
    let right_node = recursive_build(right, ordered, Ghost(boxes));
    let ghost o2 = ordered@;
    let node = BVHNode::new_interior(dim, Box::new(left_node), Box::new(right_node));
    proof {
        assert(left_node.tiles(o0.len() as int, o1.len() as int));
        assert(right_node.tiles(o1.len() as int, o2.len() as int));
        lemma_tiles_count(left_node, o0.len() as int, o1.len() as int);
        assert(node.tiles(o0.len() as int, o2.len() as int));
        lemma_extend_ordered(left_node, o1, o2, boxes);
        let seg_l = o1.subrange(o0.len() as int, o1.len() as int);
        let seg_r = o2.subrange(o1.len() as int, o2.len() as int);
        let seg = seg_l + seg_r;
        assert(o2.subrange(o0.len() as int, o2.len() as int) =~= seg);
        vstd::seq_lib::lemma_multiset_commutative(seg_l, seg_r);
        vstd::seq_lib::lemma_multiset_commutative(left_ids, right_ids);
        assert forall|a: int, b: int|
            0 <= a < seg_l.len() && 0 <= b < seg_r.len() implies centroid_of(
            boxes[#[trigger] seg_l[a] as int],
        ).coord(dim as int) <= centroid_of(boxes[#[trigger] seg_r[b] as int]).coord(dim as int) by {
            let ka = lemma_info_of_id(seg_l, left_infos, boxes, a);
            let kb = lemma_info_of_id(seg_r, right_infos, boxes, b);
            assert(left_infos[ka].centroid.coord(dim as int) <= right_infos[kb].centroid.coord(
                dim as int,
            ));
        }
        assert(node.prims(o2) == seg);
        lemma_policy_perm(seg, p0, boxes);
        if n > 4 {
            assert forall|a: int| 0 <= a < seg_l.len() implies bucket_of_prim(
                seg,
                boxes,
                #[trigger] seg_l[a],
            ) <= sah_best(seg, boxes) by {
                let ka = lemma_info_of_id(seg_l, left_infos, boxes, a);
                assert(left_infos[ka].centroid.coord(dim as int) == centroid_of(
                    boxes[seg_l[a] as int],
                ).coord(dim as int));
            }
            assert forall|b: int| 0 <= b < seg_r.len() implies bucket_of_prim(
                seg,
                boxes,
                #[trigger] seg_r[b],
            ) > sah_best(seg, boxes) by {
                let kb = lemma_info_of_id(seg_r, right_infos, boxes, b);
                assert(right_infos[kb].centroid.coord(dim as int) == centroid_of(
                    boxes[seg_r[b] as int],
                ).coord(dim as int));
            }
        }
    }
    node
}

/// The candidates still to come from a traversal stack, top first.
pub open spec fn pending(stack: Seq<&BVHNode>, r: Ray, ordered: Seq<usize>) -> Seq<usize>
    decreases stack.len(),
{
    if stack.len() == 0 {
        Seq::empty()
    } else {
        stack.last().spec_traverse(r, ordered) + pending(stack.drop_last(), r, ordered)
    }
}

/// Number of nodes in the subtrees on a traversal stack.
pub open spec fn stack_size(stack: Seq<&BVHNode>) -> nat
    decreases stack.len(),
{
    if stack.len() == 0 {
        0
    } else {
        stack.last().size() + stack_size(stack.drop_last())
    }
}

/// A bounding-volume hierarchy over a list of primitive boxes. The leaves
/// index `ordered_prims`, which holds primitive ids (positions in the list
/// the hierarchy was built from) in leaf order.
#[derive(Debug)]
pub struct BVH {
    pub root: BVHNode,
    pub ordered_prims: Vec<usize>,
}

/// The ids `0 .. n` of the primitives a hierarchy is built over.
pub open spec fn input_ids(n: nat) -> Seq<usize> {
    Seq::new(n, |i: int| i as usize)
}

impl BVH {
    /// Builds the hierarchy top down. A node over one primitive, or over
    /// primitives whose centroids coincide, is a leaf. Otherwise the node is
    /// split along the longest axis of its centroids' box: at the median when
    /// it holds at most four primitives, else after the cheapest of the
    /// bucket boundaries of the surface-area heuristic, unless keeping a leaf
    /// is cheaper and the node holds at most `MAX_PRIMS_IN_NODE` primitives.
    pub fn new(primitives: &Vec<BoundingBox>) -> (r: BVH)
        requires
            primitives@.len() <= MAX_PRIMITIVES,
            forall|i: int| 0 <= i < primitives@.len() ==> (#[trigger] primitives@[i]).valid(),
        ensures
            r.root.well_formed(r.ordered_prims@, primitives@),
            r.root.ranges_ok(r.ordered_prims@.len() as int),
            r.root.tiles(0, r.ordered_prims@.len() as int),
            r.ordered_prims@.len() == primitives@.len(),
            r.root.covers(r.ordered_prims@, primitives@),
            r.root.separated(r.ordered_prims@, primitives@),
            primitives@.len() >= 1 ==> r.root.follows_policy(r.ordered_prims@, primitives@),
            primitives@.len() == 0 ==> r.root == (BVHNode::Leaf {
                bounds: empty_box(),
                first_prim_offset: 0,
                number_primitives: 0,
            }),
            r.root.prims(r.ordered_prims@) == r.ordered_prims@,
            r.ordered_prims@.to_multiset() == input_ids(primitives@.len()).to_multiset(),
    {
        let n = primitives.len();
        let mut ordered_prims: Vec<usize> = Vec::new();
        if n == 0 {
            let root = BVHNode::new_leaf(BoundingBox::default(), 0, 0);
            proof {
                assert(root.prims(ordered_prims@) =~= ordered_prims@);
                assert(input_ids(0) =~= ordered_prims@);
                lemma_well_formed_covers(root, ordered_prims@, primitives@);
                lemma_well_formed_ranges(root, ordered_prims@, primitives@);
            }
            return BVH { root, ordered_prims };
        }
        let mut infos: Vec<PrimitiveInfo> = Vec::new();
        let mut i: usize = 0;
        while i < n
            invariant
                0 <= i <= n,
                n == primitives@.len(),
                forall|j: int| 0 <= j < primitives@.len() ==> (#[trigger] primitives@[j]).valid(),
                infos@.len() == i,
                infos_ok(infos@, primitives@),
                forall|j: int| 0 <= j < i ==> (#[trigger] infos@[j]).id == j,
            decreases n - i,
        {
            let info = PrimitiveInfo::new(i, primitives[i]);
            infos.push(info);
            i = i + 1;
        }
        assert(ids(infos@) =~= input_ids(n as nat));
        let root = recursive_build(infos, &mut ordered_prims, Ghost(primitives@));
        proof {
            assert(ordered_prims@.subrange(0, ordered_prims@.len() as int) =~= ordered_prims@);
            lemma_well_formed_covers(root, ordered_prims@, primitives@);
            lemma_well_formed_ranges(root, ordered_prims@, primitives@);
        }
        BVH { root, ordered_prims }
    }

    /// The candidate primitives for a ray: those of every leaf whose box the
    /// ray pierces together with the boxes of all its ancestors, nearer
    /// child first.
    #[verifier::rlimit(50)]
    pub fn traverse(&self, ray: &Ray) -> (candidates: Vec<usize>)
        requires
            self.root.ranges_ok(self.ordered_prims@.len() as int),
        ensures
            candidates@ == self.root.spec_traverse(*ray, self.ordered_prims@),
    {
        let ordered = &self.ordered_prims;
        let mut out: Vec<usize> = Vec::new();
        let mut stack: Vec<&BVHNode> = Vec::new();
        stack.push(&self.root);
        proof {
            assert(stack@.drop_last() =~= Seq::<&BVHNode>::empty());
            assert(pending(stack@.drop_last(), *ray, ordered@) == Seq::<usize>::empty());
            assert(pending(stack@, *ray, ordered@) =~= self.root.spec_traverse(*ray, ordered@));
        }
        while stack.len() > 0
            invariant
                out@ + pending(stack@, *ray, ordered@) == self.root.spec_traverse(*ray, ordered@),
                forall|i: int|
                    0 <= i < stack@.len() ==> (#[trigger] stack@[i]).ranges_ok(ordered@.len() as int),
            decreases stack_size(stack@),
        {
            let ghost before = stack@;
            let node = stack.pop().unwrap();
            proof {
                assert(stack@ =~= before.drop_last());
                assert(node == before.last());
                assert(stack_size(before) == node.size() + stack_size(stack@));
                assert(pending(before, *ray, ordered@) == node.spec_traverse(*ray, ordered@) + pending(
                    stack@,
                    *ray,
                    ordered@,
                ));
            }
            if node.get_bounds().intersect(ray) {
                match node {
                    BVHNode::Leaf { first_prim_offset, number_primitives, .. } => {
                        let first = *first_prim_offset;
                        let len = ordered.len();
                        assert(first + *number_primitives <= len);
                        let end = first + *number_primitives;
                        let ghost out0 = out@;
                        let mut j = first;
                        while j < end
                            invariant
                                first <= j <= end,
                                end <= ordered@.len(),
                                out@ == out0 + ordered@.subrange(first as int, j as int),
                            decreases end - j,
                        {
                            out.push(ordered[j]);
                            assert(ordered@.subrange(first as int, j + 1) =~= ordered@.subrange(
                                first as int,
                                j as int,
                            ).push(ordered@[j as int]));
                            j = j + 1;
                        }
                        assert(out@ + pending(stack@, *ray, ordered@) =~= out0 + pending(
                            before,
                            *ray,
                            ordered@,
                        ));
                    },
                    BVHNode::Interior { split_axis, left, right, .. } => {
                        let ghost out0 = out@;
                        let ghost rest = stack@;
                        if ray.direction.get(*split_axis) < 0 {
                            stack.push(&**left);
                            stack.push(&**right);
                        } else {
                            stack.push(&**right);
                            stack.push(&**left);
                        }
                        proof {
                            let s1 = stack@.drop_last();
                            assert(s1.drop_last() =~= rest);
                            assert(stack_size(s1) == s1.last().size() + stack_size(rest));
                            assert(stack_size(stack@) == stack@.last().size() + stack_size(s1));
                            assert(pending(s1, *ray, ordered@) == s1.last().spec_traverse(
                                *ray,
                                ordered@,
                            ) + pending(rest, *ray, ordered@));
                            assert(pending(stack@, *ray, ordered@) == stack@.last().spec_traverse(
                                *ray,
                                ordered@,
                            ) + pending(s1, *ray, ordered@));
                            assert(out@ + pending(stack@, *ray, ordered@) =~= out0 + pending(
                                before,
                                *ray,
                                ordered@,
                            ));
                        }
                    },
                }
            } else {
                assert(out@ + pending(stack@, *ray, ordered@) =~= out@ + pending(
                    before,
                    *ray,
                    ordered@,
                ));
            }
        }
        assert(out@ + pending(stack@, *ray, ordered@) =~= out@);
        out
    }
}

/// A subtree that tiles `[lo, hi)` holds `hi - lo` primitives.
pub proof fn lemma_tiles_count(node: BVHNode, lo: int, hi: int)
    requires
        node.tiles(lo, hi),
    ensures
        node.prim_count() == hi - lo,
    decreases node,
{
    match node {
        BVHNode::Leaf { .. } => {},
        BVHNode::Interior { left, right, .. } => {
            lemma_tiles_count(*left, lo, lo + left.prim_count());
            lemma_tiles_count(*right, lo + left.prim_count(), hi);
        },
    }
}

/// A well-formed subtree only reads `ordered_prims` inside its leaf ranges,
/// so extending the sequence at its end changes nothing about it.
pub proof fn lemma_extend_ordered(
    node: BVHNode,
    o1: Seq<usize>,
    o2: Seq<usize>,
    boxes: Seq<BoundingBox>,
)
    requires
        node.well_formed(o1, boxes),
        o1.len() <= o2.len(),
        forall|j: int| 0 <= j < o1.len() ==> #[trigger] o2[j] == o1[j],
    ensures
        node.well_formed(o2, boxes),
        node.prims(o2) == node.prims(o1),
        node.separated(o1, boxes) ==> node.separated(o2, boxes),
        node.follows_policy(o1, boxes) ==> node.follows_policy(o2, boxes),
    decreases node,
{
    match node {
        BVHNode::Leaf { first_prim_offset, number_primitives, .. } => {
            assert(node.prims(o2) =~= node.prims(o1));
            assert forall|j: int|
                first_prim_offset <= j < first_prim_offset + number_primitives implies #[trigger] o2[j]
                == o1[j] by {}
        },
        BVHNode::Interior { left, right, .. } => {
            lemma_extend_ordered(*left, o1, o2, boxes);
            lemma_extend_ordered(*right, o1, o2, boxes);
        },
    }
}

/// A well-formed tree has its leaf ranges inside `ordered_prims`.
pub proof fn lemma_well_formed_ranges(node: BVHNode, ordered: Seq<usize>, boxes: Seq<BoundingBox>)
    requires
        node.well_formed(ordered, boxes),
    ensures
        node.ranges_ok(ordered.len() as int),
    decreases node,
{
    match node {
        BVHNode::Leaf { .. } => {},
        BVHNode::Interior { left, right, .. } => {
            lemma_well_formed_ranges(*left, ordered, boxes);
            lemma_well_formed_ranges(*right, ordered, boxes);
        },
    }
}

/// In a well-formed tree the box of every node contains the box of every
/// primitive reachable in its subtree.
pub proof fn lemma_well_formed_covers(node: BVHNode, ordered: Seq<usize>, boxes: Seq<BoundingBox>)
    requires
        node.well_formed(ordered, boxes),
    ensures
        node.covers(ordered, boxes),
    decreases node,
{
    match node {
        BVHNode::Leaf { first_prim_offset, .. } => {
            assert forall|k: int| 0 <= k < node.prims(ordered).len() implies #[trigger] node.prims(
                ordered,
            )[k] < boxes.len() && node.bounds().contains(boxes[node.prims(ordered)[k] as int]) by {
                assert(node.prims(ordered)[k] == ordered[first_prim_offset + k]);
            }
        },
        BVHNode::Interior { bounds, left, right, .. } => {
            lemma_well_formed_covers(*left, ordered, boxes);
            lemma_well_formed_covers(*right, ordered, boxes);
            lemma_union_contains(left.bounds(), right.bounds());
            let pl = left.prims(ordered);
            let pr = right.prims(ordered);
            assert forall|k: int| 0 <= k < node.prims(ordered).len() implies #[trigger] node.prims(
                ordered,
            )[k] < boxes.len() && node.bounds().contains(boxes[node.prims(ordered)[k] as int]) by {
                if k < pl.len() {
                    assert(node.prims(ordered)[k] == pl[k]);
                    lemma_contains_transitive(bounds, left.bounds(), boxes[pl[k] as int]);
                } else {
                    assert(node.prims(ordered)[k] == pr[k - pl.len()]);
                    lemma_contains_transitive(bounds, right.bounds(), boxes[pr[k - pl.len()] as int]);
                }
            }
        },
    }
}

/// Traversal misses no primitive that matters: every primitive reachable in
/// a subtree whose box the ray pierces is among the reported candidates.
pub proof fn lemma_traverse_complete(
    node: BVHNode,
    r: Ray,
    ordered: Seq<usize>,
    boxes: Seq<BoundingBox>,
    k: int,
)
    requires
        node.covers(ordered, boxes),
        0 <= k < node.prims(ordered).len(),
        boxes[node.prims(ordered)[k] as int].spec_intersect(r),
    ensures
        node.spec_traverse(r, ordered).contains(node.prims(ordered)[k]),
    decreases node,
{
    let id = node.prims(ordered)[k];
    lemma_intersect_monotone(node.bounds(), boxes[id as int], r);
    match node {
        BVHNode::Leaf { .. } => {
            assert(node.spec_traverse(r, ordered)[k] == id);
        },
        BVHNode::Interior { split_axis, left, right, .. } => {
            let pl = left.prims(ordered);
            let tl = left.spec_traverse(r, ordered);
            let tr = right.spec_traverse(r, ordered);
            if k < pl.len() {
                assert(pl[k] == id);
                lemma_traverse_complete(*left, r, ordered, boxes, k);
                let w = choose|w: int| 0 <= w < tl.len() && tl[w] == id;
                if r.direction.coord(split_axis as int) < 0 {
                    assert((tr + tl)[tr.len() + w] == id);
                } else {
                    assert((tl + tr)[w] == id);
                }
            } else {
                assert(right.prims(ordered)[k - pl.len()] == id);
                lemma_traverse_complete(*right, r, ordered, boxes, k - pl.len());
                let w = choose|w: int| 0 <= w < tr.len() && tr[w] == id;
                if r.direction.coord(split_axis as int) < 0 {
                    assert((tr + tl)[w] == id);
                } else {
                    assert((tl + tr)[tl.len() + w] == id);
                }
            }
        },
    }
}

} // verus!
