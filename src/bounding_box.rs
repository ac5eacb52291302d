use vstd::prelude::*;

use crate::helpers::{Comparable, Point};
use crate::ray::Ray;

verus! {

/// An axis-aligned box `[min, max]`. A box with `min > max` on some axis is
/// empty; `BoundingBox::default()` is the empty box with `min` at the top of
/// the integer range and `max` at the bottom, so that a union with it gives
/// back the other operand.
#[derive(Clone, Copy, Debug, PartialEq, Eq, Structural)]
pub struct BoundingBox {
    pub min: Point,
    pub max: Point,
}

/// The empty box that `default` returns.
pub open spec fn empty_box() -> BoundingBox {
    BoundingBox {
        min: Point { x: i64::MAX, y: i64::MAX, z: i64::MAX },
        max: Point { x: i64::MIN, y: i64::MIN, z: i64::MIN },
    }
}

pub open spec fn abs_int(a: int) -> int {
    if a < 0 { -a } else { a }
}

impl BoundingBox {
    pub open spec fn spec_union(self, o: BoundingBox) -> BoundingBox {
        BoundingBox { min: self.min.spec_min(o.min), max: self.max.spec_max(o.max) }
    }

    pub open spec fn spec_union_with_point(self, p: Point) -> BoundingBox {
        BoundingBox { min: self.min.spec_min(p), max: self.max.spec_max(p) }
    }

    /// `o` lies inside `self`, bound by bound.
    pub open spec fn contains(self, o: BoundingBox) -> bool {
        self.min.le(o.min) && o.max.le(self.max)
    }

    pub open spec fn is_empty(self) -> bool {
        self.min.x > self.max.x || self.min.y > self.max.y || self.min.z > self.max.z
    }

    /// A non-empty box whose coordinates lie within `COORD_LIMIT`.
    pub open spec fn valid(self) -> bool {
        self.min.in_limits() && self.max.in_limits() && self.min.le(self.max)
    }

    /// A valid box or the empty box of `default`.
    pub open spec fn bounded(self) -> bool {
        self.valid() || self == empty_box()
    }

    pub open spec fn extent(self, axis: int) -> int {
        self.max.coord(axis) - self.min.coord(axis)
    }

    /// The axis along which the box is longest; ties go to the later axis.
    pub open spec fn spec_maximum_extent(self) -> usize {
        if self.extent(0) > self.extent(1) && self.extent(0) > self.extent(2) {
            0
        } else if self.extent(1) > self.extent(2) {
            1
        } else {
            2
        }
    }

    /// Surface area of the box; zero for an empty box.
    pub open spec fn spec_surface_area(self) -> int {
        if self.is_empty() {
            0
        } else {
            2 * (self.extent(0) * self.extent(1) + self.extent(0) * self.extent(2) + self.extent(
                1,
            ) * self.extent(2))
        }
    }

    /// Numerator of the ray parameter at which the ray enters the slab of
    /// `axis`; the denominator is `|direction[axis]|`.
    pub open spec fn slab_enter(self, r: Ray, axis: int) -> int {
        if r.direction.coord(axis) > 0 {
            self.min.coord(axis) - r.origin.coord(axis)
        } else {
            r.origin.coord(axis) - self.max.coord(axis)
        }
    }

    /// Numerator of the ray parameter at which the ray leaves the slab of `axis`.
    pub open spec fn slab_leave(self, r: Ray, axis: int) -> int {
        if r.direction.coord(axis) > 0 {
            self.max.coord(axis) - r.origin.coord(axis)
        } else {
            r.origin.coord(axis) - self.min.coord(axis)
        }
    }

    /// On an axis that the ray does not move along, its origin lies in the slab.
    pub open spec fn slab_still(self, r: Ray, axis: int) -> bool {
        r.direction.coord(axis) == 0 ==> self.min.coord(axis) <= r.origin.coord(axis)
            <= self.max.coord(axis)
    }

    /// The ray enters the slab of axis `i` no later than it leaves that of `j`.
    pub open spec fn slab_pair(self, r: Ray, i: int, j: int) -> bool {
        r.direction.coord(i) != 0 && r.direction.coord(j) != 0 ==> self.slab_enter(r, i)
            * abs_int(r.direction.coord(j) as int) <= self.slab_leave(r, j) * abs_int(
            r.direction.coord(i) as int,
        )
    }

    /// Slab test: the line of the ray meets the box, that is the intervals of
    /// the ray parameter spent in the three slabs share a point. The point
    /// need not lie ahead of the origin.
    pub open spec fn spec_intersect(self, r: Ray) -> bool {
        &&& forall|i: int| 0 <= i < 3 ==> #[trigger] self.slab_still(r, i)
        &&& forall|i: int, j: int| 0 <= i < 3 && 0 <= j < 3 ==> #[trigger] self.slab_pair(r, i, j)
    }

    pub fn new(min: &Point, max: &Point) -> (r: BoundingBox)
        ensures
            r.min == *min,
            r.max == *max,
    {
        BoundingBox { min: *min, max: *max }
    }

    pub fn get_min_max(&self) -> (r: (&Point, &Point))
        ensures
            *r.0 == self.min,
            *r.1 == self.max,
    {
        (&self.min, &self.max)
    }

    pub fn maximum_extent(&self) -> (r: usize)
        ensures
            r == self.spec_maximum_extent(),
    {
        let dx = self.max.x as i128 - self.min.x as i128;
        let dy = self.max.y as i128 - self.min.y as i128;
        let dz = self.max.z as i128 - self.min.z as i128;
        if dx > dy && dx > dz {
            0
        } else if dy > dz {
            1
        } else {
            2
        }
    }

    pub fn union_with_point(&self, other: &Point) -> (r: BoundingBox)
        ensures
            r == self.spec_union_with_point(*other),
    {
        BoundingBox { min: self.min.min_between(other), max: self.max.max_between(other) }
    }

    pub fn union(&self, other: &BoundingBox) -> (r: BoundingBox)
        ensures
            r == self.spec_union(*other),
    {
        BoundingBox { min: self.min.min_between(&other.min), max: self.max.max_between(&other.max) }
    }

    pub fn surface_area(&self) -> (r: u128)
        requires
            self.bounded(),
        ensures
            r == self.spec_surface_area(),
    {
        if self.min.x > self.max.x || self.min.y > self.max.y || self.min.z > self.max.z {
            0
        } else {
            let dx = (self.max.x - self.min.x) as u128;
            let dy = (self.max.y - self.min.y) as u128;
            let dz = (self.max.z - self.min.z) as u128;
            assert(dx * dy <= 0x4000000000000000 && dx * dz <= 0x4000000000000000 && dy * dz
                <= 0x4000000000000000) by (nonlinear_arith)
                requires
                    dx <= 0x80000000,
                    dy <= 0x80000000,
                    dz <= 0x80000000,
            ;
            2 * (dx * dy + dx * dz + dy * dz)
        }
    }

    pub fn intersect(&self, ray: &Ray) -> (r: bool)
        ensures
            r == self.spec_intersect(*ray),
    {
        let mut i: usize = 0;
        while i < 3
            invariant
                0 <= i <= 3,
                forall|k: int| 0 <= k < i ==> #[trigger] self.slab_still(*ray, k),
            decreases 3 - i,
        {
            let d = ray.direction.get(i);
            let o = ray.origin.get(i);
            if d == 0 && (o < self.min.get(i) || o > self.max.get(i)) {
                assert(!self.slab_still(*ray, i as int));
                return false;
            }
            i = i + 1;
        }
        let mut i: usize = 0;
        while i < 3
            invariant
                0 <= i <= 3,
                forall|k: int| 0 <= k < 3 ==> #[trigger] self.slab_still(*ray, k),
                forall|a: int, b: int|
                    0 <= a < i && 0 <= b < 3 ==> #[trigger] self.slab_pair(*ray, a, b),
            decreases 3 - i,
        {
            let mut j: usize = 0;
            while j < 3
                invariant
                    0 <= i < 3,
                    0 <= j <= 3,
                    forall|a: int, b: int|
                        0 <= a < i && 0 <= b < 3 ==> #[trigger] self.slab_pair(*ray, a, b),
                    forall|b: int| 0 <= b < j ==> #[trigger] self.slab_pair(*ray, i as int, b),
                decreases 3 - j,
            {
                if !self.slab_pair_check(ray, i, j) {
                    return false;
                }
                j = j + 1;
            }
            i = i + 1;
        }
        true
    }

    fn slab_pair_check(&self, ray: &Ray, i: usize, j: usize) -> (r: bool)
        requires
            i < 3,
            j < 3,
        ensures
            r == self.slab_pair(*ray, i as int, j as int),
    {
        let di = ray.direction.get(i) as i128;
        let dj = ray.direction.get(j) as i128;
        if di == 0 || dj == 0 {
            return true;
        }
        let oi = ray.origin.get(i) as i128;
        let oj = ray.origin.get(j) as i128;
        let enter = if di > 0 {
            self.min.get(i) as i128 - oi
        } else {
            oi - self.max.get(i) as i128
        };
        let leave = if dj > 0 {
            self.max.get(j) as i128 - oj
        } else {
            oj - self.min.get(j) as i128
        };
        let ai = if di < 0 { -di } else { di };
        let aj = if dj < 0 { -dj } else { dj };
        assert(-0x7fff_ffff_ffff_ffff_8000_0000_0000_0000 <= enter * aj
            <= 0x7fff_ffff_ffff_ffff_8000_0000_0000_0000) by (nonlinear_arith)
            requires
                -0xffff_ffff_ffff_ffff <= enter <= 0xffff_ffff_ffff_ffff,
                0 < aj <= 0x8000_0000_0000_0000,
        ;
        assert(-0x7fff_ffff_ffff_ffff_8000_0000_0000_0000 <= leave * ai
            <= 0x7fff_ffff_ffff_ffff_8000_0000_0000_0000) by (nonlinear_arith)
            requires
                -0xffff_ffff_ffff_ffff <= leave <= 0xffff_ffff_ffff_ffff,
                0 < ai <= 0x8000_0000_0000_0000,
        ;
        enter * aj <= leave * ai
    }
}

impl Default for BoundingBox {
    fn default() -> (r: BoundingBox)
        ensures
            r == empty_box(),
    {
        BoundingBox {
            min: Point { x: i64::MAX, y: i64::MAX, z: i64::MAX },
            max: Point { x: i64::MIN, y: i64::MIN, z: i64::MIN },
        }
    }
}

/// Union of boxes is commutative.
pub proof fn lemma_union_commutative(a: BoundingBox, b: BoundingBox)
    ensures
        a.spec_union(b) == b.spec_union(a),
{
}

/// Union of boxes is associative.
pub proof fn lemma_union_associative(a: BoundingBox, b: BoundingBox, c: BoundingBox)
    ensures
        a.spec_union(b).spec_union(c) == a.spec_union(b.spec_union(c)),
{
}

/// The empty box of `default` is a two-sided identity of union.
pub proof fn lemma_union_empty_identity(a: BoundingBox)
    ensures
        empty_box().spec_union(a) == a,
        a.spec_union(empty_box()) == a,
{
}

/// A union contains both of its operands.
pub proof fn lemma_union_contains(a: BoundingBox, b: BoundingBox)
    ensures
        a.spec_union(b).contains(a),
        a.spec_union(b).contains(b),
{
}

/// Containment is transitive.
pub proof fn lemma_contains_transitive(a: BoundingBox, b: BoundingBox, c: BoundingBox)
    requires
        a.contains(b),
        b.contains(c),
    ensures
        a.contains(c),
{
}

/// The union of two bounded boxes is bounded.
pub proof fn lemma_union_bounded(a: BoundingBox, b: BoundingBox)
    requires
        a.bounded(),
        b.bounded(),
    ensures
        a.spec_union(b).bounded(),
{
}

/// A box that contains another is pierced by every ray that pierces the
/// inner one.
pub proof fn lemma_intersect_monotone(a: BoundingBox, b: BoundingBox, r: Ray)
    requires
        a.contains(b),
        b.spec_intersect(r),
    ensures
        a.spec_intersect(r),
{
    assert forall|i: int| 0 <= i < 3 implies #[trigger] a.slab_still(r, i) by {
        assert(b.slab_still(r, i));
    }
    assert forall|i: int, j: int| 0 <= i < 3 && 0 <= j < 3 implies #[trigger] a.slab_pair(r, i, j) by {
        assert(b.slab_pair(r, i, j));
        if r.direction.coord(i) != 0 && r.direction.coord(j) != 0 {
            let ai = abs_int(r.direction.coord(i) as int);
            let aj = abs_int(r.direction.coord(j) as int);
            let ea = a.slab_enter(r, i);
            let eb = b.slab_enter(r, i);
            let la = a.slab_leave(r, j);
            let lb = b.slab_leave(r, j);
            assert(ea <= eb);
            assert(lb <= la);
            assert(ea * aj <= la * ai) by (nonlinear_arith)
                requires
                    ea <= eb,
                    lb <= la,
                    eb * aj <= lb * ai,
                    0 <= ai,
                    0 <= aj,
            ;
        }
    }
}

} // verus!
