use vstd::prelude::*;

verus! {

/// Largest magnitude a coordinate may have for the surface-area arithmetic
/// of the hierarchy build to stay exact.
pub const COORD_LIMIT: i64 = 1073741824;

/// A point (or a vector) in 3-space on an integer fixed-point grid.
#[derive(Clone, Copy, Debug, PartialEq, Eq, Structural)]
pub struct Point {
    pub x: i64,
    pub y: i64,
    pub z: i64,
}

pub open spec fn min_i64(a: i64, b: i64) -> i64 {
    if a <= b { a } else { b }
}

pub open spec fn max_i64(a: i64, b: i64) -> i64 {
    if a >= b { a } else { b }
}

impl Point {
    /// The coordinate along `axis` (0 is x, 1 is y, anything else z).
    pub open spec fn coord(self, axis: int) -> i64 {
        if axis == 0 {
            self.x
        } else if axis == 1 {
            self.y
        } else {
            self.z
        }
    }

    pub open spec fn spec_min(self, o: Point) -> Point {
        Point { x: min_i64(self.x, o.x), y: min_i64(self.y, o.y), z: min_i64(self.z, o.z) }
    }

    pub open spec fn spec_max(self, o: Point) -> Point {
        Point { x: max_i64(self.x, o.x), y: max_i64(self.y, o.y), z: max_i64(self.z, o.z) }
    }

    /// Every coordinate lies in `[-COORD_LIMIT, COORD_LIMIT]`.
    pub open spec fn in_limits(self) -> bool {
        -COORD_LIMIT <= self.x <= COORD_LIMIT && -COORD_LIMIT <= self.y <= COORD_LIMIT
            && -COORD_LIMIT <= self.z <= COORD_LIMIT
    }

    /// Component-wise `self <= o`.
    pub open spec fn le(self, o: Point) -> bool {
        self.x <= o.x && self.y <= o.y && self.z <= o.z
    }

    pub fn new(x: i64, y: i64, z: i64) -> (r: Point)
        ensures
            r == (Point { x, y, z }),
    {
        Point { x, y, z }
    }

    pub fn get(&self, axis: usize) -> (r: i64)
        requires
            axis < 3,
        ensures
            r == self.coord(axis as int),
    {
        if axis == 0 {
            self.x
        } else if axis == 1 {
            self.y
        } else {
            self.z
        }
    }
}

fn min_of(a: i64, b: i64) -> (r: i64)
    ensures
        r == min_i64(a, b),
{
    if a <= b { a } else { b }
}

fn max_of(a: i64, b: i64) -> (r: i64)
    ensures
        r == max_i64(a, b),
{
    if a >= b { a } else { b }
}

/// Component-wise minimum and maximum of two values.
pub trait Comparable: Sized {
    spec fn spec_min_between(&self, other: &Self) -> Self;

    spec fn spec_max_between(&self, other: &Self) -> Self;

    fn min_between(&self, other: &Self) -> (r: Self)
        ensures
            r == self.spec_min_between(other),
    ;

    fn max_between(&self, other: &Self) -> (r: Self)
        ensures
            r == self.spec_max_between(other),
    ;
}

impl Comparable for Point {
    open spec fn spec_min_between(&self, other: &Point) -> Point {
        self.spec_min(*other)
    }

    open spec fn spec_max_between(&self, other: &Point) -> Point {
        self.spec_max(*other)
    }

    fn min_between(&self, other: &Point) -> (r: Point) {
        Point { x: min_of(self.x, other.x), y: min_of(self.y, other.y), z: min_of(self.z, other.z) }
    }

    fn max_between(&self, other: &Point) -> (r: Point) {
        Point { x: max_of(self.x, other.x), y: max_of(self.y, other.y), z: max_of(self.z, other.z) }
    }
}

/// Values that can tell whether they are exactly zero.
pub trait Zeroable {
    spec fn spec_is_zero(&self) -> bool;

    fn is_zero(&self) -> (r: bool)
        ensures
            r == self.spec_is_zero(),
    ;
}

impl Zeroable for Point {
    open spec fn spec_is_zero(&self) -> bool {
        self.x == 0 && self.y == 0 && self.z == 0
    }

    fn is_zero(&self) -> (r: bool) {
        self.x == 0 && self.y == 0 && self.z == 0
    }
}

} // verus!
