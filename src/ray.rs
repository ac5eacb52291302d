use vstd::prelude::*;

use crate::helpers::Point;

verus! {

/// A ray on the integer grid: the points `origin + t * direction` for real `t`.
#[derive(Clone, Copy, Debug)]
pub struct Ray {
    pub origin: Point,
    pub direction: Point,
}

impl Ray {
    pub fn new(origin: Point, direction: Point) -> (r: Ray)
        ensures
            r.origin == origin,
            r.direction == direction,
    {
        Ray { origin, direction }
    }

    pub fn origin(&self) -> (r: &Point)
        ensures
            *r == self.origin,
    {
        &self.origin
    }

    pub fn direction(&self) -> (r: &Point)
        ensures
            *r == self.direction,
    {
        &self.direction
    }
}

} // verus!
