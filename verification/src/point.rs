//! A point in a branch's local coordinate frame.

use vstd::prelude::*;
use crate::rat::Rat;
use crate::rat::{q_add, q_fits, q_reduction_of, q_sub, q_wf};

verus! {

/// A point in a branch's local frame: `x` runs along the branch,
/// `y` is the lateral coordinate.
#[derive(Clone, Copy, Debug)]
pub struct Point2 {
    pub x: Rat,
    pub y: Rat,
}

impl Point2 {
    /// Both coordinates carry positive denominators.
    pub open spec fn wf(self) -> bool {
        q_wf(self.x@) && q_wf(self.y@)
    }

    /// Build a point from its two coordinates.
    pub fn new(x: Rat, y: Rat) -> (r: Point2)
        ensures
            r.x == x,
            r.y == y,
    {
        Point2 { x, y }
    }

    /// Coordinate-wise sum; `None` only when a coordinate cannot be
    /// represented.
    pub fn add(self, other: Point2) -> (r: Option<Point2>)
        requires
            self.wf(),
            other.wf(),
        ensures
            r matches Some(p) ==> p.wf() && q_reduction_of(p.x@, q_add(self.x@, other.x@))
                && q_reduction_of(p.y@, q_add(self.y@, other.y@)),
            q_fits(q_add(self.x@, other.x@)) && q_fits(q_add(self.y@, other.y@)) ==> r is Some,
    {
        let nx = match self.x.add(other.x) {
            Some(v) => v,
            None => {
                return None;
            },
        };
        let ny = match self.y.add(other.y) {
            Some(v) => v,
            None => {
                return None;
            },
        };
        Some(Point2 { x: nx, y: ny })
    }

    /// Coordinate-wise difference; `None` only when a coordinate cannot
    /// be represented.
    pub fn sub(self, other: Point2) -> (r: Option<Point2>)
        requires
            self.wf(),
            other.wf(),
        ensures
            r matches Some(p) ==> p.wf() && q_reduction_of(p.x@, q_sub(self.x@, other.x@))
                && q_reduction_of(p.y@, q_sub(self.y@, other.y@)),
            q_fits(q_sub(self.x@, other.x@)) && q_fits(q_sub(self.y@, other.y@)) ==> r is Some,
    {
        let nx = match self.x.sub(other.x) {
            Some(v) => v,
            None => {
                return None;
            },
        };
        let ny = match self.y.sub(other.y) {
            Some(v) => v,
            None => {
                return None;
            },
        };
        Some(Point2 { x: nx, y: ny })
    }
}

} // verus!
