//! Axis-parallel boxes.
use vstd::prelude::*;
use crate::geometry::Point;

verus! {

/// The box between two corners, edges included.
#[derive(Clone, Copy, Debug, PartialEq, Eq, Structural)]
pub struct BBox {
    pub min: Point,
    pub max: Point,
}

impl BBox {
    /// The lower corner is nowhere above the upper one.
    pub open spec fn wf(self) -> bool {
        self.min.x <= self.max.x && self.min.y <= self.max.y
    }

    /// `p` lies in the box or on its edges.
    pub open spec fn contains(self, p: Point) -> bool {
        self.min.x <= p.x <= self.max.x && self.min.y <= p.y <= self.max.y
    }

    /// Every point of `points` lies in the box or on its edges.
    pub open spec fn contains_all(self, points: Seq<Point>) -> bool {
        forall|i: int| 0 <= i < points.len() ==> self.contains(#[trigger] points[i])
    }

    /// Tests whether `p` lies in the box or on its edges.
    pub fn contains_point(&self, p: Point) -> (r: bool)
        ensures
            r == self.contains(p),
    {
        self.min.x <= p.x && p.x <= self.max.x && self.min.y <= p.y && p.y <= self.max.y
    }
}

} // verus!
