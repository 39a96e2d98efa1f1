//! Segments ordered from bottom to top along a sweep line.
use crate::geom::{area_two_spec, IntPoint};
use crate::vertex::{area_two_wide, point_less, point_lt, sign};
use core::cmp::Ordering;
use vstd::prelude::*;

verus! {

/// A segment from `a` to `b`, with `a` before `b` in point order.
#[derive(Clone, Copy, Debug, PartialEq, Eq, Structural)]
pub struct VSegment {
    pub a: IntPoint,
    pub b: IntPoint,
}

/// The ordering that a sign stands for.
pub open spec fn order_of(v: int) -> Ordering {
    if v < 0 {
        Ordering::Less
    } else if v == 0 {
        Ordering::Equal
    } else {
        Ordering::Greater
    }
}

/// Which of two segments lies under the other: judged at the end point
/// that comes first, by the turn the other segment makes there.
pub open spec fn under_segment(s: VSegment, o: VSegment) -> int {
    if point_lt(s.b, o.b) {
        sign(area_two_spec(s.b, o.a, o.b))
    } else if s.b == o.b {
        sign(area_two_spec(s.b, s.a, o.a))
    } else {
        sign(area_two_spec(o.b, s.b, s.a))
    }
}

/// The ordering of the turn `p0`, `p1`, `p2`: `Less` when clockwise.
fn turn_order(p0: IntPoint, p1: IntPoint, p2: IntPoint) -> (r: Ordering)
    ensures
        r == order_of(sign(area_two_spec(p0, p1, p2))),
{
    let area = area_two_wide(p0, p1, p2);
    if area < 0 {
        Ordering::Less
    } else if area == 0 {
        Ordering::Equal
    } else {
        Ordering::Greater
    }
}

impl VSegment {
    /// `Less` when this segment lies under `other`.
    pub fn is_under_segment_order(&self, other: &VSegment) -> (r: Ordering)
        ensures
            r == order_of(under_segment(*self, *other)),
    {
        if point_less(self.b, other.b) {
            turn_order(self.b, other.a, other.b)
        } else if self.b == other.b {
            turn_order(self.b, self.a, other.a)
        } else {
            turn_order(other.b, self.b, self.a)
        }
    }

    /// `Less` when the segment passes under `p`, which lies within its
    /// `x` range.
    pub fn is_under_point_order(&self, p: IntPoint) -> (r: Ordering)
        requires
            self.a.x <= p.x <= self.b.x,
        ensures
            r == order_of(sign(area_two_spec(self.a, p, self.b))),
    {
        turn_order(self.a, p, self.b)
    }
}

impl Default for VSegment {
    fn default() -> (r: Self)
        ensures
            r == (VSegment { a: IntPoint { x: 0, y: 0 }, b: IntPoint { x: 0, y: 0 } }),
    {
        VSegment { a: IntPoint { x: 0, y: 0 }, b: IntPoint { x: 0, y: 0 } }
    }
}

} // verus!
