//! A single straight street, as it is shown while it is being drawn.

use vstd::prelude::*;
use crate::math::arith::{div_round, div_round_exec, int_sqrt, sqrt_floor};
use crate::math::line::{crossing, Line};
use crate::math::point::{dist2, Point};

verus! {

/// The grid point nearest to the middle between two coordinates.
pub open spec fn halfway(a: int, b: int) -> int {
    div_round(a + b, 2)
}

/// The grid point nearest to the middle between two points.
pub open spec fn midpoint(start: Point, end: Point) -> Point {
    Point {
        x: halfway(start.x as int, end.x as int) as i32,
        y: halfway(start.y as int, end.y as int) as i32,
    }
}

/// The middle between two coordinates lies between them.
pub proof fn lemma_halfway_between(a: int, b: int)
    ensures
        a <= b ==> a <= halfway(a, b) <= b,
        b <= a ==> b <= halfway(a, b) <= a,
{
    if a <= b {
        crate::math::arith::lemma_div_round_between(a + b, 2, a, b);
    } else {
        crate::math::arith::lemma_div_round_between(a + b, 2, b, a);
    }
}

fn halfway_exec(a: i32, b: i32) -> (m: i32)
    ensures
        m == halfway(a as int, b as int),
{
    proof {
        lemma_halfway_between(a as int, b as int);
    }
    let sum: i128 = a as i128 + b as i128;
    div_round_exec(sum, 2) as i32
}

/// Calculates the centre position between two points in world space.
pub fn calculate_center_ws(start: Point, end: Point) -> (center: Point)
    ensures
        center == midpoint(start, end),
{
    Point { x: halfway_exec(start.x, end.x), y: halfway_exec(start.y, end.y) }
}

/// A street from `start` to `end`; `position` is its middle.
#[derive(Clone, Copy, Debug, PartialEq, Eq, Structural)]
pub struct StraightStreet {
    pub position: Point,
    pub start: Point,
    pub end: Point,
}

impl StraightStreet {
    /// A street's position is the middle between its ends.
    pub open spec fn wf(self) -> bool {
        self.position == midpoint(self.start, self.end)
    }

    /// The segment the street covers.
    pub open spec fn line(self) -> Line {
        Line { point1: self.start, point2: self.end }
    }

    pub fn new(start: Point, end: Point) -> (street: StraightStreet)
        ensures
            street == (StraightStreet { position: midpoint(start, end), start, end }),
            street.wf(),
    {
        StraightStreet { start, end, position: calculate_center_ws(start, end) }
    }

    /// The length of the street, rounded down to the grid.
    pub fn length(&self) -> (len: u64)
        ensures
            len == int_sqrt(dist2(self.start, self.end)),
    {
        sqrt_floor(self.start.distance_squared(&self.end))
    }

    /// The way the street points: from its start to its end.
    pub fn direction(&self) -> (along: (i64, i64))
        ensures
            along.0 == self.end.x - self.start.x,
            along.1 == self.end.y - self.start.y,
    {
        (self.end.x as i64 - self.start.x as i64, self.end.y as i64 - self.start.y as i64)
    }

    /// Moves the start; the end stays.
    pub fn set_start(&mut self, start: Point)
        ensures
            *final(self) == (StraightStreet {
                position: midpoint(start, old(self).end),
                start,
                end: old(self).end,
            }),
            final(self).wf(),
    {
        self.start = start;
        self.position = calculate_center_ws(start, self.end);
    }

    /// Moves the end; the start stays.
    pub fn set_end(&mut self, end: Point)
        ensures
            *final(self) == (StraightStreet {
                position: midpoint(old(self).start, end),
                start: old(self).start,
                end,
            }),
            final(self).wf(),
    {
        self.end = end;
        self.position = calculate_center_ws(self.start, end);
    }

    /// Where this street crosses another, if they meet in exactly one point.
    pub fn intersection(&self, other: &StraightStreet) -> (hit: Option<Point>)
        ensures
            hit == crossing(self.line(), other.line()),
    {
        let mine = Line { point1: self.start, point2: self.end };
        let theirs = Line { point1: other.start, point2: other.end };
        mine.intersects_position(&theirs)
    }
}

impl Default for StraightStreet {
    /// A street without length at the origin.
    fn default() -> (street: StraightStreet)
        ensures
            street == (StraightStreet {
                position: Point { x: 0, y: 0 },
                start: Point { x: 0, y: 0 },
                end: Point { x: 0, y: 0 },
            }),
    {
        let origin = Point { x: 0, y: 0 };
        StraightStreet { position: origin, start: origin, end: origin }
    }
}

} // verus!
