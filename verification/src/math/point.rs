//! Points of the fixed-point grid and the products the geometry is built on.

use vstd::prelude::*;

verus! {

/// Grid steps in one world unit: coordinates are thousandths.
pub const UNIT: i32 = 1000;

/// A position in world space, in thousandths of a unit.
#[derive(Clone, Copy, Debug, PartialEq, Eq, Structural)]
pub struct Point {
    pub x: i32,
    pub y: i32,
}

/// The determinant of the vectors `(ax, ay)` and `(bx, by)`.
pub open spec fn det(ax: int, ay: int, bx: int, by: int) -> int {
    ax * by - ay * bx
}

/// The squared Euclidean distance between two points.
pub open spec fn dist2(a: Point, b: Point) -> int {
    (a.x - b.x) * (a.x - b.x) + (a.y - b.y) * (a.y - b.y)
}

/// Whether two points are at least `min` grid steps apart.
pub open spec fn apart(a: Point, b: Point, min: int) -> bool {
    dist2(a, b) >= min * min
}

/// The largest magnitude of a difference of two coordinates.
pub open spec fn max_delta() -> int {
    0xFFFF_FFFF
}

/// A product is bounded by the product of its factors' bounds.
pub proof fn lemma_product_bound(a: int, b: int, m: int, n: int)
    requires
        -m <= a <= m,
        -n <= b <= n,
    ensures
        -(m * n) <= a * b <= m * n,
{
    assert(-(m * n) <= a * b <= m * n) by (nonlinear_arith)
        requires
            -m <= a <= m,
            -n <= b <= n,
    ;
}

/// The difference `a - b` of two coordinates.
pub(crate) fn delta(a: i32, b: i32) -> (d: i128)
    ensures
        d == a - b,
        -max_delta() <= d <= max_delta(),
{
    let wide_a: i128 = a as i128;
    let wide_b: i128 = b as i128;
    wide_a - wide_b
}

/// Computes the determinant of two vectors of coordinate differences.
pub(crate) fn det_exec(ax: i128, ay: i128, bx: i128, by: i128) -> (d: i128)
    requires
        -max_delta() <= ax <= max_delta(),
        -max_delta() <= ay <= max_delta(),
        -max_delta() <= bx <= max_delta(),
        -max_delta() <= by <= max_delta(),
    ensures
        d == det(ax as int, ay as int, bx as int, by as int),
        -2 * max_delta() * max_delta() <= d <= 2 * max_delta() * max_delta(),
{
    proof {
        lemma_product_bound(ax as int, by as int, max_delta(), max_delta());
        lemma_product_bound(ay as int, bx as int, max_delta(), max_delta());
    }
    ax * by - ay * bx
}

/// Computes the scalar product of two vectors of coordinate differences.
pub(crate) fn dot_exec(ax: i128, ay: i128, bx: i128, by: i128) -> (d: i128)
    requires
        -max_delta() <= ax <= max_delta(),
        -max_delta() <= ay <= max_delta(),
        -max_delta() <= bx <= max_delta(),
        -max_delta() <= by <= max_delta(),
    ensures
        d == ax * bx + ay * by,
        -2 * max_delta() * max_delta() <= d <= 2 * max_delta() * max_delta(),
{
    proof {
        lemma_product_bound(ax as int, bx as int, max_delta(), max_delta());
        lemma_product_bound(ay as int, by as int, max_delta(), max_delta());
    }
    ax * bx + ay * by
}

impl Point {
    pub fn new(x: i32, y: i32) -> (p: Point)
        ensures
            p == (Point { x, y }),
    {
        Point { x, y }
    }

    /// The squared distance to `other`.
    pub fn distance_squared(&self, other: &Point) -> (d: u128)
        ensures
            d == dist2(*self, *other),
            d <= 2 * max_delta() * max_delta(),
    {
        let dx: i128 = delta(self.x, other.x);
        let dy: i128 = delta(self.y, other.y);
        let d: i128 = dot_exec(dx, dy, dx, dy);
        proof {
            assert(dx * dx >= 0) by (nonlinear_arith);
            assert(dy * dy >= 0) by (nonlinear_arith);
        }
        d as u128
    }

    /// Whether `other` is at least `min` grid steps away.
    pub fn is_apart(&self, other: &Point, min: u32) -> (far: bool)
        ensures
            far == apart(*self, *other, min as int),
    {
        let d: u128 = self.distance_squared(other);
        let m: u128 = min as u128;
        proof {
            lemma_product_bound(min as int, min as int, max_delta(), max_delta());
        }
        d >= m * m
    }
}

} // verus!
