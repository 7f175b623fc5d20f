//! Straight segments: where two of them cross, and their parallels.

use vstd::prelude::*;
use crate::math::arith::{
    div_round, div_round_exec, int_sqrt, lemma_div_round_between, lemma_int_sqrt, sqrt_floor,
};
use crate::math::operations::Intersects;
use crate::math::point::{delta, det, det_exec, dot_exec, lemma_product_bound, max_delta, Point};

verus! {

/// The segment from `point1` to `point2`.
#[derive(Clone, Copy, Debug, PartialEq, Eq, Structural)]
pub struct Line {
    pub point1: Point,
    pub point2: Point,
}

/// The common denominator of the two crossing parameters; zero exactly when
/// the segments are parallel, collinear or without length.
pub open spec fn denominator(a: Line, b: Line) -> int {
    det(
        a.point2.x - a.point1.x,
        a.point2.y - a.point1.y,
        b.point2.x - b.point1.x,
        b.point2.y - b.point1.y,
    )
}

/// The numerator of the parameter along `b`.
pub open spec fn numerator_s(a: Line, b: Line) -> int {
    det(
        a.point2.x - a.point1.x,
        a.point2.y - a.point1.y,
        a.point1.x - b.point1.x,
        a.point1.y - b.point1.y,
    )
}

/// The numerator of the parameter along `a`.
pub open spec fn numerator_t(a: Line, b: Line) -> int {
    det(
        b.point2.x - b.point1.x,
        b.point2.y - b.point1.y,
        a.point1.x - b.point1.x,
        a.point1.y - b.point1.y,
    )
}

/// Whether the fraction `num / den` exists and lies in `[0, 1]`.
pub open spec fn in_unit_interval(num: int, den: int) -> bool {
    if den > 0 {
        0 <= num <= den
    } else {
        den < 0 && den <= num <= 0
    }
}

/// Whether the two segments meet in exactly one point.
pub open spec fn segments_cross(a: Line, b: Line) -> bool {
    in_unit_interval(numerator_s(a, b), denominator(a, b)) && in_unit_interval(
        numerator_t(a, b),
        denominator(a, b),
    )
}

/// The grid point nearest to `from + (num / den) * (to - from)`.
pub open spec fn along(from: int, to: int, num: int, den: int) -> int {
    if den > 0 {
        from + div_round(num * (to - from), den)
    } else {
        from + div_round((-num) * (to - from), -den)
    }
}

/// The point where two segments cross, rounded to the grid.
pub open spec fn crossing(a: Line, b: Line) -> Option<Point> {
    if segments_cross(a, b) {
        Some(
            Point {
                x: along(
                    a.point1.x as int,
                    a.point2.x as int,
                    numerator_t(a, b),
                    denominator(a, b),
                ) as i32,
                y: along(
                    a.point1.y as int,
                    a.point2.y as int,
                    numerator_t(a, b),
                    denominator(a, b),
                ) as i32,
            },
        )
    } else {
        None
    }
}

/// A point a fraction in `[0, 1]` of the way from `from` to `to` lies between them.
pub proof fn lemma_along_between(from: int, to: int, num: int, den: int)
    requires
        in_unit_interval(num, den),
    ensures
        from <= to ==> from <= along(from, to, num, den) <= to,
        to <= from ==> to <= along(from, to, num, den) <= from,
{
    let n = if den > 0 { num } else { -num };
    let d = if den > 0 { den } else { -den };
    let step = to - from;
    assert(0 <= n <= d);
    if step >= 0 {
        assert(0 * d <= n * step <= step * d) by (nonlinear_arith)
            requires
                0 <= n <= d,
                step >= 0,
        ;
        lemma_div_round_between(n * step, d, 0, step);
    } else {
        assert(step * d <= n * step <= 0 * d) by (nonlinear_arith)
            requires
                0 <= n <= d,
                step < 0,
        ;
        lemma_div_round_between(n * step, d, step, 0);
    }
}

/// Segments that are not parallel cross exactly when both parameters,
/// `numerator_s / denominator` and `numerator_t / denominator`, lie in `[0, 1]`;
/// written without division, each numerator then has the denominator's sign and
/// does not exceed it in magnitude.
pub proof fn lemma_cross_iff_parameters_in_range(a: Line, b: Line)
    requires
        denominator(a, b) != 0,
    ensures
        crossing(a, b).is_some() <==> {
            let d = denominator(a, b);
            let s = numerator_s(a, b);
            let t = numerator_t(a, b);
            &&& 0 <= s * d <= d * d
            &&& 0 <= t * d <= d * d
        },
{
    let d = denominator(a, b);
    let s = numerator_s(a, b);
    let t = numerator_t(a, b);
    lemma_fraction_in_range(s, d);
    lemma_fraction_in_range(t, d);
}

/// For a non-zero denominator, `0 <= num / den <= 1` cleared of the division.
pub proof fn lemma_fraction_in_range(num: int, den: int)
    requires
        den != 0,
    ensures
        in_unit_interval(num, den) <==> 0 <= num * den <= den * den,
{
    if den > 0 {
        assert(0 <= num <==> 0 <= num * den) by (nonlinear_arith)
            requires
                den > 0,
        ;
        assert(num <= den <==> num * den <= den * den) by (nonlinear_arith)
            requires
                den > 0,
        ;
    } else {
        assert(num <= 0 <==> 0 <= num * den) by (nonlinear_arith)
            requires
                den < 0,
        ;
        assert(den <= num <==> num * den <= den * den) by (nonlinear_arith)
            requires
                den < 0,
        ;
    }
}

/// Parallel, collinear and zero-length segments never cross.
pub proof fn lemma_parallel_never_cross(a: Line, b: Line)
    requires
        denominator(a, b) == 0,
    ensures
        crossing(a, b).is_none(),
{
}

/// Whether `p` lies on the strip of half-width `reach` around the segment:
/// its foot on the segment's line falls between the ends, and it is no
/// farther than `reach` from that line. A segment without length has no strip.
pub open spec fn near_segment(p: Point, s: Line, reach: int) -> bool {
    let dx = s.point2.x - s.point1.x;
    let dy = s.point2.y - s.point1.y;
    let vx = p.x - s.point1.x;
    let vy = p.y - s.point1.y;
    let len2 = dx * dx + dy * dy;
    let along = vx * dx + vy * dy;
    let across = det(vx, vy, dx, dy);
    &&& len2 > 0
    &&& 0 <= along <= len2
    &&& across * across <= reach * reach * len2
}

/// Computes one coordinate of a crossing point.
fn along_exec(from: i32, to: i32, num: i128, den: i128) -> (c: i32)
    requires
        in_unit_interval(num as int, den as int),
        -2 * max_delta() * max_delta() <= den <= 2 * max_delta() * max_delta(),
    ensures
        c == along(from as int, to as int, num as int, den as int),
{
    let step: i128 = delta(to, from);
    let n: i128 = if den > 0 { num } else { -num };
    let d: i128 = if den > 0 { den } else { -den };
    proof {
        lemma_product_bound(n as int, step as int, 2 * max_delta() * max_delta(), max_delta());
        lemma_along_between(from as int, to as int, num as int, den as int);
    }
    let shift: i128 = div_round_exec(n * step, d);
    (from as i128 + shift) as i32
}

impl Line {
    pub fn new(point1: Point, point2: Point) -> (l: Line)
        ensures
            l == (Line { point1, point2 }),
    {
        Line { point1, point2 }
    }

    /// The point where this segment and `other` cross, if they meet in exactly
    /// one point; touching at an end counts.
    pub fn intersects_position(&self, other: &Line) -> (hit: Option<Point>)
        ensures
            hit == crossing(*self, *other),
            hit.is_some() <==> segments_cross(*self, *other),
    {
        let s1x: i128 = delta(self.point2.x, self.point1.x);
        let s1y: i128 = delta(self.point2.y, self.point1.y);
        let s2x: i128 = delta(other.point2.x, other.point1.x);
        let s2y: i128 = delta(other.point2.y, other.point1.y);
        let gx: i128 = delta(self.point1.x, other.point1.x);
        let gy: i128 = delta(self.point1.y, other.point1.y);
        let den: i128 = det_exec(s1x, s1y, s2x, s2y);
        if den == 0 {
            return None;
        }
        let s: i128 = det_exec(s1x, s1y, gx, gy);
        let t: i128 = det_exec(s2x, s2y, gx, gy);
        let s_in: bool = if den > 0 { 0 <= s && s <= den } else { den <= s && s <= 0 };
        let t_in: bool = if den > 0 { 0 <= t && t <= den } else { den <= t && t <= 0 };
        if s_in && t_in {
            Some(
                Point {
                    x: along_exec(self.point1.x, self.point2.x, t, den),
                    y: along_exec(self.point1.y, self.point2.y, t, den),
                },
            )
        } else {
            None
        }
    }

    /// Whether `p` lies on the strip of half-width `reach` around the segment.
    pub fn is_near(&self, p: &Point, reach: u16) -> (near: bool)
        ensures
            near == near_segment(*p, *self, reach as int),
    {
        let dx: i128 = delta(self.point2.x, self.point1.x);
        let dy: i128 = delta(self.point2.y, self.point1.y);
        let vx: i128 = delta(p.x, self.point1.x);
        let vy: i128 = delta(p.y, self.point1.y);
        let len2: i128 = dot_exec(dx, dy, dx, dy);
        let along: i128 = dot_exec(vx, vy, dx, dy);
        let across: i128 = det_exec(vx, vy, dx, dy);
        if len2 <= 0 || along < 0 || along > len2 {
            return false;
        }
        let wide: i128 = reach as i128;
        let limit: i128 = 0x2_0000_0000_0000;
        proof {
            lemma_product_bound(wide as int, wide as int, 0xFFFF, 0xFFFF);
            lemma_product_bound(
                wide * wide,
                len2 as int,
                0xFFFE_0001int,
                2 * max_delta() * max_delta(),
            );
            assert(wide * wide * len2 < limit * limit) by (nonlinear_arith)
                requires
                    wide * wide * len2 <= 0xFFFE_0001int * (2 * max_delta() * max_delta()),
                    limit == 0x2_0000_0000_0000,
                    max_delta() == 0xFFFF_FFFF,
            ;
        }
        if across >= limit || across <= -limit {
            proof {
                assert(across * across >= limit * limit) by (nonlinear_arith)
                    requires
                        across >= limit || across <= -limit,
                        limit > 0,
                ;
            }
            return false;
        }
        proof {
            lemma_product_bound(across as int, across as int, limit as int, limit as int);
        }
        across * across <= wide * wide * len2
    }
}

impl Intersects<Line> for Line {
    open spec fn intersects_spec(&self, other: &Line) -> bool {
        segments_cross(*self, *other)
    }

    fn intersects(&self, other: &Line) -> (hit: bool) {
        self.intersects_position(other).is_some()
    }
}

/// A shape that can be shifted sideways.
pub trait Parallel<T> {
    spec fn parralel_spec(&self, offset: i32) -> Option<T>;

    /// The shape moved `offset` grid steps at right angles to its direction;
    /// none where it has no direction or the result leaves the grid.
    fn parralel(&self, offset: i32) -> (shifted: Option<T>)
        ensures
            shifted == self.parralel_spec(offset),
    ;
}

/// The size of a number without its sign.
pub open spec fn magnitude(x: int) -> int {
    if x >= 0 {
        x
    } else {
        -x
    }
}

/// The whole number nearest to `a * offset / sqrt(n)`. No fraction is needed
/// to find it: twice its magnitude, rounded down, is the integer square root
/// of `4 * a * a * offset * offset / n`.
pub open spec fn scaled_part(a: int, offset: int, n: int) -> int {
    let doubled = int_sqrt((4 * (a * a) * (offset * offset)) / n);
    let size = (doubled + 1) / 2;
    if a * offset >= 0 {
        size
    } else {
        -size
    }
}

/// The sideways shift of a segment with direction `(vx, vy)`: the vector
/// `(-vy, vx)` scaled to the length `offset`, each part rounded to the
/// nearest grid step.
pub open spec fn sideways(vx: int, vy: int, offset: int) -> (int, int) {
    let n = vx * vx + vy * vy;
    (scaled_part(-vy, offset, n), scaled_part(vx, offset, n))
}

/// A part of a shift lies within half a step of `a * offset / sqrt(n)`:
/// written in squares, with `m` its magnitude,
/// `(2m - 1)^2 * n <= 4 * a^2 * offset^2 < (2m + 1)^2 * n`.
/// It has the sign of `a * offset`, and where `a * a <= n` it is no longer
/// than the offset.
pub proof fn lemma_scaled_part_nearest(a: int, offset: int, n: int)
    requires
        n >= 1,
    ensures
        ({
            let m = magnitude(scaled_part(a, offset, n));
            let w = 4 * (a * a) * (offset * offset);
            &&& w < (2 * m + 1) * (2 * m + 1) * n
            &&& m >= 1 ==> (2 * m - 1) * (2 * m - 1) * n <= w
            &&& a * a <= n ==> m <= magnitude(offset)
        }),
        a * offset >= 0 ==> scaled_part(a, offset, n) >= 0,
        a * offset <= 0 ==> scaled_part(a, offset, n) <= 0,
{
    let w = 4 * (a * a) * (offset * offset);
    assert(a * a >= 0) by (nonlinear_arith);
    assert(offset * offset >= 0) by (nonlinear_arith);
    assert(w >= 0) by (nonlinear_arith)
        requires
            w == 4 * (a * a) * (offset * offset),
            a * a >= 0,
            offset * offset >= 0,
    ;
    let q = w / n;
    vstd::arithmetic::div_mod::lemma_fundamental_div_mod(w, n);
    vstd::arithmetic::div_mod::lemma_mod_bound(w, n);
    vstd::arithmetic::div_mod::lemma_div_pos_is_pos(w, n);
    assert(n * q <= w < n * q + n);
    lemma_int_sqrt(q);
    let d = int_sqrt(q);
    let m = (d + 1) / 2;
    assert(2 * m <= d + 1 && d <= 2 * m);
    assert(m >= 0);
    assert(magnitude(scaled_part(a, offset, n)) == m);
    if a * offset == 0 {
        assert(w == 0) by (nonlinear_arith)
            requires
                w == 4 * (a * a) * (offset * offset),
                a * offset == 0,
        ;
        assert(q == 0);
        assert(d == 0) by (nonlinear_arith)
            requires
                0 <= d,
                d * d <= 0,
        ;
    }
    // above: the next odd number squared exceeds the quotient
    assert((2 * m + 1) * (2 * m + 1) >= (d + 1) * (d + 1)) by (nonlinear_arith)
        requires
            2 * m + 1 >= d + 1,
            d >= 0,
    ;
    assert((2 * m + 1) * (2 * m + 1) * n >= (q + 1) * n) by (nonlinear_arith)
        requires
            (2 * m + 1) * (2 * m + 1) >= q + 1,
            n >= 1,
    ;
    assert((q + 1) * n == n * q + n) by (nonlinear_arith);
    if m >= 1 {
        assert((2 * m - 1) * (2 * m - 1) <= d * d) by (nonlinear_arith)
            requires
                0 <= 2 * m - 1 <= d,
        ;
        assert((2 * m - 1) * (2 * m - 1) * n <= q * n) by (nonlinear_arith)
            requires
                (2 * m - 1) * (2 * m - 1) <= q,
                n >= 1,
        ;
        assert(q * n == n * q) by (nonlinear_arith);
        if a * a <= n {
            let o = magnitude(offset);
            assert(offset * offset == o * o) by (nonlinear_arith)
                requires
                    o == offset || o == -offset,
            ;
            assert(w <= 4 * n * (o * o)) by (nonlinear_arith)
                requires
                    w == 4 * (a * a) * (offset * offset),
                    offset * offset == o * o,
                    a * a <= n,
                    o * o >= 0,
            ;
            assert((2 * m - 1) * (2 * m - 1) <= 4 * (o * o)) by (nonlinear_arith)
                requires
                    (2 * m - 1) * (2 * m - 1) * n <= 4 * n * (o * o),
                    n >= 1,
            ;
            assert(2 * m - 1 <= 2 * o) by (nonlinear_arith)
                requires
                    (2 * m - 1) * (2 * m - 1) <= 4 * (o * o),
                    m >= 1,
                    o >= 0,
            ;
        }
    }
}

/// The shift has the length of the offset, up to the rounding of its two
/// parts: its squared length differs from `offset * offset` by no more than
/// twice the offset's magnitude.
pub proof fn lemma_sideways_length(vx: int, vy: int, offset: int)
    requires
        vx != 0 || vy != 0,
    ensures
        ({
            let shift = sideways(vx, vy, offset);
            let o = magnitude(offset);
            o * o - 2 * o <= shift.0 * shift.0 + shift.1 * shift.1 <= o * o + 2 * o
        }),
{
    let a = -vy;
    let b = vx;
    let n = vx * vx + vy * vy;
    assert(vx * vx >= 0 && vy * vy >= 0) by (nonlinear_arith);
    assert(n >= 1) by (nonlinear_arith)
        requires
            n == vx * vx + vy * vy,
            vx != 0 || vy != 0,
    ;
    assert(a * a == vy * vy) by (nonlinear_arith)
        requires
            a == -vy,
    ;
    let o = magnitude(offset);
    let o2 = offset * offset;
    assert(o2 == o * o) by (nonlinear_arith)
        requires
            o2 == offset * offset,
            o == offset || o == -offset,
    ;
    let sx = scaled_part(a, offset, n);
    let sy = scaled_part(b, offset, n);
    let mx = magnitude(sx);
    let my = magnitude(sy);
    lemma_scaled_part_nearest(a, offset, n);
    lemma_scaled_part_nearest(b, offset, n);
    assert(sx * sx == mx * mx) by (nonlinear_arith)
        requires
            mx == sx || mx == -sx,
    ;
    assert(sy * sy == my * my) by (nonlinear_arith)
        requires
            my == sy || my == -sy,
    ;
    let wa = 4 * (a * a) * o2;
    let wb = 4 * (b * b) * o2;
    assert(wa + wb == 4 * o2 * n) by (nonlinear_arith)
        requires
            wa == 4 * (a * a) * o2,
            wb == 4 * (b * b) * o2,
            n == b * b + a * a,
    ;
    let ux = if mx >= 1 { 2 * mx - 1 } else { 0 };
    let uy = if my >= 1 { 2 * my - 1 } else { 0 };
    assert(wa >= 0 && wb >= 0) by (nonlinear_arith)
        requires
            wa == 4 * (a * a) * o2,
            wb == 4 * (b * b) * o2,
            o2 == o * o,
    ;
    assert(ux * ux * n <= wa) by (nonlinear_arith)
        requires
            mx >= 1 ==> (2 * mx - 1) * (2 * mx - 1) * n <= wa,
            ux == if mx >= 1 { 2 * mx - 1 } else { 0 },
            wa >= 0,
    ;
    assert(uy * uy * n <= wb) by (nonlinear_arith)
        requires
            my >= 1 ==> (2 * my - 1) * (2 * my - 1) * n <= wb,
            uy == if my >= 1 { 2 * my - 1 } else { 0 },
            wb >= 0,
    ;
    assert(ux * ux + uy * uy <= 4 * o2) by (nonlinear_arith)
        requires
            ux * ux * n + uy * uy * n <= 4 * o2 * n,
            n >= 1,
    ;
    assert(ux <= 2 * o) by (nonlinear_arith)
        requires
            ux * ux + uy * uy <= 4 * (o * o),
            ux >= 0,
            o >= 0,
    ;
    assert(uy <= 2 * o) by (nonlinear_arith)
        requires
            ux * ux + uy * uy <= 4 * (o * o),
            uy >= 0,
            o >= 0,
    ;
    // from above
    assert(4 * (mx * mx) <= ux * ux + 2 * ux + 1) by (nonlinear_arith)
        requires
            0 <= 2 * mx <= ux + 1,
    ;
    assert(4 * (my * my) <= uy * uy + 2 * uy + 1) by (nonlinear_arith)
        requires
            0 <= 2 * my <= uy + 1,
    ;
    // from below
    let tx = (2 * mx + 1) * (2 * mx + 1);
    let ty = (2 * my + 1) * (2 * my + 1);
    assert(4 * o2 < tx + ty) by (nonlinear_arith)
        requires
            4 * o2 * n < tx * n + ty * n,
            n >= 1,
    ;
    assert(tx == 4 * (mx * mx) + 4 * mx + 1) by (nonlinear_arith)
        requires
            tx == (2 * mx + 1) * (2 * mx + 1),
    ;
    assert(ty == 4 * (my * my) + 4 * my + 1) by (nonlinear_arith)
        requires
            ty == (2 * my + 1) * (2 * my + 1),
    ;
    assert(a * a <= n && b * b <= n);
}

/// The shift is at right angles to the segment, up to the rounding of its
/// two parts: twice its scalar product with the direction is smaller than
/// the sum of the direction's two magnitudes.
pub proof fn lemma_sideways_upright(vx: int, vy: int, offset: int)
    requires
        vx != 0 || vy != 0,
    ensures
        ({
            let shift = sideways(vx, vy, offset);
            2 * magnitude(shift.0 * vx + shift.1 * vy) < magnitude(vx) + magnitude(vy)
        }),
{
    let n = vx * vx + vy * vy;
    assert(vx * vx >= 0 && vy * vy >= 0) by (nonlinear_arith);
    assert(n >= 1) by (nonlinear_arith)
        requires
            n == vx * vx + vy * vy,
            vx != 0 || vy != 0,
    ;
    let sx = scaled_part(-vy, offset, n);
    let sy = scaled_part(vx, offset, n);
    let mx = magnitude(sx);
    let my = magnitude(sy);
    let ca = magnitude(vy);
    let cb = magnitude(vx);
    let o2 = offset * offset;
    assert(o2 >= 0) by (nonlinear_arith)
        requires
            o2 == offset * offset,
    ;
    lemma_scaled_part_nearest(-vy, offset, n);
    lemma_scaled_part_nearest(vx, offset, n);
    assert((-vy) * (-vy) == ca * ca) by (nonlinear_arith)
        requires
            ca == vy || ca == -vy,
    ;
    assert(vx * vx == cb * cb) by (nonlinear_arith)
        requires
            cb == vx || cb == -vx,
    ;
    let wa = 4 * (ca * ca) * o2;
    let wb = 4 * (cb * cb) * o2;
    // the scalar product is, up to its sign, my * ca - mx * cb
    assert(magnitude(sx * vx + sy * vy) == magnitude(my * ca - mx * cb)) by {
        lemma_signs(vx, vy, offset, sx, sy, mx, my, ca, cb);
    }
    lemma_cross_bound(mx, my, ca, cb, wa, wb, o2, n);
    lemma_cross_bound(my, mx, cb, ca, wb, wa, o2, n);
}

/// With the signs that the two parts of a shift have, their scalar product
/// with the direction is, up to its sign, `my * |vy| - mx * |vx|`.
proof fn lemma_signs(vx: int, vy: int, offset: int, sx: int, sy: int, mx: int, my: int, ca: int, cb: int)
    requires
        mx == magnitude(sx),
        my == magnitude(sy),
        ca == magnitude(vy),
        cb == magnitude(vx),
        (-vy) * offset >= 0 ==> sx >= 0,
        (-vy) * offset <= 0 ==> sx <= 0,
        vx * offset >= 0 ==> sy >= 0,
        vx * offset <= 0 ==> sy <= 0,
    ensures
        magnitude(sx * vx + sy * vy) == magnitude(my * ca - mx * cb),
{
    if offset == 0 {
        assert((-vy) * offset == 0 && vx * offset == 0) by (nonlinear_arith)
            requires
                offset == 0,
        ;
        assert(sx == 0 && sy == 0);
        assert(sx * vx + sy * vy == 0 && my * ca - mx * cb == 0) by (nonlinear_arith)
            requires
                sx == 0,
                sy == 0,
                mx == 0,
                my == 0,
        ;
    } else {
        // the sign of sx is that of -vy * offset, the sign of sy that of vx * offset
        assert(offset > 0 ==> (vy > 0 ==> sx <= 0) && (vy < 0 ==> sx >= 0) && (vx > 0 ==> sy >= 0) && (
        vx < 0 ==> sy <= 0)) by (nonlinear_arith)
            requires
                (-vy) * offset >= 0 ==> sx >= 0,
                (-vy) * offset <= 0 ==> sx <= 0,
                vx * offset >= 0 ==> sy >= 0,
                vx * offset <= 0 ==> sy <= 0,
        ;
        assert(offset < 0 ==> (vy > 0 ==> sx >= 0) && (vy < 0 ==> sx <= 0) && (vx > 0 ==> sy <= 0) && (
        vx < 0 ==> sy >= 0)) by (nonlinear_arith)
            requires
                (-vy) * offset >= 0 ==> sx >= 0,
                (-vy) * offset <= 0 ==> sx <= 0,
                vx * offset >= 0 ==> sy >= 0,
                vx * offset <= 0 ==> sy <= 0,
        ;
        let t = my * ca - mx * cb;
        assert(sx * vx + sy * vy == t || sx * vx + sy * vy == -t) by (nonlinear_arith)
            requires
                t == my * ca - mx * cb,
                mx == sx || mx == -sx,
                my == sy || my == -sy,
                ca == vy || ca == -vy,
                cb == vx || cb == -vx,
                mx >= 0,
                my >= 0,
                ca >= 0,
                cb >= 0,
                offset > 0 ==> (vy > 0 ==> sx <= 0) && (vy < 0 ==> sx >= 0) && (vx > 0 ==> sy >= 0)
                    && (vx < 0 ==> sy <= 0),
                offset < 0 ==> (vy > 0 ==> sx >= 0) && (vy < 0 ==> sx <= 0) && (vx > 0 ==> sy <= 0)
                    && (vx < 0 ==> sy >= 0),
                offset != 0,
        ;
    }
}

/// Where `mx` is nearest to `ca * o / sqrt(n)` and `my` nearest to
/// `cb * o / sqrt(n)`, `2 * (mx * cb - my * ca) < ca + cb`.
proof fn lemma_cross_bound(mx: int, my: int, ca: int, cb: int, wa: int, wb: int, o2: int, n: int)
    requires
        n >= 1,
        mx >= 0,
        my >= 0,
        ca >= 0,
        cb >= 0,
        o2 >= 0,
        ca != 0 || cb != 0,
        wa == 4 * (ca * ca) * o2,
        wb == 4 * (cb * cb) * o2,
        mx >= 1 ==> (2 * mx - 1) * (2 * mx - 1) * n <= wa,
        wb < (2 * my + 1) * (2 * my + 1) * n,
    ensures
        2 * (mx * cb - my * ca) < ca + cb,
{
    let lo = 2 * mx - 1;
    let hi = 2 * my + 1;
    if mx >= 1 && cb > 0 {
        // lo^2 * n * cb^2 <= wa * cb^2 == wb * ca^2 < hi^2 * n * ca^2, unless ca is zero
        assert(wa * (cb * cb) == wb * (ca * ca)) by (nonlinear_arith)
            requires
                wa == 4 * (ca * ca) * o2,
                wb == 4 * (cb * cb) * o2,
        ;
        assert(lo * lo * n * (cb * cb) <= wa * (cb * cb)) by (nonlinear_arith)
            requires
                lo * lo * n <= wa,
                cb * cb >= 0,
        ;
        if ca == 0 {
            assert(wa == 0) by (nonlinear_arith)
                requires
                    wa == 4 * (ca * ca) * o2,
                    ca == 0,
            ;
            assert(lo * lo * n >= 1) by (nonlinear_arith)
                requires
                    lo >= 1,
                    n >= 1,
            ;
            assert(false);
        }
        assert(wb * (ca * ca) < hi * hi * n * (ca * ca)) by (nonlinear_arith)
            requires
                wb < hi * hi * n,
                ca >= 1,
        ;
        let p = lo * cb;
        let r = hi * ca;
        assert(lo * lo * n * (cb * cb) == (p * p) * n) by (nonlinear_arith)
            requires
                p == lo * cb,
        ;
        assert(hi * hi * n * (ca * ca) == (r * r) * n) by (nonlinear_arith)
            requires
                r == hi * ca,
        ;
        assert(p * p < r * r) by (nonlinear_arith)
            requires
                (p * p) * n < (r * r) * n,
                n >= 1,
        ;
        assert(p >= 0 && r >= 0) by (nonlinear_arith)
            requires
                p == lo * cb,
                r == hi * ca,
                lo >= 1,
                hi >= 1,
                ca >= 0,
                cb >= 0,
        ;
        assert(p < r) by (nonlinear_arith)
            requires
                p * p < r * r,
                p >= 0,
                r >= 0,
        ;
        assert(2 * (mx * cb - my * ca) == p - r + cb + ca) by (nonlinear_arith)
            requires
                p == (2 * mx - 1) * cb,
                r == (2 * my + 1) * ca,
        ;
    } else {
        assert(mx * cb == 0) by (nonlinear_arith)
            requires
                mx == 0 || cb == 0,
        ;
        assert(my * ca >= 0) by (nonlinear_arith)
            requires
                my >= 0,
                ca >= 0,
        ;
    }
}

/// What a parallel is. It is the segment moved as a whole: both ends are
/// shifted alike, so that it has the length and the direction of the
/// segment. The shift is as long as the offset and at right angles to the
/// segment, both up to the rounding of its two parts to the grid: its
/// squared length differs from the offset's square by no more than twice the
/// offset's magnitude, and twice its scalar product with the segment's
/// direction is smaller than the sum of the direction's two magnitudes.
pub proof fn lemma_parallel(line: Line, offset: i32)
    requires
        line.parralel_spec(offset).is_some(),
    ensures
        ({
            let moved = line.parralel_spec(offset).unwrap();
            let sx = moved.point1.x - line.point1.x;
            let sy = moved.point1.y - line.point1.y;
            let dx = line.point2.x - line.point1.x;
            let dy = line.point2.y - line.point1.y;
            let o = magnitude(offset as int);
            &&& moved.point2.x - line.point2.x == sx
            &&& moved.point2.y - line.point2.y == sy
            &&& moved.point2.x - moved.point1.x == dx
            &&& moved.point2.y - moved.point1.y == dy
            &&& o * o - 2 * o <= sx * sx + sy * sy <= o * o + 2 * o
            &&& 2 * magnitude(sx * dx + sy * dy) < magnitude(dx) + magnitude(dy)
        }),
{
    let vx = line.point1.x - line.point2.x;
    let vy = line.point1.y - line.point2.y;
    let shift = sideways(vx, vy, offset as int);
    lemma_sideways_length(vx, vy, offset as int);
    lemma_sideways_upright(vx, vy, offset as int);
    let dx = line.point2.x - line.point1.x;
    let dy = line.point2.y - line.point1.y;
    assert(shift.0 * dx + shift.1 * dy == -(shift.0 * vx + shift.1 * vy)) by (nonlinear_arith)
        requires
            dx == -vx,
            dy == -vy,
    ;
}

/// Computes one part of a sideways shift.
fn scaled_part_exec(a: i128, offset: i32, n: i128) -> (part: i128)
    requires
        -max_delta() <= a <= max_delta(),
        1 <= n,
        a * a <= n,
    ensures
        part == scaled_part(a as int, offset as int, n as int),
        -0x8000_0000 <= part <= 0x8000_0000,
{
    let size_a: u128 = if a >= 0 { a as u128 } else { (-a) as u128 };
    let wide: i128 = offset as i128;
    let size_o: u128 = if wide >= 0 { wide as u128 } else { (-wide) as u128 };
    proof {
        lemma_product_bound(size_a as int, size_a as int, max_delta(), max_delta());
        lemma_product_bound(size_o as int, size_o as int, 0x8000_0000, 0x8000_0000);
        lemma_product_bound(
            size_a * size_a,
            size_o * size_o,
            max_delta() * max_delta(),
            0x4000_0000_0000_0000,
        );
        assert(size_a * size_a == a * a) by (nonlinear_arith)
            requires
                size_a == a || size_a == -a,
        ;
        assert(size_o * size_o == offset * offset) by (nonlinear_arith)
            requires
                size_o == offset || size_o == -offset,
        ;
        assert(size_a * size_a >= 0 && size_o * size_o >= 0) by (nonlinear_arith);
        assert((size_a * size_a) * (size_o * size_o) >= 0) by (nonlinear_arith)
            requires
                size_a * size_a >= 0,
                size_o * size_o >= 0,
        ;
        assert(4 * ((size_a * size_a) * (size_o * size_o)) == 4 * (a * a) * (offset * offset))
            by (nonlinear_arith)
            requires
                size_a * size_a == a * a,
                size_o * size_o == offset * offset,
        ;
        lemma_scaled_part_nearest(a as int, offset as int, n as int);
    }
    let squares: u128 = (size_a * size_a) * (size_o * size_o);
    let w: u128 = 4 * squares;
    let q: u128 = w / (n as u128);
    let doubled: u64 = sqrt_floor(q);
    let size: u128 = (doubled as u128 + 1) / 2;
    let against: bool = (a < 0 && wide > 0) || (a > 0 && wide < 0);
    proof {
        assert(against <==> a * offset < 0) by (nonlinear_arith)
            requires
                against == ((a < 0 && wide > 0) || (a > 0 && wide < 0)),
                wide == offset,
        ;
    }
    if against {
        -(size as i128)
    } else {
        size as i128
    }
}

/// Whether a coordinate lies on the grid.
pub open spec fn on_grid(c: int) -> bool {
    i32::MIN <= c <= i32::MAX
}

impl Parallel<Line> for Line {
    open spec fn parralel_spec(&self, offset: i32) -> Option<Line> {
        let vx = self.point1.x - self.point2.x;
        let vy = self.point1.y - self.point2.y;
        let shift = sideways(vx, vy, offset as int);
        if (vx != 0 || vy != 0) && on_grid(self.point1.x + shift.0) && on_grid(
            self.point1.y + shift.1,
        ) && on_grid(self.point2.x + shift.0) && on_grid(self.point2.y + shift.1) {
            Some(
                Line {
                    point1: Point {
                        x: (self.point1.x + shift.0) as i32,
                        y: (self.point1.y + shift.1) as i32,
                    },
                    point2: Point {
                        x: (self.point2.x + shift.0) as i32,
                        y: (self.point2.y + shift.1) as i32,
                    },
                },
            )
        } else {
            None
        }
    }

    fn parralel(&self, offset: i32) -> (shifted: Option<Line>) {
        let vx: i128 = delta(self.point1.x, self.point2.x);
        let vy: i128 = delta(self.point1.y, self.point2.y);
        if vx == 0 && vy == 0 {
            return None;
        }
        let n: i128 = dot_exec(vx, vy, vx, vy);
        proof {
            assert(vx * vx >= 0) by (nonlinear_arith);
            assert(vy * vy >= 0) by (nonlinear_arith);
            assert(vx * vx + vy * vy >= 1) by (nonlinear_arith)
                requires
                    vx != 0 || vy != 0,
            ;
            assert((-vy) * (-vy) == vy * vy) by (nonlinear_arith);
        }
        let ox: i128 = scaled_part_exec(-vy, offset, n);
        let oy: i128 = scaled_part_exec(vx, offset, n);
        let x1: i128 = self.point1.x as i128 + ox;
        let y1: i128 = self.point1.y as i128 + oy;
        let x2: i128 = self.point2.x as i128 + ox;
        let y2: i128 = self.point2.y as i128 + oy;
        if fits(x1) && fits(y1) && fits(x2) && fits(y2) {
            Some(
                Line {
                    point1: Point { x: x1 as i32, y: y1 as i32 },
                    point2: Point { x: x2 as i32, y: y2 as i32 },
                },
            )
        } else {
            None
        }
    }
}

/// Whether a wide coordinate lies on the grid.
fn fits(c: i128) -> (ok: bool)
    ensures
        ok == on_grid(c as int),
{
    -2147483648 <= c && c <= 2147483647
}

} // verus!
