//! Closed polygons given by their corners in order.

use vstd::prelude::*;
use crate::math::arith::{div_round, div_round_exec};
use crate::math::line::{on_grid, segments_cross, Line};
use crate::math::operations::{Center, Inside, Intersects};
use crate::math::point::{lemma_product_bound, Point};

verus! {

/// The most corners a polygon may have and still be given a centre.
pub const MAX_CORNERS: usize = 0x1000_0000;

/// A polygon; its last corner is joined to its first.
#[derive(Clone, Debug)]
pub struct Polygon {
    points: Vec<Point>,
}

impl View for Polygon {
    type V = Seq<Point>;

    closed spec fn view(&self) -> Seq<Point> {
        self.points@
    }
}

/// The index of the corner after corner `i` of `n`, going round.
pub open spec fn following(i: int, n: int) -> int {
    if i + 1 == n {
        0
    } else {
        i + 1
    }
}

/// The side that leaves corner `i`.
pub open spec fn side(corners: Seq<Point>, i: int) -> Line {
    Line { point1: corners[i], point2: corners[following(i, corners.len() as int)] }
}

/// The sides of a closed polygon, one for each corner.
pub open spec fn sides(corners: Seq<Point>) -> Seq<Line> {
    Seq::new(corners.len(), |i: int| side(corners, i))
}

/// The shoelace term of the side from `p` to `q`.
pub open spec fn shoelace(p: Point, q: Point) -> int {
    p.x * q.y - q.x * p.y
}

/// Twice the signed area enclosed by the first `k` sides.
pub open spec fn area2(corners: Seq<Point>, k: nat) -> int
    decreases k,
{
    if k == 0 {
        0
    } else {
        let s = side(corners, k - 1);
        area2(corners, (k - 1) as nat) + shoelace(s.point1, s.point2)
    }
}

/// Six times the first moment about the y axis of the first `k` sides.
pub open spec fn moment_x(corners: Seq<Point>, k: nat) -> int
    decreases k,
{
    if k == 0 {
        0
    } else {
        let s = side(corners, k - 1);
        moment_x(corners, (k - 1) as nat) + (s.point1.x + s.point2.x) * shoelace(
            s.point1,
            s.point2,
        )
    }
}

/// Six times the first moment about the x axis of the first `k` sides.
pub open spec fn moment_y(corners: Seq<Point>, k: nat) -> int
    decreases k,
{
    if k == 0 {
        0
    } else {
        let s = side(corners, k - 1);
        moment_y(corners, (k - 1) as nat) + (s.point1.y + s.point2.y) * shoelace(
            s.point1,
            s.point2,
        )
    }
}

/// The quotient of a moment by three times the doubled area, rounded to the grid.
pub open spec fn balance(moment: int, doubled_area: int) -> int {
    if doubled_area > 0 {
        div_round(moment, 3 * doubled_area)
    } else {
        div_round(-moment, -3 * doubled_area)
    }
}

/// The centre of mass of the area a polygon encloses, rounded to the grid.
/// A polygon of fewer than three corners, of more than `MAX_CORNERS`, or
/// enclosing no area has none, and neither has one whose centre leaves the grid.
pub open spec fn centroid(corners: Seq<Point>) -> Option<Point> {
    let n = corners.len();
    let a = area2(corners, n);
    let cx = balance(moment_x(corners, n), a);
    let cy = balance(moment_y(corners, n), a);
    if 3 <= n <= MAX_CORNERS && a != 0 && on_grid(cx) && on_grid(cy) {
        Some(Point { x: cx as i32, y: cy as i32 })
    } else {
        None
    }
}

/// The ray from `p` to the right edge of the grid.
pub open spec fn ray(p: Point) -> Line {
    Line { point1: p, point2: Point { x: i32::MAX, y: p.y } }
}

/// How many of the first `k` sides the ray from `p` meets.
pub open spec fn ray_hits(p: Point, corners: Seq<Point>, k: nat) -> nat
    decreases k,
{
    if k == 0 {
        0
    } else {
        ray_hits(p, corners, (k - 1) as nat) + if segments_cross(ray(p), side(corners, k - 1)) {
            1nat
        } else {
            0nat
        }
    }
}

/// Whether `p` lies inside the polygon: the ray from it meets an odd number
/// of sides. A polygon of fewer than three corners has no inside.
pub open spec fn encloses(corners: Seq<Point>, p: Point) -> bool {
    corners.len() >= 3 && ray_hits(p, corners, corners.len()) % 2 == 1
}

/// Whether some side of the polygon crosses the segment.
pub open spec fn side_crosses(corners: Seq<Point>, line: Line) -> bool {
    exists|i: int| 0 <= i < corners.len() && segments_cross(#[trigger] side(corners, i), line)
}

/// Whether some side of the one polygon crosses some side of the other.
pub open spec fn sides_cross(a: Seq<Point>, b: Seq<Point>) -> bool {
    exists|i: int, j: int|
        0 <= i < a.len() && 0 <= j < b.len() && segments_cross(
            #[trigger] side(a, i),
            #[trigger] side(b, j),
        )
}

/// The shoelace term and the two moment terms of one side.
fn side_terms(p: Point, q: Point) -> (t: (i128, i128, i128))
    ensures
        t.0 == shoelace(p, q),
        t.1 == (p.x + q.x) * shoelace(p, q),
        t.2 == (p.y + q.y) * shoelace(p, q),
        -0x8000_0000_0000_0000 <= t.0 <= 0x8000_0000_0000_0000,
        -0x8000_0000_0000_0000_0000_0000 <= t.1 <= 0x8000_0000_0000_0000_0000_0000,
        -0x8000_0000_0000_0000_0000_0000 <= t.2 <= 0x8000_0000_0000_0000_0000_0000,
{
    let px: i128 = p.x as i128;
    let py: i128 = p.y as i128;
    let qx: i128 = q.x as i128;
    let qy: i128 = q.y as i128;
    proof {
        lemma_product_bound(px as int, qy as int, 0x8000_0000, 0x8000_0000);
        lemma_product_bound(qx as int, py as int, 0x8000_0000, 0x8000_0000);
    }
    let term: i128 = px * qy - qx * py;
    proof {
        lemma_product_bound(px + qx, term as int, 0x1_0000_0000, 0x8000_0000_0000_0000);
        lemma_product_bound(py + qy, term as int, 0x1_0000_0000, 0x8000_0000_0000_0000);
    }
    (term, (px + qx) * term, (py + qy) * term)
}

/// Computes one coordinate of a centre.
fn balance_exec(moment: i128, doubled_area: i128) -> (c: i128)
    requires
        doubled_area != 0,
        -0x800_0000_0000_0000_0000_0000_0000_0000 <= moment <= 0x800_0000_0000_0000_0000_0000_0000_0000,
        -0x800_0000_0000_0000_0000_0000 <= doubled_area <= 0x800_0000_0000_0000_0000_0000,
    ensures
        c == balance(moment as int, doubled_area as int),
{
    if doubled_area > 0 {
        div_round_exec(moment, 3 * doubled_area)
    } else {
        let mirrored: i128 = 0 - doubled_area;
        div_round_exec(0 - moment, 3 * mirrored)
    }
}

/// The sides of the polygon, one for each corner, the last one closing it.
pub fn convert_points_to_lines(polygon: &Polygon) -> (lines: Vec<Line>)
    ensures
        lines@ == sides(polygon@),
{
    let mut lines: Vec<Line> = Vec::new();
    let n: usize = polygon.points.len();
    let mut i: usize = 0;
    while i < n
        invariant
            n == polygon.points@.len(),
            i <= n,
            lines@.len() == i,
            forall|k: int| 0 <= k < i ==> lines@[k] == side(polygon.points@, k),
        decreases n - i,
    {
        let next: usize = if i + 1 == n { 0 } else { i + 1 };
        lines.push(Line { point1: polygon.points[i], point2: polygon.points[next] });
        i = i + 1;
    }
    assert(lines@ =~= sides(polygon@));
    lines
}

impl Polygon {
    /// The polygon with the given corners, in order.
    pub fn new(points: Vec<Point>) -> (polygon: Polygon)
        ensures
            polygon@ == points@,
    {
        Polygon { points }
    }

    /// The number of corners.
    pub fn len(&self) -> (n: usize)
        ensures
            n == self@.len(),
    {
        self.points.len()
    }
}

impl Center for Polygon {
    open spec fn center_spec(&self) -> Option<Point> {
        centroid(self@)
    }

    fn center(&self) -> (c: Option<Point>) {
        let n: usize = self.points.len();
        if n < 3 || n > MAX_CORNERS {
            return None;
        }
        let mut area: i128 = 0;
        let mut mx: i128 = 0;
        let mut my: i128 = 0;
        let mut i: usize = 0;
        while i < n
            invariant
                n == self.points@.len(),
                n <= MAX_CORNERS,
                i <= n,
                area == area2(self.points@, i as nat),
                mx == moment_x(self.points@, i as nat),
                my == moment_y(self.points@, i as nat),
                -0x8000_0000_0000_0000 * i <= area <= 0x8000_0000_0000_0000 * i,
                -0x8000_0000_0000_0000_0000_0000 * i <= mx <= 0x8000_0000_0000_0000_0000_0000 * i,
                -0x8000_0000_0000_0000_0000_0000 * i <= my <= 0x8000_0000_0000_0000_0000_0000 * i,
            decreases n - i,
        {
            let next: usize = if i + 1 == n { 0 } else { i + 1 };
            let t: (i128, i128, i128) = side_terms(self.points[i], self.points[next]);
            area = area + t.0;
            mx = mx + t.1;
            my = my + t.2;
            i = i + 1;
        }
        if area == 0 {
            return None;
        }
        let cx: i128 = balance_exec(mx, area);
        let cy: i128 = balance_exec(my, area);
        if -2147483648 <= cx && cx <= 2147483647 && -2147483648 <= cy && cy <= 2147483647 {
            Some(Point { x: cx as i32, y: cy as i32 })
        } else {
            None
        }
    }
}

impl Intersects<Line> for Polygon {
    open spec fn intersects_spec(&self, other: &Line) -> bool {
        side_crosses(self@, *other)
    }

    fn intersects(&self, other: &Line) -> (hit: bool) {
        let lines: Vec<Line> = convert_points_to_lines(self);
        let mut i: usize = 0;
        while i < lines.len()
            invariant
                lines@ == sides(self@),
                i <= lines@.len(),
                forall|k: int| 0 <= k < i ==> !segments_cross(#[trigger] side(self@, k), *other),
            decreases lines@.len() - i,
        {
            if lines[i].intersects(other) {
                assert(segments_cross(side(self@, i as int), *other));
                return true;
            }
            i = i + 1;
        }
        false
    }
}

impl Intersects<Polygon> for Polygon {
    open spec fn intersects_spec(&self, other: &Polygon) -> bool {
        sides_cross(self@, other@)
    }

    fn intersects(&self, other: &Polygon) -> (hit: bool) {
        let lines: Vec<Line> = convert_points_to_lines(self);
        let other_lines: Vec<Line> = convert_points_to_lines(other);
        let mut i: usize = 0;
        while i < lines.len()
            invariant
                lines@ == sides(self@),
                other_lines@ == sides(other@),
                i <= lines@.len(),
                forall|k: int, j: int|
                    0 <= k < i && 0 <= j < other@.len() ==> !segments_cross(
                        #[trigger] side(self@, k),
                        #[trigger] side(other@, j),
                    ),
            decreases lines@.len() - i,
        {
            let mut j: usize = 0;
            while j < other_lines.len()
                invariant
                    lines@ == sides(self@),
                    other_lines@ == sides(other@),
                    i < lines@.len(),
                    j <= other_lines@.len(),
                    forall|k: int, m: int|
                        0 <= k < i && 0 <= m < other@.len() ==> !segments_cross(
                            #[trigger] side(self@, k),
                            #[trigger] side(other@, m),
                        ),
                    forall|m: int|
                        0 <= m < j ==> !segments_cross(
                            side(self@, i as int),
                            #[trigger] side(other@, m),
                        ),
                decreases other_lines@.len() - j,
            {
                if lines[i].intersects(&other_lines[j]) {
                    assert(segments_cross(side(self@, i as int), side(other@, j as int)));
                    return true;
                }
                j = j + 1;
            }
            i = i + 1;
        }
        false
    }
}

impl Inside<Polygon> for Point {
    open spec fn inside_spec(&self, other_object: &Polygon) -> bool {
        encloses(other_object@, *self)
    }

    fn inside(&self, other_object: &Polygon) -> (within: bool) {
        let line: Line = Line { point1: *self, point2: Point { x: 2147483647, y: self.y } };
        let n: usize = other_object.points.len();
        if n < 3 {
            return false;
        }
        let mut count: usize = 0;
        let mut i: usize = 0;
        while i < n
            invariant
                n == other_object.points@.len(),
                i <= n,
                line == ray(*self),
                count == ray_hits(*self, other_object.points@, i as nat),
                count <= i,
            decreases n - i,
        {
            let next: usize = if i + 1 == n { 0 } else { i + 1 };
            let other: Line = Line {
                point1: other_object.points[i],
                point2: other_object.points[next],
            };
            if line.intersects(&other) {
                count = count + 1;
            }
            i = i + 1;
        }
        count % 2 != 0
    }
}

} // verus!
