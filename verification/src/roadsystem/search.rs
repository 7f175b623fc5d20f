//! Questions to the network that leave it as it is: what a segment
//! crosses, whether a road may be drawn, which road lies under a point.

use vstd::prelude::*;
use crate::crossings::{lemma_crossings_sound, lemma_hits_skip, slot, sorted_by_distance, stop};
use crate::graph::graph_edge_indices;
use crate::math::line::{crossing, Line};
use crate::math::point::{apart, dist2, Point};
use crate::network::{index_limit, lemma_slot_road, NodeId, Road, RoadId};
use crate::roadsystem::{RoadIntersection, RoadSystem, MIN_ROAD_LENGTH, ROAD_WIDTH};

verus! {

impl RoadSystem {
    /// Where the segment from `source` to `target` crosses the segment
    /// between two intersections; nothing if either intersection is missing.
    pub fn intersects(
        &self,
        source: &Point,
        target: &Point,
        other_source: NodeId,
        other_target: NodeId,
    ) -> (hit: Option<Point>)
        ensures
            hit == if self@.intersections.contains_key(other_source)
                && self@.intersections.contains_key(other_target) {
                crossing(
                    Line { point1: *source, point2: *target },
                    Line {
                        point1: self@.intersections[other_source],
                        point2: self@.intersections[other_target],
                    },
                )
            } else {
                None
            },
    {
        let a = self.intersection(other_source);
        let b = self.intersection(other_target);
        match (a, b) {
            (Some(a), Some(b)) => {
                let line = Line { point1: *source, point2: *target };
                let other = Line { point1: a.position, point2: b.position };
                line.intersects_position(&other)
            },
            _ => None,
        }
    }

    /// The crossings of the segment from `intersection1` to `intersection2`
    /// with the roads of the network, by rising road index; none if either
    /// intersection is missing.
    pub fn find_intersections(&self, intersection1: NodeId, intersection2: NodeId) -> (hits: Vec<
        (RoadId, Point),
    >)
        ensures
            hits@ == if self@.intersections.contains_key(intersection1)
                && self@.intersections.contains_key(intersection2) {
                self@.hits(
                    Line {
                        point1: self@.intersections[intersection1],
                        point2: self@.intersections[intersection2],
                    },
                )
            } else {
                Seq::empty()
            },
    {
        let source = self.intersection(intersection1);
        let target = self.intersection(intersection2);
        match (source, target) {
            (Some(s), Some(t)) => self.find_intersections_vec2(&s.position, &t.position),
            _ => Vec::new(),
        }
    }

    /// The crossings of the segment from `intersection1` to `intersection2`
    /// with the roads of the network, by rising road index.
    pub fn find_intersections_vec2(&self, intersection1: &Point, intersection2: &Point) -> (hits:
        Vec<(RoadId, Point)>)
        ensures
            hits@ == self@.hits(Line { point1: *intersection1, point2: *intersection2 }),
    {
        proof {
            use_type_invariant(self);
            self.lemma_inv_is_wf();
        }
        let ghost net = self@;
        let ghost line = Line { point1: *intersection1, point2: *intersection2 };
        let ids: Vec<u32> = graph_edge_indices(&self.graph);
        let mut hits: Vec<(RoadId, Point)> = Vec::new();
        let mut i: usize = 0;
        let ghost mut bound: nat = 0;
        while i < ids.len()
            invariant
                i <= ids@.len(),
                net == self@,
                net.wf(),
                line == (Line { point1: *intersection1, point2: *intersection2 }),
                self.lists_roads(ids@),
                i > 0 ==> bound == ids@[i - 1] + 1,
                i == 0 ==> bound == 0,
                hits@ == net.hits_below(line, bound),
            decreases ids@.len() - i,
        {
            let e: u32 = ids[i];
            proof {
                self.lemma_no_road(ids@, i as int, bound, e as nat);
                lemma_hits_skip(net, line, bound, e as nat);
                assert(((e + 1) - 1) as u32 == e);
            }
            match self.road_in_slot(e) {
                Some(road) => {
                    let hit: Option<Point> = match self.road(road) {
                        Some(ends) => self.intersects(
                            intersection1,
                            intersection2,
                            ends.start,
                            ends.end,
                        ),
                        None => None,
                    };
                    assert(hit == net.hit(line, road));
                    match hit {
                        Some(at) => {
                            hits.push((road, at));
                        },
                        None => {},
                    }
                },
                None => {},
            }
            proof {
                bound = (e + 1) as nat;
            }
            i = i + 1;
        }
        proof {
            self.lemma_no_road(ids@, ids@.len() as int, bound, index_limit());
            lemma_hits_skip(net, line, bound, index_limit());
        }
        hits
    }

    /// Orders crossings by their distance from the reference point, the
    /// nearest first; crossings at the same distance keep their order.
    pub fn sort_intersections_by_distance(
        &self,
        reference_intersection: &Point,
        intersections: &mut Vec<(RoadId, Point)>,
    )
        ensures
            final(intersections)@ == sorted_by_distance(
                *reference_intersection,
                old(intersections)@,
            ),
    {
        let ghost given = intersections@;
        let ghost reference = *reference_intersection;
        let mut sorted: Vec<(RoadId, Point)> = Vec::new();
        let n: usize = intersections.len();
        let mut i: usize = 0;
        while i < n
            invariant
                i <= n,
                n == given.len(),
                intersections@ == given,
                reference == *reference_intersection,
                sorted@ == sorted_by_distance(reference, given.take(i as int)),
            decreases n - i,
        {
            let x: (RoadId, Point) = intersections[i];
            let key: u128 = reference_intersection.distance_squared(&x.1);
            let mut j: usize = sorted.len();
            let mut searching: bool = true;
            proof {
                assert(sorted@.take(j as int) == sorted@);
            }
            while searching && j > 0
                invariant
                    j <= sorted@.len(),
                    reference == *reference_intersection,
                    key == dist2(reference, x.1),
                    slot(reference, sorted@, x) == slot(reference, sorted@.take(j as int), x),
                    !searching ==> j > 0 && dist2(reference, sorted@[j - 1].1) <= key,
                decreases j + if searching { 1int } else { 0int },
            {
                let d: u128 = reference_intersection.distance_squared(&sorted[j - 1].1);
                if d > key {
                    proof {
                        let front = sorted@.take(j as int);
                        assert(front.last() == sorted@[j - 1]);
                        assert(front.drop_last() == sorted@.take(j - 1));
                    }
                    j = j - 1;
                } else {
                    searching = false;
                }
            }
            proof {
                let front = sorted@.take(j as int);
                if j > 0 {
                    assert(front.last() == sorted@[j - 1]);
                }
                assert(slot(reference, front, x) == j);
                assert(given.take(i + 1).drop_last() == given.take(i as int));
                assert(given.take(i + 1).last() == x);
            }
            sorted.insert(j, x);
            i = i + 1;
        }
        proof {
            assert(given.take(n as int) == given);
        }
        *intersections = sorted;
    }

    /// Whether a road from `point1` to `point2` may be drawn: no piece it
    /// would leave, of itself or of a road it crosses, is shorter than
    /// `MIN_ROAD_LENGTH`. The network is not changed.
    pub fn valid_connection(&self, point1: &Point, point2: &Point) -> (valid: bool)
        ensures
            valid == self@.allows(
                Line { point1: *point1, point2: *point2 },
                MIN_ROAD_LENGTH as int,
            ),
    {
        let ghost net = self@;
        let ghost line = Line { point1: *point1, point2: *point2 };
        let ghost min = MIN_ROAD_LENGTH as int;
        let mut cuts: Vec<(RoadId, Point)> = self.find_intersections_vec2(point1, point2);
        self.sort_intersections_by_distance(point1, &mut cuts);
        proof {
            use_type_invariant(self);
            self.lemma_inv_is_wf();
            lemma_crossings_sound(net, line);
        }
        let k: usize = cuts.len();
        let mut current: Point = *point1;
        let mut i: usize = 0;
        while i < k
            invariant
                net == self@,
                net.wf(),
                line == (Line { point1: *point1, point2: *point2 }),
                min == MIN_ROAD_LENGTH as int,
                cuts@ == net.crossings(line),
                k == cuts@.len(),
                i <= k,
                current == stop(line, cuts@, i as int),
                forall|t: int| 0 <= t < k ==> net.roads.contains_key((#[trigger] cuts@[t]).0),
                forall|t: int|
                    0 <= t < i ==> apart(#[trigger] stop(line, cuts@, t), stop(line, cuts@, t + 1), min),
                forall|t: int| 0 <= t < i ==> net.halves_apart(#[trigger] cuts@[t], min),
            decreases k - i,
        {
            let cut: (RoadId, Point) = cuts[i];
            assert(cut.1 == stop(line, cuts@, i + 1));
            if !current.is_apart(&cut.1, MIN_ROAD_LENGTH) {
                assert(!apart(stop(line, cuts@, i as int), stop(line, cuts@, i + 1), min));
                return false;
            }
            assert(net.roads.contains_key(cut.0));
            let ends: Option<Road> = self.road(cut.0);
            let first: Option<RoadIntersection> = match ends {
                Some(ends) => self.intersection(ends.start),
                None => None,
            };
            let second: Option<RoadIntersection> = match ends {
                Some(ends) => self.intersection(ends.end),
                None => None,
            };
            let halves: bool = match (first, second) {
                (Some(first), Some(second)) => first.position.is_apart(&cut.1, MIN_ROAD_LENGTH)
                    && cut.1.is_apart(&second.position, MIN_ROAD_LENGTH),
                _ => false,
            };
            assert(halves == net.halves_apart(cut, min));
            if !halves {
                assert(!net.halves_apart(cuts@[i as int], min));
                return false;
            }
            current = cut.1;
            i = i + 1;
        }
        let last: bool = current.is_apart(point2, MIN_ROAD_LENGTH);
        proof {
            assert(*point2 == stop(line, cuts@, k + 1));
            if !last {
                assert(!apart(stop(line, cuts@, k as int), stop(line, cuts@, k + 1), min));
            }
        }
        last
    }

    /// The road under a point: the one in the lowest slot on whose strip, of
    /// half-width `ROAD_WIDTH`, the point lies.
    pub fn point_intersect_connection(&self, point: Point) -> (found: Option<RoadId>)
        ensures
            match found {
                Some(road) => {
                    &&& self@.touches(road, point, ROAD_WIDTH as int)
                    &&& forall|other: RoadId|
                        other.index < road.index ==> !#[trigger] self@.touches(
                            other,
                            point,
                            ROAD_WIDTH as int,
                        )
                },
                None => forall|other: RoadId| !#[trigger] self@.touches(
                    other,
                    point,
                    ROAD_WIDTH as int,
                ),
            },
            self@.wf(),
    {
        proof {
            use_type_invariant(self);
            self.lemma_inv_is_wf();
        }
        let ghost net = self@;
        let ids: Vec<u32> = graph_edge_indices(&self.graph);
        let mut i: usize = 0;
        let ghost mut bound: nat = 0;
        while i < ids.len()
            invariant
                i <= ids@.len(),
                net == self@,
                net.wf(),
                self.lists_roads(ids@),
                i > 0 ==> bound == ids@[i - 1] + 1,
                i == 0 ==> bound == 0,
                forall|other: RoadId|
                    other.index < bound ==> !#[trigger] net.touches(other, point, ROAD_WIDTH as int),
            decreases ids@.len() - i,
        {
            let e: u32 = ids[i];
            proof {
                self.lemma_no_road(ids@, i as int, bound, e as nat);
            }
            let here: Option<RoadId> = self.road_in_slot(e);
            let near: bool = match here {
                Some(road) => match self.road(road) {
                    Some(ends) => match (
                        self.intersection(ends.start),
                        self.intersection(ends.end),
                    ) {
                        (Some(first), Some(second)) => {
                            let segment = Line { point1: first.position, point2: second.position };
                            segment.is_near(&point, ROAD_WIDTH)
                        },
                        _ => false,
                    },
                    None => false,
                },
                None => false,
            };
            proof {
                assert forall|other: RoadId| other.index <= e implies (#[trigger] net.touches(
                    other,
                    point,
                    ROAD_WIDTH as int,
                ) <==> near && here == Some(other)) by {
                    if net.roads.contains_key(other) && other.index == e {
                        lemma_slot_road(net, other);
                    }
                }
            }
            if near {
                return here;
            }
            proof {
                bound = (e + 1) as nat;
            }
            i = i + 1;
        }
        proof {
            self.lemma_no_road(ids@, ids@.len() as int, bound, index_limit());
        }
        None
    }

    /// Whether no road ends at the intersection.
    pub fn is_isolated(&self, node: NodeId) -> (alone: bool)
        ensures
            alone == self@.isolated(node),
    {
        proof {
            use_type_invariant(self);
            self.lemma_inv_is_wf();
        }
        let ghost net = self@;
        let ids: Vec<u32> = graph_edge_indices(&self.graph);
        let mut i: usize = 0;
        let ghost mut bound: nat = 0;
        while i < ids.len()
            invariant
                i <= ids@.len(),
                net == self@,
                net.wf(),
                self.lists_roads(ids@),
                i > 0 ==> bound == ids@[i - 1] + 1,
                i == 0 ==> bound == 0,
                forall|road: RoadId|
                    road.index < bound && #[trigger] net.roads.contains_key(road)
                        ==> net.roads[road].start != node && net.roads[road].end != node,
            decreases ids@.len() - i,
        {
            let e: u32 = ids[i];
            proof {
                self.lemma_no_road(ids@, i as int, bound, e as nat);
            }
            let here: Option<RoadId> = self.road_in_slot(e);
            let ends_here: bool = match here {
                Some(road) => match self.road(road) {
                    Some(ends) => ends.start == node || ends.end == node,
                    None => false,
                },
                None => false,
            };
            if ends_here {
                assert(net.roads.contains_key(here.unwrap()));
                return false;
            }
            proof {
                assert forall|road: RoadId|
                    road.index < e + 1 && #[trigger] net.roads.contains_key(
                        road,
                    ) implies net.roads[road].start != node && net.roads[road].end != node by {
                    if road.index == e {
                        lemma_slot_road(net, road);
                    }
                }
                bound = (e + 1) as nat;
            }
            i = i + 1;
        }
        proof {
            self.lemma_no_road(ids@, ids@.len() as int, bound, index_limit());
        }
        true
    }
}

} // verus!
