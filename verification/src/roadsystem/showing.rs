//! What there is to draw of a network.

use vstd::prelude::*;
use crate::graph::{graph_edge_indices, graph_node_indices};
use crate::math::line::{Line, Parallel};
use crate::math::point::{apart, Point};
use crate::network::{index_limit, lemma_markers_skip, lemma_segments_skip, NodeId};
use crate::roadsystem::{RoadSystem, ROAD_WIDTH};

verus! {

/// Roads shorter than this are not drawn: ten world units.
pub const MIN_DRAWN_LENGTH: u32 = 10_000;

/// The two long sides of the strip a road is drawn as, where it is drawn:
/// the road's own segment and its parallel at the distance `ROAD_WIDTH`.
pub open spec fn strip(road: Line) -> Option<(Line, Line)> {
    if apart(road.point1, road.point2, MIN_DRAWN_LENGTH as int) {
        match road.parralel_spec(ROAD_WIDTH as i32) {
            Some(side) => Some((road, side)),
            None => None,
        }
    } else {
        None
    }
}

/// The strip to draw for a road; none for one too short to draw, or whose
/// far side would leave the grid.
pub fn road_strip(road: &Line) -> (sides: Option<(Line, Line)>)
    ensures
        sides == strip(*road),
{
    if !road.point1.is_apart(&road.point2, MIN_DRAWN_LENGTH) {
        return None;
    }
    match road.parralel(ROAD_WIDTH as i32) {
        Some(side) => Some((*road, side)),
        None => None,
    }
}

/// What there is to draw: every intersection with its position, and the
/// segment of every road, both by rising index.
#[derive(Debug)]
pub struct Visuals {
    pub intersections: Vec<(NodeId, Point)>,
    pub roads: Vec<Line>,
}

/// Showing a network twice, with nothing changed in between, shows the same
/// both times: what `update` returns is fixed by the network alone.
pub proof fn lemma_update_repeatable(system: RoadSystem, first: Visuals, second: Visuals)
    requires
        first.intersections@ == system@.markers(),
        first.roads@ == system@.segments(),
        second.intersections@ == system@.markers(),
        second.roads@ == system@.segments(),
    ensures
        first.intersections@ == second.intersections@,
        first.roads@ == second.roads@,
{
}

impl RoadSystem {
    /// What there is to draw of the network as it stands: every
    /// intersection and every road exactly once (`lemma_markers_exact`,
    /// `lemma_segments_exact`).
    pub fn update(&self) -> (shown: Visuals)
        ensures
            shown.intersections@ == self@.markers(),
            shown.roads@ == self@.segments(),
    {
        proof {
            use_type_invariant(self);
            self.lemma_inv_is_wf();
        }
        let ghost net = self@;
        let node_ids: Vec<u32> = graph_node_indices(&self.graph);
        let mut intersections: Vec<(NodeId, Point)> = Vec::new();
        let mut i: usize = 0;
        let ghost mut bound: nat = 0;
        while i < node_ids.len()
            invariant
                i <= node_ids@.len(),
                net == self@,
                self.lists_nodes(node_ids@),
                i > 0 ==> bound == node_ids@[i - 1] + 1,
                i == 0 ==> bound == 0,
                intersections@ == net.markers_below(bound),
            decreases node_ids@.len() - i,
        {
            let n: u32 = node_ids[i];
            proof {
                self.lemma_no_node(node_ids@, i as int, bound, n as nat);
                lemma_markers_skip(net, bound, n as nat);
                assert(((n + 1) - 1) as u32 == n);
            }
            match self.node_in_slot(n) {
                Some(node) => match self.intersection(node) {
                    Some(found) => {
                        intersections.push((node, found.position));
                    },
                    None => {},
                },
                None => {},
            }
            proof {
                bound = (n + 1) as nat;
            }
            i = i + 1;
        }
        proof {
            self.lemma_no_node(node_ids@, node_ids@.len() as int, bound, index_limit());
            lemma_markers_skip(net, bound, index_limit());
        }
        let road_ids: Vec<u32> = graph_edge_indices(&self.graph);
        let mut roads: Vec<Line> = Vec::new();
        let mut j: usize = 0;
        let ghost mut reached: nat = 0;
        while j < road_ids.len()
            invariant
                j <= road_ids@.len(),
                net == self@,
                net.wf(),
                self.lists_roads(road_ids@),
                j > 0 ==> reached == road_ids@[j - 1] + 1,
                j == 0 ==> reached == 0,
                roads@ == net.segments_below(reached),
            decreases road_ids@.len() - j,
        {
            let e: u32 = road_ids[j];
            proof {
                self.lemma_no_road(road_ids@, j as int, reached, e as nat);
                lemma_segments_skip(net, reached, e as nat);
                assert(((e + 1) - 1) as u32 == e);
            }
            match self.road_in_slot(e) {
                Some(road) => match self.road(road) {
                    Some(ends) => match (
                        self.intersection(ends.start),
                        self.intersection(ends.end),
                    ) {
                        (Some(first), Some(second)) => {
                            roads.push(Line { point1: first.position, point2: second.position });
                        },
                        _ => {},
                    },
                    None => {},
                },
                None => {},
            }
            proof {
                reached = (e + 1) as nat;
            }
            j = j + 1;
        }
        proof {
            self.lemma_no_road(road_ids@, road_ids@.len() as int, reached, index_limit());
            lemma_segments_skip(net, reached, index_limit());
        }
        Visuals { intersections, roads }
    }
}

} // verus!
