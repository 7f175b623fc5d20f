//! The road system: intersections and the straight roads between them,
//! with the rules for drawing a new road across the ones that exist.
//!
//! Intersections are never merged: two may stand at the same place, and a
//! road drawn through a place where roads already end gets a junction of its
//! own for each of them. The editor keeps such roads out by asking
//! `valid_connection` first, which refuses every road that would leave a
//! piece shorter than `MIN_ROAD_LENGTH`.

pub mod drawing;
pub mod removal;
pub mod search;
pub mod showing;

use vstd::prelude::*;
use vstd::relations::injective_on;
use vstd::set_lib::lemma_map_size;
use petgraph::stable_graph::StableGraph;
use petgraph::Undirected;
use crate::graph::{
    edges_clear_of, graph_add_edge, graph_add_node, graph_edge_count, graph_edge_endpoints,
    graph_edge_weight, graph_edges, graph_new, graph_node_count, graph_node_weight, graph_nodes,
    graph_remove_edge,
};
use crate::math::point::Point;
use crate::network::{
    index_limit, lemma_gap, lemma_slot_node, lemma_slot_road, Network, NodeId, Road, RoadError,
    RoadId,
};

verus! {

/// The shortest road the network accepts: 300 world units.
pub const MIN_ROAD_LENGTH: u32 = 300_000;

/// Half the width of a road: how far from its middle line a point may lie
/// and still be on it. Five world units.
pub const ROAD_WIDTH: u16 = 5_000;

/// An intersection: a place where roads end or meet.
#[derive(Clone, Copy, Debug, PartialEq, Eq, Structural)]
pub struct RoadIntersection {
    pub position: Point,
}

impl RoadIntersection {
    pub fn new(position: Point) -> (intersection: RoadIntersection)
        ensures
            intersection == (RoadIntersection { position }),
    {
        RoadIntersection { position }
    }
}

/// The intersections and roads of one session.
pub struct RoadSystem {
    graph: StableGraph<(i32, i32, u64), u64, Undirected, u32>,
    /// How many generations were given out; the next name gets this one.
    issued: u64,
}

/// The name of the node stored in a slot.
spec fn node_name(nodes: Map<u32, (i32, i32, u64)>, index: u32) -> NodeId {
    NodeId { index, generation: nodes[index].2 }
}

/// The intersections stored in the graph, under their names.
spec fn lift_nodes(nodes: Map<u32, (i32, i32, u64)>) -> Map<NodeId, Point> {
    Map::new(
        |n: NodeId| nodes.contains_key(n.index) && nodes[n.index].2 == n.generation,
        |n: NodeId| Point { x: nodes[n.index].0, y: nodes[n.index].1 },
    )
}

/// The roads stored in the graph, under their names.
spec fn lift_edges(nodes: Map<u32, (i32, i32, u64)>, edges: Map<u32, (u32, u32, u64)>) -> Map<
    RoadId,
    Road,
> {
    Map::new(
        |r: RoadId| edges.contains_key(r.index) && edges[r.index].2 == r.generation,
        |r: RoadId|
            Road {
                start: node_name(nodes, edges[r.index].0),
                end: node_name(nodes, edges[r.index].1),
            },
    )
}

proof fn lemma_lift_nodes_finite(nodes: Map<u32, (i32, i32, u64)>)
    requires
        nodes.dom().finite(),
    ensures
        lift_nodes(nodes).dom().finite(),
        lift_nodes(nodes).dom().len() == nodes.dom().len(),
{
    let name = |k: u32| node_name(nodes, k);
    let named = lift_nodes(nodes).dom();
    assert(injective_on(name, nodes.dom()));
    assert forall|n: NodeId| named.contains(n) implies nodes.dom().map(name).contains(n) by {
        assert(nodes.dom().contains(n.index) && name(n.index) == n);
    }
    assert(nodes.dom().map(name) =~= named);
    lemma_map_size(nodes.dom(), named, name);
}

proof fn lemma_lift_edges_finite(nodes: Map<u32, (i32, i32, u64)>, edges: Map<u32, (u32, u32, u64)>)
    requires
        edges.dom().finite(),
    ensures
        lift_edges(nodes, edges).dom().finite(),
        lift_edges(nodes, edges).dom().len() == edges.dom().len(),
{
    let name = |k: u32| RoadId { index: k, generation: edges[k].2 };
    let named = lift_edges(nodes, edges).dom();
    assert(injective_on(name, edges.dom()));
    assert forall|r: RoadId| named.contains(r) implies edges.dom().map(name).contains(r) by {
        assert(edges.dom().contains(r.index) && name(r.index) == r);
    }
    assert(edges.dom().map(name) =~= named);
    lemma_map_size(edges.dom(), named, name);
}

/// What holds of the stored graph: it is finite, each edge joins two
/// different live nodes, and every generation stored was given out.
spec fn sound(nodes: Map<u32, (i32, i32, u64)>, edges: Map<u32, (u32, u32, u64)>, issued: u64) -> bool {
    &&& nodes.dom().finite()
    &&& edges.dom().finite()
    &&& forall|e: u32| #[trigger]
        edges.contains_key(e) ==> {
            &&& nodes.contains_key(edges[e].0)
            &&& nodes.contains_key(edges[e].1)
            &&& edges[e].0 != edges[e].1
            &&& edges[e].2 < issued
        }
    &&& forall|n: u32| #[trigger] nodes.contains_key(n) ==> nodes[n].2 < issued
}

/// A sound graph stays sound when a node leaves with the edges that end there.
proof fn lemma_sound_without(
    nodes: Map<u32, (i32, i32, u64)>,
    edges: Map<u32, (u32, u32, u64)>,
    issued: u64,
    a: u32,
)
    requires
        sound(nodes, edges, issued),
    ensures
        sound(nodes.remove(a), edges_clear_of(edges, a), issued),
        !nodes.contains_key(a) ==> sound(nodes.remove(a), edges, issued),
{
    vstd::set_lib::lemma_set_subset_finite(edges.dom(), edges_clear_of(edges, a).dom());
    if !nodes.contains_key(a) {
        assert(nodes.remove(a) =~= nodes);
    }
}

/// The roads of a sound graph keep their names and ends when a node is
/// added in a free slot.
proof fn lemma_roads_keep_ends(
    nodes: Map<u32, (i32, i32, u64)>,
    edges: Map<u32, (u32, u32, u64)>,
    issued: u64,
    index: u32,
    stored: (i32, i32, u64),
)
    requires
        sound(nodes, edges, issued),
        !nodes.contains_key(index),
    ensures
        lift_edges(nodes.insert(index, stored), edges) == lift_edges(nodes, edges),
{
    assert(lift_edges(nodes.insert(index, stored), edges) =~= lift_edges(nodes, edges));
}

impl View for RoadSystem {
    type V = Network;

    closed spec fn view(&self) -> Network {
        Network {
            intersections: lift_nodes(graph_nodes(self.graph)),
            roads: lift_edges(graph_nodes(self.graph), graph_edges(self.graph)),
            issued: self.issued as nat,
        }
    }
}

impl RoadSystem {
    /// What holds of the stored graph at all times.
    #[verifier::type_invariant]
    closed spec fn inv(&self) -> bool {
        sound(graph_nodes(self.graph), graph_edges(self.graph), self.issued)
    }

    /// The invariant of the stored graph is the well-formedness of the model.
    proof fn lemma_inv_is_wf(&self)
        requires
            self.inv(),
        ensures
            self@.wf(),
            self@.intersections.len() == graph_nodes(self.graph).dom().len(),
            self@.roads.len() == graph_edges(self.graph).dom().len(),
    {
        lemma_lift_nodes_finite(graph_nodes(self.graph));
        lemma_lift_edges_finite(graph_nodes(self.graph), graph_edges(self.graph));
        assert forall|r: RoadId| #[trigger] self@.roads.contains_key(r) implies {
            &&& self@.intersections.contains_key(self@.roads[r].start)
            &&& self@.intersections.contains_key(self@.roads[r].end)
            &&& self@.roads[r].start != self@.roads[r].end
            &&& r.generation < self@.issued
        } by {
            assert(graph_edges(self.graph).contains_key(r.index));
        }
    }

    /// Whether the list holds exactly the indices of the roads, rising.
    spec fn lists_roads(&self, ids: Seq<u32>) -> bool {
        &&& forall|a: int, b: int| 0 <= a < b < ids.len() ==> ids[a] < ids[b]
        &&& forall|k: u32| #[trigger] graph_edges(self.graph).contains_key(k) <==> ids.contains(k)
    }

    /// Whether the list holds exactly the indices of the intersections, rising.
    spec fn lists_nodes(&self, ids: Seq<u32>) -> bool {
        &&& forall|a: int, b: int| 0 <= a < b < ids.len() ==> ids[a] < ids[b]
        &&& forall|k: u32| #[trigger] graph_nodes(self.graph).contains_key(k) <==> ids.contains(k)
    }

    /// Between two neighbours of the list of roads there is no road.
    proof fn lemma_no_road(&self, ids: Seq<u32>, i: int, lo: nat, hi: nat)
        requires
            self.lists_roads(ids),
            0 <= i <= ids.len(),
            i > 0 ==> lo == ids[i - 1] + 1,
            i == 0 ==> lo == 0,
            i < ids.len() ==> hi == ids[i],
            i == ids.len() ==> hi == index_limit(),
        ensures
            lo <= hi <= index_limit(),
            forall|k: u32| lo <= k < hi ==> self@.slot_road(k).is_none(),
            forall|road: RoadId| lo <= road.index < hi ==> !self@.roads.contains_key(road),
    {
        assert forall|road: RoadId| lo <= road.index < hi implies !self@.roads.contains_key(
            road,
        ) by {
            lemma_gap(ids, i, road.index);
        }
        assert forall|k: u32| lo <= k < hi implies self@.slot_road(k).is_none() by {
            if self@.slot_road(k).is_some() {
                assert(self@.roads.contains_key(self@.slot_road(k).unwrap()));
            }
        }
        if 0 < i < ids.len() {
            assert(ids[i - 1] < ids[i]);
        }
    }

    /// Between two neighbours of the list of intersections there is none.
    proof fn lemma_no_node(&self, ids: Seq<u32>, i: int, lo: nat, hi: nat)
        requires
            self.lists_nodes(ids),
            0 <= i <= ids.len(),
            i > 0 ==> lo == ids[i - 1] + 1,
            i == 0 ==> lo == 0,
            i < ids.len() ==> hi == ids[i],
            i == ids.len() ==> hi == index_limit(),
        ensures
            lo <= hi <= index_limit(),
            forall|k: u32| lo <= k < hi ==> self@.slot_node(k).is_none(),
    {
        assert forall|node: NodeId| lo <= node.index < hi implies !self@.intersections.contains_key(
            node,
        ) by {
            lemma_gap(ids, i, node.index);
        }
        assert forall|k: u32| lo <= k < hi implies self@.slot_node(k).is_none() by {
            if self@.slot_node(k).is_some() {
                assert(self@.intersections.contains_key(self@.slot_node(k).unwrap()));
            }
        }
        if 0 < i < ids.len() {
            assert(ids[i - 1] < ids[i]);
        }
    }

    /// The name of the intersection in a slot, if there is one.
    fn node_in_slot(&self, index: u32) -> (found: Option<NodeId>)
        ensures
            found == self@.slot_node(index),
            found matches Some(node) ==> self@.intersections.contains_key(node) && node.index
                == index,
    {
        proof {
            use_type_invariant(self);
            self.lemma_inv_is_wf();
        }
        match graph_node_weight(&self.graph, index) {
            Some(stored) => {
                let node = NodeId { index, generation: stored.2 };
                proof {
                    lemma_slot_node(self@, node);
                }
                Some(node)
            },
            None => None,
        }
    }

    /// The name of the road in a slot, if there is one.
    fn road_in_slot(&self, index: u32) -> (found: Option<RoadId>)
        ensures
            found == self@.slot_road(index),
            found matches Some(road) ==> self@.roads.contains_key(road) && road.index == index,
    {
        proof {
            use_type_invariant(self);
            self.lemma_inv_is_wf();
        }
        match graph_edge_weight(&self.graph, index) {
            Some(generation) => {
                let road = RoadId { index, generation };
                proof {
                    lemma_slot_road(self@, road);
                }
                Some(road)
            },
            None => None,
        }
    }

    /// A road system without intersections or roads.
    pub fn new() -> (system: RoadSystem)
        ensures
            (system@.intersections == Map::<NodeId, Point>::empty()),
            (system@.roads == Map::<RoadId, Road>::empty()),
            system@.issued == 0,
            system@.wf(),
    {
        let system = RoadSystem { graph: graph_new(), issued: 0 };
        proof {
            assert(system@.intersections =~= Map::<NodeId, Point>::empty());
            assert(system@.roads =~= Map::<RoadId, Road>::empty());
            system.lemma_inv_is_wf();
        }
        system
    }

    /// How many names were given out so far.
    pub fn issued(&self) -> (n: u64)
        ensures
            n == self@.issued,
    {
        self.issued
    }

    /// The number of intersections.
    pub fn node_count(&self) -> (n: usize)
        ensures
            n == self@.intersections.len(),
            self@.wf(),
    {
        proof {
            use_type_invariant(self);
            self.lemma_inv_is_wf();
        }
        graph_node_count(&self.graph)
    }

    /// The number of roads.
    pub fn edge_count(&self) -> (n: usize)
        ensures
            n == self@.roads.len(),
            self@.wf(),
    {
        proof {
            use_type_invariant(self);
            self.lemma_inv_is_wf();
        }
        graph_edge_count(&self.graph)
    }

    /// The intersection of that name, if there is one.
    pub fn intersection(&self, id: NodeId) -> (found: Option<RoadIntersection>)
        ensures
            found == if self@.intersections.contains_key(id) {
                Some(RoadIntersection { position: self@.intersections[id] })
            } else {
                None
            },
    {
        match graph_node_weight(&self.graph, id.index) {
            Some(w) => if w.2 == id.generation {
                Some(RoadIntersection { position: Point { x: w.0, y: w.1 } })
            } else {
                None
            },
            None => None,
        }
    }

    /// The road of that name, if there is one.
    pub fn road(&self, id: RoadId) -> (found: Option<Road>)
        ensures
            found == if self@.roads.contains_key(id) {
                Some(self@.roads[id])
            } else {
                None
            },
    {
        proof {
            use_type_invariant(self);
        }
        let stored = graph_edge_weight(&self.graph, id.index);
        let ends = graph_edge_endpoints(&self.graph, id.index);
        match (stored, ends) {
            (Some(generation), Some(ends)) => {
                let start = graph_node_weight(&self.graph, ends.0);
                let end = graph_node_weight(&self.graph, ends.1);
                match (start, end) {
                    (Some(start), Some(end)) => if generation == id.generation {
                        Some(
                            Road {
                                start: NodeId { index: ends.0, generation: start.2 },
                                end: NodeId { index: ends.1, generation: end.2 },
                            },
                        )
                    } else {
                        None
                    },
                    _ => None,
                }
            },
            _ => None,
        }
    }

    /// Adds an intersection that no road reaches yet, under a name that was
    /// never in use. Nothing else changes.
    pub fn insert_intersection(&mut self, intersection: RoadIntersection) -> (id: NodeId)
        requires
            old(self)@.intersections.len() < u32::MAX,
            old(self)@.issued < u64::MAX,
        ensures
            !old(self)@.intersections.contains_key(id),
            id.generation == old(self)@.issued,
            final(self)@.intersections == old(self)@.intersections.insert(
                id,
                intersection.position,
            ),
            final(self)@.roads == old(self)@.roads,
            final(self)@.issued == old(self)@.issued + 1,
            final(self)@.wf(),
            old(self)@.outlived_by(final(self)@),
    {
        proof {
            use_type_invariant(&*self);
            self.lemma_inv_is_wf();
            assert forall|index: u32, stored: (i32, i32, u64)| !graph_nodes(self.graph).contains_key(
                index,
            ) implies #[trigger] lift_edges(
                graph_nodes(self.graph).insert(index, stored),
                graph_edges(self.graph),
            ) == lift_edges(graph_nodes(self.graph), graph_edges(self.graph)) by {
                lemma_roads_keep_ends(
                    graph_nodes(self.graph),
                    graph_edges(self.graph),
                    self.issued,
                    index,
                    stored,
                );
            }
        }
        let generation: u64 = self.issued;
        self.issued = generation + 1;
        let index: u32 = graph_add_node(
            &mut self.graph,
            intersection.position.x,
            intersection.position.y,
            generation,
        );
        let id = NodeId { index, generation };
        proof {
            assert(self@.intersections =~= old(self)@.intersections.insert(
                id,
                intersection.position,
            ));
            self.lemma_inv_is_wf();
        }
        id
    }

    /// Adds an intersection as `insert_intersection` does, unless the
    /// network has no index or no generation left for it; then nothing changes.
    pub fn try_insert_intersection(&mut self, intersection: RoadIntersection) -> (outcome: Result<
        NodeId,
        RoadError,
    >)
        ensures
            match outcome {
                Ok(id) => {
                    &&& old(self)@.intersections.len() < u32::MAX
                    &&& old(self)@.issued < u64::MAX
                    &&& !old(self)@.intersections.contains_key(id)
                    &&& id.generation == old(self)@.issued
                    &&& final(self)@.intersections == old(self)@.intersections.insert(
                        id,
                        intersection.position,
                    )
                    &&& final(self)@.roads == old(self)@.roads
                    &&& final(self)@.issued == old(self)@.issued + 1
                },
                Err(why) => {
                    &&& why == RoadError::Full
                    &&& old(self)@.intersections.len() >= u32::MAX || old(self)@.issued
                        >= u64::MAX
                    &&& final(self)@ == old(self)@
                },
            },
            final(self)@.wf(),
            old(self)@.outlived_by(final(self)@),
    {
        let nodes: usize = self.node_count();
        if nodes as u128 >= 0xFFFF_FFFF || self.issued >= 0xFFFF_FFFF_FFFF_FFFF {
            return Err(RoadError::Full);
        }
        Ok(self.insert_intersection(intersection))
    }

    /// Adds a road between two different intersections, under a name that
    /// was never in use.
    fn add_road(&mut self, start: NodeId, end: NodeId) -> (id: RoadId)
        requires
            old(self)@.intersections.contains_key(start),
            old(self)@.intersections.contains_key(end),
            start != end,
            old(self)@.roads.len() < u32::MAX,
            old(self)@.issued < u64::MAX,
        ensures
            !old(self)@.roads.contains_key(id),
            final(self)@.roads == old(self)@.roads.insert(id, Road { start, end }),
            final(self)@.intersections == old(self)@.intersections,
            final(self)@.issued == old(self)@.issued + 1,
            final(self)@.wf(),
            old(self)@.outlived_by(final(self)@),
    {
        proof {
            use_type_invariant(&*self);
            self.lemma_inv_is_wf();
            assert(start.index != end.index);
        }
        let generation: u64 = self.issued;
        self.issued = generation + 1;
        let index: u32 = graph_add_edge(&mut self.graph, start.index, end.index, generation);
        let id = RoadId { index, generation };
        proof {
            assert(self@.roads =~= old(self)@.roads.insert(id, Road { start, end }));
            self.lemma_inv_is_wf();
        }
        id
    }

    /// Takes a road out, if it is there, and says whether it was. The
    /// intersections stay.
    pub fn remove_road(&mut self, road: RoadId) -> (was_there: bool)
        ensures
            was_there == old(self)@.roads.contains_key(road),
            final(self)@.roads == old(self)@.roads.remove(road),
            final(self)@.intersections == old(self)@.intersections,
            final(self)@.issued == old(self)@.issued,
            final(self)@.wf(),
            old(self)@.outlived_by(final(self)@),
    {
        proof {
            use_type_invariant(&*self);
            self.lemma_inv_is_wf();
        }
        match graph_edge_weight(&self.graph, road.index) {
            Some(generation) => if generation == road.generation {
                graph_remove_edge(&mut self.graph, road.index);
                proof {
                    assert(self@.roads =~= old(self)@.roads.remove(road));
                    self.lemma_inv_is_wf();
                }
                true
            } else {
                proof {
                    assert(old(self)@.roads.remove(road) =~= old(self)@.roads);
                }
                false
            },
            None => {
                proof {
                    assert(old(self)@.roads.remove(road) =~= old(self)@.roads);
                }
                false
            },
        }
    }
}

} // verus!
