//! Taking roads and intersections out.

use vstd::prelude::*;
use crate::graph::{
    graph_edge_indices, graph_edges, graph_node_weight, graph_nodes, graph_remove_node,
};
use crate::math::point::Point;
use crate::network::{index_limit, lemma_slot_road, NodeId, RoadError, RoadId};
use crate::roadsystem::{lemma_sound_without, RoadIntersection, RoadSystem};

verus! {

impl RoadSystem {
    /// Takes out the road between two intersections: of the roads that join
    /// them, in either direction, the one in the lowest slot. The
    /// intersections stay, also where no road reaches them any more. A
    /// refused call changes nothing.
    pub fn disconnect_intersections(&mut self, intersection1: NodeId, intersection2: NodeId) -> (outcome:
        Result<RoadId, RoadError>)
        ensures
            match outcome {
                Ok(road) => {
                    &&& old(self)@.links(road, intersection1, intersection2)
                    &&& forall|other: RoadId|
                        other.index < road.index ==> !#[trigger] old(self)@.links(
                            other,
                            intersection1,
                            intersection2,
                        )
                    &&& final(self)@.roads == old(self)@.roads.remove(road)
                    &&& final(self)@.intersections == old(self)@.intersections
                    &&& final(self)@.issued == old(self)@.issued
                    &&& final(self)@.wf()
                },
                Err(why) => {
                    &&& final(self)@ == old(self)@
                    &&& why == if old(self)@.intersections.contains_key(intersection1) && old(
                        self,
                    )@.intersections.contains_key(intersection2) {
                        RoadError::RoadNotFound
                    } else {
                        RoadError::IntersectionNotFound
                    }
                    &&& forall|other: RoadId|
                        !#[trigger] old(self)@.links(other, intersection1, intersection2)
                },
            },
            old(self)@.outlived_by(final(self)@),
    {
        let ghost net = self@;
        proof {
            use_type_invariant(&*self);
            self.lemma_inv_is_wf();
        }
        if self.intersection(intersection1).is_none() || self.intersection(intersection2).is_none() {
            proof {
                assert forall|other: RoadId| !#[trigger] net.links(
                    other,
                    intersection1,
                    intersection2,
                ) by {
                    if net.roads.contains_key(other) {
                        assert(net.intersections.contains_key(net.roads[other].start));
                        assert(net.intersections.contains_key(net.roads[other].end));
                    }
                }
            }
            return Err(RoadError::IntersectionNotFound);
        }
        let ids: Vec<u32> = graph_edge_indices(&self.graph);
        let mut i: usize = 0;
        let ghost mut bound: nat = 0;
        while i < ids.len()
            invariant
                i <= ids@.len(),
                net == self@,
                net == old(self)@,
                net.wf(),
                self.lists_roads(ids@),
                i > 0 ==> bound == ids@[i - 1] + 1,
                i == 0 ==> bound == 0,
                forall|other: RoadId|
                    other.index < bound ==> !#[trigger] net.links(
                        other,
                        intersection1,
                        intersection2,
                    ),
            decreases ids@.len() - i,
        {
            let e: u32 = ids[i];
            proof {
                self.lemma_no_road(ids@, i as int, bound, e as nat);
            }
            let here: Option<RoadId> = self.road_in_slot(e);
            let joined: bool = match here {
                Some(road) => match self.road(road) {
                    Some(ends) => (ends.start == intersection1 && ends.end == intersection2) || (
                    ends.start == intersection2 && ends.end == intersection1),
                    None => false,
                },
                None => false,
            };
            proof {
                assert forall|other: RoadId| other.index <= e implies (#[trigger] net.links(
                    other,
                    intersection1,
                    intersection2,
                ) <==> joined && here == Some(other)) by {
                    if net.roads.contains_key(other) && other.index == e {
                        lemma_slot_road(net, other);
                    }
                }
            }
            match here {
                Some(road) => {
                    if joined {
                        self.remove_road(road);
                        return Ok(road);
                    }
                },
                None => {},
            }
            proof {
                bound = (e + 1) as nat;
            }
            i = i + 1;
        }
        proof {
            self.lemma_no_road(ids@, ids@.len() as int, bound, index_limit());
        }
        Err(RoadError::RoadNotFound)
    }

    /// Takes out an intersection and, with it, every road that ends there.
    /// A refused call changes nothing.
    pub fn remove_intersection(&mut self, intersection: NodeId) -> (outcome: Result<
        RoadIntersection,
        RoadError,
    >)
        ensures
            match outcome {
                Ok(was) => {
                    &&& old(self)@.intersections.contains_key(intersection)
                    &&& was.position == old(self)@.intersections[intersection]
                    &&& final(self)@ == old(self)@.without(intersection)
                    &&& final(self)@.wf()
                },
                Err(why) => {
                    &&& why == RoadError::IntersectionNotFound
                    &&& !old(self)@.intersections.contains_key(intersection)
                    &&& final(self)@ == old(self)@
                },
            },
            old(self)@.outlived_by(final(self)@),
    {
        proof {
            use_type_invariant(&*self);
            lemma_sound_without(
                graph_nodes(self.graph),
                graph_edges(self.graph),
                self.issued,
                intersection.index,
            );
        }
        let live: bool = match graph_node_weight(&self.graph, intersection.index) {
            Some(stored) => stored.2 == intersection.generation,
            None => false,
        };
        if !live {
            return Err(RoadError::IntersectionNotFound);
        }
        match graph_remove_node(&mut self.graph, intersection.index) {
            Some(stored) => {
                proof {
                    assert(self@.intersections =~= old(self)@.without(intersection).intersections);
                    assert(self@.roads =~= old(self)@.without(intersection).roads);
                    self.lemma_inv_is_wf();
                }
                Ok(RoadIntersection { position: Point { x: stored.0, y: stored.1 } })
            },
            None => {
                proof {
                    assert(false);
                }
                Err(RoadError::IntersectionNotFound)
            },
        }
    }
}

} // verus!
