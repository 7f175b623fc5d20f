//! Drawing a road: the crossings become junctions, the crossed roads are
//! cut in two.

use vstd::prelude::*;
use crate::crossings::lemma_crossings_sound;
use crate::math::point::Point;
use crate::network::{lemma_outlived_by_later, NodeId, Road, RoadError, RoadId};
use crate::roadsystem::{RoadIntersection, RoadSystem};
use crate::splitting::{
    chain_before, cuts_apart, junction_made, lemma_connected, lemma_cut_none, lemma_cut_one,
    lemma_nodes_grow, lemma_roads_grow, made_roads, nodes_grown, road_drawn, roads_cut,
    roads_grown, Connection, Junction,
};

verus! {

impl RoadSystem {
    /// Turns one crossing into a junction: adds the intersection, the piece
    /// of the new road that reaches it from `current`, and the two halves of
    /// the crossed road, which itself stays for now.
    fn make_junction(&mut self, current: NodeId, cut: (RoadId, Point)) -> (made: Junction)
        requires
            old(self)@.intersections.contains_key(current),
            old(self)@.roads.contains_key(cut.0),
            old(self)@.intersections.len() < u32::MAX,
            old(self)@.roads.len() + 3 <= u32::MAX,
            old(self)@.issued + 4 <= u64::MAX,
        ensures
            junction_made(old(self)@, final(self)@, current, cut, made),
            final(self)@.issued == old(self)@.issued + 4,
            final(self)@.wf(),
            old(self)@.outlived_by(final(self)@),
    {
        proof {
            use_type_invariant(&*self);
            self.lemma_inv_is_wf();
        }
        let ends: Road = match self.road(cut.0) {
            Some(ends) => ends,
            None => Road { start: current, end: current },
        };
        let node: NodeId = self.insert_intersection(RoadIntersection { position: cut.1 });
        let ghost staked = self@;
        let link: RoadId = self.add_road(current, node);
        let ghost linked = self@;
        let first_half: RoadId = self.add_road(ends.start, node);
        let ghost halved = self@;
        let second_half: RoadId = self.add_road(node, ends.end);
        proof {
            lemma_outlived_by_later(old(self)@, staked, linked);
            lemma_outlived_by_later(old(self)@, linked, halved);
            lemma_outlived_by_later(old(self)@, halved, self@);
        }
        Junction { node, crossed: cut.0, link, first_half, second_half }
    }

    /// Draws a road from `intersection1` to `intersection2`. Where it crosses
    /// existing roads, each crossing becomes an intersection, the crossed
    /// road is replaced by its two halves, and the new road runs in pieces
    /// through the new intersections. All additions are made before the
    /// crossed roads are taken out, so that no new road takes over the name
    /// of a crossed one. A refused call changes nothing.
    pub fn connect_intersections(&mut self, intersection1: NodeId, intersection2: NodeId) -> (outcome:
        Result<Connection, RoadError>)
        ensures
            road_drawn(old(self)@, final(self)@, intersection1, intersection2, outcome),
            old(self)@.outlived_by(final(self)@),
    {
        let ghost before = self@;
        proof {
            use_type_invariant(&*self);
            self.lemma_inv_is_wf();
        }
        let start: Point = match self.intersection(intersection1) {
            Some(found) => found.position,
            None => {
                return Err(RoadError::IntersectionNotFound);
            },
        };
        if self.intersection(intersection2).is_none() {
            return Err(RoadError::IntersectionNotFound);
        }
        if intersection1 == intersection2 {
            return Err(RoadError::SameIntersection);
        }
        let ghost line = before.span(intersection1, intersection2);
        let mut cuts: Vec<(RoadId, Point)> = self.find_intersections(intersection1, intersection2);
        self.sort_intersections_by_distance(&start, &mut cuts);
        proof {
            lemma_crossings_sound(before, line);
        }
        let k: usize = cuts.len();
        let nodes: usize = self.node_count();
        let roads: usize = self.edge_count();
        if (k > 0 && nodes as u128 + k as u128 > 0xFFFF_FFFF) || roads as u128 + 3 * (k as u128) + 1
            > 0xFFFF_FFFF || self.issued as u128 + 4 * (k as u128) + 1 > 0xFFFF_FFFF_FFFF_FFFF {
            return Err(RoadError::Full);
        }
        let mut junctions: Vec<Junction> = Vec::new();
        let mut current: NodeId = intersection2;
        let mut j: usize = 0;
        proof {
            assert(made_roads(junctions@).len() == 0);
        }
        while j < k
            invariant
                self@.wf(),
                before.wf(),
                j <= k,
                k == cuts@.len(),
                cuts@ == before.crossings(line),
                line == before.span(intersection1, intersection2),
                junctions@.len() == j,
                k > 0 ==> before.intersections.len() + k <= u32::MAX,
                before.roads.len() + 3 * k + 1 <= u32::MAX,
                before.issued + 4 * k + 1 <= u64::MAX,
                self@.issued == before.issued + 4 * j,
                before.outlived_by(self@),
                nodes_grown(before, self@, cuts@, junctions@),
                roads_grown(before, self@, intersection2, junctions@),
                current == chain_before(junctions@, intersection2, j as int),
                self@.intersections.contains_key(current),
            decreases k - j,
        {
            let ghost entry = self@;
            let ghost earlier = junctions@;
            let cut: (RoadId, Point) = cuts[k - 1 - j];
            proof {
                lemma_crossings_sound(before, line);
                assert(before.roads.contains_key(cut.0));
            }
            let made: Junction = self.make_junction(current, cut);
            junctions.push(made);
            proof {
                lemma_outlived_by_later(before, entry, self@);
                lemma_nodes_grow(before, entry, self@, cuts@, earlier, made);
                lemma_roads_grow(before, entry, self@, intersection2, earlier, cut, made);
            }
            current = made.node;
            j = j + 1;
        }
        let ghost grown = self@;
        proof {
            assert(self@.intersections.contains_key(intersection1));
            assert(current != intersection1) by {
                if j > 0 {
                    assert(!before.intersections.contains_key(junctions@[j - 1].node));
                }
            }
        }
        let closing: RoadId = self.add_road(current, intersection1);
        let ghost middle = self@;
        let ghost all = junctions@;
        proof {
            lemma_outlived_by_later(before, grown, middle);
            lemma_cut_none(middle, all);
            lemma_crossings_sound(before, line);
            assert(cuts_apart(middle, all)) by {
                assert forall|t: int| 0 <= t < all.len() implies middle.roads.contains_key(
                    (#[trigger] all[t]).crossed,
                ) by {
                    assert(all[t].crossed == cuts@[k - 1 - t].0);
                    assert(before.roads.contains_key(cuts@[k - 1 - t].0));
                    assert(grown.roads.contains_key(cuts@[k - 1 - t].0));
                }
                assert forall|a: int, b: int| 0 <= a < b < all.len() implies (
                #[trigger] all[a]).crossed != (#[trigger] all[b]).crossed by {
                    assert(all[a].crossed == cuts@[k - 1 - a].0);
                    assert(all[b].crossed == cuts@[k - 1 - b].0);
                }
            }
        }
        let mut i: usize = 0;
        while i < k
            invariant
                self@.wf(),
                i <= k,
                k == all.len(),
                junctions@ == all,
                cuts_apart(middle, all),
                roads_cut(middle, self@, all, i as int),
                self@.issued == middle.issued,
                before.outlived_by(self@),
            decreases k - i,
        {
            let ghost entry = self@;
            let crossed: RoadId = junctions[i].crossed;
            self.remove_road(crossed);
            proof {
                lemma_outlived_by_later(before, entry, self@);
                lemma_cut_one(middle, entry, self@, all, i as int);
            }
            i = i + 1;
        }
        proof {
            lemma_crossings_sound(before, line);
            assert forall|t: int| 0 <= t < all.len() implies before.roads.contains_key(
                (#[trigger] all[t]).crossed,
            ) by {
                assert(all[t].crossed == cuts@[k - 1 - t].0);
                assert(before.roads.contains_key(cuts@[k - 1 - t].0));
            }
            lemma_connected(
                before,
                grown,
                middle,
                self@,
                intersection1,
                intersection2,
                all,
                closing,
            );
        }
        Ok(Connection { junctions, closing })
    }
}

} // verus!
