//! The mathematical model of a road network: what is in it, under which
//! names, and what it means for a name to be gone.

use vstd::prelude::*;
use crate::math::line::{near_segment, Line};
use crate::math::point::Point;

verus! {

/// The name of an intersection: the index of its slot in the network, and
/// the generation it was given when it was added. A slot is used again once
/// it is free; a generation never is, so a name is good for one intersection
/// only and stays unknown once that one is gone.
#[derive(Clone, Copy, Debug, PartialEq, Eq, Structural)]
pub struct NodeId {
    pub index: u32,
    pub generation: u64,
}

/// The name of a road: the index of its slot in the network, and the
/// generation it was given when it was added.
#[derive(Clone, Copy, Debug, PartialEq, Eq, Structural)]
pub struct RoadId {
    pub index: u32,
    pub generation: u64,
}

/// A road joins two intersections and has no position of its own.
#[derive(Clone, Copy, Debug, PartialEq, Eq, Structural)]
pub struct Road {
    pub start: NodeId,
    pub end: NodeId,
}

/// Why an operation left the road system as it was.
#[derive(Clone, Copy, Debug, PartialEq, Eq, Structural)]
pub enum RoadError {
    /// An intersection named in the call is not in the network.
    IntersectionNotFound,
    /// No road of the network is the one asked for.
    RoadNotFound,
    /// A road must join two different intersections.
    SameIntersection,
    /// The network has no index or no generation left for what would be added.
    Full,
}

/// What a road system holds: its intersections with their positions, its
/// roads with the intersections they join, and the number of generations
/// given out so far.
pub struct Network {
    pub intersections: Map<NodeId, Point>,
    pub roads: Map<RoadId, Road>,
    pub issued: nat,
}

/// One more than the largest index a slot can have.
pub open spec fn index_limit() -> nat {
    0x1_0000_0000
}

impl Network {
    /// No road dangles or loops: each joins two different intersections of
    /// the network. There are finitely many of both, no two in one slot, and
    /// each has a generation that was given out.
    pub open spec fn wf(self) -> bool {
        &&& self.intersections.dom().finite()
        &&& self.roads.dom().finite()
        &&& forall|r: RoadId| #[trigger]
            self.roads.contains_key(r) ==> {
                &&& self.intersections.contains_key(self.roads[r].start)
                &&& self.intersections.contains_key(self.roads[r].end)
                &&& self.roads[r].start != self.roads[r].end
                &&& r.generation < self.issued
            }
        &&& forall|n: NodeId| #[trigger]
            self.intersections.contains_key(n) ==> n.generation < self.issued
        &&& forall|a: RoadId, b: RoadId|
            #[trigger] self.roads.contains_key(a) && #[trigger] self.roads.contains_key(b)
                && a.index == b.index ==> a == b
        &&& forall|a: NodeId, b: NodeId|
            #[trigger] self.intersections.contains_key(a)
                && #[trigger] self.intersections.contains_key(b) && a.index == b.index ==> a
                == b
    }

    /// The road in the slot of that index, if there is one.
    pub open spec fn slot_road(self, index: u32) -> Option<RoadId> {
        if exists|g: u64| self.roads.contains_key(RoadId { index, generation: g }) {
            Some(
                RoadId {
                    index,
                    generation: choose|g: u64|
                        self.roads.contains_key(RoadId { index, generation: g }),
                },
            )
        } else {
            None
        }
    }

    /// The intersection in the slot of that index, if there is one.
    pub open spec fn slot_node(self, index: u32) -> Option<NodeId> {
        if exists|g: u64| self.intersections.contains_key(NodeId { index, generation: g }) {
            Some(
                NodeId {
                    index,
                    generation: choose|g: u64|
                        self.intersections.contains_key(NodeId { index, generation: g }),
                },
            )
        } else {
            None
        }
    }

    /// Whether everything that is gone from this network is gone from the
    /// later one too: no name that was given out and is not in use here is
    /// in use there.
    pub open spec fn outlived_by(self, later: Network) -> bool {
        &&& self.issued <= later.issued
        &&& forall|n: NodeId| #[trigger]
            later.intersections.contains_key(n) && n.generation < self.issued
                ==> self.intersections.contains_key(n)
        &&& forall|r: RoadId| #[trigger]
            later.roads.contains_key(r) && r.generation < self.issued ==> self.roads.contains_key(
                r,
            )
    }

    /// The segment a road covers, from its start to its end.
    pub open spec fn segment(self, road: RoadId) -> Line {
        Line {
            point1: self.intersections[self.roads[road].start],
            point2: self.intersections[self.roads[road].end],
        }
    }

    /// The segment between two intersections.
    pub open spec fn span(self, from: NodeId, to: NodeId) -> Line {
        Line { point1: self.intersections[from], point2: self.intersections[to] }
    }

    /// Whether the road exists and `p` lies on the strip around it.
    pub open spec fn touches(self, road: RoadId, p: Point, reach: int) -> bool {
        self.roads.contains_key(road) && near_segment(p, self.segment(road), reach)
    }

    /// Whether the road exists and joins the two intersections.
    pub open spec fn links(self, road: RoadId, a: NodeId, b: NodeId) -> bool {
        self.roads.contains_key(road) && joins(self.roads[road], a, b)
    }

    /// The network without an intersection and the roads that end there.
    pub open spec fn without(self, node: NodeId) -> Network {
        Network {
            intersections: self.intersections.remove(node),
            roads: Map::new(
                |r: RoadId|
                    self.roads.contains_key(r) && self.roads[r].start != node && self.roads[r].end
                        != node,
                |r: RoadId| self.roads[r],
            ),
            issued: self.issued,
        }
    }

    /// Whether no road ends at the intersection.
    pub open spec fn isolated(self, node: NodeId) -> bool {
        forall|road: RoadId| #[trigger]
            self.roads.contains_key(road) ==> self.roads[road].start != node
                && self.roads[road].end != node
    }

    /// The intersections whose index is below `bound`, by rising index.
    pub open spec fn markers_below(self, bound: nat) -> Seq<(NodeId, Point)>
        decreases bound,
    {
        if bound == 0 {
            Seq::empty()
        } else {
            let before = self.markers_below((bound - 1) as nat);
            match self.slot_node((bound - 1) as u32) {
                Some(node) => before.push((node, self.intersections[node])),
                None => before,
            }
        }
    }

    /// Every intersection with its position, by rising index.
    pub open spec fn markers(self) -> Seq<(NodeId, Point)> {
        self.markers_below(index_limit())
    }

    /// The segments of the roads whose index is below `bound`, by rising index.
    pub open spec fn segments_below(self, bound: nat) -> Seq<Line>
        decreases bound,
    {
        if bound == 0 {
            Seq::empty()
        } else {
            let before = self.segments_below((bound - 1) as nat);
            match self.slot_road((bound - 1) as u32) {
                Some(road) => before.push(self.segment(road)),
                None => before,
            }
        }
    }

    /// The segment of every road, by rising index.
    pub open spec fn segments(self) -> Seq<Line> {
        self.segments_below(index_limit())
    }

    /// The roads whose index is below `bound`, by rising index.
    pub open spec fn road_list_below(self, bound: nat) -> Seq<RoadId>
        decreases bound,
    {
        if bound == 0 {
            Seq::empty()
        } else {
            let before = self.road_list_below((bound - 1) as nat);
            match self.slot_road((bound - 1) as u32) {
                Some(road) => before.push(road),
                None => before,
            }
        }
    }

    /// Every road, by rising index.
    pub open spec fn road_list(self) -> Seq<RoadId> {
        self.road_list_below(index_limit())
    }
}

/// Whether the road joins the two intersections, in either direction.
pub open spec fn joins(road: Road, a: NodeId, b: NodeId) -> bool {
    (road.start == a && road.end == b) || (road.start == b && road.end == a)
}

/// The road in a slot is a road of the network, and the only one there.
pub proof fn lemma_slot_road(net: Network, road: RoadId)
    requires
        net.wf(),
        net.roads.contains_key(road),
    ensures
        net.slot_road(road.index) == Some(road),
{
    assert(net.roads.contains_key(RoadId { index: road.index, generation: road.generation }));
    let found = net.slot_road(road.index).unwrap();
    assert(net.roads.contains_key(found));
}

/// The intersection in a slot is one of the network, and the only one there.
pub proof fn lemma_slot_node(net: Network, node: NodeId)
    requires
        net.wf(),
        net.intersections.contains_key(node),
    ensures
        net.slot_node(node.index) == Some(node),
{
    assert(net.intersections.contains_key(
        NodeId { index: node.index, generation: node.generation },
    ));
    let found = net.slot_node(node.index).unwrap();
    assert(net.intersections.contains_key(found));
}

/// What is gone stays gone: if nothing that is gone from the first network
/// is back in the second, and nothing that is gone from the second is back
/// in the third, then nothing that is gone from the first is back in the
/// third.
pub proof fn lemma_outlived_by_later(first: Network, second: Network, third: Network)
    requires
        first.outlived_by(second),
        second.outlived_by(third),
    ensures
        first.outlived_by(third),
{
    assert forall|n: NodeId| #[trigger]
        third.intersections.contains_key(n) && n.generation
        < first.issued implies first.intersections.contains_key(n) by {
        assert(second.intersections.contains_key(n));
    }
    assert forall|r: RoadId| #[trigger]
        third.roads.contains_key(r) && r.generation < first.issued implies first.roads.contains_key(
        r,
    ) by {
        assert(second.roads.contains_key(r));
    }
}

/// A name that is gone from a network is in no network that outlives it.
pub proof fn lemma_gone_for_good(net: Network, later: Network, node: NodeId)
    requires
        net.outlived_by(later),
        node.generation < net.issued,
        !net.intersections.contains_key(node),
    ensures
        !later.intersections.contains_key(node),
{
}

/// What is shown of the intersections is true: each entry is an
/// intersection of the network with its position, and the entries rise in
/// index, so that none comes twice.
pub proof fn lemma_markers_below(net: Network, bound: nat)
    requires
        bound <= index_limit(),
    ensures
        forall|i: int|
            0 <= i < net.markers_below(bound).len() ==> {
                let shown = #[trigger] net.markers_below(bound)[i];
                &&& shown.0.index < bound
                &&& net.intersections.contains_key(shown.0)
                &&& shown.1 == net.intersections[shown.0]
            },
        forall|i: int, j: int|
            0 <= i < j < net.markers_below(bound).len() ==> net.markers_below(bound)[i].0.index
                < net.markers_below(bound)[j].0.index,
        net.markers_below(bound).len() <= bound,
    decreases bound,
{
    if bound > 0 {
        lemma_markers_below(net, (bound - 1) as nat);
    }
}

/// No intersection is left out of what is shown.
pub proof fn lemma_markers_complete(net: Network, bound: nat, node: NodeId)
    requires
        net.wf(),
        bound <= index_limit(),
        node.index < bound,
        net.intersections.contains_key(node),
    ensures
        exists|i: int|
            0 <= i < net.markers_below(bound).len() && net.markers_below(bound)[i] == (
                node,
                net.intersections[node],
            ),
    decreases bound,
{
    let listed = net.markers_below(bound);
    if node.index == bound - 1 {
        lemma_slot_node(net, node);
        assert(listed[listed.len() - 1] == (node, net.intersections[node]));
    } else {
        lemma_markers_complete(net, (bound - 1) as nat, node);
        let before = net.markers_below((bound - 1) as nat);
        let i = choose|i: int|
            0 <= i < before.len() && before[i] == (node, net.intersections[node]);
        assert(listed[i] == before[i]);
    }
}

/// Every intersection is shown exactly once: each entry of `markers` is an
/// intersection with its position, no two entries are of the same
/// intersection, and every intersection has an entry.
pub proof fn lemma_markers_exact(net: Network)
    requires
        net.wf(),
    ensures
        forall|i: int|
            0 <= i < net.markers().len() ==> net.intersections.contains_key(
                (#[trigger] net.markers()[i]).0,
            ) && net.markers()[i].1 == net.intersections[net.markers()[i].0],
        forall|i: int, j: int|
            0 <= i < j < net.markers().len() ==> (#[trigger] net.markers()[i]).0 != (
            #[trigger] net.markers()[j]).0,
        forall|node: NodeId| #[trigger]
            net.intersections.contains_key(node) ==> net.markers().contains(
                (node, net.intersections[node]),
            ),
{
    lemma_markers_below(net, index_limit());
    assert forall|node: NodeId| #[trigger]
        net.intersections.contains_key(node) implies net.markers().contains(
        (node, net.intersections[node]),
    ) by {
        lemma_markers_complete(net, index_limit(), node);
    }
    assert forall|i: int, j: int| 0 <= i < j < net.markers().len() implies (
    #[trigger] net.markers()[i]).0 != (#[trigger] net.markers()[j]).0 by {
        assert(net.markers()[i].0.index < net.markers()[j].0.index);
    }
}

/// The list of roads is true: each entry is a road of the network, and the
/// entries rise in index, so that none comes twice.
pub proof fn lemma_road_list_below(net: Network, bound: nat)
    requires
        bound <= index_limit(),
    ensures
        forall|i: int|
            0 <= i < net.road_list_below(bound).len() ==> {
                let road = #[trigger] net.road_list_below(bound)[i];
                road.index < bound && net.roads.contains_key(road)
            },
        forall|i: int, j: int|
            0 <= i < j < net.road_list_below(bound).len() ==> net.road_list_below(bound)[i].index
                < net.road_list_below(bound)[j].index,
        net.road_list_below(bound).len() <= bound,
    decreases bound,
{
    if bound > 0 {
        lemma_road_list_below(net, (bound - 1) as nat);
    }
}

/// No road is left out of the list of roads.
pub proof fn lemma_road_list_complete(net: Network, bound: nat, road: RoadId)
    requires
        net.wf(),
        bound <= index_limit(),
        road.index < bound,
        net.roads.contains_key(road),
    ensures
        net.road_list_below(bound).contains(road),
    decreases bound,
{
    let listed = net.road_list_below(bound);
    if road.index == bound - 1 {
        lemma_slot_road(net, road);
        assert(listed[listed.len() - 1] == road);
    } else {
        lemma_road_list_complete(net, (bound - 1) as nat, road);
        let before = net.road_list_below((bound - 1) as nat);
        let i = choose|i: int| 0 <= i < before.len() && before[i] == road;
        assert(listed[i] == before[i]);
    }
}

/// What is shown of the roads are the segments of the listed roads, one
/// for each and in the same order.
pub proof fn lemma_segments_follow_roads(net: Network, bound: nat)
    requires
        bound <= index_limit(),
    ensures
        net.segments_below(bound).len() == net.road_list_below(bound).len(),
        forall|i: int|
            0 <= i < net.segments_below(bound).len() ==> #[trigger] net.segments_below(bound)[i]
                == net.segment(net.road_list_below(bound)[i]),
    decreases bound,
{
    if bound > 0 {
        lemma_segments_follow_roads(net, (bound - 1) as nat);
    }
}

/// Every road is shown exactly once: `segments` holds one segment for each
/// entry of `road_list`, in the same order; each entry of `road_list` is a
/// road of the network, no two entries are the same road, and every road has
/// an entry.
pub proof fn lemma_segments_exact(net: Network)
    requires
        net.wf(),
    ensures
        net.segments().len() == net.road_list().len(),
        forall|i: int|
            0 <= i < net.segments().len() ==> #[trigger] net.segments()[i] == net.segment(
                net.road_list()[i],
            ),
        forall|i: int|
            0 <= i < net.road_list().len() ==> net.roads.contains_key(
                #[trigger] net.road_list()[i],
            ),
        forall|i: int, j: int|
            0 <= i < j < net.road_list().len() ==> #[trigger] net.road_list()[i]
                != #[trigger] net.road_list()[j],
        forall|road: RoadId| #[trigger]
            net.roads.contains_key(road) ==> net.road_list().contains(road),
{
    lemma_road_list_below(net, index_limit());
    lemma_segments_follow_roads(net, index_limit());
    assert forall|road: RoadId| #[trigger]
        net.roads.contains_key(road) implies net.road_list().contains(road) by {
        lemma_road_list_complete(net, index_limit(), road);
    }
    assert forall|i: int, j: int| 0 <= i < j < net.road_list().len() implies #[trigger] net.road_list()[i]
        != #[trigger] net.road_list()[j] by {
        assert(net.road_list()[i].index < net.road_list()[j].index);
    }
}

/// Intersections that do not exist are not shown.
pub proof fn lemma_markers_skip(net: Network, lo: nat, hi: nat)
    requires
        lo <= hi <= index_limit(),
        forall|k: u32| lo <= k < hi ==> net.slot_node(k).is_none(),
    ensures
        net.markers_below(hi) == net.markers_below(lo),
    decreases hi - lo,
{
    if lo < hi {
        lemma_markers_skip(net, lo, (hi - 1) as nat);
        assert(net.slot_node((hi - 1) as u32).is_none());
    }
}

/// Roads that do not exist are not shown.
pub proof fn lemma_segments_skip(net: Network, lo: nat, hi: nat)
    requires
        lo <= hi <= index_limit(),
        forall|k: u32| lo <= k < hi ==> net.slot_road(k).is_none(),
    ensures
        net.segments_below(hi) == net.segments_below(lo),
    decreases hi - lo,
{
    if lo < hi {
        lemma_segments_skip(net, lo, (hi - 1) as nat);
        assert(net.slot_road((hi - 1) as u32).is_none());
    }
}

/// In a rising list of indices, no index lies strictly between two
/// neighbours, below the first or above the last.
pub proof fn lemma_gap(ids: Seq<u32>, i: int, k: u32)
    requires
        forall|a: int, b: int| 0 <= a < b < ids.len() ==> ids[a] < ids[b],
        0 <= i <= ids.len(),
        i > 0 ==> ids[i - 1] < k,
        i < ids.len() ==> k < ids[i],
    ensures
        !ids.contains(k),
{
    if ids.contains(k) {
        let at = choose|at: int| 0 <= at < ids.len() && ids[at] == k;
        if at < i {
            if at < i - 1 {
                assert(ids[at] < ids[i - 1]);
            }
        } else {
            if at > i {
                assert(ids[i] < ids[at]);
            }
        }
    }
}

} // verus!
