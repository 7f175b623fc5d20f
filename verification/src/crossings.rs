//! Where a line crosses the roads of a network, in which order the
//! crossings are taken, and when a road along the line may be drawn.

use vstd::prelude::*;
use crate::math::line::{crossing, Line};
use crate::math::point::{apart, dist2, Point};
use crate::network::{index_limit, lemma_slot_road, Network, NodeId, RoadId};

verus! {

impl Network {
    /// Where `line` crosses the road, if the road exists and they cross; the
    /// point is taken along `line`.
    pub open spec fn hit(self, line: Line, road: RoadId) -> Option<Point> {
        if self.roads.contains_key(road) {
            crossing(line, self.segment(road))
        } else {
            None
        }
    }

    /// The crossings of `line` with the roads whose index is below `bound`,
    /// by rising index.
    pub open spec fn hits_below(self, line: Line, bound: nat) -> Seq<(RoadId, Point)>
        decreases bound,
    {
        if bound == 0 {
            Seq::empty()
        } else {
            let before = self.hits_below(line, (bound - 1) as nat);
            match self.slot_road((bound - 1) as u32) {
                Some(road) => match self.hit(line, road) {
                    Some(at) => before.push((road, at)),
                    None => before,
                },
                None => before,
            }
        }
    }

    /// All crossings of `line` with the roads of the network, by rising index.
    pub open spec fn hits(self, line: Line) -> Seq<(RoadId, Point)> {
        self.hits_below(line, index_limit())
    }

    /// The crossings of `line`, the one nearest to its first point first.
    pub open spec fn crossings(self, line: Line) -> Seq<(RoadId, Point)> {
        sorted_by_distance(line.point1, self.hits(line))
    }

    /// Whether a road along `line` would leave every piece at least `min`
    /// long: the pieces of the new road between its stops, and the two
    /// halves of each road it crosses. A line that crosses nothing is one
    /// piece.
    pub open spec fn allows(self, line: Line, min: int) -> bool {
        let cuts = self.crossings(line);
        &&& forall|i: int|
            0 <= i <= cuts.len() ==> apart(
                #[trigger] stop(line, cuts, i),
                stop(line, cuts, i + 1),
                min,
            )
        &&& forall|i: int|
            0 <= i < cuts.len() ==> self.halves_apart(#[trigger] cuts[i], min)
    }

    /// Whether the two halves into which a crossing cuts a road are at least
    /// `min` long.
    pub open spec fn halves_apart(self, cut: (RoadId, Point), min: int) -> bool {
        &&& apart(self.segment(cut.0).point1, cut.1, min)
        &&& apart(cut.1, self.segment(cut.0).point2, min)
    }

    /// The network with two more intersections, at the ends of `line`.
    pub open spec fn staked(self, from: NodeId, to: NodeId, line: Line) -> Network {
        Network {
            intersections: self.intersections.insert(from, line.point1).insert(to, line.point2),
            roads: self.roads,
            issued: self.issued + 2,
        }
    }

    /// Whether the indices or the generations would run out while a road is
    /// drawn along `line` between two new intersections.
    pub open spec fn too_full(self, line: Line) -> bool {
        let k = self.crossings(line).len();
        ||| self.intersections.len() + 2 + k > u32::MAX
        ||| self.roads.len() + 3 * k + 1 > u32::MAX
        ||| self.issued + 2 + 4 * k + 1 > u64::MAX
    }
}

/// The `i`-th stop of a road drawn along `line` through the crossings `cuts`:
/// its start, then the crossings in order, then its end.
pub open spec fn stop(line: Line, cuts: Seq<(RoadId, Point)>, i: int) -> Point {
    if i <= 0 {
        line.point1
    } else if i <= cuts.len() {
        cuts[i - 1].1
    } else {
        line.point2
    }
}

/// Where to put `x` into `sorted`: behind the last crossing that is no
/// farther from `reference` than `x` is.
pub open spec fn slot(reference: Point, sorted: Seq<(RoadId, Point)>, x: (RoadId, Point)) -> int
    decreases sorted.len(),
{
    if sorted.len() == 0 {
        0
    } else if dist2(reference, sorted.last().1) <= dist2(reference, x.1) {
        sorted.len() as int
    } else {
        slot(reference, sorted.drop_last(), x)
    }
}

/// The crossings ordered by their distance from `reference`, nearest first;
/// crossings at the same distance keep the order they came in.
pub open spec fn sorted_by_distance(reference: Point, hits: Seq<(RoadId, Point)>) -> Seq<
    (RoadId, Point),
>
    decreases hits.len(),
{
    if hits.len() == 0 {
        hits
    } else {
        let sorted = sorted_by_distance(reference, hits.drop_last());
        sorted.insert(slot(reference, sorted, hits.last()), hits.last())
    }
}

/// Whether the crossings come nearest to `reference` first.
pub open spec fn ordered_by_distance(reference: Point, hits: Seq<(RoadId, Point)>) -> bool {
    forall|i: int, j: int|
        0 <= i < j < hits.len() ==> dist2(reference, (#[trigger] hits[i]).1) <= dist2(
            reference,
            (#[trigger] hits[j]).1,
        )
}

/// The slot for `x` lies within the sequence; what stands before it is no
/// farther than `x`, what stands behind it is farther.
pub proof fn lemma_slot(reference: Point, sorted: Seq<(RoadId, Point)>, x: (RoadId, Point))
    requires
        ordered_by_distance(reference, sorted),
    ensures
        0 <= slot(reference, sorted, x) <= sorted.len(),
        forall|i: int|
            0 <= i < slot(reference, sorted, x) ==> dist2(reference, (#[trigger] sorted[i]).1)
                <= dist2(reference, x.1),
        forall|i: int|
            slot(reference, sorted, x) <= i < sorted.len() ==> dist2(
                reference,
                (#[trigger] sorted[i]).1,
            ) > dist2(reference, x.1),
    decreases sorted.len(),
{
    let at = slot(reference, sorted, x);
    if sorted.len() == 0 {
    } else if dist2(reference, sorted.last().1) <= dist2(reference, x.1) {
        assert forall|i: int| 0 <= i < at implies dist2(reference, (#[trigger] sorted[i]).1)
            <= dist2(reference, x.1) by {
            if i < sorted.len() - 1 {
                assert(dist2(reference, sorted[i].1) <= dist2(
                    reference,
                    sorted[sorted.len() - 1].1,
                ));
            }
        }
    } else {
        let front = sorted.drop_last();
        assert forall|i: int, j: int| 0 <= i < j < front.len() implies dist2(
            reference,
            (#[trigger] front[i]).1,
        ) <= dist2(reference, (#[trigger] front[j]).1) by {
            assert(front[i] == sorted[i] && front[j] == sorted[j]);
        }
        lemma_slot(reference, front, x);
        assert forall|i: int| 0 <= i < at implies dist2(reference, (#[trigger] sorted[i]).1)
            <= dist2(reference, x.1) by {
            assert(sorted[i] == front[i]);
        }
        assert forall|i: int| at <= i < sorted.len() implies dist2(
            reference,
            (#[trigger] sorted[i]).1,
        ) > dist2(reference, x.1) by {
            if i < front.len() {
                assert(sorted[i] == front[i]);
            }
        }
    }
}

/// Sorting keeps the number of crossings.
pub proof fn lemma_sorted_len(reference: Point, hits: Seq<(RoadId, Point)>)
    ensures
        sorted_by_distance(reference, hits).len() == hits.len(),
    decreases hits.len(),
{
    if hits.len() > 0 {
        lemma_sorted_len(reference, hits.drop_last());
        lemma_sorted_ordered(reference, hits.drop_last());
        lemma_slot(
            reference,
            sorted_by_distance(reference, hits.drop_last()),
            hits.last(),
        );
    }
}

/// The sorted crossings come nearest first.
pub proof fn lemma_sorted_ordered(reference: Point, hits: Seq<(RoadId, Point)>)
    ensures
        ordered_by_distance(reference, sorted_by_distance(reference, hits)),
    decreases hits.len(),
{
    if hits.len() > 0 {
        let sorted = sorted_by_distance(reference, hits.drop_last());
        lemma_sorted_ordered(reference, hits.drop_last());
        lemma_slot(reference, sorted, hits.last());
        let at = slot(reference, sorted, hits.last());
        let all = sorted.insert(at, hits.last());
        assert forall|i: int, j: int| 0 <= i < j < all.len() implies dist2(
            reference,
            (#[trigger] all[i]).1,
        ) <= dist2(reference, (#[trigger] all[j]).1) by {
            if j < at {
                assert(all[i] == sorted[i] && all[j] == sorted[j]);
            } else if j == at {
                assert(all[i] == sorted[i]);
            } else if i < at {
                assert(all[i] == sorted[i] && all[j] == sorted[j - 1]);
            } else if i == at {
                assert(all[j] == sorted[j - 1]);
            } else {
                assert(all[i] == sorted[i - 1] && all[j] == sorted[j - 1]);
            }
        }
    }
}

/// Sorting neither loses nor invents a crossing: the sorted sequence holds
/// each one as often as the given sequence does.
pub proof fn lemma_sorted_permutes(reference: Point, hits: Seq<(RoadId, Point)>)
    ensures
        sorted_by_distance(reference, hits).to_multiset() == hits.to_multiset(),
    decreases hits.len(),
{
    broadcast use vstd::seq_lib::group_to_multiset_ensures;

    if hits.len() > 0 {
        let rest = hits.drop_last();
        let sorted = sorted_by_distance(reference, rest);
        lemma_sorted_permutes(reference, rest);
        lemma_sorted_ordered(reference, rest);
        lemma_slot(reference, sorted, hits.last());
        sorted.insert_ensures(slot(reference, sorted, hits.last()), hits.last());
        sorted.to_multiset_ensures();
        rest.to_multiset_ensures();
        assert(hits == rest.push(hits.last()));
        assert(sorted.insert(slot(reference, sorted, hits.last()), hits.last()).to_multiset()
            =~= sorted.to_multiset().insert(hits.last()));
        assert(rest.push(hits.last()).to_multiset() =~= rest.to_multiset().insert(hits.last()));
    }
}

/// Sorting is stable: the crossings at any one distance stand in the sorted
/// sequence in the order in which they were given.
pub proof fn lemma_sorted_stable(reference: Point, hits: Seq<(RoadId, Point)>, distance2: int)
    ensures
        sorted_by_distance(reference, hits).filter(
            |h: (RoadId, Point)| dist2(reference, h.1) == distance2,
        ) == hits.filter(|h: (RoadId, Point)| dist2(reference, h.1) == distance2),
    decreases hits.len(),
{
    let at_distance = |h: (RoadId, Point)| dist2(reference, h.1) == distance2;
    if hits.len() > 0 {
        let rest = hits.drop_last();
        let x = hits.last();
        let sorted = sorted_by_distance(reference, rest);
        let at = slot(reference, sorted, x);
        lemma_sorted_stable(reference, rest, distance2);
        lemma_sorted_ordered(reference, rest);
        lemma_slot(reference, sorted, x);
        let front = sorted.subrange(0, at);
        let back = sorted.subrange(at, sorted.len() as int);
        assert(sorted == front + back);
        assert(hits == rest.push(x));
        Seq::filter_distributes_over_add(front, back, at_distance);
        Seq::filter_distributes_over_add(front.push(x), back, at_distance);
        front.lemma_filter_push(x, at_distance);
        rest.lemma_filter_push(x, at_distance);
        if at_distance(x) {
            assert(back.all(|h: (RoadId, Point)| !at_distance(h))) by {
                assert forall|i: int| 0 <= i < back.len() implies !at_distance(back[i]) by {
                    assert(back[i] == sorted[at + i]);
                }
            }
            back.lemma_all_neg_filter_empty(at_distance);
            assert(back.filter(at_distance) =~= Seq::empty());
            assert(front.filter(at_distance).push(x) + back.filter(at_distance)
                =~= (front.filter(at_distance) + back.filter(at_distance)).push(x));
        }
    }
}

/// Roads that do not exist contribute no crossing.
pub proof fn lemma_hits_skip(net: Network, line: Line, lo: nat, hi: nat)
    requires
        lo <= hi <= index_limit(),
        forall|k: u32| lo <= k < hi ==> net.slot_road(k).is_none(),
    ensures
        net.hits_below(line, hi) == net.hits_below(line, lo),
    decreases hi - lo,
{
    if lo < hi {
        lemma_hits_skip(net, line, lo, (hi - 1) as nat);
        assert(net.slot_road((hi - 1) as u32).is_none());
    }
}

/// Every crossing listed is one of an existing road with the line, and the
/// roads listed rise in index and stay below the bound.
pub proof fn lemma_hits_below(net: Network, line: Line, bound: nat)
    requires
        bound <= index_limit(),
    ensures
        forall|i: int|
            0 <= i < net.hits_below(line, bound).len() ==> {
                let h = #[trigger] net.hits_below(line, bound)[i];
                &&& h.0.index < bound
                &&& net.roads.contains_key(h.0)
                &&& net.hit(line, h.0) == Some(h.1)
            },
        forall|i: int, j: int|
            0 <= i < j < net.hits_below(line, bound).len() ==> net.hits_below(
                line,
                bound,
            )[i].0.index < net.hits_below(line, bound)[j].0.index,
        net.hits_below(line, bound).len() <= bound,
    decreases bound,
{
    if bound > 0 {
        lemma_hits_below(net, line, (bound - 1) as nat);
    }
}

/// No crossing is left out: a road that exists, lies below the bound and
/// crosses the line is listed with its crossing.
pub proof fn lemma_hits_complete(net: Network, line: Line, bound: nat, road: RoadId)
    requires
        net.wf(),
        bound <= index_limit(),
        road.index < bound,
        net.hit(line, road).is_some(),
    ensures
        exists|i: int|
            0 <= i < net.hits_below(line, bound).len() && net.hits_below(line, bound)[i] == (
                road,
                net.hit(line, road).unwrap(),
            ),
    decreases bound,
{
    let listed = net.hits_below(line, bound);
    if road.index == bound - 1 {
        lemma_slot_road(net, road);
        assert(listed[listed.len() - 1] == (road, net.hit(line, road).unwrap()));
    } else {
        lemma_hits_complete(net, line, (bound - 1) as nat, road);
        let before = net.hits_below(line, (bound - 1) as nat);
        let i = choose|i: int|
            0 <= i < before.len() && before[i] == (road, net.hit(line, road).unwrap());
        assert(listed[i] == before[i]);
    }
}

/// What a line crosses depends on the roads and on where their ends are,
/// not on what other intersections there are.
pub proof fn lemma_hits_unmoved(a: Network, b: Network, line: Line, bound: nat)
    requires
        a.wf(),
        a.roads == b.roads,
        forall|n: NodeId| #[trigger]
            a.intersections.contains_key(n) ==> b.intersections.contains_key(n)
                && b.intersections[n] == a.intersections[n],
    ensures
        a.hits_below(line, bound) == b.hits_below(line, bound),
    decreases bound,
{
    if bound > 0 {
        lemma_hits_unmoved(a, b, line, (bound - 1) as nat);
        assert(a.slot_road((bound - 1) as u32) == b.slot_road((bound - 1) as u32));
        match a.slot_road((bound - 1) as u32) {
            Some(road) => {
                assert(a.roads.contains_key(road));
                assert(a.intersections.contains_key(a.roads[road].start));
                assert(a.intersections.contains_key(a.roads[road].end));
                assert(a.segment(road) == b.segment(road));
            },
            None => {},
        }
    }
}

/// The sorted crossings are the crossings of the line with existing roads,
/// each road at most once.
pub proof fn lemma_crossings_sound(net: Network, line: Line)
    ensures
        net.crossings(line).len() == net.hits(line).len(),
        net.crossings(line).len() <= index_limit(),
        forall|i: int|
            0 <= i < net.crossings(line).len() ==> {
                let c = #[trigger] net.crossings(line)[i];
                net.roads.contains_key(c.0) && net.hit(line, c.0) == Some(c.1)
            },
        forall|i: int, j: int|
            0 <= i < j < net.crossings(line).len() ==> (#[trigger] net.crossings(line)[i]).0 != (
            #[trigger] net.crossings(line)[j]).0,
{
    let hits = net.hits(line);
    let cuts = net.crossings(line);
    lemma_hits_below(net, line, index_limit());
    lemma_sorted_len(line.point1, hits);
    lemma_sorted_permutes(line.point1, hits);
    hits.to_multiset_ensures();
    cuts.to_multiset_ensures();
    assert forall|i: int| 0 <= i < cuts.len() implies {
        let c = #[trigger] cuts[i];
        net.roads.contains_key(c.0) && net.hit(line, c.0) == Some(c.1)
    } by {
        let c = cuts[i];
        assert(cuts.contains(c));
        assert(cuts.to_multiset().count(c) > 0);
        assert(hits.contains(c));
        let at = choose|at: int| 0 <= at < hits.len() && hits[at] == c;
        assert(net.hit(line, hits[at].0) == Some(hits[at].1));
    }
    assert forall|i: int, j: int| 0 <= i < hits.len() && 0 <= j < hits.len() && i != j implies hits[i]
        != hits[j] by {
        if i < j {
            assert(hits[i].0.index < hits[j].0.index);
        } else {
            assert(hits[j].0.index < hits[i].0.index);
        }
    }
    hits.lemma_multiset_has_no_duplicates();
    cuts.lemma_multiset_has_no_duplicates_conv();
    assert forall|i: int, j: int| 0 <= i < j < cuts.len() implies (#[trigger] cuts[i]).0 != (
    #[trigger] cuts[j]).0 by {
        if cuts[i].0 == cuts[j].0 {
            assert(net.hit(line, cuts[i].0) == Some(cuts[i].1));
            assert(net.hit(line, cuts[j].0) == Some(cuts[j].1));
            assert(cuts[i] == cuts[j]);
        }
    }
}

/// A network without roads is crossed by no line.
pub proof fn lemma_no_roads_no_crossings(net: Network, line: Line)
    requires
        forall|r: RoadId| !net.roads.contains_key(r),
    ensures
        net.crossings(line).len() == 0,
{
    assert forall|k: u32| net.slot_road(k).is_none() by {}
    lemma_hits_skip(net, line, 0, index_limit());
    lemma_sorted_len(line.point1, net.hits(line));
}

/// A line that crosses no road may be drawn exactly when it is at least
/// `min` long.
pub proof fn lemma_uncrossed_allowed(net: Network, line: Line, min: int)
    requires
        net.crossings(line).len() == 0,
    ensures
        net.allows(line, min) <==> apart(line.point1, line.point2, min),
{
    let cuts = net.crossings(line);
    assert(stop(line, cuts, 0) == line.point1);
    assert(stop(line, cuts, 1) == line.point2);
    if apart(line.point1, line.point2, min) {
        assert forall|i: int| 0 <= i <= cuts.len() implies apart(
            #[trigger] stop(line, cuts, i),
            stop(line, cuts, i + 1),
            min,
        ) by {
            assert(i == 0);
        }
    }
}

} // verus!
