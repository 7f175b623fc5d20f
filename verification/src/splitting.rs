//! Drawing a road across a network: what the network is afterwards, the
//! states it passes through while junctions are made and crossed roads are
//! taken out, and why the steps add up.

use vstd::prelude::*;
use crate::crossings::lemma_crossings_sound;
use crate::math::point::Point;
use crate::network::{Network, NodeId, Road, RoadError, RoadId};

verus! {

/// A crossing of a new road with an old one, turned into an intersection.
#[derive(Clone, Copy, Debug, PartialEq, Eq, Structural)]
pub struct Junction {
    /// The intersection made at the crossing.
    pub node: NodeId,
    /// The road that was cut there; it is gone afterwards.
    pub crossed: RoadId,
    /// The piece of the new road that reaches `node` from the far side.
    pub link: RoadId,
    /// What replaces the cut road between its start and `node`.
    pub first_half: RoadId,
    /// What replaces the cut road between `node` and its end.
    pub second_half: RoadId,
}

/// What drawing one road added to the network.
#[derive(Debug)]
pub struct Connection {
    /// The junctions in the order they were made: from the far end of the
    /// new road back to its start.
    pub junctions: Vec<Junction>,
    /// The piece of the new road that reaches its start.
    pub closing: RoadId,
}

/// Where the piece of the new road that reaches junction `j` comes from: the
/// far end `to` for the first junction, the junction made before it otherwise.
pub open spec fn chain_before(junctions: Seq<Junction>, to: NodeId, j: int) -> NodeId {
    if j == 0 {
        to
    } else {
        junctions[j - 1].node
    }
}

/// The roads made for the junctions, in the order they were made.
pub open spec fn made_roads(junctions: Seq<Junction>) -> Seq<RoadId>
    decreases junctions.len(),
{
    if junctions.len() == 0 {
        Seq::empty()
    } else {
        made_roads(junctions.drop_last()).push(junctions.last().link).push(
            junctions.last().first_half,
        ).push(junctions.last().second_half)
    }
}

/// Whether `road` is one that a junction cut.
pub open spec fn is_cut(junctions: Seq<Junction>, road: RoadId) -> bool {
    exists|j: int| 0 <= j < junctions.len() && (#[trigger] junctions[j]).crossed == road
}

/// Whether `node` is one that a junction made.
pub open spec fn is_junction(junctions: Seq<Junction>, node: NodeId) -> bool {
    exists|j: int| 0 <= j < junctions.len() && (#[trigger] junctions[j]).node == node
}

impl Network {
    /// Whether the network has room for a road with `k` crossings: indices
    /// and generations for one intersection and three roads for each
    /// crossing, and for one road more.
    pub open spec fn room_for(self, k: nat) -> bool {
        &&& k > 0 ==> self.intersections.len() + k <= u32::MAX
        &&& self.roads.len() + 3 * k + 1 <= u32::MAX
        &&& self.issued + 4 * k + 1 <= u64::MAX
    }

    /// Why a road from `from` to `to` cannot be drawn, if it cannot: an end
    /// is missing, the ends are the same, or there is no room for it.
    pub open spec fn refusal(self, from: NodeId, to: NodeId) -> Option<RoadError> {
        if !self.intersections.contains_key(from) || !self.intersections.contains_key(to) {
            Some(RoadError::IntersectionNotFound)
        } else if from == to {
            Some(RoadError::SameIntersection)
        } else if !self.room_for(self.crossings(self.span(from, to)).len()) {
            Some(RoadError::Full)
        } else {
            None
        }
    }

    /// Whether `after` is this network with a road drawn from `from` to `to`:
    /// every crossing with an old road has become a junction, the crossed
    /// road is replaced by its two halves, and the new road runs in pieces
    /// from `to` through the junctions, farthest from `from` first, to `from`.
    pub open spec fn connected(
        self,
        after: Network,
        from: NodeId,
        to: NodeId,
        junctions: Seq<Junction>,
        closing: RoadId,
    ) -> bool {
        &&& junctions_stand(self, after, self.crossings(self.span(from, to)), junctions)
        &&& roads_run(self, after, from, to, junctions, closing)
    }
}

/// Whether `outcome` says what drawing a road from `from` to `to` did to the
/// network. A refused road leaves it as it was, and the reason is the one
/// that `refusal` gives. A road that is drawn leaves it `connected`, with one
/// intersection more for each crossing, two roads more for each crossing and
/// one besides, and no road that dangles.
pub open spec fn road_drawn(
    before: Network,
    after: Network,
    from: NodeId,
    to: NodeId,
    outcome: Result<Connection, RoadError>,
) -> bool {
    match outcome {
        Ok(made) => {
            &&& before.refusal(from, to).is_none()
            &&& before.connected(after, from, to, made.junctions@, made.closing)
            &&& after.wf()
            &&& after.intersections.len() == before.intersections.len() + made.junctions@.len()
            &&& after.roads.len() == before.roads.len() + 2 * made.junctions@.len() + 1
            &&& after.issued == before.issued + 4 * made.junctions@.len() + 1
        },
        Err(why) => {
            &&& before.refusal(from, to) == Some(why)
            &&& after == before
        },
    }
}

/// The intersections after a road is drawn: the old ones as they were, and
/// one junction at each crossing, the junctions listed from the last
/// crossing back to the first.
pub open spec fn junctions_stand(
    before: Network,
    after: Network,
    cuts: Seq<(RoadId, Point)>,
    junctions: Seq<Junction>,
) -> bool {
    let k = cuts.len() as int;
    &&& junctions.len() == k
    &&& forall|n: NodeId| #[trigger]
        after.intersections.contains_key(n) <==> before.intersections.contains_key(n)
            || is_junction(junctions, n)
    &&& forall|n: NodeId| #[trigger]
        before.intersections.contains_key(n) ==> after.intersections[n]
            == before.intersections[n]
    &&& forall|j: int|
        0 <= j < k ==> {
            let made = #[trigger] junctions[j];
            &&& made.crossed == cuts[k - 1 - j].0
            &&& !before.intersections.contains_key(made.node)
            &&& after.intersections[made.node] == cuts[k - 1 - j].1
        }
    &&& forall|i: int, j: int|
        0 <= i < j < k ==> (#[trigger] junctions[i]).node != (#[trigger] junctions[j]).node
}

/// The roads after a road is drawn: the old ones that no junction cut, as
/// they were; for each junction a piece of the new road and the two halves
/// of the road it cut; and the piece that closes the chain. The new roads
/// have names of their own that no old road had, a cut road included.
pub open spec fn roads_run(
    before: Network,
    after: Network,
    from: NodeId,
    to: NodeId,
    junctions: Seq<Junction>,
    closing: RoadId,
) -> bool {
    let fresh = made_roads(junctions).push(closing);
    &&& fresh.no_duplicates()
    &&& forall|i: int| 0 <= i < fresh.len() ==> !before.roads.contains_key(#[trigger] fresh[i])
    &&& forall|r: RoadId| #[trigger]
        after.roads.contains_key(r) <==> (before.roads.contains_key(r) && !is_cut(junctions, r))
            || fresh.contains(r)
    &&& forall|r: RoadId| #[trigger]
        before.roads.contains_key(r) && !is_cut(junctions, r) ==> after.roads[r]
            == before.roads[r]
    &&& forall|j: int|
        0 <= j < junctions.len() ==> {
            let made = #[trigger] junctions[j];
            &&& after.roads[made.link] == Road {
                start: chain_before(junctions, to, j),
                end: made.node,
            }
            &&& after.roads[made.first_half] == Road {
                start: before.roads[made.crossed].start,
                end: made.node,
            }
            &&& after.roads[made.second_half] == Road {
                start: made.node,
                end: before.roads[made.crossed].end,
            }
        }
    &&& after.roads[closing] == Road {
        start: chain_before(junctions, to, junctions.len() as int),
        end: from,
    }
}

/// What a sequence holds once one more item is pushed.
pub proof fn lemma_push_contains<T>(s: Seq<T>, x: T)
    ensures
        forall|y: T| #[trigger] s.push(x).contains(y) <==> s.contains(y) || y == x,
{
    assert forall|y: T| #[trigger] s.push(x).contains(y) implies s.contains(y) || y == x by {
        let i = choose|i: int| 0 <= i < s.push(x).len() && s.push(x)[i] == y;
        if i < s.len() {
            assert(s[i] == y);
        }
    }
    assert forall|y: T| s.contains(y) || y == x implies #[trigger] s.push(x).contains(y) by {
        if s.contains(y) {
            let i = choose|i: int| 0 <= i < s.len() && s[i] == y;
            assert(s.push(x)[i] == y);
        } else {
            assert(s.push(x)[s.len() as int] == y);
        }
    }
}

/// Pushing an item that a sequence does not hold makes no duplicate.
pub proof fn lemma_push_no_duplicates<T>(s: Seq<T>, x: T)
    requires
        s.no_duplicates(),
        !s.contains(x),
    ensures
        s.push(x).no_duplicates(),
{
    assert forall|i: int, j: int|
        0 <= i < s.push(x).len() && 0 <= j < s.push(x).len() && i != j implies s.push(x)[i]
        != s.push(x)[j] by {
        if i < s.len() && j < s.len() {
            assert(s[i] != s[j]);
        } else if i < s.len() {
            assert(s.contains(s[i]));
        } else {
            assert(s.contains(s[j]));
        }
    }
}


/// One step of the first pass: at the crossing `cut` an intersection is
/// added, then the piece of the new road that reaches it from `current`, then
/// the two halves of the crossed road. Nothing is taken out yet.
pub open spec fn junction_made(
    entry: Network,
    exit: Network,
    current: NodeId,
    cut: (RoadId, Point),
    made: Junction,
) -> bool {
    &&& made.crossed == cut.0
    &&& !entry.intersections.contains_key(made.node)
    &&& exit.intersections == entry.intersections.insert(made.node, cut.1)
    &&& !entry.roads.contains_key(made.link)
    &&& !entry.roads.contains_key(made.first_half)
    &&& !entry.roads.contains_key(made.second_half)
    &&& made.link != made.first_half
    &&& made.link != made.second_half
    &&& made.first_half != made.second_half
    &&& exit.roads == entry.roads.insert(
        made.link,
        Road { start: current, end: made.node },
    ).insert(
        made.first_half,
        Road { start: entry.roads[cut.0].start, end: made.node },
    ).insert(made.second_half, Road { start: made.node, end: entry.roads[cut.0].end })
}

/// The intersections after some junctions are made: the old ones as they
/// were, and one for each of the last crossings.
pub open spec fn nodes_grown(
    before: Network,
    now: Network,
    cuts: Seq<(RoadId, Point)>,
    junctions: Seq<Junction>,
) -> bool {
    let k = cuts.len() as int;
    &&& junctions.len() <= k
    &&& now.intersections.dom().finite()
    &&& forall|n: NodeId| #[trigger]
        before.intersections.contains_key(n) ==> now.intersections.contains_key(n)
            && now.intersections[n] == before.intersections[n]
    &&& forall|n: NodeId| #[trigger]
        now.intersections.contains_key(n) ==> before.intersections.contains_key(n) || is_junction(
            junctions,
            n,
        )
    &&& forall|i: int|
        0 <= i < junctions.len() ==> {
            let made = #[trigger] junctions[i];
            &&& !before.intersections.contains_key(made.node)
            &&& now.intersections.contains_key(made.node)
            &&& now.intersections[made.node] == cuts[k - 1 - i].1
            &&& made.crossed == cuts[k - 1 - i].0
        }
    &&& forall|a: int, b: int|
        0 <= a < b < junctions.len() ==> (#[trigger] junctions[a]).node != (
        #[trigger] junctions[b]).node
    &&& now.intersections.len() == before.intersections.len() + junctions.len()
}

/// The roads after some junctions are made: the old ones as they were, and
/// three for each junction.
pub open spec fn roads_grown(before: Network, now: Network, to: NodeId, junctions: Seq<Junction>) -> bool {
    let made = made_roads(junctions);
    &&& now.roads.dom().finite()
    &&& forall|r: RoadId| #[trigger]
        before.roads.contains_key(r) ==> now.roads.contains_key(r) && now.roads[r]
            == before.roads[r]
    &&& made.no_duplicates()
    &&& made.len() == 3 * junctions.len()
    &&& forall|i: int|
        0 <= i < made.len() ==> !before.roads.contains_key(#[trigger] made[i])
            && now.roads.contains_key(made[i])
    &&& forall|r: RoadId| #[trigger]
        now.roads.contains_key(r) ==> before.roads.contains_key(r) || made.contains(r)
    &&& forall|i: int|
        0 <= i < junctions.len() ==> joined(before, now, to, junctions, i)
    &&& now.roads.len() == before.roads.len() + 3 * junctions.len()
}

/// The three roads of junction `i` join what they should.
pub open spec fn joined(before: Network, now: Network, to: NodeId, junctions: Seq<Junction>, i: int) -> bool {
    let made = junctions[i];
    &&& now.roads[made.link] == Road { start: chain_before(junctions, to, i), end: made.node }
    &&& now.roads[made.first_half] == Road {
        start: before.roads[made.crossed].start,
        end: made.node,
    }
    &&& now.roads[made.second_half] == Road {
        start: made.node,
        end: before.roads[made.crossed].end,
    }
}

/// The roads made for a junction are among the roads made for all of them.
pub proof fn lemma_made_roads_hold(junctions: Seq<Junction>, i: int)
    requires
        0 <= i < junctions.len(),
    ensures
        made_roads(junctions).contains(junctions[i].link),
        made_roads(junctions).contains(junctions[i].first_half),
        made_roads(junctions).contains(junctions[i].second_half),
    decreases junctions.len(),
{
    let front = made_roads(junctions.drop_last());
    let last = junctions.last();
    lemma_push_contains(front, last.link);
    lemma_push_contains(front.push(last.link), last.first_half);
    lemma_push_contains(front.push(last.link).push(last.first_half), last.second_half);
    if i < junctions.len() - 1 {
        lemma_made_roads_hold(junctions.drop_last(), i);
    }
}

/// One more junction keeps the intersections as they should be.
pub proof fn lemma_nodes_grow(
    before: Network,
    entry: Network,
    exit: Network,
    cuts: Seq<(RoadId, Point)>,
    junctions: Seq<Junction>,
    made: Junction,
)
    requires
        nodes_grown(before, entry, cuts, junctions),
        junctions.len() < cuts.len(),
        made.crossed == cuts[cuts.len() - 1 - junctions.len()].0,
        !entry.intersections.contains_key(made.node),
        exit.intersections == entry.intersections.insert(
            made.node,
            cuts[cuts.len() - 1 - junctions.len()].1,
        ),
    ensures
        nodes_grown(before, exit, cuts, junctions.push(made)),
{
    let all = junctions.push(made);
    let j = junctions.len() as int;
    let k = cuts.len() as int;
    assert forall|n: NodeId| #[trigger]
        exit.intersections.contains_key(n) implies before.intersections.contains_key(n)
        || is_junction(all, n) by {
        if n == made.node {
            assert(all[j].node == n);
        } else if !before.intersections.contains_key(n) {
            assert(entry.intersections.contains_key(n));
            let at = choose|at: int| 0 <= at < junctions.len() && (#[trigger] junctions[at]).node == n;
            assert(all[at].node == n);
        }
    }
    assert forall|i: int| 0 <= i < all.len() implies {
        let m = #[trigger] all[i];
        &&& !before.intersections.contains_key(m.node)
        &&& exit.intersections.contains_key(m.node)
        &&& exit.intersections[m.node] == cuts[k - 1 - i].1
        &&& m.crossed == cuts[k - 1 - i].0
    } by {
        if i < j {
            assert(all[i] == junctions[i]);
        }
    }
    assert forall|a: int, b: int| 0 <= a < b < all.len() implies (#[trigger] all[a]).node != (
    #[trigger] all[b]).node by {
        assert(all[a] == junctions[a]);
        if b < j {
            assert(all[b] == junctions[b]);
        }
    }
}

/// One more junction keeps the roads as they should be.
pub proof fn lemma_roads_grow(
    before: Network,
    entry: Network,
    exit: Network,
    to: NodeId,
    junctions: Seq<Junction>,
    cut: (RoadId, Point),
    made: Junction,
)
    requires
        roads_grown(before, entry, to, junctions),
        junction_made(entry, exit, chain_before(junctions, to, junctions.len() as int), cut, made),
        before.roads.contains_key(cut.0),
    ensures
        roads_grown(before, exit, to, junctions.push(made)),
{
    let all = junctions.push(made);
    let j = junctions.len() as int;
    let old_made = made_roads(junctions);
    let with_link = old_made.push(made.link);
    let with_first = with_link.push(made.first_half);
    let new_made = with_first.push(made.second_half);
    assert(all.drop_last() == junctions);
    assert(all.last() == made);
    assert(made_roads(all) == new_made);
    lemma_push_contains(old_made, made.link);
    lemma_push_contains(with_link, made.first_half);
    lemma_push_contains(with_first, made.second_half);
    assert forall|r: RoadId| old_made.contains(r) implies entry.roads.contains_key(r) by {
        let at = choose|at: int| 0 <= at < old_made.len() && old_made[at] == r;
        assert(entry.roads.contains_key(old_made[at]));
    }
    lemma_push_no_duplicates(old_made, made.link);
    lemma_push_no_duplicates(with_link, made.first_half);
    lemma_push_no_duplicates(with_first, made.second_half);
    assert forall|i: int| 0 <= i < new_made.len() implies !before.roads.contains_key(
        #[trigger] new_made[i],
    ) && exit.roads.contains_key(new_made[i]) by {
        if i < old_made.len() {
            assert(new_made[i] == old_made[i]);
        }
    }
    assert forall|i: int| 0 <= i < all.len() implies joined(before, exit, to, all, i) by {
        if i < j {
            assert(all[i] == junctions[i]);
            assert(joined(before, entry, to, junctions, i));
            lemma_made_roads_hold(junctions, i);
            assert(chain_before(all, to, i) == chain_before(junctions, to, i));
        } else {
            assert(chain_before(all, to, i) == chain_before(junctions, to, j));
        }
    }
}

/// The roads while crossed roads are taken out: of the roads there were in
/// the middle, those that the first `done` junctions crossed are gone.
pub open spec fn roads_cut(middle: Network, now: Network, junctions: Seq<Junction>, done: int) -> bool {
    &&& now.intersections == middle.intersections
    &&& now.roads.dom().finite()
    &&& forall|r: RoadId| #[trigger]
        now.roads.contains_key(r) <==> middle.roads.contains_key(r) && !is_cut(
            junctions.take(done),
            r,
        )
    &&& forall|r: RoadId| #[trigger]
        now.roads.contains_key(r) ==> now.roads[r] == middle.roads[r]
    &&& now.roads.len() == middle.roads.len() - done
}

/// Each junction crossed a road of its own, one that is there in the middle.
pub open spec fn cuts_apart(middle: Network, junctions: Seq<Junction>) -> bool {
    &&& forall|t: int|
        0 <= t < junctions.len() ==> middle.roads.contains_key((#[trigger] junctions[t]).crossed)
    &&& forall|a: int, b: int|
        0 <= a < b < junctions.len() ==> (#[trigger] junctions[a]).crossed != (
        #[trigger] junctions[b]).crossed
}

/// Before anything is taken out, nothing is gone.
pub proof fn lemma_cut_none(middle: Network, junctions: Seq<Junction>)
    requires
        middle.roads.dom().finite(),
    ensures
        roads_cut(middle, middle, junctions, 0),
{
    assert forall|r: RoadId| !is_cut(junctions.take(0), r) by {
        assert(junctions.take(0).len() == 0);
    }
}

/// Taking out the road that the next junction crossed.
pub proof fn lemma_cut_one(
    middle: Network,
    entry: Network,
    exit: Network,
    junctions: Seq<Junction>,
    done: int,
)
    requires
        roads_cut(middle, entry, junctions, done),
        cuts_apart(middle, junctions),
        0 <= done < junctions.len(),
        exit.intersections == entry.intersections,
        exit.roads == entry.roads.remove(junctions[done].crossed),
    ensures
        roads_cut(middle, exit, junctions, done + 1),
        entry.roads.contains_key(junctions[done].crossed),
{
    let crossed = junctions[done].crossed;
    let earlier = junctions.take(done);
    let later = junctions.take(done + 1);
    assert(!is_cut(earlier, crossed)) by {
        if is_cut(earlier, crossed) {
            let t = choose|t: int| 0 <= t < earlier.len() && (#[trigger] earlier[t]).crossed == crossed;
            assert(earlier[t] == junctions[t]);
        }
    }
    assert(later[done] == junctions[done]);
    assert forall|r: RoadId| #[trigger]
        exit.roads.contains_key(r) <==> middle.roads.contains_key(r) && !is_cut(later, r) by {
        if is_cut(later, r) {
            let t = choose|t: int| 0 <= t < later.len() && (#[trigger] later[t]).crossed == r;
            if t < done {
                assert(earlier[t] == later[t]);
            }
        }
        if is_cut(earlier, r) {
            let t = choose|t: int| 0 <= t < earlier.len() && (#[trigger] earlier[t]).crossed == r;
            assert(later[t] == earlier[t]);
        }
    }
}

/// Once every crossing has its junction, the intersections are as drawn.
pub proof fn lemma_junctions_stand(
    before: Network,
    grown: Network,
    after: Network,
    cuts: Seq<(RoadId, Point)>,
    junctions: Seq<Junction>,
)
    requires
        nodes_grown(before, grown, cuts, junctions),
        junctions.len() == cuts.len(),
        after.intersections == grown.intersections,
    ensures
        junctions_stand(before, after, cuts, junctions),
        after.intersections.len() == before.intersections.len() + junctions.len(),
{
    assert forall|n: NodeId| is_junction(junctions, n) implies after.intersections.contains_key(
        n,
    ) by {
        let at = choose|at: int| 0 <= at < junctions.len() && (#[trigger] junctions[at]).node == n;
        assert(grown.intersections.contains_key(junctions[at].node));
    }
}

/// The new roads have names of their own, and none that an old road had.
pub proof fn lemma_fresh_roads(
    before: Network,
    grown: Network,
    to: NodeId,
    junctions: Seq<Junction>,
    closing: RoadId,
)
    requires
        roads_grown(before, grown, to, junctions),
        !grown.roads.contains_key(closing),
    ensures
        made_roads(junctions).push(closing).no_duplicates(),
        forall|i: int|
            0 <= i < made_roads(junctions).push(closing).len() ==> !before.roads.contains_key(
                #[trigger] made_roads(junctions).push(closing)[i],
            ),
        forall|r: RoadId|
            made_roads(junctions).contains(r) ==> grown.roads.contains_key(r)
                && !before.roads.contains_key(r),
        !before.roads.contains_key(closing),
{
    let made = made_roads(junctions);
    let fresh = made.push(closing);
    assert forall|r: RoadId| made.contains(r) implies grown.roads.contains_key(r)
        && !before.roads.contains_key(r) by {
        let at = choose|at: int| 0 <= at < made.len() && made[at] == r;
        assert(grown.roads.contains_key(made[at]));
    }
    lemma_push_no_duplicates(made, closing);
    assert forall|i: int| 0 <= i < fresh.len() implies !before.roads.contains_key(
        #[trigger] fresh[i],
    ) by {
        if i < made.len() {
            assert(fresh[i] == made[i]);
        }
    }
}

/// Which roads there are once the crossed ones are out.
pub proof fn lemma_roads_left(
    before: Network,
    grown: Network,
    middle: Network,
    after: Network,
    to: NodeId,
    junctions: Seq<Junction>,
    closing: RoadId,
    last: Road,
)
    requires
        roads_grown(before, grown, to, junctions),
        !grown.roads.contains_key(closing),
        middle.roads == grown.roads.insert(closing, last),
        roads_cut(middle, after, junctions, junctions.len() as int),
        forall|t: int|
            0 <= t < junctions.len() ==> before.roads.contains_key(
                (#[trigger] junctions[t]).crossed,
            ),
    ensures
        forall|r: RoadId| #[trigger]
            after.roads.contains_key(r) <==> (before.roads.contains_key(r) && !is_cut(
                junctions,
                r,
            )) || made_roads(junctions).push(closing).contains(r),
        forall|r: RoadId| #[trigger]
            after.roads.contains_key(r) ==> after.roads[r] == middle.roads[r],
        forall|r: RoadId| #[trigger]
            before.roads.contains_key(r) && !is_cut(junctions, r) ==> after.roads[r]
                == before.roads[r],
{
    let made = made_roads(junctions);
    let fresh = made.push(closing);
    lemma_fresh_roads(before, grown, to, junctions, closing);
    lemma_push_contains(made, closing);
    assert(junctions.take(junctions.len() as int) == junctions);
    assert forall|r: RoadId| is_cut(junctions, r) implies before.roads.contains_key(r) by {
        let t = choose|t: int| 0 <= t < junctions.len() && (#[trigger] junctions[t]).crossed == r;
        assert(before.roads.contains_key(junctions[t].crossed));
    }
    assert forall|r: RoadId| #[trigger]
        after.roads.contains_key(r) <==> (before.roads.contains_key(r) && !is_cut(junctions, r))
        || fresh.contains(r) by {
        if fresh.contains(r) {
            assert(made.contains(r) || r == closing);
            assert(!before.roads.contains_key(r));
            assert(middle.roads.contains_key(r));
            assert(!is_cut(junctions, r));
        }
        if after.roads.contains_key(r) {
            assert(middle.roads.contains_key(r));
            if r != closing {
                assert(grown.roads.contains_key(r));
            }
        }
        if before.roads.contains_key(r) && !is_cut(junctions, r) {
            assert(grown.roads.contains_key(r));
            assert(middle.roads.contains_key(r));
        }
    }
    assert forall|r: RoadId| #[trigger]
        before.roads.contains_key(r) && !is_cut(junctions, r) implies after.roads[r]
        == before.roads[r] by {
        assert(grown.roads.contains_key(r));
        assert(r != closing);
        assert(after.roads.contains_key(r));
    }
}

/// The two passes together draw the road.
pub proof fn lemma_connected(
    before: Network,
    grown: Network,
    middle: Network,
    after: Network,
    from: NodeId,
    to: NodeId,
    junctions: Seq<Junction>,
    closing: RoadId,
)
    requires
        before.wf(),
        junctions.len() == before.crossings(before.span(from, to)).len(),
        nodes_grown(before, grown, before.crossings(before.span(from, to)), junctions),
        roads_grown(before, grown, to, junctions),
        !grown.roads.contains_key(closing),
        middle.intersections == grown.intersections,
        middle.roads == grown.roads.insert(
            closing,
            Road { start: chain_before(junctions, to, junctions.len() as int), end: from },
        ),
        after.intersections == middle.intersections,
        roads_cut(middle, after, junctions, junctions.len() as int),
        forall|t: int|
            0 <= t < junctions.len() ==> before.roads.contains_key(
                (#[trigger] junctions[t]).crossed,
            ),
    ensures
        before.connected(after, from, to, junctions, closing),
        after.intersections.len() == before.intersections.len() + junctions.len(),
        after.roads.len() == before.roads.len() + 2 * junctions.len() + 1,
{
    let cuts = before.crossings(before.span(from, to));
    let last = Road { start: chain_before(junctions, to, junctions.len() as int), end: from };
    lemma_junctions_stand(before, grown, after, cuts, junctions);
    lemma_fresh_roads(before, grown, to, junctions, closing);
    lemma_roads_left(before, grown, middle, after, to, junctions, closing, last);
    lemma_push_contains(made_roads(junctions), closing);
    assert forall|j: int| 0 <= j < junctions.len() implies {
        let m = #[trigger] junctions[j];
        &&& after.roads[m.link] == Road { start: chain_before(junctions, to, j), end: m.node }
        &&& after.roads[m.first_half] == Road {
            start: before.roads[m.crossed].start,
            end: m.node,
        }
        &&& after.roads[m.second_half] == Road {
            start: m.node,
            end: before.roads[m.crossed].end,
        }
    } by {
        lemma_made_roads_hold(junctions, j);
        assert(joined(before, grown, to, junctions, j));
        let m = junctions[j];
        assert(after.roads.contains_key(m.link));
        assert(after.roads.contains_key(m.first_half));
        assert(after.roads.contains_key(m.second_half));
        assert(m.link != closing && m.first_half != closing && m.second_half != closing);
    }
    assert(after.roads.contains_key(closing));
    assert(roads_run(before, after, from, to, junctions, closing));
}

/// A road that crosses nothing is one new road between its two ends: no
/// intersection is added, and no road is changed or taken out.
pub proof fn lemma_uncrossed_road(
    before: Network,
    after: Network,
    from: NodeId,
    to: NodeId,
    junctions: Seq<Junction>,
    closing: RoadId,
)
    requires
        before.crossings(before.span(from, to)).len() == 0,
        before.connected(after, from, to, junctions, closing),
    ensures
        junctions.len() == 0,
        after.intersections == before.intersections,
        !before.roads.contains_key(closing),
        after.roads == before.roads.insert(closing, Road { start: to, end: from }),
{
    let fresh = made_roads(junctions).push(closing);
    assert(fresh[0] == closing);
    assert forall|n: NodeId| !is_junction(junctions, n) by {}
    assert forall|r: RoadId| !is_cut(junctions, r) by {}
    assert(after.intersections =~= before.intersections);
    assert forall|r: RoadId| fresh.contains(r) <==> r == closing by {
        lemma_push_contains(made_roads(junctions), closing);
    }
    assert(after.roads =~= before.roads.insert(closing, Road { start: to, end: from }));
}

/// A road that crosses exactly one road adds one intersection, at the
/// crossing, and leaves three roads more than there were: the crossed road
/// is gone, its two halves run from its old ends to the new intersection,
/// and two pieces of the new road join the new intersection to the two ends.
pub proof fn lemma_one_crossing(
    before: Network,
    after: Network,
    from: NodeId,
    to: NodeId,
    junctions: Seq<Junction>,
    closing: RoadId,
)
    requires
        before.wf(),
        before.crossings(before.span(from, to)).len() == 1,
        before.connected(after, from, to, junctions, closing),
    ensures
        junctions.len() == 1,
        junctions[0].crossed == before.crossings(before.span(from, to))[0].0,
        before.roads.contains_key(junctions[0].crossed),
        !after.roads.contains_key(junctions[0].crossed),
        !before.intersections.contains_key(junctions[0].node),
        after.intersections == before.intersections.insert(
            junctions[0].node,
            before.crossings(before.span(from, to))[0].1,
        ),
        after.roads == before.roads.remove(junctions[0].crossed).insert(
            junctions[0].link,
            Road { start: to, end: junctions[0].node },
        ).insert(
            junctions[0].first_half,
            Road { start: before.roads[junctions[0].crossed].start, end: junctions[0].node },
        ).insert(
            junctions[0].second_half,
            Road { start: junctions[0].node, end: before.roads[junctions[0].crossed].end },
        ).insert(closing, Road { start: junctions[0].node, end: from }),
        after.intersections.len() == before.intersections.len() + 1,
        after.roads.len() == before.roads.len() + 3,
{
    let cuts = before.crossings(before.span(from, to));
    let made = junctions[0];
    let fresh = made_roads(junctions).push(closing);
    lemma_crossings_sound(before, before.span(from, to));
    assert(before.roads.contains_key(cuts[0].0));
    assert(junctions.drop_last().len() == 0);
    assert(made_roads(junctions.drop_last()) =~= Seq::empty());
    assert(junctions.last() == made);
    assert(made_roads(junctions) =~= seq![made.link, made.first_half, made.second_half]);
    assert(fresh =~= seq![made.link, made.first_half, made.second_half, closing]);
    assert(fresh[0] == made.link && fresh[1] == made.first_half && fresh[2] == made.second_half
        && fresh[3] == closing);
    assert forall|r: RoadId| fresh.contains(r) <==> r == made.link || r == made.first_half || r
        == made.second_half || r == closing by {
        if r == made.link {
            assert(fresh[0] == r);
        }
        if r == made.first_half {
            assert(fresh[1] == r);
        }
        if r == made.second_half {
            assert(fresh[2] == r);
        }
        if r == closing {
            assert(fresh[3] == r);
        }
    }
    assert forall|r: RoadId| is_cut(junctions, r) <==> r == made.crossed by {
        if r == made.crossed {
            assert(junctions[0].crossed == r);
        }
    }
    assert forall|n: NodeId| is_junction(junctions, n) <==> n == made.node by {
        if n == made.node {
            assert(junctions[0].node == n);
        }
    }
    assert(!before.roads.contains_key(fresh[0]) && !before.roads.contains_key(fresh[1])
        && !before.roads.contains_key(fresh[2]) && !before.roads.contains_key(fresh[3]));
    assert(!fresh.contains(made.crossed));
    let grown = before.roads.remove(made.crossed).insert(
        made.link,
        Road { start: to, end: made.node },
    ).insert(
        made.first_half,
        Road { start: before.roads[made.crossed].start, end: made.node },
    ).insert(
        made.second_half,
        Road { start: made.node, end: before.roads[made.crossed].end },
    ).insert(closing, Road { start: made.node, end: from });
    assert(chain_before(junctions, to, 0) == to);
    assert(chain_before(junctions, to, 1) == made.node);
    assert(after.roads =~= grown);
    assert(after.intersections =~= before.intersections.insert(made.node, cuts[0].1));
    assert(made.link != made.first_half && made.link != made.second_half && made.link != closing
        && made.first_half != made.second_half && made.first_half != closing && made.second_half
        != closing) by {
        assert(fresh.no_duplicates());
    }
}

/// Drawing a road that crosses nothing, between two different
/// intersections of a network with room for one more road, succeeds and adds
/// exactly that road: every intersection stays as it was, no road is changed
/// or taken out, and the one new road joins the two intersections.
pub proof fn lemma_connect_across_nothing(
    before: Network,
    after: Network,
    from: NodeId,
    to: NodeId,
    outcome: Result<Connection, RoadError>,
)
    requires
        before.wf(),
        road_drawn(before, after, from, to, outcome),
        before.intersections.contains_key(from),
        before.intersections.contains_key(to),
        from != to,
        before.crossings(before.span(from, to)).len() == 0,
        before.room_for(0),
    ensures
        outcome is Ok,
        outcome.unwrap().junctions@.len() == 0,
        after.intersections == before.intersections,
        !before.roads.contains_key(outcome.unwrap().closing),
        after.roads == before.roads.insert(
            outcome.unwrap().closing,
            Road { start: to, end: from },
        ),
        after.roads.len() == before.roads.len() + 1,
        after.intersections.len() == before.intersections.len(),
        after.wf(),
{
    let made = outcome.unwrap();
    lemma_uncrossed_road(before, after, from, to, made.junctions@, made.closing);
}

/// The first road of a network: between two different intersections of a
/// network without roads, as long as there is a generation left, drawing
/// succeeds and leaves exactly one road, which joins the two.
pub proof fn lemma_connect_first_road(
    before: Network,
    after: Network,
    from: NodeId,
    to: NodeId,
    outcome: Result<Connection, RoadError>,
)
    requires
        before.wf(),
        road_drawn(before, after, from, to, outcome),
        before.intersections.contains_key(from),
        before.intersections.contains_key(to),
        from != to,
        forall|r: RoadId| !before.roads.contains_key(r),
        before.issued < u64::MAX,
    ensures
        outcome is Ok,
        after.intersections == before.intersections,
        after.roads.len() == 1,
        after.roads.contains_key(outcome.unwrap().closing),
        after.roads[outcome.unwrap().closing] == (Road { start: to, end: from }),
        forall|r: RoadId| #[trigger] after.roads.contains_key(r) ==> r == outcome.unwrap().closing,
{
    crate::crossings::lemma_no_roads_no_crossings(before, before.span(from, to));
    assert(before.roads.dom() =~= Set::<RoadId>::empty());
    assert(before.roads.len() == 0);
    lemma_connect_across_nothing(before, after, from, to, outcome);
}

/// Drawing a road that crosses exactly one road, between two different
/// intersections of a network with room for it, succeeds. It adds one
/// intersection, at the crossing, and leaves three roads more than there
/// were: the crossed road is gone, its two halves run from its old ends to
/// the new intersection, and two pieces of the new road join the new
/// intersection to the two ends. Everything else stays as it was.
pub proof fn lemma_connect_across_one(
    before: Network,
    after: Network,
    from: NodeId,
    to: NodeId,
    outcome: Result<Connection, RoadError>,
)
    requires
        before.wf(),
        road_drawn(before, after, from, to, outcome),
        before.intersections.contains_key(from),
        before.intersections.contains_key(to),
        from != to,
        before.crossings(before.span(from, to)).len() == 1,
        before.room_for(1),
    ensures
        outcome is Ok,
        outcome.unwrap().junctions@.len() == 1,
        ({
            let made = outcome.unwrap().junctions@[0];
            let closing = outcome.unwrap().closing;
            let cut = before.crossings(before.span(from, to))[0];
            let crossed = before.roads[made.crossed];
            &&& made.crossed == cut.0
            &&& before.roads.contains_key(made.crossed)
            &&& !after.roads.contains_key(made.crossed)
            &&& !before.intersections.contains_key(made.node)
            &&& after.intersections == before.intersections.insert(made.node, cut.1)
            &&& after.roads == before.roads.remove(made.crossed).insert(
                made.link,
                Road { start: to, end: made.node },
            ).insert(made.first_half, Road { start: crossed.start, end: made.node }).insert(
                made.second_half,
                Road { start: made.node, end: crossed.end },
            ).insert(closing, Road { start: made.node, end: from })
            &&& !before.roads.contains_key(made.link)
            &&& !before.roads.contains_key(made.first_half)
            &&& !before.roads.contains_key(made.second_half)
            &&& !before.roads.contains_key(closing)
            &&& made.link != made.first_half && made.link != made.second_half && made.link
                != closing && made.first_half != made.second_half && made.first_half != closing
                && made.second_half != closing
        }),
        after.intersections.len() == before.intersections.len() + 1,
        after.roads.len() == before.roads.len() + 3,
        after.wf(),
{
    let made = outcome.unwrap();
    lemma_one_crossing(before, after, from, to, made.junctions@, made.closing);
    let fresh = made_roads(made.junctions@).push(made.closing);
    let first = made.junctions@[0];
    assert(made.junctions@.drop_last().len() == 0);
    assert(made_roads(made.junctions@.drop_last()) =~= Seq::empty());
    assert(made.junctions@.last() == first);
    assert(fresh =~= seq![first.link, first.first_half, first.second_half, made.closing]);
    assert(fresh[0] == first.link && fresh[1] == first.first_half && fresh[2]
        == first.second_half && fresh[3] == made.closing);
    assert(fresh.no_duplicates());
}

} // verus!
