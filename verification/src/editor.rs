//! The editor: what a press, a move and a release of the pointer do to the
//! road system, depending on the action that is chosen.

use vstd::prelude::*;
use crate::city::{midpoint, StraightStreet};
use crate::input::MouseState;
use crate::math::line::Line;
use crate::math::point::Point;
use crate::crossings::{lemma_hits_unmoved, lemma_sorted_len};
use crate::network::{index_limit, lemma_outlived_by_later, Network, NodeId, Road, RoadId};
use crate::splitting::Connection;
use crate::roadsystem::{RoadIntersection, RoadSystem, MIN_ROAD_LENGTH, ROAD_WIDTH};
use crate::ui::RoadActions;

verus! {

/// What a release of the button made of the street that was drawn.
#[derive(Debug)]
pub enum Built {
    /// The button was not released in this frame.
    Nothing,
    /// The street would leave a piece shorter than allowed; it is dropped.
    Rejected,
    /// The network has no index left for it; it is dropped.
    Full,
    /// The street is part of the network now.
    Connected { from: NodeId, to: NodeId, connection: Connection },
}

/// What one frame in building mode did.
#[derive(Debug)]
pub struct BuildStep {
    /// The button went down: a preview street is to be shown.
    pub preview_started: bool,
    /// The street from where the button went down to where the pointer is.
    pub preview: StraightStreet,
    /// The button came up: the preview is to be taken away.
    pub preview_ended: bool,
    /// What became of the street.
    pub built: Built,
}

/// What a click in demolishing mode did.
#[derive(Clone, Copy, Debug, PartialEq, Eq, Structural)]
pub enum Demolished {
    /// Nothing was clicked, or another action is chosen.
    Nothing,
    /// The click was on no road.
    Missed,
    /// The road under the click is gone, and with it each of its ends that
    /// no other road reached.
    Removed { road: RoadId, ends: Road, start_removed: bool, end_removed: bool },
}

/// Whether `built` says what a release did to the network: nothing unless
/// the button came up; nothing if the street is not allowed or does not fit;
/// otherwise two intersections at the street's ends and the road between them.
pub open spec fn drawn(before: Network, after: Network, line: Line, released: bool, built: Built) -> bool {
    match built {
        Built::Nothing => !released && after == before,
        Built::Rejected => released && !before.allows(line, MIN_ROAD_LENGTH as int) && after
            == before,
        Built::Full => released && before.allows(line, MIN_ROAD_LENGTH as int) && before.too_full(
            line,
        ) && after == before,
        Built::Connected { from, to, connection } => {
            &&& released
            &&& before.allows(line, MIN_ROAD_LENGTH as int)
            &&& !before.too_full(line)
            &&& from != to
            &&& !before.intersections.contains_key(from)
            &&& !before.intersections.contains_key(to)
            &&& before.staked(from, to, line).crossings(line) == before.crossings(line)
            &&& before.staked(from, to, line).connected(
                after,
                from,
                to,
                connection.junctions@,
                connection.closing,
            )
            &&& after.wf()
        },
    }
}

/// Whether `outcome` says what a click at `at` did to the network.
pub open spec fn demolished(before: Network, after: Network, at: Point, clicked: bool, outcome: Demolished) -> bool {
    match outcome {
        Demolished::Nothing => !clicked && after == before,
        Demolished::Missed => {
            &&& clicked
            &&& after == before
            &&& forall|other: RoadId| !#[trigger] before.touches(other, at, ROAD_WIDTH as int)
        },
        Demolished::Removed { road, ends, start_removed, end_removed } => {
            let cut = Network {
                intersections: before.intersections,
                roads: before.roads.remove(road),
                issued: before.issued,
            };
            &&& clicked
            &&& before.touches(road, at, ROAD_WIDTH as int)
            &&& forall|other: RoadId|
                other.index < road.index ==> !#[trigger] before.touches(
                    other,
                    at,
                    ROAD_WIDTH as int,
                )
            &&& ends == before.roads[road]
            &&& start_removed == cut.isolated(ends.start)
            &&& end_removed == cut.isolated(ends.end)
            &&& after.roads == cut.roads
            &&& after.issued == before.issued
            &&& forall|n: NodeId| #[trigger]
                after.intersections.contains_key(n) <==> before.intersections.contains_key(n)
                    && !(start_removed && n == ends.start) && !(end_removed && n == ends.end)
            &&& forall|n: NodeId| #[trigger]
                after.intersections.contains_key(n) ==> after.intersections[n]
                    == before.intersections[n]
            &&& after.wf()
        },
    }
}

/// One frame of building. With another action chosen nothing happens. A
/// press sets the street's start where the pointer is; the preview runs from
/// there to the pointer; a release draws the street if the network allows it.
pub fn build_street(
    current_action: RoadActions,
    state: &mut MouseState,
    just_pressed: bool,
    just_released: bool,
    road_system: &mut RoadSystem,
) -> (step: Option<BuildStep>)
    ensures
        final(state).mouse_position == old(state).mouse_position,
        old(road_system)@.outlived_by(final(road_system)@),
        match step {
            None => {
                &&& current_action != RoadActions::Build
                &&& *final(state) == *old(state)
                &&& final(road_system)@ == old(road_system)@
            },
            Some(step) => {
                let start = if just_pressed {
                    old(state).mouse_position
                } else {
                    old(state).last_mouse_left_pressed_position
                };
                let end = old(state).mouse_position;
                &&& current_action == RoadActions::Build
                &&& final(state).last_mouse_left_pressed_position == start
                &&& step.preview_started == just_pressed
                &&& step.preview_ended == just_released
                &&& step.preview == (StraightStreet { position: midpoint(start, end), start, end })
                &&& drawn(
                    old(road_system)@,
                    final(road_system)@,
                    Line { point1: start, point2: end },
                    just_released,
                    step.built,
                )
            },
        },
{
    if current_action != RoadActions::Build {
        return None;
    }
    let end: Point = state.mouse_position;
    if just_pressed {
        state.last_mouse_left_pressed_position = end;
    }
    let start: Point = state.last_mouse_left_pressed_position;
    let preview = StraightStreet::new(start, end);
    let built: Built = if just_released {
        draw(road_system, start, end)
    } else {
        Built::Nothing
    };
    Some(BuildStep { preview_started: just_pressed, preview, preview_ended: just_released, built })
}

/// Draws a street from `start` to `end` if the network allows it and has
/// room for it.
fn draw(road_system: &mut RoadSystem, start: Point, end: Point) -> (built: Built)
    ensures
        drawn(
            old(road_system)@,
            final(road_system)@,
            Line { point1: start, point2: end },
            true,
            built,
        ),
        !(built is Nothing),
        old(road_system)@.outlived_by(final(road_system)@),
{
    let ghost before = road_system@;
    let ghost line = Line { point1: start, point2: end };
    if !road_system.valid_connection(&start, &end) {
        return Built::Rejected;
    }
    let cuts: Vec<(RoadId, Point)> = road_system.find_intersections_vec2(&start, &end);
    let k: usize = cuts.len();
    let nodes: usize = road_system.node_count();
    let roads: usize = road_system.edge_count();
    proof {
        lemma_sorted_len(start, before.hits(line));
    }
    if nodes as u128 + 2 + k as u128 > 0xFFFF_FFFF || roads as u128 + 3 * (k as u128) + 1
        > 0xFFFF_FFFF || road_system.issued() as u128 + 2 + 4 * (k as u128) + 1
        > 0xFFFF_FFFF_FFFF_FFFF {
        return Built::Full;
    }
    let from: NodeId = road_system.insert_intersection(RoadIntersection { position: start });
    let ghost one = road_system@;
    let to: NodeId = road_system.insert_intersection(RoadIntersection { position: end });
    let ghost staked = road_system@;
    proof {
        lemma_outlived_by_later(before, one, staked);
        assert(staked.intersections == before.intersections.insert(from, start).insert(to, end));
        assert(staked == before.staked(from, to, line));
        assert(staked.span(from, to) == line);
        lemma_hits_unmoved(before, staked, line, index_limit());
        assert(staked.crossings(line) == before.crossings(line));
        assert(staked.intersections.len() == before.intersections.len() + 2);
        assert(staked.refusal(from, to).is_none());
    }
    match road_system.connect_intersections(from, to) {
        Ok(connection) => {
            proof {
                lemma_outlived_by_later(before, staked, road_system@);
            }
            Built::Connected { from, to, connection }
        },
        Err(_) => {
            proof {
                assert(false);
            }
            Built::Full
        },
    }
}

/// One frame of demolishing. A click on a road, with that action chosen,
/// takes the road out, and each of its ends that no other road reaches.
pub fn destroy_street(
    current_action: RoadActions,
    state: &MouseState,
    just_pressed: bool,
    road_system: &mut RoadSystem,
) -> (outcome: Demolished)
    ensures
        demolished(
            old(road_system)@,
            final(road_system)@,
            state.mouse_position,
            current_action == RoadActions::Demolish && just_pressed,
            outcome,
        ),
        old(road_system)@.outlived_by(final(road_system)@),
{
    if current_action != RoadActions::Demolish || !just_pressed {
        return Demolished::Nothing;
    }
    let ghost before = road_system@;
    let at: Point = state.mouse_position;
    let road: RoadId = match road_system.point_intersect_connection(at) {
        Some(road) => road,
        None => {
            return Demolished::Missed;
        },
    };
    let ends: Road = match road_system.road(road) {
        Some(ends) => ends,
        None => {
            proof {
                assert(false);
            }
            return Demolished::Missed;
        },
    };
    proof {
        assert(before.intersections.contains_key(ends.start));
        assert(before.intersections.contains_key(ends.end));
        assert(ends.start != ends.end);
    }
    road_system.remove_road(road);
    let ghost cut = road_system@;
    let start_removed: bool = road_system.is_isolated(ends.start);
    if start_removed {
        let _gone = road_system.remove_intersection(ends.start);
        proof {
            assert(road_system@.roads =~= cut.roads);
            lemma_outlived_by_later(before, cut, road_system@);
        }
    }
    let ghost halfway = road_system@;
    let end_removed: bool = road_system.is_isolated(ends.end);
    if end_removed {
        let _gone = road_system.remove_intersection(ends.end);
        proof {
            assert(road_system@.roads =~= cut.roads);
            lemma_outlived_by_later(before, halfway, road_system@);
        }
    }
    proof {
        assert(road_system@.wf()) by {
            if !end_removed && !start_removed {
                assert(road_system@ == cut);
            }
        }
    }
    Demolished::Removed { road, ends, start_removed, end_removed }
}

} // verus!
