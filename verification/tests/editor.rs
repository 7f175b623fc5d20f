use road_network::city::StraightStreet;
use road_network::editor::{build_street, destroy_street, Built, Demolished};
use road_network::input::{print_mouse_events_system, MouseState};
use road_network::math::point::Point;
use road_network::network::Road;
use road_network::roadsystem::{RoadIntersection, RoadSystem};
use road_network::ui::{button_system, toggle_button_sytem, RoadActions, ToggleButton, ToggleState};

fn world(x: f64, y: f64) -> Point {
    Point::new((x * 1000.0).round() as i32, (y * 1000.0).round() as i32)
}

/// Presses at `from`, moves to `to` and releases there, in building mode.
fn drag(state: &mut MouseState, roads: &mut RoadSystem, from: Point, to: Point) -> Built {
    print_mouse_events_system(state, &vec![from]);
    let pressed = build_street(RoadActions::Build, state, true, false, roads).unwrap();
    assert!(pressed.preview_started);
    assert!(matches!(pressed.built, Built::Nothing));
    print_mouse_events_system(state, &vec![to]);
    let released = build_street(RoadActions::Build, state, false, true, roads).unwrap();
    assert!(released.preview_ended);
    assert_eq!(released.preview, StraightStreet::new(from, to));
    released.built
}

#[test]
fn the_pointer_is_where_its_last_move_left_it() {
    let mut state = MouseState::default();
    assert_eq!(state.mouse_position, Point::new(0, 0));
    print_mouse_events_system(&mut state, &vec![world(1.0, 1.0), world(2.0, 3.0)]);
    assert_eq!(state.mouse_position, world(2.0, 3.0));
    print_mouse_events_system(&mut state, &vec![]);
    assert_eq!(state.mouse_position, world(2.0, 3.0));
    assert_eq!(state.last_mouse_left_pressed_position, Point::new(0, 0));
}

#[test]
fn nothing_is_built_while_another_action_is_chosen() {
    let mut state = MouseState::default();
    let mut roads = RoadSystem::new();
    assert!(build_street(RoadActions::Nothing, &mut state, true, true, &mut roads).is_none());
    assert!(build_street(RoadActions::Demolish, &mut state, true, true, &mut roads).is_none());
    assert_eq!(roads.node_count(), 0);
    assert_eq!(state, MouseState::default());
}

#[test]
fn a_press_starts_the_preview_and_a_move_stretches_it() {
    let mut state = MouseState::default();
    let mut roads = RoadSystem::new();
    print_mouse_events_system(&mut state, &vec![world(10.0, 20.0)]);
    let pressed = build_street(RoadActions::Build, &mut state, true, false, &mut roads).unwrap();
    assert!(pressed.preview_started);
    assert!(!pressed.preview_ended);
    assert_eq!(state.last_mouse_left_pressed_position, world(10.0, 20.0));
    assert_eq!(pressed.preview, StraightStreet::new(world(10.0, 20.0), world(10.0, 20.0)));
    print_mouse_events_system(&mut state, &vec![world(110.0, 20.0)]);
    let moved = build_street(RoadActions::Build, &mut state, false, false, &mut roads).unwrap();
    assert!(!moved.preview_started);
    assert!(!moved.preview_ended);
    assert!(matches!(moved.built, Built::Nothing));
    assert_eq!(moved.preview.start, world(10.0, 20.0));
    assert_eq!(moved.preview.end, world(110.0, 20.0));
    assert_eq!(moved.preview.position, world(60.0, 20.0));
    assert_eq!(moved.preview.length(), 100_000);
    assert_eq!(roads.node_count(), 0);
}

#[test]
fn a_release_far_enough_away_builds_the_street() {
    let mut state = MouseState::default();
    let mut roads = RoadSystem::new();
    let built = drag(&mut state, &mut roads, world(0.0, 0.0), world(300.0, 0.0));
    match built {
        Built::Connected { from, to, connection } => {
            assert!(connection.junctions.is_empty());
            assert_eq!(roads.intersection(from), Some(RoadIntersection { position: world(0.0, 0.0) }));
            assert_eq!(roads.intersection(to), Some(RoadIntersection { position: world(300.0, 0.0) }));
            assert_eq!(roads.road(connection.closing), Some(Road { start: to, end: from }));
        },
        other => panic!("not built: {:?}", other),
    }
    assert_eq!(roads.node_count(), 2);
    assert_eq!(roads.edge_count(), 1);
}

#[test]
fn a_release_too_near_is_dropped() {
    let mut state = MouseState::default();
    let mut roads = RoadSystem::new();
    let built = drag(&mut state, &mut roads, world(0.0, 0.0), world(299.0, 0.0));
    assert!(matches!(built, Built::Rejected));
    assert_eq!(roads.node_count(), 0);
    assert_eq!(roads.edge_count(), 0);
}

#[test]
fn a_street_drawn_across_another_is_joined_to_it() {
    let mut state = MouseState::default();
    let mut roads = RoadSystem::new();
    assert!(matches!(
        drag(&mut state, &mut roads, world(0.0, -400.0), world(0.0, 400.0)),
        Built::Connected { .. }
    ));
    let built = drag(&mut state, &mut roads, world(-400.0, 0.0), world(400.0, 0.0));
    match built {
        Built::Connected { connection, .. } => {
            assert_eq!(connection.junctions.len(), 1);
            let middle = connection.junctions[0].node;
            assert_eq!(roads.intersection(middle).unwrap().position, world(0.0, 0.0));
        },
        other => panic!("not built: {:?}", other),
    }
    assert_eq!(roads.node_count(), 5);
    assert_eq!(roads.edge_count(), 4);
    // a street that would cut a piece too short is dropped
    let dropped = drag(&mut state, &mut roads, world(-400.0, 350.0), world(400.0, 350.0));
    assert!(matches!(dropped, Built::Rejected));
    assert_eq!(roads.node_count(), 5);
    assert_eq!(roads.edge_count(), 4);
}

#[test]
fn a_click_on_a_road_demolishes_it_with_its_loose_ends() {
    let mut state = MouseState::default();
    let mut roads = RoadSystem::new();
    drag(&mut state, &mut roads, world(0.0, 0.0), world(400.0, 0.0));
    print_mouse_events_system(&mut state, &vec![world(200.0, 2.0)]);
    assert_eq!(destroy_street(RoadActions::Build, &state, true, &mut roads), Demolished::Nothing);
    assert_eq!(destroy_street(RoadActions::Demolish, &state, false, &mut roads), Demolished::Nothing);
    assert_eq!(roads.edge_count(), 1);
    let outcome = destroy_street(RoadActions::Demolish, &state, true, &mut roads);
    match outcome {
        Demolished::Removed { start_removed, end_removed, .. } => {
            assert!(start_removed);
            assert!(end_removed);
        },
        other => panic!("not removed: {:?}", other),
    }
    assert_eq!(roads.node_count(), 0);
    assert_eq!(roads.edge_count(), 0);
    assert_eq!(destroy_street(RoadActions::Demolish, &state, true, &mut roads), Demolished::Missed);
}

#[test]
fn demolishing_one_arm_of_a_crossing_keeps_the_junction() {
    let mut state = MouseState::default();
    let mut roads = RoadSystem::new();
    drag(&mut state, &mut roads, world(0.0, -400.0), world(0.0, 400.0));
    drag(&mut state, &mut roads, world(-400.0, 0.0), world(400.0, 0.0));
    print_mouse_events_system(&mut state, &vec![world(200.0, 0.0)]);
    let outcome = destroy_street(RoadActions::Demolish, &state, true, &mut roads);
    match outcome {
        Demolished::Removed { road, ends, start_removed, end_removed } => {
            assert_eq!(roads.road(road), None);
            assert!(start_removed != end_removed);
            let kept = if start_removed { ends.end } else { ends.start };
            let gone = if start_removed { ends.start } else { ends.end };
            assert_eq!(roads.intersection(kept).unwrap().position, world(0.0, 0.0));
            assert_eq!(roads.intersection(gone), None);
        },
        other => panic!("not removed: {:?}", other),
    }
    assert_eq!(roads.node_count(), 4);
    assert_eq!(roads.edge_count(), 3);
    print_mouse_events_system(&mut state, &vec![world(200.0, 200.0)]);
    assert_eq!(destroy_street(RoadActions::Demolish, &state, true, &mut roads), Demolished::Missed);
    assert_eq!(roads.edge_count(), 3);
}

#[test]
fn a_click_turns_a_button_over() {
    let mut current = RoadActions::Nothing;
    let mut button = ToggleButton { state: ToggleState::Normal };
    assert!(button_system(&mut current, RoadActions::Build, &mut button, true));
    assert_eq!(button.state, ToggleState::Toggled);
    assert_eq!(current, RoadActions::Build);
    assert!(button_system(&mut current, RoadActions::Build, &mut button, false));
    assert_eq!(current, RoadActions::Build);
    assert!(!button_system(&mut current, RoadActions::Build, &mut button, true));
    assert_eq!(button.state, ToggleState::Normal);
    assert_eq!(current, RoadActions::Nothing);
    assert!(!button_system(&mut current, RoadActions::Build, &mut button, false));
    assert_eq!(button.state, ToggleState::Normal);
    assert_eq!(current, RoadActions::Nothing);
}

#[test]
fn a_button_that_is_not_down_leaves_the_chosen_action() {
    let mut current = RoadActions::Demolish;
    let mut button = ToggleButton { state: ToggleState::Normal };
    assert!(!button_system(&mut current, RoadActions::Build, &mut button, false));
    assert_eq!(current, RoadActions::Demolish);
}

#[test]
fn choosing_one_action_lets_the_other_button_up() {
    let mut build = ToggleButton { state: ToggleState::Toggled };
    let mut demolish = ToggleButton { state: ToggleState::Toggled };
    assert!(!toggle_button_sytem(RoadActions::Demolish, RoadActions::Demolish, &mut demolish));
    assert!(toggle_button_sytem(RoadActions::Demolish, RoadActions::Build, &mut build));
    assert_eq!(build.state, ToggleState::Normal);
    assert_eq!(demolish.state, ToggleState::Toggled);
    assert!(toggle_button_sytem(RoadActions::Nothing, RoadActions::Demolish, &mut demolish));
    assert_eq!(demolish.state, ToggleState::Normal);
}
