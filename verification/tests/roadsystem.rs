use road_network::math::line::Line;
use road_network::math::point::Point;
use road_network::network::{NodeId, Road, RoadError, RoadId};
use road_network::roadsystem::showing::road_strip;
use road_network::roadsystem::{RoadIntersection, RoadSystem};

fn spot(x: f64, y: f64) -> Point {
    Point::new((x * 1000.0).round() as i32, (y * 1000.0).round() as i32)
}

fn node(system: &mut RoadSystem, x: f64, y: f64) -> NodeId {
    system.insert_intersection(RoadIntersection::new(spot(x, y)))
}

/// A road from (0, -400) to (0, 400), and its two ends.
fn upright_road(system: &mut RoadSystem, x: f64) -> (NodeId, NodeId, RoadId) {
    let south = node(system, x, -400.0);
    let north = node(system, x, 400.0);
    let made = system.connect_intersections(south, north).unwrap();
    assert!(made.junctions.is_empty());
    (south, north, made.closing)
}

#[test]
fn a_new_system_is_empty() {
    let system = RoadSystem::new();
    assert_eq!(system.node_count(), 0);
    assert_eq!(system.edge_count(), 0);
    assert_eq!(system.intersection(NodeId { index: 0, generation: 0 }), None);
    assert_eq!(system.road(RoadId { index: 0, generation: 0 }), None);
    let shown = system.update();
    assert!(shown.intersections.is_empty());
    assert!(shown.roads.is_empty());
}

#[test]
fn inserted_intersections_are_found_again_under_their_names() {
    let mut system = RoadSystem::new();
    let a = node(&mut system, 1.0, 2.0);
    let b = node(&mut system, -3.0, 4.5);
    assert!(a != b);
    assert_eq!(system.node_count(), 2);
    assert_eq!(system.edge_count(), 0);
    assert_eq!(system.intersection(a), Some(RoadIntersection { position: spot(1.0, 2.0) }));
    assert_eq!(system.intersection(b), Some(RoadIntersection { position: spot(-3.0, 4.5) }));
    assert!(system.is_isolated(a));
}

#[test]
fn two_intersections_may_stand_at_the_same_place() {
    let mut system = RoadSystem::new();
    let a = node(&mut system, 5.0, 5.0);
    let b = node(&mut system, 5.0, 5.0);
    assert!(a != b);
    assert_eq!(system.node_count(), 2);
}

#[test]
fn connecting_across_nothing_makes_one_road_and_no_intersection() {
    let mut system = RoadSystem::new();
    let a = node(&mut system, 0.0, 0.0);
    let b = node(&mut system, 400.0, 0.0);
    let made = system.connect_intersections(a, b).unwrap();
    assert!(made.junctions.is_empty());
    assert_eq!(system.node_count(), 2);
    assert_eq!(system.edge_count(), 1);
    assert_eq!(system.road(made.closing), Some(Road { start: b, end: a }));
    assert!(!system.is_isolated(a));
    assert!(!system.is_isolated(b));
}

#[test]
fn connecting_across_one_road_splits_it() {
    let mut system = RoadSystem::new();
    let (south, north, old_road) = upright_road(&mut system, 0.0);
    let west = node(&mut system, -400.0, 0.0);
    let east = node(&mut system, 400.0, 0.0);
    assert_eq!(system.node_count(), 4);
    assert_eq!(system.edge_count(), 1);

    let made = system.connect_intersections(west, east).unwrap();

    assert_eq!(system.node_count(), 5);
    assert_eq!(system.edge_count(), 4);
    assert_eq!(made.junctions.len(), 1);
    let junction = made.junctions[0];
    assert_eq!(junction.crossed, old_road);
    assert_eq!(system.road(old_road), None);
    assert_eq!(system.intersection(junction.node), Some(RoadIntersection { position: spot(0.0, 0.0) }));
    assert_eq!(system.road(junction.first_half), Some(Road { start: north, end: junction.node }));
    assert_eq!(system.road(junction.second_half), Some(Road { start: junction.node, end: south }));
    assert_eq!(system.road(junction.link), Some(Road { start: east, end: junction.node }));
    assert_eq!(system.road(made.closing), Some(Road { start: junction.node, end: west }));
    let mut names = vec![junction.link, junction.first_half, junction.second_half, made.closing];
    names.sort_by_key(|road| road.index);
    names.dedup();
    assert_eq!(names.len(), 4);
    assert!(!names.contains(&old_road));
}

#[test]
fn connecting_across_two_roads_chains_the_junctions_from_the_far_end() {
    let mut system = RoadSystem::new();
    let (_, _, right_road) = upright_road(&mut system, 100.0);
    let (_, _, left_road) = upright_road(&mut system, -100.0);
    let west = node(&mut system, -400.0, 0.0);
    let east = node(&mut system, 400.0, 0.0);

    let made = system.connect_intersections(west, east).unwrap();

    assert_eq!(system.node_count(), 8);
    assert_eq!(system.edge_count(), 7);
    assert_eq!(made.junctions.len(), 2);
    let far = made.junctions[0];
    let near = made.junctions[1];
    assert_eq!(far.crossed, right_road);
    assert_eq!(near.crossed, left_road);
    assert_eq!(system.intersection(far.node).unwrap().position, spot(100.0, 0.0));
    assert_eq!(system.intersection(near.node).unwrap().position, spot(-100.0, 0.0));
    assert_eq!(system.road(far.link), Some(Road { start: east, end: far.node }));
    assert_eq!(system.road(near.link), Some(Road { start: far.node, end: near.node }));
    assert_eq!(system.road(made.closing), Some(Road { start: near.node, end: west }));
    assert_eq!(system.road(left_road), None);
    assert_eq!(system.road(right_road), None);
}

#[test]
fn connecting_is_refused_for_missing_or_equal_ends() {
    let mut system = RoadSystem::new();
    let a = node(&mut system, 0.0, 0.0);
    let stranger = NodeId { index: 77, generation: 0 };
    assert_eq!(system.connect_intersections(a, stranger).unwrap_err(), RoadError::IntersectionNotFound);
    assert_eq!(system.connect_intersections(stranger, a).unwrap_err(), RoadError::IntersectionNotFound);
    assert_eq!(system.connect_intersections(stranger, stranger).unwrap_err(), RoadError::IntersectionNotFound);
    assert_eq!(system.connect_intersections(a, a).unwrap_err(), RoadError::SameIntersection);
    assert_eq!(system.node_count(), 1);
    assert_eq!(system.edge_count(), 0);
}

#[test]
fn a_removed_name_is_not_found() {
    let mut system = RoadSystem::new();
    let a = node(&mut system, 0.0, 0.0);
    let b = node(&mut system, 400.0, 0.0);
    assert_eq!(system.remove_intersection(a), Ok(RoadIntersection { position: spot(0.0, 0.0) }));
    assert_eq!(system.intersection(a), None);
    assert_eq!(system.connect_intersections(a, b).unwrap_err(), RoadError::IntersectionNotFound);
    assert_eq!(system.remove_intersection(a), Err(RoadError::IntersectionNotFound));
    assert_eq!(system.node_count(), 1);
}

#[test]
fn crossings_are_found_by_rising_road_index() {
    let mut system = RoadSystem::new();
    let (_, _, right_road) = upright_road(&mut system, 100.0);
    let (_, _, left_road) = upright_road(&mut system, -100.0);
    let (_, _, _far_road) = upright_road(&mut system, 900.0);
    let west = node(&mut system, -400.0, 0.0);
    let east = node(&mut system, 400.0, 0.0);
    let hits = system.find_intersections(west, east);
    assert_eq!(hits, vec![(right_road, spot(100.0, 0.0)), (left_road, spot(-100.0, 0.0))]);
    let same = system.find_intersections_vec2(&spot(-400.0, 0.0), &spot(400.0, 0.0));
    assert_eq!(same, hits);
    assert_eq!(system.find_intersections(west, NodeId { index: 999, generation: 0 }), vec![]);
    assert_eq!(system.find_intersections_vec2(&spot(-400.0, 500.0), &spot(400.0, 500.0)), vec![]);
}

#[test]
fn crossings_are_sorted_nearest_first_and_ties_keep_their_order() {
    let system = RoadSystem::new();
    let r = |index: u32| RoadId { index, generation: 7 };
    let mut hits = vec![
        (r(0), spot(30.0, 0.0)),
        (r(1), spot(0.0, 10.0)),
        (r(2), spot(0.0, -30.0)),
        (r(3), spot(-10.0, 0.0)),
        (r(4), spot(20.0, 0.0)),
        (r(5), spot(18.0, 24.0)),
    ];
    system.sort_intersections_by_distance(&spot(0.0, 0.0), &mut hits);
    assert_eq!(
        hits,
        vec![
            (r(1), spot(0.0, 10.0)),
            (r(3), spot(-10.0, 0.0)),
            (r(4), spot(20.0, 0.0)),
            (r(0), spot(30.0, 0.0)),
            (r(2), spot(0.0, -30.0)),
            (r(5), spot(18.0, 24.0)),
        ]
    );
    let mut none: Vec<(RoadId, Point)> = vec![];
    system.sort_intersections_by_distance(&spot(0.0, 0.0), &mut none);
    assert!(none.is_empty());
    let mut far = vec![(r(0), spot(5.0, 5.0)), (r(1), spot(100.0, 100.0))];
    system.sort_intersections_by_distance(&spot(100.0, 100.0), &mut far);
    assert_eq!(far, vec![(r(1), spot(100.0, 100.0)), (r(0), spot(5.0, 5.0))]);
}

#[test]
fn intersects_looks_the_other_segment_up_by_name() {
    let mut system = RoadSystem::new();
    let south = node(&mut system, 0.0, -400.0);
    let north = node(&mut system, 0.0, 400.0);
    let hit = system.intersects(&spot(-400.0, 100.0), &spot(400.0, 100.0), south, north);
    assert_eq!(hit, Some(spot(0.0, 100.0)));
    let miss = system.intersects(&spot(-400.0, 500.0), &spot(400.0, 500.0), south, north);
    assert_eq!(miss, None);
    let unknown = system.intersects(&spot(-400.0, 100.0), &spot(400.0, 100.0), south, NodeId { index: 9, generation: 0 });
    assert_eq!(unknown, None);
}

#[test]
fn a_connection_that_crosses_nothing_is_valid_from_the_minimum_length_on() {
    let system = RoadSystem::new();
    assert!(!system.valid_connection(&spot(0.0, 0.0), &spot(299.999, 0.0)));
    assert!(system.valid_connection(&spot(0.0, 0.0), &spot(300.0, 0.0)));
    assert!(system.valid_connection(&spot(0.0, 0.0), &spot(180.0, 240.0)));
    assert!(!system.valid_connection(&spot(0.0, 0.0), &spot(179.999, 240.0)));
    assert!(!system.valid_connection(&spot(5.0, 5.0), &spot(5.0, 5.0)));
    assert!(system.valid_connection(&spot(-1000.0, -1000.0), &spot(1000.0, 1000.0)));
}

#[test]
fn a_connection_is_valid_only_if_every_piece_is_long_enough() {
    let mut system = RoadSystem::new();
    upright_road(&mut system, 0.0);
    // both pieces and both halves are 400 long
    assert!(system.valid_connection(&spot(-400.0, 0.0), &spot(400.0, 0.0)));
    // the first piece of the new road is 100 long
    assert!(!system.valid_connection(&spot(-100.0, 0.0), &spot(400.0, 0.0)));
    // the last piece of the new road is 100 long
    assert!(!system.valid_connection(&spot(-400.0, 0.0), &spot(100.0, 0.0)));
    // one half of the crossed road is 50 long
    assert!(!system.valid_connection(&spot(-400.0, 350.0), &spot(400.0, 350.0)));
    assert!(!system.valid_connection(&spot(-400.0, -350.0), &spot(400.0, -350.0)));
    // exactly at the minimum on every side
    assert!(system.valid_connection(&spot(-300.0, 100.0), &spot(300.0, 100.0)));
    assert!(!system.valid_connection(&spot(-300.0, 100.001), &spot(300.0, 100.001)));
    // long enough, beside the road
    assert!(system.valid_connection(&spot(10.0, -400.0), &spot(10.0, 400.0)));
    assert_eq!(system.node_count(), 2);
    assert_eq!(system.edge_count(), 1);
}

#[test]
fn pieces_between_two_crossings_count_too() {
    let mut system = RoadSystem::new();
    upright_road(&mut system, -100.0);
    upright_road(&mut system, 100.0);
    assert!(!system.valid_connection(&spot(-500.0, 0.0), &spot(500.0, 0.0)));
    let mut wide = RoadSystem::new();
    upright_road(&mut wide, -150.0);
    upright_road(&mut wide, 150.0);
    assert!(wide.valid_connection(&spot(-500.0, 0.0), &spot(500.0, 0.0)));
    assert!(wide.valid_connection(&spot(500.0, 0.0), &spot(-500.0, 0.0)));
}

#[test]
fn the_road_under_a_point_is_found() {
    let mut system = RoadSystem::new();
    let a = node(&mut system, 0.0, 0.0);
    let b = node(&mut system, 400.0, 0.0);
    let road = system.connect_intersections(a, b).unwrap().closing;
    assert_eq!(system.point_intersect_connection(spot(200.0, 3.0)), Some(road));
    assert_eq!(system.point_intersect_connection(spot(200.0, -5.0)), Some(road));
    assert_eq!(system.point_intersect_connection(spot(200.0, 6.0)), None);
    assert_eq!(system.point_intersect_connection(spot(-1.0, 0.0)), None);
    assert_eq!(system.point_intersect_connection(spot(401.0, 0.0)), None);
    assert_eq!(RoadSystem::new().point_intersect_connection(spot(0.0, 0.0)), None);
}

#[test]
fn of_two_roads_under_a_point_the_one_of_lower_index_is_found() {
    let mut system = RoadSystem::new();
    let a = node(&mut system, 0.0, 0.0);
    let b = node(&mut system, 400.0, 0.0);
    let first = system.connect_intersections(a, b).unwrap().closing;
    let second = system.connect_intersections(a, b).unwrap().closing;
    assert!(first.index < second.index);
    assert_eq!(system.edge_count(), 2);
    assert_eq!(system.point_intersect_connection(spot(200.0, 0.0)), Some(first));
    assert!(system.remove_road(first));
    assert_eq!(system.point_intersect_connection(spot(200.0, 0.0)), Some(second));
    assert!(!system.remove_road(first));
}

#[test]
fn disconnecting_takes_the_road_and_leaves_its_ends() {
    let mut system = RoadSystem::new();
    let a = node(&mut system, 0.0, 0.0);
    let b = node(&mut system, 400.0, 0.0);
    let c = node(&mut system, 800.0, 0.0);
    let first = system.connect_intersections(a, b).unwrap().closing;
    let second = system.connect_intersections(b, c).unwrap().closing;
    assert_eq!(system.edge_count(), 2);
    assert_eq!(system.disconnect_intersections(b, a), Ok(first));
    assert_eq!(system.edge_count(), 1);
    assert_eq!(system.node_count(), 3);
    assert_eq!(system.road(first), None);
    assert_eq!(system.road(second), Some(Road { start: c, end: b }));
    assert!(system.is_isolated(a));
    assert!(!system.is_isolated(b));
    assert_eq!(system.disconnect_intersections(a, b), Err(RoadError::RoadNotFound));
    assert_eq!(system.disconnect_intersections(a, c), Err(RoadError::RoadNotFound));
    assert_eq!(system.disconnect_intersections(a, NodeId { index: 50, generation: 0 }), Err(RoadError::IntersectionNotFound));
    assert_eq!(system.disconnect_intersections(NodeId { index: 50, generation: 0 }, a), Err(RoadError::IntersectionNotFound));
    assert_eq!(system.edge_count(), 1);
    assert_eq!(system.disconnect_intersections(b, c), Ok(second));
    assert_eq!(system.edge_count(), 0);
}

#[test]
fn removing_an_intersection_takes_its_roads_along() {
    let mut system = RoadSystem::new();
    let (south, north, _) = upright_road(&mut system, 0.0);
    let west = node(&mut system, -400.0, 0.0);
    let east = node(&mut system, 400.0, 0.0);
    let made = system.connect_intersections(west, east).unwrap();
    let middle = made.junctions[0].node;
    let (_, _, beside) = upright_road(&mut system, 900.0);
    assert_eq!(system.edge_count(), 5);
    assert_eq!(system.remove_intersection(middle), Ok(RoadIntersection { position: spot(0.0, 0.0) }));
    assert_eq!(system.edge_count(), 1);
    assert_eq!(system.node_count(), 6);
    assert_eq!(system.intersection(middle), None);
    assert_eq!(system.road(made.closing), None);
    assert_eq!(system.road(made.junctions[0].link), None);
    assert!(system.road(beside).is_some());
    for end in [south, north, west, east] {
        assert!(system.intersection(end).is_some());
        assert!(system.is_isolated(end));
    }
}

#[test]
fn what_is_shown_lists_every_intersection_and_road_by_rising_index() {
    let mut system = RoadSystem::new();
    let a = node(&mut system, 0.0, 0.0);
    let b = node(&mut system, 400.0, 0.0);
    let c = node(&mut system, 800.0, 0.0);
    system.connect_intersections(a, b).unwrap();
    system.connect_intersections(b, c).unwrap();
    let shown = system.update();
    assert_eq!(
        shown.intersections,
        vec![(a, spot(0.0, 0.0)), (b, spot(400.0, 0.0)), (c, spot(800.0, 0.0))]
    );
    assert_eq!(
        shown.roads,
        vec![
            Line { point1: spot(400.0, 0.0), point2: spot(0.0, 0.0) },
            Line { point1: spot(800.0, 0.0), point2: spot(400.0, 0.0) },
        ]
    );
    system.remove_intersection(a).unwrap();
    let fewer = system.update();
    assert_eq!(fewer.intersections, vec![(b, spot(400.0, 0.0)), (c, spot(800.0, 0.0))]);
    assert_eq!(fewer.roads, vec![Line { point1: spot(800.0, 0.0), point2: spot(400.0, 0.0) }]);
}

#[test]
fn showing_twice_shows_the_same() {
    let mut system = RoadSystem::new();
    upright_road(&mut system, 0.0);
    let west = node(&mut system, -400.0, 0.0);
    let east = node(&mut system, 400.0, 0.0);
    system.connect_intersections(west, east).unwrap();
    let first = system.update();
    let second = system.update();
    assert_eq!(first.intersections, second.intersections);
    assert_eq!(first.roads, second.roads);
    assert_eq!(first.intersections.len(), 5);
    assert_eq!(first.roads.len(), 4);
}

#[test]
fn no_road_dangles_after_any_operation() {
    let mut system = RoadSystem::new();
    upright_road(&mut system, 0.0);
    upright_road(&mut system, 200.0);
    let west = node(&mut system, -400.0, 0.0);
    let east = node(&mut system, 600.0, 0.0);
    let made = system.connect_intersections(west, east).unwrap();
    system.remove_intersection(made.junctions[0].node).unwrap();
    system.disconnect_intersections(made.junctions[1].node, west).unwrap();
    let shown = system.update();
    let names: Vec<NodeId> = shown.intersections.iter().map(|entry| entry.0).collect();
    let mut roads = 0;
    for index in 0..64 {
        for generation in 0..64 {
            if let Some(road) = system.road(RoadId { index, generation }) {
                roads += 1;
                assert!(names.contains(&road.start));
                assert!(names.contains(&road.end));
                assert!(road.start != road.end);
            }
        }
    }
    assert_eq!(roads, system.edge_count());
    assert_eq!(shown.roads.len(), system.edge_count());
    assert_eq!(names.len(), system.node_count());
}

#[test]
fn a_road_is_drawn_as_a_strip_beside_its_segment() {
    let road = Line { point1: spot(0.0, 0.0), point2: spot(100.0, 0.0) };
    let side = Line { point1: spot(0.0, -5.0), point2: spot(100.0, -5.0) };
    assert_eq!(road_strip(&road), Some((road, side)));
    let short = Line { point1: spot(0.0, 0.0), point2: spot(9.999, 0.0) };
    assert_eq!(road_strip(&short), None);
    let just = Line { point1: spot(0.0, 0.0), point2: spot(0.0, 10.0) };
    assert_eq!(road_strip(&just), Some((just, Line { point1: spot(5.0, 0.0), point2: spot(5.0, 10.0) })));
    let edge = Line { point1: Point::new(i32::MAX, 0), point2: Point::new(i32::MAX, 20_000) };
    assert_eq!(road_strip(&edge), None);
}

#[test]
fn a_name_given_out_after_a_removal_names_the_new_intersection_only() {
    let mut system = RoadSystem::new();
    let a = node(&mut system, 0.0, 0.0);
    let b = node(&mut system, 400.0, 0.0);
    let old_road = system.connect_intersections(a, b).unwrap().closing;
    system.remove_intersection(a).unwrap();
    let c = node(&mut system, 7.0, 7.0);
    assert!(c != b);
    assert!(c != a);
    assert!(c.generation > a.generation);
    // the old names stay unknown, whichever slots the new ones took
    assert_eq!(system.intersection(a), None);
    assert_eq!(system.intersection(NodeId { index: c.index, generation: a.generation }), None);
    assert_eq!(system.road(old_road), None);
    assert_eq!(system.remove_intersection(a), Err(RoadError::IntersectionNotFound));
    assert_eq!(system.connect_intersections(a, b).unwrap_err(), RoadError::IntersectionNotFound);
    assert_eq!(system.disconnect_intersections(a, b), Err(RoadError::IntersectionNotFound));
    assert!(!system.remove_road(old_road));
    assert_eq!(system.node_count(), 2);
    assert_eq!(system.edge_count(), 0);
    assert_eq!(system.intersection(c), Some(RoadIntersection { position: spot(7.0, 7.0) }));
    assert_eq!(system.intersection(b), Some(RoadIntersection { position: spot(400.0, 0.0) }));
    assert!(system.is_isolated(c));
    let road = system.connect_intersections(c, b).unwrap().closing;
    assert_eq!(system.road(road), Some(Road { start: b, end: c }));
    assert_eq!(system.edge_count(), 1);
    assert!(road != old_road);
    assert_eq!(system.road(RoadId { index: road.index, generation: old_road.generation }), None);
    assert!(!system.remove_road(RoadId { index: road.index, generation: road.generation + 1 }));
    assert_eq!(system.edge_count(), 1);
}

#[test]
fn every_name_given_out_has_a_generation_of_its_own() {
    let mut system = RoadSystem::new();
    assert_eq!(system.issued(), 0);
    let a = node(&mut system, 0.0, -400.0);
    let b = node(&mut system, 0.0, 400.0);
    assert_eq!((a.generation, b.generation), (0, 1));
    let first = system.connect_intersections(a, b).unwrap();
    assert_eq!(first.closing.generation, 2);
    assert_eq!(system.issued(), 3);
    let west = node(&mut system, -400.0, 0.0);
    let east = node(&mut system, 400.0, 0.0);
    let made = system.connect_intersections(west, east).unwrap();
    assert_eq!(system.issued(), 10);
    let junction = made.junctions[0];
    let mut generations = vec![
        junction.node.generation,
        junction.link.generation,
        junction.first_half.generation,
        junction.second_half.generation,
        made.closing.generation,
    ];
    generations.sort();
    assert_eq!(generations, vec![5, 6, 7, 8, 9]);
    system.remove_intersection(junction.node).unwrap();
    assert_eq!(system.issued(), 10);
    let again = node(&mut system, 0.0, 0.0);
    assert_eq!(again.generation, 10);
}

#[test]
fn inserting_with_a_check_for_room_gives_the_same_as_inserting() {
    let mut system = RoadSystem::new();
    let a = system.try_insert_intersection(RoadIntersection::new(spot(1.0, 1.0))).unwrap();
    let b = system.insert_intersection(RoadIntersection::new(spot(2.0, 2.0)));
    assert_eq!(system.intersection(a), Some(RoadIntersection { position: spot(1.0, 1.0) }));
    assert_eq!((a.generation, b.generation), (0, 1));
    assert_eq!(system.node_count(), 2);
}
