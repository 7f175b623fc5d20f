use road_network::math::arith::{div_round_exec, sqrt_floor};
use road_network::math::line::{Line, Parallel};
use road_network::math::operations::Intersects;
use road_network::math::point::Point;

/// A point given in world units.
fn at(x: f64, y: f64) -> Point {
    Point::new((x * 1000.0).round() as i32, (y * 1000.0).round() as i32)
}

fn line(x1: f64, y1: f64, x2: f64, y2: f64) -> Line {
    Line { point1: at(x1, y1), point2: at(x2, y2) }
}

#[test]
fn lines_intersects() {
    let line1 = Line { point1: at(0.0, 0.0), point2: at(100.0, 0.0) };

    let line2 = Line { point1: at(50.0, 0.0), point2: at(0.0, 100.0) };

    assert_eq!(line1.intersects(&line2), true);
}

#[test]
fn lines_not_intersects() {
    let line1 = Line { point1: at(0.0, 50.0), point2: at(100.0, 50.0) };

    let line2 = Line { point1: at(150.0, 0.0), point2: at(150.0, 100.0) };

    assert_eq!(line1.intersects_position(&line2), None);
}

#[test]
fn crossing_of_the_literal_case_is_at_50_0() {
    let a = line(0.0, 0.0, 100.0, 0.0);
    let b = line(50.0, 0.0, 0.0, 100.0);
    assert_eq!(a.intersects_position(&b), Some(at(50.0, 0.0)));
}

#[test]
fn crossing_in_the_middle_of_two_diagonals() {
    let a = line(0.0, 0.0, 100.0, 100.0);
    let b = line(0.0, 100.0, 100.0, 0.0);
    assert_eq!(a.intersects_position(&b), Some(at(50.0, 50.0)));
    assert_eq!(b.intersects_position(&a), Some(at(50.0, 50.0)));
}

#[test]
fn touching_at_an_end_counts_as_crossing() {
    let a = line(0.0, 0.0, 100.0, 0.0);
    let b = line(100.0, 0.0, 100.0, 100.0);
    assert_eq!(a.intersects_position(&b), Some(at(100.0, 0.0)));
    let c = line(0.0, -10.0, 0.0, 10.0);
    assert_eq!(a.intersects_position(&c), Some(at(0.0, 0.0)));
}

#[test]
fn parallel_collinear_and_empty_segments_never_cross() {
    let a = line(0.0, 0.0, 100.0, 0.0);
    assert_eq!(a.intersects_position(&line(0.0, 10.0, 100.0, 10.0)), None);
    assert_eq!(a.intersects_position(&line(50.0, 0.0, 150.0, 0.0)), None);
    assert_eq!(a.intersects_position(&a), None);
    let dot = line(50.0, 0.0, 50.0, 0.0);
    assert_eq!(a.intersects_position(&dot), None);
    assert_eq!(dot.intersects_position(&a), None);
    assert!(!a.intersects(&dot));
}

#[test]
fn segments_whose_lines_meet_elsewhere_do_not_cross() {
    let a = line(0.0, 0.0, 10.0, 0.0);
    assert_eq!(a.intersects_position(&line(20.0, -5.0, 20.0, 5.0)), None);
    assert_eq!(a.intersects_position(&line(5.0, 1.0, 5.0, 9.0)), None);
    assert_eq!(a.intersects_position(&line(-0.001, -5.0, -0.001, 5.0)), None);
}

#[test]
fn crossing_is_rounded_to_the_nearest_grid_point_halves_up() {
    let upright = Line { point1: Point::new(1, -5), point2: Point::new(1, 5) };
    let rising = Line { point1: Point::new(0, 0), point2: Point::new(2, 1) };
    assert_eq!(rising.intersects_position(&upright), Some(Point::new(1, 1)));
    let falling = Line { point1: Point::new(0, 0), point2: Point::new(2, -1) };
    assert_eq!(falling.intersects_position(&upright), Some(Point::new(1, 0)));
    let flat = Line { point1: Point::new(0, 0), point2: Point::new(3, 1) };
    assert_eq!(flat.intersects_position(&upright), Some(Point::new(1, 0)));
}

#[test]
fn crossing_at_the_corners_of_the_grid() {
    let a = Line { point1: Point::new(i32::MIN, i32::MIN), point2: Point::new(i32::MAX, i32::MAX) };
    let b = Line { point1: Point::new(i32::MIN, i32::MAX), point2: Point::new(i32::MAX, i32::MIN) };
    assert_eq!(a.intersects_position(&b), Some(Point::new(0, 0)));
    let edge = Line { point1: Point::new(i32::MAX, i32::MIN), point2: Point::new(i32::MAX, i32::MAX) };
    assert_eq!(a.intersects_position(&edge), Some(Point::new(i32::MAX, i32::MAX)));
}

#[test]
fn parallel_of_a_level_line_lies_below_it() {
    let shifted = line(0.0, 0.0, 100.0, 0.0).parralel(5_000);
    assert_eq!(shifted, Some(line(0.0, -5.0, 100.0, -5.0)));
    let other_side = line(0.0, 0.0, 100.0, 0.0).parralel(-5_000);
    assert_eq!(other_side, Some(line(0.0, 5.0, 100.0, 5.0)));
}

#[test]
fn parallel_of_an_upright_and_of_a_slanted_line() {
    assert_eq!(line(0.0, 0.0, 0.0, 100.0).parralel(5_000), Some(line(5.0, 0.0, 5.0, 100.0)));
    assert_eq!(line(0.0, 0.0, 3.0, 4.0).parralel(5_000), Some(line(4.0, -3.0, 7.0, 1.0)));
    assert_eq!(line(0.0, 0.0, 3.0, 4.0).parralel(0), Some(line(0.0, 0.0, 3.0, 4.0)));
}

#[test]
fn a_point_has_no_parallel_and_none_leaves_the_grid() {
    assert_eq!(line(7.0, 7.0, 7.0, 7.0).parralel(5_000), None);
    let at_the_edge = Line { point1: Point::new(i32::MAX, 0), point2: Point::new(i32::MAX, 100) };
    assert_eq!(at_the_edge.parralel(5_000), None);
    assert_eq!(
        at_the_edge.parralel(-5_000),
        Some(Line { point1: Point::new(i32::MAX - 5_000, 0), point2: Point::new(i32::MAX - 5_000, 100) })
    );
}

#[test]
fn rounded_division_rounds_halves_up() {
    assert_eq!(div_round_exec(7, 2), 4);
    assert_eq!(div_round_exec(-7, 2), -3);
    assert_eq!(div_round_exec(5, 3), 2);
    assert_eq!(div_round_exec(4, 3), 1);
    assert_eq!(div_round_exec(-5, 3), -2);
    assert_eq!(div_round_exec(-4, 3), -1);
    assert_eq!(div_round_exec(1, 2), 1);
    assert_eq!(div_round_exec(-1, 2), 0);
    assert_eq!(div_round_exec(0, 9), 0);
    assert_eq!(div_round_exec(12, 4), 3);
    assert_eq!(div_round_exec(-12, 4), -3);
}

#[test]
fn square_root_is_rounded_down() {
    assert_eq!(sqrt_floor(0), 0);
    assert_eq!(sqrt_floor(1), 1);
    assert_eq!(sqrt_floor(3), 1);
    assert_eq!(sqrt_floor(24), 4);
    assert_eq!(sqrt_floor(25), 5);
    assert_eq!(sqrt_floor(26), 5);
    assert_eq!(sqrt_floor(90_000_000_000), 300_000);
    assert_eq!(sqrt_floor(u128::MAX), u64::MAX);
    assert_eq!(sqrt_floor(1u128 << 126), 1u64 << 63);
}

#[test]
fn distance_is_compared_exactly() {
    let origin = Point::new(0, 0);
    let p = Point::new(3, 4);
    assert_eq!(origin.distance_squared(&p), 25);
    assert!(origin.is_apart(&p, 5));
    assert!(!origin.is_apart(&p, 6));
    assert!(origin.is_apart(&origin, 0));
    let far = Point::new(i32::MAX, i32::MAX);
    let near = Point::new(i32::MIN, i32::MIN);
    assert_eq!(near.distance_squared(&far), 2 * 4294967295u128 * 4294967295u128);
    assert!(near.is_apart(&far, u32::MAX));
}

#[test]
fn a_point_is_near_a_segment_within_its_strip_only() {
    let road = line(0.0, 0.0, 100.0, 0.0);
    assert!(road.is_near(&at(50.0, 5.0), 5_000));
    assert!(road.is_near(&at(50.0, -5.0), 5_000));
    assert!(!road.is_near(&at(50.0, 5.001), 5_000));
    assert!(road.is_near(&at(0.0, 0.0), 5_000));
    assert!(road.is_near(&at(100.0, 2.0), 5_000));
    assert!(!road.is_near(&at(-0.001, 0.0), 5_000));
    assert!(!road.is_near(&at(100.001, 0.0), 5_000));
    assert!(road.is_near(&at(30.0, 0.0), 0));
    assert!(!road.is_near(&at(30.0, 0.001), 0));
    let slanted = line(0.0, 0.0, 30.0, 40.0);
    assert!(slanted.is_near(&at(19.0, 17.0), 5_000));
    assert!(!slanted.is_near(&at(19.001, 17.0), 5_000));
    assert!(!line(1.0, 1.0, 1.0, 1.0).is_near(&at(1.0, 1.0), 5_000));
}

#[test]
fn a_point_far_across_the_grid_is_not_near() {
    let road = Line { point1: Point::new(i32::MIN, i32::MIN), point2: Point::new(i32::MAX, i32::MIN) };
    assert!(!road.is_near(&Point::new(0, i32::MAX), u16::MAX));
    assert!(road.is_near(&Point::new(0, i32::MIN + 65_535), u16::MAX));
    assert!(!road.is_near(&Point::new(0, i32::MIN + 65_536), u16::MAX));
}

#[test]
fn parallel_of_a_segment_shorter_than_the_offset_is_as_far_away_as_the_offset() {
    let tiny = Line { point1: Point::new(0, 0), point2: Point::new(1, 1) };
    assert_eq!(
        tiny.parralel(5),
        Some(Line { point1: Point::new(4, -4), point2: Point::new(5, -3) })
    );
    assert_eq!(
        tiny.parralel(5_000),
        Some(Line { point1: Point::new(3_536, -3_536), point2: Point::new(3_537, -3_535) })
    );
    assert_eq!(
        tiny.parralel(-5_000),
        Some(Line { point1: Point::new(-3_536, 3_536), point2: Point::new(-3_535, 3_537) })
    );
    let step = Line { point1: Point::new(7, 7), point2: Point::new(7, 8) };
    assert_eq!(
        step.parralel(1_000_000),
        Some(Line { point1: Point::new(1_000_007, 7), point2: Point::new(1_000_007, 8) })
    );
}

#[test]
fn parallel_keeps_length_and_direction_and_the_distance_of_the_offset() {
    let lines = [
        (0, 0, 1, 1),
        (0, 0, 2, 1),
        (5, -3, 4, 9),
        (-1_000, 2_000, 3_000, -7_000),
        (0, 0, 100_000, 1),
        (123_456, -654_321, -1, 0),
        (-2_000_000_000, -2_000_000_000, 2_000_000_000, 2_000_000_000),
    ];
    let offsets = [1, -1, 2, 3, 5, -7, 5_000, -5_000, 99_999, 1_000_000];
    for (x1, y1, x2, y2) in lines {
        for offset in offsets {
            let given = Line { point1: Point::new(x1, y1), point2: Point::new(x2, y2) };
            let moved = given.parralel(offset).unwrap();
            let shift = (moved.point1.x as i128 - x1 as i128, moved.point1.y as i128 - y1 as i128);
            assert_eq!(moved.point2.x as i128 - x2 as i128, shift.0);
            assert_eq!(moved.point2.y as i128 - y2 as i128, shift.1);
            let squared = shift.0 * shift.0 + shift.1 * shift.1;
            let wanted = offset as i128 * offset as i128;
            let slack = 2 * (offset as i128).abs();
            assert!(wanted - slack <= squared && squared <= wanted + slack);
            let along = (x2 as i128 - x1 as i128, y2 as i128 - y1 as i128);
            let product = shift.0 * along.0 + shift.1 * along.1;
            assert!(2 * product.abs() < along.0.abs() + along.1.abs());
        }
    }
}

#[test]
fn parallel_at_the_largest_offset() {
    let at_the_bottom = Line { point1: Point::new(0, -1), point2: Point::new(1, -1) };
    assert_eq!(
        at_the_bottom.parralel(i32::MIN),
        Some(Line { point1: Point::new(0, i32::MAX), point2: Point::new(1, i32::MAX) })
    );
    let level = Line { point1: Point::new(0, 0), point2: Point::new(1, 0) };
    assert_eq!(level.parralel(i32::MIN), None);
    assert_eq!(
        level.parralel(i32::MAX),
        Some(Line { point1: Point::new(0, -i32::MAX), point2: Point::new(1, -i32::MAX) })
    );
    let across = Line { point1: Point::new(i32::MIN, i32::MIN), point2: Point::new(i32::MAX, i32::MAX) };
    assert_eq!(across.parralel(1_000), None);
    assert_eq!(
        Line { point1: Point::new(-1_000_000_000, -1_000_000_000), point2: Point::new(1_000_000_000, 1_000_000_000) }
            .parralel(1_000),
        Some(Line {
            point1: Point::new(-1_000_000_000 + 707, -1_000_000_000 - 707),
            point2: Point::new(1_000_000_000 + 707, 1_000_000_000 - 707),
        })
    );
}
