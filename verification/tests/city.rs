use road_network::city::{calculate_center_ws, StraightStreet};
use road_network::math::point::Point;

fn place(x: f64, y: f64) -> Point {
    Point::new((x * 1000.0).round() as i32, (y * 1000.0).round() as i32)
}

#[test]
fn it_works() {
    let street1 = StraightStreet {
        start: place(-50.0, 0.0),
        end: place(50.0, 0.0),
        position: place(0.0, 0.0),
    };

    let street2 = StraightStreet {
        start: place(0.0, 0.0),
        end: place(0.0, 100.0),
        position: place(0.0, 0.0),
    };

    let intersection = street1.intersection(&street2);

    assert!(intersection.is_some());

    if let Some(i) = intersection {
        assert_eq!(i, place(0.0, 0.0));
    }

    assert_eq!(2 + 2, 4);
}

#[test]
fn a_street_stands_in_the_middle_of_its_ends() {
    let street = StraightStreet::new(place(0.0, 0.0), place(100.0, 50.0));
    assert_eq!(street.position, place(50.0, 25.0));
    assert_eq!(street.start, place(0.0, 0.0));
    assert_eq!(street.end, place(100.0, 50.0));
    assert_eq!(calculate_center_ws(place(-30.0, 10.0), place(10.0, -30.0)), place(-10.0, -10.0));
    assert_eq!(calculate_center_ws(place(7.0, 7.0), place(7.0, 7.0)), place(7.0, 7.0));
}

#[test]
fn the_middle_is_rounded_halves_up() {
    assert_eq!(calculate_center_ws(Point::new(0, 0), Point::new(1, 1)), Point::new(1, 1));
    assert_eq!(calculate_center_ws(Point::new(-1, -1), Point::new(0, 0)), Point::new(0, 0));
    assert_eq!(calculate_center_ws(Point::new(-3, 2), Point::new(0, 5)), Point::new(-1, 4));
    assert_eq!(
        calculate_center_ws(Point::new(i32::MAX, i32::MIN), Point::new(i32::MAX, i32::MIN)),
        Point::new(i32::MAX, i32::MIN)
    );
    assert_eq!(
        calculate_center_ws(Point::new(i32::MIN, i32::MIN), Point::new(i32::MAX, i32::MAX)),
        Point::new(0, 0)
    );
}

#[test]
fn length_is_rounded_down_to_the_grid() {
    assert_eq!(StraightStreet::new(place(0.0, 0.0), place(3.0, 4.0)).length(), 5_000);
    assert_eq!(StraightStreet::new(place(-50.0, 0.0), place(50.0, 0.0)).length(), 100_000);
    assert_eq!(StraightStreet::new(Point::new(0, 0), Point::new(1, 1)).length(), 1);
    assert_eq!(StraightStreet::new(Point::new(5, 5), Point::new(5, 5)).length(), 0);
    assert_eq!(
        StraightStreet::new(Point::new(i32::MIN, 0), Point::new(i32::MAX, 0)).length(),
        4_294_967_295
    );
}

#[test]
fn direction_points_from_start_to_end() {
    assert_eq!(StraightStreet::new(place(1.0, 2.0), place(4.0, -2.0)).direction(), (3_000, -4_000));
    assert_eq!(
        StraightStreet::new(Point::new(i32::MAX, i32::MIN), Point::new(i32::MIN, i32::MAX)).direction(),
        (-4_294_967_295, 4_294_967_295)
    );
}

#[test]
fn moving_an_end_moves_the_middle() {
    let mut street = StraightStreet::new(place(0.0, 0.0), place(100.0, 0.0));
    street.set_start(place(-100.0, 0.0));
    assert_eq!(street, StraightStreet { position: place(0.0, 0.0), start: place(-100.0, 0.0), end: place(100.0, 0.0) });
    street.set_end(place(-100.0, 200.0));
    assert_eq!(
        street,
        StraightStreet { position: place(-100.0, 100.0), start: place(-100.0, 0.0), end: place(-100.0, 200.0) }
    );
}

#[test]
fn streets_that_miss_each_other_have_no_intersection() {
    let level = StraightStreet::new(place(0.0, 50.0), place(100.0, 50.0));
    let upright = StraightStreet::new(place(150.0, 0.0), place(150.0, 100.0));
    assert_eq!(level.intersection(&upright), None);
    assert_eq!(level.intersection(&level), None);
    let through = StraightStreet::new(place(50.0, 0.0), place(50.0, 100.0));
    assert_eq!(level.intersection(&through), Some(place(50.0, 50.0)));
}

#[test]
fn the_default_street_is_a_point_at_the_origin() {
    let street = StraightStreet::default();
    assert_eq!(street.start, Point::new(0, 0));
    assert_eq!(street.end, Point::new(0, 0));
    assert_eq!(street.position, Point::new(0, 0));
    assert_eq!(street.length(), 0);
}
