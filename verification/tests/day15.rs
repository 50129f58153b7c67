use aoc2022::day15::{
    are_modest, boxify, count_locations, dedup, divisions, find_sensor, generator,
    get_beacons_at_row, get_unavailable_at_row, parse, part1, part2, ranges_include_location,
    simplify_ranges, sort_ranges, Point, Sensor, SlantBox, SlantPoint,
};

const INPUT: &str = "Sensor at x=2, y=18: closest beacon is at x=-2, y=15\n\
                     Sensor at x=9, y=16: closest beacon is at x=10, y=16\n\
                     Sensor at x=13, y=2: closest beacon is at x=15, y=3\n\
                     Sensor at x=12, y=14: closest beacon is at x=10, y=16\n\
                     Sensor at x=10, y=20: closest beacon is at x=10, y=16\n\
                     Sensor at x=14, y=17: closest beacon is at x=10, y=16\n\
                     Sensor at x=8, y=7: closest beacon is at x=2, y=10\n\
                     Sensor at x=2, y=0: closest beacon is at x=2, y=10\n\
                     Sensor at x=0, y=11: closest beacon is at x=2, y=10\n\
                     Sensor at x=20, y=14: closest beacon is at x=25, y=17\n\
                     Sensor at x=17, y=20: closest beacon is at x=21, y=22\n\
                     Sensor at x=16, y=7: closest beacon is at x=15, y=3\n\
                     Sensor at x=14, y=3: closest beacon is at x=15, y=3\n\
                     Sensor at x=20, y=1: closest beacon is at x=15, y=3";

#[test]
fn day15_test_part1() {
    let sensors = generator(INPUT);
    assert_eq!(26, get_unavailable_at_row(&sensors, 10));
}

#[test]
fn day15_test_part2() {
    assert_eq!(Point { x: 14, y: 11 }, find_sensor(&generator(INPUT), 0..21, 0..21));
}

#[test]
fn sensors_are_read_from_their_lines() {
    let sensors = generator(INPUT);
    assert_eq!(14, sensors.len());
    assert_eq!(Point { x: 2, y: 18 }, sensors[0].location);
    assert_eq!(Point { x: -2, y: 15 }, sensors[0].closest);
    assert_eq!(Point { x: 20, y: 1 }, sensors[13].location);
    assert_eq!(Point { x: 15, y: 3 }, sensors[13].closest);
    assert!(are_modest(&sensors));
}

#[test]
fn lines_that_write_no_sensor_are_refused() {
    assert!(parse("").unwrap().is_empty());
    assert!(parse("Sensor at x=2, y=18").is_none());
    assert!(parse("Sensor at x=2, y=18: closest beacon is at x=-2").is_none());
    assert!(parse("Sensor at x=2, y=: closest beacon is at x=-2, y=15").is_none());
    assert!(parse("Sensor at x=a, y=18: closest beacon is at x=-2, y=15").is_none());
    assert!(parse("x=2, y=18: closest beacon is at x=-2, y=15").is_none());
    assert!(parse("Sensor at x=2, y=18: closest beacon is at x=-2, y=15\n").is_some());
    assert!(Point::parse(b"x=1, y=99999999999999999999").is_none());
    assert_eq!(Some(Point { x: -7, y: 12 }), Point::parse(b"x=-7, y=+12"));
}

#[test]
fn a_far_sensor_is_not_modest() {
    let far = vec![Sensor {
        location: Point { x: 100_000_001, y: 0 },
        closest: Point { x: 0, y: 0 },
    }];
    assert!(!are_modest(&far));
    assert!(!far[0].is_modest());
}

#[test]
fn a_sensor_rules_out_a_diamond() {
    let sensor = Sensor { location: Point { x: 8, y: 7 }, closest: Point { x: 2, y: 10 } };
    assert_eq!(9, sensor.min_distance());
    assert_eq!(Some(-1..18), sensor.invalid_range_on(7));
    assert_eq!(Some(2..15), sensor.invalid_range_on(10));
    assert_eq!(Some(7..10), sensor.invalid_range_on(-1));
    // the tips of the diamond are left out
    assert_eq!(None, sensor.invalid_range_on(-2));
    assert_eq!(None, sensor.invalid_range_on(16));
    assert_eq!(None, sensor.invalid_range_on(17));
}

#[test]
fn ranges_are_sorted_and_joined() {
    let sorted = sort_ranges(&vec![5..7, 1..9, 1..3, -4..0]);
    assert_eq!(vec![-4..0, 1..3, 1..9, 5..7], sorted);
    let mut ranges = vec![12..13, 2..5, 4..8, 8..10, 3..4, -3..1];
    simplify_ranges(&mut ranges);
    // ranges that only touch stay apart
    assert_eq!(vec![-3..1, 2..8, 8..10, 12..13], ranges);
    assert_eq!(13, count_locations(&ranges));
    assert!(ranges_include_location(&ranges, -3));
    assert!(!ranges_include_location(&ranges, 1));
    assert!(ranges_include_location(&ranges, 9));
    assert!(!ranges_include_location(&ranges, 10));
    let mut none: Vec<std::ops::Range<i64>> = Vec::new();
    simplify_ranges(&mut none);
    assert!(none.is_empty());
    assert_eq!(0, count_locations(&none));
}

#[test]
fn beacons_of_a_row_are_listed_once() {
    let sensors = generator(INPUT);
    assert_eq!(vec![2], get_beacons_at_row(&sensors, 10));
    assert_eq!(vec![10], get_beacons_at_row(&sensors, 16));
    assert_eq!(Vec::<i64>::new(), get_beacons_at_row(&sensors, 11));
    assert_eq!(vec![-2, 3, 7], dedup(&vec![-2, -2, 3, 7, 7, 7]));
    assert_eq!(vec![1, 4], divisions(&vec![9, 4, 1, 4, -3, 8], &(0..8)));
}

#[test]
fn rows_of_the_sample() {
    let sensors = generator(INPUT);
    assert_eq!(25, get_unavailable_at_row(&sensors, 9));
    assert_eq!(28, get_unavailable_at_row(&sensors, 11));
    // nothing is seen that far down
    assert_eq!(0, get_unavailable_at_row(&sensors, 1000));
    assert_eq!(0, part1(&sensors));
    assert_eq!(0, get_unavailable_at_row(&Vec::new(), 10));
}

#[test]
fn slanted_places_turn_back() {
    let slant = SlantPoint::from(&Point { x: 14, y: 11 });
    assert_eq!((25, -3), (slant.diag_x, slant.diag_y));
    assert!(slant.is_valid());
    assert_eq!(Point { x: 14, y: 11 }, slant.point());
    assert!(!SlantPoint { diag_x: 2, diag_y: -1 }.is_valid());
    assert!(SlantPoint { diag_x: -3, diag_y: -1 }.is_valid());
    assert_eq!(Point { x: -1, y: -2 }, SlantPoint { diag_x: -3, diag_y: -1 }.point());
    // off the grid, halves are rounded toward 0
    assert_eq!(Point { x: 1, y: 0 }, SlantPoint { diag_x: 2, diag_y: -1 }.point());
    assert_eq!(Point { x: -1, y: 0 }, SlantPoint { diag_x: -2, diag_y: 1 }.point());
}

#[test]
fn boxes_and_splits() {
    let sensor = Sensor { location: Point { x: 0, y: 0 }, closest: Point { x: 0, y: 1 } };
    let b: SlantBox = SlantBox::from(&sensor);
    assert_eq!((-1, 2, -1, 2), (b.left, b.right, b.bottom, b.top));
    assert_eq!(0, boxify(-5, &[0, 2, 7]));
    assert_eq!(1, boxify(2, &[0, 2, 7]));
    assert_eq!(2, boxify(3, &[0, 2, 7]));
    assert_eq!(3, boxify(8, &[0, 2, 7]));
    assert_eq!(0, boxify(8, &[]));
}

#[test]
fn the_first_free_crossing_is_found() {
    let sensors =
        vec![Sensor { location: Point { x: 0, y: 0 }, closest: Point { x: 0, y: 1 } }];
    assert_eq!(Point { x: 0, y: 2 }, find_sensor(&sensors, 0..4_000_001, 0..4_000_001));
    assert_eq!(2, part2(&sensors));
    // where every crossing is ruled out the origin is returned
    assert_eq!(Point { x: 0, y: 0 }, find_sensor(&sensors, 0..1, 0..1));
    assert_eq!(56000011, {
        let pt = find_sensor(&generator(INPUT), 0..21, 0..21);
        pt.x * 4_000_000 + pt.y
    });
}
