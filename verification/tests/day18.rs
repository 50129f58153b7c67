use aoc2022::day18::{fill, find_range, generator, parse, part1, part2, size, Blob, Kind, Point};

const INPUT: &str = "2,2,2
1,2,2
3,2,2
2,1,2
2,3,2
2,2,1
2,2,3
2,2,4
2,2,6
1,2,5
3,2,5
2,1,5
2,3,5";

fn at(x: i32, y: i32, z: i32) -> Point {
    Point { x, y, z }
}

/// A hollow cube of side 5 with one cube of air in its middle.
fn shell(hole: Option<Point>) -> Vec<Point> {
    let mut points = Vec::new();
    for x in 0..3 {
        for y in 0..3 {
            for z in 0..3 {
                if !(x == 1 && y == 1 && z == 1) && Some(at(x, y, z)) != hole {
                    points.push(at(x, y, z));
                }
            }
        }
    }
    points
}

#[test]
fn day18_test_part1() {
    let input = generator(INPUT);
    assert_eq!(13, input.len());
    assert_eq!(64, part1(&input));
}

#[test]
fn day18_test_part2() {
    assert_eq!(58, part2(&generator(INPUT)));
}

#[test]
fn day18_small_droplets() {
    assert_eq!(6, part1(&vec![at(1, 1, 1)]));
    assert_eq!(6, part2(&vec![at(1, 1, 1)]));
    assert_eq!(10, part1(&vec![at(1, 1, 1), at(2, 1, 1)]));
    assert_eq!(10, part2(&vec![at(1, 1, 1), at(2, 1, 1)]));
    assert_eq!(12, part1(&vec![at(1, 1, 1), at(3, 1, 1)]));
    assert_eq!(12, part2(&vec![at(1, 1, 1), at(3, 1, 1)]));
    assert_eq!(12, part1(&vec![at(-5, 0, 7), at(-4, 1, 7)]));
    assert_eq!(12, part2(&vec![at(-5, 0, 7), at(-4, 1, 7)]));
}

#[test]
fn day18_air_inside_does_not_count_outside() {
    // 26 cubes round one cube of air: 54 sides outside, 6 inside.
    assert_eq!(60, part1(&shell(None)));
    assert_eq!(54, part2(&shell(None)));
    // With a hole in a face, the air inside reaches outside: 5 more sides
    // inside the hole, 4 round it, less the side of the cube that is gone.
    assert_eq!(62, part1(&shell(Some(at(1, 1, 0)))));
    assert_eq!(62, part2(&shell(Some(at(1, 1, 0)))));
    // A hole at an edge does not open the inside: two sides less, four
    // more, and the six inside still do not count.
    assert_eq!(62, part1(&shell(Some(at(0, 0, 1)))));
    assert_eq!(56, part2(&shell(Some(at(0, 0, 1)))));
}

#[test]
fn day18_the_box_round_the_cubes() {
    let points = generator(INPUT);
    let mut blob = Blob::new(&points);
    assert_eq!((1..4, 1..4, 1..7), (blob.ranges[0].clone(), blob.ranges[1].clone(), blob.ranges[2].clone()));
    assert_eq!((3, 3, 6), (blob.boxes.len(), blob.boxes[0].len(), blob.boxes[0][0].len()));
    assert_eq!(Kind::Air, blob.get(&at(2, 2, 2)));
    blob.set(&at(2, 2, 2), Kind::Rock);
    blob.set(&at(2, 2, 3), Kind::Rock);
    blob.set(&at(1, 2, 2), Kind::Outside);
    assert_eq!(Kind::Rock, blob.get(&at(2, 2, 2)));
    assert_eq!(Kind::Outside, blob.get(&at(1, 2, 2)));
    assert_eq!(1, blob.get_neighbors(&at(2, 2, 2)));
    assert_eq!(2, blob.get_neighbors(&at(2, 2, 3 - 1 + 1 - 1)) + 1);
    assert_eq!(2, blob.get_neighbors(&at(3, 2, 2)) + blob.get_neighbors(&at(3, 2, 3)));
    assert_eq!(0, blob.get_neighbors(&at(1, 1, 1)));
    assert_eq!(1, blob.get_neighbors(&at(2, 2, 1)));
    assert!(blob.contains(&at(3, 3, 6)));
    assert!(!blob.contains(&at(4, 3, 6)));
    assert!(!blob.contains(&at(3, 3, 0)));
    let (filled, touching) = fill(&points);
    assert_eq!(7, touching);
    assert_eq!(Kind::Rock, filled.get(&at(2, 2, 6)));
    assert_eq!(Kind::Air, filled.get(&at(2, 2, 5)));
}

#[test]
fn day18_slices_and_faces() {
    let blob = Blob::new(&generator(INPUT));
    assert_eq!(
        vec![at(1, 5, 7), at(1, 5, 8), at(1, 6, 7), at(1, 6, 8), at(2, 5, 7), at(2, 5, 8), at(2, 6, 7), at(2, 6, 8)],
        blob.get_slice(&(1..3), &(5..7), &(7..9))
    );
    // 3 by 3 by 6: two faces of 18, two of 18 and two of 9 cubes.
    let edges = blob.get_box_edges();
    assert_eq!(2 * 18 + 2 * 18 + 2 * 9, edges.len());
    assert_eq!(at(1, 1, 1), edges[0]);
    // A corner lies on three faces.
    assert_eq!(3, edges.iter().filter(|p| **p == at(1, 1, 1)).count());
    assert_eq!(0, edges.iter().filter(|p| **p == at(2, 2, 2)).count());
    assert_eq!(Some(-3..8), find_range(&[5, -3, 7, 0]));
    assert_eq!(Some(4..5), find_range(&[4]));
    assert_eq!(None, find_range(&[]));
    assert_eq!(11, size(&(-3..8)));
    assert_eq!(0, size(&(2..2)));
}

#[test]
fn day18_lines_that_write_no_cube() {
    assert_eq!(Some(vec![at(1, -2, 3), at(4, 5, 6)]), parse("1,-2,3\n4,5,6,7\n"));
    assert!(parse("1,2").is_none());
    assert!(parse("1,2,x").is_none());
    assert!(parse("1,2,3,x").is_none());
    assert!(parse("1,2,3\n\n4,5,6").is_none());
    assert!(parse("1,2,2147483648").is_none());
    assert_eq!(Some(at(7, 8, 9)), Point::parse(b"7,8,9"));
}
