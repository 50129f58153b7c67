use aoc2022::day8::{
    generator, is_visible, look_out, parse, part1, part2, scenary, Direction, Position,
};

const INPUT: &str = "30373\n\
                     25512\n\
                     65332\n\
                     33549\n\
                     35390";

#[test]
fn test_generatro() {
    assert_eq!(
        vec![
            vec![3, 0, 3, 7, 3],
            vec![2, 5, 5, 1, 2],
            vec![6, 5, 3, 3, 2],
            vec![3, 3, 5, 4, 9],
            vec![3, 5, 3, 9, 0]
        ],
        generator(INPUT)
    );
}

#[test]
fn day8_test_part1() {
    assert_eq!(21, part1(&generator(INPUT)));
}

#[test]
fn day8_test_part2() {
    assert_eq!(8, part2(&generator(INPUT)));
}

#[test]
fn day8_trees_that_can_be_seen() {
    let t = true;
    let f = false;
    assert_eq!(
        vec![
            vec![t, t, t, t, t],
            vec![t, t, t, f, t],
            vec![t, t, f, t, t],
            vec![t, f, t, f, t],
            vec![t, t, t, t, t]
        ],
        is_visible(&generator(INPUT))
    );
    assert_eq!(vec![vec![true]], is_visible(&vec![vec![0]]));
    assert_eq!(1, part1(&vec![vec![7]]));
    // A tree as high as the tree before it is hidden, a higher one is not.
    assert_eq!(vec![vec![t, t, t], vec![t, f, t], vec![t, t, t]], is_visible(&generator("111\n111\n111")));
    assert_eq!(vec![vec![t, t, t], vec![t, t, t], vec![t, t, t]], is_visible(&generator("111\n121\n111")));
}

#[test]
fn day8_what_one_sees_from_a_tree() {
    let grid = generator(INPUT);
    // The middle 5 of the second row.
    assert_eq!(1, look_out(&grid, 2, 1, Direction::North, 5, 5));
    assert_eq!(1, look_out(&grid, 2, 1, Direction::West, 5, 5));
    assert_eq!(2, look_out(&grid, 2, 1, Direction::East, 5, 5));
    assert_eq!(2, look_out(&grid, 2, 1, Direction::South, 5, 5));
    assert_eq!(4, scenary(&grid, 2, 1, 5, 5));
    // The 5 of the fourth row.
    assert_eq!(8, scenary(&grid, 2, 3, 5, 5));
    // From an edge one sees nothing in one direction.
    assert_eq!(0, look_out(&grid, 0, 2, Direction::West, 5, 5));
    assert_eq!(0, scenary(&grid, 0, 2, 5, 5));
    assert_eq!(0, part2(&generator("12\n34")));
    assert_eq!(0, part2(&vec![vec![5]]));
    assert_eq!(1, part2(&generator("111\n111\n111")));
}

#[test]
fn day8_places_and_texts() {
    let mut p = Position { x: 3, y: 3 };
    p.go(Direction::North);
    assert_eq!((3, 2), (p.x, p.y));
    p.go(Direction::West);
    assert_eq!((2, 2), (p.x, p.y));
    p.go(Direction::South);
    p.go(Direction::East);
    assert_eq!((3, 3), (p.x, p.y));
    assert!(p.in_bounds(4, 4));
    assert!(!p.in_bounds(3, 4));
    assert!(!p.in_bounds(4, 3));
    assert!(!Position { x: -1, y: 0 }.in_bounds(4, 4));
    assert_eq!(9, Position { x: 4, y: 3 }.height(&generator(INPUT)));
    assert!(parse("12\nä").is_none());
    assert_eq!(Some(vec![vec![1, 2], vec![], vec![49]]), parse("12\n\na"));
}
