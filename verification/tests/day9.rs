use aoc2022::day9::{
    generator, parse, part1, part2, run_commands, signum, Command, Direction, Position, Rope,
};

const INPUT: &str = "R 4\n\
                     U 4\n\
                     L 3\n\
                     D 1\n\
                     R 4\n\
                     D 1\n\
                     L 5\n\
                     R 2";

const INPUT2: &str = "R 5\n\
                      U 8\n\
                      L 8\n\
                      D 3\n\
                      R 17\n\
                      D 10\n\
                      L 25\n\
                      U 20";

#[test]
fn day9_test_part1() {
    assert_eq!(13, part1(&generator(INPUT)));
}

#[test]
fn day9_test_part2() {
    assert_eq!(1, part2(&generator(INPUT)));
    assert_eq!(36, part2(&generator(INPUT2)));
}

#[test]
fn day9_a_knot_follows_when_it_no_longer_touches() {
    let cases = [
        ((0, 0), (0, 0), (0, 0)),
        ((0, 0), (1, 1), (0, 0)),
        ((0, 0), (-1, 1), (0, 0)),
        ((0, 0), (2, 0), (1, 0)),
        ((0, 0), (0, -2), (0, -1)),
        ((0, 0), (2, 1), (1, 1)),
        ((0, 0), (-1, -2), (-1, -1)),
        ((0, 0), (2, 2), (1, 1)),
        ((5, 5), (3, 7), (4, 6)),
    ];
    for (me, leader, expected) in cases {
        let mut knot = Position { x: me.0, y: me.1 };
        knot.follow(&Position { x: leader.0, y: leader.1 });
        assert_eq!(expected, (knot.x, knot.y));
    }
    assert_eq!(-1, signum(-9));
    assert_eq!(0, signum(0));
    assert_eq!(1, signum(i64::MAX));
}

#[test]
fn day9_the_rope_is_pulled_knot_by_knot() {
    let mut rope = Rope::new(2);
    assert_eq!(Position { x: 0, y: 0 }, rope.get_tail());
    rope.go(Direction::Right);
    rope.go(Direction::Right);
    assert_eq!(Position { x: 2, y: 0 }, rope.head);
    assert_eq!(vec![Position { x: 1, y: 0 }, Position { x: 0, y: 0 }], rope.tails);
    rope.go(Direction::Right);
    assert_eq!(vec![Position { x: 2, y: 0 }, Position { x: 1, y: 0 }], rope.tails);
    rope.go(Direction::Up);
    rope.go(Direction::Up);
    assert_eq!(Position { x: 3, y: -2 }, rope.head);
    assert_eq!(vec![Position { x: 3, y: -1 }, Position { x: 2, y: -1 }], rope.tails);
    rope.go(Direction::Down);
    rope.go(Direction::Left);
    assert_eq!(Position { x: 2, y: -1 }, rope.head);
    assert_eq!(Position { x: 2, y: -1 }, rope.get_tail());
}

#[test]
fn day9_places_are_counted_once() {
    assert_eq!(0, part1(&vec![]));
    assert_eq!(1, part1(&generator("R 1\nL 1\nR 1\nL 1")));
    assert_eq!(3, part1(&generator("R 3\nL 3\nR 3")));
    assert_eq!(3, run_commands(&generator("R 3\nL 3\nR 3"), 1));
    assert_eq!(2, run_commands(&generator("R 3\nL 3\nR 3"), 2));
    assert_eq!(0, run_commands(&vec![Command { dir: Direction::Up, count: 0 }], 3));
}

#[test]
fn day9_lines_that_write_no_move() {
    assert!(parse("R4").is_none());
    assert!(parse("X 4").is_none());
    assert!(parse("R  4").is_none());
    assert!(parse("R 4 ").is_none());
    assert!(parse("R -4").is_none());
    assert!(parse("R 4\n\nL 2").is_none());
    let moves = parse("D 12\nL +3").unwrap();
    assert_eq!(Direction::Down, moves[0].dir);
    assert_eq!(12, moves[0].count);
    assert_eq!(Direction::Left, moves[1].dir);
    assert_eq!(3, moves[1].count);
}
