use aoc2022::day12::{generator, part1, part2, Position, Puzzle};

const INPUT: &str = "Sabqponm\n\
                     abcryxxl\n\
                     accszExk\n\
                     acctuvwj\n\
                     abdefghi";

#[test]
fn day12_test_part1() {
    assert_eq!(31, part1(&generator(INPUT)));
}

#[test]
fn day12_test_part2() {
    //assert_eq!(2713310158, part2(&generator(INPUT)));
}

#[test]
fn day12_the_second_part_answers_nothing() {
    assert_eq!(0, part2(&generator(INPUT)));
}

#[test]
fn day12_the_map_is_read() {
    let puzzle = generator(INPUT);
    assert_eq!(8, puzzle.width);
    assert_eq!(5, puzzle.height);
    assert_eq!(Position { x: 0, y: 0 }, puzzle.start);
    assert_eq!(Position { x: 5, y: 2 }, puzzle.end);
    assert_eq!(vec![0, 0, 1, 16, 15, 14, 13, 12], puzzle.elevations[0]);
    assert_eq!(vec![0, 2, 2, 18, 25, 25, 23, 10], puzzle.elevations[2]);
    let empty = generator("");
    assert_eq!((0, 0), (empty.width, empty.height));
    assert_eq!(Position { x: 0, y: 0 }, empty.start);
    // The last mark counts.
    let twice = generator("SaS\nEbE\naSa");
    assert_eq!(Position { x: 1, y: 2 }, twice.start);
    assert_eq!(Position { x: 2, y: 1 }, twice.end);
    assert!(Puzzle::parse("ab\nc1").is_none());
    assert!(Puzzle::parse("aB").is_none());
}

#[test]
fn day12_steps_rise_by_one_at_most() {
    let puzzle = generator(INPUT);
    let at = |x, y| Position { x, y };
    assert_eq!(vec![at(1, 0), at(0, 1)], puzzle.next(&at(0, 0)));
    // From the `c` of the second row: not up to the `q`, not right to the `r`.
    assert_eq!(vec![at(1, 1), at(2, 0), at(2, 2)], puzzle.next(&at(2, 1)));
    // Down is always possible.
    assert_eq!(vec![at(4, 2), at(6, 2), at(5, 1), at(5, 3)], puzzle.next(&at(5, 2)));
    assert_eq!(vec![at(6, 4), at(7, 3)], puzzle.next(&at(7, 4)));
    let single = generator("a");
    assert_eq!(Vec::<Position>::new(), single.next(&at(0, 0)));
}

#[test]
fn day12_shortest_ways() {
    // The end is where the start is.
    let mut puzzle = generator("a");
    assert_eq!(0, part1(&puzzle));
    puzzle = generator("SE");
    puzzle.end = Position { x: 0, y: 0 };
    assert_eq!(0, part1(&puzzle));
    // Straight up the stairs.
    assert_eq!(25, part1(&generator("SbcdefghijklmnopqrstuvwxyE")));
    // Too steep: no way leads to the end.
    assert_eq!(usize::MAX, part1(&generator("SacE")));
    assert_eq!(usize::MAX, part1(&generator("SbE")));
    // The stairs go round a bend.
    assert_eq!(25, part1(&generator("Sbcdefghijklm\nEyxwvutsrqpon")));
    // The nearest way counts.
    let mut puzzle = generator("Sbcxy\naaczz\naaaaa");
    puzzle.end = Position { x: 4, y: 2 };
    assert_eq!(6, part1(&puzzle));
    puzzle.end = Position { x: 2, y: 1 };
    assert_eq!(3, part1(&puzzle));
    // Round the wall.
    let mut puzzle = generator("Saa\nzza\naaa");
    puzzle.end = Position { x: 0, y: 2 };
    assert_eq!(6, part1(&puzzle));
    // Down from the wall, but not up to it.
    puzzle.end = Position { x: 1, y: 1 };
    assert_eq!(usize::MAX, part1(&puzzle));
    puzzle.start = Position { x: 1, y: 1 };
    puzzle.end = Position { x: 0, y: 0 };
    assert_eq!(2, part1(&puzzle));
}
