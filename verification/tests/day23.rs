use aoc2022::day23::{
    count_wishes, generator, is_occupied, part1, part2, try_part2, Direction, InputType, Position,
    State,
};

const INPUT: &str = "....#..
..###.#
#...#.#
.#...##
#.###..
##.#.##
.#..#..";

fn at(x: i32, y: i32) -> Position {
    Position { x, y }
}

fn picture(elves: &[Position], x0: i32, y0: i32, width: i32, height: i32) -> Vec<String> {
    (y0..y0 + height)
        .map(|y| (x0..x0 + width).map(|x| if elves.contains(&at(x, y)) { '#' } else { '.' }).collect())
        .collect()
}

#[test]
fn test_tiny() {
    let tiny = "##\n\
                      #\n\
                      \n\
                      ##";
    let input = generator(tiny);
    assert_eq!(25, part1(&input));
}

#[test]
fn day23_test_part1() {
    let input = generator(INPUT);
    assert_eq!(110, part1(&input));
}

#[test]
fn day23_test_part2() {
    assert_eq!(20, part2(&generator(INPUT)));
}

#[test]
fn day23_elves_are_read_line_by_line() {
    let input = generator("#.#\n\n.#");
    assert_eq!(vec![at(0, 0), at(2, 0), at(1, 2)], input.elves);
    assert!(generator("").elves.is_empty());
    assert_eq!(vec![at(1, 0)], generator("x#y").elves);
    assert_eq!(at(2, 1), at(3, 2).advance(Direction::NorthWest));
    assert_eq!(at(3, 3), at(3, 2).advance(Direction::South));
    assert_eq!(at(4, 2), at(3, 2).advance(Direction::East));
    assert_eq!(at(2, 3), at(3, 2).advance(Direction::SouthWest));
    assert!(is_occupied(&input.elves, &at(2, 0)));
    assert!(!is_occupied(&input.elves, &at(0, 2)));
}

#[test]
fn day23_small_field_turn_by_turn() {
    let input = generator(".....\n..##.\n..#..\n.....\n..##.\n.....");
    let mut state = State::new(&input);
    assert!(state.everybody_move());
    assert_eq!(vec!["..##.", ".....", "..#..", "...#.", "..#..", "....."], picture(&state.elves, 0, 0, 5, 6));
    assert_eq!((1, 1), (state.first_rule, state.turn));
    assert!(state.everybody_move());
    assert_eq!(vec![".....", "..##.", ".#...", "....#", ".....", "..#.."], picture(&state.elves, 0, 0, 5, 6));
    assert!(state.everybody_move());
    assert_eq!(vec!["..#..", "....#", "#....", "....#", ".....", "..#.."], picture(&state.elves, 0, 0, 5, 6));
    assert!(!state.everybody_move());
    assert_eq!((0, 4), (state.first_rule, state.turn));
    assert_eq!(4, part2(&input));
    assert_eq!((0..5, 0..6), state.find_range());
    assert_eq!(30, state.find_size());
}

#[test]
fn day23_rules_and_proposals() {
    let elves = vec![at(0, 0), at(0, 1), at(5, 5)];
    let mut state = State { elves: elves.clone(), first_rule: 0, turn: 0 };
    // An elf to the south: north is free. Alone: no proposal.
    assert_eq!(Some(Direction::North), state.find_rule(at(0, 0), &elves));
    assert_eq!(None, state.find_rule(at(5, 5), &elves));
    // An elf to the north: north is not free, south is.
    assert_eq!(Some(Direction::South), state.find_rule(at(0, 1), &elves));
    state.first_rule = 2;
    assert_eq!(Some(Direction::West), state.find_rule(at(0, 1), &elves));
    state.first_rule = 3;
    assert_eq!(Some(Direction::East), state.find_rule(at(0, 1), &elves));
    // Elves on all four sides: no rule fits.
    let ring = vec![at(1, 0), at(0, 1), at(2, 1), at(1, 2), at(1, 1)];
    assert_eq!(None, state.find_rule(at(1, 1), &ring));
    let mut mask = 0u8;
    State::update_mask(&mut mask, at(1, 1), Direction::North, &ring);
    State::update_mask(&mut mask, at(1, 1), Direction::NorthEast, &ring);
    State::update_mask(&mut mask, at(1, 1), Direction::South, &ring);
    assert_eq!(0b0100_0010, mask);
    let wishes = vec![Some(at(1, 1)), None, Some(at(2, 2)), Some(at(1, 1))];
    assert_eq!(2, count_wishes(&wishes, &at(1, 1)));
    assert_eq!(1, count_wishes(&wishes, &at(2, 2)));
    assert_eq!(0, count_wishes(&wishes, &at(3, 3)));
}

#[test]
fn day23_elves_that_want_the_same_place_stay() {
    // Both propose the place between them.
    let input = InputType { elves: vec![at(0, 0), at(1, 0), at(0, 2), at(1, 2)] };
    let mut state = State::new(&input);
    state.first_rule = 1;
    state.turn = 1;
    assert!(!state.everybody_move() || state.elves != input.elves);
    let lonely = InputType { elves: vec![at(0, 0), at(7, 7)] };
    assert_eq!(1, part2(&lonely));
    assert_eq!(Some(1), try_part2(&lonely));
    assert_eq!(64 - 2, part1(&lonely));
    assert_eq!(0, part1(&InputType { elves: vec![] }));
    assert_eq!(1, part2(&InputType { elves: vec![] }));
    assert_eq!(0, part1(&InputType { elves: vec![at(3, 3)] }));
}
