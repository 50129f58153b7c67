use aoc2022::day5::{generator, parse, part1, part2, Move, State};

const INPUT: &str = "    [D]\n\
                     [N] [C]\n\
                     [Z] [M] [P]\n\
                      1   2   3\n\
                     \n\
                     move 1 from 2 to 1\n\
                     move 3 from 1 to 3\n\
                     move 2 from 2 to 1\n\
                     move 1 from 1 to 2";

#[test]
fn day5_parsing_test() {
    let input = generator(INPUT);
    assert_eq!("NDP", input.state.get_top());
}

#[test]
fn day5_test_part1() {
    assert_eq!("CMZ", part1(&generator(INPUT)));
}

#[test]
fn day5_test_part2() {
    assert_eq!("MCD", part2(&generator(INPUT)));
}

#[test]
fn day5_the_drawing_is_read_from_the_bottom() {
    let input = generator(INPUT);
    assert_eq!(vec![vec!['Z', 'N'], vec!['M', 'C', 'D'], vec!['P']], input.state.stacks);
    assert_eq!(4, input.moves.len());
    assert_eq!((1, 1, 0), (input.moves[0].num_to_move, input.moves[0].from, input.moves[0].to));
    assert_eq!((3, 0, 2), (input.moves[1].num_to_move, input.moves[1].from, input.moves[1].to));
    let state = State::parse(b"[A]     [B]\n 1   2   3");
    assert_eq!(vec![vec!['A'], vec![], vec!['B']], state.stacks);
    assert_eq!("AB", state.get_top());
    assert_eq!(0, State::parse(b"").stacks.len());
}

#[test]
fn day5_one_at_a_time_reverses_and_together_does_not() {
    let mv = |num_to_move, from, to| Move { num_to_move, from, to };
    let mut state = State { stacks: vec![vec!['a', 'b', 'c'], vec!['x']] };
    state.do_moves(&[mv(2, 0, 1)]);
    assert_eq!(vec![vec!['a'], vec!['x', 'c', 'b']], state.stacks);
    let mut state = State { stacks: vec![vec!['a', 'b', 'c'], vec!['x']] };
    state.do_moves_together(&[mv(2, 0, 1)]);
    assert_eq!(vec![vec!['a'], vec!['x', 'b', 'c']], state.stacks);
    // A move from a stack to itself, and a move of nothing, change nothing.
    let mut state = State { stacks: vec![vec!['a', 'b', 'c'], vec!['x']] };
    state.do_moves(&[mv(2, 0, 0), mv(0, 1, 0)]);
    assert_eq!(vec![vec!['a', 'b', 'c'], vec!['x']], state.stacks);
    state.do_moves_together(&[mv(3, 0, 0), mv(0, 0, 1)]);
    assert_eq!(vec![vec!['a', 'b', 'c'], vec!['x']], state.stacks);
}

#[test]
fn day5_texts_that_are_not_read() {
    assert!(parse("[A]\n 1 \nmove 1 from 1 to 1").is_none());
    assert!(parse("[A]\n 1 \n\nmove 1 from 0 to 1").is_none());
    assert!(parse("[A]\n 1 \n\nmove x from 1 to 1").is_none());
    assert!(parse("[A]\n 1 \n\nmove 1 from 1").is_none());
    assert!(parse("[A]\n 1 \n\n").is_some());
    assert_eq!(Some((5, 2, 8)), Move::parse(b"move 5 from 3 to 9").map(|m| (m.num_to_move, m.from, m.to)));
}
