use aoc2022::day10::{generator, parse, part1, part2, pixel, Command, State};

#[test]
fn day10_test_part1() {
    assert_eq!("13140", part1(&generator(INPUT)));
}

#[test]
fn day10_test_part2() {
    let expected = "##  ##  ##  ##  ##  ##  ##  ##  ##  ##  \n\
                           ###   ###   ###   ###   ###   ###   ### \n\
                           ####    ####    ####    ####    ####    \n\
                           #####     #####     #####     #####     \n\
                           ######      ######      ######      ####\n\
                           #######       #######       #######     \n".to_string();
    assert_eq!(expected, part2(&generator(INPUT)));
}

#[test]
fn day10_the_register_changes_after_two_cycles() {
    let program = generator("noop\naddx 3\naddx -5");
    let mut state = State::default();
    assert_eq!((1, 1, 0), (state.prev, state.x, state.time));
    state.execute(&program[0]);
    assert_eq!((1, 1, 1), (state.prev, state.x, state.time));
    state.execute(&program[1]);
    assert_eq!((1, 4, 3), (state.prev, state.x, state.time));
    state.execute(&program[2]);
    assert_eq!((4, -1, 5), (state.prev, state.x, state.time));
    assert_eq!("0", part1(&program));
    assert_eq!("#####", part2(&program));
}

#[test]
fn day10_signal_at_the_twentieth_cycle() {
    // 19 cycles of nothing, then an addition: the register is still 1 in
    // cycle 20, which lies in the addition.
    let mut text = "noop\n".repeat(19);
    text.push_str("addx 7\n");
    assert_eq!("20", part1(&generator(&text)));
    // The addition ends with cycle 20: the register is 1 during it.
    let mut text = "noop\n".repeat(18);
    text.push_str("addx -7\nnoop\n");
    assert_eq!("20", part1(&generator(&text)));
    // It shows from cycle 21 on.
    let mut text = "noop\n".repeat(17);
    text.push_str("addx -7\nnoop\n");
    assert_eq!("-120", part1(&generator(&text)));
}

#[test]
fn day10_pixels_and_lines() {
    assert_eq!('#', pixel(5, 4));
    assert_eq!('#', pixel(5, 5));
    assert_eq!('#', pixel(5, 6));
    assert_eq!(' ', pixel(5, 7));
    assert_eq!(' ', pixel(-2, 0));
    assert_eq!('#', pixel(-1, 0));
    assert_eq!(' ', pixel(i64::MIN, 39));
    assert!(parse("addx").is_none());
    assert!(parse("addx x").is_none());
    assert!(parse("nop").is_none());
    assert!(parse("noop\n\nnoop").is_none());
    assert!(matches!(Command::parse(b"addx -12"), Some(Command::AddX(-12))));
    assert!(matches!(Command::parse(b"  noop  "), Some(Command::NoOp)));
    assert_eq!("", part2(&vec![]));
    assert_eq!("0", part1(&vec![]));
}

const INPUT: &str = "addx 15
addx -11
addx 6
addx -3
addx 5
addx -1
addx -8
addx 13
addx 4
noop
addx -1
addx 5
addx -1
addx 5
addx -1
addx 5
addx -1
addx 5
addx -1
addx -35
addx 1
addx 24
addx -19
addx 1
addx 16
addx -11
noop
noop
addx 21
addx -15
noop
noop
addx -3
addx 9
addx 1
addx -3
addx 8
addx 1
addx 5
noop
noop
noop
noop
noop
addx -36
noop
addx 1
addx 7
noop
noop
noop
addx 2
addx 6
noop
noop
noop
noop
noop
addx 1
noop
noop
addx 7
addx 1
noop
addx -13
addx 13
addx 7
noop
addx 1
addx -33
noop
noop
noop
addx 2
noop
noop
noop
addx 8
noop
addx -1
addx 2
addx 1
noop
addx 17
addx -9
addx 1
addx 1
addx -3
addx 11
noop
noop
addx 1
noop
addx 1
noop
noop
addx -13
addx -19
addx 1
addx 3
addx 26
addx -30
addx 12
addx -1
addx 3
addx 1
noop
noop
noop
addx -9
addx 18
addx 1
addx 2
noop
noop
addx 9
noop
noop
noop
addx -1
addx 2
addx -37
addx 1
addx 3
noop
addx 15
addx -21
addx 22
addx -6
addx 1
noop
addx 2
addx 1
noop
addx -10
noop
noop
addx 20
addx 1
addx 2
addx 2
addx -6
addx -11
noop
noop
noop";
