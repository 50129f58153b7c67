use aoc2022::day11::{
    compute_top_two, copy_troop, do_round, generator, parse, parse_lit, part1, part2, play,
    Monkey, Operation, ProblemDetail, Test,
};
use std::collections::VecDeque;

const INPUT: &str = "Monkey 0:
  Starting items: 79, 98
  Operation: new = old * 19
  Test: divisible by 23
    If true: throw to monkey 2
    If false: throw to monkey 3

Monkey 1:
  Starting items: 54, 65, 75, 74
  Operation: new = old + 6
  Test: divisible by 19
    If true: throw to monkey 2
    If false: throw to monkey 0

Monkey 2:
  Starting items: 79, 60, 97
  Operation: new = old * old
  Test: divisible by 13
    If true: throw to monkey 1
    If false: throw to monkey 3

Monkey 3:
  Starting items: 74
  Operation: new = old + 3
  Test: divisible by 17
    If true: throw to monkey 0
    If false: throw to monkey 1";

fn items(monkeys: &[Monkey]) -> Vec<Vec<u64>> {
    monkeys.iter().map(|m| m.items.iter().copied().collect()).collect()
}

#[test]
fn day11_test_part1() {
    assert_eq!(10605, part1(&generator(INPUT)));
}

#[test]
fn day11_test_part2() {
    assert_eq!(2713310158, part2(&generator(INPUT)));
}

#[test]
fn day11_monkeys_are_read() {
    let monkeys = generator(INPUT);
    assert_eq!(4, monkeys.len());
    assert_eq!(vec![vec![79, 98], vec![54, 65, 75, 74], vec![79, 60, 97], vec![74]], items(&monkeys));
    assert_eq!(Operation::Multiply(19), monkeys[0].operation);
    assert_eq!(Operation::Add(6), monkeys[1].operation);
    assert_eq!(Operation::Square, monkeys[2].operation);
    assert_eq!(Test::Divisble(13), monkeys[2].test);
    assert_eq!(13, monkeys[2].test.divisor());
    assert_eq!((0, 1), monkeys[3].next);
    assert_eq!(0, monkeys[3].inspected);
    assert_eq!(Some(Operation::Square), Operation::parse(b"Operation: new = old * old"));
    assert_eq!(Some(Operation::Add(7)), Operation::parse(b"a b c old + 7"));
    assert_eq!(None, Operation::parse(b"Operation: new = old + old"));
    assert_eq!(None, Operation::parse(b"Operation: new = old - 1"));
    assert_eq!(None, Operation::parse(b"Operation: new = 1 + old"));
    assert_eq!(None, Operation::parse(b"new = old * 2"));
    assert_eq!(Some(Test::Divisble(5)), Test::parse(b"Test: divisible by 5"));
    assert_eq!(None, Test::parse(b"Test: divisible by"));
    assert_eq!(None, Test::parse(b"Test: divided by 5"));
    assert_eq!(Some(3), Monkey::parse_next(b"  If true: throw to monkey 3"));
    assert_eq!(None, Monkey::parse_next(b"throw to monkey 3"));
    assert_eq!(Some(VecDeque::from(vec![1, 22])), Monkey::parse_items(b"Starting items: 1, 22"));
    assert_eq!(None, Monkey::parse_items(b"Starting items:"));
    assert_eq!(None, Monkey::parse_items(b"Starting items: 1,2"));
    assert_eq!(Some(18446744073709551615), parse_lit(b"18446744073709551615"));
    assert_eq!(None, parse_lit(b"18446744073709551616"));
    assert!(parse("Monkey 0:\n  Starting items: 1\n").is_none());
    assert!(parse(&INPUT.replace("by 19", "by x")).is_none());
}

#[test]
fn day11_one_round_with_calming() {
    let mut monkeys = generator(INPUT);
    let problem = ProblemDetail::new(&monkeys, true);
    assert_eq!(23 * 19 * 13 * 17 * 3, problem.max);
    do_round(&mut monkeys, &problem);
    assert_eq!(
        vec![vec![20, 23, 27, 26], vec![2080, 25, 167, 207, 401, 1046], vec![], vec![]],
        items(&monkeys)
    );
    assert_eq!(vec![2, 4, 3, 5], monkeys.iter().map(|m| m.inspected).collect::<Vec<usize>>());
    assert_eq!(20, compute_top_two(&monkeys));
    let problem = ProblemDetail::new(&monkeys, false);
    assert_eq!(23 * 19 * 13 * 17, problem.max);
}

#[test]
fn day11_throws_and_catches() {
    let mut monkeys = generator(INPUT);
    let problem = ProblemDetail::new(&monkeys, true);
    // 79 * 19 = 1501, a third is 500, which 23 does not divide.
    let flying = monkeys[0].next_throw(&problem).unwrap();
    assert_eq!((500, 3), (flying.item, flying.target));
    monkeys[3].catch_object(flying.item);
    assert_eq!(vec![vec![98], vec![54, 65, 75, 74], vec![79, 60, 97], vec![74, 500]], items(&monkeys));
    assert_eq!(1, monkeys[0].inspected);
    let flying = monkeys[0].next_throw(&problem).unwrap();
    assert_eq!((620, 3), (flying.item, flying.target));
    assert!(monkeys[0].next_throw(&problem).is_none());
    assert_eq!(2, monkeys[0].inspected);
    let mut worry = 10;
    Operation::Square.perform(&mut worry, &ProblemDetail { has_calming: false, max: 7 });
    assert_eq!(2, worry);
    assert!(Test::Divisble(4).check(12));
    assert!(!Test::Divisble(4).check(13));
}

#[test]
fn day11_the_busiest_two() {
    let monkeys = generator(INPUT);
    assert_eq!(0, compute_top_two(&monkeys));
    assert_eq!(1, compute_top_two(&vec![]));
    let mut copy = copy_troop(&monkeys);
    assert_eq!(items(&monkeys), items(&copy));
    copy[0].inspected = 5;
    assert_eq!(0, compute_top_two(&copy));
    copy[2].inspected = 7;
    copy[3].inspected = 6;
    assert_eq!(42, compute_top_two(&copy));
    copy.truncate(1);
    assert_eq!(5, compute_top_two(&copy));
    assert_eq!(0, play(&monkeys, true, 0));
    assert_eq!(4 * 6, play(&monkeys, false, 1));
    assert_eq!(99 * 103, play(&monkeys, false, 20));
    assert_eq!(5204 * 5192, play(&monkeys, false, 1000));
}
