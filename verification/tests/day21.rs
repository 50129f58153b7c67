use aoc2022::day21::{
    combine, divide, find_name, generator, parse, part1, part2, peel, resolve, settle, try_part1,
    try_part2, Finding, Monkey, Operation,
};

const INPUT: &str = "root: pppw + sjmn\n\
                     dbpl: 5\n\
                     cczh: sllz + lgvd\n\
                     zczc: 2\n\
                     ptdq: humn - dvpt\n\
                     dvpt: 3\n\
                     lfqf: 4\n\
                     humn: 5\n\
                     ljgn: 2\n\
                     sjmn: drzm * dbpl\n\
                     sllz: 4\n\
                     pppw: cczh / lfqf\n\
                     lgvd: ljgn * ptdq\n\
                     drzm: hmdt - zczc\n\
                     hmdt: 32";

#[test]
fn day21_test_part1() {
    let input = generator(INPUT);
    assert_eq!(152, part1(&input));
}

#[test]
fn day21_test_part2() {
    assert_eq!(301, part2(&generator(INPUT)));
}

#[test]
fn day21_operations() {
    assert_eq!(7, Operation::Plus.evaluate(3, 4));
    assert_eq!(-1, Operation::Minus.evaluate(3, 4));
    assert_eq!(12, Operation::Multiply.evaluate(3, 4));
    assert_eq!(-3, Operation::Divide.evaluate(-7, 2));
    assert_eq!(-3, Operation::Divide.evaluate(7, -2));
    assert_eq!(3, Operation::Divide.evaluate(-7, -2));
    assert_eq!(1, Operation::Equals.evaluate(4, 4));
    assert_eq!(0, Operation::Equals.evaluate(3, 4));
    assert_eq!(9, Operation::Literal(9).evaluate(3, 4));
    assert_eq!(None, Operation::Human.try_evaluate(3, 4));
    assert_eq!(None, Operation::Plus.try_evaluate(i64::MAX, 1));
    assert_eq!(None, Operation::Minus.try_evaluate(i64::MIN, 1));
    assert_eq!(None, Operation::Multiply.try_evaluate(i64::MAX, 2));
    assert_eq!(Some(i64::MIN), Operation::Multiply.try_evaluate(i64::MIN, 1));
    assert_eq!(None, Operation::Divide.try_evaluate(1, 0));
    assert_eq!(None, divide(i64::MIN, -1));
    assert_eq!(Some(i64::MIN), divide(i64::MIN, 1));
    assert_eq!(Some(i64::MAX), divide(i64::MAX, 1));
    assert_eq!(Some(1), divide(i64::MIN, i64::MIN));
    assert_eq!(Some(0), divide(i64::MAX, i64::MIN));
    assert_eq!(Some(-1), divide(i64::MIN, i64::MAX));
    // left + 4 = 10, left - 4 = 10, left * 4 = 10, left / 4 = 10
    assert_eq!(6, Operation::Plus.evaluate_for_left(4, 10));
    assert_eq!(14, Operation::Minus.evaluate_for_left(4, 10));
    assert_eq!(2, Operation::Multiply.evaluate_for_left(4, 10));
    assert_eq!(40, Operation::Divide.evaluate_for_left(4, 10));
    // 4 + right = 10, 4 - right = 10, 4 * right = 10, 40 / right = 10
    assert_eq!(6, Operation::Plus.evaluate_for_right(4, 10));
    assert_eq!(-6, Operation::Minus.evaluate_for_right(4, 10));
    assert_eq!(2, Operation::Multiply.evaluate_for_right(4, 10));
    assert_eq!(4, Operation::Divide.evaluate_for_right(40, 10));
    assert_eq!(None, Operation::Equals.try_evaluate_for_left(1, 1));
    assert_eq!(None, Operation::Multiply.try_evaluate_for_right(0, 5));
    assert_eq!(Some(Operation::Divide), Operation::parse(b"/"));
    assert_eq!(None, Operation::parse(b"%"));
    assert_eq!(None, Operation::parse(b"++"));
}

#[test]
fn day21_monkeys_are_read() {
    let monkeys = generator(INPUT);
    assert_eq!(15, monkeys.len());
    assert_eq!(b"root".to_vec(), monkeys[0].name);
    assert_eq!(Operation::Plus, monkeys[0].op);
    assert_eq!(vec![b"pppw".to_vec(), b"sjmn".to_vec()], monkeys[0].parameters);
    assert_eq!(Operation::Literal(5), monkeys[1].op);
    assert!(monkeys[1].parameters.is_empty());
    assert_eq!(Some(7), find_name(&monkeys, b"humn"));
    assert_eq!(None, find_name(&monkeys, b"hum"));
    // The last monkey of a name counts.
    let twice = generator("a: 1\nb: 2\na: 3\nroot: a + b");
    assert_eq!(Some(2), find_name(&twice, b"a"));
    assert_eq!(5, part1(&twice));
    assert!(parse("a 1").is_some());
    assert!(matches!(Monkey::parse(b"a: -12 x"), Some(m) if m.op == Operation::Literal(-12)));
    assert!(Monkey::parse(b"a:").is_none());
    assert!(Monkey::parse(b"").is_none());
    assert!(Monkey::parse(b"a: b % c").is_none());
    assert!(Monkey::parse(b"a: b c").is_none());
    assert!(parse("a: 1\n\nb: 2").is_none());
}

#[test]
fn day21_findings() {
    let monkeys = generator(INPUT);
    let mut calcs = resolve(&monkeys).unwrap();
    assert_eq!(vec![11, 9], calcs[0].parameters);
    let found = settle(&calcs);
    assert_eq!(Finding::Known(152), found[0]);
    assert_eq!(Finding::Known(2), found[4]);
    calcs[7].op = Operation::Human;
    calcs[0].op = Operation::Equals;
    let found = settle(&calcs);
    assert_eq!(Finding::Symbolic, found[0]);
    assert_eq!(Finding::Symbolic, found[11]);
    assert_eq!(Finding::Known(150), found[9]);
    assert_eq!(Finding::Symbolic, found[7]);
    assert_eq!(Some(301), peel(&calcs, &found, 11, 150));
    // From the human on there is nothing to peel.
    assert_eq!(Some(17), peel(&calcs, &found, 7, 17));
    assert_eq!(Finding::Known(5), combine(Operation::Plus, Finding::Known(2), Finding::Known(3)));
    assert_eq!(Finding::Symbolic, combine(Operation::Plus, Finding::Symbolic, Finding::Known(3)));
    assert_eq!(Finding::Failed, combine(Operation::Plus, Finding::Symbolic, Finding::Failed));
    assert_eq!(Finding::Failed, combine(Operation::Divide, Finding::Known(2), Finding::Known(0)));
}

#[test]
fn day21_no_answer() {
    // No monkey of the name.
    assert_eq!(None, try_part1(&generator("a: 1")));
    assert_eq!(None, try_part1(&generator("root: a + b\na: 1")));
    // Monkeys that wait for one another.
    assert_eq!(None, try_part1(&generator("root: a + b\na: b + b\nb: a + a")));
    // A number that does not fit, and a division by 0.
    assert_eq!(None, try_part1(&generator("root: a * a\na: 9223372036854775807")));
    assert_eq!(None, try_part1(&generator("root: a / b\na: 1\nb: 0")));
    assert_eq!(Some(-4), try_part1(&generator("root: a / b\na: 9\nb: -2")));
    assert_eq!(None, try_part2(&generator("root: a + b\na: 1\nb: 2")));
    // Both numbers of root are known, or none is.
    assert_eq!(None, try_part2(&generator("root: a + b\na: 1\nb: 2\nhumn: 3")));
    assert_eq!(None, try_part2(&generator("root: humn + humn\nhumn: 3")));
    assert_eq!(Some(7), try_part2(&generator("root: humn + b\nb: 7\nhumn: 3")));
    assert_eq!(Some(7), try_part2(&generator("root: b + humn\nb: 7\nhumn: 3")));
    // 10 - (humn * 2) = 4
    assert_eq!(Some(3), try_part2(&generator("root: c - a\nc: ten - d\nd: humn * two\nten: 10\ntwo: 2\na: 4\nhumn: 0")));
    // The human shouts a number that is divided away: 7 / 2 = 3 is taken as (3 * 2).
    assert_eq!(Some(6), try_part2(&generator("root: c - a\nc: humn / two\ntwo: 2\na: 3\nhumn: 0")));
}
