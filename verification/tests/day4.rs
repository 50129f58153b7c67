use aoc2022::day4::{generator, parse, part1, part2, Range};

const INPUT: &str = "2-4,6-8\n\
                     2-3,4-5\n\
                     5-7,7-9\n\
                     2-8,3-7\n\
                     6-6,4-6\n\
                     2-6,4-8";

#[test]
fn day4_parsing_test() {
    let result = generator("1-2,3-4");
    assert_eq!(vec! {vec! {Range{lower: 1, upper: 2}, Range{lower: 3, upper: 4}}}, result);
}

#[test]
fn day4_test_part1() {
    assert_eq!(2, part1(&generator(INPUT)));
    assert_eq!(0, part1(&generator("10-20,12-22")));
    assert_eq!(1, part1(&generator("10-20,10-10")));
    assert_eq!(1, part1(&generator("10-20,20-20")));
    assert_eq!(1, part1(&generator("10-10,10-20")));
    assert_eq!(1, part1(&generator("20-20,10-20")));
}

#[test]
fn day4_test_part2() {
    assert_eq!(4, part2(&generator(INPUT)));
}

#[test]
fn day4_nesting_and_overlap() {
    let r = |lower, upper| Range { lower, upper };
    assert!(r(2, 8).contains(&r(3, 7)));
    assert!(r(3, 7).contains(&r(2, 8)));
    assert!(!r(2, 4).contains(&r(3, 5)));
    assert!(r(-5, -1).contains(&r(-3, -3)));
    assert!(r(5, 7).overlaps(&r(7, 9)));
    assert!(!r(2, 3).overlaps(&r(4, 5)));
    assert!(r(4, 5).overlaps(&r(1, 9)));
    assert!(!r(i32::MIN, 0).overlaps(&r(1, i32::MAX)));
}

#[test]
fn day4_pieces_without_a_dash_are_left_out() {
    assert_eq!(Some(vec![vec![Range { lower: 1, upper: 2 }]]), parse("1-2,x"));
    assert_eq!(Some(vec![vec![], vec![Range { lower: 7, upper: 7 }]]), parse("\n,7-7,"));
    assert!(parse("1-x,3-4").is_none());
    assert!(parse("-1-2,3-4").is_none());
    assert!(parse("1-2,3-99999999999").is_none());
    assert_eq!(0, part1(&vec![]));
    assert_eq!(0, part2(&vec![]));
}
