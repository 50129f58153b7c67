use aoc2022::day13::{generator, make_divider, parse, part1, part2, List};
use std::cmp::Ordering;

const INPUT: &str = "[1,1,3,1,1]\n\
                     [1,1,5,1,1]\n\
                     \n\
                     [[1],[2,3,4]]\n\
                     [[1],4]\n\
                     \n\
                     [9]\n\
                     [[8,7,6]]\n\
                     \n\
                     [[4,4],4,4]\n\
                     [[4,4],4,4,4]\n\
                     \n\
                     [7,7,7,7]\n\
                     [7,7,7]\n\
                     \n\
                     []\n\
                     [3]\n\
                     \n\
                     [[[]]]\n\
                     [[]]\n\
                     \n\
                     [1,[2,[3,[4,[5,6,7]]]],8,9]\n\
                     [1,[2,[3,[4,[5,6,0]]]],8,9]";

#[test]
fn test_cmp() {
    let l = List::parse("12");
    let r = List::parse("20");
    assert_eq!(Ordering::Less, l.cmp(&r));
    let l = List::parse("[12]");
    let r = List::parse("[]");
    assert_eq!(Ordering::Greater, l.cmp(&r));
    let l = List::parse("[]");
    let r = List::parse("[12]");
    assert_eq!(Ordering::Less, l.cmp(&r));
    let l = List::parse("2");
    let r = List::parse("[5]");
    assert_eq!(Ordering::Less, l.cmp(&r));
    let l = List::parse("2");
    let r = List::parse("[2]");
    assert_eq!(Ordering::Equal, l.cmp(&r));
    let l = List::parse("[2]");
    let r = List::parse("5");
    assert_eq!(Ordering::Less, l.cmp(&r));
    let l = List::parse("[1,1,3,1,1]");
    let r = List::parse("[1,1,5,1,1]");
    assert_eq!(Ordering::Less, l.cmp(&r));
    let l = List::parse("[[1],[2,3,4]]");
    let r = List::parse("[[1],4]");
    assert_eq!(Ordering::Less, l.cmp(&r));
    let l = List::parse("[1,[2,[3,[4,[5,6,7]]]],8,9]");
    let r = List::parse("[1,[2,[3,[4,[5,6,0]]]],8,9]");
    assert_eq!(Ordering::Greater, l.cmp(&r));
}

#[test]
fn day13_test_part1() {
    assert_eq!(13, part1(&generator(INPUT)));
}

#[test]
fn day13_test_part2() {
    assert_eq!(140, part2(&generator(INPUT)));
}

#[test]
fn day13_a_number_beside_a_list() {
    let order = |l: &str, r: &str| List::parse(l).cmp(&List::parse(r));
    assert_eq!(Ordering::Greater, order("2", "[]"));
    assert_eq!(Ordering::Less, order("[]", "2"));
    assert_eq!(Ordering::Less, order("2", "[2,0]"));
    assert_eq!(Ordering::Greater, order("[2,0]", "2"));
    assert_eq!(Ordering::Equal, order("[[2]]", "2"));
    assert_eq!(Ordering::Equal, order("2", "[[[2]]]"));
    assert_eq!(Ordering::Greater, order("3", "[[2,9]]"));
    assert_eq!(Ordering::Less, order("2", "[[2,9]]"));
    assert_eq!(Ordering::Less, order("[[]]", "0"));
    assert_eq!(Ordering::Equal, order("[]", "[]"));
    assert_eq!(Ordering::Less, order("[[]]", "[[[]]]"));
    assert_eq!(Ordering::Equal, order("[1,[2,3]]", "[1,[2,3]]"));
    assert_eq!(Ordering::Equal, List::list_cmp(&vec![], &vec![], 0));
    assert_eq!(Ordering::Equal, List::list_cmp(&vec![List::Int(1)], &vec![List::Int(2)], 1));
    assert_eq!(Ordering::Less, List::list_cmp(&vec![List::Int(1)], &vec![List::Int(2)], 0));
}

#[test]
fn day13_packets_are_read() {
    assert!(matches!(List::parse("12,"), List::Int(12)));
    assert!(matches!(List::parse("007"), List::Int(7)));
    assert!(matches!(List::parse("[]x"), List::List(items) if items.is_empty()));
    // Commas are passed over wherever they stand.
    match List::parse("[,1,,[2],]") {
        List::List(items) => {
            assert_eq!(2, items.len());
            assert!(matches!(&items[0], List::Int(1)));
            assert!(matches!(&items[1], List::List(inner) if inner.len() == 1));
        }
        _ => panic!("a list was expected"),
    }
    assert_eq!(Some((9223372036854775807, 19)), List::parse_num(b"9223372036854775807", 0));
    assert_eq!(None, List::parse_num(b"9223372036854775808", 0));
    assert_eq!(Some((0, 1)), List::parse_num(b"a12", 1).map(|(v, e)| (v * 0, e - 2)));
    assert_eq!(Some((12, 3)), List::parse_num(b"a12", 1));
    assert_eq!(Some((0, 0)), List::parse_num(b"x", 0));
    assert_eq!(7, List::parse_digit(b'7'));
    assert!(List::read(b"").is_none());
    assert!(List::read(b"x").is_none());
    assert!(List::read(b"[1,2").is_none());
    assert!(List::read(b"[1,x]").is_none());
    assert!(List::read(b"[1,[2]").is_none());
    assert!(List::read(b"-1").is_none());
    assert!(List::parse_from(b"[1]", 3).is_none());
    assert_eq!(Some(3), List::parse_from(b"[1]", 0).map(|(_, end)| end));
    assert_eq!(Some(5), List::parse_list(b"[1,2]", 3).map(|(_, end)| end));
}

#[test]
fn day13_texts() {
    assert_eq!(16, generator(INPUT).len());
    assert_eq!(0, generator("").len());
    assert_eq!(0, generator("\n\n").len());
    assert!(parse("[1]\nx").is_none());
    assert!(parse("[1]\n[2\n[3]").is_none());
    assert_eq!(0, part1(&vec![]));
    assert_eq!(2, part2(&vec![]));
    // One pair in order, one not, one in order: 1 + 3.
    assert_eq!(4, part1(&generator("1\n2\n\n2\n1\n\n[]\n[[]]")));
    // [[2]] comes third, [[6]] comes sixth.
    assert_eq!(18, part2(&generator("1\n[1,5]\n3\n[[5]]\n[7]")));
    // Packets that equal a marker come after it.
    assert_eq!(4, part2(&generator("[[2]]\n2\n[6]")));
    assert_eq!(Ordering::Equal, make_divider(2).cmp(&List::parse("[[2]]")));
    assert_eq!(Ordering::Less, make_divider(2).cmp(&make_divider(6)));
}
