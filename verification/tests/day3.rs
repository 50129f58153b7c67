use aoc2022::day3::{find_match, generator, parse, part1, part2, priority, Contents, Rucksack};

const INPUT: &str = "vJrwpWtwJgWrhcsFMMfFFhFp\n\
                     jqHRNqRjqzjGDLGLrsFMfFZSrLrFZsSL\n\
                     PmmdzqPrVvPwwTWBwg\n\
                     wMqvLMZHhHMvwLHjbvcjnnSBnvTQFn\n\
                     ttgJtRGJQctTZtZT\n\
                     CrZsJsPPZsGzwwsLwLmpwMDw";

#[test]
fn day3_test_part1() {
    assert_eq!(157, part1(&generator(INPUT)));
}

#[test]
fn day3_test_part2() {
    assert_eq!(70, part2(&generator(INPUT)));
}

#[test]
fn day3_positions_and_priorities() {
    assert_eq!(0, Contents::position('a'));
    assert_eq!(25, Contents::position('z'));
    assert_eq!(26, Contents::position('A'));
    assert_eq!(51, Contents::position('Z'));
    for pos in 0..52 {
        assert_eq!(pos, Contents::position(Contents::item(pos)));
    }
    assert_eq!(16, priority('p'));
    assert_eq!(38, priority('L'));
    assert_eq!(1, priority('a'));
    assert_eq!(52, priority('Z'));
}

#[test]
fn day3_sets_of_items() {
    let chars = |s: &str| s.chars().collect::<Vec<char>>();
    let a = Contents::from_chars(&chars("abcZ"));
    let b = Contents::from_chars(&chars("ZcQ"));
    assert_eq!(Some('c'), Contents::intersect(&[a, b]).first_item());
    let a = Contents::from_chars(&chars("xy"));
    let b = Contents::from_chars(&chars("AB"));
    assert_eq!(None, Contents::intersect(&[a, b]).first_item());
    let a = Contents::from_chars(&chars("xy"));
    let b = Contents::from_chars(&chars("AB"));
    assert_eq!(Some('x'), Contents::union(&[a, b]).first_item());
    assert_eq!(None, Contents::union(&[]).first_item());
    assert_eq!(None, Contents::empty().first_item());
    assert_eq!(Some('a'), Contents::intersect(&[]).first_item());
    let mut c = Contents::empty();
    c.set(30);
    c.set(40);
    assert_eq!(Some('E'), c.first_item());
}

#[test]
fn day3_rucksacks() {
    let chars = |s: &str| s.chars().collect::<Vec<char>>();
    let sack = Rucksack::from_str(&chars("vJrwpWtwJgWrhcsFMMfFFhFp")).unwrap();
    assert_eq!(Some('p'), sack.find_match());
    assert_eq!(Some('c'), sack.items().first_item());
    assert!(Rucksack::from_str(&chars("abc")).is_none());
    assert!(Rucksack::from_str(&chars("")).is_none());
    assert!(Rucksack::from_str(&chars("ab1d")).is_none());
    assert!(parse("ab\ncd e").is_none());
    let group = generator("abcd\ncdef\nBAac");
    assert_eq!(Some('c'), find_match(&group));
    assert_eq!(0, part1(&[]));
    assert_eq!(0, part2(&[]));
    // A last group of fewer than three counts too.
    assert_eq!(3 + 24, part2(&generator("abcd\ncdef\nBAac\nAx")));
}
