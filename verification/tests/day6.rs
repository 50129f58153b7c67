use aoc2022::day6::{find_unique, generator, is_all_unique, occurs_from, part1, part2};

#[test]
fn day6_test_part1() {
    assert_eq!(7, part1(&generator("mjqjpqmgbljsphdztnvjfqwrcgsmlb")));
    assert_eq!(5, part1(&generator("bvwbjplbgvbhsrlpgdmjqwftvncz")));
    assert_eq!(6, part1(&generator("nppdvjthqldpwncqszvftbrmjlhg")));
    assert_eq!(10, part1(&generator("nznrnfrfntjfmvfwmzdfjlvtqnbhcprsg")));
    assert_eq!(11, part1(&generator("zcfzfwzzqfrljwzlrfnpqdbhtmscgvjw")));
}

#[test]
fn day6_test_part2() {
    assert_eq!(19, part2(&generator("mjqjpqmgbljsphdztnvjfqwrcgsmlb")));
    assert_eq!(23, part2(&generator("bvwbjplbgvbhsrlpgdmjqwftvncz")));
    assert_eq!(23, part2(&generator("nppdvjthqldpwncqszvftbrmjlhg")));
    assert_eq!(29, part2(&generator("nznrnfrfntjfmvfwmzdfjlvtqnbhcprsg")));
    assert_eq!(26, part2(&generator("zcfzfwzzqfrljwzlrfnpqdbhtmscgvjw")));
}

#[test]
fn day6_windows() {
    let chars = |s: &str| s.chars().collect::<Vec<char>>();
    assert!(is_all_unique(&chars("abcd")));
    assert!(!is_all_unique(&chars("abca")));
    assert!(is_all_unique(&chars("")));
    assert!(is_all_unique(&chars("é")));
    assert!(occurs_from(&chars("abca"), 1, 'a'));
    assert!(!occurs_from(&chars("abca"), 1, 'x'));
    assert!(!occurs_from(&chars("abc"), 3, 'c'));
    assert_eq!(vec!['h', 'é', '\n'], generator("hé\n"));
    // None of the windows that are looked at has only different characters.
    assert_eq!(usize::MAX, find_unique(&chars("aaaaaaaa"), 4));
    assert_eq!(usize::MAX, part1(&chars("aaaa")));
    // The last window is not looked at.
    assert_eq!(usize::MAX, find_unique(&chars("aabc"), 3));
    assert_eq!(3, find_unique(&chars("abcc"), 3));
    assert_eq!(4, find_unique(&chars("aabcc"), 3));
}
