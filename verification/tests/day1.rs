use aoc2022::day1::{generator, group_total, part1, part2, read_calorie};

const INPUT: &str = "1000\n2000\n3000\n\n4000\n\n5000\n6000\n\n7000\n8000\n9000\n\n10000";

#[test]
fn day1_groups_are_split_at_other_lines() {
    assert_eq!(
        vec![vec![1000, 2000, 3000], vec![4000], vec![5000, 6000], vec![7000, 8000, 9000], vec![10000]],
        generator(INPUT)
    );
    assert_eq!(vec![Vec::<i32>::new()], generator(""));
    assert_eq!(vec![vec![1], vec![], vec![-2, 3]], generator("1\nx\n\n-2\n+3\n"));
    assert_eq!(vec![vec![], vec![7]], generator("99999999999\n7"));
}

#[test]
fn day1_largest_total() {
    assert_eq!(24000, part1(&generator(INPUT)));
    assert_eq!(-3, part1(&[vec![-3], vec![-5, -1]]));
    assert_eq!(0, part1(&[vec![]]));
}

#[test]
fn day1_three_largest_totals() {
    assert_eq!(45000, part2(&generator(INPUT)));
    assert_eq!(0, part2(&[]));
    assert_eq!(5, part2(&[vec![5]]));
    assert_eq!(-2, part2(&[vec![-3], vec![1]]));
    assert_eq!(9, part2(&[vec![1], vec![2], vec![3], vec![4]]));
    assert_eq!(12, part2(&[vec![4], vec![4], vec![1], vec![4]]));
    assert_eq!(-6, part2(&[vec![-3], vec![-9], vec![-1], vec![-2]]));
}

#[test]
fn day1_totals_and_numbers() {
    assert_eq!(6000, group_total(&vec![1000, 2000, 3000]));
    assert_eq!(0, group_total(&vec![]));
    assert_eq!(4294967294, group_total(&vec![i32::MAX, i32::MAX]));
    assert_eq!(Some(-2147483648), read_calorie(b"-2147483648"));
    assert_eq!(None, read_calorie(b"2147483648"));
    assert_eq!(None, read_calorie(b" 5"));
    assert_eq!(None, read_calorie(b""));
}
