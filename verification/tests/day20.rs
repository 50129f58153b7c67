use aoc2022::day20::{
    build, generator, grove_sum, parse, part1, part2, DoubleLinkedList, DoubleLinkedListNode,
};
use aoc2022::sorting::sorted;

const INPUT: &str = "1\n\
                     2\n\
                     -3\n\
                     3\n\
                     -2\n\
                     0\n\
                     4";

/// The numbers on the way round the ring from the place that was entered
/// first.
fn round(list: &DoubleLinkedList) -> Vec<i64> {
    let mut result = Vec::new();
    let mut at = list.start;
    for _ in 0..list.data.len() {
        result.push(list.data[at].value);
        assert_eq!(at, list.data[list.data[at].next].prev);
        at = list.data[at].next;
    }
    result
}

/// The numbers on the way round the ring from the place of 0.
fn round_from_zero(list: &DoubleLinkedList) -> Vec<i64> {
    let all = round(list);
    let at = all.iter().position(|&v| v == 0).unwrap();
    [&all[at..], &all[..at]].concat()
}

#[test]
fn day20_test_part1() {
    let input = generator(INPUT);
    assert_eq!(7, input.len());
    assert_eq!(3, part1(&input));
}

#[test]
fn day20_test_part2() {
    assert_eq!(1623178306, part2(&generator(INPUT)));
}

#[test]
fn day20_numbers_move_by_their_value() {
    let mut list = build(&generator(INPUT), 1);
    assert_eq!(vec![1, 2, -3, 3, -2, 0, 4], round(&list));
    assert_eq!(Some(5), list.zero);
    let expected = [
        vec![0, 4, 2, 1, -3, 3, -2],
        vec![0, 4, 1, -3, 2, 3, -2],
        vec![0, 4, 1, 2, 3, -2, -3],
        vec![0, 3, 4, 1, 2, -2, -3],
        vec![0, 3, 4, -2, 1, 2, -3],
        vec![0, 3, 4, -2, 1, 2, -3],
        vec![0, 3, -2, 1, 2, -3, 4],
    ];
    for (place, after) in expected.iter().enumerate() {
        list.process(place);
        assert_eq!(*after, round_from_zero(&list));
    }
    // 1000, 2000 and 3000 steps are 6, 5 and 4 steps on a ring of 7.
    assert_eq!(vec![2, -3, 4], list.find_nodes(&[1000, 2000, 3000]));
    assert_eq!(3, grove_sum(&list));
}

#[test]
fn day20_mixing_with_the_key() {
    let mut list = build(&generator(INPUT), 811589153);
    assert_eq!(
        vec![
            811589153,
            1623178306,
            -2434767459,
            2434767459,
            -1623178306,
            0,
            3246356612
        ],
        round(&list)
    );
    list.shuffle();
    assert_eq!(
        vec![
            0,
            -2434767459,
            3246356612,
            -1623178306,
            2434767459,
            1623178306,
            811589153
        ],
        round_from_zero(&list)
    );
    for _ in 1..10 {
        list.shuffle();
    }
    assert_eq!(
        vec![
            0,
            -2434767459,
            1623178306,
            3246356612,
            -1623178306,
            2434767459,
            811589153
        ],
        round_from_zero(&list)
    );
}

#[test]
fn day20_seeking_and_finding() {
    let list = build(&vec![10, 0, 30, 40], 1);
    assert_eq!(2, list.seek(0, 2));
    assert_eq!(0, list.seek(0, 4));
    assert_eq!(3, list.seek(3, 0));
    // One step more than the count, backwards.
    assert_eq!(2, list.seek(0, -1));
    assert_eq!(0, list.seek(0, -3));
    // Steps after 0, in the order of their remainders: 5, 6 and -1 are 1, 2 and 3.
    assert_eq!(vec![30, 40, 10], list.find_nodes(&[6, -1, 5]));
    assert_eq!(vec![0, 0], list.find_nodes(&[0, 8]));
    assert_eq!(Vec::<i64>::new(), list.find_nodes(&[]));
    assert_eq!(Vec::<i64>::new(), build(&vec![1, 2], 1).find_nodes(&[1]));
    assert_eq!(0, grove_sum(&build(&vec![1, 2], 1)));
    let mut one = DoubleLinkedList::new();
    one.push(7);
    assert_eq!((7, 0, 0), (one.data[0].value, one.data[0].next, one.data[0].prev));
    one.push(0);
    assert_eq!(Some(1), one.zero);
    assert!(matches!(one.data[0], DoubleLinkedListNode { value: 7, next: 1, prev: 1 }));
}

#[test]
fn day20_texts_and_order() {
    assert_eq!(Some(vec![1, -2, 3]), parse("1\n-2\n+3\n"));
    assert!(parse("1\n\n2").is_none());
    assert!(parse("1\nx").is_none());
    assert!(parse("9223372036854775808").is_none());
    assert_eq!(vec![-5, -1, 0, 3, 3, 9], sorted(&[3, -1, 9, 0, 3, -5]));
    assert_eq!(Vec::<i64>::new(), sorted(&[]));
    assert_eq!(vec![i64::MIN, i64::MAX], sorted(&[i64::MAX, i64::MIN]));
    // Two numbers: each stays where it is, and every even number of steps
    // from 0 leads to 0.
    assert_eq!(0, part1(&vec![0, 5]));
    assert_eq!(12, part1(&vec![0, 5, 7]));
    assert_eq!(0, part1(&vec![3, 5]));
}
