use aoc2022::day25::{
    char_to_snafu_digit, generator, i64_to_snafu, part1, part2, snafu_digit_to_char, snafu_to_i64,
};

const INPUT: &str = "1=-0-2
12111
2=0=
21
2=01
111
20012
112
1=-1=
1-12
12
1=
122";

#[test]
fn day25_test_part1() {
    assert_eq!("2=-1=0", part1(&generator(INPUT)));
}

#[test]
fn day25_test_part2() {
    assert_eq!("", part2(&generator(INPUT)));
}

#[test]
fn day25_numerals() {
    let table: [(i64, &str); 15] = [
        (1, "1"),
        (2, "2"),
        (3, "1="),
        (4, "1-"),
        (5, "10"),
        (6, "11"),
        (7, "12"),
        (8, "2="),
        (9, "2-"),
        (10, "20"),
        (15, "1=0"),
        (20, "1-0"),
        (2022, "1=11-2"),
        (12345, "1-0---0"),
        (314159265, "1121-1110-1=0"),
    ];
    for (value, numeral) in table {
        assert_eq!(numeral, i64_to_snafu(value));
        assert_eq!(value, snafu_to_i64(numeral));
    }
    assert_eq!("", i64_to_snafu(0));
    assert_eq!("", i64_to_snafu(-7));
    assert_eq!(0, snafu_to_i64(""));
    assert_eq!(-3, snafu_to_i64("-2"));
    assert_eq!(i64::MAX, snafu_to_i64(&i64_to_snafu(i64::MAX)));
}

#[test]
fn day25_digits_and_lines() {
    for (ch, digit) in [('=', -2), ('-', -1), ('0', 0), ('1', 1), ('2', 2)] {
        assert_eq!(digit, char_to_snafu_digit(ch));
        assert_eq!(ch, snafu_digit_to_char(digit));
    }
    assert_eq!(vec!["1=".to_string(), "".to_string(), "äb".to_string()], generator("1=\r\n\näb"));
    assert_eq!(Vec::<String>::new(), generator(""));
    assert_eq!(4890, snafu_to_i64(&part1(&generator(INPUT))));
}
