//! Numbers in base five with the digits 2, 1, 0, `-` for minus one and `=`
//! for minus two: reading them, adding them, and writing the sum.
use crate::text::{char_rows, chars_of, push_char, string_of, text_lines, text_lines_of};
use vstd::prelude::*;

verus! {

pub const BASE: i64 = 5;

/// What a digit counts; `None` for a character that is no digit.
pub open spec fn digit_value(c: char) -> Option<int> {
    if c == '0' {
        Some(0)
    } else if c == '1' {
        Some(1)
    } else if c == '2' {
        Some(2)
    } else if c == '-' {
        Some(-1)
    } else if c == '=' {
        Some(-2)
    } else {
        None
    }
}

/// The character of a digit from -2 to 2.
pub open spec fn digit_char(d: int) -> char {
    if d == 0 {
        '0'
    } else if d == 1 {
        '1'
    } else if d == 2 {
        '2'
    } else if d == -1 {
        '-'
    } else {
        '='
    }
}

/// Whether every character is a digit.
pub open spec fn is_snafu(s: Seq<char>) -> bool {
    forall|i: int| 0 <= i < s.len() ==> digit_value(#[trigger] s[i]).is_some()
}

/// The number that the digits write, the first digit counting most.
pub open spec fn snafu_value(s: Seq<char>) -> int
    decreases s.len(),
{
    if s.len() == 0 {
        0
    } else {
        snafu_value(s.drop_last()) * 5 + digit_value(s.last()).unwrap()
    }
}

/// Whether `s` is the numeral of `val`: its digits write `val` and do not
/// start with a zero. A number that is not positive has the empty numeral.
pub open spec fn writes(s: Seq<char>, val: int) -> bool {
    &&& is_snafu(s)
    &&& val > 0 ==> snafu_value(s) == val && s.len() > 0 && s[0] != '0'
    &&& val <= 0 ==> s.len() == 0
}

/// Whether every prefix of the numeral writes a number that fits `i64`.
pub open spec fn readable(s: Seq<char>) -> bool {
    &&& is_snafu(s)
    &&& forall|n: int|
        0 <= n <= s.len() ==> i64::MIN <= #[trigger] snafu_value(s.take(n)) <= i64::MAX
}

/// The strings as sequences of characters.
pub open spec fn texts(v: Seq<String>) -> Seq<Seq<char>> {
    v.map_values(|s: String| s@)
}

/// The lines of the text.
pub fn generator(input: &str) -> (result: Vec<String>)
    ensures
        texts(result@) == text_lines_of(input@),
{
    let chars = chars_of(input);
    let all = text_lines(chars.as_slice());
    let mut result: Vec<String> = Vec::new();
    let mut i: usize = 0;
    while i < all.len()
        invariant
            i <= all.len(),
            char_rows(all@) == text_lines_of(input@),
            texts(result@) == char_rows(all@).take(i as int),
        decreases all.len() - i,
    {
        let line = string_of(all[i].as_slice());
        let ghost before = texts(result@);
        let ghost pushed = line@;
        result.push(line);
        assert(char_rows(all@)[i as int] == all[i as int]@);
        assert(texts(result@) =~= before.push(pushed));
        assert(texts(result@) =~= char_rows(all@).take(i as int + 1));
        i += 1;
    }
    assert(char_rows(all@).take(i as int) =~= char_rows(all@));
    result
}

/// What a digit counts.
pub fn char_to_snafu_digit(ch: char) -> (d: i8)
    requires
        digit_value(ch).is_some(),
    ensures
        d == digit_value(ch).unwrap(),
        -2 <= d <= 2,
{
    if ch == '0' {
        0
    } else if ch == '1' {
        1
    } else if ch == '2' {
        2
    } else if ch == '-' {
        -1
    } else {
        -2
    }
}

/// The character of a digit.
pub fn snafu_digit_to_char(digit: i8) -> (c: char)
    requires
        -2 <= digit <= 2,
    ensures
        c == digit_char(digit as int),
        digit_value(c) == Some(digit as int),
{
    if digit == 0 {
        '0'
    } else if digit == 1 {
        '1'
    } else if digit == 2 {
        '2'
    } else if digit == -1 {
        '-'
    } else {
        '='
    }
}

/// The number that a numeral writes.
pub fn snafu_to_i64(s: &str) -> (val: i64)
    requires
        readable(s@),
    ensures
        val == snafu_value(s@),
{
    let chars = chars_of(s);
    let mut acc: i64 = 0;
    let mut i: usize = 0;
    assert(s@.take(0) =~= Seq::<char>::empty());
    while i < chars.len()
        invariant
            i <= chars.len(),
            chars@ == s@,
            readable(s@),
            acc == snafu_value(s@.take(i as int)),
        decreases chars.len() - i,
    {
        proof {
            assert(s@.take(i as int + 1).drop_last() =~= s@.take(i as int));
            assert(s@.take(i as int + 1).last() == s@[i as int]);
            assert(i64::MIN <= snafu_value(s@.take(i as int + 1)) <= i64::MAX);
        }
        let d = char_to_snafu_digit(chars[i]);
        acc = (acc as i128 * 5 + d as i128) as i64;
        i += 1;
    }
    assert(s@.take(i as int) =~= s@);
    acc
}

/// Five to the power `n`.
pub open spec fn pow5(n: nat) -> int
    decreases n,
{
    if n == 0 {
        1
    } else {
        5 * pow5((n - 1) as nat)
    }
}

/// The numeral of digits that are given from the one that counts least to
/// the one that counts most.
pub open spec fn numeral(digits: Seq<i8>) -> Seq<char> {
    Seq::new(digits.len(), |i: int| digit_char(digits[digits.len() - 1 - i] as int))
}

/// The number that digits write which are given from the one that counts
/// least to the one that counts most.
pub open spec fn least_first_value(digits: Seq<i8>) -> int
    decreases digits.len(),
{
    if digits.len() == 0 {
        0
    } else {
        least_first_value(digits.drop_last()) + digits.last() * pow5((digits.len() - 1) as nat)
    }
}

/// Whether every digit is between -2 and 2.
pub open spec fn digits_ok(digits: Seq<i8>) -> bool {
    forall|i: int| 0 <= i < digits.len() ==> -2 <= #[trigger] digits[i] <= 2
}

/// A digit in front of a numeral adds itself times a power of five.
proof fn lemma_leading_digit(c: char, s: Seq<char>)
    requires
        digit_value(c).is_some(),
        is_snafu(s),
    ensures
        snafu_value(seq![c] + s) == digit_value(c).unwrap() * pow5(s.len()) + snafu_value(s),
    decreases s.len(),
{
    let t = seq![c] + s;
    if s.len() == 0 {
        assert(t.drop_last() =~= Seq::<char>::empty());
        assert(snafu_value(t.drop_last()) == 0);
        assert(t.last() == c);
        assert(pow5(0) == 1);
    } else {
        assert(t.drop_last() =~= seq![c] + s.drop_last());
        assert(t.last() == s.last());
        lemma_leading_digit(c, s.drop_last());
        let d = digit_value(c).unwrap();
        assert(d * pow5(s.len()) == 5 * (d * pow5((s.len() - 1) as nat))) by (nonlinear_arith)
            requires
                pow5(s.len()) == 5 * pow5((s.len() - 1) as nat),
        ;
    }
}

/// The numeral writes what its digits write.
proof fn lemma_numeral(digits: Seq<i8>)
    requires
        digits_ok(digits),
    ensures
        is_snafu(numeral(digits)),
        snafu_value(numeral(digits)) == least_first_value(digits),
    decreases digits.len(),
{
    if digits.len() > 0 {
        let rest = digits.drop_last();
        lemma_numeral(rest);
        let c = digit_char(digits.last() as int);
        assert(numeral(digits) =~= seq![c] + numeral(rest));
        lemma_leading_digit(c, numeral(rest));
    } else {
        assert(numeral(digits) =~= Seq::<char>::empty());
    }
}

/// The numeral of a number.
pub fn i64_to_snafu(val: i64) -> (s: String)
    ensures
        writes(s@, val as int),
{
    let mut digits: Vec<i8> = Vec::new();
    let mut remaining: i64 = val;
    let mut borrow = false;
    while remaining > 0
        invariant
            digits_ok(digits@),
            val > 0 ==> remaining >= 0,
            val > 0 ==> val == (remaining + if borrow {
                1int
            } else {
                0int
            }) * pow5(digits.len() as nat) + least_first_value(digits@),
            val <= 0 ==> digits.len() == 0 && !borrow && remaining == val,
            digits.len() > 0 && remaining == 0 && !borrow ==> digits@.last() >= 1,
            val > 0 && digits.len() == 0 ==> remaining > 0,
        decreases remaining,
    {
        let ghost carry_in = if borrow {
            1int
        } else {
            0int
        };
        let ghost before = digits@;
        let ghost old_remaining = remaining;
        let mut digit: i8 = (remaining % BASE) as i8;
        if borrow {
            digit = digit + 1;
            borrow = false;
        }
        if digit > 2 {
            digit = digit - 5;
            borrow = true;
        }
        digits.push(digit);
        remaining = remaining / BASE;
        proof {
            let carry_out = if borrow {
                1int
            } else {
                0int
            };
            let k = before.len();
            assert(digits@.drop_last() =~= before);
            assert(old_remaining + carry_in == 5 * (remaining + carry_out) + digit);
            assert(pow5(k + 1) == 5 * pow5(k));
            assert((old_remaining + carry_in) * pow5(k) == (remaining + carry_out) * pow5(k + 1)
                + digit * pow5(k)) by (nonlinear_arith)
                requires
                    old_remaining + carry_in == 5 * (remaining + carry_out) + digit,
                    pow5(k + 1) == 5 * pow5(k),
            ;
        }
    }
    if borrow {
        let ghost before = digits@;
        digits.push(1);
        proof {
            assert(digits@.drop_last() =~= before);
            assert(1 * pow5(before.len()) == pow5(before.len())) by (nonlinear_arith);
        }
    }
    proof {
        lemma_numeral(digits@);
        if val > 0 {
            assert(0 * pow5(digits.len() as nat) == 0) by (nonlinear_arith);
            assert(numeral(digits@)[0] == digit_char(digits@.last() as int));
        }
    }
    let mut result = String::new();
    let mut i: usize = digits.len();
    assert(numeral(digits@).take(0) =~= Seq::<char>::empty());
    while i > 0
        invariant
            i <= digits.len(),
            digits_ok(digits@),
            result@ == numeral(digits@).take(digits.len() - i),
        decreases i,
    {
        i -= 1;
        push_char(&mut result, snafu_digit_to_char(digits[i]));
        assert(result@ =~= numeral(digits@).take(digits.len() - i));
    }
    assert(numeral(digits@).take(digits.len() as int) =~= numeral(digits@));
    result
}

/// The sum of the numbers that the numerals write.
pub open spec fn sum_of(input: Seq<String>) -> int
    decreases input.len(),
{
    if input.len() == 0 {
        0
    } else {
        sum_of(input.drop_last()) + snafu_value(input.last()@)
    }
}

/// Whether every numeral can be read, and the sum of the first `n`, for
/// every `n`, fits `i64`.
pub open spec fn summable(input: Seq<String>) -> bool {
    &&& forall|i: int| 0 <= i < input.len() ==> readable((#[trigger] input[i])@)
    &&& forall|n: int|
        0 <= n <= input.len() ==> i64::MIN <= #[trigger] sum_of(input.take(n)) <= i64::MAX
}

/// The numeral of the sum of the numbers.
pub fn part1(input: &Vec<String>) -> (s: String)
    requires
        summable(input@),
    ensures
        writes(s@, sum_of(input@)),
{
    let mut total: i64 = 0;
    let mut i: usize = 0;
    assert(input@.take(0) =~= Seq::<String>::empty());
    while i < input.len()
        invariant
            i <= input.len(),
            summable(input@),
            total == sum_of(input@.take(i as int)),
        decreases input.len() - i,
    {
        proof {
            assert(input@.take(i as int + 1).drop_last() =~= input@.take(i as int));
            assert(input@.take(i as int + 1).last() == input@[i as int]);
            assert(i64::MIN <= sum_of(input@.take(i as int + 1)) <= i64::MAX);
        }
        let v = snafu_to_i64(input[i].as_str());
        total = (total as i128 + v as i128) as i64;
        i += 1;
    }
    assert(input@.take(i as int) =~= input@);
    i64_to_snafu(total)
}

/// The last puzzle has no second part: the answer is the empty text.
pub fn part2(_input: &Vec<String>) -> (s: String)
    ensures
        s@.len() == 0,
{
    String::new()
}

} // verus!
