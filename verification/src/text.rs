//! Reading puzzle input: lines, fields and numbers, over bytes.
use vstd::prelude::*;
use vstd::slice::{slice_subrange, slice_to_vec};
use vstd::string::StrSliceExecFns;

verus! {

pub const NEWLINE: u8 = 10;

pub const RETURN: u8 = 13;

pub const SPACE: u8 = 32;

pub const COMMA: u8 = 44;

pub const MINUS: u8 = 45;

pub const PLUS: u8 = 43;

/// The byte sequences that a vector of byte vectors holds.
pub open spec fn rows(v: Seq<Vec<u8>>) -> Seq<Seq<u8>> {
    v.map_values(|x: Vec<u8>| x@)
}

/// The pieces of `s` between the occurrences of `sep`: one more than there
/// are separators, empty pieces included.
pub open spec fn split_on(s: Seq<u8>, sep: u8) -> Seq<Seq<u8>>
    decreases s.len(),
{
    if s.len() == 0 {
        seq![Seq::empty()]
    } else {
        let before = split_on(s.drop_last(), sep);
        if s.last() == sep {
            before.push(Seq::empty())
        } else {
            before.drop_last().push(before.last().push(s.last()))
        }
    }
}

pub proof fn lemma_split_on_nonempty(s: Seq<u8>, sep: u8)
    ensures
        split_on(s, sep).len() >= 1,
    decreases s.len(),
{
    if s.len() > 0 {
        lemma_split_on_nonempty(s.drop_last(), sep);
    }
}

/// A line without the carriage return that may end it.
pub open spec fn strip_return(line: Seq<u8>) -> Seq<u8> {
    if line.len() > 0 && line.last() == RETURN {
        line.drop_last()
    } else {
        line
    }
}

/// The lines of a text: each ends with a newline, which is left out, as is
/// a carriage return before it; the last line need not end with one.
pub open spec fn lines_of(s: Seq<u8>) -> Seq<Seq<u8>> {
    let pieces = split_on(s, NEWLINE);
    let ended = pieces.drop_last().map_values(|l: Seq<u8>| strip_return(l));
    if pieces.last().len() == 0 {
        ended
    } else {
        ended.push(pieces.last())
    }
}

/// Whether a byte is ASCII white space.
pub open spec fn is_space(b: u8) -> bool {
    b == 32 || (9 <= b <= 13)
}

/// The fields of `s` that are complete, and the one that is still open.
pub open spec fn fields(s: Seq<u8>) -> (Seq<Seq<u8>>, Seq<u8>)
    decreases s.len(),
{
    if s.len() == 0 {
        (Seq::empty(), Seq::empty())
    } else {
        let (done, open) = fields(s.drop_last());
        if is_space(s.last()) {
            if open.len() > 0 {
                (done.push(open), Seq::empty())
            } else {
                (done, open)
            }
        } else {
            (done, open.push(s.last()))
        }
    }
}

/// The words of a line: its longest runs of bytes that are not white space.
pub open spec fn words_of(s: Seq<u8>) -> Seq<Seq<u8>> {
    let (done, open) = fields(s);
    if open.len() > 0 {
        done.push(open)
    } else {
        done
    }
}

/// Whether every byte is a decimal digit.
pub open spec fn all_digits(s: Seq<u8>) -> bool {
    forall|i: int| 0 <= i < s.len() ==> 48 <= #[trigger] s[i] <= 57
}

/// The number that a run of decimal digits writes.
pub open spec fn digits_value(s: Seq<u8>) -> nat
    decreases s.len(),
{
    if s.len() == 0 {
        0
    } else {
        (digits_value(s.drop_last()) * 10 + (s.last() - 48)) as nat
    }
}

/// The number that `s` writes without a sign: digits, at least one; `None`
/// for anything else.
pub open spec fn unsigned_of(s: Seq<u8>) -> Option<nat> {
    if s.len() > 0 && all_digits(s) {
        Some(digits_value(s))
    } else {
        None
    }
}

/// The number that `s` writes without a `-`: digits, at least one, after an
/// optional `+`; `None` for anything else.
pub open spec fn natural_of(s: Seq<u8>) -> Option<nat> {
    if s.len() > 0 && s[0] == PLUS {
        unsigned_of(s.skip(1))
    } else {
        unsigned_of(s)
    }
}

/// The number that `s` writes: digits, at least one, after an optional `+`
/// or `-`; `None` for anything else.
pub open spec fn signed_of(s: Seq<u8>) -> Option<int> {
    if s.len() > 0 && s[0] == MINUS {
        match unsigned_of(s.skip(1)) {
            Some(v) => Some(-(v as int)),
            None => None,
        }
    } else if s.len() > 0 && s[0] == PLUS {
        match unsigned_of(s.skip(1)) {
            Some(v) => Some(v as int),
            None => None,
        }
    } else {
        match unsigned_of(s) {
            Some(v) => Some(v as int),
            None => None,
        }
    }
}

/// A run of digits writes at least what any of its prefixes writes.
pub proof fn lemma_digits_prefix(s: Seq<u8>, n: int)
    requires
        all_digits(s),
        0 <= n <= s.len(),
    ensures
        digits_value(s.take(n)) <= digits_value(s),
    decreases s.len() - n,
{
    if n < s.len() {
        lemma_digits_prefix(s, n + 1);
        assert(s.take(n + 1).drop_last() =~= s.take(n));
    } else {
        assert(s.take(n) =~= s);
    }
}

/// Splits the text at each occurrence of `sep`.
pub fn split(input: &[u8], sep: u8) -> (pieces: Vec<Vec<u8>>)
    ensures
        rows(pieces@) == split_on(input@, sep),
        pieces.len() >= 1,
{
    let mut done: Vec<Vec<u8>> = Vec::new();
    let mut open: Vec<u8> = Vec::new();
    let mut i: usize = 0;
    assert(input@.take(0) =~= Seq::<u8>::empty());
    assert(rows(done@).push(open@) =~= split_on(input@.take(0), sep));
    while i < input.len()
        invariant
            i <= input.len(),
            rows(done@).push(open@) == split_on(input@.take(i as int), sep),
        decreases input.len() - i,
    {
        let b = input[i];
        let ghost before = rows(done@).push(open@);
        proof {
            assert(input@.take(i as int + 1).drop_last() =~= input@.take(i as int));
            assert(input@.take(i as int + 1).last() == b);
            assert(before.drop_last() =~= rows(done@));
            assert(before.last() == open@);
        }
        if b == sep {
            done.push(open);
            open = Vec::new();
            assert(rows(done@).push(open@) =~= before.push(Seq::empty()));
        } else {
            open.push(b);
            assert(rows(done@).push(open@) =~= before.drop_last().push(before.last().push(b)));
        }
        i += 1;
    }
    assert(input@.take(i as int) =~= input@);
    let ghost before = rows(done@).push(open@);
    done.push(open);
    assert(rows(done@) =~= before);
    done
}

/// The lines of the text.
pub fn lines(input: &[u8]) -> (result: Vec<Vec<u8>>)
    ensures
        rows(result@) == lines_of(input@),
{
    let mut pieces = split(input, NEWLINE);
    let last = pieces.pop().unwrap();
    let ghost all = split_on(input@, NEWLINE);
    let ghost ended = all.drop_last();
    assert(rows(pieces@) =~= all.drop_last());
    assert(last@ == all.last());
    let mut result: Vec<Vec<u8>> = Vec::new();
    let mut i: usize = 0;
    while i < pieces.len()
        invariant
            i <= pieces.len(),
            rows(pieces@) == ended,
            rows(result@) == ended.take(i as int).map_values(|l: Seq<u8>| strip_return(l)),
        decreases pieces.len() - i,
    {
        let mut line = pieces[i].clone();
        assert(line@ == rows(pieces@)[i as int]);
        if line.len() > 0 && line[line.len() - 1] == RETURN {
            line.pop();
        }
        assert(line@ == strip_return(ended[i as int]));
        let ghost before = rows(result@);
        result.push(line);
        assert(rows(result@) =~= before.push(line@));
        assert(ended.take(i as int + 1) =~= ended.take(i as int).push(ended[i as int]));
        assert(rows(result@) =~= ended.take(i as int + 1).map_values(
            |l: Seq<u8>| strip_return(l),
        ));
        i += 1;
    }
    assert(ended.take(i as int) =~= ended);
    if last.len() > 0 {
        let ghost before = rows(result@);
        result.push(last);
        assert(rows(result@) =~= before.push(last@));
    }
    result
}

/// Whether a byte is ASCII white space.
pub fn is_whitespace(b: u8) -> (r: bool)
    ensures
        r == is_space(b),
{
    b == 32 || (9 <= b && b <= 13)
}

/// The words of the line.
pub fn words(line: &[u8]) -> (result: Vec<Vec<u8>>)
    ensures
        rows(result@) == words_of(line@),
{
    let mut done: Vec<Vec<u8>> = Vec::new();
    let mut open: Vec<u8> = Vec::new();
    let mut i: usize = 0;
    assert(line@.take(0) =~= Seq::<u8>::empty());
    assert(rows(done@) =~= Seq::<Seq<u8>>::empty());
    while i < line.len()
        invariant
            i <= line.len(),
            (rows(done@), open@) == fields(line@.take(i as int)),
        decreases line.len() - i,
    {
        let b = line[i];
        proof {
            assert(line@.take(i as int + 1).drop_last() =~= line@.take(i as int));
            assert(line@.take(i as int + 1).last() == b);
        }
        let ghost before = rows(done@);
        if is_whitespace(b) {
            if open.len() > 0 {
                let ghost word = open@;
                done.push(open);
                open = Vec::new();
                assert(rows(done@) =~= before.push(word));
            }
        } else {
            open.push(b);
        }
        i += 1;
    }
    assert(line@.take(i as int) =~= line@);
    if open.len() > 0 {
        let ghost before = rows(done@);
        let ghost word = open@;
        done.push(open);
        assert(rows(done@) =~= before.push(word));
    }
    done
}

/// Reads a number without a sign. `None` where the text is not a run of
/// digits, or writes a number above `u64::MAX`.
pub fn parse_unsigned(s: &[u8]) -> (r: Option<u64>)
    ensures
        r.is_some() == (unsigned_of(s@).is_some() && unsigned_of(s@).unwrap() <= u64::MAX),
        r matches Some(v) ==> unsigned_of(s@) == Some(v as nat),
{
    if s.len() == 0 {
        return None;
    }
    let mut value: u64 = 0;
    let mut i: usize = 0;
    assert(s@.take(0) =~= Seq::<u8>::empty());
    while i < s.len()
        invariant
            i <= s.len(),
            all_digits(s@.take(i as int)),
            value == digits_value(s@.take(i as int)),
        decreases s.len() - i,
    {
        let b = s[i];
        if b < 48 || b > 57 {
            assert(!(48 <= s@[i as int] <= 57));
            return None;
        }
        let d: u64 = (b - 48) as u64;
        proof {
            assert(s@.take(i as int + 1).drop_last() =~= s@.take(i as int));
            assert(s@.take(i as int + 1).last() == b);
            assert(all_digits(s@.take(i as int + 1))) by {
                assert forall|j: int| 0 <= j < i + 1 implies 48 <= #[trigger] s@.take(
                    i as int + 1,
                )[j] <= 57 by {
                    if j < i {
                        assert(s@.take(i as int)[j] == s@[j]);
                    }
                }
            }
        }
        if value > (u64::MAX - d) / 10 {
            proof {
                if all_digits(s@) {
                    lemma_digits_prefix(s@, i as int + 1);
                }
            }
            return None;
        }
        value = value * 10 + d;
        i += 1;
    }
    assert(s@.take(i as int) =~= s@);
    Some(value)
}

/// Reads a number that may have a `+` before its digits. `None` where the
/// text is anything else, or writes a number above `u64::MAX`.
pub fn parse_natural(s: &[u8]) -> (r: Option<u64>)
    ensures
        r.is_some() == (natural_of(s@).is_some() && natural_of(s@).unwrap() <= u64::MAX),
        r matches Some(v) ==> natural_of(s@) == Some(v as nat),
{
    if s.len() > 0 && s[0] == PLUS {
        let rest = slice_subrange(s, 1, s.len());
        assert(rest@ =~= s@.skip(1));
        parse_unsigned(rest)
    } else {
        parse_unsigned(s)
    }
}

/// Reads a number with an optional sign. `None` where the text is not a
/// sign and digits, or writes a number outside `i64`.
pub fn parse_signed(s: &[u8]) -> (r: Option<i64>)
    ensures
        r.is_some() == (signed_of(s@).is_some() && i64::MIN <= signed_of(s@).unwrap()
            <= i64::MAX),
        r matches Some(v) ==> signed_of(s@) == Some(v as int),
{
    if s.len() > 0 && s[0] == MINUS {
        let rest = slice_subrange(s, 1, s.len());
        assert(rest@ =~= s@.skip(1));
        match parse_unsigned(rest) {
            Some(v) => {
                if v <= 0x7fff_ffff_ffff_ffff {
                    Some(-(v as i64))
                } else if v == 0x8000_0000_0000_0000 {
                    Some(i64::MIN)
                } else {
                    None
                }
            },
            None => None,
        }
    } else if s.len() > 0 && s[0] == PLUS {
        let rest = slice_subrange(s, 1, s.len());
        assert(rest@ =~= s@.skip(1));
        match parse_unsigned(rest) {
            Some(v) => {
                if v <= 0x7fff_ffff_ffff_ffff {
                    Some(v as i64)
                } else {
                    None
                }
            },
            None => None,
        }
    } else {
        match parse_unsigned(s) {
            Some(v) => {
                if v <= 0x7fff_ffff_ffff_ffff {
                    Some(v as i64)
                } else {
                    None
                }
            },
            None => None,
        }
    }
}

/// The place of the first `b` in `s`, or the length of `s` where it has
/// none.
pub open spec fn first_index(s: Seq<u8>, b: u8) -> int
    decreases s.len(),
{
    if s.len() == 0 {
        0
    } else {
        let before = first_index(s.drop_last(), b);
        if before < s.len() - 1 {
            before
        } else if s.last() == b {
            s.len() - 1
        } else {
            s.len() as int
        }
    }
}

/// `first_index` is the least place that holds `b`.
pub proof fn lemma_first_index(s: Seq<u8>, b: u8)
    ensures
        0 <= first_index(s, b) <= s.len(),
        first_index(s, b) < s.len() ==> s[first_index(s, b)] == b,
        forall|j: int| 0 <= j < first_index(s, b) ==> s[j] != b,
    decreases s.len(),
{
    if s.len() > 0 {
        lemma_first_index(s.drop_last(), b);
        assert forall|j: int| 0 <= j < first_index(s, b) implies s[j] != b by {
            if j < s.len() - 1 {
                assert(s.drop_last()[j] == s[j]);
            }
        }
    }
}

/// The parts of `s` before and after its first `b`; `None` where it has
/// none.
pub open spec fn split_once_at(s: Seq<u8>, b: u8) -> Option<(Seq<u8>, Seq<u8>)> {
    let at = first_index(s, b);
    if at < s.len() {
        Some((s.take(at), s.skip(at + 1)))
    } else {
        None
    }
}

/// Finds the first `b`.
pub fn find_byte(s: &[u8], b: u8) -> (at: usize)
    ensures
        at == first_index(s@, b),
        at <= s.len(),
{
    let mut at: usize = 0;
    let mut i: usize = 0;
    assert(s@.take(0) =~= Seq::<u8>::empty());
    while i < s.len()
        invariant
            i <= s.len(),
            at == first_index(s@.take(i as int), b),
            at <= i,
        decreases s.len() - i,
    {
        proof {
            assert(s@.take(i as int + 1).drop_last() =~= s@.take(i as int));
            assert(s@.take(i as int + 1).last() == s@[i as int]);
        }
        if at == i && s[i] != b {
            at = i + 1;
        }
        i += 1;
    }
    assert(s@.take(i as int) =~= s@);
    at
}

/// The characters of a text.
pub fn chars_of(input: &str) -> (v: Vec<char>)
    ensures
        v@ == input@,
{
    let n = input.unicode_len();
    let mut v: Vec<char> = Vec::new();
    let mut i: usize = 0;
    while i < n
        invariant
            i <= n,
            n == input@.len(),
            v@ == input@.take(i as int),
        decreases n - i,
    {
        v.push(input.get_char(i));
        assert(v@ =~= input@.take(i as int + 1));
        i += 1;
    }
    assert(input@.take(n as int) =~= input@);
    v
}

/// Appends a character to a string: `String::push`, which adds the given
/// character at the end and changes nothing else.
#[verifier::external_body]
pub(crate) fn push_char(s: &mut String, c: char)
    ensures
        final(s)@ == old(s)@.push(c),
{
    s.push(c)
}

/// The character that writes a digit.
pub open spec fn digit_char(d: int) -> char {
    if d == 0 {
        '0'
    } else if d == 1 {
        '1'
    } else if d == 2 {
        '2'
    } else if d == 3 {
        '3'
    } else if d == 4 {
        '4'
    } else if d == 5 {
        '5'
    } else if d == 6 {
        '6'
    } else if d == 7 {
        '7'
    } else if d == 8 {
        '8'
    } else {
        '9'
    }
}

/// The decimal digits of a natural number, without leading zeros.
pub open spec fn digits_of(n: nat) -> Seq<char>
    decreases n,
{
    if n < 10 {
        seq![digit_char(n as int)]
    } else {
        digits_of(n / 10).push(digit_char((n % 10) as int))
    }
}

/// A number as it is written in decimal: a `-` before the digits of a
/// negative one.
pub open spec fn decimal_of(v: int) -> Seq<char> {
    if v < 0 {
        seq!['-'] + digits_of((-v) as nat)
    } else {
        digits_of(v as nat)
    }
}

/// The character of a digit.
pub fn digit_to_char(d: u64) -> (c: char)
    requires
        d < 10,
    ensures
        c == digit_char(d as int),
{
    if d == 0 {
        '0'
    } else if d == 1 {
        '1'
    } else if d == 2 {
        '2'
    } else if d == 3 {
        '3'
    } else if d == 4 {
        '4'
    } else if d == 5 {
        '5'
    } else if d == 6 {
        '6'
    } else if d == 7 {
        '7'
    } else if d == 8 {
        '8'
    } else {
        '9'
    }
}

/// Appends the digits of `n`.
pub fn push_digits(s: &mut String, n: u64)
    ensures
        final(s)@ == old(s)@ + digits_of(n as nat),
    decreases n,
{
    if n >= 10 {
        push_digits(s, n / 10);
    }
    let ghost before = s@;
    push_char(s, digit_to_char(n % 10));
    proof {
        if n >= 10 {
            assert(s@ =~= old(s)@ + digits_of(n as nat));
        } else {
            assert(s@ =~= old(s)@ + digits_of(n as nat));
        }
    }
}

/// Writes a number in decimal.
pub fn decimal(v: i64) -> (s: String)
    ensures
        s@ == decimal_of(v as int),
{
    let mut s = String::new();
    if v < 0 {
        push_char(&mut s, '-');
        let n: u64 = if v == i64::MIN {
            0x8000_0000_0000_0000
        } else {
            (-v) as u64
        };
        push_digits(&mut s, n);
        assert(s@ =~= decimal_of(v as int));
    } else {
        push_digits(&mut s, v as u64);
        assert(s@ =~= decimal_of(v as int));
    }
    s
}

/// The character sequences that a vector of character vectors holds.
pub open spec fn char_rows(v: Seq<Vec<char>>) -> Seq<Seq<char>> {
    v.map_values(|x: Vec<char>| x@)
}

/// For characters: the pieces of `s` between the occurrences of `sep`: one more than there
/// are separators, empty pieces included.
pub open spec fn split_text_on(s: Seq<char>, sep: char) -> Seq<Seq<char>>
    decreases s.len(),
{
    if s.len() == 0 {
        seq![Seq::empty()]
    } else {
        let before = split_text_on(s.drop_last(), sep);
        if s.last() == sep {
            before.push(Seq::empty())
        } else {
            before.drop_last().push(before.last().push(s.last()))
        }
    }
}

/// For characters: a line without the carriage return that may end it.
pub open spec fn strip_text_return(line: Seq<char>) -> Seq<char> {
    if line.len() > 0 && line.last() == '\r' {
        line.drop_last()
    } else {
        line
    }
}

/// For characters: the lines of a text; each ends with a newline, which is left out, as is
/// a carriage return before it; the last line need not end with one.
pub open spec fn text_lines_of(s: Seq<char>) -> Seq<Seq<char>> {
    let pieces = split_text_on(s, '\n');
    let ended = pieces.drop_last().map_values(|l: Seq<char>| strip_text_return(l));
    if pieces.last().len() == 0 {
        ended
    } else {
        ended.push(pieces.last())
    }
}

/// Splits the characters at each occurrence of `sep`.
pub fn split_text(input: &[char], sep: char) -> (pieces: Vec<Vec<char>>)
    ensures
        char_rows(pieces@) == split_text_on(input@, sep),
        pieces.len() >= 1,
{
    let mut done: Vec<Vec<char>> = Vec::new();
    let mut open: Vec<char> = Vec::new();
    let mut i: usize = 0;
    assert(input@.take(0) =~= Seq::<char>::empty());
    assert(char_rows(done@).push(open@) =~= split_text_on(input@.take(0), sep));
    while i < input.len()
        invariant
            i <= input.len(),
            char_rows(done@).push(open@) == split_text_on(input@.take(i as int), sep),
        decreases input.len() - i,
    {
        let b = input[i];
        let ghost before = char_rows(done@).push(open@);
        proof {
            assert(input@.take(i as int + 1).drop_last() =~= input@.take(i as int));
            assert(input@.take(i as int + 1).last() == b);
            assert(before.drop_last() =~= char_rows(done@));
            assert(before.last() == open@);
        }
        if b == sep {
            done.push(open);
            open = Vec::new();
            assert(char_rows(done@).push(open@) =~= before.push(Seq::empty()));
        } else {
            open.push(b);
            assert(char_rows(done@).push(open@) =~= before.drop_last().push(before.last().push(b)));
        }
        i += 1;
    }
    assert(input@.take(i as int) =~= input@);
    let ghost before = char_rows(done@).push(open@);
    done.push(open);
    assert(char_rows(done@) =~= before);
    done
}

/// The lines of the characters.
pub fn text_lines(input: &[char]) -> (result: Vec<Vec<char>>)
    ensures
        char_rows(result@) == text_lines_of(input@),
{
    let mut pieces = split_text(input, '\n');
    let last = pieces.pop().unwrap();
    let ghost all = split_text_on(input@, '\n');
    let ghost ended = all.drop_last();
    assert(char_rows(pieces@) =~= all.drop_last());
    assert(last@ == all.last());
    let mut result: Vec<Vec<char>> = Vec::new();
    let mut i: usize = 0;
    while i < pieces.len()
        invariant
            i <= pieces.len(),
            char_rows(pieces@) == ended,
            char_rows(result@) == ended.take(i as int).map_values(|l: Seq<char>| strip_text_return(l)),
        decreases pieces.len() - i,
    {
        let mut line = pieces[i].clone();
        assert(line@ == char_rows(pieces@)[i as int]);
        if line.len() > 0 && line[line.len() - 1] == '\r' {
            line.pop();
        }
        assert(line@ == strip_text_return(ended[i as int]));
        let ghost before = char_rows(result@);
        result.push(line);
        assert(char_rows(result@) =~= before.push(line@));
        assert(ended.take(i as int + 1) =~= ended.take(i as int).push(ended[i as int]));
        assert(char_rows(result@) =~= ended.take(i as int + 1).map_values(
            |l: Seq<char>| strip_text_return(l),
        ));
        i += 1;
    }
    assert(ended.take(i as int) =~= ended);
    if last.len() > 0 {
        let ghost before = char_rows(result@);
        result.push(last);
        assert(char_rows(result@) =~= before.push(last@));
    }
    result
}

/// The string of the characters.
pub fn string_of(chars: &[char]) -> (s: String)
    ensures
        s@ == chars@,
{
    let mut s = String::new();
    let mut i: usize = 0;
    while i < chars.len()
        invariant
            i <= chars.len(),
            s@ == chars@.take(i as int),
        decreases chars.len() - i,
    {
        push_char(&mut s, chars[i]);
        assert(s@ =~= chars@.take(i as int + 1));
        i += 1;
    }
    assert(chars@.take(i as int) =~= chars@);
    s
}

/// Whether `pat` stands in `s` at place `at`.
pub open spec fn occurs_at(s: Seq<u8>, pat: Seq<u8>, at: int) -> bool {
    0 <= at && at + pat.len() <= s.len() && s.subrange(at, at + pat.len()) == pat
}

/// The first place from `from` on at which `pat` stands in `s`, or the
/// length of `s` where there is none.
pub open spec fn first_at(s: Seq<u8>, pat: Seq<u8>, from: int) -> int
    decreases s.len() - from,
{
    if from < 0 || from >= s.len() || from + pat.len() > s.len() {
        s.len() as int
    } else if occurs_at(s, pat, from) {
        from
    } else {
        first_at(s, pat, from + 1)
    }
}

/// The pieces of `s` between the occurrences of `pat`, which is not empty;
/// occurrences are looked for from left to right and do not overlap.
pub open spec fn split_by(s: Seq<u8>, pat: Seq<u8>) -> Seq<Seq<u8>>
    decreases s.len(),
{
    let at = first_at(s, pat, 0);
    if pat.len() == 0 || at < 0 || at + pat.len() > s.len() {
        seq![s]
    } else {
        seq![s.take(at)] + split_by(s.skip(at + pat.len()), pat)
    }
}

/// Whether two texts are the same.
pub fn same_bytes(a: &[u8], b: &[u8]) -> (same: bool)
    ensures
        same == (a@ == b@),
{
    if a.len() != b.len() {
        return false;
    }
    let mut i: usize = 0;
    while i < a.len()
        invariant
            i <= a.len(),
            a.len() == b.len(),
            forall|k: int| 0 <= k < i ==> a[k] == b[k],
        decreases a.len() - i,
    {
        if a[i] != b[i] {
            return false;
        }
        i += 1;
    }
    assert(a@ =~= b@);
    true
}

/// Finds the first place from `from` on at which `pat` stands.
pub fn find_from(s: &[u8], pat: &[u8], from: usize) -> (at: usize)
    requires
        from <= s.len(),
    ensures
        at == first_at(s@, pat@, from as int),
        from <= at <= s.len(),
        at < s.len() ==> at + pat.len() <= s.len(),
    decreases s.len() - from,
{
    if from >= s.len() || pat.len() > s.len() - from {
        return s.len();
    }
    let window = slice_subrange(s, from, from + pat.len());
    if same_bytes(window, pat) {
        from
    } else {
        find_from(s, pat, from + 1)
    }
}

/// Splits the text at each occurrence of `pat`.
pub fn split_at_each(s: &[u8], pat: &[u8]) -> (pieces: Vec<Vec<u8>>)
    requires
        pat.len() > 0,
    ensures
        rows(pieces@) == split_by(s@, pat@),
{
    let mut pieces: Vec<Vec<u8>> = Vec::new();
    let mut start: usize = 0;
    assert(s@.skip(0) =~= s@);
    loop
        invariant_except_break
            start <= s.len(),
            pat.len() > 0,
            rows(pieces@) + split_by(s@.skip(start as int), pat@) == split_by(s@, pat@),
        ensures
            rows(pieces@) == split_by(s@, pat@),
        decreases s.len() - start,
    {
        let rest = slice_subrange(s, start, s.len());
        assert(rest@ =~= s@.skip(start as int));
        let at = find_from(rest, pat, 0);
        let ghost before = rows(pieces@);
        if at >= rest.len() {
            assert(at + pat.len() > rest.len());
            pieces.push(slice_to_vec(rest));
            assert(rows(pieces@) =~= before + seq![rest@]);
            break ;
        }
        let piece = slice_subrange(rest, 0, at);
        assert(piece@ =~= rest@.take(at as int));
        pieces.push(slice_to_vec(piece));
        proof {
            assert(rows(pieces@) =~= before.push(piece@));
            assert(rest@.skip(at as int + pat.len()) =~= s@.skip(
                start as int + at as int + pat.len(),
            ));
            assert(before.push(piece@) + split_by(rest@.skip(at as int + pat.len()), pat@)
                =~= before + (seq![piece@] + split_by(rest@.skip(at as int + pat.len()), pat@)));
        }
        start = start + at + pat.len();
    }
    pieces
}

} // verus!
