//! Section assignments: pairs of ranges that nest, and pairs that overlap.
use crate::text::{
    find_byte, lines, lines_of, parse_signed, rows, signed_of, split, split_on, split_once_at,
    COMMA, MINUS,
};
use vstd::prelude::*;
use vstd::slice::slice_subrange;
use vstd::string::StringSliceAdditionalSpecFns;

verus! {

/// A range of sections, both ends included.
#[derive(Debug, PartialEq, Eq, Structural)]
pub struct Range {
    pub lower: i32,
    pub upper: i32,
}

impl Range {
    /// Whether section `x` lies in the range.
    pub open spec fn holds(&self, x: int) -> bool {
        self.lower <= x <= self.upper
    }

    /// Whether one of the two ranges lies within the other.
    pub open spec fn nested(&self, other: &Range) -> bool {
        ||| self.lower <= other.lower && other.upper <= self.upper
        ||| other.lower <= self.lower && self.upper <= other.upper
    }

    /// Whether some section lies in both ranges.
    pub open spec fn shares(&self, other: &Range) -> bool {
        exists|x: int| self.holds(x) && other.holds(x)
    }

    /// Whether one of the two ranges lies within the other.
    pub fn contains(&self, other: &Range) -> (r: bool)
        ensures
            r == self.nested(other),
    {
        if self.lower == other.lower || self.upper == other.upper {
            true
        } else if self.lower < other.lower {
            self.upper > other.upper
        } else {
            self.upper < other.upper
        }
    }

    /// Whether the two ranges have a section in common.
    pub fn overlaps(&self, other: &Range) -> (r: bool)
        ensures
            r == self.shares(other),
    {
        let left = if self.lower >= other.lower {
            self.lower
        } else {
            other.lower
        };
        let right = if self.upper <= other.upper {
            self.upper
        } else {
            other.upper
        };
        proof {
            if left <= right {
                assert(self.holds(left as int) && other.holds(left as int));
            }
        }
        left <= right
    }
}

/// The end of a range that a text writes, where it writes a number that
/// fits `i32`.
pub open spec fn bound_of(s: Seq<u8>) -> Option<int> {
    match signed_of(s) {
        Some(v) => if i32::MIN <= v <= i32::MAX {
            Some(v)
        } else {
            None
        },
        None => None,
    }
}

/// Whether a piece of a line is in order: it has no dash, or a number on
/// each side of its first dash.
pub open spec fn piece_ok(piece: Seq<u8>) -> bool {
    match split_once_at(piece, MINUS) {
        Some((l, u)) => bound_of(l).is_some() && bound_of(u).is_some(),
        None => true,
    }
}

/// The ranges that pieces write, in order; a piece without a dash writes
/// none.
pub open spec fn ranges_in(pieces: Seq<Seq<u8>>) -> Seq<(int, int)>
    decreases pieces.len(),
{
    if pieces.len() == 0 {
        Seq::empty()
    } else {
        let before = ranges_in(pieces.drop_last());
        match split_once_at(pieces.last(), MINUS) {
            Some((l, u)) => before.push((bound_of(l).unwrap(), bound_of(u).unwrap())),
            None => before,
        }
    }
}

/// Whether every piece of the line is in order.
pub open spec fn line_ok(line: Seq<u8>) -> bool {
    forall|j: int|
        0 <= j < split_on(line, COMMA).len() ==> piece_ok(#[trigger] split_on(line, COMMA)[j])
}

/// Whether every line of the text is in order.
pub open spec fn well_formed(text: Seq<u8>) -> bool {
    forall|i: int| 0 <= i < lines_of(text).len() ==> line_ok(#[trigger] lines_of(text)[i])
}

/// The ends of the ranges, as pairs of integers.
pub open spec fn ends(v: Seq<Range>) -> Seq<(int, int)> {
    v.map_values(|r: Range| (r.lower as int, r.upper as int))
}

/// Whether `groups` holds, for each line of the text, the ranges that its
/// pieces between commas write.
pub open spec fn text_says(text: Seq<u8>, groups: Seq<Vec<Range>>) -> bool {
    &&& groups.len() == lines_of(text).len()
    &&& forall|i: int|
        0 <= i < groups.len() ==> ends((#[trigger] groups[i])@) == ranges_in(
            split_on(lines_of(text)[i], COMMA),
        )
}

/// Reads the end of a range.
pub fn read_bound(s: &[u8]) -> (r: Option<i32>)
    ensures
        r.is_some() == bound_of(s@).is_some(),
        r matches Some(v) ==> bound_of(s@) == Some(v as int),
{
    match parse_signed(s) {
        Some(v) => if -0x8000_0000 <= v && v <= 0x7fff_ffff {
            Some(v as i32)
        } else {
            None
        },
        None => None,
    }
}

/// The ranges of a line; `None` where a piece is not in order.
pub fn parse_line(line: &[u8]) -> (r: Option<Vec<Range>>)
    ensures
        r.is_some() == line_ok(line@),
        r matches Some(v) ==> ends(v@) == ranges_in(split_on(line@, COMMA)),
{
    let pieces = split(line, COMMA);
    let ghost ps = split_on(line@, COMMA);
    let mut result: Vec<Range> = Vec::new();
    let mut j: usize = 0;
    assert(ps.take(0) =~= Seq::<Seq<u8>>::empty());
    assert(ends(result@) =~= ranges_in(ps.take(0)));
    while j < pieces.len()
        invariant
            j <= pieces.len(),
            rows(pieces@) == ps,
            ps == split_on(line@, COMMA),
            forall|k: int| 0 <= k < j ==> piece_ok(#[trigger] ps[k]),
            ends(result@) == ranges_in(ps.take(j as int)),
        decreases pieces.len() - j,
    {
        let piece = pieces[j].as_slice();
        proof {
            assert(rows(pieces@)[j as int] == piece@);
            assert(ps.take(j as int + 1).drop_last() =~= ps.take(j as int));
            assert(ps.take(j as int + 1).last() == piece@);
        }
        let at = find_byte(piece, MINUS);
        if at < piece.len() {
            let lower_text = slice_subrange(piece, 0, at);
            let upper_text = slice_subrange(piece, at + 1, piece.len());
            assert(lower_text@ =~= piece@.take(at as int));
            assert(upper_text@ =~= piece@.skip(at as int + 1));
            let lower = read_bound(lower_text);
            let upper = read_bound(upper_text);
            if lower.is_none() || upper.is_none() {
                assert(!piece_ok(split_on(line@, COMMA)[j as int]));
                return None;
            }
            let ghost before = ends(result@);
            result.push(Range { lower: lower.unwrap(), upper: upper.unwrap() });
            assert(ends(result@) =~= before.push(
                (lower.unwrap() as int, upper.unwrap() as int),
            ));
        }
        j += 1;
    }
    assert(ps.take(j as int) =~= ps);
    Some(result)
}

/// The groups of ranges, one from each line; `None` where a piece is not
/// in order.
pub fn parse(input: &str) -> (r: Option<Vec<Vec<Range>>>)
    ensures
        r.is_some() == well_formed(input.spec_bytes()),
        r matches Some(groups) ==> text_says(input.spec_bytes(), groups@),
{
    let all = lines(input.as_bytes());
    let ghost ls = lines_of(input.spec_bytes());
    let mut groups: Vec<Vec<Range>> = Vec::new();
    let mut i: usize = 0;
    while i < all.len()
        invariant
            i <= all.len(),
            rows(all@) == ls,
            ls == lines_of(input.spec_bytes()),
            groups.len() == i,
            forall|k: int| 0 <= k < i ==> line_ok(#[trigger] ls[k]),
            forall|k: int|
                0 <= k < i ==> ends((#[trigger] groups[k])@) == ranges_in(split_on(ls[k], COMMA)),
        decreases all.len() - i,
    {
        assert(rows(all@)[i as int] == all[i as int]@);
        match parse_line(all[i].as_slice()) {
            Some(ranges) => {
                groups.push(ranges);
            },
            None => {
                assert(!line_ok(lines_of(input.spec_bytes())[i as int]));
                return None;
            },
        }
        i += 1;
    }
    Some(groups)
}

/// The groups of ranges, one from each line.
pub fn generator(input: &str) -> (groups: Vec<Vec<Range>>)
    requires
        well_formed(input.spec_bytes()),
    ensures
        text_says(input.spec_bytes(), groups@),
{
    parse(input).unwrap()
}

/// Whether every group has the two ranges that are compared, and the
/// groups are few enough to be counted in `i32`.
pub open spec fn countable(input: Seq<Vec<Range>>) -> bool {
    &&& input.len() <= i32::MAX
    &&& forall|i: int| 0 <= i < input.len() ==> (#[trigger] input[i]).len() >= 2
}

/// The number of groups whose first two ranges nest.
pub open spec fn nested_count(input: Seq<Vec<Range>>) -> int
    decreases input.len(),
{
    if input.len() == 0 {
        0
    } else {
        nested_count(input.drop_last()) + if input.last()[0].nested(&input.last()[1]) {
            1int
        } else {
            0int
        }
    }
}

/// The number of groups whose first two ranges share a section.
pub open spec fn shared_count(input: Seq<Vec<Range>>) -> int
    decreases input.len(),
{
    if input.len() == 0 {
        0
    } else {
        shared_count(input.drop_last()) + if input.last()[0].shares(&input.last()[1]) {
            1int
        } else {
            0int
        }
    }
}

/// Counts the pairs in which one range lies within the other.
pub fn part1(input: &Vec<Vec<Range>>) -> (count: i32)
    requires
        countable(input@),
    ensures
        count == nested_count(input@),
{
    let mut count: i32 = 0;
    let mut i: usize = 0;
    assert(input@.take(0) =~= Seq::<Vec<Range>>::empty());
    while i < input.len()
        invariant
            i <= input.len(),
            countable(input@),
            count == nested_count(input@.take(i as int)),
            0 <= count <= i,
        decreases input.len() - i,
    {
        proof {
            assert(input@.take(i as int + 1).drop_last() =~= input@.take(i as int));
            assert(input@.take(i as int + 1).last() == input@[i as int]);
        }
        let pair = &input[i];
        if pair[0].contains(&pair[1]) {
            count = count + 1;
        }
        i += 1;
    }
    assert(input@.take(i as int) =~= input@);
    count
}

/// Counts the pairs whose ranges overlap.
pub fn part2(input: &Vec<Vec<Range>>) -> (count: i32)
    requires
        countable(input@),
    ensures
        count == shared_count(input@),
{
    let mut count: i32 = 0;
    let mut i: usize = 0;
    assert(input@.take(0) =~= Seq::<Vec<Range>>::empty());
    while i < input.len()
        invariant
            i <= input.len(),
            countable(input@),
            count == shared_count(input@.take(i as int)),
            0 <= count <= i,
        decreases input.len() - i,
    {
        proof {
            assert(input@.take(i as int + 1).drop_last() =~= input@.take(i as int));
            assert(input@.take(i as int + 1).last() == input@[i as int]);
        }
        let pair = &input[i];
        if pair[0].overlaps(&pair[1]) {
            count = count + 1;
        }
        i += 1;
    }
    assert(input@.take(i as int) =~= input@);
    count
}

} // verus!
