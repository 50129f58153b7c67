//! Start markers: the first place in a stream after which the last few
//! characters are all different.
use crate::text::chars_of;
use vstd::prelude::*;
use vstd::slice::slice_subrange;

verus! {

/// Whether no character occurs twice.
pub open spec fn all_distinct(w: Seq<char>) -> bool {
    forall|i: int, j: int| 0 <= i < j < w.len() ==> w[i] != w[j]
}

/// The `size` characters of the stream from place `at` on.
pub open spec fn window(stream: Seq<char>, at: int, size: int) -> Seq<char> {
    stream.subrange(at, at + size)
}

/// The characters of the stream.
pub fn generator(input: &str) -> (stream: Vec<char>)
    ensures
        stream@ == input@,
{
    chars_of(input)
}

/// Whether `c` occurs in `w` from place `from` on.
pub fn occurs_from(w: &[char], from: usize, c: char) -> (found: bool)
    requires
        from <= w.len(),
    ensures
        found == exists|j: int| from <= j < w.len() && w[j] == c,
{
    let mut j: usize = from;
    while j < w.len()
        invariant
            from <= j <= w.len(),
            forall|k: int| from <= k < j ==> w[k] != c,
        decreases w.len() - j,
    {
        if w[j] == c {
            return true;
        }
        j += 1;
    }
    false
}

/// Whether all of the characters are different.
pub fn is_all_unique(w: &[char]) -> (unique: bool)
    ensures
        unique == all_distinct(w@),
{
    let mut i: usize = 0;
    while i < w.len()
        invariant
            i <= w.len(),
            forall|a: int, b: int| 0 <= a < i && a < b < w.len() ==> w[a] != w[b],
        decreases w.len() - i,
    {
        if occurs_from(w, i + 1, w[i]) {
            return false;
        }
        i += 1;
    }
    true
}

/// The end of the first window of `size` different characters among the
/// windows that start before place `len - size`; `usize::MAX` where none of
/// them has only different characters.
pub fn find_unique(input: &Vec<char>, size: usize) -> (end: usize)
    requires
        size <= input.len(),
    ensures
        end != usize::MAX ==> size <= end < input.len() && all_distinct(
            window(input@, end - size, size as int),
        ),
        end != usize::MAX ==> forall|p: int|
            0 <= p < end - size ==> !all_distinct(#[trigger] window(input@, p, size as int)),
        end == usize::MAX ==> forall|p: int|
            0 <= p < input.len() - size ==> !all_distinct(
                #[trigger] window(input@, p, size as int),
            ),
{
    let last = input.len() - size;
    let mut posn: usize = 0;
    while posn < last
        invariant
            posn <= last,
            last == input.len() - size,
            size <= input.len(),
            forall|p: int|
                0 <= p < posn ==> !all_distinct(#[trigger] window(input@, p, size as int)),
        decreases last - posn,
    {
        let w = slice_subrange(input.as_slice(), posn, posn + size);
        assert(w@ =~= window(input@, posn as int, size as int));
        if is_all_unique(w) {
            return posn + size;
        }
        posn += 1;
    }
    usize::MAX
}

/// The end of the first window of 4 different characters.
pub fn part1(input: &Vec<char>) -> (end: usize)
    requires
        4 <= input.len(),
    ensures
        end != usize::MAX ==> 4 <= end < input.len() && all_distinct(window(input@, end - 4, 4)),
        end != usize::MAX ==> forall|p: int|
            0 <= p < end - 4 ==> !all_distinct(#[trigger] window(input@, p, 4)),
        end == usize::MAX ==> forall|p: int|
            0 <= p < input.len() - 4 ==> !all_distinct(#[trigger] window(input@, p, 4)),
{
    find_unique(input, 4)
}

/// The end of the first window of 14 different characters.
pub fn part2(input: &Vec<char>) -> (end: usize)
    requires
        14 <= input.len(),
    ensures
        end != usize::MAX ==> 14 <= end < input.len() && all_distinct(
            window(input@, end - 14, 14),
        ),
        end != usize::MAX ==> forall|p: int|
            0 <= p < end - 14 ==> !all_distinct(#[trigger] window(input@, p, 14)),
        end == usize::MAX ==> forall|p: int|
            0 <= p < input.len() - 14 ==> !all_distinct(#[trigger] window(input@, p, 14)),
{
    find_unique(input, 14)
}

} // verus!
