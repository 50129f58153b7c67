//! Rucksacks: sets of items kept as bits of one word, the item that the two
//! halves of a rucksack share, and the item that a group of rucksacks
//! shares.
use crate::text::{char_rows, chars_of, text_lines, text_lines_of};
use vstd::prelude::*;
use vstd::slice::slice_subrange;
use vstd::std_specs::bits::{axiom_u64_trailing_zeros, u64_trailing_zeros};

verus! {

/// The number of kinds of item: the small and the capital letters.
pub const KINDS: usize = 52;

/// A set of items: bit `p` of the word is set where the item at position
/// `p` is in the set.
#[derive(Debug)]
pub struct Contents {
    items: u64,
}

/// Whether bit `p` of a word is set.
pub open spec fn has_bit(word: u64, p: u64) -> bool {
    (word >> p) & 1u64 == 1u64
}

/// The position of an item: 0 to 25 for the small letters, 26 to 51 for the
/// capital letters; `None` for any other character.
pub open spec fn position_of(ch: char) -> Option<int> {
    if 97 <= ch as u32 <= 122 {
        Some(ch as u32 - 97)
    } else if 65 <= ch as u32 <= 90 {
        Some(ch as u32 - 65 + 26)
    } else {
        None
    }
}

/// Whether every character is an item.
pub open spec fn all_items(chars: Seq<char>) -> bool {
    forall|i: int| 0 <= i < chars.len() ==> position_of(#[trigger] chars[i]).is_some()
}

/// The word with the bits of the items set.
pub open spec fn word_of(chars: Seq<char>) -> u64
    decreases chars.len(),
{
    if chars.len() == 0 {
        0
    } else {
        word_of(chars.drop_last()) | (1u64 << (position_of(chars.last()).unwrap() as u64))
    }
}

/// The bits that are set in every word; all bits where there is no word.
pub open spec fn meet(words: Seq<u64>) -> u64
    decreases words.len(),
{
    if words.len() == 0 {
        u64::MAX
    } else {
        meet(words.drop_last()) & words.last()
    }
}

/// The bits that are set in some word.
pub open spec fn join(words: Seq<u64>) -> u64
    decreases words.len(),
{
    if words.len() == 0 {
        0
    } else {
        join(words.drop_last()) | words.last()
    }
}

/// The lowest position below `KINDS` whose bit is set.
pub open spec fn first_of(word: u64) -> Option<int> {
    if u64_trailing_zeros(word) < KINDS {
        Some(u64_trailing_zeros(word) as int)
    } else {
        None
    }
}

proof fn lemma_set_bit(word: u64, p: u64, q: u64)
    requires
        p < 64,
        q < 64,
    ensures
        has_bit(word | (1u64 << p), q) == (has_bit(word, q) || q == p),
{
    assert(((word | (1u64 << p)) >> q) & 1u64 == 1u64 <==> ((word >> q) & 1u64 == 1u64 || q == p))
        by (bit_vector)
        requires
            p < 64,
            q < 64,
    ;
}

proof fn lemma_and_bit(a: u64, b: u64, q: u64)
    requires
        q < 64,
    ensures
        has_bit(a & b, q) == (has_bit(a, q) && has_bit(b, q)),
{
    assert(((a & b) >> q) & 1u64 == 1u64 <==> ((a >> q) & 1u64 == 1u64 && (b >> q) & 1u64 == 1u64))
        by (bit_vector)
        requires
            q < 64,
    ;
}

proof fn lemma_or_bit(a: u64, b: u64, q: u64)
    requires
        q < 64,
    ensures
        has_bit(a | b, q) == (has_bit(a, q) || has_bit(b, q)),
{
    assert(((a | b) >> q) & 1u64 == 1u64 <==> ((a >> q) & 1u64 == 1u64 || (b >> q) & 1u64 == 1u64))
        by (bit_vector)
        requires
            q < 64,
    ;
}

proof fn lemma_end_bits(q: u64)
    requires
        q < 64,
    ensures
        has_bit(u64::MAX, q),
        !has_bit(0, q),
{
    assert((0xffff_ffff_ffff_ffffu64 >> q) & 1u64 == 1u64) by (bit_vector)
        requires
            q < 64,
    ;
    assert((0u64 >> q) & 1u64 == 0u64) by (bit_vector)
        requires
            q < 64,
    ;
}

/// A bit of `word_of` is set exactly where one of the characters has that
/// position.
pub proof fn lemma_word_of(chars: Seq<char>, q: u64)
    requires
        all_items(chars),
        q < 64,
    ensures
        has_bit(word_of(chars), q) == exists|i: int|
            0 <= i < chars.len() && position_of(#[trigger] chars[i]) == Some(q as int),
    decreases chars.len(),
{
    if chars.len() == 0 {
        lemma_end_bits(q);
    } else {
        let rest = chars.drop_last();
        assert(all_items(rest)) by {
            assert forall|i: int| 0 <= i < rest.len() implies position_of(
                #[trigger] rest[i],
            ).is_some() by {
                assert(rest[i] == chars[i]);
            }
        }
        lemma_word_of(rest, q);
        let p = position_of(chars.last()).unwrap() as u64;
        lemma_set_bit(word_of(rest), p, q);
        if has_bit(word_of(chars), q) {
            if q == p {
                assert(position_of(chars[chars.len() - 1]) == Some(q as int));
            } else {
                let i = choose|i: int|
                    0 <= i < rest.len() && position_of(#[trigger] rest[i]) == Some(q as int);
                assert(chars[i] == rest[i]);
            }
        } else {
            assert forall|i: int| 0 <= i < chars.len() implies position_of(#[trigger] chars[i])
                != Some(q as int) by {
                if i < rest.len() {
                    assert(rest[i] == chars[i]);
                }
            }
        }
    }
}

/// A bit of `meet` is set exactly where it is set in every word.
pub proof fn lemma_meet(words: Seq<u64>, q: u64)
    requires
        q < 64,
    ensures
        has_bit(meet(words), q) == forall|i: int|
            0 <= i < words.len() ==> has_bit(#[trigger] words[i], q),
    decreases words.len(),
{
    if words.len() == 0 {
        lemma_end_bits(q);
    } else {
        let rest = words.drop_last();
        lemma_meet(rest, q);
        lemma_and_bit(meet(rest), words.last(), q);
        if has_bit(meet(words), q) {
            assert forall|i: int| 0 <= i < words.len() implies has_bit(#[trigger] words[i], q) by {
                if i < rest.len() {
                    assert(rest[i] == words[i]);
                }
            }
        } else if has_bit(words.last(), q) {
            let i = choose|i: int| 0 <= i < rest.len() && !has_bit(#[trigger] rest[i], q);
            assert(words[i] == rest[i]);
        }
    }
}

/// A bit of `join` is set exactly where it is set in some word.
pub proof fn lemma_join(words: Seq<u64>, q: u64)
    requires
        q < 64,
    ensures
        has_bit(join(words), q) == exists|i: int|
            0 <= i < words.len() && has_bit(#[trigger] words[i], q),
    decreases words.len(),
{
    if words.len() == 0 {
        lemma_end_bits(q);
    } else {
        let rest = words.drop_last();
        lemma_join(rest, q);
        lemma_or_bit(join(rest), words.last(), q);
        if has_bit(join(words), q) {
            if has_bit(words.last(), q) {
                assert(has_bit(words[words.len() - 1], q));
            } else {
                let i = choose|i: int| 0 <= i < rest.len() && has_bit(#[trigger] rest[i], q);
                assert(words[i] == rest[i]);
            }
        } else {
            assert forall|i: int| 0 <= i < words.len() implies !has_bit(#[trigger] words[i], q) by {
                if i < rest.len() {
                    assert(rest[i] == words[i]);
                }
            }
        }
    }
}

/// `first_of` is the lowest position whose bit is set.
pub proof fn lemma_first_of(word: u64)
    ensures
        first_of(word) matches Some(p) ==> has_bit(word, p as u64) && forall|j: u64|
            j < p ==> !has_bit(word, j),
        first_of(word).is_none() ==> forall|j: u64| j < KINDS ==> !has_bit(word, j),
{
    axiom_u64_trailing_zeros(word);
    let tz = u64_trailing_zeros(word);
    assert forall|j: u64| j < tz implies !has_bit(word, j) by {
        assert((word >> j) & 1u64 == 0u64);
    }
}

/// The words of the sets.
pub open spec fn words_of(sets: Seq<Contents>) -> Seq<u64> {
    sets.map_values(|c: Contents| c.word())
}

impl Contents {
    /// The word that holds the set.
    pub closed spec fn word(&self) -> u64 {
        self.items
    }

    /// Whether the item at position `p` is in the set.
    pub open spec fn has(&self, p: u64) -> bool {
        has_bit(self.word(), p)
    }

    /// The empty set.
    pub fn empty() -> (c: Contents)
        ensures
            c.word() == 0,
    {
        Contents { items: 0 }
    }

    /// Adds the item at a position.
    pub fn set(&mut self, posn: usize)
        requires
            posn < 64,
        ensures
            final(self).word() == old(self).word() | (1u64 << (posn as u64)),
    {
        self.items = self.items | (1u64 << (posn as u64));
    }

    /// The set of the items that the characters name.
    pub fn from_chars(chars: &[char]) -> (c: Contents)
        requires
            all_items(chars@),
        ensures
            c.word() == word_of(chars@),
    {
        let mut result = Contents::empty();
        let mut i: usize = 0;
        assert(chars@.take(0) =~= Seq::<char>::empty());
        while i < chars.len()
            invariant
                i <= chars.len(),
                all_items(chars@),
                result.word() == word_of(chars@.take(i as int)),
            decreases chars.len() - i,
        {
            proof {
                assert(chars@.take(i as int + 1).drop_last() =~= chars@.take(i as int));
                assert(chars@.take(i as int + 1).last() == chars@[i as int]);
            }
            result.set(Contents::position(chars[i]));
            i += 1;
        }
        assert(chars@.take(i as int) =~= chars@);
        result
    }

    /// The position of an item.
    pub fn position(ch: char) -> (p: usize)
        requires
            position_of(ch).is_some(),
        ensures
            p == position_of(ch).unwrap(),
            p < KINDS,
    {
        let code = ch as u32;
        if 97 <= code && code <= 122 {
            (code - 97) as usize
        } else {
            (code - 65 + 26) as usize
        }
    }

    /// The item at a position.
    pub fn item(pos: usize) -> (ch: char)
        requires
            pos < KINDS,
        ensures
            position_of(ch) == Some(pos as int),
    {
        if pos < 26 {
            (97 + pos as u8) as char
        } else {
            (65 + (pos as u8 - 26)) as char
        }
    }

    /// The items that are in every one of the sets.
    pub fn intersect(sets: &[Contents]) -> (c: Contents)
        ensures
            c.word() == meet(words_of(sets@)),
    {
        let mut result = Contents { items: u64::MAX };
        let mut i: usize = 0;
        assert(words_of(sets@).take(0) =~= Seq::<u64>::empty());
        while i < sets.len()
            invariant
                i <= sets.len(),
                result.word() == meet(words_of(sets@).take(i as int)),
            decreases sets.len() - i,
        {
            proof {
                let ws = words_of(sets@);
                assert(ws.take(i as int + 1).drop_last() =~= ws.take(i as int));
                assert(ws.take(i as int + 1).last() == sets@[i as int].word());
            }
            result.items = result.items & sets[i].items;
            i += 1;
        }
        assert(words_of(sets@).take(i as int) =~= words_of(sets@));
        result
    }

    /// The items that are in one of the sets.
    pub fn union(sets: &[Contents]) -> (c: Contents)
        ensures
            c.word() == join(words_of(sets@)),
    {
        let mut result = Contents::empty();
        let mut i: usize = 0;
        assert(words_of(sets@).take(0) =~= Seq::<u64>::empty());
        while i < sets.len()
            invariant
                i <= sets.len(),
                result.word() == join(words_of(sets@).take(i as int)),
            decreases sets.len() - i,
        {
            proof {
                let ws = words_of(sets@);
                assert(ws.take(i as int + 1).drop_last() =~= ws.take(i as int));
                assert(ws.take(i as int + 1).last() == sets@[i as int].word());
            }
            result.items = result.items | sets[i].items;
            i += 1;
        }
        assert(words_of(sets@).take(i as int) =~= words_of(sets@));
        result
    }

    /// The item at the lowest position in the set; `None` where the set
    /// holds no item.
    pub fn first_item(&self) -> (r: Option<char>)
        ensures
            r.is_some() == first_of(self.word()).is_some(),
            r matches Some(ch) ==> position_of(ch) == first_of(self.word()),
    {
        let posn = self.items.trailing_zeros() as usize;
        proof {
            axiom_u64_trailing_zeros(self.items);
        }
        if posn < KINDS {
            Some(Contents::item(posn))
        } else {
            None
        }
    }
}

/// What an item counts: its position and one.
pub fn priority(ch: char) -> (p: i32)
    requires
        position_of(ch).is_some(),
    ensures
        p == position_of(ch).unwrap() + 1,
        1 <= p <= 52,
{
    Contents::position(ch) as i32 + 1
}

/// A rucksack: the sets of items of its compartments.
#[derive(Debug)]
pub struct Rucksack {
    parts: Vec<Contents>,
}

/// Whether a line describes a rucksack: only items, an even number of them
/// and at least two.
pub open spec fn line_ok(line: Seq<char>) -> bool {
    line.len() > 0 && line.len() % 2 == 0 && all_items(line)
}

/// The words of the two halves of a line.
pub open spec fn halves_of(line: Seq<char>) -> Seq<u64> {
    seq![
        word_of(line.take(line.len() as int / 2)),
        word_of(line.skip(line.len() as int / 2)),
    ]
}

impl Rucksack {
    /// The words of the compartments.
    pub closed spec fn compartments(&self) -> Seq<u64> {
        words_of(self.parts@)
    }

    /// The position of the item that the compartments share.
    pub open spec fn shared(&self) -> Option<int> {
        first_of(meet(self.compartments()))
    }

    /// The word of all the items in the rucksack.
    pub open spec fn all(&self) -> u64 {
        join(self.compartments())
    }

    /// The rucksack of a line: its halves are the compartments. `None`
    /// where the line describes none.
    pub fn from_str(s: &[char]) -> (r: Option<Rucksack>)
        ensures
            r.is_some() == line_ok(s@),
            r matches Some(sack) ==> sack.compartments() == halves_of(s@),
    {
        if s.len() == 0 || s.len() % 2 != 0 {
            return None;
        }
        let mut i: usize = 0;
        while i < s.len()
            invariant
                i <= s.len(),
                forall|j: int| 0 <= j < i ==> position_of(#[trigger] s[j]).is_some(),
            decreases s.len() - i,
        {
            let code = s[i] as u32;
            if !((97 <= code && code <= 122) || (65 <= code && code <= 90)) {
                assert(!position_of(s@[i as int]).is_some());
                return None;
            }
            i += 1;
        }
        let half = s.len() / 2;
        let first = slice_subrange(s, 0, half);
        let second = slice_subrange(s, half, s.len());
        assert(first@ =~= s@.take(half as int));
        assert(second@ =~= s@.skip(half as int));
        let mut parts: Vec<Contents> = Vec::new();
        parts.push(Contents::from_chars(first));
        parts.push(Contents::from_chars(second));
        assert(words_of(parts@) =~= halves_of(s@));
        Some(Rucksack { parts })
    }

    /// The item that the compartments share.
    pub fn find_match(&self) -> (r: Option<char>)
        ensures
            r.is_some() == self.shared().is_some(),
            r matches Some(ch) ==> position_of(ch) == self.shared(),
    {
        Contents::intersect(self.parts.as_slice()).first_item()
    }

    /// The set of all items in the rucksack.
    pub fn items(&self) -> (c: Contents)
        ensures
            c.word() == self.all(),
    {
        Contents::union(self.parts.as_slice())
    }
}

/// The words of all the items of each rucksack.
pub open spec fn loads(group: Seq<Rucksack>) -> Seq<u64> {
    group.map_values(|r: Rucksack| r.all())
}

/// The position of the item that all the rucksacks of a group hold.
pub open spec fn badge(group: Seq<Rucksack>) -> Option<int> {
    first_of(meet(loads(group)))
}

/// The item that all the rucksacks of a group hold.
pub fn find_match(group: &[Rucksack]) -> (r: Option<char>)
    ensures
        r.is_some() == badge(group@).is_some(),
        r matches Some(ch) ==> position_of(ch) == badge(group@),
{
    let mut contents: Vec<Contents> = Vec::new();
    let mut i: usize = 0;
    while i < group.len()
        invariant
            i <= group.len(),
            words_of(contents@) == loads(group@).take(i as int),
        decreases group.len() - i,
    {
        let ghost before = words_of(contents@);
        let c = group[i].items();
        let ghost w = c.word();
        contents.push(c);
        assert(words_of(contents@) =~= before.push(w));
        assert(words_of(contents@) =~= loads(group@).take(i as int + 1));
        i += 1;
    }
    assert(loads(group@).take(i as int) =~= loads(group@));
    Contents::intersect(contents.as_slice()).first_item()
}

/// Whether every line of the text describes a rucksack.
pub open spec fn well_formed(text: Seq<char>) -> bool {
    forall|i: int| 0 <= i < text_lines_of(text).len() ==> line_ok(#[trigger] text_lines_of(text)[i])
}

/// Whether `sacks` are the rucksacks of the lines of the text.
pub open spec fn text_says(text: Seq<char>, sacks: Seq<Rucksack>) -> bool {
    &&& sacks.len() == text_lines_of(text).len()
    &&& forall|i: int|
        0 <= i < sacks.len() ==> (#[trigger] sacks[i]).compartments() == halves_of(
            text_lines_of(text)[i],
        )
}

/// The rucksacks of the text, one from each line; `None` where a line
/// describes none.
pub fn parse(input: &str) -> (r: Option<Vec<Rucksack>>)
    ensures
        r.is_some() == well_formed(input@),
        r matches Some(sacks) ==> text_says(input@, sacks@),
{
    let chars = chars_of(input);
    let all = text_lines(chars.as_slice());
    let ghost ls = text_lines_of(input@);
    let mut sacks: Vec<Rucksack> = Vec::new();
    let mut i: usize = 0;
    while i < all.len()
        invariant
            i <= all.len(),
            char_rows(all@) == ls,
            ls == text_lines_of(input@),
            sacks.len() == i,
            forall|k: int| 0 <= k < i ==> line_ok(#[trigger] ls[k]),
            forall|k: int| 0 <= k < i ==> (#[trigger] sacks[k]).compartments() == halves_of(ls[k]),
        decreases all.len() - i,
    {
        assert(char_rows(all@)[i as int] == all[i as int]@);
        match Rucksack::from_str(all[i].as_slice()) {
            Some(sack) => {
                sacks.push(sack);
            },
            None => {
                assert(!line_ok(text_lines_of(input@)[i as int]));
                return None;
            },
        }
        i += 1;
    }
    Some(sacks)
}

/// The rucksacks of the text, one from each line.
pub fn generator(input: &str) -> (sacks: Vec<Rucksack>)
    requires
        well_formed(input@),
    ensures
        text_says(input@, sacks@),
{
    parse(input).unwrap()
}

/// The sum of the priorities of the items that the compartments share.
pub open spec fn shared_sum(input: Seq<Rucksack>) -> int
    decreases input.len(),
{
    if input.len() == 0 {
        0
    } else {
        shared_sum(input.drop_last()) + input.last().shared().unwrap() + 1
    }
}

/// The first group of a list: its first three rucksacks, or all where
/// there are fewer.
pub open spec fn first_group(input: Seq<Rucksack>) -> Seq<Rucksack> {
    input.take(
        if input.len() < 3 {
            input.len() as int
        } else {
            3
        },
    )
}

/// The rucksacks after the first group.
pub open spec fn later_groups(input: Seq<Rucksack>) -> Seq<Rucksack> {
    input.skip(
        if input.len() < 3 {
            input.len() as int
        } else {
            3
        },
    )
}

/// Whether every group of three has an item in common.
pub open spec fn groups_ok(input: Seq<Rucksack>) -> bool
    decreases input.len(),
{
    if input.len() == 0 {
        true
    } else {
        badge(first_group(input)).is_some() && groups_ok(later_groups(input))
    }
}

/// The sum of the priorities of the items that the groups of three have in
/// common.
pub open spec fn badge_sum(input: Seq<Rucksack>) -> int
    decreases input.len(),
{
    if input.len() == 0 {
        0
    } else {
        badge(first_group(input)).unwrap() + 1 + badge_sum(later_groups(input))
    }
}

/// Finds the item that the compartments of each rucksack share, and sums
/// the priorities.
pub fn part1(input: &[Rucksack]) -> (sum: i32)
    requires
        forall|i: int| 0 <= i < input.len() ==> (#[trigger] input[i]).shared().is_some(),
        input.len() * 52 <= i32::MAX,
    ensures
        sum == shared_sum(input@),
{
    let mut sum: i32 = 0;
    let mut i: usize = 0;
    assert(input@.take(0) =~= Seq::<Rucksack>::empty());
    while i < input.len()
        invariant
            i <= input.len(),
            forall|j: int| 0 <= j < input.len() ==> (#[trigger] input[j]).shared().is_some(),
            input.len() * 52 <= i32::MAX,
            sum == shared_sum(input@.take(i as int)),
            0 <= sum <= 52 * i,
        decreases input.len() - i,
    {
        proof {
            assert(input@.take(i as int + 1).drop_last() =~= input@.take(i as int));
            assert(input@.take(i as int + 1).last() == input@[i as int]);
        }
        let found = input[i].find_match();
        sum = sum + priority(found.unwrap());
        i += 1;
    }
    assert(input@.take(i as int) =~= input@);
    sum
}

/// Groups the rucksacks in threes, finds the item that each group has in
/// common, and sums the priorities.
pub fn part2(input: &[Rucksack]) -> (sum: i32)
    requires
        groups_ok(input@),
        input.len() * 52 <= i32::MAX,
    ensures
        sum == badge_sum(input@),
{
    let mut sum: i32 = 0;
    let mut i: usize = 0;
    assert(input@.skip(0) =~= input@);
    while i < input.len()
        invariant
            i <= input.len(),
            input.len() * 52 <= i32::MAX,
            groups_ok(input@.skip(i as int)),
            sum + badge_sum(input@.skip(i as int)) == badge_sum(input@),
            0 <= sum <= 52 * i,
        decreases input.len() - i,
    {
        let end = if input.len() - i < 3 {
            input.len()
        } else {
            i + 3
        };
        let group = slice_subrange(input, i, end);
        proof {
            let rest = input@.skip(i as int);
            assert(group@ =~= first_group(rest));
            assert(input@.skip(end as int) =~= later_groups(rest));
        }
        let found = find_match(group);
        sum = sum + priority(found.unwrap());
        i = end;
    }
    assert(input@.skip(i as int) =~= Seq::<Rucksack>::empty());
    sum
}

} // verus!
