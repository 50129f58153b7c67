//! Calorie counting: groups of numbers, the largest total, and the sum of
//! the three largest totals.
use crate::text::{lines, lines_of, parse_signed, rows, signed_of};
use vstd::prelude::*;
use vstd::string::StringSliceAdditionalSpecFns;

verus! {

/// The numbers of a group, as integers.
pub open spec fn ints(v: Seq<i32>) -> Seq<int> {
    v.map_values(|x: i32| x as int)
}

/// The groups of a list, each as integers.
pub open spec fn table(v: Seq<Vec<i32>>) -> Seq<Seq<int>> {
    v.map_values(|g: Vec<i32>| ints(g@))
}

/// The number that a line writes, where it writes one that fits `i32`.
pub open spec fn calorie_of(line: Seq<u8>) -> Option<int> {
    match signed_of(line) {
        Some(v) => if i32::MIN <= v <= i32::MAX {
            Some(v)
        } else {
            None
        },
        None => None,
    }
}

/// The groups that lines describe: a line with a number adds it to the last
/// group, and any other line starts a new group.
pub open spec fn groups(ls: Seq<Seq<u8>>) -> Seq<Seq<int>>
    decreases ls.len(),
{
    if ls.len() == 0 {
        seq![Seq::empty()]
    } else {
        let before = groups(ls.drop_last());
        match calorie_of(ls.last()) {
            Some(v) => before.drop_last().push(before.last().push(v)),
            None => before.push(Seq::empty()),
        }
    }
}

/// The sum of a sequence of integers.
pub open spec fn total(s: Seq<int>) -> int
    decreases s.len(),
{
    if s.len() == 0 {
        0
    } else {
        total(s.drop_last()) + s.last()
    }
}

/// Reads one line: its number, where it is one.
pub fn read_calorie(line: &[u8]) -> (r: Option<i32>)
    ensures
        r.is_some() == calorie_of(line@).is_some(),
        r matches Some(v) ==> calorie_of(line@) == Some(v as int),
{
    match parse_signed(line) {
        Some(v) => if -0x8000_0000 <= v && v <= 0x7fff_ffff {
            Some(v as i32)
        } else {
            None
        },
        None => None,
    }
}

/// The groups of numbers in the text.
pub fn generator(input: &str) -> (result: Vec<Vec<i32>>)
    ensures
        table(result@) == groups(lines_of(input.spec_bytes())),
{
    let all = lines(input.as_bytes());
    let ghost ls = lines_of(input.spec_bytes());
    let mut done: Vec<Vec<i32>> = Vec::new();
    let mut open: Vec<i32> = Vec::new();
    let mut i: usize = 0;
    assert(ls.take(0) =~= Seq::<Seq<u8>>::empty());
    assert(ints(open@) =~= Seq::<int>::empty());
    assert(table(done@).push(ints(open@)) =~= groups(ls.take(0)));
    while i < all.len()
        invariant
            i <= all.len(),
            rows(all@) == ls,
            table(done@).push(ints(open@)) == groups(ls.take(i as int)),
        decreases all.len() - i,
    {
        let ghost before = table(done@).push(ints(open@));
        proof {
            assert(ls.take(i as int + 1).drop_last() =~= ls.take(i as int));
            assert(ls.take(i as int + 1).last() == all[i as int]@);
            assert(before.drop_last() =~= table(done@));
            assert(before.last() == ints(open@));
        }
        match read_calorie(all[i].as_slice()) {
            Some(v) => {
                open.push(v);
                assert(ints(open@) =~= before.last().push(v as int));
                assert(table(done@).push(ints(open@)) =~= before.drop_last().push(
                    before.last().push(v as int),
                ));
            },
            None => {
                done.push(open);
                open = Vec::new();
                assert(ints(open@) =~= Seq::<int>::empty());
                assert(table(done@).push(ints(open@)) =~= before.push(Seq::empty()));
            },
        }
        i += 1;
    }
    assert(ls.take(i as int) =~= ls);
    let ghost before = table(done@).push(ints(open@));
    done.push(open);
    assert(table(done@) =~= before);
    done
}

/// The sum of a group.
pub fn group_total(group: &Vec<i32>) -> (sum: i128)
    ensures
        sum == total(ints(group@)),
        -0x8000_0000 * group.len() <= sum <= 0x8000_0000 * group.len(),
{
    let mut sum: i128 = 0;
    let mut i: usize = 0;
    assert(ints(group@).take(0) =~= Seq::<int>::empty());
    while i < group.len()
        invariant
            i <= group.len(),
            sum == total(ints(group@).take(i as int)),
            -0x8000_0000 * i <= sum <= 0x8000_0000 * i,
        decreases group.len() - i,
    {
        proof {
            assert(ints(group@).take(i as int + 1).drop_last() =~= ints(group@).take(i as int));
            assert(ints(group@).take(i as int + 1).last() == group[i as int] as int);
        }
        sum = sum + group[i] as i128;
        i += 1;
    }
    assert(ints(group@).take(i as int) =~= ints(group@));
    sum
}

/// Whether the total of every group fits `i32`.
pub open spec fn totals_fit(input: Seq<Vec<i32>>) -> bool {
    forall|i: int|
        0 <= i < input.len() ==> i32::MIN <= total(ints(#[trigger] input[i]@)) <= i32::MAX
}

/// The largest total of a group.
pub fn part1(input: &[Vec<i32>]) -> (best: i32)
    requires
        input.len() > 0,
        totals_fit(input@),
    ensures
        exists|i: int| 0 <= i < input.len() && best == total(ints(#[trigger] input[i]@)),
        forall|i: int| 0 <= i < input.len() ==> total(ints(#[trigger] input[i]@)) <= best,
{
    let mut best: i32 = group_total(&input[0]) as i32;
    let mut i: usize = 1;
    while i < input.len()
        invariant
            1 <= i <= input.len(),
            totals_fit(input@),
            exists|j: int| 0 <= j < i && best == total(ints(#[trigger] input[j]@)),
            forall|j: int| 0 <= j < i ==> total(ints(#[trigger] input[j]@)) <= best,
        decreases input.len() - i,
    {
        let sum = group_total(&input[i]) as i32;
        if sum > best {
            best = sum;
        }
        i += 1;
    }
    best
}

/// The largest totals seen so far, at most three, largest first.
pub struct Podium {
    pub filled: int,
    pub first: int,
    pub second: int,
    pub third: int,
}

impl Podium {
    /// The podium before any total was seen.
    pub open spec fn empty() -> Podium {
        Podium { filled: 0, first: 0, second: 0, third: 0 }
    }

    /// The podium after one more total: it takes the place that its size
    /// gives it, and the fourth falls off.
    pub open spec fn place(self, v: int) -> Podium {
        if self.filled <= 0 {
            Podium { filled: 1, first: v, second: 0, third: 0 }
        } else if self.filled == 1 {
            if v > self.first {
                Podium { filled: 2, first: v, second: self.first, third: 0 }
            } else {
                Podium { filled: 2, first: self.first, second: v, third: 0 }
            }
        } else if v > self.first {
            Podium { filled: 3, first: v, second: self.first, third: self.second }
        } else if v > self.second {
            Podium { filled: 3, first: self.first, second: v, third: self.second }
        } else if self.filled == 2 || v > self.third {
            Podium { filled: 3, first: self.first, second: self.second, third: v }
        } else {
            self
        }
    }

    /// The sum of the totals on the podium.
    pub open spec fn sum(self) -> int {
        self.first + self.second + self.third
    }

    /// The places are in order, and an empty place counts 0.
    pub open spec fn ordered(self) -> bool {
        &&& 0 <= self.filled <= 3
        &&& self.filled >= 2 ==> self.first >= self.second
        &&& self.filled >= 3 ==> self.second >= self.third
        &&& self.filled < 3 ==> self.third == 0
        &&& self.filled < 2 ==> self.second == 0
        &&& self.filled < 1 ==> self.first == 0
    }
}

/// The podium of the totals of the groups.
pub open spec fn podium_of(input: Seq<Vec<i32>>) -> Podium
    decreases input.len(),
{
    if input.len() == 0 {
        Podium::empty()
    } else {
        podium_of(input.drop_last()).place(total(ints(input.last()@)))
    }
}

/// The podium is in order, whatever totals were placed on it.
pub proof fn lemma_podium_ordered(input: Seq<Vec<i32>>)
    ensures
        podium_of(input).ordered(),
        podium_of(input).filled == if input.len() < 3 {
            input.len() as int
        } else {
            3
        },
    decreases input.len(),
{
    if input.len() > 0 {
        lemma_podium_ordered(input.drop_last());
    }
}

/// The sum of the three largest totals, or of all where there are fewer
/// than three groups.
pub fn part2(input: &[Vec<i32>]) -> (sum: i32)
    requires
        totals_fit(input@),
        i32::MIN <= podium_of(input@).sum() <= i32::MAX,
    ensures
        sum == podium_of(input@).sum(),
{
    let mut filled: u8 = 0;
    let mut first: i64 = 0;
    let mut second: i64 = 0;
    let mut third: i64 = 0;
    let mut i: usize = 0;
    assert(input@.take(0) =~= Seq::<Vec<i32>>::empty());
    while i < input.len()
        invariant
            i <= input.len(),
            totals_fit(input@),
            filled <= 3,
            i32::MIN <= first <= i32::MAX,
            i32::MIN <= second <= i32::MAX,
            i32::MIN <= third <= i32::MAX,
            podium_of(input@.take(i as int)) == (Podium {
                filled: filled as int,
                first: first as int,
                second: second as int,
                third: third as int,
            }),
        decreases input.len() - i,
    {
        proof {
            assert(input@.take(i as int + 1).drop_last() =~= input@.take(i as int));
            assert(input@.take(i as int + 1).last() == input@[i as int]);
        }
        let v = group_total(&input[i]) as i64;
        if filled == 0 {
            first = v;
            filled = 1;
        } else if filled == 1 {
            if v > first {
                second = first;
                first = v;
            } else {
                second = v;
            }
            filled = 2;
        } else if v > first {
            third = second;
            second = first;
            first = v;
            filled = 3;
        } else if v > second {
            third = second;
            second = v;
            filled = 3;
        } else if filled == 2 || v > third {
            third = v;
            filled = 3;
        }
        i += 1;
    }
    assert(input@.take(i as int) =~= input@);
    (first + second + third) as i32
}

} // verus!
