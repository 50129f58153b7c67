//! Sensors, each with the beacon nearest to it: where in a row no other
//! beacon can be, and the one place in a square that no sensor rules out.
use crate::sorting::{ascending, sorted};
use crate::text::{find_from, first_at, lines, lines_of, parse_signed, rows, signed_of};
use std::ops::Range;
use vstd::prelude::*;
use vstd::string::StringSliceAdditionalSpecFns;

verus! {

/// A place: its column and its row.
pub type Place = (int, int);

#[derive(Clone, Copy, Debug, PartialEq, Eq)]
pub struct Point {
    pub x: i64,
    pub y: i64,
}

impl View for Point {
    type V = Place;

    open spec fn view(&self) -> Place {
        (self.x as int, self.y as int)
    }
}

/// A sensor and the beacon nearest to it.
#[derive(Clone, Copy, Debug)]
pub struct Sensor {
    pub location: Point,
    pub closest: Point,
}

/// No coordinate of a sensor or a beacon may be farther from 0 than this.
pub const REACH: i64 = 100_000_000;

/// How far two numbers are apart.
pub open spec fn apart(a: int, b: int) -> int {
    if a >= b {
        a - b
    } else {
        b - a
    }
}

/// The distance of two places, along the axes.
pub open spec fn distance(a: Place, b: Place) -> int {
    apart(a.0, b.0) + apart(a.1, b.1)
}

/// Whether no coordinate of the place is farther from 0 than `REACH`.
pub open spec fn near(p: Place) -> bool {
    -REACH <= p.0 <= REACH && -REACH <= p.1 <= REACH
}

impl Sensor {
    /// Whether the sensor and its beacon are no farther out than `REACH`.
    pub open spec fn modest(&self) -> bool {
        near(self.location@) && near(self.closest@)
    }

    /// The distance to the nearest beacon.
    pub open spec fn range(&self) -> int {
        distance(self.location@, self.closest@)
    }

    /// How far to each side the sensor sees in row `y`; not above 0 where
    /// it does not see into the row.
    pub open spec fn rest(&self, y: int) -> int {
        self.range() - apart(self.location.y as int, y)
    }

    /// Whether the sensor rules the place out: the place is no farther
    /// than the nearest beacon, and the sensor sees more than one place of
    /// its row.
    pub open spec fn rules_out(&self, p: Place) -> bool {
        self.rest(p.1) > 0 && apart(self.location.x as int, p.0) <= self.rest(p.1)
    }
}

/// How far two numbers are apart.
pub fn gap(a: i64, b: i64) -> (d: i64)
    requires
        -REACH <= a <= REACH,
        -4 * REACH <= b <= 4 * REACH,
    ensures
        d == apart(a as int, b as int),
{
    if a >= b {
        a - b
    } else {
        b - a
    }
}

impl Sensor {
    pub fn min_distance(&self) -> (d: i64)
        requires
            self.modest(),
        ensures
            d == self.range(),
    {
        gap(self.location.x, self.closest.x) + gap(self.location.y, self.closest.y)
    }

    /// The columns of row `y` that the sensor rules out.
    pub fn invalid_range_on(&self, y: i64) -> (r: Option<Range<i64>>)
        requires
            self.modest(),
            -4 * REACH <= y <= 4 * REACH,
        ensures
            r.is_some() == (self.rest(y as int) > 0),
            r matches Some(range) ==> range.start == self.location.x - self.rest(y as int)
                && range.end == self.location.x + self.rest(y as int) + 1,
    {
        let remaining_dist = self.min_distance() - gap(self.location.y, y);
        if remaining_dist <= 0 {
            return None;
        }
        Some(
            Range {
                start: self.location.x - remaining_dist,
                end: self.location.x + remaining_dist + 1,
            },
        )
    }
}

/// Whether one of the ranges holds `x`.
pub open spec fn within(ranges: Seq<Range<i64>>, x: int) -> bool {
    exists|i: int| 0 <= i < ranges.len() && (#[trigger] ranges[i]).start <= x < ranges[i].end
}

/// Whether one of the sensors rules the place out.
pub open spec fn ruled_out(sensors: Seq<Sensor>, p: Place) -> bool {
    exists|i: int| 0 <= i < sensors.len() && (#[trigger] sensors[i]).rules_out(p)
}

/// Whether a beacon that a sensor knows of is at the place.
pub open spec fn beacon_at(sensors: Seq<Sensor>, p: Place) -> bool {
    exists|i: int| 0 <= i < sensors.len() && (#[trigger] sensors[i]).closest@ == p
}

/// Whether every sensor is modest.
pub open spec fn all_modest(sensors: Seq<Sensor>) -> bool {
    forall|i: int| 0 <= i < sensors.len() ==> (#[trigger] sensors[i]).modest()
}

/// The columns of row `y` where no beacon can be: a sensor rules them out,
/// and no beacon is known there.
pub open spec fn unavailable(sensors: Seq<Sensor>, y: int) -> Set<int> {
    Set::new(|x: int| ruled_out(sensors, (x, y)) && !beacon_at(sensors, (x, y)))
}

/// Whether each number is less than the next.
pub open spec fn rising(s: Seq<i64>) -> bool {
    forall|i: int, j: int| 0 <= i < j < s.len() ==> s[i] < s[j]
}

/// Find and dedup the list of beacons in a given row
pub fn get_beacons_at_row(input: &Vec<Sensor>, y: i64) -> (result: Vec<i64>)
    ensures
        rising(result@),
        forall|x: i64| #[trigger] result@.contains(x) <==> beacon_at(input@, (x as int, y as int)),
{
    let mut found: Vec<i64> = Vec::new();
    let mut i: usize = 0;
    while i < input.len()
        invariant
            i <= input.len(),
            forall|x: i64| #[trigger]
                found@.contains(x) <==> beacon_at(input@.take(i as int), (x as int, y as int)),
        decreases input.len() - i,
    {
        let ghost before = found@;
        if input[i].closest.y == y {
            found.push(input[i].closest.x);
        }
        proof {
            let seen = input@.take(i as int);
            let more = input@.take(i as int + 1);
            assert forall|x: i64| #[trigger]
                found@.contains(x) <==> beacon_at(more, (x as int, y as int)) by {
                let p = (x as int, y as int);
                if found@.contains(x) {
                    if before.contains(x) {
                        let k = choose|k: int| 0 <= k < seen.len() && (#[trigger] seen[k]).closest@ == p;
                        assert(more[k].closest@ == p);
                    } else {
                        let k = choose|k: int| 0 <= k < found@.len() && found@[k] == x;
                        if k < before.len() {
                            assert(before[k] == x);
                        }
                        assert(more[i as int].closest@ == p);
                    }
                }
                if beacon_at(more, p) {
                    let k = choose|k: int| 0 <= k < more.len() && (#[trigger] more[k]).closest@ == p;
                    if k < i {
                        assert(seen[k].closest@ == p);
                        assert(before.contains(x));
                        let at = choose|at: int| 0 <= at < before.len() && before[at] == x;
                        assert(found@[at] == x);
                    } else {
                        assert(found@[found@.len() - 1] == x);
                    }
                }
            }
        }
        i += 1;
    }
    assert(input@.take(i as int) =~= input@);
    let ordered = sorted(found.as_slice());
    proof {
        found@.to_multiset_ensures();
        ordered@.to_multiset_ensures();
    }
    let result = dedup(&ordered);
    proof {
        assert forall|x: i64| #[trigger] result@.contains(x) <==> beacon_at(
            input@,
            (x as int, y as int),
        ) by {
            assert(ordered@.contains(x) <==> ordered@.to_multiset().count(x) > 0);
            assert(found@.contains(x) <==> found@.to_multiset().count(x) > 0);
        }
    }
    result
}

/// The numbers of an ascending list, each once.
pub fn dedup(ordered: &Vec<i64>) -> (result: Vec<i64>)
    requires
        ascending(ordered@),
    ensures
        rising(result@),
        forall|x: i64| #[trigger] result@.contains(x) <==> ordered@.contains(x),
{
    let mut result: Vec<i64> = Vec::new();
    let mut k: usize = 0;
    while k < ordered.len()
        invariant
            k <= ordered.len(),
            ascending(ordered@),
            rising(result@),
            result.len() > 0 ==> k > 0 && result@.last() == ordered[k - 1],
            forall|x: i64| #[trigger] result@.contains(x) <==> ordered@.take(k as int).contains(x),
        decreases ordered.len() - k,
    {
        let x = ordered[k];
        let ghost before = result@;
        let fresh = result.len() == 0 || result[result.len() - 1] != x;
        if fresh {
            result.push(x);
        }
        proof {
            let seen = ordered@.take(k as int);
            let more = ordered@.take(k as int + 1);
            assert(more =~= seen.push(x));
            if fresh {
                assert forall|a: int, b: int| 0 <= a < b < result@.len() implies result@[a]
                    < result@[b] by {
                    if b == result@.len() - 1 {
                        assert(before.contains(before[a]));
                        let at = choose|at: int| 0 <= at < seen.len() && seen[at] == before[a];
                        assert(ordered[at] <= ordered[k - 1]);
                        assert(before[a] <= before.last());
                    }
                }
            }
            assert forall|v: i64| #[trigger] result@.contains(v) <==> more.contains(v) by {
                vstd::seq_lib::lemma_seq_contains_after_push(seen, x, v);
                if fresh {
                    vstd::seq_lib::lemma_seq_contains_after_push(before, x, v);
                } else {
                    assert(before.contains(before.last()));
                }
            }
        }
        k += 1;
    }
    assert(ordered@.take(k as int) =~= ordered@);
    result
}

/// Whether `a` comes no later than `b`: by where they start, then by where
/// they end.
pub open spec fn no_later(a: Range<i64>, b: Range<i64>) -> bool {
    a.start < b.start || (a.start == b.start && a.end <= b.end)
}

/// Whether no range comes later than one behind it.
pub open spec fn in_order(ranges: Seq<Range<i64>>) -> bool {
    forall|i: int, j: int| 0 <= i <= j < ranges.len() ==> no_later(ranges[i], ranges[j])
}

/// The ranges in order: by where they start, then by where they end.
pub fn sort_ranges(input: &Vec<Range<i64>>) -> (result: Vec<Range<i64>>)
    ensures
        in_order(result@),
        result@.to_multiset() == input@.to_multiset(),
        result.len() == input.len(),
{
    let mut result: Vec<Range<i64>> = Vec::new();
    let mut i: usize = 0;
    assert(input@.take(0) =~= Seq::<Range<i64>>::empty());
    while i < input.len()
        invariant
            i <= input.len(),
            result.len() == i,
            in_order(result@),
            result@.to_multiset() == input@.take(i as int).to_multiset(),
        decreases input.len() - i,
    {
        let start = input[i].start;
        let end = input[i].end;
        let mut at: usize = 0;
        while at < result.len() && (result[at].start < start || (result[at].start == start
            && result[at].end <= end))
            invariant
                at <= result.len(),
                start == input[i as int].start,
                end == input[i as int].end,
                forall|k: int| 0 <= k < at ==> no_later(#[trigger] result[k], input[i as int]),
            decreases result.len() - at,
        {
            at += 1;
        }
        let ghost before = result@;
        result.insert(at, Range { start, end });
        proof {
            let a = input[i as int];
            assert(result@[at as int] == a);
            vstd::seq_lib::to_multiset_insert(before, at as int, a);
            vstd::seq_lib::to_multiset_build(input@.take(i as int), a);
            assert(input@.take(i as int + 1) =~= input@.take(i as int).push(a));
            assert forall|x: int, y: int| 0 <= x <= y < result@.len() implies no_later(
                result@[x],
                result@[y],
            ) by {
                if x < at && y > at {
                    assert(no_later(before[x], before[y - 1]));
                } else if x > at {
                    assert(no_later(before[x - 1], before[y - 1]));
                } else if y < at {
                    assert(no_later(before[x], before[y]));
                } else if x == at && y > at {
                    assert(no_later(before[at as int], before[y - 1]));
                } else if x < at && y == at {
                    assert(no_later(before[x], a));
                }
            }
        }
        i += 1;
    }
    assert(input@.take(i as int) =~= input@);
    result
}

/// Whether no range ends before it starts.
pub open spec fn proper(ranges: Seq<Range<i64>>) -> bool {
    forall|i: int| 0 <= i < ranges.len() ==> (#[trigger] ranges[i]).start <= ranges[i].end
}

/// Whether each range ends where the next starts, or before.
pub open spec fn parted(ranges: Seq<Range<i64>>) -> bool {
    forall|i: int| 0 <= i < ranges.len() - 1 ==> (#[trigger] ranges[i]).end <= ranges[i + 1].start
}

/// Whether no range starts before one in front of it.
pub open spec fn starts_rise(ranges: Seq<Range<i64>>) -> bool {
    forall|i: int, j: int|
        0 <= i <= j < ranges.len() ==> (#[trigger] ranges[i]).start <= (#[trigger] ranges[j]).start
}

/// Ranges with the same numbers in them hold the same numbers.
pub proof fn lemma_same_ranges(a: Seq<Range<i64>>, b: Seq<Range<i64>>, x: int)
    requires
        a.to_multiset() == b.to_multiset(),
    ensures
        within(a, x) == within(b, x),
{
    a.to_multiset_ensures();
    b.to_multiset_ensures();
    if within(a, x) {
        let i = choose|i: int| 0 <= i < a.len() && (#[trigger] a[i]).start <= x < a[i].end;
        assert(a.contains(a[i]));
        assert(b.to_multiset().count(a[i]) > 0);
        assert(b.contains(a[i]));
        let j = choose|j: int| 0 <= j < b.len() && b[j] == a[i];
        assert(b[j].start <= x < b[j].end);
    }
    if within(b, x) {
        let i = choose|i: int| 0 <= i < b.len() && (#[trigger] b[i]).start <= x < b[i].end;
        assert(b.contains(b[i]));
        assert(a.to_multiset().count(b[i]) > 0);
        assert(a.contains(b[i]));
        let j = choose|j: int| 0 <= j < a.len() && a[j] == b[i];
        assert(a[j].start <= x < a[j].end);
    }
}

/// Whether the range starts where one of the given ranges starts, and ends
/// where one of them ends.
pub open spec fn made_of(r: Range<i64>, given: Seq<Range<i64>>) -> bool {
    exists|a: int, b: int|
        0 <= a < given.len() && 0 <= b < given.len() && r.start == (#[trigger] given[a]).start
            && r.end == (#[trigger] given[b]).end
}

/// Whether `after` is `before` with the ranges at `i` and behind it joined
/// to one.
pub open spec fn joined(before: Seq<Range<i64>>, after: Seq<Range<i64>>, i: int) -> bool {
    &&& 0 <= i < before.len() - 1
    &&& after.len() == before.len() - 1
    &&& forall|k: int| 0 <= k < i ==> after[k] == before[k]
    &&& forall|k: int| i < k < after.len() ==> after[k] == before[k + 1]
    &&& after[i].start == before[i].start
    &&& after[i].end == if before[i].end >= before[i + 1].end {
        before[i].end
    } else {
        before[i + 1].end
    }
}

/// Two ranges that overlap, joined to one, hold what the two held.
pub proof fn lemma_joined_holds(before: Seq<Range<i64>>, after: Seq<Range<i64>>, i: int, x: int)
    requires
        joined(before, after, i),
        before[i].start <= before[i + 1].start,
        before[i].end > before[i + 1].start,
    ensures
        within(after, x) == within(before, x),
{
    if within(before, x) {
        let k = choose|k: int|
            0 <= k < before.len() && (#[trigger] before[k]).start <= x < before[k].end;
        if k < i {
            assert(after[k].start <= x < after[k].end);
        } else if k <= i + 1 {
            assert(after[i].start <= x < after[i].end);
        } else {
            assert(after[k - 1].start <= x < after[k - 1].end);
        }
    }
    if within(after, x) {
        let k = choose|k: int| 0 <= k < after.len() && (#[trigger] after[k]).start <= x < after[k].end;
        if k < i {
            assert(before[k].start <= x < before[k].end);
        } else if k == i {
            if x < before[i].end {
                assert(before[i].start <= x < before[i].end);
            } else {
                assert(before[i + 1].start <= x < before[i + 1].end);
            }
        } else {
            assert(before[k + 1].start <= x < before[k + 1].end);
        }
    }
}

/// Joining two ranges keeps the order of the starts, and each range made
/// of the given ones.
pub proof fn lemma_joined_keeps(
    before: Seq<Range<i64>>,
    after: Seq<Range<i64>>,
    i: int,
    given: Seq<Range<i64>>,
)
    requires
        joined(before, after, i),
        starts_rise(before),
        forall|k: int| 0 <= k < before.len() ==> made_of(#[trigger] before[k], given),
    ensures
        starts_rise(after),
        proper(before) ==> proper(after),
        forall|k: int| 0 <= k < after.len() ==> made_of(#[trigger] after[k], given),
{
    assert forall|a: int, b: int| 0 <= a <= b < after.len() implies (#[trigger] after[a]).start
        <= (#[trigger] after[b]).start by {
        let a0 = if a <= i { a } else { a + 1 };
        let b0 = if b <= i { b } else { b + 1 };
        assert(before[a0].start <= before[b0].start);
    }
    if proper(before) {
        assert forall|k: int| 0 <= k < after.len() implies (#[trigger] after[k]).start
            <= after[k].end by {
            let k0 = if k <= i { k } else { k + 1 };
            assert(before[k0].start <= before[k0].end);
        }
    }
    assert forall|k: int| 0 <= k < after.len() implies made_of(#[trigger] after[k], given) by {
        let k0 = if k <= i { k } else { k + 1 };
        assert(made_of(before[k0], given));
        let (a, b) = choose|a: int, b: int|
            0 <= a < given.len() && 0 <= b < given.len() && before[k0].start == (
            #[trigger] given[a]).start && before[k0].end == (#[trigger] given[b]).end;
        if k == i && before[i].end < before[i + 1].end {
            assert(made_of(before[i + 1], given));
            let (a1, b1) = choose|a1: int, b1: int|
                0 <= a1 < given.len() && 0 <= b1 < given.len() && before[i + 1].start == (
                #[trigger] given[a1]).start && before[i + 1].end == (#[trigger] given[b1]).end;
            assert(after[k].start == given[a].start && after[k].end == given[b1].end);
        } else {
            assert(after[k].start == given[a].start && after[k].end == given[b].end);
        }
    }
}

/// Joins the range at `i` and the one behind it to one, which starts where
/// the first started and ends where the later of the two ended.
pub fn join_at(ranges: &mut Vec<Range<i64>>, i: usize)
    requires
        i + 1 < old(ranges).len(),
    ensures
        joined(old(ranges)@, final(ranges)@, i as int),
{
    let start = ranges[i].start;
    let end = if ranges[i].end >= ranges[i + 1].end {
        ranges[i].end
    } else {
        ranges[i + 1].end
    };
    ranges.set(i, Range { start, end });
    ranges.remove(i + 1);
}

/// Sort and dedup the given ranges: afterwards they hold the numbers that
/// they held before, each in one range only, in rising order.
pub fn simplify_ranges(ranges: &mut Vec<Range<i64>>)
    ensures
        forall|x: int| #[trigger] within(final(ranges)@, x) == within(old(ranges)@, x),
        parted(final(ranges)@),
        starts_rise(final(ranges)@),
        proper(old(ranges)@) ==> proper(final(ranges)@),
        final(ranges).len() <= old(ranges).len(),
        forall|k: int|
            0 <= k < final(ranges).len() ==> made_of(#[trigger] final(ranges)[k], old(ranges)@),
{
    let ghost given = ranges@;
    let ordered = sort_ranges(ranges);
    *ranges = ordered;
    proof {
        assert forall|x: int| #[trigger] within(ranges@, x) == within(given, x) by {
            lemma_same_ranges(ranges@, given, x);
        }
        ranges@.to_multiset_ensures();
        given.to_multiset_ensures();
        assert forall|k: int| 0 <= k < ranges.len() implies made_of(#[trigger] ranges[k], given)
            && (proper(given) ==> ranges[k].start <= ranges[k].end) by {
            assert(ranges@.contains(ranges[k]));
            assert(given.to_multiset().count(ranges[k]) > 0);
            assert(given.contains(ranges[k]));
            let a = choose|a: int| 0 <= a < given.len() && given[a] == ranges[k];
            assert(ranges[k].start == given[a].start && ranges[k].end == given[a].end);
        }
        assert forall|i: int, j: int| 0 <= i <= j < ranges.len() implies (#[trigger] ranges[i]).start
            <= (#[trigger] ranges[j]).start by {
            assert(no_later(ranges[i], ranges[j]));
        }
    }
    let mut i: usize = 0;
    while ranges.len() > 0 && i < ranges.len() - 1
        invariant
            forall|x: int| #[trigger] within(ranges@, x) == within(given, x),
            starts_rise(ranges@),
            forall|j: int| 0 <= j < i ==> (#[trigger] ranges[j]).end <= ranges[j + 1].start,
            proper(given) ==> proper(ranges@),
            ranges.len() <= given.len(),
            forall|k: int| 0 <= k < ranges.len() ==> made_of(#[trigger] ranges[k], given),
        decreases ranges.len() - i,
    {
        if ranges[i].end > ranges[i + 1].start {
            let ghost before = ranges@;
            join_at(ranges, i);
            proof {
                let after = ranges@;
                assert(joined(before, after, i as int));
                assert(before[i as int].start <= before[i as int + 1].start);
                assert forall|x: int| #[trigger] within(after, x) == within(given, x) by {
                    assert(within(before, x) == within(given, x));
                    lemma_joined_holds(before, after, i as int, x);
                }
                lemma_joined_keeps(before, after, i as int, given);
                assert forall|j: int| 0 <= j < i implies (#[trigger] after[j]).end <= after[j
                    + 1].start by {
                    assert(before[j].end <= before[j + 1].start);
                }
            }
        } else {
            i += 1;
        }
    }
}

pub fn ranges_include_location(ranges: &Vec<Range<i64>>, x: i64) -> (found: bool)
    ensures
        found == within(ranges@, x as int),
{
    let mut i: usize = 0;
    while i < ranges.len()
        invariant
            i <= ranges.len(),
            forall|k: int| 0 <= k < i ==> !((#[trigger] ranges[k]).start <= x < ranges[k].end),
        decreases ranges.len() - i,
    {
        if ranges[i].start <= x && x < ranges[i].end {
            return true;
        }
        i += 1;
    }
    false
}

/// The lengths of the ranges, added up.
pub open spec fn total(ranges: Seq<Range<i64>>) -> int
    decreases ranges.len(),
{
    if ranges.len() == 0 {
        0
    } else {
        total(ranges.drop_last()) + (ranges.last().end - ranges.last().start)
    }
}

/// The numbers that the ranges hold.
pub open spec fn held(ranges: Seq<Range<i64>>) -> Set<int> {
    Set::new(|x: int| within(ranges, x))
}

/// Ranges that do not meet hold as many numbers as their lengths add up
/// to, and all of them between the start of the first and the end of the
/// last.
pub proof fn lemma_total(ranges: Seq<Range<i64>>)
    requires
        proper(ranges),
        parted(ranges),
    ensures
        held(ranges).finite(),
        held(ranges).len() == total(ranges),
        0 <= total(ranges),
        ranges.len() > 0 ==> total(ranges) <= ranges.last().end - ranges[0].start,
        ranges.len() > 0 ==> ranges[0].start <= ranges.last().end,
        forall|x: int| ranges.len() > 0 && #[trigger] within(ranges, x) ==> x < ranges.last().end,
    decreases ranges.len(),
{
    if ranges.len() == 0 {
        assert(held(ranges) =~= Set::<int>::empty());
    } else {
        let front = ranges.drop_last();
        let last = ranges.last();
        assert forall|i: int| 0 <= i < front.len() implies (#[trigger] front[i]).start
            <= front[i].end by {
            assert(ranges[i].start <= ranges[i].end);
        }
        assert forall|i: int| 0 <= i < front.len() - 1 implies (#[trigger] front[i]).end
            <= front[i + 1].start by {
            assert(ranges[i].end <= ranges[i + 1].start);
        }
        lemma_total(front);
        let piece = vstd::set_lib::set_int_range(last.start as int, last.end as int);
        vstd::set_lib::lemma_int_range(last.start as int, last.end as int);
        if front.len() > 0 {
            assert(ranges[front.len() - 1].end <= ranges[front.len() - 1 + 1].start);
            assert(front.last().end <= last.start);
        }
        assert forall|x: int| #[trigger] within(ranges, x) == (within(front, x) || piece.contains(
            x,
        )) by {
            if within(ranges, x) {
                let k = choose|k: int|
                    0 <= k < ranges.len() && (#[trigger] ranges[k]).start <= x < ranges[k].end;
                if k < front.len() {
                    assert(front[k].start <= x < front[k].end);
                }
            }
            if within(front, x) {
                let k = choose|k: int|
                    0 <= k < front.len() && (#[trigger] front[k]).start <= x < front[k].end;
                assert(ranges[k].start <= x < ranges[k].end);
            }
            if piece.contains(x) {
                assert(ranges[ranges.len() - 1].start <= x < ranges[ranges.len() - 1].end);
            }
        }
        assert(held(ranges) =~= held(front) + piece);
        assert(held(front).disjoint(piece)) by {
            assert forall|x: int| !(held(front).contains(x) && piece.contains(x)) by {
                if within(front, x) {
                    assert(x < front.last().end);
                }
            }
        }
        vstd::set_lib::lemma_set_disjoint_lens(held(front), piece);
    }
}

/// Count the number of locations covered by the ranges
pub fn count_locations(ranges: &Vec<Range<i64>>) -> (n: usize)
    requires
        proper(ranges@),
        parted(ranges@),
        forall|i: int|
            0 <= i < ranges.len() ==> -EDGE <= (#[trigger] ranges[i]).start && ranges[i].end
                <= EDGE,
    ensures
        n == total(ranges@),
        n == held(ranges@).len(),
{
    let mut sum: i64 = 0;
    let mut i: usize = 0;
    assert(ranges@.take(0) =~= Seq::<Range<i64>>::empty());
    while i < ranges.len()
        invariant
            i <= ranges.len(),
            proper(ranges@),
            parted(ranges@),
            forall|i: int|
                0 <= i < ranges.len() ==> -EDGE <= (#[trigger] ranges[i]).start && ranges[i].end
                    <= EDGE,
            sum == total(ranges@.take(i as int)),
            0 <= sum,
            i > 0 ==> sum <= ranges[i - 1].end - ranges[0].start,
        decreases ranges.len() - i,
    {
        proof {
            let more = ranges@.take(i as int + 1);
            assert(more.drop_last() =~= ranges@.take(i as int));
            assert(more.last() == ranges[i as int]);
            assert(ranges[i as int].start <= ranges[i as int].end);
            if i > 0 {
                assert(ranges[i - 1].end <= ranges[i - 1 + 1].start);
            }
            assert(-EDGE <= ranges[0].start && ranges[0].end <= EDGE);
            assert(-EDGE <= ranges[i as int].start && ranges[i as int].end <= EDGE);
        }
        sum = sum + (ranges[i].end - ranges[i].start);
        i += 1;
    }
    proof {
        assert(ranges@.take(i as int) =~= ranges@);
        lemma_total(ranges@);
        if i > 0 {
            assert(-EDGE <= ranges[0].start && ranges[0].end <= EDGE);
            assert(-EDGE <= ranges[i - 1].start && ranges[i - 1].end <= EDGE);
        }
    }
    sum as usize
}

/// No range that is counted may start or end farther from 0 than this.
pub const EDGE: i64 = 500_000_001;

/// The ranges that the sensors rule out in row `y`, one for each sensor
/// that sees into the row.
pub fn invalid_ranges(input: &Vec<Sensor>, y: i64) -> (ranges: Vec<Range<i64>>)
    requires
        all_modest(input@),
        -4 * REACH <= y <= 4 * REACH,
    ensures
        forall|x: int| #[trigger] within(ranges@, x) == ruled_out(input@, (x, y as int)),
        proper(ranges@),
        forall|i: int|
            0 <= i < ranges.len() ==> -EDGE <= (#[trigger] ranges[i]).start && ranges[i].end
                <= EDGE,
{
    let mut ranges: Vec<Range<i64>> = Vec::new();
    let mut i: usize = 0;
    while i < input.len()
        invariant
            i <= input.len(),
            all_modest(input@),
            -4 * REACH <= y <= 4 * REACH,
            forall|x: int| #[trigger]
                within(ranges@, x) == ruled_out(input@.take(i as int), (x, y as int)),
            proper(ranges@),
            forall|i: int|
                0 <= i < ranges.len() ==> -EDGE <= (#[trigger] ranges[i]).start && ranges[i].end
                    <= EDGE,
        decreases input.len() - i,
    {
        let ghost before = ranges@;
        assert(input[i as int].modest());
        let found = input[i].invalid_range_on(y);
        match found {
            Some(r) => {
                ranges.push(r);
            },
            None => {},
        }
        proof {
            let seen = input@.take(i as int);
            let more = input@.take(i as int + 1);
            let sensor = input[i as int];
            assert forall|x: int| #[trigger]
                within(ranges@, x) == ruled_out(more, (x, y as int)) by {
                let p = (x, y as int);
                assert(within(before, x) == ruled_out(seen, p));
                if within(ranges@, x) {
                    let k = choose|k: int|
                        0 <= k < ranges.len() && (#[trigger] ranges[k]).start <= x < ranges[k].end;
                    if k < before.len() {
                        assert(before[k].start <= x < before[k].end);
                        let j = choose|j: int| 0 <= j < seen.len() && (#[trigger] seen[j]).rules_out(p);
                        assert(more[j].rules_out(p));
                    } else {
                        assert(more[i as int].rules_out(p));
                    }
                }
                if ruled_out(more, p) {
                    let j = choose|j: int| 0 <= j < more.len() && (#[trigger] more[j]).rules_out(p);
                    if j < i {
                        assert(seen[j].rules_out(p));
                        let k = choose|k: int|
                            0 <= k < before.len() && (#[trigger] before[k]).start <= x
                                < before[k].end;
                        assert(ranges[k].start <= x < ranges[k].end);
                    } else {
                        assert(sensor.rules_out(p));
                        assert(ranges[ranges.len() - 1].start <= x < ranges[ranges.len() - 1].end);
                    }
                }
            }
        }
        i += 1;
    }
    assert(input@.take(i as int) =~= input@);
    ranges
}

/// The beacons of the row that a sensor rules out, one for each column.
pub open spec fn beacons_ruled_out(sensors: Seq<Sensor>, y: int) -> Set<int> {
    Set::new(|x: int| ruled_out(sensors, (x, y)) && beacon_at(sensors, (x, y)))
}

/// Count how many spots can't have beacons at them in the given row.
pub fn get_unavailable_at_row(input: &Vec<Sensor>, y: i64) -> (count: usize)
    requires
        all_modest(input@),
        -4 * REACH <= y <= 4 * REACH,
    ensures
        unavailable(input@, y as int).finite(),
        count == unavailable(input@, y as int).len(),
{
    let mut ranges = invalid_ranges(input, y);
    let ghost given = ranges@;
    simplify_ranges(&mut ranges);
    proof {
        assert forall|i: int| 0 <= i < ranges.len() implies -EDGE <= (#[trigger] ranges[i]).start
            && ranges[i].end <= EDGE by {
            assert(made_of(ranges[i], given));
        }
    }
    // Find the beacon locations that would otherwise count
    let beacons = get_beacons_at_row(input, y);
    let mut kept: Vec<i64> = Vec::new();
    let mut i: usize = 0;
    while i < beacons.len()
        invariant
            i <= beacons.len(),
            rising(beacons@),
            rising(kept@),
            kept.len() <= i,
            kept.len() > 0 ==> i > 0 && kept@.last() <= beacons[i - 1],
            forall|x: i64| #[trigger]
                kept@.contains(x) <==> beacons@.take(i as int).contains(x) && within(
                    ranges@,
                    x as int,
                ),
        decreases beacons.len() - i,
    {
        let x = beacons[i];
        let ghost before = kept@;
        let inside = ranges_include_location(&ranges, x);
        if inside {
            kept.push(x);
        }
        proof {
            let seen = beacons@.take(i as int);
            let more = beacons@.take(i as int + 1);
            assert(more =~= seen.push(x));
            if i > 0 {
                assert(beacons[i - 1] < beacons[i as int]);
            }
            assert forall|v: i64| #[trigger]
                kept@.contains(v) <==> more.contains(v) && within(ranges@, v as int) by {
                vstd::seq_lib::lemma_seq_contains_after_push(seen, x, v);
                if inside {
                    vstd::seq_lib::lemma_seq_contains_after_push(before, x, v);
                }
            }
        }
        i += 1;
    }
    let covered = count_locations(&ranges);
    proof {
        assert(beacons@.take(i as int) =~= beacons@);
        let row = y as int;
        let all = held(ranges@);
        let known = beacons_ruled_out(input@, row);
        let free = unavailable(input@, row);
        let columns = kept@.map_values(|v: i64| v as int);
        assert(columns.no_duplicates());
        columns.unique_seq_to_set();
        assert(columns.to_set() =~= known) by {
            assert forall|c: int| columns.to_set().contains(c) == known.contains(c) by {
                if columns.to_set().contains(c) {
                    let k = choose|k: int| 0 <= k < columns.len() && columns[k] == c;
                    assert(kept@.contains(kept@[k]));
                    assert(within(ranges@, c) == within(given, c));
                }
                if known.contains(c) {
                    let j = choose|j: int|
                        0 <= j < input@.len() && (#[trigger] input@[j]).closest@ == (c, row);
                    let v = input@[j].closest.x;
                    assert(beacon_at(input@, (v as int, row)));
                    assert(beacons@.contains(v));
                    assert(within(ranges@, c) == within(given, c));
                    assert(kept@.contains(v));
                    let k = choose|k: int| 0 <= k < kept@.len() && kept@[k] == v;
                    assert(columns[k] == c);
                }
            }
        }
        assert(all =~= free + known) by {
            assert forall|c: int| all.contains(c) == (free + known).contains(c) by {
                assert(within(ranges@, c) == within(given, c));
            }
        }
        assert(free.disjoint(known));
        lemma_total(ranges@);
        vstd::set_lib::lemma_len_subset(free, all);
        vstd::set_lib::lemma_len_subset(known, all);
        vstd::set_lib::lemma_set_disjoint_lens(free, known);
    }
    covered - kept.len()
}

/// The row that is asked about.
pub const ROW: i64 = 2_000_000;

pub fn part1(input: &Vec<Sensor>) -> (count: usize)
    requires
        all_modest(input@),
    ensures
        unavailable(input@, ROW as int).finite(),
        count == unavailable(input@, ROW as int).len(),
{
    get_unavailable_at_row(input, ROW)
}

/// A comma and a space: what stands between the two coordinates.
pub open spec fn comma_space() -> Seq<u8> {
    seq![44u8, 32u8]
}

/// The words `: closest beacon is at `, which stand between the sensor and
/// its beacon.
pub open spec fn between() -> Seq<u8> {
    seq![
        58u8, 32u8, 99u8, 108u8, 111u8, 115u8, 101u8, 115u8, 116u8, 32u8, 98u8, 101u8, 97u8, 99u8,
        111u8, 110u8, 32u8, 105u8, 115u8, 32u8, 97u8, 116u8, 32u8,
    ]
}

/// The place that a text like `x=2, y=18` writes: a number after two
/// bytes, a comma and a space, and a number after two more bytes.
pub open spec fn point_of(s: Seq<u8>) -> Option<Place> {
    let at = first_at(s, comma_space(), 0);
    if 2 <= at && at + 4 <= s.len() {
        match (signed_of(s.subrange(2, at)), signed_of(s.skip(at + 4))) {
            (Some(x), Some(y)) => if i64::MIN <= x <= i64::MAX && i64::MIN <= y <= i64::MAX {
                Some((x, y))
            } else {
                None
            },
            _ => None,
        }
    } else {
        None
    }
}

/// The sensor and the beacon that a line writes: the sensor's place after
/// ten bytes, the words between, and the beacon's place.
pub open spec fn sensor_of(line: Seq<u8>) -> Option<(Place, Place)> {
    let at = first_at(line, between(), 0);
    if 10 <= at && at + 23 <= line.len() {
        match (point_of(line.subrange(10, at)), point_of(line.skip(at + 23))) {
            (Some(location), Some(closest)) => Some((location, closest)),
            _ => None,
        }
    } else {
        None
    }
}

/// Whether every line of the text writes a sensor.
pub open spec fn well_formed(text: Seq<u8>) -> bool {
    forall|i: int| 0 <= i < lines_of(text).len() ==> sensor_of(#[trigger] lines_of(text)[i]).is_some()
}

/// Whether the sensors are those that the lines of the text write.
pub open spec fn text_says(text: Seq<u8>, sensors: Seq<Sensor>) -> bool {
    &&& sensors.len() == lines_of(text).len()
    &&& forall|i: int|
        0 <= i < sensors.len() ==> sensor_of(lines_of(text)[i]) == Some(
            ((#[trigger] sensors[i]).location@, sensors[i].closest@),
        )
}

impl Point {
    pub fn parse(input: &[u8]) -> (r: Option<Point>)
        ensures
            r.is_some() == point_of(input@).is_some(),
            r matches Some(p) ==> point_of(input@) == Some(p@),
    {
        let comma: [u8; 2] = [44, 32];
        assert(comma@ =~= comma_space());
        let at = find_from(input, comma.as_slice(), 0);
        if at < 2 || at >= input.len() || input.len() - at < 4 {
            return None;
        }
        // skip over the x= or y=
        let first = vstd::slice::slice_subrange(input, 2, at);
        let second = vstd::slice::slice_subrange(input, at + 4, input.len());
        assert(second@ =~= input@.skip(at as int + 4));
        match (parse_signed(first), parse_signed(second)) {
            (Some(x), Some(y)) => Some(Point { x, y }),
            _ => None,
        }
    }
}

impl Sensor {
    pub fn parse(input: &[u8]) -> (r: Option<Sensor>)
        ensures
            r.is_some() == sensor_of(input@).is_some(),
            r matches Some(s) ==> sensor_of(input@) == Some((s.location@, s.closest@)),
    {
        let words: [u8; 23] = [
            58, 32, 99, 108, 111, 115, 101, 115, 116, 32, 98, 101, 97, 99, 111, 110, 32, 105, 115,
            32, 97, 116, 32,
        ];
        assert(words@ =~= between());
        let at = find_from(input, words.as_slice(), 0);
        if at < 10 || at >= input.len() || input.len() - at < 23 {
            return None;
        }
        let left = vstd::slice::slice_subrange(input, 10, at);
        let right = vstd::slice::slice_subrange(input, at + 23, input.len());
        assert(right@ =~= input@.skip(at as int + 23));
        match (Point::parse(left), Point::parse(right)) {
            (Some(location), Some(closest)) => Some(Sensor { location, closest }),
            _ => None,
        }
    }

    /// Whether the sensor and its beacon are no farther out than `REACH`.
    pub fn is_modest(&self) -> (b: bool)
        ensures
            b == self.modest(),
    {
        -REACH <= self.location.x && self.location.x <= REACH && -REACH <= self.location.y
            && self.location.y <= REACH && -REACH <= self.closest.x && self.closest.x <= REACH
            && -REACH <= self.closest.y && self.closest.y <= REACH
    }
}

/// The sensors that the text writes, one on each line; `None` where a line
/// writes none.
pub fn parse(input: &str) -> (r: Option<Vec<Sensor>>)
    ensures
        r.is_some() == well_formed(input.spec_bytes()),
        r matches Some(sensors) ==> text_says(input.spec_bytes(), sensors@),
{
    let all = lines(input.as_bytes());
    let ghost ls = lines_of(input.spec_bytes());
    let mut sensors: Vec<Sensor> = Vec::new();
    let mut i: usize = 0;
    while i < all.len()
        invariant
            i <= all.len(),
            rows(all@) == ls,
            ls == lines_of(input.spec_bytes()),
            sensors.len() == i,
            forall|k: int|
                0 <= k < i ==> sensor_of(ls[k]) == Some(
                    ((#[trigger] sensors[k]).location@, sensors[k].closest@),
                ),
        decreases all.len() - i,
    {
        assert(rows(all@)[i as int] == all[i as int]@);
        match Sensor::parse(all[i].as_slice()) {
            Some(s) => {
                sensors.push(s);
            },
            None => {
                assert(sensor_of(lines_of(input.spec_bytes())[i as int]).is_none());
                return None;
            },
        }
        i += 1;
    }
    proof {
        assert(rows(all@).len() == all.len());
        assert forall|k: int| 0 <= k < ls.len() implies sensor_of(#[trigger] ls[k]).is_some() by {
            assert(sensor_of(ls[k]) == Some((sensors[k].location@, sensors[k].closest@)));
        }
    }
    Some(sensors)
}

/// The sensors that the text writes, one on each line.
pub fn generator(input: &str) -> (sensors: Vec<Sensor>)
    requires
        well_formed(input.spec_bytes()),
    ensures
        text_says(input.spec_bytes(), sensors@),
{
    parse(input).unwrap()
}

/// Whether every sensor and its beacon are no farther out than `REACH`.
pub fn are_modest(input: &Vec<Sensor>) -> (b: bool)
    ensures
        b == all_modest(input@),
{
    let mut i: usize = 0;
    while i < input.len()
        invariant
            i <= input.len(),
            forall|k: int| 0 <= k < i ==> (#[trigger] input[k]).modest(),
        decreases input.len() - i,
    {
        if !input[i].is_modest() {
            return false;
        }
        i += 1;
    }
    true
}

/// Half of a number, rounded toward 0.
pub open spec fn half(v: int) -> int {
    if v >= 0 {
        v / 2
    } else {
        -((-v) / 2)
    }
}

/// Points that are rotated by 45 degrees
#[derive(Clone, Copy, Debug)]
pub struct SlantPoint {
    pub diag_x: i64,
    pub diag_y: i64,
}

impl View for SlantPoint {
    type V = Place;

    open spec fn view(&self) -> Place {
        (self.diag_x as int, self.diag_y as int)
    }
}

/// A place in the rotated frame: the sum and the difference of its
/// coordinates.
pub open spec fn slant(p: Place) -> Place {
    (p.0 + p.1, p.1 - p.0)
}

/// The place that a place of the rotated frame stands for.
pub open spec fn upright(d: Place) -> Place {
    (half(d.0 - d.1), half(d.0 + d.1))
}

/// Whether a place of the rotated frame stands for a place: its two
/// coordinates are both even or both odd.
pub open spec fn on_grid(d: Place) -> bool {
    (d.0 % 2 == 0) == (d.1 % 2 == 0)
}

impl SlantPoint {
    pub fn from(pt: &Point) -> (r: SlantPoint)
        requires
            -4 * REACH <= pt.x <= 4 * REACH,
            -4 * REACH <= pt.y <= 4 * REACH,
        ensures
            r@ == slant(pt@),
    {
        SlantPoint { diag_x: pt.x + pt.y, diag_y: pt.y - pt.x }
    }

    pub fn point(&self) -> (p: Point)
        requires
            -16 * REACH <= self.diag_x <= 16 * REACH,
            -16 * REACH <= self.diag_y <= 16 * REACH,
        ensures
            p@ == upright(self@),
    {
        Point { x: (self.diag_x - self.diag_y) / 2, y: (self.diag_x + self.diag_y) / 2 }
    }

    pub fn is_valid(&self) -> (b: bool)
        ensures
            b == on_grid(self@),
    {
        (self.diag_x % 2 == 0) == (self.diag_y % 2 == 0)
    }
}

/// The square in the rotated frame that a sensor rules out.
#[derive(Clone, Copy, Debug)]
pub struct SlantBox {
    pub left: i64,
    pub right: i64,
    pub bottom: i64,
    pub top: i64,
}

impl SlantBox {
    /// Whether the place of the rotated frame lies in the box.
    pub open spec fn holds(&self, d: Place) -> bool {
        self.left <= d.0 < self.right && self.bottom <= d.1 < self.top
    }

    /// Whether this is the box of the sensor: the places no farther from it
    /// than its beacon.
    pub open spec fn is_box_of(&self, sensor: Sensor) -> bool {
        let mid = slant(sensor.location@);
        &&& self.left == mid.0 - sensor.range()
        &&& self.right == mid.0 + sensor.range() + 1
        &&& self.bottom == mid.1 - sensor.range()
        &&& self.top == mid.1 + sensor.range() + 1
    }

    pub fn from(sensor: &Sensor) -> (b: SlantBox)
        requires
            sensor.modest(),
        ensures
            b.is_box_of(*sensor),
    {
        let dist = sensor.min_distance();
        let mid = SlantPoint::from(&sensor.location);
        SlantBox {
            bottom: mid.diag_y - dist,
            top: mid.diag_y + dist + 1,
            left: mid.diag_x - dist,
            right: mid.diag_x + dist + 1,
        }
    }
}

/// A sensor's box holds the places that are no farther from the sensor than
/// its beacon.
pub proof fn lemma_box(b: SlantBox, sensor: Sensor, p: Place)
    requires
        b.is_box_of(sensor),
    ensures
        b.holds(slant(p)) == (distance(sensor.location@, p) <= sensor.range()),
{
}

/// A place of the rotated frame that stands for a place is that place,
/// rotated.
pub proof fn lemma_upright(d: Place)
    requires
        on_grid(d),
    ensures
        slant(upright(d)) == d,
{
}

/// The place of the first split that is not below `coord`; the number of
/// splits where all are below.
pub fn boxify(coord: i64, splits: &[i64]) -> (at: usize)
    ensures
        at <= splits.len(),
        forall|k: int| 0 <= k < at ==> splits[k] < coord,
        at < splits.len() ==> splits[at as int] >= coord,
{
    let mut at: usize = 0;
    while at < splits.len()
        invariant
            at <= splits.len(),
            forall|k: int| 0 <= k < at ==> splits[k] < coord,
        decreases splits.len() - at,
    {
        if splits[at] >= coord {
            return at;
        }
        at += 1;
    }
    at
}

/// The numbers within the bounds, each once, in rising order.
pub fn divisions(values: &Vec<i64>, bounds: &Range<i64>) -> (result: Vec<i64>)
    ensures
        rising(result@),
        forall|v: i64| #[trigger]
            result@.contains(v) <==> values@.contains(v) && bounds.start <= v < bounds.end,
{
    let ordered = sorted(values.as_slice());
    let each = dedup(&ordered);
    proof {
        values@.to_multiset_ensures();
        ordered@.to_multiset_ensures();
        assert forall|v: i64| #[trigger] each@.contains(v) <==> values@.contains(v) by {
            assert(ordered@.contains(v) <==> ordered@.to_multiset().count(v) > 0);
            assert(values@.contains(v) <==> values@.to_multiset().count(v) > 0);
        }
    }
    let mut result: Vec<i64> = Vec::new();
    let mut i: usize = 0;
    while i < each.len()
        invariant
            i <= each.len(),
            rising(each@),
            rising(result@),
            result.len() > 0 ==> i > 0 && result@.last() <= each[i - 1],
            forall|v: i64| #[trigger]
                result@.contains(v) <==> each@.take(i as int).contains(v) && bounds.start <= v
                    < bounds.end,
        decreases each.len() - i,
    {
        let x = each[i];
        let ghost before = result@;
        let inside = bounds.start <= x && x < bounds.end;
        if inside {
            result.push(x);
        }
        proof {
            let seen = each@.take(i as int);
            let more = each@.take(i as int + 1);
            assert(more =~= seen.push(x));
            if i > 0 {
                assert(each[i - 1] < each[i as int]);
            }
            assert forall|v: i64| #[trigger]
                result@.contains(v) <==> more.contains(v) && bounds.start <= v < bounds.end by {
                vstd::seq_lib::lemma_seq_contains_after_push(seen, x, v);
                if inside {
                    vstd::seq_lib::lemma_seq_contains_after_push(before, x, v);
                }
            }
        }
        i += 1;
    }
    assert(each@.take(i as int) =~= each@);
    result
}

/// The box of a sensor.
pub open spec fn box_of(sensor: Sensor) -> SlantBox {
    let mid = slant(sensor.location@);
    SlantBox {
        left: (mid.0 - sensor.range()) as i64,
        right: (mid.0 + sensor.range() + 1) as i64,
        bottom: (mid.1 - sensor.range()) as i64,
        top: (mid.1 + sensor.range() + 1) as i64,
    }
}

/// The boxes of the sensors.
pub open spec fn boxes_of(sensors: Seq<Sensor>) -> Seq<SlantBox> {
    sensors.map_values(|s: Sensor| box_of(s))
}

/// Whether none of the first `n` boxes holds the place.
pub open spec fn clear(boxes: Seq<SlantBox>, n: int, d: Place) -> bool {
    forall|k: int| 0 <= k < n ==> !(#[trigger] boxes[k]).holds(d)
}

/// Whether one of the first `n` boxes has its left or its right side at
/// `v`.
pub open spec fn side_at(boxes: Seq<SlantBox>, n: int, v: int) -> bool {
    exists|k: int| 0 <= k < n && ((#[trigger] boxes[k]).left == v || boxes[k].right == v)
}

/// Whether one of the first `n` boxes has its bottom or its top at `v`.
pub open spec fn level_at(boxes: Seq<SlantBox>, n: int, v: int) -> bool {
    exists|k: int| 0 <= k < n && ((#[trigger] boxes[k]).bottom == v || boxes[k].top == v)
}

/// Whether `xs` and `ys` are the lines of the lattice: within the bounds,
/// the sides and the levels of the boxes and the lower bounds themselves,
/// each once and in rising order.
pub open spec fn lattice(
    boxes: Seq<SlantBox>,
    across: Range<i64>,
    along: Range<i64>,
    xs: Seq<i64>,
    ys: Seq<i64>,
) -> bool {
    &&& rising(xs)
    &&& rising(ys)
    &&& forall|v: i64| #[trigger]
        xs.contains(v) <==> (side_at(boxes, boxes.len() as int, v as int) || v == across.start)
            && across.start <= v < across.end
    &&& forall|v: i64| #[trigger]
        ys.contains(v) <==> (level_at(boxes, boxes.len() as int, v as int) || v == along.start)
            && along.start <= v < along.end
}

/// The lines of the lattice.
pub fn grid_lines(boxes: &Vec<SlantBox>, across: &Range<i64>, along: &Range<i64>) -> (lines: (
    Vec<i64>,
    Vec<i64>,
))
    ensures
        lattice(boxes@, *across, *along, lines.0@, lines.1@),
{
    let mut sides: Vec<i64> = Vec::new();
    let mut levels: Vec<i64> = Vec::new();
    let mut i: usize = 0;
    while i < boxes.len()
        invariant
            i <= boxes.len(),
            forall|v: i64| #[trigger] sides@.contains(v) <==> side_at(boxes@, i as int, v as int),
            forall|v: i64| #[trigger] levels@.contains(v) <==> level_at(boxes@, i as int, v as int),
        decreases boxes.len() - i,
    {
        let ghost sides0 = sides@;
        let ghost levels0 = levels@;
        let b = boxes[i];
        sides.push(b.left);
        sides.push(b.right);
        levels.push(b.bottom);
        levels.push(b.top);
        proof {
            assert forall|v: i64| #[trigger]
                sides@.contains(v) <==> side_at(boxes@, i as int + 1, v as int) by {
                vstd::seq_lib::lemma_seq_contains_after_push(sides0, b.left, v);
                vstd::seq_lib::lemma_seq_contains_after_push(sides0.push(b.left), b.right, v);
                if side_at(boxes@, i as int, v as int) {
                    let k = choose|k: int|
                        0 <= k < i && ((#[trigger] boxes@[k]).left == v || boxes@[k].right == v);
                    assert(boxes@[k].left == v || boxes@[k].right == v);
                }
                if v == b.left || v == b.right {
                    assert(boxes@[i as int].left == v || boxes@[i as int].right == v);
                }
                if side_at(boxes@, i as int + 1, v as int) {
                    let k = choose|k: int|
                        0 <= k < i + 1 && ((#[trigger] boxes@[k]).left == v || boxes@[k].right
                            == v);
                    if k < i {
                        assert(side_at(boxes@, i as int, v as int));
                    }
                }
            }
            assert forall|v: i64| #[trigger]
                levels@.contains(v) <==> level_at(boxes@, i as int + 1, v as int) by {
                vstd::seq_lib::lemma_seq_contains_after_push(levels0, b.bottom, v);
                vstd::seq_lib::lemma_seq_contains_after_push(levels0.push(b.bottom), b.top, v);
                if level_at(boxes@, i as int, v as int) {
                    let k = choose|k: int|
                        0 <= k < i && ((#[trigger] boxes@[k]).bottom == v || boxes@[k].top == v);
                    assert(boxes@[k].bottom == v || boxes@[k].top == v);
                }
                if v == b.bottom || v == b.top {
                    assert(boxes@[i as int].bottom == v || boxes@[i as int].top == v);
                }
                if level_at(boxes@, i as int + 1, v as int) {
                    let k = choose|k: int|
                        0 <= k < i + 1 && ((#[trigger] boxes@[k]).bottom == v || boxes@[k].top
                            == v);
                    if k < i {
                        assert(level_at(boxes@, i as int, v as int));
                    }
                }
            }
        }
        i += 1;
    }
    let ghost sides0 = sides@;
    let ghost levels0 = levels@;
    sides.push(across.start);
    levels.push(along.start);
    proof {
        assert forall|v: i64| #[trigger]
            sides@.contains(v) <==> (side_at(boxes@, boxes.len() as int, v as int) || v
                == across.start) by {
            vstd::seq_lib::lemma_seq_contains_after_push(sides0, across.start, v);
        }
        assert forall|v: i64| #[trigger]
            levels@.contains(v) <==> (level_at(boxes@, boxes.len() as int, v as int) || v
                == along.start) by {
            vstd::seq_lib::lemma_seq_contains_after_push(levels0, along.start, v);
        }
    }
    let xs = divisions(&sides, across);
    let ys = divisions(&levels, along);
    (xs, ys)
}

/// Whether the table has a row for each of the `height` lines and in each
/// row a place for each of the `width` lines.
pub open spec fn table_fits(valid: Seq<Vec<bool>>, width: int, height: int) -> bool {
    valid.len() == height && forall|j: int| 0 <= j < height ==> (#[trigger] valid[j]).len() == width
}

/// For each crossing of the lattice, whether no box holds it.
pub fn mark(boxes: &Vec<SlantBox>, xs: &Vec<i64>, ys: &Vec<i64>) -> (valid: Vec<Vec<bool>>)
    requires
        rising(xs@),
        rising(ys@),
    ensures
        table_fits(valid@, xs.len() as int, ys.len() as int),
        forall|j: int, i: int|
            0 <= j < ys.len() && 0 <= i < xs.len() ==> #[trigger] valid[j][i] == clear(
                boxes@,
                boxes.len() as int,
                (xs[i] as int, ys[j] as int),
            ),
{
    let mut valid: Vec<Vec<bool>> = Vec::new();
    let mut j: usize = 0;
    while j < ys.len()
        invariant
            j <= ys.len(),
            table_fits(valid@, xs.len() as int, j as int),
            forall|r: int, c: int| 0 <= r < j && 0 <= c < xs.len() ==> #[trigger] valid[r][c],
        decreases ys.len() - j,
    {
        let mut row: Vec<bool> = Vec::new();
        let mut i: usize = 0;
        while i < xs.len()
            invariant
                i <= xs.len(),
                row.len() == i,
                forall|c: int| 0 <= c < i ==> row[c],
            decreases xs.len() - i,
        {
            row.push(true);
            i += 1;
        }
        valid.push(row);
        j += 1;
    }
    let mut b: usize = 0;
    while b < boxes.len()
        invariant
            b <= boxes.len(),
            rising(xs@),
            rising(ys@),
            table_fits(valid@, xs.len() as int, ys.len() as int),
            forall|j: int, i: int|
                0 <= j < ys.len() && 0 <= i < xs.len() ==> #[trigger] valid[j][i] == clear(
                    boxes@,
                    b as int,
                    (xs[i] as int, ys[j] as int),
                ),
        decreases boxes.len() - b,
    {
        let bx = boxes[b];
        let x0 = boxify(bx.left, xs.as_slice());
        let x1 = boxify(bx.right, xs.as_slice());
        let y0 = boxify(bx.bottom, ys.as_slice());
        let y1 = boxify(bx.top, ys.as_slice());
        proof {
            assert forall|i: int| 0 <= i < xs.len() implies (x0 <= i < x1) == (bx.left
                <= #[trigger] xs[i] < bx.right) by {
                if x0 < xs.len() && x0 <= i {
                    assert(xs[x0 as int] <= xs[i]);
                }
                if x1 < xs.len() && x1 <= i {
                    assert(xs[x1 as int] <= xs[i]);
                }
            }
            assert forall|j: int| 0 <= j < ys.len() implies (y0 <= j < y1) == (bx.bottom
                <= #[trigger] ys[j] < bx.top) by {
                if y0 < ys.len() && y0 <= j {
                    assert(ys[y0 as int] <= ys[j]);
                }
                if y1 < ys.len() && y1 <= j {
                    assert(ys[y1 as int] <= ys[j]);
                }
            }
        }
        let mut x: usize = x0;
        while x < x1
            invariant
                x0 <= x,
                x0 <= x1 ==> x <= x1,
                x0 > x1 ==> x == x0,
                x1 <= xs.len(),
                y1 <= ys.len(),
                table_fits(valid@, xs.len() as int, ys.len() as int),
                forall|j: int, i: int|
                    0 <= j < ys.len() && 0 <= i < xs.len() ==> #[trigger] valid[j][i] == (clear(
                        boxes@,
                        b as int,
                        (xs[i] as int, ys[j] as int),
                    ) && !(x0 <= i < x && y0 <= j < y1)),
            decreases x1 - x,
        {
            let mut y: usize = y0;
            while y < y1
                invariant
                    x < x1 <= xs.len(),
                    x0 <= x,
                    y0 <= y,
                    y0 <= y1 ==> y <= y1,
                    y0 > y1 ==> y == y0,
                    y1 <= ys.len(),
                    table_fits(valid@, xs.len() as int, ys.len() as int),
                    forall|j: int, i: int|
                        0 <= j < ys.len() && 0 <= i < xs.len() ==> #[trigger] valid[j][i] == (
                        clear(boxes@, b as int, (xs[i] as int, ys[j] as int)) && !(x0 <= i < x
                            && y0 <= j < y1) && !(i == x && y0 <= j < y)),
                decreases y1 - y,
            {
                let ghost before = valid@;
                assert(valid[y as int].len() == xs.len());
                valid[y][x] = false;
                proof {
                    assert forall|j: int| 0 <= j < ys.len() implies (#[trigger] valid[j]).len()
                        == xs.len() by {
                        assert(before[j].len() == xs.len());
                    }
                    assert forall|j: int, i: int|
                        0 <= j < ys.len() && 0 <= i < xs.len() implies #[trigger] valid[j][i] == (
                    clear(boxes@, b as int, (xs[i] as int, ys[j] as int)) && !(x0 <= i < x && y0
                        <= j < y1) && !(i == x && y0 <= j < y + 1)) by {
                        assert(before[j].len() == xs.len());
                        if j != y {
                            assert(valid[j][i] == before[j][i]);
                        } else if i != x {
                            assert(valid[j][i] == before[j][i]);
                        } else {
                            assert(!valid[j][i]);
                        }
                    }
                }
                y += 1;
            }
            x += 1;
        }
        proof {
            assert forall|j: int, i: int|
                0 <= j < ys.len() && 0 <= i < xs.len() implies #[trigger] valid[j][i] == clear(
                boxes@,
                b as int + 1,
                (xs[i] as int, ys[j] as int),
            ) by {
                let d = (xs[i] as int, ys[j] as int);
                assert((x0 <= i < x1 && y0 <= j < y1) == boxes@[b as int].holds(d));
                if clear(boxes@, b as int + 1, d) {
                    assert(!boxes@[b as int].holds(d));
                }
            }
        }
        b += 1;
    }
    valid
}

/// Whether the crossing is one to return: no box holds it, it stands for a
/// place, and that place lies in the two ranges.
pub open spec fn candidate(boxes: Seq<SlantBox>, xr: Range<i64>, yr: Range<i64>, d: Place) -> bool {
    &&& clear(boxes, boxes.len() as int, d)
    &&& on_grid(d)
    &&& xr.start <= upright(d).0 < xr.end
    &&& yr.start <= upright(d).1 < yr.end
}

/// Whether the crossing of the lines `i` and `j` is the first candidate:
/// none is on a line below `j`, nor on line `j` left of `i`.
pub open spec fn first_candidate(
    boxes: Seq<SlantBox>,
    xr: Range<i64>,
    yr: Range<i64>,
    xs: Seq<i64>,
    ys: Seq<i64>,
    j: int,
    i: int,
) -> bool {
    &&& 0 <= j < ys.len() && 0 <= i < xs.len()
    &&& candidate(boxes, xr, yr, (xs[i] as int, ys[j] as int))
    &&& forall|j2: int, i2: int|
        0 <= j2 < ys.len() && 0 <= i2 < xs.len() && (j2 < j || (j2 == j && i2 < i))
            ==> !#[trigger] candidate(boxes, xr, yr, (xs[i2] as int, ys[j2] as int))
}

/// Whether `p` is the place of the first candidate among the crossings, or
/// the origin where there is no candidate.
pub open spec fn chosen(
    boxes: Seq<SlantBox>,
    xr: Range<i64>,
    yr: Range<i64>,
    xs: Seq<i64>,
    ys: Seq<i64>,
    p: Place,
) -> bool {
    ||| exists|j: int, i: int| #[trigger]
        first_candidate(boxes, xr, yr, xs, ys, j, i) && p == upright((xs[i] as int, ys[j] as int))
    ||| p == (0int, 0int) && forall|j: int, i: int|
        0 <= j < ys.len() && 0 <= i < xs.len() ==> !#[trigger] candidate(
            boxes,
            xr,
            yr,
            (xs[i] as int, ys[j] as int),
        )
}

/// The bounds of the lattice from side to side, for the two ranges.
pub open spec fn across(xr: Range<i64>, yr: Range<i64>) -> Range<i64> {
    Range { start: (yr.start + xr.start) as i64, end: (xr.end + yr.end - 1) as i64 }
}

/// The bounds of the lattice from bottom to top, for the two ranges.
pub open spec fn along(xr: Range<i64>, yr: Range<i64>) -> Range<i64> {
    Range { start: (yr.start - xr.end - 1) as i64, end: (yr.end - xr.start) as i64 }
}

/// Whether `p` is what the search of the lattice gives: the lattice is
/// made of the sides of the sensors' boxes, and `p` is chosen from its
/// crossings.
pub open spec fn found(sensors: Seq<Sensor>, xr: Range<i64>, yr: Range<i64>, p: Place) -> bool {
    exists|xs: Seq<i64>, ys: Seq<i64>| #[trigger]
        lattice(boxes_of(sensors), across(xr, yr), along(xr, yr), xs, ys) && chosen(
            boxes_of(sensors),
            xr,
            yr,
            xs,
            ys,
            p,
        )
}

/// Whether a range starts and ends no farther out than `REACH`.
pub open spec fn modest_range(r: Range<i64>) -> bool {
    -REACH <= r.start <= REACH && -REACH <= r.end <= REACH
}

/// A place in the two ranges that no sensor rules out, looked for among
/// the crossings of the lattice; the origin where none is found there.
pub fn find_sensor(input: &Vec<Sensor>, x_range: Range<i64>, y_range: Range<i64>) -> (pt: Point)
    requires
        all_modest(input@),
        modest_range(x_range),
        modest_range(y_range),
    ensures
        found(input@, x_range, y_range, pt@),
        pt@ != (0int, 0int) ==> x_range.start <= pt.x < x_range.end && y_range.start <= pt.y
            < y_range.end && forall|k: int|
            0 <= k < input.len() ==> distance((#[trigger] input[k]).location@, pt@)
                > input[k].range(),
{
    let mut boxes: Vec<SlantBox> = Vec::new();
    let mut k: usize = 0;
    while k < input.len()
        invariant
            k <= input.len(),
            all_modest(input@),
            boxes@ == boxes_of(input@.take(k as int)),
        decreases input.len() - k,
    {
        assert(input[k as int].modest());
        let b = SlantBox::from(&input[k]);
        boxes.push(b);
        proof {
            assert(b == box_of(input[k as int]));
            assert(boxes@ =~= boxes_of(input@.take(k as int + 1)));
        }
        k += 1;
    }
    assert(input@.take(k as int) =~= input@);
    let slant_x_bounds = Range {
        start: y_range.start + x_range.start,
        end: x_range.end + y_range.end - 1,
    };
    let slant_y_bounds = Range {
        start: y_range.start - x_range.end - 1,
        end: y_range.end - x_range.start,
    };
    assert(slant_x_bounds == across(x_range, y_range));
    assert(slant_y_bounds == along(x_range, y_range));
    let (x_div, y_div) = grid_lines(&boxes, &slant_x_bounds, &slant_y_bounds);
    let valid = mark(&boxes, &x_div, &y_div);
    let ghost bs = boxes@;
    let ghost xs = x_div@;
    let ghost ys = y_div@;
    proof {
        assert forall|i: int| 0 <= i < xs.len() implies -3 * REACH <= #[trigger] xs[i] <= 3
            * REACH by {
            assert(xs.contains(xs[i]));
        }
        assert forall|j: int| 0 <= j < ys.len() implies -3 * REACH <= #[trigger] ys[j] <= 3
            * REACH by {
            assert(ys.contains(ys[j]));
        }
    }
    let mut y: usize = 0;
    while y < valid.len()
        invariant
            y <= valid.len(),
            xs == x_div@,
            ys == y_div@,
            bs == boxes@,
            bs == boxes_of(input@),
            all_modest(input@),
            table_fits(valid@, xs.len() as int, ys.len() as int),
            forall|i: int| 0 <= i < xs.len() ==> -3 * REACH <= #[trigger] xs[i] <= 3 * REACH,
            forall|j: int| 0 <= j < ys.len() ==> -3 * REACH <= #[trigger] ys[j] <= 3 * REACH,
            lattice(bs, across(x_range, y_range), along(x_range, y_range), xs, ys),
            forall|j: int, i: int|
                0 <= j < ys.len() && 0 <= i < xs.len() ==> #[trigger] valid[j][i] == clear(
                    bs,
                    bs.len() as int,
                    (xs[i] as int, ys[j] as int),
                ),
            forall|j2: int, i2: int|
                0 <= j2 < y && 0 <= i2 < xs.len() ==> !#[trigger] candidate(
                    bs,
                    x_range,
                    y_range,
                    (xs[i2] as int, ys[j2] as int),
                ),
        decreases valid.len() - y,
    {
        let mut x: usize = 0;
        while x < valid[y].len()
            invariant
                y < valid.len(),
                x <= valid[y as int].len(),
                xs == x_div@,
                ys == y_div@,
                bs == boxes@,
                bs == boxes_of(input@),
                all_modest(input@),
                table_fits(valid@, xs.len() as int, ys.len() as int),
                forall|i: int| 0 <= i < xs.len() ==> -3 * REACH <= #[trigger] xs[i] <= 3 * REACH,
                forall|j: int| 0 <= j < ys.len() ==> -3 * REACH <= #[trigger] ys[j] <= 3 * REACH,
                lattice(bs, across(x_range, y_range), along(x_range, y_range), xs, ys),
                forall|j: int, i: int|
                    0 <= j < ys.len() && 0 <= i < xs.len() ==> #[trigger] valid[j][i] == clear(
                        bs,
                        bs.len() as int,
                        (xs[i] as int, ys[j] as int),
                    ),
                forall|j2: int, i2: int|
                    0 <= j2 < ys.len() && 0 <= i2 < xs.len() && (j2 < y || (j2 == y && i2 < x))
                        ==> !#[trigger] candidate(
                        bs,
                        x_range,
                        y_range,
                        (xs[i2] as int, ys[j2] as int),
                    ),
            decreases valid[y as int].len() - x,
        {
            assert(valid[y as int].len() == xs.len());
            let ghost d = (xs[x as int] as int, ys[y as int] as int);
            if valid[y][x] {
                let slant = SlantPoint { diag_x: x_div[x], diag_y: y_div[y] };
                if slant.is_valid() {
                    let pt = slant.point();
                    if x_range.start <= pt.x && pt.x < x_range.end && y_range.start <= pt.y && pt.y
                        < y_range.end {
                        proof {
                            assert(candidate(bs, x_range, y_range, d));
                            assert(first_candidate(bs, x_range, y_range, xs, ys, y as int, x as int));
                            lemma_upright(d);
                            assert forall|k: int| 0 <= k < input.len() implies distance(
                                (#[trigger] input[k]).location@,
                                pt@,
                            ) > input[k].range() by {
                                assert(!bs[k].holds(d));
                                assert(bs[k] == box_of(input[k]));
                                assert(input[k].modest());
                                lemma_box(bs[k], input[k], pt@);
                            }
                        }
                        return pt;
                    }
                }
            }
            assert(!candidate(bs, x_range, y_range, d));
            x += 1;
        }
        y += 1;
    }
    Point { x: 0, y: 0 }
}

/// The largest coordinate of the square that is searched.
pub const PART2_LIMIT: i64 = 4_000_000;

/// Whether `answer` is the tuning frequency of the place that the search of
/// the square gives: its column times `PART2_LIMIT` plus its row, cut to the
/// size of the result.
pub open spec fn is_frequency(sensors: Seq<Sensor>, answer: usize) -> bool {
    exists|p: Place| #[trigger]
        found(
            sensors,
            (Range { start: 0i64, end: 4_000_001i64 }),
            (Range { start: 0i64, end: 4_000_001i64 }),
            p,
        ) && answer == (p.0 * PART2_LIMIT + p.1) as usize
}

pub fn part2(input: &Vec<Sensor>) -> (answer: usize)
    requires
        all_modest(input@),
    ensures
        is_frequency(input@, answer),
{
    let pt = find_sensor(
        input,
        Range { start: 0, end: PART2_LIMIT + 1 },
        Range { start: 0, end: PART2_LIMIT + 1 },
    );
    proof {
        let whole = Range { start: 0i64, end: 4_000_001i64 };
        assert(found(input@, whole, whole, pt@));
        assert(-3 * REACH <= pt.x <= 3 * REACH && -3 * REACH <= pt.y <= 3 * REACH);
    }
    (pt.x * PART2_LIMIT + pt.y) as usize
}

} // verus!
