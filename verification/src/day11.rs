//! Monkeys that throw items to one another: each inspects its items in
//! turn, changes how much one worries about an item, and throws it on by a
//! test of that worry; the two busiest monkeys give the answer.
use crate::text::{
    find_from, first_at, lines, lines_of, natural_of, parse_natural, rows, same_bytes,
    split_at_each, split_by, words, words_of,
};
use std::collections::VecDeque;
use vstd::prelude::*;
use vstd::slice::slice_subrange;
use vstd::string::StringSliceAdditionalSpecFns;

verus! {

pub type ItemType = u64;

/// The bound below which all numbers of a troop must lie for the worries
/// to be computed in `ItemType`.
pub const SMALL: u64 = 0x1_0000_0000;

/// What a monkey does to the worry about an item that it inspects.
#[derive(Clone, Copy, Debug, PartialEq, Eq, Structural)]
pub enum Operation {
    Add(ItemType),
    Multiply(ItemType),
    Square,
}

/// The test by which a monkey decides where to throw.
#[derive(Clone, Copy, Debug, PartialEq, Eq, Structural)]
pub enum Test {
    Divisble(ItemType),
}

/// An item on its way to a monkey.
#[derive(Clone, Copy, Debug)]
pub struct FlyingObject {
    pub item: ItemType,
    pub target: usize,
}

#[derive(Debug)]
pub struct Monkey {
    pub items: VecDeque<ItemType>,
    pub operation: Operation,
    pub test: Test,
    pub next: (usize, usize),
    pub inspected: usize,
}

/// The setting of a game: whether worries calm down after an inspection,
/// and the number by whose remainders worries are kept small.
pub struct ProblemDetail {
    pub has_calming: bool,
    pub max: ItemType,
}

/// A monkey as the rules see it.
pub struct Ape {
    pub items: Seq<int>,
    pub operation: Operation,
    pub divisor: int,
    pub next: (int, int),
    pub inspected: int,
}

impl View for Monkey {
    type V = Ape;

    open spec fn view(&self) -> Ape {
        Ape {
            items: self.items@.map_values(|i: ItemType| i as int),
            operation: self.operation,
            divisor: self.test.modulus(),
            next: (self.next.0 as int, self.next.1 as int),
            inspected: self.inspected as int,
        }
    }
}

/// The monkeys as the rules see them.
pub open spec fn troop(monkeys: Seq<Monkey>) -> Seq<Ape> {
    monkeys.map_values(|m: Monkey| m@)
}

impl Test {
    /// The number by which the test divides.
    pub open spec fn modulus(self) -> int {
        match self {
            Test::Divisble(lit) => lit as int,
        }
    }

    /// Whether the worry passes the test.
    pub fn check(&self, val: ItemType) -> (passes: bool)
        requires
            self.modulus() > 0,
        ensures
            passes == (val % self.modulus() as u64 == 0),
    {
        match self {
            Test::Divisble(lit) => val % *lit == 0,
        }
    }

    /// The number by which the test divides.
    pub fn divisor(&self) -> (d: ItemType)
        ensures
            d == self.modulus(),
    {
        match self {
            Test::Divisble(lit) => *lit,
        }
    }
}

/// The worry after the operation, before it is kept small.
pub open spec fn applied(op: Operation, val: int) -> int {
    match op {
        Operation::Add(lit) => val + lit,
        Operation::Multiply(lit) => val * lit,
        Operation::Square => val * val,
    }
}

/// The worry about an item after a monkey has inspected it: the operation,
/// then the remainder by `max`, then a third of it where worries calm down.
pub open spec fn inspected_worry(op: Operation, val: int, max: int, calming: bool) -> int {
    let kept = applied(op, val) % max;
    if calming {
        kept / 3
    } else {
        kept
    }
}

/// The product of the divisors of the monkeys.
pub open spec fn divisor_product(apes: Seq<Ape>) -> int
    decreases apes.len(),
{
    if apes.len() == 0 {
        1
    } else {
        divisor_product(apes.drop_last()) * apes.last().divisor
    }
}

/// The number by whose remainders worries are kept small: the product of
/// the divisors, times 3 where worries calm down and 3 does not divide it.
pub open spec fn common_multiple(apes: Seq<Ape>, calming: bool) -> int {
    let product = divisor_product(apes);
    if calming && product % 3 != 0 {
        product * 3
    } else {
        product
    }
}

/// Whether the numbers of a monkey are small, and it throws to other
/// monkeys of the troop.
pub open spec fn tame(ape: Ape, place: int, size: int) -> bool {
    &&& 0 < ape.divisor < SMALL
    &&& 0 <= ape.next.0 < size && ape.next.0 != place
    &&& 0 <= ape.next.1 < size && ape.next.1 != place
    &&& match ape.operation {
        Operation::Add(lit) => lit < SMALL,
        Operation::Multiply(lit) => lit < SMALL,
        Operation::Square => true,
    }
    &&& forall|i: int| 0 <= i < ape.items.len() ==> 0 <= #[trigger] ape.items[i] < SMALL
    &&& 0 <= ape.inspected
}

/// Whether every monkey of the troop is tame.
pub open spec fn all_tame(apes: Seq<Ape>) -> bool {
    forall|m: int| 0 <= m < apes.len() ==> tame(#[trigger] apes[m], m, apes.len() as int)
}

/// The troop after monkey `m` has inspected and thrown its first item.
pub open spec fn after_throw(apes: Seq<Ape>, m: int, max: int, calming: bool) -> Seq<Ape> {
    let thrower = apes[m];
    let worry = inspected_worry(thrower.operation, thrower.items[0], max, calming);
    let target = if worry % thrower.divisor == 0 {
        thrower.next.0
    } else {
        thrower.next.1
    };
    let left = apes.update(
        m,
        Ape { items: thrower.items.skip(1), inspected: thrower.inspected + 1, ..thrower },
    );
    left.update(target, Ape { items: left[target].items.push(worry), ..left[target] })
}

/// The troop after monkey `m` has thrown its first `count` items.
pub open spec fn after_throws(
    apes: Seq<Ape>,
    m: int,
    max: int,
    calming: bool,
    count: nat,
) -> Seq<Ape>
    decreases count,
{
    if count == 0 {
        apes
    } else {
        after_throw(after_throws(apes, m, max, calming, (count - 1) as nat), m, max, calming)
    }
}

/// The troop after the first `turns` monkeys have each thrown all the items
/// that they held when their turn came.
pub open spec fn after_turns(apes: Seq<Ape>, max: int, calming: bool, turns: nat) -> Seq<Ape>
    decreases turns,
{
    if turns == 0 {
        apes
    } else {
        let before = after_turns(apes, max, calming, (turns - 1) as nat);
        after_throws(before, turns - 1, max, calming, before[turns - 1].items.len())
    }
}

/// The troop after a number of rounds, in each of which every monkey takes
/// its turn.
pub open spec fn after_rounds(apes: Seq<Ape>, max: int, calming: bool, rounds: nat) -> Seq<Ape>
    decreases rounds,
{
    if rounds == 0 {
        apes
    } else {
        let before = after_rounds(apes, max, calming, (rounds - 1) as nat);
        after_turns(before, max, calming, before.len())
    }
}

/// The number of items that the first `n` monkeys hold.
pub open spec fn held(apes: Seq<Ape>, n: nat) -> int
    decreases n,
{
    if n == 0 {
        0
    } else {
        held(apes, (n - 1) as nat) + apes[n - 1].items.len()
    }
}

/// The largest number of inspections of one of the first `n` monkeys.
pub open spec fn busiest(apes: Seq<Ape>, n: nat) -> int
    decreases n,
{
    if n == 0 {
        0
    } else if apes[n - 1].inspected > busiest(apes, (n - 1) as nat) {
        apes[n - 1].inspected
    } else {
        busiest(apes, (n - 1) as nat)
    }
}

/// Changing the items of one monkey changes the number held by as much.
proof fn lemma_held_update(apes: Seq<Ape>, at: int, ape: Ape, n: nat)
    requires
        0 <= at < apes.len(),
        n <= apes.len(),
    ensures
        held(apes.update(at, ape), n) == held(apes, n) + if at < n {
            ape.items.len() - apes[at].items.len()
        } else {
            0
        },
    decreases n,
{
    if n > 0 {
        lemma_held_update(apes, at, ape, (n - 1) as nat);
    }
}

/// No monkey holds more than all hold together.
proof fn lemma_held_bounds(apes: Seq<Ape>, at: int, n: nat)
    requires
        0 <= at < n <= apes.len(),
    ensures
        apes[at].items.len() <= held(apes, n),
        0 <= held(apes, n),
    decreases n,
{
    lemma_held_nonneg(apes, (n - 1) as nat);
    if at < n - 1 {
        lemma_held_bounds(apes, at, (n - 1) as nat);
    }
}

proof fn lemma_held_nonneg(apes: Seq<Ape>, n: nat)
    requires
        n <= apes.len(),
    ensures
        0 <= held(apes, n),
    decreases n,
{
    if n > 0 {
        lemma_held_nonneg(apes, (n - 1) as nat);
    }
}

/// Raising the inspections of one monkey by one raises the largest number
/// by one at most.
proof fn lemma_busiest_update(apes: Seq<Ape>, at: int, ape: Ape, n: nat)
    requires
        0 <= at < apes.len(),
        n <= apes.len(),
        apes[at].inspected <= ape.inspected <= apes[at].inspected + 1,
    ensures
        busiest(apes, n) <= busiest(apes.update(at, ape), n) <= busiest(apes, n) + 1,
        ape.inspected == apes[at].inspected ==> busiest(apes.update(at, ape), n) == busiest(
            apes,
            n,
        ),
    decreases n,
{
    if n > 0 {
        lemma_busiest_update(apes, at, ape, (n - 1) as nat);
    }
}

/// No monkey has inspected more often than the busiest.
proof fn lemma_busiest_bounds(apes: Seq<Ape>, at: int, n: nat)
    requires
        0 <= at < n <= apes.len(),
    ensures
        apes[at].inspected <= busiest(apes, n),
    decreases n,
{
    if at < n - 1 {
        lemma_busiest_bounds(apes, at, (n - 1) as nat);
    }
}

/// A throw keeps the troop tame, moves one item, and counts one inspection.
pub proof fn lemma_after_throw(apes: Seq<Ape>, m: int, max: int, calming: bool)
    requires
        all_tame(apes),
        0 <= m < apes.len(),
        apes[m].items.len() > 0,
        0 < max <= SMALL,
    ensures
        all_tame(after_throw(apes, m, max, calming)),
        after_throw(apes, m, max, calming).len() == apes.len(),
        after_throw(apes, m, max, calming)[m].items == apes[m].items.skip(1),
        held(after_throw(apes, m, max, calming), apes.len()) == held(apes, apes.len()),
        busiest(apes, apes.len()) <= busiest(after_throw(apes, m, max, calming), apes.len())
            <= busiest(apes, apes.len()) + 1,
{
    let thrower = apes[m];
    assert(tame(thrower, m, apes.len() as int));
    let worry = inspected_worry(thrower.operation, thrower.items[0], max, calming);
    let kept = applied(thrower.operation, thrower.items[0]) % max;
    assert(0 <= kept < max);
    assert(0 <= worry < SMALL);
    let target = if worry % thrower.divisor == 0 {
        thrower.next.0
    } else {
        thrower.next.1
    };
    let gone = Ape { items: thrower.items.skip(1), inspected: thrower.inspected + 1, ..thrower };
    let left = apes.update(m, gone);
    let caught = Ape { items: left[target].items.push(worry), ..left[target] };
    let result = left.update(target, caught);
    assert(result == after_throw(apes, m, max, calming));
    assert(tame(apes[target], target, apes.len() as int));
    assert forall|k: int| 0 <= k < result.len() implies tame(
        #[trigger] result[k],
        k,
        result.len() as int,
    ) by {
        assert(tame(apes[k], k, apes.len() as int));
        if k == m {
            assert forall|i: int| 0 <= i < gone.items.len() implies 0 <= #[trigger] gone.items[i]
                < SMALL by {
                assert(gone.items[i] == thrower.items[i + 1]);
            }
        } else if k == target {
            assert forall|i: int| 0 <= i < caught.items.len() implies 0
                <= #[trigger] caught.items[i] < SMALL by {
                if i < apes[target].items.len() {
                    assert(caught.items[i] == apes[target].items[i]);
                }
            }
        }
    }
    lemma_held_update(apes, m, gone, apes.len());
    lemma_held_update(left, target, caught, apes.len());
    lemma_busiest_update(apes, m, gone, apes.len());
    lemma_busiest_update(left, target, caught, apes.len());
}

impl ProblemDetail {
    /// The setting for a troop.
    pub fn new(monkies: &Vec<Monkey>, has_calming: bool) -> (detail: ProblemDetail)
        requires
            all_tame(troop(monkies@)),
            common_multiple(troop(monkies@), has_calming) <= SMALL,
        ensures
            detail.has_calming == has_calming,
            detail.max == common_multiple(troop(monkies@), has_calming),
            0 < detail.max <= SMALL,
    {
        let ghost apes = troop(monkies@);
        let mut max: u64 = 1;
        let mut i: usize = 0;
        assert(apes.take(0) =~= Seq::<Ape>::empty());
        proof {
            lemma_divisor_product_prefix(apes, 0);
        }
        while i < monkies.len()
            invariant
                i <= monkies.len(),
                apes == troop(monkies@),
                all_tame(apes),
                divisor_product(apes) <= SMALL * 3,
                0 < max == divisor_product(apes.take(i as int)),
                max <= divisor_product(apes),
            decreases monkies.len() - i,
        {
            let d = monkies[i].test.divisor();
            proof {
                assert(apes.take(i as int + 1).drop_last() =~= apes.take(i as int));
                assert(apes.take(i as int + 1).last() == monkies[i as int]@);
                assert(tame(apes[i as int], i as int, apes.len() as int));
                lemma_divisor_product_prefix(apes, i as int + 1);
                assert(max * d > 0) by (nonlinear_arith)
                    requires
                        max > 0,
                        d > 0,
                ;
            }
            max = max * d;
            i += 1;
        }
        assert(apes.take(i as int) =~= apes);
        if has_calming && max % 3 != 0 {
            max = max * 3;
        }
        ProblemDetail { has_calming, max }
    }
}

/// The product of the divisors of tame monkeys grows with their number.
proof fn lemma_divisor_product_prefix(apes: Seq<Ape>, n: int)
    requires
        all_tame(apes),
        0 <= n <= apes.len(),
    ensures
        0 < divisor_product(apes.take(n)) <= divisor_product(apes),
    decreases apes.len() - n,
{
    lemma_divisor_product_positive(apes.take(n));
    if n < apes.len() {
        lemma_divisor_product_prefix(apes, n + 1);
        assert(apes.take(n + 1).drop_last() =~= apes.take(n));
        assert(apes.take(n + 1).last() == apes[n]);
        assert(tame(apes[n], n, apes.len() as int));
        let p = divisor_product(apes.take(n));
        let d = apes[n].divisor;
        assert(p <= p * d) by (nonlinear_arith)
            requires
                p > 0,
                d >= 1,
        ;
    } else {
        assert(apes.take(n) =~= apes);
    }
}

proof fn lemma_divisor_product_positive(apes: Seq<Ape>)
    requires
        forall|m: int| 0 <= m < apes.len() ==> 0 < (#[trigger] apes[m]).divisor,
    ensures
        0 < divisor_product(apes),
    decreases apes.len(),
{
    if apes.len() > 0 {
        assert forall|m: int| 0 <= m < apes.drop_last().len() implies 0 < (
        #[trigger] apes.drop_last()[m]).divisor by {
            assert(apes.drop_last()[m] == apes[m]);
        }
        lemma_divisor_product_positive(apes.drop_last());
        let p = divisor_product(apes.drop_last());
        let d = apes[apes.len() - 1].divisor;
        assert(p * d > 0) by (nonlinear_arith)
            requires
                p > 0,
                d > 0,
        ;
    }
}

impl Operation {
    /// Changes the worry, and keeps it small.
    pub fn perform(&self, val: &mut ItemType, problem: &ProblemDetail)
        requires
            *old(val) < SMALL,
            0 < problem.max,
            match self {
                Operation::Add(lit) => *lit < SMALL,
                Operation::Multiply(lit) => *lit < SMALL,
                Operation::Square => true,
            },
        ensures
            *final(val) == applied(*self, *old(val) as int) % (problem.max as int),
    {
        let before = *val;
        match self {
            Operation::Add(lit) => {
                *val = before + *lit;
            },
            Operation::Multiply(lit) => {
                assert(before * *lit <= 0xffff_ffff * 0xffff_ffff) by (nonlinear_arith)
                    requires
                        before <= 0xffff_ffff,
                        *lit <= 0xffff_ffff,
                ;
                *val = before * *lit;
            },
            Operation::Square => {
                assert(before * before <= 0xffff_ffff * 0xffff_ffff) by (nonlinear_arith)
                    requires
                        before <= 0xffff_ffff,
                ;
                *val = before * before;
            },
        }
        *val = *val % problem.max;
    }
}

impl Monkey {
    /// Inspects the first item and says where it flies; `None` where the
    /// monkey holds no item.
    pub fn next_throw(&mut self, problem: &ProblemDetail) -> (flying: Option<FlyingObject>)
        requires
            tame(old(self)@, -1, usize::MAX as int),
            0 < problem.max <= SMALL,
            old(self)@.items.len() > 0 ==> old(self).inspected < usize::MAX,
        ensures
            old(self)@.items.len() == 0 ==> flying.is_none() && final(self)@ == old(self)@,
            old(self)@.items.len() > 0 ==> flying.is_some() && flying.unwrap().item
                == inspected_worry(
                old(self).operation,
                old(self)@.items[0],
                problem.max as int,
                problem.has_calming,
            ) && flying.unwrap().target == (if flying.unwrap().item % old(self)@.divisor as u64
                == 0 {
                old(self).next.0
            } else {
                old(self).next.1
            }) && final(self)@ == (Ape {
                items: old(self)@.items.skip(1),
                inspected: old(self)@.inspected + 1,
                ..old(self)@
            }),
    {
        let ghost before = self@;
        let popped = self.items.pop_front();
        if popped.is_none() {
            assert(self@.items =~= before.items);
            return None;
        }
        let mut item = popped.unwrap();
        proof {
            assert(before.items[0] == item);
            assert(self@.items =~= before.items.skip(1));
        }
        self.inspected = self.inspected + 1;
        self.operation.perform(&mut item, problem);
        if problem.has_calming {
            item = item / 3u64;
        }
        let target = if self.test.check(item) {
            self.next.0
        } else {
            self.next.1
        };
        Some(FlyingObject { item, target })
    }

    /// Takes an item that was thrown to this monkey.
    pub fn catch_object(&mut self, item: ItemType)
        ensures
            final(self)@ == (Ape { items: old(self)@.items.push(item as int), ..old(self)@ }),
    {
        let ghost before = self@;
        self.items.push_back(item);
        assert(self@.items =~= before.items.push(item as int));
    }
}

/// One round: every monkey in turn inspects and throws all the items that
/// it holds.
pub fn do_round(monkies: &mut Vec<Monkey>, problem: &ProblemDetail)
    requires
        all_tame(troop(old(monkies)@)),
        0 < problem.max <= SMALL,
        busiest(troop(old(monkies)@), old(monkies).len() as nat) + old(monkies).len() * held(
            troop(old(monkies)@),
            old(monkies).len() as nat,
        ) <= usize::MAX,
    ensures
        troop(final(monkies)@) == after_turns(
            troop(old(monkies)@),
            problem.max as int,
            problem.has_calming,
            old(monkies).len() as nat,
        ),
        final(monkies).len() == old(monkies).len(),
        all_tame(troop(final(monkies)@)),
        held(troop(final(monkies)@), old(monkies).len() as nat) == held(
            troop(old(monkies)@),
            old(monkies).len() as nat,
        ),
        busiest(troop(final(monkies)@), old(monkies).len() as nat) <= busiest(
            troop(old(monkies)@),
            old(monkies).len() as nat,
        ) + old(monkies).len() * held(troop(old(monkies)@), old(monkies).len() as nat),
{
    let ghost start = troop(monkies@);
    let ghost size = monkies.len() as nat;
    let ghost all = held(start, size);
    let ghost top = busiest(start, size);
    let ghost max = problem.max as int;
    let ghost calming = problem.has_calming;
    let mut m: usize = 0;
    proof {
        lemma_held_nonneg(start, size);
        assert(0 * all == 0);
    }
    while m < monkies.len()
        invariant
            m <= monkies.len() == size,
            0 < problem.max <= SMALL,
            max == problem.max,
            calming == problem.has_calming,
            0 <= all,
            top + size * all <= usize::MAX,
            troop(monkies@) == after_turns(start, max, calming, m as nat),
            all_tame(troop(monkies@)),
            held(troop(monkies@), size) == all,
            busiest(troop(monkies@), size) <= top + m * all,
        decreases monkies.len() - m,
    {
        let ghost turn_start = troop(monkies@);
        let ghost count = turn_start[m as int].items.len();
        let ghost thrown: nat = 0;
        proof {
            lemma_held_bounds(turn_start, m as int, size);
            assert((m + 1) * all == m * all + all) by (nonlinear_arith);
            assert((m + 1) * all <= size * all) by (nonlinear_arith)
                requires
                    m + 1 <= size,
                    0 <= all,
            ;
        }
        loop
            invariant_except_break
                thrown <= count,
                troop(monkies@)[m as int].items.len() == count - thrown,
            invariant
                m < monkies.len() == size,
                0 < problem.max <= SMALL,
                max == problem.max,
                calming == problem.has_calming,
                count <= all,
                top + (m + 1) * all <= usize::MAX,
                troop(monkies@) == after_throws(turn_start, m as int, max, calming, thrown),
                all_tame(troop(monkies@)),
                held(troop(monkies@), size) == all,
                busiest(troop(monkies@), size) <= top + m * all + thrown,
            ensures
                thrown == count,
            decreases count - thrown,
        {
            let ghost before = troop(monkies@);
            proof {
                assert(tame(before[m as int], m as int, size as int));
                assert(before[m as int] == monkies[m as int]@);
                lemma_busiest_bounds(before, m as int, size);
                assert((m + 1) * all == m * all + all) by (nonlinear_arith);
                if before[m as int].items.len() > 0 {
                    assert(thrown < count);
                    assert(monkies[m as int].inspected < usize::MAX);
                }
            }
            match monkies[m].next_throw(problem) {
                Some(flying) => {
                    proof {
                        lemma_after_throw(before, m as int, max, calming);
                    }
                    let ghost left = troop(monkies@);
                    assert(left =~= before.update(m as int, monkies[m as int]@));
                    monkies[flying.target].catch_object(flying.item);
                    proof {
                        assert(troop(monkies@) =~= left.update(
                            flying.target as int,
                            monkies[flying.target as int]@,
                        ));
                        assert(troop(monkies@) =~= after_throw(before, m as int, max, calming));
                        thrown = thrown + 1;
                    }
                },
                None => {
                    proof {
                        assert(troop(monkies@) =~= before);
                    }
                    break ;
                },
            }
        }
        m += 1;
    }
}

/// The two largest numbers of inspections seen so far, the larger first.
pub struct Podium {
    pub filled: int,
    pub first: int,
    pub second: int,
}

impl Podium {
    /// The podium after one more number.
    pub open spec fn place(self, v: int) -> Podium {
        if self.filled <= 0 {
            Podium { filled: 1, first: v, second: 0 }
        } else if v > self.first {
            Podium { filled: 2, first: v, second: self.first }
        } else if self.filled == 1 || v > self.second {
            Podium { filled: 2, first: self.first, second: v }
        } else {
            self
        }
    }

    /// The product of the numbers on the podium; 1 where it is empty.
    pub open spec fn product(self) -> int {
        if self.filled <= 0 {
            1
        } else if self.filled == 1 {
            self.first
        } else {
            self.first * self.second
        }
    }
}

/// The podium of the inspections of the first `n` monkeys.
pub open spec fn podium_of(apes: Seq<Ape>, n: nat) -> Podium
    decreases n,
{
    if n == 0 {
        Podium { filled: 0, first: 0, second: 0 }
    } else {
        podium_of(apes, (n - 1) as nat).place(apes[n - 1].inspected)
    }
}

/// The product of the inspections of the two busiest monkeys.
pub open spec fn business(apes: Seq<Ape>) -> int {
    podium_of(apes, apes.len()).product()
}

/// The product of the inspections of the two busiest monkeys.
pub fn compute_top_two(monkies: &Vec<Monkey>) -> (product: usize)
    requires
        business(troop(monkies@)) <= usize::MAX,
    ensures
        product == business(troop(monkies@)),
{
    let ghost apes = troop(monkies@);
    let mut filled: u8 = 0;
    let mut first: usize = 0;
    let mut second: usize = 0;
    let mut i: usize = 0;
    while i < monkies.len()
        invariant
            i <= monkies.len(),
            apes == troop(monkies@),
            filled <= 2,
            podium_of(apes, i as nat) == (Podium {
                filled: filled as int,
                first: first as int,
                second: second as int,
            }),
        decreases monkies.len() - i,
    {
        let v = monkies[i].inspected;
        assert(apes[i as int].inspected == v);
        if filled == 0 {
            first = v;
            filled = 1;
        } else if v > first {
            second = first;
            first = v;
            filled = 2;
        } else if filled == 1 || v > second {
            second = v;
            filled = 2;
        }
        i += 1;
    }
    if filled == 0 {
        1
    } else if filled == 1 {
        first
    } else {
        first * second
    }
}

/// A copy of the troop.
pub fn copy_troop(input: &Vec<Monkey>) -> (copy: Vec<Monkey>)
    ensures
        troop(copy@) == troop(input@),
        copy.len() == input.len(),
{
    let mut copy: Vec<Monkey> = Vec::new();
    let mut i: usize = 0;
    while i < input.len()
        invariant
            i <= input.len(),
            copy.len() == i,
            troop(copy@) == troop(input@).take(i as int),
        decreases input.len() - i,
    {
        let source = &input[i];
        let mut items: VecDeque<ItemType> = VecDeque::new();
        let mut j: usize = 0;
        while j < source.items.len()
            invariant
                j <= source.items.len(),
                items@ == source.items@.take(j as int),
            decreases source.items.len() - j,
        {
            items.push_back(source.items[j]);
            assert(items@ =~= source.items@.take(j as int + 1));
            j += 1;
        }
        assert(source.items@.take(j as int) =~= source.items@);
        let monkey = Monkey {
            items,
            operation: source.operation,
            test: source.test,
            next: source.next,
            inspected: source.inspected,
        };
        let ghost before = troop(copy@);
        assert(monkey@ == source@);
        copy.push(monkey);
        assert(troop(copy@) =~= before.push(source@));
        assert(troop(copy@) =~= troop(input@).take(i as int + 1));
        i += 1;
    }
    assert(troop(input@).take(i as int) =~= troop(input@));
    copy
}

/// Whether a game of `rounds` rounds can be played in the integers of the
/// program: the troop is tame, the common multiple is small, and neither
/// the inspections nor the answer leave `usize`.
pub open spec fn playable(apes: Seq<Ape>, calming: bool, rounds: nat) -> bool {
    &&& all_tame(apes)
    &&& common_multiple(apes, calming) <= SMALL
    &&& busiest(apes, apes.len()) + rounds * (apes.len() * held(apes, apes.len())) <= usize::MAX
    &&& business(after_rounds(apes, common_multiple(apes, calming), calming, rounds))
        <= usize::MAX
}

/// Plays a number of rounds and gives the product of the inspections of the
/// two busiest monkeys.
pub fn play(input: &Vec<Monkey>, has_calming: bool, rounds: usize) -> (answer: usize)
    requires
        playable(troop(input@), has_calming, rounds as nat),
    ensures
        answer == business(
            after_rounds(
                troop(input@),
                common_multiple(troop(input@), has_calming),
                has_calming,
                rounds as nat,
            ),
        ),
{
    let ghost start = troop(input@);
    let ghost size = input.len() as nat;
    let ghost all = held(start, size);
    let ghost top = busiest(start, size);
    let problem = ProblemDetail::new(input, has_calming);
    let ghost max = problem.max as int;
    let mut monkies = copy_troop(input);
    let mut round: usize = 0;
    proof {
        lemma_held_nonneg(start, size);
        assert(0 * (size * all) == 0);
        assert(0 <= size * all) by (nonlinear_arith)
            requires
                0 <= all,
                0 <= size,
        ;
    }
    while round < rounds
        invariant
            round <= rounds,
            monkies.len() == size,
            start.len() == size,
            0 < problem.max <= SMALL,
            max == problem.max,
            problem.has_calming == has_calming,
            0 <= size * all,
            top + rounds * (size * all) <= usize::MAX,
            troop(monkies@) == after_rounds(start, max, has_calming, round as nat),
            all_tame(troop(monkies@)),
            held(troop(monkies@), size) == all,
            busiest(troop(monkies@), size) <= top + round * (size * all),
        decreases rounds - round,
    {
        proof {
            assert((round + 1) * (size * all) == round * (size * all) + size * all)
                by (nonlinear_arith);
            assert((round + 1) * (size * all) <= rounds * (size * all)) by (nonlinear_arith)
                requires
                    round + 1 <= rounds,
                    0 <= size * all,
            ;
        }
        do_round(&mut monkies, &problem);
        round += 1;
    }
    compute_top_two(&monkies)
}

/// The answer after 20 rounds in which worries calm down.
pub fn part1(input: &Vec<Monkey>) -> (answer: usize)
    requires
        playable(troop(input@), true, 20),
    ensures
        answer == business(
            after_rounds(troop(input@), common_multiple(troop(input@), true), true, 20),
        ),
{
    play(input, true, 20)
}

/// The answer after 10000 rounds in which worries do not calm down.
pub fn part2(input: &Vec<Monkey>) -> (answer: usize)
    requires
        playable(troop(input@), false, 10_000),
    ensures
        answer == business(
            after_rounds(troop(input@), common_multiple(troop(input@), false), false, 10_000),
        ),
{
    play(input, false, 10_000)
}

pub open spec fn word_old() -> Seq<u8> {
    seq![111u8, 108u8, 100u8]
}

pub open spec fn word_times() -> Seq<u8> {
    seq![42u8]
}

pub open spec fn word_plus() -> Seq<u8> {
    seq![43u8]
}

pub open spec fn word_divisible() -> Seq<u8> {
    seq![100u8, 105u8, 118u8, 105u8, 115u8, 105u8, 98u8, 108u8, 101u8]
}

pub open spec fn word_by() -> Seq<u8> {
    seq![98u8, 121u8]
}

/// A colon and a space: what stands before the items.
pub open spec fn colon_space() -> Seq<u8> {
    seq![58u8, 32u8]
}

/// A comma and a space: what stands between two items.
pub open spec fn comma_space() -> Seq<u8> {
    seq![44u8, 32u8]
}

/// Two newlines: what stands between two monkeys.
pub open spec fn blank_line() -> Seq<u8> {
    seq![10u8, 10u8]
}

/// The number that a word writes, where it fits `ItemType`.
pub open spec fn lit_of(word: Seq<u8>) -> Option<ItemType> {
    match natural_of(word) {
        Some(v) => if v <= ItemType::MAX {
            Some(v as ItemType)
        } else {
            None
        },
        None => None,
    }
}

/// The numbers that the pieces write; `None` where one writes none.
pub open spec fn lits_of(pieces: Seq<Seq<u8>>) -> Option<Seq<int>>
    decreases pieces.len(),
{
    if pieces.len() == 0 {
        Some(Seq::empty())
    } else {
        match (lits_of(pieces.drop_last()), lit_of(pieces.last())) {
            (Some(before), Some(v)) => Some(before.push(v as int)),
            _ => None,
        }
    }
}

/// The items that a line lists after its first colon and space, with a
/// comma and a space between them.
pub open spec fn items_of(line: Seq<u8>) -> Option<Seq<int>> {
    let at = first_at(line, colon_space(), 0);
    if 0 <= at && at + 2 <= line.len() {
        lits_of(split_by(line.skip(at + 2), comma_space()))
    } else {
        None
    }
}

/// The operation that a line of six words writes in its last three: `old *
/// old`, `old +` and a number, or `old *` and a number.
pub open spec fn operation_of(line: Seq<u8>) -> Option<Operation> {
    let w = words_of(line);
    if w.len() != 6 || w[3] != word_old() {
        None
    } else if w[4] == word_times() && w[5] == word_old() {
        Some(Operation::Square)
    } else if w[4] == word_plus() {
        match lit_of(w[5]) {
            Some(lit) => Some(Operation::Add(lit)),
            None => None,
        }
    } else if w[4] == word_times() {
        match lit_of(w[5]) {
            Some(lit) => Some(Operation::Multiply(lit)),
            None => None,
        }
    } else {
        None
    }
}

/// The test that a line of four words writes: `divisible by` and a number
/// after its first word.
pub open spec fn test_of(line: Seq<u8>) -> Option<Test> {
    let w = words_of(line);
    if w.len() != 4 || w[1] != word_divisible() || w[2] != word_by() {
        None
    } else {
        match lit_of(w[3]) {
            Some(lit) => Some(Test::Divisble(lit)),
            None => None,
        }
    }
}

/// The monkey that the sixth word of a line names.
pub open spec fn target_of(line: Seq<u8>) -> Option<int> {
    let w = words_of(line);
    if w.len() < 6 {
        None
    } else {
        match natural_of(w[5]) {
            Some(v) => if v <= usize::MAX {
                Some(v as int)
            } else {
                None
            },
            None => None,
        }
    }
}

/// The monkey that a text of six lines or more describes: items on the
/// second line, the operation on the third, the test on the fourth, and on
/// the fifth and sixth where it throws when the test passes and fails.
pub open spec fn ape_of(text: Seq<u8>) -> Option<Ape> {
    let ls = lines_of(text);
    if ls.len() < 6 {
        None
    } else if items_of(ls[1]).is_some() && operation_of(ls[2]).is_some() && test_of(
        ls[3],
    ).is_some() && target_of(ls[4]).is_some() && target_of(ls[5]).is_some() {
        Some(
            Ape {
                items: items_of(ls[1]).unwrap(),
                operation: operation_of(ls[2]).unwrap(),
                divisor: test_of(ls[3]).unwrap().modulus(),
                next: (target_of(ls[4]).unwrap(), target_of(ls[5]).unwrap()),
                inspected: 0,
            },
        )
    } else {
        None
    }
}

/// Whether every part of the text between empty lines describes a monkey.
pub open spec fn well_formed(text: Seq<u8>) -> bool {
    forall|i: int|
        0 <= i < split_by(text, blank_line()).len() ==> ape_of(
            #[trigger] split_by(text, blank_line())[i],
        ).is_some()
}

/// Whether `monkeys` are the monkeys that the text describes.
pub open spec fn text_says(text: Seq<u8>, monkeys: Seq<Monkey>) -> bool {
    &&& monkeys.len() == split_by(text, blank_line()).len()
    &&& forall|i: int|
        0 <= i < monkeys.len() ==> ape_of(split_by(text, blank_line())[i]) == Some(
            (#[trigger] monkeys[i])@,
        )
}

/// If some first pieces write no numbers, neither do all.
pub proof fn lemma_lits_of_prefix(pieces: Seq<Seq<u8>>, n: int)
    requires
        0 <= n <= pieces.len(),
        lits_of(pieces.take(n)).is_none(),
    ensures
        lits_of(pieces).is_none(),
    decreases pieces.len() - n,
{
    if n < pieces.len() {
        assert(pieces.take(n + 1).drop_last() =~= pieces.take(n));
        lemma_lits_of_prefix(pieces, n + 1);
    } else {
        assert(pieces.take(n) =~= pieces);
    }
}

/// Reads a number.
pub fn parse_lit(input: &[u8]) -> (r: Option<ItemType>)
    ensures
        r == lit_of(input@),
{
    parse_natural(input)
}

impl Operation {
    /// Reads the operation of a monkey from its line.
    pub fn parse(input: &[u8]) -> (r: Option<Operation>)
        ensures
            r == operation_of(input@),
    {
        let w = words(input);
        let old: [u8; 3] = [111, 108, 100];
        let times: [u8; 1] = [42];
        let plus: [u8; 1] = [43];
        assert(old@ =~= word_old());
        assert(times@ =~= word_times());
        assert(plus@ =~= word_plus());
        if w.len() != 6 {
            return None;
        }
        proof {
            let ws = rows(w@);
            assert(ws[3] == w[3]@ && ws[4] == w[4]@ && ws[5] == w[5]@);
        }
        if !same_bytes(w[3].as_slice(), old.as_slice()) {
            return None;
        }
        if same_bytes(w[4].as_slice(), times.as_slice()) && same_bytes(
            w[5].as_slice(),
            old.as_slice(),
        ) {
            return Some(Operation::Square);
        }
        if same_bytes(w[4].as_slice(), plus.as_slice()) {
            return match parse_lit(w[5].as_slice()) {
                Some(lit) => Some(Operation::Add(lit)),
                None => None,
            };
        }
        if same_bytes(w[4].as_slice(), times.as_slice()) {
            return match parse_lit(w[5].as_slice()) {
                Some(lit) => Some(Operation::Multiply(lit)),
                None => None,
            };
        }
        None
    }
}

impl Test {
    /// Reads the test of a monkey from its line.
    pub fn parse(input: &[u8]) -> (r: Option<Test>)
        ensures
            r == test_of(input@),
    {
        let w = words(input);
        let divisible: [u8; 9] = [100, 105, 118, 105, 115, 105, 98, 108, 101];
        let by: [u8; 2] = [98, 121];
        assert(divisible@ =~= word_divisible());
        assert(by@ =~= word_by());
        if w.len() != 4 {
            return None;
        }
        proof {
            let ws = rows(w@);
            assert(ws[1] == w[1]@ && ws[2] == w[2]@ && ws[3] == w[3]@);
        }
        if !same_bytes(w[1].as_slice(), divisible.as_slice()) || !same_bytes(
            w[2].as_slice(),
            by.as_slice(),
        ) {
            return None;
        }
        match parse_lit(w[3].as_slice()) {
            Some(lit) => Some(Test::Divisble(lit)),
            None => None,
        }
    }
}

impl Monkey {
    /// Reads the items that a monkey holds at the start.
    pub fn parse_items(line: &[u8]) -> (r: Option<VecDeque<ItemType>>)
        ensures
            r.is_some() == items_of(line@).is_some(),
            r matches Some(items) ==> items_of(line@) == Some(
                items@.map_values(|i: ItemType| i as int),
            ),
    {
        let colon: [u8; 2] = [58, 32];
        let comma: [u8; 2] = [44, 32];
        assert(colon@ =~= colon_space());
        assert(comma@ =~= comma_space());
        let at = find_from(line, colon.as_slice(), 0);
        if at >= line.len() {
            return None;
        }
        let rest = slice_subrange(line, at + 2, line.len());
        assert(rest@ =~= line@.skip(at as int + 2));
        let pieces = split_at_each(rest, comma.as_slice());
        let ghost ps = rows(pieces@);
        let mut items: VecDeque<ItemType> = VecDeque::new();
        let mut i: usize = 0;
        assert(ps.take(0) =~= Seq::<Seq<u8>>::empty());
        assert(items@.map_values(|i: ItemType| i as int) =~= Seq::<int>::empty());
        assert(items_of(line@) == lits_of(ps));
        while i < pieces.len()
            invariant
                i <= pieces.len(),
                ps == rows(pieces@),
                items_of(line@) == lits_of(ps),
                lits_of(ps.take(i as int)) == Some(items@.map_values(|i: ItemType| i as int)),
            decreases pieces.len() - i,
        {
            proof {
                assert(ps[i as int] == pieces[i as int]@);
                assert(ps.take(i as int + 1).drop_last() =~= ps.take(i as int));
                assert(ps.take(i as int + 1).last() == pieces[i as int]@);
            }
            match parse_lit(pieces[i].as_slice()) {
                Some(v) => {
                    let ghost before = items@.map_values(|i: ItemType| i as int);
                    items.push_back(v);
                    assert(items@.map_values(|i: ItemType| i as int) =~= before.push(v as int));
                },
                None => {
                    proof {
                        assert(lits_of(ps.take(i as int + 1)).is_none());
                        lemma_lits_of_prefix(ps, i as int + 1);
                    }
                    return None;
                },
            }
            i += 1;
        }
        assert(ps.take(i as int) =~= ps);
        Some(items)
    }

    /// Reads the monkey to throw to.
    pub fn parse_next(input: &[u8]) -> (r: Option<usize>)
        ensures
            r.is_some() == target_of(input@).is_some(),
            r matches Some(t) ==> target_of(input@) == Some(t as int),
    {
        let w = words(input);
        if w.len() < 6 {
            return None;
        }
        assert(rows(w@)[5] == w[5]@);
        match parse_natural(w[5].as_slice()) {
            Some(v) => if v <= usize::MAX as u64 {
                Some(v as usize)
            } else {
                None
            },
            None => None,
        }
    }

    /// Reads a monkey from its text.
    pub fn parse(input: &[u8]) -> (r: Option<Monkey>)
        ensures
            r.is_some() == ape_of(input@).is_some(),
            r matches Some(monkey) ==> ape_of(input@) == Some(monkey@),
    {
        let all = lines(input);
        if all.len() < 6 {
            return None;
        }
        proof {
            let ls = rows(all@);
            assert(ls[1] == all[1]@ && ls[2] == all[2]@ && ls[3] == all[3]@ && ls[4] == all[4]@
                && ls[5] == all[5]@);
        }
        let items = Monkey::parse_items(all[1].as_slice());
        let operation = Operation::parse(all[2].as_slice());
        let test = Test::parse(all[3].as_slice());
        let first = Monkey::parse_next(all[4].as_slice());
        let second = Monkey::parse_next(all[5].as_slice());
        if items.is_none() || operation.is_none() || test.is_none() || first.is_none()
            || second.is_none() {
            return None;
        }
        Some(
            Monkey {
                items: items.unwrap(),
                operation: operation.unwrap(),
                test: test.unwrap(),
                next: (first.unwrap(), second.unwrap()),
                inspected: 0,
            },
        )
    }
}

/// The monkeys of the text; `None` where a part of it describes none.
pub fn parse(input: &str) -> (r: Option<Vec<Monkey>>)
    ensures
        r.is_some() == well_formed(input.spec_bytes()),
        r matches Some(monkeys) ==> text_says(input.spec_bytes(), monkeys@),
{
    let blank: [u8; 2] = [10, 10];
    assert(blank@ =~= blank_line());
    let parts = split_at_each(input.as_bytes(), blank.as_slice());
    let ghost ps = split_by(input.spec_bytes(), blank_line());
    let mut monkeys: Vec<Monkey> = Vec::new();
    let mut i: usize = 0;
    while i < parts.len()
        invariant
            i <= parts.len(),
            rows(parts@) == ps,
            ps == split_by(input.spec_bytes(), blank_line()),
            monkeys.len() == i,
            forall|k: int| 0 <= k < i ==> ape_of(ps[k]) == Some((#[trigger] monkeys[k])@),
        decreases parts.len() - i,
    {
        assert(rows(parts@)[i as int] == parts[i as int]@);
        match Monkey::parse(parts[i].as_slice()) {
            Some(monkey) => {
                monkeys.push(monkey);
            },
            None => {
                assert(!ape_of(split_by(input.spec_bytes(), blank_line())[i as int]).is_some());
                return None;
            },
        }
        i += 1;
    }
    assert forall|k: int| 0 <= k < ps.len() implies ape_of(#[trigger] ps[k]).is_some() by {
        assert(ape_of(ps[k]) == Some(monkeys[k]@));
    }
    Some(monkeys)
}

/// The monkeys of the text.
pub fn generator(input: &str) -> (monkeys: Vec<Monkey>)
    requires
        well_formed(input.spec_bytes()),
    ensures
        text_says(input.spec_bytes(), monkeys@),
{
    parse(input).unwrap()
}

} // verus!
