//! Valves in caves: which to open, and in what order, to release the most
//! pressure before the time is up; alone, and with a helper.
use crate::text::{
    lines, lines_of, natural_of, parse_natural, rows, same_bytes, split_at_each, split_by, words,
    words_of, SPACE,
};
use vstd::prelude::*;
use vstd::slice::{slice_subrange, slice_to_vec};
use vstd::string::StringSliceAdditionalSpecFns;
use vstd::std_specs::bits::axiom_u64_trailing_zeros;

verus! {

/// A valve as the text describes it.
#[derive(Debug)]
pub struct Valve {
    pub name: Vec<u8>,
    pub flow: u64,
    pub next: Vec<Vec<u8>>,
}

/// The caves: where one starts, the flow of each valve, and the number of
/// minutes from each valve to each other.
#[derive(Debug)]
pub struct Caves {
    pub start: usize,
    pub flows: Vec<u64>,
    /// Distance[from][dest]
    pub distances: Vec<Vec<u8>>,
}

pub const TIME_LIMIT: u64 = 30;

pub const PART2_TIME: u64 = 26;

pub const PART2_WORKERS: usize = 2;

/// The most valves that a set of valves can tell apart.
pub const MAX_VALVES: usize = 64;

/// No valve may have a flow above this.
pub const MAX_FLOW: u64 = 0xffff_ffff;

impl Caves {
    /// The number of valves.
    pub open spec fn size(&self) -> int {
        self.flows.len() as int
    }

    /// The minutes from one valve to another.
    pub open spec fn way(&self, from: int, to: int) -> int {
        self.distances[from][to] as int
    }

    /// The flow of a valve.
    pub open spec fn flow(&self, at: int) -> int {
        self.flows[at] as int
    }

    /// Whether there is a distance for every pair of valves, and the start
    /// is one of them.
    pub open spec fn shaped(&self) -> bool {
        &&& self.start < self.size()
        &&& self.distances.len() == self.size()
        &&& forall|i: int| 0 <= i < self.size() ==> (#[trigger] self.distances[i]).len() == self.size()
    }

    /// Whether the caves can be searched: they are shaped, a set can tell
    /// the valves apart, and no flow is above `MAX_FLOW`.
    pub open spec fn wf(&self) -> bool {
        &&& self.shaped()
        &&& self.size() <= MAX_VALVES
        &&& forall|i: int| 0 <= i < self.size() ==> #[trigger] self.flows[i] <= MAX_FLOW
    }
}

/// The larger of two numbers.
pub open spec fn larger(a: nat, b: nat) -> nat {
    if a >= b {
        a
    } else {
        b
    }
}

/// Define the interface for this problem's state types.
pub trait State: Sized {
    /// The pressure released so far.
    spec fn value(&self) -> nat;

    /// Whether the state is one that the search can come to in the caves.
    spec fn fits(&self, caves: &Caves) -> bool;

    /// A number that is smaller for each state reachable from this one.
    spec fn fuel(&self) -> nat;

    /// The states reachable from this one.
    spec fn onward(&self, caves: &Caves) -> Seq<Self>;

    /// What is the score for this state?
    fn score(&self) -> (r: u64)
        ensures
            r == self.value(),
    ;

    /// Which states are reachable from this one?
    fn next(&self, caves: &Caves) -> (r: Vec<Self>)
        requires
            caves.wf(),
            self.fits(caves),
        ensures
            r@ == self.onward(caves),
            r.len() <= MAX_VALVES,
            forall|i: int|
                0 <= i < r.len() ==> (#[trigger] r[i]).fits(caves) && r[i].fuel() < self.fuel(),
    ;
}

/// The highest score of the states that can be come to from `s`, `s`
/// itself among them.
pub open spec fn best_from<T: State>(s: T, caves: &Caves) -> nat
    decreases s.fuel(), 1int, 0nat,
{
    larger(s.value(), best_among(s.onward(caves), caves, s.fuel()))
}

/// The highest `best_from` over the states of `xs` whose fuel is below
/// `bound`, and 0 where there is none.
pub open spec fn best_among<T: State>(xs: Seq<T>, caves: &Caves, bound: nat) -> nat
    decreases bound, 0int, xs.len(),
{
    if xs.len() == 0 {
        0
    } else if xs.last().fuel() < bound {
        larger(best_from(xs.last(), caves), best_among(xs.drop_last(), caves, bound))
    } else {
        best_among(xs.drop_last(), caves, bound)
    }
}

/// The number of states in the largest tree that can hang below a state
/// with the given fuel.
pub open spec fn node_weight(fuel: nat) -> nat
    decreases fuel,
{
    if fuel == 0 {
        1
    } else {
        1 + 64 * node_weight((fuel - 1) as nat)
    }
}

/// The number of states that a search may still have to visit, given the
/// states that wait.
pub open spec fn frontier_weight<T: State>(xs: Seq<T>) -> nat
    decreases xs.len(),
{
    if xs.len() == 0 {
        0
    } else {
        node_weight(xs.last().fuel()) + frontier_weight(xs.drop_last())
    }
}

/// More fuel, more weight.
pub proof fn lemma_node_weight(a: nat, b: nat)
    requires
        a <= b,
    ensures
        node_weight(a) <= node_weight(b),
    decreases b,
{
    if b > 0 && a < b {
        lemma_node_weight(a, (b - 1) as nat);
    }
}

/// Where every state has less fuel than a bound, a higher bound leaves the
/// best among them as it is.
pub proof fn lemma_among_bound<T: State>(xs: Seq<T>, caves: &Caves, low: nat, high: nat)
    requires
        low <= high,
        forall|i: int| 0 <= i < xs.len() ==> (#[trigger] xs[i]).fuel() < low,
    ensures
        best_among(xs, caves, low) == best_among(xs, caves, high),
    decreases xs.len(),
{
    if xs.len() > 0 {
        assert(xs.last().fuel() < low);
        assert forall|i: int| 0 <= i < xs.drop_last().len() implies (#[trigger] xs.drop_last()[i]).fuel()
            < low by {
            assert(xs.drop_last()[i] == xs[i]);
        }
        lemma_among_bound(xs.drop_last(), caves, low, high);
    }
}

/// The best among two lists is the better of the best of each.
pub proof fn lemma_among_both<T: State>(xs: Seq<T>, ys: Seq<T>, caves: &Caves, bound: nat)
    ensures
        best_among(xs + ys, caves, bound) == larger(
            best_among(xs, caves, bound),
            best_among(ys, caves, bound),
        ),
    decreases ys.len(),
{
    if ys.len() == 0 {
        assert(xs + ys =~= xs);
    } else {
        assert((xs + ys).drop_last() =~= xs + ys.drop_last());
        assert((xs + ys).last() == ys.last());
        lemma_among_both(xs, ys.drop_last(), caves, bound);
    }
}

/// The weight of two lists is the sum of their weights.
pub proof fn lemma_weight_both<T: State>(xs: Seq<T>, ys: Seq<T>)
    ensures
        frontier_weight(xs + ys) == frontier_weight(xs) + frontier_weight(ys),
    decreases ys.len(),
{
    if ys.len() == 0 {
        assert(xs + ys =~= xs);
    } else {
        assert((xs + ys).drop_last() =~= xs + ys.drop_last());
        assert((xs + ys).last() == ys.last());
        lemma_weight_both(xs, ys.drop_last());
    }
}

/// States with less fuel than `fuel` weigh no more, each, than a state with
/// one less than `fuel`.
pub proof fn lemma_weight_below<T: State>(xs: Seq<T>, fuel: nat)
    requires
        fuel > 0,
        forall|i: int| 0 <= i < xs.len() ==> (#[trigger] xs[i]).fuel() < fuel,
    ensures
        frontier_weight(xs) <= xs.len() * node_weight((fuel - 1) as nat),
    decreases xs.len(),
{
    if xs.len() > 0 {
        assert(xs.last().fuel() < fuel);
        assert forall|i: int| 0 <= i < xs.drop_last().len() implies (#[trigger] xs.drop_last()[i]).fuel()
            < fuel by {
            assert(xs.drop_last()[i] == xs[i]);
        }
        lemma_weight_below(xs.drop_last(), fuel);
        lemma_node_weight(xs.last().fuel(), (fuel - 1) as nat);
        let w = node_weight((fuel - 1) as nat);
        assert(xs.len() * w == (xs.len() - 1) * w + w) by (nonlinear_arith);
    } else {
        assert(0 * node_weight((fuel - 1) as nat) == 0) by (nonlinear_arith);
    }
}

/// Generic routine that searches for the highest score from
/// the given initial state.
pub fn search<T: State>(caves: &Caves, initial: T) -> (max: u64)
    requires
        caves.wf(),
        initial.fits(caves),
    ensures
        max == best_from(initial, caves),
{
    let ghost bound = initial.fuel() + 1;
    let ghost goal = best_from(initial, caves);
    let mut queue: Vec<T> = Vec::new();
    queue.push(initial);
    let mut max: u64 = 0;
    proof {
        assert(queue@.drop_last() =~= Seq::<T>::empty());
        assert(queue@.last() == initial);
        assert(best_among(queue@.drop_last(), caves, bound as nat) == 0);
    }
    while queue.len() > 0
        invariant
            caves.wf(),
            forall|i: int|
                0 <= i < queue.len() ==> (#[trigger] queue[i]).fits(caves) && queue[i].fuel()
                    < bound,
            larger(max as nat, best_among(queue@, caves, bound as nat)) == goal,
        decreases frontier_weight(queue@),
    {
        let ghost before = queue@;
        assert(before.last().fits(caves) && before.last().fuel() < bound) by {
            assert(queue[queue.len() - 1].fits(caves));
        }
        let state = queue.pop().unwrap();
        let ghost rest = queue@;
        let score = state.score();
        let ghost seen = max;
        if score > max {
            max = score;
        }
        let mut next = state.next(caves);
        let ghost onward = next@;
        proof {
            assert(rest =~= before.drop_last());
            assert(before.last() == state);
            assert(best_among(before, caves, bound as nat) == larger(
                best_from(state, caves),
                best_among(rest, caves, bound as nat),
            ));
            assert(best_from(state, caves) == larger(
                state.value(),
                best_among(onward, caves, state.fuel()),
            ));
            lemma_among_bound(onward, caves, state.fuel(), bound as nat);
            lemma_among_both(rest, onward, caves, bound as nat);
            lemma_weight_both(rest, onward);
            if state.fuel() > 0 {
                lemma_weight_below(onward, state.fuel());
                let w = node_weight((state.fuel() - 1) as nat);
                assert(onward.len() * w <= 64 * w) by (nonlinear_arith)
                    requires
                        onward.len() <= 64,
                        0 <= w,
                ;
            } else {
                assert(onward.len() == 0) by {
                    if onward.len() > 0 {
                        assert(onward[0].fuel() < state.fuel());
                    }
                }
            }
        }
        if next.len() > 0 {
            queue.append(&mut next);
        } else {
            assert(rest + onward =~= rest);
        }
        proof {
            assert(queue@ =~= rest + onward);
            assert forall|i: int| 0 <= i < queue.len() implies (#[trigger] queue[i]).fits(caves)
                && queue[i].fuel() < bound by {
                if i < rest.len() {
                    assert(queue[i] == before[i]);
                } else {
                    assert(queue[i] == onward[i - rest.len()]);
                }
            }
        }
    }
    max
}

/// Whether a set of valves, kept as the bits of a number, holds valve `z`.
pub open spec fn is_shut(shut: u64, z: int) -> bool {
    0 <= z < 64 && (shut >> (z as u64)) & 1 == 1
}

/// Taking a valve out of a set leaves the others as they are.
pub proof fn lemma_opened(shut: u64, z: u64, j: int)
    requires
        z < 64,
    ensures
        is_shut(shut & !(1u64 << z), j) == (is_shut(shut, j) && j != z),
{
    if 0 <= j < 64 {
        let b = j as u64;
        assert((((shut & !(1u64 << z)) >> b) & 1 == 1) == (((shut >> b) & 1 == 1) && b != z))
            by (bit_vector)
            requires
                z < 64,
                b < 64,
        ;
    }
}

/// Putting a valve into a set leaves the others as they are.
pub proof fn lemma_shut(shut: u64, z: u64, j: int)
    requires
        z < 64,
    ensures
        is_shut(shut | (1u64 << z), j) == (is_shut(shut, j) || j == z),
{
    if 0 <= j < 64 {
        let b = j as u64;
        assert((((shut | (1u64 << z)) >> b) & 1 == 1) == (((shut >> b) & 1 == 1) || b == z))
            by (bit_vector)
            requires
                z < 64,
                b < 64,
        ;
    }
}

/// The empty set holds no valve.
pub proof fn lemma_none_shut(j: int)
    ensures
        !is_shut(0, j),
{
    if 0 <= j < 64 {
        let b = j as u64;
        assert((0u64 >> b) & 1 == 0) by (bit_vector);
    }
}

/// The set of the valves below `n` that have a flow.
pub open spec fn with_flow(flows: Seq<u64>, n: int) -> u64
    decreases n,
{
    if n <= 0 {
        0
    } else if flows[n - 1] > 0 {
        with_flow(flows, n - 1) | (1u64 << ((n - 1) as u64))
    } else {
        with_flow(flows, n - 1)
    }
}

impl Caves {
    /// The valves that have a flow: those that are worth opening.
    pub open spec fn closed(&self) -> u64 {
        with_flow(self.flows@, self.size())
    }

    /// Get the u64/bitmap of the closed valves
    pub fn get_closed(&self) -> (shut: u64)
        requires
            self.size() <= MAX_VALVES,
        ensures
            shut == self.closed(),
            forall|z: int| #[trigger] is_shut(shut, z) == (0 <= z < self.size() && self.flows[z] > 0),
    {
        let mut acc: u64 = 0;
        let mut i: usize = 0;
        proof {
            assert forall|z: int| #[trigger] is_shut(acc, z) == (0 <= z < i && self.flows[z] > 0) by {
                lemma_none_shut(z);
            }
        }
        while i < self.flows.len()
            invariant
                i <= self.flows.len() <= MAX_VALVES,
                acc == with_flow(self.flows@, i as int),
                forall|z: int| #[trigger] is_shut(acc, z) == (0 <= z < i && self.flows[z] > 0),
            decreases self.flows.len() - i,
        {
            let ghost before = acc;
            if self.flows[i] > 0 {
                acc = acc | (1u64 << i);
            }
            proof {
                assert forall|z: int| #[trigger]
                    is_shut(acc, z) == (0 <= z < i + 1 && self.flows[z] > 0) by {
                    lemma_shut(before, i as u64, z);
                    assert(is_shut(before, z) == (0 <= z < i && self.flows[z] > 0));
                }
            }
            i += 1;
        }
        acc
    }
}

/// The most that one move can add to the pressure released: the largest
/// flow for the whole time.
pub const MOST_PER_MOVE: u64 = 128_849_018_850;

#[derive(Clone, Copy, Debug)]
pub struct Part1 {
    /// bit map of the valves that are still closed
    pub shut: u64,
    pub location: usize,
    pub remaining_time: u64,
    pub total_flow: u64,
}

impl Part1 {
    /// The state after going to the valve `dest` and opening it.
    pub open spec fn moved(&self, dest: int, caves: &Caves) -> Part1 {
        let rest = self.remaining_time - caves.way(self.location as int, dest) - 1;
        Part1 {
            shut: self.shut & !(1u64 << (dest as u64)),
            location: dest as usize,
            remaining_time: rest as u64,
            total_flow: (self.total_flow + rest * caves.flow(dest)) as u64,
        }
    }

    /// Whether the valve `z` is shut and can be opened with time to spare.
    pub open spec fn can_open(&self, z: int, caves: &Caves) -> bool {
        is_shut(self.shut, z) && caves.way(self.location as int, z) + 1 < self.remaining_time
    }

    /// The states after opening one of the valves below `k`, in the order
    /// of the valves.
    pub open spec fn moves(&self, caves: &Caves, k: int) -> Seq<Part1>
        decreases k,
    {
        if k <= 0 {
            Seq::empty()
        } else if self.can_open(k - 1, caves) {
            self.moves(caves, k - 1).push(self.moved(k - 1, caves))
        } else {
            self.moves(caves, k - 1)
        }
    }

    /// Where no valve from `low` up to `high` is shut, the moves to the
    /// valves below `high` are those to the valves below `low`.
    pub proof fn lemma_moves_skip(&self, caves: &Caves, low: int, high: int)
        requires
            0 <= low <= high,
            forall|z: int| low <= z < high ==> !#[trigger] is_shut(self.shut, z),
        ensures
            self.moves(caves, high) == self.moves(caves, low),
        decreases high - low,
    {
        if low < high {
            assert(!is_shut(self.shut, high - 1));
            self.lemma_moves_skip(caves, low, high - 1);
        }
    }

    /// The state at the start: at the start of the caves, with all the time
    /// left and every valve that has a flow shut.
    pub open spec fn start(caves: &Caves) -> Part1 {
        Part1 {
            shut: caves.closed(),
            location: caves.start,
            remaining_time: TIME_LIMIT,
            total_flow: 0,
        }
    }

    pub fn new(input: &Caves) -> (state: Part1)
        requires
            input.wf(),
        ensures
            state == Part1::start(input),
            state.fits(input),
    {
        Part1 {
            shut: input.get_closed(),
            location: input.start,
            remaining_time: TIME_LIMIT,
            total_flow: 0,
        }
    }

    pub fn move_to(&self, dest: usize, caves: &Caves) -> (state: Part1)
        requires
            caves.wf(),
            self.fits(caves),
            dest < caves.size(),
            caves.way(self.location as int, dest as int) + 1 <= self.remaining_time,
        ensures
            state == self.moved(dest as int, caves),
            state.fits(caves),
            state.remaining_time < self.remaining_time,
    {
        assert(caves.distances[self.location as int].len() == caves.size());
        assert(caves.flows[dest as int] <= MAX_FLOW);
        let shut = self.shut & !(1u64 << dest);
        let remaining_time = self.remaining_time - caves.distances[self.location][dest] as u64 - 1;
        assert(remaining_time * caves.flows[dest as int] <= MOST_PER_MOVE) by (nonlinear_arith)
            requires
                remaining_time <= 30,
                caves.flows[dest as int] <= 0xffff_ffff,
        ;
        let total_flow = self.total_flow + remaining_time * caves.flows[dest];
        proof {
            assert forall|z: int| #[trigger] is_shut(shut, z) implies z < caves.size() by {
                lemma_opened(self.shut, dest as u64, z);
            }
        }
        Part1 { location: dest, shut, remaining_time, total_flow }
    }
}

impl State for Part1 {
    open spec fn value(&self) -> nat {
        self.total_flow as nat
    }

    open spec fn fits(&self, caves: &Caves) -> bool {
        &&& self.location < caves.size()
        &&& self.remaining_time <= TIME_LIMIT
        &&& forall|z: int| #[trigger] is_shut(self.shut, z) ==> z < caves.size()
        &&& self.total_flow <= (TIME_LIMIT - self.remaining_time) * MOST_PER_MOVE
    }

    open spec fn fuel(&self) -> nat {
        self.remaining_time as nat
    }

    open spec fn onward(&self, caves: &Caves) -> Seq<Part1> {
        self.moves(caves, 64)
    }

    fn score(&self) -> (r: u64) {
        self.total_flow
    }

    fn next(&self, caves: &Caves) -> (result: Vec<Part1>) {
        let mut result: Vec<Part1> = Vec::new();
        let mut closed_valves = self.shut;
        let ghost mut k: int = 0;
        while closed_valves != 0
            invariant
                caves.wf(),
                self.fits(caves),
                0 <= k <= 64,
                result@ == self.moves(caves, k),
                result.len() <= k,
                forall|j: int| #[trigger]
                    is_shut(closed_valves, j) == (is_shut(self.shut, j) && j >= k),
                forall|i: int|
                    0 <= i < result.len() ==> (#[trigger] result[i]).fits(caves)
                        && result[i].fuel() < self.fuel(),
            decreases 64 - k,
        {
            let zeros = closed_valves.trailing_zeros() as usize;
            proof {
                axiom_u64_trailing_zeros(closed_valves);
                assert(zeros < 64);
                assert(is_shut(closed_valves, zeros as int));
                assert forall|z: int| k <= z < zeros implies !#[trigger] is_shut(self.shut, z) by {
                    assert((closed_valves >> (z as u64)) & 1 == 0);
                    assert(!is_shut(closed_valves, z));
                }
                self.lemma_moves_skip(caves, k, zeros as int);
                assert(is_shut(self.shut, zeros as int));
                assert(caves.distances[self.location as int].len() == caves.size());
            }
            if caves.distances[self.location][zeros] as u64 + 1 < self.remaining_time {
                result.push(self.move_to(zeros, caves));
            }
            let ghost before = closed_valves;
            closed_valves = closed_valves & !(1u64 << zeros);
            proof {
                assert forall|j: int| #[trigger]
                    is_shut(closed_valves, j) == (is_shut(self.shut, j) && j >= zeros + 1) by {
                    lemma_opened(before, zeros as u64, j);
                    assert(is_shut(before, j) == (is_shut(self.shut, j) && j >= k));
                    if k <= j < zeros {
                        assert((before >> (j as u64)) & 1 == 0);
                    }
                }
                k = zeros as int + 1;
            }
        }
        proof {
            assert forall|z: int| k <= z < 64 implies !#[trigger] is_shut(self.shut, z) by {
                lemma_none_shut(z);
                assert(is_shut(closed_valves, z) == (is_shut(self.shut, z) && z >= k));
            }
            self.lemma_moves_skip(caves, k, 64);
        }
        result
    }
}

pub fn part1(input: &Caves) -> (most: u64)
    requires
        input.wf(),
    ensures
        most == best_from(Part1::start(input), input),
{
    search(input, Part1::new(input))
}

/// Now we have 2 workers (us and the elephant), so we
/// need to track both.
#[derive(Clone, Copy, Debug)]
pub struct Part2 {
    /// bit map of the valves that are still closed
    pub shut: u64,
    pub locations: [usize; 2],
    pub remaining_times: [u64; 2],
    pub total_flow: u64,
}

impl Part2 {
    /// The worker that moves next: the one with more time left, the first
    /// where both have as much.
    pub open spec fn worker(&self) -> int {
        if self.remaining_times[1] > self.remaining_times[0] {
            1
        } else {
            0
        }
    }

    /// The state after the worker has gone to the valve `dest` and opened
    /// it.
    pub open spec fn moved(&self, worker: int, dest: int, caves: &Caves) -> Part2 {
        let rest = self.remaining_times[worker] - caves.way(self.locations[worker] as int, dest) - 1;
        Part2 {
            shut: self.shut & !(1u64 << (dest as u64)),
            locations: if worker == 0 {
                [dest as usize, self.locations[1]]
            } else {
                [self.locations[0], dest as usize]
            },
            remaining_times: if worker == 0 {
                [rest as u64, self.remaining_times[1]]
            } else {
                [self.remaining_times[0], rest as u64]
            },
            total_flow: (self.total_flow + rest * caves.flow(dest)) as u64,
        }
    }

    /// Whether the valve `z` is shut and the worker that moves next can open
    /// it with time to spare.
    pub open spec fn can_open(&self, z: int, caves: &Caves) -> bool {
        is_shut(self.shut, z) && caves.way(self.locations[self.worker()] as int, z) + 1
            < self.remaining_times[self.worker()]
    }

    /// The states after opening one of the valves below `k`, in the order
    /// of the valves.
    pub open spec fn moves(&self, caves: &Caves, k: int) -> Seq<Part2>
        decreases k,
    {
        if k <= 0 {
            Seq::empty()
        } else if self.can_open(k - 1, caves) {
            self.moves(caves, k - 1).push(self.moved(self.worker(), k - 1, caves))
        } else {
            self.moves(caves, k - 1)
        }
    }

    /// Where no valve from `low` up to `high` is shut, the moves to the
    /// valves below `high` are those to the valves below `low`.
    pub proof fn lemma_moves_skip(&self, caves: &Caves, low: int, high: int)
        requires
            0 <= low <= high,
            forall|z: int| low <= z < high ==> !#[trigger] is_shut(self.shut, z),
        ensures
            self.moves(caves, high) == self.moves(caves, low),
        decreases high - low,
    {
        if low < high {
            assert(!is_shut(self.shut, high - 1));
            self.lemma_moves_skip(caves, low, high - 1);
        }
    }

    /// The state at the start: both workers at the start of the caves, with
    /// all the time left and every valve that has a flow shut.
    pub open spec fn start(caves: &Caves) -> Part2 {
        Part2 {
            shut: caves.closed(),
            locations: [caves.start, caves.start],
            remaining_times: [PART2_TIME, PART2_TIME],
            total_flow: 0,
        }
    }

    pub fn new(input: &Caves) -> (state: Part2)
        requires
            input.wf(),
        ensures
            state == Part2::start(input),
            state.fits(input),
    {
        let state = Part2 {
            shut: input.get_closed(),
            locations: [input.start; PART2_WORKERS],
            remaining_times: [PART2_TIME; PART2_WORKERS],
            total_flow: 0,
        };
        assert(state.locations =~= Part2::start(input).locations);
        assert(state.remaining_times =~= Part2::start(input).remaining_times);
        state
    }

    pub fn move_to(&self, worker: usize, dest: usize, caves: &Caves) -> (state: Part2)
        requires
            caves.wf(),
            self.fits(caves),
            worker < PART2_WORKERS,
            dest < caves.size(),
            caves.way(self.locations[worker as int] as int, dest as int) + 1
                <= self.remaining_times[worker as int],
        ensures
            state == self.moved(worker as int, dest as int, caves),
            state.fits(caves),
            state.fuel() < self.fuel(),
    {
        assert(caves.distances[self.locations[worker as int] as int].len() == caves.size());
        assert(caves.flows[dest as int] <= MAX_FLOW);
        let shut = self.shut & !(1u64 << dest);
        let mut locations = self.locations;
        locations[worker] = dest;
        let mut remaining_times = self.remaining_times;
        remaining_times[worker] = remaining_times[worker] - (
        caves.distances[self.locations[worker]][dest] as u64 + 1);
        let rest = remaining_times[worker];
        assert(rest * caves.flows[dest as int] <= MOST_PER_MOVE) by (nonlinear_arith)
            requires
                rest <= 26,
                caves.flows[dest as int] <= 0xffff_ffff,
        ;
        let total_flow = self.total_flow + remaining_times[worker] * caves.flows[dest];
        proof {
            assert forall|z: int| #[trigger] is_shut(shut, z) implies z < caves.size() by {
                lemma_opened(self.shut, dest as u64, z);
            }
            let after = self.moved(worker as int, dest as int, caves);
            assert(locations =~= after.locations);
            assert(remaining_times =~= after.remaining_times);
        }
        Part2 { locations, shut, remaining_times, total_flow }
    }
}

impl State for Part2 {
    open spec fn value(&self) -> nat {
        self.total_flow as nat
    }

    open spec fn fits(&self, caves: &Caves) -> bool {
        &&& self.locations[0] < caves.size()
        &&& self.locations[1] < caves.size()
        &&& self.remaining_times[0] <= PART2_TIME
        &&& self.remaining_times[1] <= PART2_TIME
        &&& forall|z: int| #[trigger] is_shut(self.shut, z) ==> z < caves.size()
        &&& self.total_flow <= (2 * PART2_TIME - self.remaining_times[0] - self.remaining_times[1])
            * MOST_PER_MOVE
    }

    open spec fn fuel(&self) -> nat {
        (self.remaining_times[0] + self.remaining_times[1]) as nat
    }

    open spec fn onward(&self, caves: &Caves) -> Seq<Part2> {
        self.moves(caves, 64)
    }

    fn score(&self) -> (r: u64) {
        self.total_flow
    }

    fn next(&self, caves: &Caves) -> (result: Vec<Part2>) {
        let mut result: Vec<Part2> = Vec::new();
        let mut worker: usize = 0;
        let mut most: u64 = 0;
        let mut i: usize = 0;
        while i < PART2_WORKERS
            invariant
                i <= PART2_WORKERS,
                worker < PART2_WORKERS,
                i == 0 ==> worker == 0 && most == 0,
                i == 1 ==> worker == 0 && (most == self.remaining_times[0]),
                i == 2 ==> worker == self.worker(),
            decreases PART2_WORKERS - i,
        {
            if self.remaining_times[i] > most {
                worker = i;
                most = self.remaining_times[i];
            }
            i += 1;
        }
        let mut closed_valves = self.shut;
        let ghost mut k: int = 0;
        while closed_valves != 0
            invariant
                caves.wf(),
                self.fits(caves),
                worker == self.worker(),
                0 <= k <= 64,
                result@ == self.moves(caves, k),
                result.len() <= k,
                forall|j: int| #[trigger]
                    is_shut(closed_valves, j) == (is_shut(self.shut, j) && j >= k),
                forall|i: int|
                    0 <= i < result.len() ==> (#[trigger] result[i]).fits(caves)
                        && result[i].fuel() < self.fuel(),
            decreases 64 - k,
        {
            let zeros = closed_valves.trailing_zeros() as usize;
            proof {
                axiom_u64_trailing_zeros(closed_valves);
                assert(zeros < 64);
                assert(is_shut(closed_valves, zeros as int));
                assert forall|z: int| k <= z < zeros implies !#[trigger] is_shut(self.shut, z) by {
                    assert((closed_valves >> (z as u64)) & 1 == 0);
                    assert(!is_shut(closed_valves, z));
                }
                self.lemma_moves_skip(caves, k, zeros as int);
                assert(is_shut(self.shut, zeros as int));
                assert(caves.distances[self.locations[worker as int] as int].len() == caves.size());
            }
            if caves.distances[self.locations[worker]][zeros] as u64 + 1
                < self.remaining_times[worker] {
                result.push(self.move_to(worker, zeros, caves));
            }
            let ghost before = closed_valves;
            closed_valves = closed_valves & !(1u64 << zeros);
            proof {
                assert forall|j: int| #[trigger]
                    is_shut(closed_valves, j) == (is_shut(self.shut, j) && j >= zeros + 1) by {
                    lemma_opened(before, zeros as u64, j);
                    assert(is_shut(before, j) == (is_shut(self.shut, j) && j >= k));
                    if k <= j < zeros {
                        assert((before >> (j as u64)) & 1 == 0);
                    }
                }
                k = zeros as int + 1;
            }
        }
        proof {
            assert forall|z: int| k <= z < 64 implies !#[trigger] is_shut(self.shut, z) by {
                lemma_none_shut(z);
                assert(is_shut(closed_valves, z) == (is_shut(self.shut, z) && z >= k));
            }
            self.lemma_moves_skip(caves, k, 64);
        }
        result
    }
}

pub fn part2(input: &Caves) -> (most: u64)
    requires
        input.wf(),
    ensures
        most == best_from(Part2::start(input), input),
{
    search(input, Part2::new(input))
}

/// The words with a space between each two.
pub open spec fn joined(ws: Seq<Seq<u8>>) -> Seq<u8>
    decreases ws.len(),
{
    if ws.len() == 0 {
        Seq::empty()
    } else if ws.len() == 1 {
        ws[0]
    } else {
        joined(ws.drop_last()) + seq![SPACE] + ws.last()
    }
}

/// A comma and a space: what stands between two names.
pub open spec fn comma_space() -> Seq<u8> {
    seq![44u8, 32u8]
}

/// What a line says of a valve.
pub struct ValveText {
    pub name: Seq<u8>,
    pub flow: nat,
    pub next: Seq<Seq<u8>>,
}

/// The flow that the fifth word of a line writes, behind five bytes and in
/// front of one more.
pub open spec fn flow_of(word: Seq<u8>) -> Option<nat> {
    if word.len() >= 6 {
        natural_of(word.subrange(5, word.len() - 1))
    } else {
        None
    }
}

/// What a line says of a valve: the name is its second word, the flow
/// stands in the fifth, and from the tenth word on the names of the valves
/// next to it follow, with a comma and a space between each two.
pub open spec fn valve_of(line: Seq<u8>) -> Option<ValveText> {
    let w = words_of(line);
    if w.len() >= 9 {
        match flow_of(w[4]) {
            Some(flow) => if flow <= u64::MAX {
                Some(ValveText { name: w[1], flow, next: split_by(joined(w.skip(9)), comma_space()) })
            } else {
                None
            },
            None => None,
        }
    } else {
        None
    }
}

impl Valve {
    /// Whether a line says this of the valve.
    pub open spec fn says(&self, text: ValveText) -> bool {
        self.name@ == text.name && self.flow == text.flow && rows(self.next@) == text.next
    }

    pub fn parse(line: &[u8]) -> (r: Option<Valve>)
        ensures
            r.is_some() == valve_of(line@).is_some(),
            r matches Some(v) ==> v.says(valve_of(line@).unwrap()),
    {
        let ws = words(line);
        if ws.len() < 9 {
            return None;
        }
        assert(rows(ws@)[1] == ws[1]@);
        assert(rows(ws@)[4] == ws[4]@);
        let name = slice_to_vec(ws[1].as_slice());
        // remove "rate=" and ";"
        if ws[4].len() < 6 {
            return None;
        }
        let flow_str = slice_subrange(ws[4].as_slice(), 5, ws[4].len() - 1);
        let flow = match parse_natural(flow_str) {
            Some(f) => f,
            None => {
                return None;
            },
        };
        let mut all: Vec<u8> = Vec::new();
        let mut i: usize = 9;
        assert(rows(ws@).skip(9).take(0) =~= Seq::<Seq<u8>>::empty());
        while i < ws.len()
            invariant
                9 <= i <= ws.len(),
                all@ == joined(rows(ws@).skip(9).take(i - 9)),
            decreases ws.len() - i,
        {
            let ghost rest = rows(ws@).skip(9);
            proof {
                assert(rest.take(i - 9 + 1).drop_last() =~= rest.take(i - 9));
                assert(rest.take(i - 9 + 1).last() == ws[i as int]@);
            }
            if i > 9 {
                all.push(SPACE);
            }
            let word = &ws[i];
            let mut k: usize = 0;
            let ghost front = all@;
            while k < word.len()
                invariant
                    k <= word.len(),
                    all@ == front + word@.take(k as int),
                decreases word.len() - k,
            {
                all.push(word[k]);
                assert(word@.take(k as int + 1) =~= word@.take(k as int).push(word[k as int]));
                k += 1;
            }
            assert(word@.take(k as int) =~= word@);
            proof {
                if i == 9 {
                    assert(all@ =~= ws[i as int]@);
                } else {
                    assert(all@ =~= joined(rest.take(i - 9)) + seq![SPACE] + ws[i as int]@);
                }
            }
            i += 1;
        }
        assert(rows(ws@).skip(9).take(i - 9) =~= rows(ws@).skip(9));
        let comma: [u8; 2] = [44, 32];
        assert(comma@ =~= comma_space());
        let next = split_at_each(all.as_slice(), comma.as_slice());
        Some(Valve { name, flow, next })
    }
}

/// The names of the valves.
pub open spec fn names_of(valves: Seq<ValveText>) -> Seq<Seq<u8>> {
    valves.map_values(|v: ValveText| v.name)
}

/// What the valves say of themselves.
pub open spec fn texts_of(valves: Seq<Valve>) -> Seq<ValveText> {
    valves.map_values(
        |v: Valve| (ValveText { name: v.name@, flow: v.flow as nat, next: rows(v.next@) }),
    )
}

/// The place of the last valve of that name.
pub open spec fn index_of(names: Seq<Seq<u8>>, name: Seq<u8>) -> Option<int>
    decreases names.len(),
{
    if names.len() == 0 {
        None
    } else if names.last() == name {
        Some(names.len() - 1)
    } else {
        index_of(names.drop_last(), name)
    }
}

/// The place that is found is one of a valve of that name.
pub proof fn lemma_index_of(names: Seq<Seq<u8>>, name: Seq<u8>)
    ensures
        index_of(names, name) matches Some(i) ==> 0 <= i < names.len() && names[i] == name,
    decreases names.len(),
{
    if names.len() > 0 && names.last() != name {
        lemma_index_of(names.drop_last(), name);
    }
}

/// The place of the last valve of that name.
pub fn find_valve(valves: &Vec<Valve>, name: &[u8]) -> (r: Option<usize>)
    ensures
        r.is_some() == index_of(names_of(texts_of(valves@)), name@).is_some(),
        r matches Some(i) ==> index_of(names_of(texts_of(valves@)), name@) == Some(i as int) && i
            < valves.len(),
{
    let mut found: Option<usize> = None;
    let mut i: usize = 0;
    let ghost names = names_of(texts_of(valves@));
    while i < valves.len()
        invariant
            i <= valves.len(),
            names == names_of(texts_of(valves@)),
            found.is_some() == index_of(names.take(i as int), name@).is_some(),
            found matches Some(at) ==> index_of(names.take(i as int), name@) == Some(at as int)
                && at < i,
        decreases valves.len() - i,
    {
        proof {
            assert(names.take(i as int + 1).drop_last() =~= names.take(i as int));
            assert(names.take(i as int + 1).last() == valves[i as int].name@);
        }
        if same_bytes(valves[i].name.as_slice(), name) {
            found = Some(i);
        }
        i += 1;
    }
    assert(names.take(i as int) =~= names);
    found
}

/// The name of the valve to start at.
pub open spec fn first_name() -> Seq<u8> {
    seq![65u8, 65u8]
}

/// The places of the valves of these names; `None` where there is no valve
/// of one of the names.
pub open spec fn places_of(names: Seq<Seq<u8>>, next: Seq<Seq<u8>>) -> Option<Seq<int>>
    decreases next.len(),
{
    if next.len() == 0 {
        Some(Seq::empty())
    } else {
        match (places_of(names, next.drop_last()), index_of(names, next.last())) {
            (Some(before), Some(at)) => Some(before.push(at)),
            _ => None,
        }
    }
}

/// The distances from a valve before any way round is looked for: 1 to
/// the valves next to it, else 0 to itself and the number of valves to
/// every other.
pub open spec fn first_row(n: int, from: int, dests: Seq<int>) -> Seq<int>
    decreases dests.len(),
{
    if dests.len() == 0 {
        Seq::new(n as nat, |k: int| if k == from { 0int } else { n })
    } else {
        first_row(n, from, dests.drop_last()).update(dests.last(), 1)
    }
}

/// The smaller of two numbers.
pub open spec fn smaller(a: int, b: int) -> int {
    if a <= b {
        a
    } else {
        b
    }
}

/// The distances when the way over the valve `i` is taken wherever it is
/// shorter.
pub open spec fn relaxed(d: Seq<Seq<int>>, i: int) -> Seq<Seq<int>> {
    Seq::new(
        d.len(),
        |j: int| Seq::new(d[j].len(), |k: int| smaller(d[j][k], d[j][i] + d[i][k])),
    )
}

/// The distances when the ways over the valves below `m` were taken, one
/// valve after the other.
pub open spec fn relaxed_all(d: Seq<Seq<int>>, m: int) -> Seq<Seq<int>>
    decreases m,
{
    if m <= 0 {
        d
    } else {
        relaxed(relaxed_all(d, m - 1), m - 1)
    }
}

/// The distances as numbers.
pub open spec fn table(d: Seq<Vec<u8>>) -> Seq<Seq<int>> {
    d.map_values(|row: Vec<u8>| row@.map_values(|v: u8| v as int))
}

/// The most valves for which every sum of two distances fits a byte.
pub const MOST_VALVES: usize = 127;

/// Whether caves can be made of the valves: they are not too many, one is
/// the valve to start at, and each valve next to one is among them.
pub open spec fn can_describe(valves: Seq<ValveText>) -> bool {
    &&& valves.len() <= MOST_VALVES
    &&& index_of(names_of(valves), first_name()).is_some()
    &&& forall|from: int|
        0 <= from < valves.len() ==> places_of(
            names_of(valves),
            (#[trigger] valves[from]).next,
        ).is_some()
}

/// The distances before any way round is looked for.
pub open spec fn first_steps(valves: Seq<ValveText>) -> Seq<Seq<int>> {
    Seq::new(
        valves.len(),
        |from: int|
            first_row(
                valves.len() as int,
                from,
                places_of(names_of(valves), valves[from].next).unwrap(),
            ),
    )
}

impl Caves {
    /// Whether these are the caves of the valves: the start is the valve of
    /// the first name, the flows are the valves', and the distances are
    /// those over the ways from valve to valve.
    pub open spec fn describes(&self, valves: Seq<ValveText>) -> bool {
        &&& index_of(names_of(valves), first_name()) == Some(self.start as int)
        &&& self.flows@.map_values(|f: u64| f as nat) == valves.map_values(|v: ValveText| v.flow)
        &&& table(self.distances@) == relaxed_all(first_steps(valves), valves.len() as int)
    }
}

/// The distances from the valve `from`, before any way round is looked
/// for; `None` where a valve next to it is not among the valves.
pub fn start_row(valves: &Vec<Valve>, from: usize) -> (r: Option<Vec<u8>>)
    requires
        from < valves.len() <= MOST_VALVES,
    ensures
        r.is_some() == places_of(
            names_of(texts_of(valves@)),
            texts_of(valves@)[from as int].next,
        ).is_some(),
        r matches Some(row) ==> row@.map_values(|v: u8| v as int) == first_row(
            valves.len() as int,
            from as int,
            places_of(names_of(texts_of(valves@)), texts_of(valves@)[from as int].next).unwrap(),
        ) && row.len() == valves.len() && forall|k: int|
            0 <= k < row.len() ==> #[trigger] row[k] <= valves.len(),
{
    let n = valves.len();
    let ghost names = names_of(texts_of(valves@));
    let ghost next = texts_of(valves@)[from as int].next;
    let mut row: Vec<u8> = Vec::new();
    let mut k: usize = 0;
    while k < n
        invariant
            k <= n,
            n == valves.len(),
            n <= MOST_VALVES,
            from < n,
            row.len() == k,
            forall|c: int| 0 <= c < k ==> #[trigger] row[c] == if c == from { 0int } else { n as int },
        decreases n - k,
    {
        row.push(if k == from { 0 } else { n as u8 });
        k += 1;
    }
    proof {
        assert(next.take(0) =~= Seq::<Seq<u8>>::empty());
        assert(row@.map_values(|v: u8| v as int) =~= first_row(n as int, from as int, Seq::empty()));
    }
    let mut i: usize = 0;
    while i < valves[from].next.len()
        invariant
            i <= valves[from as int].next.len(),
            n == valves.len(),
            n <= MOST_VALVES,
            from < n,
            names == names_of(texts_of(valves@)),
            next == rows(valves[from as int].next@),
            row.len() == n,
            forall|k: int| 0 <= k < row.len() ==> #[trigger] row[k] <= n,
            places_of(names, next.take(i as int)).is_some(),
            row@.map_values(|v: u8| v as int) == first_row(
                n as int,
                from as int,
                places_of(names, next.take(i as int)).unwrap(),
            ),
        decreases valves[from as int].next.len() - i,
    {
        proof {
            assert(next.take(i as int + 1).drop_last() =~= next.take(i as int));
            assert(next.take(i as int + 1).last() == valves[from as int].next[i as int]@);
        }
        let ghost before = row@;
        match find_valve(valves, valves[from].next[i].as_slice()) {
            Some(dest) => {
                row.set(dest, 1);
                proof {
                    let ds = places_of(names, next.take(i as int)).unwrap();
                    assert(places_of(names, next.take(i as int + 1)) == Some(ds.push(dest as int)));
                    assert(ds.push(dest as int).drop_last() =~= ds);
                    assert(row@.map_values(|v: u8| v as int) =~= before.map_values(
                        |v: u8| v as int,
                    ).update(dest as int, 1));
                }
            },
            None => {
                proof {
                    lemma_places_fail(names, next, i as int + 1);
                }
                return None;
            },
        }
        i += 1;
    }
    assert(next.take(i as int) =~= next);
    Some(row)
}

/// Where the places of the first names cannot be found, those of all the
/// names cannot.
pub proof fn lemma_places_fail(names: Seq<Seq<u8>>, next: Seq<Seq<u8>>, n: int)
    requires
        0 <= n <= next.len(),
        places_of(names, next.take(n)).is_none(),
    ensures
        places_of(names, next).is_none(),
    decreases next.len() - n,
{
    if n < next.len() {
        assert(next.take(n + 1).drop_last() =~= next.take(n));
        lemma_places_fail(names, next, n + 1);
    } else {
        assert(next.take(n) =~= next);
    }
}

/// Whether the table has `n` rows of `n` distances, none above `n`.
pub open spec fn square(d: Seq<Vec<u8>>, n: int) -> bool {
    &&& d.len() == n
    &&& forall|j: int| 0 <= j < n ==> (#[trigger] d[j]).len() == n
    &&& forall|j: int, k: int| 0 <= j < n && 0 <= k < n ==> #[trigger] d[j][k] <= n
}

/// Takes the way over the valve `i` wherever it is shorter.
pub fn relax(distances: &mut Vec<Vec<u8>>, i: usize)
    requires
        square(old(distances)@, old(distances).len() as int),
        i < old(distances).len() <= MOST_VALVES,
    ensures
        square(final(distances)@, old(distances).len() as int),
        table(final(distances)@) == relaxed(table(old(distances)@), i as int),
{
    let n = distances.len();
    let ghost given = table(distances@);
    let ghost goal = relaxed(given, i as int);
    let mut j: usize = 0;
    while j < n
        invariant
            j <= n,
            i < n <= MOST_VALVES,
            n == given.len(),
            goal == relaxed(given, i as int),
            square(distances@, n as int),
            forall|r: int| 0 <= r < n ==> (#[trigger] given[r]).len() == n,
            forall|r: int, c: int| 0 <= r < n && 0 <= c < n ==> 0 <= #[trigger] given[r][c] <= n,
            forall|r: int, c: int|
                0 <= r < n && 0 <= c < n ==> #[trigger] distances[r][c] == if r < j {
                    goal[r][c]
                } else {
                    given[r][c]
                },
        decreases n - j,
    {
        let mut k: usize = 0;
        while k < n
            invariant
                k <= n,
                j < n,
                i < n <= MOST_VALVES,
                n == given.len(),
                goal == relaxed(given, i as int),
                square(distances@, n as int),
                forall|r: int| 0 <= r < n ==> (#[trigger] given[r]).len() == n,
                forall|r: int, c: int|
                    0 <= r < n && 0 <= c < n ==> 0 <= #[trigger] given[r][c] <= n,
                forall|r: int, c: int|
                    0 <= r < n && 0 <= c < n ==> #[trigger] distances[r][c] == if r < j || (r == j
                        && c < k) {
                        goal[r][c]
                    } else {
                        given[r][c]
                    },
            decreases n - k,
        {
            proof {
                assert(distances[j as int].len() == n);
                assert(distances[i as int].len() == n);
                assert(distances[j as int][k as int] <= n);
                assert(distances[j as int][i as int] <= n);
                assert(distances[i as int][k as int] <= n);
                assert(0 <= given[i as int][i as int]);
                assert(0 <= given[j as int][i as int]);
                assert(0 <= given[i as int][k as int]);
                assert(distances[j as int][i as int] == given[j as int][i as int]);
                assert(distances[i as int][k as int] == given[i as int][k as int]);
                assert(distances[j as int][k as int] == given[j as int][k as int]);
            }
            let over = distances[j][i] + distances[i][k];
            let ghost before = distances@;
            if over < distances[j][k] {
                distances[j][k] = over;
            }
            proof {
                assert forall|r: int| 0 <= r < n implies (#[trigger] distances[r]).len() == n by {
                    assert(before[r].len() == n);
                }
                assert forall|r: int, c: int| 0 <= r < n && 0 <= c < n implies #[trigger] distances[r][c]
                    <= n && distances[r][c] == if r < j || (r == j && c < k + 1) {
                    goal[r][c]
                } else {
                    given[r][c]
                } by {
                    assert(before[r].len() == n);
                    assert(before[r][c] <= n);
                    if r != j {
                        assert(distances[r][c] == before[r][c]);
                    } else if c != k {
                        assert(distances[r][c] == before[r][c]);
                    }
                }
            }
            k += 1;
        }
        j += 1;
    }
    proof {
        assert(table(distances@) =~= goal) by {
            assert forall|r: int| 0 <= r < n implies #[trigger] table(distances@)[r] =~= goal[r] by {
                assert(distances[r].len() == n);
                assert(given[r].len() == n);
                assert forall|c: int| 0 <= c < n implies table(distances@)[r][c] == goal[r][c] by {
                    assert(distances[r][c] == goal[r][c]);
                }
            }
        }
    }
}

impl Caves {
    /// The caves of the valves; `None` where none can be made of them.
    pub fn from_valves(valves: &Vec<Valve>) -> (r: Option<Caves>)
        ensures
            r.is_some() == can_describe(texts_of(valves@)),
            r matches Some(caves) ==> caves.describes(texts_of(valves@)) && caves.shaped(),
    {
        let n = valves.len();
        if n > MOST_VALVES {
            return None;
        }
        let aa: [u8; 2] = [65, 65];
        assert(aa@ =~= first_name());
        let start = match find_valve(valves, aa.as_slice()) {
            Some(at) => at,
            None => {
                return None;
            },
        };
        let ghost texts = texts_of(valves@);
        let mut flows: Vec<u64> = Vec::new();
        let mut distances: Vec<Vec<u8>> = Vec::new();
        let mut from: usize = 0;
        while from < n
            invariant
                from <= n,
                n == valves.len(),
                n <= MOST_VALVES,
                texts == texts_of(valves@),
                flows@ == valves@.take(from as int).map_values(|v: Valve| v.flow),
                distances.len() == from,
                forall|f: int|
                    0 <= f < from ==> places_of(names_of(texts), (#[trigger] texts[f]).next).is_some(),
                forall|f: int|
                    0 <= f < from ==> (#[trigger] distances[f]).len() == n
                        && distances[f]@.map_values(|v: u8| v as int) == first_steps(texts)[f],
                forall|f: int, k: int| 0 <= f < from && 0 <= k < n ==> #[trigger] distances[f][k] <= n,
            decreases n - from,
        {
            flows.push(valves[from].flow);
            assert(flows@ =~= valves@.take(from as int + 1).map_values(|v: Valve| v.flow));
            // Set the distance to 1 for every direct connection
            match start_row(valves, from) {
                Some(row) => {
                    distances.push(row);
                },
                None => {
                    return None;
                },
            }
            from += 1;
        }
        proof {
            assert(valves@.take(from as int) =~= valves@);
            assert(can_describe(texts));
            assert(table(distances@) =~= first_steps(texts));
            assert(relaxed_all(first_steps(texts), 0) == first_steps(texts));
            assert(flows@.map_values(|f: u64| f as nat) =~= texts.map_values(
                |v: ValveText| v.flow,
            ));
        }
        // compute the shortest distances for all pairs
        let mut i: usize = 0;
        while i < n
            invariant
                i <= n,
                n == valves.len(),
                n <= MOST_VALVES,
                square(distances@, n as int),
                table(distances@) == relaxed_all(first_steps(texts_of(valves@)), i as int),
            decreases n - i,
        {
            relax(&mut distances, i);
            i += 1;
        }
        Some(Caves { start, flows, distances })
    }
}

/// The valves that the lines of a text describe; `None` where a line
/// describes none.
pub open spec fn valves_of(ls: Seq<Seq<u8>>) -> Option<Seq<ValveText>>
    decreases ls.len(),
{
    if ls.len() == 0 {
        Some(Seq::empty())
    } else {
        match (valves_of(ls.drop_last()), valve_of(ls.last())) {
            (Some(before), Some(v)) => Some(before.push(v)),
            _ => None,
        }
    }
}


/// Where the first lines describe no valves, all the lines describe none.
pub proof fn lemma_valves_fail(ls: Seq<Seq<u8>>, n: int)
    requires
        0 <= n <= ls.len(),
        valves_of(ls.take(n)).is_none(),
    ensures
        valves_of(ls).is_none(),
    decreases ls.len() - n,
{
    if n < ls.len() {
        assert(ls.take(n + 1).drop_last() =~= ls.take(n));
        lemma_valves_fail(ls, n + 1);
    } else {
        assert(ls.take(n) =~= ls);
    }
}

/// The valves that the lines of the text describe; `None` where a line
/// describes none.
pub fn read_valves(input: &str) -> (r: Option<Vec<Valve>>)
    ensures
        r.is_some() == valves_of(lines_of(input.spec_bytes())).is_some(),
        r matches Some(valves) ==> texts_of(valves@) == valves_of(
            lines_of(input.spec_bytes()),
        ).unwrap(),
{
    let all = lines(input.as_bytes());
    let ghost ls = lines_of(input.spec_bytes());
    let mut valves: Vec<Valve> = Vec::new();
    let mut i: usize = 0;
    assert(ls.take(0) =~= Seq::<Seq<u8>>::empty());
    while i < all.len()
        invariant
            i <= all.len(),
            rows(all@) == ls,
            ls == lines_of(input.spec_bytes()),
            valves.len() == i,
            valves_of(ls.take(i as int)).is_some(),
            texts_of(valves@) == valves_of(ls.take(i as int)).unwrap(),
        decreases all.len() - i,
    {
        proof {
            assert(rows(all@)[i as int] == all[i as int]@);
            assert(ls.take(i as int + 1).drop_last() =~= ls.take(i as int));
            assert(ls.take(i as int + 1).last() == ls[i as int]);
        }
        let ghost before = valves@;
        match Valve::parse(all[i].as_slice()) {
            Some(v) => {
                valves.push(v);
                proof {
                    let texts = valves_of(ls.take(i as int + 1)).unwrap();
                    assert(valves@.drop_last() =~= before);
                    assert(texts_of(valves@) =~= texts_of(before).push(
                        valve_of(ls[i as int]).unwrap(),
                    ));
                }
            },
            None => {
                proof {
                    lemma_valves_fail(ls, i as int + 1);
                }
                return None;
            },
        }
        i += 1;
    }
    assert(rows(all@).len() == all.len());
    assert(ls.take(i as int) =~= ls);
    Some(valves)
}

/// Whether `caves` are the caves that the text describes.
pub open spec fn text_says(text: Seq<u8>, caves: Caves) -> bool {
    caves.describes(valves_of(lines_of(text)).unwrap())
}

/// Whether the text describes caves: each line describes a valve, and
/// caves can be made of the valves.
pub open spec fn well_formed(text: Seq<u8>) -> bool {
    valves_of(lines_of(text)).is_some() && can_describe(valves_of(lines_of(text)).unwrap())
}

impl Caves {
    /// The caves that the text describes; `None` where it describes none.
    pub fn parse(input: &str) -> (r: Option<Caves>)
        ensures
            r.is_some() == well_formed(input.spec_bytes()),
            r matches Some(caves) ==> text_says(input.spec_bytes(), caves) && caves.shaped(),
    {
        match read_valves(input) {
            Some(valves) => Caves::from_valves(&valves),
            None => None,
        }
    }
}

pub fn generator(input: &str) -> (caves: Caves)
    requires
        well_formed(input.spec_bytes()),
    ensures
        text_says(input.spec_bytes(), caves),
        caves.shaped(),
{
    Caves::parse(input).unwrap()
}

impl Caves {
    /// Whether the caves can be searched.
    pub fn is_wf(&self) -> (b: bool)
        ensures
            b == self.wf(),
    {
        let n = self.flows.len();
        if self.start >= n || self.distances.len() != n || n > MAX_VALVES {
            return false;
        }
        let mut i: usize = 0;
        while i < n
            invariant
                i <= n,
                n == self.flows.len(),
                n == self.distances.len(),
                forall|k: int| 0 <= k < i ==> (#[trigger] self.distances[k]).len() == n,
                forall|k: int| 0 <= k < i ==> #[trigger] self.flows[k] <= MAX_FLOW,
            decreases n - i,
        {
            if self.distances[i].len() != n || self.flows[i] > MAX_FLOW {
                return false;
            }
            i += 1;
        }
        true
    }
}

/// Whether the table has `n` rows of `n` distances, none below 0.
pub open spec fn is_table(d: Seq<Seq<int>>, n: int) -> bool {
    &&& d.len() == n
    &&& forall|j: int| 0 <= j < n ==> (#[trigger] d[j]).len() == n
    &&& forall|j: int, k: int| 0 <= j < n && 0 <= k < n ==> 0 <= #[trigger] d[j][k]
}

/// Whether no way over one of the valves below `m` is shorter than the
/// distance that the table has.
pub open spec fn settled(d: Seq<Seq<int>>, n: int, m: int) -> bool {
    forall|j: int, k: int, i: int|
        0 <= j < n && 0 <= k < n && 0 <= i < m ==> #[trigger] d[j][k] <= d[j][i] + #[trigger] d[i][k]
}

/// Taking the way over a valve leaves a table a table, with no distance
/// longer than before, and those from and to the valve as they were.
pub proof fn lemma_relaxed(d: Seq<Seq<int>>, n: int, i: int)
    requires
        is_table(d, n),
        0 <= i < n,
    ensures
        is_table(relaxed(d, i), n),
        forall|j: int, k: int| 0 <= j < n && 0 <= k < n ==> #[trigger] relaxed(d, i)[j][k] <= d[j][k],
        forall|j: int, k: int|
            0 <= j < n && 0 <= k < n ==> #[trigger] relaxed(d, i)[j][k] == smaller(
                d[j][k],
                d[j][i] + d[i][k],
            ),
        forall|j: int| 0 <= j < n ==> #[trigger] relaxed(d, i)[j][i] == d[j][i],
        forall|k: int| 0 <= k < n ==> #[trigger] relaxed(d, i)[i][k] == d[i][k],
{
    let r = relaxed(d, i);
    assert forall|j: int| 0 <= j < n implies (#[trigger] r[j]).len() == n by {
        assert(d[j].len() == n);
    }
    assert forall|j: int, k: int| 0 <= j < n && 0 <= k < n implies #[trigger] r[j][k] == smaller(
        d[j][k],
        d[j][i] + d[i][k],
    ) && 0 <= r[j][k] <= d[j][k] by {
        assert(d[j].len() == n);
        assert(0 <= d[j][k] && 0 <= d[j][i] && 0 <= d[i][k]);
    }
    assert forall|j: int| 0 <= j < n implies #[trigger] r[j][i] == d[j][i] by {
        assert(r[j][i] == smaller(d[j][i], d[j][i] + d[i][i]));
        assert(0 <= d[i][i]);
    }
    assert forall|k: int| 0 <= k < n implies #[trigger] r[i][k] == d[i][k] by {
        assert(r[i][k] == smaller(d[i][k], d[i][i] + d[i][k]));
        assert(0 <= d[i][i]);
    }
}

/// When the way over one more valve is taken, no way over the valves up to
/// it is shorter than the table has.
pub proof fn lemma_settles(d: Seq<Seq<int>>, n: int, i: int)
    requires
        is_table(d, n),
        0 <= i < n,
        settled(d, n, i),
    ensures
        settled(relaxed(d, i), n, i + 1),
{
    let r = relaxed(d, i);
    lemma_relaxed(d, n, i);
    assert forall|j: int, k: int, m: int|
        0 <= j < n && 0 <= k < n && 0 <= m < i + 1 implies #[trigger] r[j][k] <= r[j][m]
        + #[trigger] r[m][k] by {
        assert(r[j][k] == smaller(d[j][k], d[j][i] + d[i][k]));
        assert(r[j][m] == smaller(d[j][m], d[j][i] + d[i][m]));
        assert(r[m][k] == smaller(d[m][k], d[m][i] + d[i][k]));
        assert(0 <= d[m][i] && 0 <= d[i][m] && 0 <= d[j][i] && 0 <= d[i][k]);
        if m < i {
            assert(d[j][k] <= d[j][m] + d[m][k]);
            assert(d[i][k] <= d[i][m] + d[m][k]);
            assert(d[j][i] <= d[j][m] + d[m][i]);
        } else {
            assert(r[j][i] == d[j][i]);
            assert(r[i][k] == d[i][k]);
        }
    }
}

/// When the ways over all the valves below `m` were taken, none of them is
/// shorter than the table has, and no distance is longer than at first.
pub proof fn lemma_relaxed_all(d: Seq<Seq<int>>, n: int, m: int)
    requires
        is_table(d, n),
        0 <= m <= n,
    ensures
        is_table(relaxed_all(d, m), n),
        settled(relaxed_all(d, m), n, m),
        forall|j: int, k: int|
            0 <= j < n && 0 <= k < n ==> #[trigger] relaxed_all(d, m)[j][k] <= d[j][k],
    decreases m,
{
    if m > 0 {
        lemma_relaxed_all(d, n, m - 1);
        let before = relaxed_all(d, m - 1);
        lemma_relaxed(before, n, m - 1);
        lemma_settles(before, n, m - 1);
        assert forall|j: int, k: int| 0 <= j < n && 0 <= k < n implies #[trigger] relaxed_all(
            d,
            m,
        )[j][k] <= d[j][k] by {
            assert(relaxed(before, m - 1)[j][k] <= before[j][k]);
        }
    }
}

/// Whether the valves of the walk are valves, at least two.
pub open spec fn is_walk(walk: Seq<int>, n: int) -> bool {
    walk.len() >= 2 && forall|t: int| 0 <= t < walk.len() ==> 0 <= #[trigger] walk[t] < n
}

/// The length of a walk from valve to valve, each step as long as the
/// table says.
pub open spec fn walk_length(d: Seq<Seq<int>>, walk: Seq<int>) -> int
    decreases walk.len(),
{
    if walk.len() < 2 {
        0
    } else {
        walk_length(d, walk.drop_last()) + d[walk[walk.len() - 2]][walk.last()]
    }
}

/// In a table where no way over a valve is shorter than the distance, no
/// walk is shorter than the distance from its first valve to its last.
pub proof fn lemma_no_shorter_walk(d: Seq<Seq<int>>, steps: Seq<Seq<int>>, n: int, walk: Seq<int>)
    requires
        is_table(d, n),
        is_table(steps, n),
        settled(d, n, n),
        forall|j: int, k: int| 0 <= j < n && 0 <= k < n ==> #[trigger] d[j][k] <= steps[j][k],
        is_walk(walk, n),
    ensures
        d[walk[0]][walk.last()] <= walk_length(steps, walk),
    decreases walk.len(),
{
    let from = walk[0];
    let to = walk.last();
    let via = walk[walk.len() - 2];
    assert(0 <= from < n && 0 <= to < n && 0 <= via < n);
    assert(d[via][to] <= steps[via][to]);
    if walk.len() == 2 {
        assert(walk.drop_last().len() < 2);
        assert(walk_length(steps, walk.drop_last()) == 0);
    } else {
        let front = walk.drop_last();
        assert(is_walk(front, n)) by {
            assert forall|t: int| 0 <= t < front.len() implies 0 <= #[trigger] front[t] < n by {
                assert(front[t] == walk[t]);
            }
        }
        lemma_no_shorter_walk(d, steps, n, front);
        assert(front[0] == from && front.last() == via);
        assert(d[from][to] <= d[from][via] + d[via][to]);
    }
}

/// Whether the distance from `j` to `k` is the length of a walk from the
/// one to the other.
pub open spec fn has_walk(d: Seq<Seq<int>>, steps: Seq<Seq<int>>, n: int, j: int, k: int) -> bool {
    exists|walk: Seq<int>|
        is_walk(walk, n) && walk[0] == j && walk.last() == k && #[trigger] walk_length(steps, walk)
            == d[j][k]
}

/// Whether each distance of the table is the length of a walk.
pub open spec fn walked(d: Seq<Seq<int>>, steps: Seq<Seq<int>>, n: int) -> bool {
    forall|j: int, k: int| 0 <= j < n && 0 <= k < n ==> #[trigger] has_walk(d, steps, n, j, k)
}

/// The length of two walks put together, the second from where the first
/// ends, is the sum of their lengths.
pub proof fn lemma_walks_join(steps: Seq<Seq<int>>, a: Seq<int>, b: Seq<int>)
    requires
        a.len() >= 2,
        b.len() >= 2,
        a.last() == b[0],
    ensures
        walk_length(steps, a + b.skip(1)) == walk_length(steps, a) + walk_length(steps, b),
    decreases b.len(),
{
    let whole = a + b.skip(1);
    if b.len() == 2 {
        assert(whole.drop_last() =~= a);
        assert(whole.last() == b[1]);
        assert(whole[whole.len() - 2] == a.last());
        assert(b.drop_last().len() < 2);
        assert(walk_length(steps, b.drop_last()) == 0);
    } else {
        let front = b.drop_last();
        lemma_walks_join(steps, a, front);
        assert(whole.drop_last() =~= a + front.skip(1));
        assert(whole.last() == b.last());
        assert(whole[whole.len() - 2] == b[b.len() - 2]);
    }
}

/// When the ways over the valves below `m` were taken, each distance is
/// still the length of a walk.
pub proof fn lemma_walked(steps: Seq<Seq<int>>, n: int, m: int)
    requires
        is_table(steps, n),
        0 <= m <= n,
    ensures
        walked(relaxed_all(steps, m), steps, n),
    decreases m,
{
    let d = relaxed_all(steps, m);
    if m == 0 {
        assert forall|j: int, k: int| 0 <= j < n && 0 <= k < n implies #[trigger] has_walk(
            d,
            steps,
            n,
            j,
            k,
        ) by {
            let walk = seq![j, k];
            assert(walk.drop_last().len() < 2);
            assert(walk_length(steps, walk.drop_last()) == 0);
            assert(walk[walk.len() - 2] == j && walk.last() == k);
            assert(is_walk(walk, n));
            assert(walk_length(steps, walk) == d[j][k]);
        }
    } else {
        let i = m - 1;
        let before = relaxed_all(steps, i);
        lemma_walked(steps, n, i);
        lemma_relaxed_all(steps, n, i);
        lemma_relaxed(before, n, i);
        assert forall|j: int, k: int| 0 <= j < n && 0 <= k < n implies #[trigger] has_walk(
            d,
            steps,
            n,
            j,
            k,
        ) by {
            assert(d[j][k] == smaller(before[j][k], before[j][i] + before[i][k]));
            if d[j][k] == before[j][k] {
                assert(has_walk(before, steps, n, j, k));
                let walk = choose|walk: Seq<int>|
                    is_walk(walk, n) && walk[0] == j && walk.last() == k && #[trigger] walk_length(
                        steps,
                        walk,
                    ) == before[j][k];
                assert(walk_length(steps, walk) == d[j][k]);
            } else {
                assert(has_walk(before, steps, n, j, i));
                assert(has_walk(before, steps, n, i, k));
                let a = choose|walk: Seq<int>|
                    is_walk(walk, n) && walk[0] == j && walk.last() == i && #[trigger] walk_length(
                        steps,
                        walk,
                    ) == before[j][i];
                let b = choose|walk: Seq<int>|
                    is_walk(walk, n) && walk[0] == i && walk.last() == k && #[trigger] walk_length(
                        steps,
                        walk,
                    ) == before[i][k];
                let whole = a + b.skip(1);
                lemma_walks_join(steps, a, b);
                assert(is_walk(whole, n)) by {
                    assert forall|t: int| 0 <= t < whole.len() implies 0 <= #[trigger] whole[t]
                        < n by {
                        if t < a.len() {
                            assert(whole[t] == a[t]);
                        } else {
                            assert(whole[t] == b[t - a.len() + 1]);
                        }
                    }
                }
                assert(whole[0] == j && whole.last() == k);
                assert(walk_length(steps, whole) == d[j][k]);
            }
        }
    }
}

/// The distances of the caves are the shortest: each is the length of a
/// walk from the one valve to the other, and no walk between them is
/// shorter. A step of a walk is as long as the distances are at first.
pub proof fn lemma_shortest_ways(steps: Seq<Seq<int>>, n: int)
    requires
        is_table(steps, n),
    ensures
        walked(relaxed_all(steps, n), steps, n),
        forall|walk: Seq<int>| #[trigger]
            is_walk(walk, n) ==> relaxed_all(steps, n)[walk[0]][walk.last()] <= walk_length(
                steps,
                walk,
            ),
{
    lemma_walked(steps, n, n);
    lemma_relaxed_all(steps, n, n);
    let d = relaxed_all(steps, n);
    assert forall|walk: Seq<int>| #[trigger] is_walk(walk, n) implies d[walk[0]][walk.last()]
        <= walk_length(steps, walk) by {
        lemma_no_shorter_walk(d, steps, n, walk);
    }
}

/// The places that are found are places of valves.
pub proof fn lemma_places_of(names: Seq<Seq<u8>>, next: Seq<Seq<u8>>)
    ensures
        places_of(names, next) matches Some(dests) ==> forall|t: int|
            0 <= t < dests.len() ==> 0 <= #[trigger] dests[t] < names.len(),
    decreases next.len(),
{
    if next.len() > 0 {
        lemma_places_of(names, next.drop_last());
        lemma_index_of(names, next.last());
    }
}

/// The first distances from a valve are as many as there are valves, none
/// below 0.
pub proof fn lemma_first_row(n: int, from: int, dests: Seq<int>)
    requires
        0 <= n,
        forall|t: int| 0 <= t < dests.len() ==> 0 <= #[trigger] dests[t] < n,
    ensures
        first_row(n, from, dests).len() == n,
        forall|k: int| 0 <= k < n ==> 0 <= #[trigger] first_row(n, from, dests)[k],
    decreases dests.len(),
{
    if dests.len() > 0 {
        assert forall|t: int| 0 <= t < dests.drop_last().len() implies 0
            <= #[trigger] dests.drop_last()[t] < n by {
            assert(dests.drop_last()[t] == dests[t]);
        }
        lemma_first_row(n, from, dests.drop_last());
        assert(0 <= dests.last() < n);
    }
}

/// The distances of caves are the shortest: each is the length of a walk
/// from the one valve to the other, and no walk between them is shorter. A
/// step of a walk is 1 along a tunnel, 0 for staying where no tunnel leads
/// back to the valve itself, and as many as there are valves else.
pub proof fn lemma_caves_shortest(caves: Caves, valves: Seq<ValveText>)
    requires
        can_describe(valves),
        caves.describes(valves),
    ensures
        walked(table(caves.distances@), first_steps(valves), valves.len() as int),
        forall|walk: Seq<int>| #[trigger]
            is_walk(walk, valves.len() as int) ==> table(caves.distances@)[walk[0]][walk.last()]
                <= walk_length(first_steps(valves), walk),
{
    let n = valves.len() as int;
    let steps = first_steps(valves);
    assert(is_table(steps, n)) by {
        assert forall|j: int| 0 <= j < n implies (#[trigger] steps[j]).len() == n && forall|k: int|
            0 <= k < n ==> 0 <= #[trigger] steps[j][k] by {
            lemma_places_of(names_of(valves), valves[j].next);
            assert(places_of(names_of(valves), valves[j].next).is_some());
            lemma_first_row(n, j, places_of(names_of(valves), valves[j].next).unwrap());
        }
    }
    lemma_shortest_ways(steps, n);
}

} // verus!
