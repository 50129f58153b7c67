//! Robot factory scheduling: which robots to build, and when, so that the
//! stock of the target resource is largest when the time runs out.
//!
//! The rules are stated once, over mathematical states ([`StateView`]) and
//! integers; the executable search is proved to return the optimum of those
//! rules.
use crate::text::{lines, lines_of, natural_of, parse_natural, rows, words, words_of};
use vstd::prelude::*;
use vstd::slice::slice_subrange;
use vstd::string::StringSliceAdditionalSpecFns;

verus! {

/// The integer type of every quantity: time, stock and robot counts.
pub type Count = u16;

/// The four kinds of resource, and of the robots that produce them.
#[derive(Clone, Copy, Debug, PartialEq, Eq, Structural)]
pub enum Resource {
    Ore,
    Clay,
    Obsidian,
    Geode,
}

/// The index of the target resource.
pub open spec fn target() -> int {
    3
}

impl Resource {
    /// The place of a kind in the cost matrix and in the state's arrays.
    pub open spec fn index(self) -> int {
        match self {
            Resource::Ore => 0,
            Resource::Clay => 1,
            Resource::Obsidian => 2,
            Resource::Geode => 3,
        }
    }

    pub fn idx(&self) -> (i: usize)
        ensures
            i == self.index(),
            i < 4,
    {
        match self {
            Resource::Ore => 0,
            Resource::Clay => 1,
            Resource::Obsidian => 2,
            Resource::Geode => 3,
        }
    }

    /// The kinds in their fixed order: base, secondary, tertiary, target.
    pub fn all() -> (kinds: [Resource; 4])
        ensures
            forall|i: int| 0 <= i < 4 ==> (#[trigger] kinds[i]).index() == i,
    {
        [Resource::Ore, Resource::Clay, Resource::Obsidian, Resource::Geode]
    }
}

pub open spec fn max2(a: int, b: int) -> int {
    if a >= b {
        a
    } else {
        b
    }
}

/// The number of pairs among `t` steps: `t * (t - 1) / 2`.
pub open spec fn triangle(t: int) -> int {
    t * (t - 1) / 2
}

/// The least whole `w` with `w * b >= a`, for positive `b`.
pub open spec fn ceil_div(a: int, b: int) -> int {
    (a + b - 1) / b
}

/// The cost table: what each kind of robot takes to build.
pub struct Blueprint {
    id: usize,
    robot: [[Count; 4]; 4],
    max_robots: [Count; 4],
}

impl Blueprint {
    /// The number by which a blueprint's score is weighted.
    pub closed spec fn ident(&self) -> int {
        self.id as int
    }

    /// What a robot of kind `k` costs in resource `r`.
    pub closed spec fn cost_of(&self, k: int, r: int) -> int {
        self.robot[k][r] as int
    }

    /// The largest amount of resource `r` that building one robot takes.
    pub open spec fn largest_cost(&self, r: int) -> int {
        max2(
            max2(self.cost_of(0, r), self.cost_of(1, r)),
            max2(self.cost_of(2, r), self.cost_of(3, r)),
        )
    }

    /// How many robots of kind `r` are ever useful; `None` for the target
    /// kind, of which more are always useful.
    pub open spec fn cap(&self, r: int) -> Option<int> {
        if r == target() {
            None
        } else {
            Some(self.largest_cost(r))
        }
    }

    /// What the six costs of a blueprint's fixed shape say of the table.
    pub open spec fn has_costs(
        &self,
        ore_ore: int,
        clay_ore: int,
        obsidian_ore: int,
        obsidian_clay: int,
        geode_ore: int,
        geode_obsidian: int,
    ) -> bool {
        &&& self.cost_of(0, 0) == ore_ore
        &&& self.cost_of(1, 0) == clay_ore
        &&& self.cost_of(2, 0) == obsidian_ore
        &&& self.cost_of(2, 1) == obsidian_clay
        &&& self.cost_of(3, 0) == geode_ore
        &&& self.cost_of(3, 2) == geode_obsidian
    }

    /// The fixed shape of a blueprint: each robot is paid in the base
    /// resource, and in the resource one step below its own kind.
    pub open spec fn chain_shaped(&self) -> bool {
        &&& self.cost_of(0, 1) == 0 && self.cost_of(0, 2) == 0 && self.cost_of(0, 3) == 0
        &&& self.cost_of(1, 1) == 0 && self.cost_of(1, 2) == 0 && self.cost_of(1, 3) == 0
        &&& self.cost_of(2, 2) == 0 && self.cost_of(2, 3) == 0
        &&& self.cost_of(3, 1) == 0 && self.cost_of(3, 3) == 0
    }

    /// Validity: the table has the fixed shape, and the stored caps are the
    /// ones derived from it.
    pub closed spec fn wf(&self) -> bool {
        &&& self.chain_shaped()
        &&& self.max_robots[0] as int == self.largest_cost(0)
        &&& self.max_robots[1] as int == self.largest_cost(1)
        &&& self.max_robots[2] as int == self.largest_cost(2)
        &&& self.max_robots[3] == Count::MAX
    }

    /// In a valid blueprint no cost is negative and the shape holds.
    pub proof fn lemma_wf(&self)
        requires
            self.wf(),
        ensures
            self.chain_shaped(),
            forall|k: int, r: int| 0 <= k < 4 && 0 <= r < 4 ==> 0 <= #[trigger] self.cost_of(k, r),
    {
    }

    /// A blueprint from its number and the six costs of the fixed shape.
    pub fn new(
        id: usize,
        ore_ore: Count,
        clay_ore: Count,
        obsidian_ore: Count,
        obsidian_clay: Count,
        geode_ore: Count,
        geode_obsidian: Count,
    ) -> (bp: Blueprint)
        ensures
            bp.wf(),
            bp.ident() == id,
            bp.has_costs(
                ore_ore as int,
                clay_ore as int,
                obsidian_ore as int,
                obsidian_clay as int,
                geode_ore as int,
                geode_obsidian as int,
            ),
    {
        let robot: [[Count; 4]; 4] = [
            [ore_ore, 0, 0, 0],
            [clay_ore, 0, 0, 0],
            [obsidian_ore, obsidian_clay, 0, 0],
            [geode_ore, 0, geode_obsidian, 0],
        ];
        let ore_cap = largest(largest(ore_ore, clay_ore), largest(obsidian_ore, geode_ore));
        let max_robots: [Count; 4] = [ore_cap, obsidian_clay, geode_obsidian, Count::MAX];
        Blueprint { id, robot, max_robots }
    }

    pub fn id(&self) -> (id: usize)
        ensures
            id == self.ident(),
    {
        self.id
    }

    /// The amount of `resource` that one robot of kind `robot` costs.
    pub fn cost(&self, robot: Resource, resource: Resource) -> (c: Count)
        ensures
            c == self.cost_of(robot.index(), resource.index()),
    {
        self.robot[robot.idx()][resource.idx()]
    }

    /// The number of robots of a kind beyond which one more is useless;
    /// `None` where there is no such number.
    pub fn max_useful(&self, resource: Resource) -> (m: Option<Count>)
        requires
            self.wf(),
        ensures
            match m {
                Some(c) => self.cap(resource.index()) == Some(c as int),
                None => self.cap(resource.index()).is_none(),
            },
    {
        match resource {
            Resource::Geode => None,
            _ => Some(self.max_robots[resource.idx()]),
        }
    }
}

/// The larger of two counts.
pub fn largest(a: Count, b: Count) -> (m: Count)
    ensures
        m == max2(a as int, b as int),
{
    if a >= b {
        a
    } else {
        b
    }
}

/// A state of the search as the rules see it: unbounded integers.
pub struct StateView {
    pub time: int,
    pub stock: Seq<int>,
    pub robots: Seq<int>,
}

impl StateView {
    /// Four kinds, and nothing negative.
    pub open spec fn valid(self) -> bool {
        &&& self.time >= 0
        &&& self.stock.len() == 4
        &&& self.robots.len() == 4
        &&& forall|r: int| 0 <= r < 4 ==> 0 <= #[trigger] self.stock[r]
        &&& forall|r: int| 0 <= r < 4 ==> 0 <= #[trigger] self.robots[r]
    }

    /// What the stock of `r` would be at the end if one more robot of kind
    /// `r` came with every step from now on. No transition raises it.
    pub open spec fn potential(self, r: int) -> int {
        self.stock[r] + self.robots[r] * self.time + triangle(self.time)
    }

    /// Every quantity that the search computes from this state fits `Count`.
    pub open spec fn fits(self) -> bool {
        &&& self.valid()
        &&& self.potential(0) <= Count::MAX
        &&& self.potential(1) <= Count::MAX
        &&& self.potential(2) <= Count::MAX
        &&& self.potential(3) <= Count::MAX
    }
}

/// The state in which a search over `time` steps starts: nothing in stock,
/// one robot for the base resource.
pub open spec fn root(time: int) -> StateView {
    StateView { time, stock: seq![0, 0, 0, 0], robots: seq![1, 0, 0, 0] }
}

/// How long to wait until the stock of `r` pays for a robot of kind `k`;
/// `None` where it never will.
pub open spec fn wait_for(s: StateView, bp: &Blueprint, k: int, r: int) -> Option<int> {
    if s.stock[r] >= bp.cost_of(k, r) {
        Some(0)
    } else if s.robots[r] <= 0 {
        None
    } else {
        Some(ceil_div(bp.cost_of(k, r) - s.stock[r], s.robots[r]))
    }
}

/// The steps to wait before a robot of kind `k` can be paid for: the longest
/// wait over the four resources. `None` where one of them is never enough.
pub open spec fn idle_time(s: StateView, bp: &Blueprint, k: int) -> Option<int> {
    if wait_for(s, bp, k, 0).is_some() && wait_for(s, bp, k, 1).is_some() && wait_for(
        s,
        bp,
        k,
        2,
    ).is_some() && wait_for(s, bp, k, 3).is_some() {
        Some(
            max2(
                max2(
                    max2(0, wait_for(s, bp, k, 0).unwrap()),
                    max2(wait_for(s, bp, k, 1).unwrap(), wait_for(s, bp, k, 2).unwrap()),
                ),
                wait_for(s, bp, k, 3).unwrap(),
            ),
        )
    } else {
        None
    }
}

/// A robot of kind `k` can be paid for and finished before the time is up.
pub open spec fn payable(s: StateView, bp: &Blueprint, k: int) -> bool {
    idle_time(s, bp, k).is_some() && idle_time(s, bp, k).unwrap() + 1 < s.time
}

/// There are already as many robots of kind `k` as are ever useful.
pub open spec fn saturated(s: StateView, bp: &Blueprint, k: int) -> bool {
    match bp.cap(k) {
        Some(m) => s.robots[k] >= m,
        None => false,
    }
}

/// Building a robot of kind `k` next is a move of the search.
pub open spec fn candidate(s: StateView, bp: &Blueprint, k: int) -> bool {
    s.time > 1 && !saturated(s, bp, k) && payable(s, bp, k)
}

/// The state after `minutes` steps in which nothing is built.
pub open spec fn gathered(s: StateView, minutes: int) -> StateView {
    StateView {
        time: s.time - minutes,
        stock: Seq::new(4, |r: int| s.stock[r] + s.robots[r] * minutes),
        robots: s.robots,
    }
}

/// The state after waiting for, paying and building a robot of kind `k`.
pub open spec fn build(s: StateView, bp: &Blueprint, k: int) -> StateView {
    let spent = idle_time(s, bp, k).unwrap() + 1;
    StateView {
        time: s.time - spent,
        stock: Seq::new(4, |r: int| s.stock[r] + s.robots[r] * spent - bp.cost_of(k, r)),
        robots: s.robots.update(k, s.robots[k] + 1),
    }
}

/// The state after idling for all the time that is left.
pub open spec fn idle(s: StateView) -> StateView {
    gathered(s, s.time)
}

/// The states that building one robot of the first `n` kinds leads to.
pub open spec fn built_states(s: StateView, bp: &Blueprint, n: int) -> Seq<StateView>
    decreases n,
{
    if n <= 0 {
        Seq::empty()
    } else if candidate(s, bp, n - 1) {
        built_states(s, bp, n - 1).push(build(s, bp, n - 1))
    } else {
        built_states(s, bp, n - 1)
    }
}

/// The successors of a state: one for each robot that is a move; where there
/// is no move, the single state reached by idling to the end.
pub open spec fn successors(s: StateView, bp: &Blueprint) -> Seq<StateView> {
    if built_states(s, bp, 4).len() == 0 {
        seq![idle(s)]
    } else {
        built_states(s, bp, 4)
    }
}

/// The bound on what a state can still reach: the target resource's
/// potential.
pub open spec fn limit_of(s: StateView) -> int {
    s.potential(target())
}

/// The largest final stock of the target resource over all the ways to play
/// on from `s`.
pub open spec fn best_from(s: StateView, bp: &Blueprint) -> int
    decreases s.time, 1int, 0nat,
{
    if s.time <= 0 {
        s.stock[target()]
    } else {
        best_among(successors(s, bp), bp, s.time)
    }
}

/// The largest `best_from` over the states of `xs` that have a time left of
/// at least 0 and less than `bound`, and 0 where there is none.
pub open spec fn best_among(xs: Seq<StateView>, bp: &Blueprint, bound: int) -> int
    decreases bound, 0int, xs.len(),
{
    if xs.len() == 0 {
        0
    } else if 0 <= xs.last().time < bound {
        max2(best_from(xs.last(), bp), best_among(xs.drop_last(), bp, bound))
    } else {
        best_among(xs.drop_last(), bp, bound)
    }
}

/// The best score of a blueprint over `time` steps.
pub open spec fn optimum(bp: &Blueprint, time: int) -> int {
    best_from(root(time), bp)
}

/// A state of the search.
#[derive(Clone, Copy, Debug)]
pub struct State {
    pub remaining_time: Count,
    pub stock: [Count; 4],
    pub robots: [Count; 4],
}

impl View for State {
    type V = StateView;

    open spec fn view(&self) -> StateView {
        StateView {
            time: self.remaining_time as int,
            stock: Seq::new(4, |r: int| self.stock[r] as int),
            robots: Seq::new(4, |r: int| self.robots[r] as int),
        }
    }
}

/// The views of a sequence of states, in order.
pub open spec fn views(xs: Seq<State>) -> Seq<StateView> {
    xs.map_values(|x: State| x@)
}

/// What rounding a quotient up gives: the least multiple that is enough.
pub proof fn lemma_ceil_div(a: int, b: int)
    requires
        a > 0,
        b > 0,
    ensures
        ceil_div(a, b) >= 1,
        ceil_div(a, b) * b >= a,
        (ceil_div(a, b) - 1) * b < a,
        ceil_div(a, b) <= a,
{
    let q = (a + b - 1) / b;
    let m = (a + b - 1) % b;
    assert(a + b - 1 == q * b + m && 0 <= m < b) by (nonlinear_arith)
        requires
            b > 0,
            q == (a + b - 1) / b,
            m == (a + b - 1) % b,
    ;
    assert(q >= 1 && q * b >= a && (q - 1) * b < a && q <= a) by (nonlinear_arith)
        requires
            a > 0,
            b > 0,
            a + b - 1 == q * b + m,
            0 <= m < b,
    ;
}

/// `triangle` grows by `t` from `t` to `t + 1`, and never falls.
pub proof fn lemma_triangle(a: int, b: int)
    requires
        0 <= a <= b,
    ensures
        triangle(a + 1) == triangle(a) + a,
        0 <= triangle(a) <= triangle(b),
    decreases b - a,
{
    assert(triangle(a + 1) == triangle(a) + a) by (nonlinear_arith);
    assert(0 <= triangle(a)) by (nonlinear_arith)
        requires
            0 <= a,
    ;
    if a < b {
        lemma_triangle(a + 1, b);
    }
}

/// Every wait is a count of steps: none is negative, and after it the stock
/// pays for the robot.
pub proof fn lemma_wait_for(s: StateView, bp: &Blueprint, k: int, r: int)
    requires
        s.valid(),
        0 <= k < 4,
        0 <= r < 4,
        wait_for(s, bp, k, r).is_some(),
    ensures
        0 <= wait_for(s, bp, k, r).unwrap(),
        wait_for(s, bp, k, r).unwrap() <= max2(0, bp.cost_of(k, r)),
        s.stock[r] + s.robots[r] * wait_for(s, bp, k, r).unwrap() >= bp.cost_of(k, r),
{
    if s.stock[r] < bp.cost_of(k, r) {
        lemma_ceil_div(bp.cost_of(k, r) - s.stock[r], s.robots[r]);
        let w = ceil_div(bp.cost_of(k, r) - s.stock[r], s.robots[r]);
        assert(s.robots[r] * w == w * s.robots[r]) by (nonlinear_arith);
    }
}

/// Building a robot takes at least one step, leaves at least one, keeps
/// every stock at 0 or above, and raises no resource's potential.
pub proof fn lemma_build(s: StateView, bp: &Blueprint, k: int)
    requires
        s.valid(),
        0 <= k < 4,
        payable(s, bp, k),
    ensures
        build(s, bp, k).valid(),
        1 <= build(s, bp, k).time < s.time,
        forall|r: int| 0 <= r < 4 ==> build(s, bp, k).potential(r) <= #[trigger] s.potential(r),
        build(s, bp, k).stock[target()] + bp.cost_of(k, target()) >= s.stock[target()]
            + s.robots[target()] * (s.time - build(s, bp, k).time),
        build(s, bp, k).robots[target()] >= s.robots[target()],
{
    let n = build(s, bp, k);
    let idle = idle_time(s, bp, k).unwrap();
    let spent = idle + 1;
    lemma_wait_for(s, bp, k, 0);
    lemma_wait_for(s, bp, k, 1);
    lemma_wait_for(s, bp, k, 2);
    lemma_wait_for(s, bp, k, 3);
    assert forall|r: int| 0 <= r < 4 implies 0 <= #[trigger] n.stock[r] by {
        lemma_wait_for(s, bp, k, r);
        let w = wait_for(s, bp, k, r).unwrap();
        assert(s.robots[r] * w <= s.robots[r] * spent) by (nonlinear_arith)
            requires
                0 <= s.robots[r],
                w <= spent,
        ;
    }
    assert forall|r: int| 0 <= r < 4 implies n.potential(r) <= #[trigger] s.potential(r) by {
        lemma_triangle(n.time, s.time - 1);
        lemma_triangle(s.time - 1, s.time - 1);
        let extra = n.robots[r] - s.robots[r];
        assert(0 <= extra <= 1);
        assert(n.robots[r] * n.time == s.robots[r] * n.time + extra * n.time)
            by (nonlinear_arith)
            requires
                n.robots[r] == s.robots[r] + extra,
        ;
        assert(extra * n.time <= n.time) by (nonlinear_arith)
            requires
                0 <= extra <= 1,
                0 <= n.time,
        ;
        assert(s.robots[r] * spent + s.robots[r] * n.time == s.robots[r] * s.time)
            by (nonlinear_arith)
            requires
                spent + n.time == s.time,
        ;
        lemma_nonneg_cost(bp, k, r);
    }
    assert(s.robots[target()] * spent == s.robots[target()] * (s.time - n.time));
}

/// No cost is negative.
pub proof fn lemma_nonneg_cost(bp: &Blueprint, k: int, r: int)
    requires
        0 <= k < 4,
        0 <= r < 4,
    ensures
        0 <= bp.cost_of(k, r) <= Count::MAX,
{
}

/// Idling to the end keeps every stock at 0 or above and raises no
/// resource's potential.
pub proof fn lemma_gathered(s: StateView, minutes: int)
    requires
        s.valid(),
        0 <= minutes <= s.time,
    ensures
        gathered(s, minutes).valid(),
        gathered(s, minutes).time == s.time - minutes,
        forall|r: int|
            0 <= r < 4 ==> gathered(s, minutes).potential(r) <= #[trigger] s.potential(r),
        s.fits() ==> gathered(s, minutes).fits(),
{
    let n = gathered(s, minutes);
    assert forall|r: int| 0 <= r < 4 implies 0 <= #[trigger] n.stock[r] by {
        assert(0 <= s.robots[r] * minutes) by (nonlinear_arith)
            requires
                0 <= s.robots[r],
                0 <= minutes,
        ;
    }
    assert forall|r: int| 0 <= r < 4 implies n.potential(r) <= #[trigger] s.potential(r) by {
        lemma_triangle(n.time, s.time);
        assert(s.robots[r] * minutes + s.robots[r] * n.time == s.robots[r] * s.time)
            by (nonlinear_arith)
            requires
                minutes + n.time == s.time,
        ;
    }
    if s.fits() {
        assert(n.potential(0) <= s.potential(0));
        assert(n.potential(1) <= s.potential(1));
        assert(n.potential(2) <= s.potential(2));
        assert(n.potential(3) <= s.potential(3));
    }
}

impl State {
    /// The state in which the search starts.
    pub fn new(time: Count) -> (s: State)
        ensures
            s@ == root(time as int),
    {
        let stock: [Count; 4] = [0; 4];
        let mut robots: [Count; 4] = [0; 4];
        robots[0] = 1;
        let s = State { remaining_time: time, stock, robots };
        assert(s@.stock =~= root(time as int).stock);
        assert(s@.robots =~= root(time as int).robots);
        s
    }

    /// Lets `minutes` steps pass without building: every robot adds one unit
    /// of its resource per step.
    pub fn gather(&mut self, minutes: Count)
        requires
            old(self)@.fits(),
            minutes <= old(self).remaining_time,
        ensures
            final(self)@ == gathered(old(self)@, minutes as int),
            final(self)@.fits(),
    {
        proof {
            lemma_gathered(self@, minutes as int);
            let n = gathered(self@, minutes as int);
            assert(n.fits());
            lemma_triangle(n.time, n.time);
            assert forall|r: int| 0 <= r < 4 implies #[trigger] n.stock[r] <= Count::MAX by {
                assert(0 <= n.robots[r] * n.time) by (nonlinear_arith)
                    requires
                        0 <= n.robots[r],
                        0 <= n.time,
                ;
                assert(n.stock[r] <= n.potential(r));
            }
            assert(n.stock[0] == self.stock[0] + self.robots[0] * minutes);
            assert(n.stock[1] == self.stock[1] + self.robots[1] * minutes);
            assert(n.stock[2] == self.stock[2] + self.robots[2] * minutes);
            assert(n.stock[3] == self.stock[3] + self.robots[3] * minutes);
        }
        let ghost before = self@;
        self.remaining_time = self.remaining_time - minutes;
        self.stock[0] = self.stock[0] + self.robots[0] * minutes;
        self.stock[1] = self.stock[1] + self.robots[1] * minutes;
        self.stock[2] = self.stock[2] + self.robots[2] * minutes;
        self.stock[3] = self.stock[3] + self.robots[3] * minutes;
        proof {
            assert(self@.stock =~= gathered(before, minutes as int).stock);
            assert(self@.robots =~= gathered(before, minutes as int).robots);
        }
    }

    /// The wait for one resource: the steps until the stock of `r` pays for
    /// a robot of kind `k`.
    fn wait(&self, k: usize, r: usize, blueprint: &Blueprint) -> (w: Option<Count>)
        requires
            k < 4,
            r < 4,
        ensures
            w.is_some() == wait_for(self@, blueprint, k as int, r as int).is_some(),
            w matches Some(x) ==> x as int == wait_for(
                self@,
                blueprint,
                k as int,
                r as int,
            ).unwrap(),
    {
        let cost = blueprint.robot[k][r];
        if self.stock[r] >= cost {
            Some(0)
        } else if self.robots[r] == 0 {
            None
        } else {
            let needed: u32 = (cost - self.stock[r]) as u32;
            let rate: u32 = self.robots[r] as u32;
            proof {
                lemma_ceil_div(needed as int, rate as int);
            }
            let steps: u32 = (needed + rate - 1) / rate;
            Some(steps as Count)
        }
    }

    /// The state after building a robot of the given kind next, waiting for
    /// the resources first; `None` where they never suffice or the time
    /// runs out before the robot is built.
    pub fn can_build(&self, robot: Resource, blueprint: &Blueprint) -> (r: Option<State>)
        requires
            self@.fits(),
        ensures
            r.is_some() == payable(self@, blueprint, robot.index()),
            r matches Some(n) ==> n@ == build(self@, blueprint, robot.index()) && n@.fits(),
    {
        let k = robot.idx();
        let w0 = self.wait(k, 0, blueprint);
        let w1 = self.wait(k, 1, blueprint);
        let w2 = self.wait(k, 2, blueprint);
        let w3 = self.wait(k, 3, blueprint);
        if w0.is_none() || w1.is_none() || w2.is_none() || w3.is_none() {
            return None;
        }
        let idle = largest(
            largest(w0.unwrap(), w1.unwrap()),
            largest(w2.unwrap(), w3.unwrap()),
        );
        assert(idle as int == idle_time(self@, blueprint, k as int).unwrap());
        if idle >= self.remaining_time || idle + 1 >= self.remaining_time {
            return None;
        }
        let spent: Count = idle + 1;
        let ghost n = build(self@, blueprint, k as int);
        proof {
            lemma_build(self@, blueprint, k as int);
            lemma_gathered(self@, spent as int);
            assert(n.potential(0) <= self@.potential(0));
            assert(n.potential(1) <= self@.potential(1));
            assert(n.potential(2) <= self@.potential(2));
            assert(n.potential(3) <= self@.potential(3));
            assert(n.fits());
            lemma_triangle(n.time, n.time);
            assert(n.robots[k as int] * n.time >= n.robots[k as int]) by (nonlinear_arith)
                requires
                    n.time >= 1,
                    n.robots[k as int] >= 0,
            ;
            assert(n.stock[k as int] >= 0);
            assert(n.robots[k as int] <= n.potential(k as int));
        }
        let mut new_state = *self;
        new_state.gather(spent);
        proof {
            assert forall|r: int| 0 <= r < 4 implies #[trigger] new_state@.stock[r] == n.stock[r]
                + blueprint.cost_of(k as int, r) by {}
            assert(n.stock[0] >= 0 && n.stock[1] >= 0 && n.stock[2] >= 0 && n.stock[3] >= 0);
        }
        new_state.stock[0] = new_state.stock[0] - blueprint.robot[k][0];
        new_state.stock[1] = new_state.stock[1] - blueprint.robot[k][1];
        new_state.stock[2] = new_state.stock[2] - blueprint.robot[k][2];
        new_state.stock[3] = new_state.stock[3] - blueprint.robot[k][3];
        new_state.robots[k] = new_state.robots[k] + 1;
        proof {
            assert(new_state@.stock =~= n.stock);
            assert(new_state@.robots =~= n.robots);
        }
        Some(new_state)
    }

    /// The states to go on with: one for each robot that can still be built
    /// and is worth building, in the order of the kinds; where there is
    /// none, the one state reached by idling to the end.
    pub fn next(&self, blueprint: &Blueprint) -> (result: Vec<State>)
        requires
            self@.fits(),
            blueprint.wf(),
        ensures
            views(result@) == successors(self@, blueprint),
            forall|i: int| 0 <= i < result.len() ==> (#[trigger] result[i])@.fits(),
    {
        let mut result: Vec<State> = Vec::new();
        let kinds = Resource::all();
        let mut i: usize = 0;
        assert(views(result@) =~= built_states(self@, blueprint, 0));
        while i < 4
            invariant
                i <= 4,
                self@.fits(),
                blueprint.wf(),
                forall|j: int| 0 <= j < 4 ==> (#[trigger] kinds[j]).index() == j,
                views(result@) == built_states(self@, blueprint, i as int),
                forall|j: int| 0 <= j < result.len() ==> (#[trigger] result[j])@.fits(),
            decreases 4 - i,
        {
            let robot = kinds[i];
            let useful = match blueprint.max_useful(robot) {
                Some(m) => self.robots[i] < m,
                None => true,
            };
            assert(useful == !saturated(self@, blueprint, i as int));
            if self.remaining_time > 1 && useful {
                if let Some(new_state) = self.can_build(robot, blueprint) {
                    let ghost before = result@;
                    result.push(new_state);
                    assert(views(result@) =~= views(before).push(new_state@));
                }
            }
            i += 1;
        }
        if result.len() == 0 {
            let mut sit_around = *self;
            sit_around.gather(self.remaining_time);
            result.push(sit_around);
            assert(views(result@) =~= seq![idle(self@)]);
        }
        result
    }

    /// An upper bound on the target stock that any play from this state
    /// ends with: what there is, what the robots at hand will add, and what
    /// one more robot with every step would add.
    pub fn limit(&self, blueprint: &Blueprint) -> (bound: Count)
        requires
            self@.fits(),
        ensures
            bound == limit_of(self@),
            best_from(self@, blueprint) <= bound,
    {
        proof {
            lemma_limit_admissible(self@, blueprint);
            lemma_triangle(self@.time, self@.time);
            assert(0 <= self@.robots[3] * self@.time) by (nonlinear_arith)
                requires
                    0 <= self@.robots[3],
                    0 <= self@.time,
            ;
        }
        if self.remaining_time == 0 {
            assert(triangle(0) == 0);
            assert(self@.robots[3] * 0 == 0);
            self.stock[3]
        } else {
            let t: u64 = self.remaining_time as u64;
            assert(t * (t - 1) <= 0xffff * 0xffff) by (nonlinear_arith)
                requires
                    1 <= t <= 0xffff,
            ;
            assert(self.robots[3] as u64 * t <= 0xffff * 0xffff) by (nonlinear_arith)
                requires
                    self.robots[3] <= 0xffff,
                    t <= 0xffff,
            ;
            let total: u64 = self.stock[3] as u64 + self.robots[3] as u64 * t + t * (t - 1) / 2;
            assert(t * (t - 1) / 2 == triangle(self@.time));
            assert(total == limit_of(self@));
            total as Count
        }
    }
}

/// A successor lies below its state: it is valid, has less time left, and
/// no resource's potential is higher.
pub open spec fn descends(s: StateView, x: StateView) -> bool {
    &&& x.valid()
    &&& 0 <= x.time < s.time
    &&& x.potential(0) <= s.potential(0)
    &&& x.potential(1) <= s.potential(1)
    &&& x.potential(2) <= s.potential(2)
    &&& x.potential(3) <= s.potential(3)
}

proof fn lemma_built_states(s: StateView, bp: &Blueprint, n: int)
    requires
        s.valid(),
        0 <= n <= 4,
    ensures
        built_states(s, bp, n).len() <= n,
        forall|i: int|
            0 <= i < built_states(s, bp, n).len() ==> descends(
                s,
                #[trigger] built_states(s, bp, n)[i],
            ),
    decreases n,
{
    if n > 0 {
        lemma_built_states(s, bp, n - 1);
        if candidate(s, bp, n - 1) {
            lemma_build(s, bp, n - 1);
            let x = build(s, bp, n - 1);
            assert(x.potential(0) <= s.potential(0));
            assert(x.potential(1) <= s.potential(1));
            assert(x.potential(2) <= s.potential(2));
            assert(x.potential(3) <= s.potential(3));
        }
    }
}

/// Every state with time left has between one and four successors, and
/// each lies below it: the time left falls, no stock is negative, and no
/// potential rises.
pub proof fn lemma_successors(s: StateView, bp: &Blueprint)
    requires
        s.valid(),
        s.time > 0,
    ensures
        1 <= successors(s, bp).len() <= 4,
        forall|i: int|
            0 <= i < successors(s, bp).len() ==> descends(s, #[trigger] successors(s, bp)[i]),
        s.fits() ==> forall|i: int|
            0 <= i < successors(s, bp).len() ==> (#[trigger] successors(s, bp)[i]).fits(),
{
    lemma_built_states(s, bp, 4);
    lemma_gathered(s, s.time);
    let x = idle(s);
    assert(x.potential(0) <= s.potential(0));
    assert(x.potential(1) <= s.potential(1));
    assert(x.potential(2) <= s.potential(2));
    assert(x.potential(3) <= s.potential(3));
    if s.fits() {
        assert forall|i: int| 0 <= i < successors(s, bp).len() implies (#[trigger] successors(
            s,
            bp,
        )[i]).fits() by {
            assert(descends(s, successors(s, bp)[i]));
        }
    }
}

/// The bound is sound: no play from a state ends with more of the target
/// resource than the state's limit.
pub proof fn lemma_limit_admissible(s: StateView, bp: &Blueprint)
    requires
        s.valid(),
    ensures
        best_from(s, bp) <= limit_of(s),
    decreases s.time, 1int, 0nat,
{
    lemma_triangle(s.time, s.time);
    assert(0 <= s.robots[3] * s.time) by (nonlinear_arith)
        requires
            0 <= s.robots[3],
            0 <= s.time,
    ;
    if s.time > 0 {
        lemma_successors(s, bp);
        lemma_among_admissible(successors(s, bp), bp, s.time, limit_of(s));
    } else {
        assert(triangle(0) == 0);
    }
}

proof fn lemma_among_admissible(xs: Seq<StateView>, bp: &Blueprint, bound: int, cap: int)
    requires
        forall|i: int| 0 <= i < xs.len() ==> (#[trigger] xs[i]).valid() && limit_of(xs[i]) <= cap,
        0 <= cap,
    ensures
        best_among(xs, bp, bound) <= cap,
    decreases bound, 0int, xs.len(),
{
    if xs.len() > 0 {
        assert(xs.last().valid() && limit_of(xs.last()) <= cap);
        if 0 <= xs.last().time < bound {
            lemma_limit_admissible(xs.last(), bp);
        }
        lemma_among_admissible(xs.drop_last(), bp, bound, cap);
    }
}

proof fn lemma_among_nonneg(xs: Seq<StateView>, bp: &Blueprint, bound: int)
    ensures
        0 <= best_among(xs, bp, bound),
    decreases xs.len(),
{
    if xs.len() > 0 {
        lemma_among_nonneg(xs.drop_last(), bp, bound);
    }
}

proof fn lemma_among_concat(a: Seq<StateView>, b: Seq<StateView>, bp: &Blueprint, bound: int)
    ensures
        best_among(a + b, bp, bound) == max2(best_among(a, bp, bound), best_among(b, bp, bound)),
    decreases b.len(),
{
    lemma_among_nonneg(a, bp, bound);
    if b.len() == 0 {
        assert(a + b =~= a);
    } else {
        assert((a + b).drop_last() =~= a + b.drop_last());
        assert((a + b).last() == b.last());
        lemma_among_concat(a, b.drop_last(), bp, bound);
    }
}

proof fn lemma_among_bound(xs: Seq<StateView>, bp: &Blueprint, b1: int, b2: int)
    requires
        forall|i: int| 0 <= i < xs.len() ==> (#[trigger] xs[i]).time < b1 && xs[i].time < b2,
    ensures
        best_among(xs, bp, b1) == best_among(xs, bp, b2),
    decreases xs.len(),
{
    if xs.len() > 0 {
        assert(xs.last().time < b1 && xs.last().time < b2);
        lemma_among_bound(xs.drop_last(), bp, b1, b2);
    }
}

/// The number of states in the largest tree that can hang below a state
/// with `t` steps left.
pub open spec fn node_weight(t: int) -> nat
    decreases t,
{
    if t <= 0 {
        1
    } else {
        1 + 4 * node_weight(t - 1)
    }
}

/// The number of states that a search may still have to visit, given the
/// states that wait.
pub open spec fn frontier_weight(xs: Seq<StateView>) -> nat
    decreases xs.len(),
{
    if xs.len() == 0 {
        0
    } else {
        node_weight(xs.last().time) + frontier_weight(xs.drop_last())
    }
}

proof fn lemma_node_weight(a: int, b: int)
    requires
        a <= b,
    ensures
        node_weight(a) <= node_weight(b),
    decreases b,
{
    if b > 0 && a < b {
        lemma_node_weight(a, b - 1);
    }
}

/// The longest horizon for which every quantity of a search fits `Count`.
pub const MAX_TIME: Count = 361;

/// The horizon of the first mode.
pub const TIME: Count = 24;

/// The horizon of the second mode.
pub const PART2_TIME: Count = 32;

/// The number of blueprints that the second mode looks at.
pub const PART2_PLAN_LIMIT: usize = 3;

/// The start of a search over at most `MAX_TIME` steps fits `Count`.
pub proof fn lemma_root_fits(time: int)
    requires
        0 <= time <= MAX_TIME,
    ensures
        root(time).fits(),
        limit_of(root(time)) == triangle(time),
        triangle(time) <= triangle(MAX_TIME as int),
{
    lemma_triangle(time, MAX_TIME as int);
    assert(triangle(361) == 64980) by (nonlinear_arith);
    let s = root(time);
    assert(s.robots[0] == 1 && s.robots[1] == 0 && s.robots[2] == 0 && s.robots[3] == 0);
    assert(s.robots[0] * s.time == time);
    assert(s.robots[1] * s.time == 0);
    assert(s.robots[2] * s.time == 0);
    assert(s.robots[3] * s.time == 0);
}

/// The most of the target resource that the blueprint yields in `time`
/// steps: a depth-first search of all plays, which leaves out a state when
/// its limit shows that it cannot beat the best play found so far.
pub fn best_score(blueprint: &Blueprint, time: Count) -> (best: Count)
    requires
        blueprint.wf(),
        time <= MAX_TIME,
    ensures
        best == optimum(blueprint, time as int),
{
    let ghost bound = time as int + 1;
    let ghost goal = optimum(blueprint, time as int);
    let mut pending: Vec<State> = Vec::new();
    pending.push(State::new(time));
    let mut best: Count = 0;
    proof {
        lemma_root_fits(time as int);
        let xs = views(pending@);
        assert(xs =~= seq![root(time as int)]);
        assert(xs.drop_last() =~= Seq::<StateView>::empty());
        assert(best_among(xs.drop_last(), blueprint, bound) == 0);
        lemma_limit_admissible(root(time as int), blueprint);
        lemma_best_nonneg(root(time as int), blueprint);
    }
    while pending.len() > 0
        invariant
            blueprint.wf(),
            bound == time + 1,
            goal == optimum(blueprint, time as int),
            forall|i: int|
                0 <= i < pending.len() ==> (#[trigger] pending[i])@.fits()
                    && pending[i].remaining_time <= time,
            max2(best as int, best_among(views(pending@), blueprint, bound)) == goal,
        decreases frontier_weight(views(pending@)),
    {
        let ghost before = views(pending@);
        assert(pending[pending.len() - 1]@.fits() && pending[pending.len() - 1].remaining_time
            <= time);
        let state = pending.pop().unwrap();
        let ghost rest = views(pending@);
        proof {
            assert(rest =~= before.drop_last());
            assert(before.last() == state@);
            assert(best_among(before, blueprint, bound) == max2(
                best_from(state@, blueprint),
                best_among(rest, blueprint, bound),
            ));
        }
        if state.remaining_time == 0 {
            best = largest(best, state.stock[3]);
        } else {
            let next = state.next(blueprint);
            proof {
                lemma_successors(state@, blueprint);
                lemma_among_bound(successors(state@, blueprint), blueprint, state@.time, bound);
                assert(views(next@).subrange(0, next.len() as int) =~= views(next@));
                assert(best_from(state@, blueprint) == best_among(
                    views(next@),
                    blueprint,
                    bound,
                ));
                assert forall|i: int| 0 <= i < next.len() implies descends(
                    state@,
                    (#[trigger] next[i])@,
                ) by {
                    assert(views(next@)[i] == next[i]@);
                    assert(descends(state@, successors(state@, blueprint)[i]));
                }
            }
            let mut j: usize = 0;
            while j < next.len()
                invariant
                    j <= next.len() <= 4,
                    blueprint.wf(),
                    bound == time + 1,
                    state.remaining_time <= time,
                    views(next@) == successors(state@, blueprint),
                    forall|i: int|
                        0 <= i < next.len() ==> (#[trigger] next[i])@.fits() && descends(
                            state@,
                            next[i]@,
                        ),
                    forall|i: int|
                        0 <= i < pending.len() ==> (#[trigger] pending[i])@.fits()
                            && pending[i].remaining_time <= time,
                    max2(
                        best as int,
                        max2(
                            best_among(views(pending@), blueprint, bound),
                            best_among(
                                views(next@).subrange(j as int, next.len() as int),
                                blueprint,
                                bound,
                            ),
                        ),
                    ) == goal,
                    frontier_weight(views(pending@)) <= frontier_weight(rest) + j * node_weight(
                        state@.time - 1,
                    ),
                decreases next.len() - j,
            {
                let successor = next[j];
                let ghost held = views(pending@);
                let ghost ahead = views(next@).subrange(j as int, next.len() as int);
                let ghost later = views(next@).subrange(j as int + 1, next.len() as int);
                proof {
                    let one = seq![successor@];
                    assert(views(next@)[j as int] == successor@);
                    assert(ahead =~= one + later);
                    lemma_among_concat(one, later, blueprint, bound);
                    assert(one.drop_last() =~= Seq::<StateView>::empty());
                    assert(one.last() == successor@);
                    assert(descends(state@, successor@));
                    assert(0 <= successor@.time < bound);
                    assert(best_among(Seq::<StateView>::empty(), blueprint, bound) == 0);
                    assert(best_among(one, blueprint, bound) == max2(
                        best_from(successor@, blueprint),
                        0,
                    ));
                    lemma_among_nonneg(held, blueprint, bound);
                    lemma_among_nonneg(later, blueprint, bound);
                    lemma_node_weight(successor@.time, state@.time - 1);
                    assert((j + 1) * node_weight(state@.time - 1) == j * node_weight(
                        state@.time - 1,
                    ) + node_weight(state@.time - 1)) by (nonlinear_arith);
                }
                if successor.limit(blueprint) > best {
                    pending.push(successor);
                    proof {
                        assert(views(pending@) =~= held.push(successor@));
                        assert(views(pending@).drop_last() =~= held);
                        assert(views(pending@).last() == successor@);
                        assert(best_among(views(pending@), blueprint, bound) == max2(
                            best_from(successor@, blueprint),
                            best_among(held, blueprint, bound),
                        ));
                    }
                }
                j += 1;
            }
            proof {
                assert(j * node_weight(state@.time - 1) <= 4 * node_weight(state@.time - 1))
                    by (nonlinear_arith)
                    requires
                        j <= 4,
                ;
                assert(views(next@).subrange(j as int, next.len() as int) =~= Seq::<
                    StateView,
                >::empty());
                lemma_among_nonneg(views(pending@), blueprint, bound);
            }
        }
    }
    proof {
        assert(views(pending@) =~= Seq::<StateView>::empty());
    }
    best
}

/// From a valid state no play ends with a negative stock of the target.
pub proof fn lemma_best_nonneg(s: StateView, bp: &Blueprint)
    requires
        s.valid(),
    ensures
        0 <= best_from(s, bp),
{
    if s.time > 0 {
        lemma_among_nonneg(successors(s, bp), bp, s.time);
    }
}

/// The sum over the blueprints of number times best score.
pub open spec fn quality_sum(bps: Seq<Blueprint>, time: int) -> int
    decreases bps.len(),
{
    if bps.len() == 0 {
        0
    } else {
        quality_sum(bps.drop_last(), time) + bps.last().ident() * optimum(&bps.last(), time)
    }
}

/// The sum of the blueprints' numbers.
pub open spec fn id_sum(bps: Seq<Blueprint>) -> int
    decreases bps.len(),
{
    if bps.len() == 0 {
        0
    } else {
        id_sum(bps.drop_last()) + bps.last().ident()
    }
}

/// The product of the blueprints' best scores.
pub open spec fn score_product(bps: Seq<Blueprint>, time: int) -> int
    decreases bps.len(),
{
    if bps.len() == 0 {
        1
    } else {
        score_product(bps.drop_last(), time) * optimum(&bps.last(), time)
    }
}

proof fn lemma_id_sum_prefix(bps: Seq<Blueprint>, n: int)
    requires
        0 <= n <= bps.len(),
    ensures
        0 <= id_sum(bps.take(n)) <= id_sum(bps),
    decreases bps.len() - n,
{
    if n < bps.len() {
        lemma_id_sum_prefix(bps, n + 1);
        assert(bps.take(n + 1).drop_last() =~= bps.take(n));
        lemma_id_sum_nonneg(bps.take(n));
    } else {
        assert(bps.take(n) =~= bps);
        lemma_id_sum_nonneg(bps);
    }
}

proof fn lemma_id_sum_nonneg(bps: Seq<Blueprint>)
    ensures
        0 <= id_sum(bps),
    decreases bps.len(),
{
    if bps.len() > 0 {
        lemma_id_sum_nonneg(bps.drop_last());
    }
}

/// The first mode: over all blueprints, the sum of number times best score
/// in `TIME` steps.
pub fn part1(input: &Vec<Blueprint>) -> (total: usize)
    requires
        forall|i: int| 0 <= i < input.len() ==> (#[trigger] input[i]).wf(),
        id_sum(input@) * 276 <= usize::MAX,
    ensures
        total == quality_sum(input@, TIME as int),
{
    let mut total: usize = 0;
    let mut i: usize = 0;
    assert(input@.take(0) =~= Seq::<Blueprint>::empty());
    while i < input.len()
        invariant
            i <= input.len(),
            forall|j: int| 0 <= j < input.len() ==> (#[trigger] input[j]).wf(),
            id_sum(input@) * 276 <= usize::MAX,
            total == quality_sum(input@.take(i as int), TIME as int),
            total <= id_sum(input@.take(i as int)) * 276,
        decreases input.len() - i,
    {
        let bp = &input[i];
        let score = best_score(bp, TIME);
        proof {
            let upto = input@.take(i as int + 1);
            assert(upto.drop_last() =~= input@.take(i as int));
            assert(upto.last() == input@[i as int]);
            lemma_id_sum_prefix(input@, i as int + 1);
            lemma_root_fits(TIME as int);
            lemma_limit_admissible(root(TIME as int), bp);
            assert(triangle(24) == 276) by (nonlinear_arith);
            assert(bp.ident() * score <= bp.ident() * 276) by (nonlinear_arith)
                requires
                    0 <= bp.ident(),
                    score <= 276,
            ;
            assert(id_sum(upto) * 276 == id_sum(input@.take(i as int)) * 276 + bp.ident() * 276)
                by (nonlinear_arith)
                requires
                    id_sum(upto) == id_sum(input@.take(i as int)) + bp.ident(),
            ;
            assert(id_sum(upto) * 276 <= id_sum(input@) * 276) by (nonlinear_arith)
                requires
                    id_sum(upto) <= id_sum(input@),
            ;
        }
        total = total + bp.id() * (score as usize);
        i += 1;
    }
    assert(input@.take(i as int) =~= input@);
    total
}

/// The largest product that the best scores of `n` blueprints can have in
/// `PART2_TIME` steps.
pub open spec fn product_bound(n: int) -> int {
    if n <= 0 {
        1
    } else if n == 1 {
        496
    } else if n == 2 {
        246016
    } else {
        122023936
    }
}

/// The second mode: the product of the best scores in `PART2_TIME` steps of
/// the first `PART2_PLAN_LIMIT` blueprints, or of all where there are fewer.
pub fn part2(input: &Vec<Blueprint>) -> (product: usize)
    requires
        forall|i: int| 0 <= i < input.len() ==> (#[trigger] input[i]).wf(),
    ensures
        product == score_product(
            input@.take(
                if input.len() < PART2_PLAN_LIMIT {
                    input.len() as int
                } else {
                    PART2_PLAN_LIMIT as int
                },
            ),
            PART2_TIME as int,
        ),
{
    let count = if input.len() < PART2_PLAN_LIMIT {
        input.len()
    } else {
        PART2_PLAN_LIMIT
    };
    let mut product: usize = 1;
    let mut i: usize = 0;
    assert(input@.take(0) =~= Seq::<Blueprint>::empty());
    while i < count
        invariant
            i <= count <= input.len(),
            count <= 3,
            forall|j: int| 0 <= j < input.len() ==> (#[trigger] input[j]).wf(),
            product == score_product(input@.take(i as int), PART2_TIME as int),
            0 <= product <= product_bound(i as int),
        decreases count - i,
    {
        let bp = &input[i];
        let score = best_score(bp, PART2_TIME);
        proof {
            let upto = input@.take(i as int + 1);
            assert(upto.drop_last() =~= input@.take(i as int));
            assert(upto.last() == input@[i as int]);
            lemma_root_fits(PART2_TIME as int);
            lemma_limit_admissible(root(PART2_TIME as int), bp);
            assert(triangle(32) == 496) by (nonlinear_arith);
            assert(product * score <= product_bound(i as int) * 496) by (nonlinear_arith)
                requires
                    0 <= product <= product_bound(i as int),
                    0 <= score <= 496,
            ;
        }
        product = product * (score as usize);
        i += 1;
    }
    product
}

/// Determinism: the best score is a function of the blueprint and the
/// horizon, so two searches over the same inputs give the same result.
pub proof fn lemma_best_score_is_a_function(
    bp: &Blueprint,
    time: Count,
    first: Count,
    second: Count,
)
    requires
        first == optimum(bp, time as int),
        second == optimum(bp, time as int),
    ensures
        first == second,
{
}

/// The stock of the target that a state is sure of: what it has and what
/// its robots add in the time left.
pub open spec fn floor_of(s: StateView) -> int {
    s.stock[target()] + s.robots[target()] * s.time
}

proof fn lemma_built_floor(s: StateView, bp: &Blueprint, n: int)
    requires
        s.valid(),
        bp.chain_shaped(),
        0 <= n <= 4,
        s.time > 0,
    ensures
        built_states(s, bp, n).len() > 0 ==> floor_of(s) <= best_among(
            built_states(s, bp, n),
            bp,
            s.time,
        ),
    decreases s.time, 0int, n,
{
    if n > 0 {
        let k = n - 1;
        if candidate(s, bp, k) {
            let b = build(s, bp, k);
            lemma_build(s, bp, k);
            lemma_floor(b, bp);
            let xs = built_states(s, bp, n);
            assert(xs.last() == b);
            assert(best_among(xs, bp, s.time) >= best_from(b, bp));
            assert(b.robots[3] * b.time >= s.robots[3] * b.time) by (nonlinear_arith)
                requires
                    b.robots[3] >= s.robots[3],
                    b.time >= 0,
            ;
            assert(s.robots[3] * (s.time - b.time) + s.robots[3] * b.time == s.robots[3]
                * s.time) by (nonlinear_arith);
        } else {
            lemma_built_floor(s, bp, k);
        }
    }
}

/// No play ends with less of the target than the state is sure of.
pub proof fn lemma_floor(s: StateView, bp: &Blueprint)
    requires
        s.valid(),
        bp.chain_shaped(),
    ensures
        floor_of(s) <= best_from(s, bp),
    decreases s.time, 1int, 0int,
{
    if s.time > 0 {
        if built_states(s, bp, 4).len() == 0 {
            let xs = seq![idle(s)];
            assert(xs.last() == idle(s));
            assert(idle(s).time == 0);
            assert(best_among(xs, bp, s.time) >= best_from(idle(s), bp));
        } else {
            lemma_built_floor(s, bp, 4);
        }
    } else {
        assert(s.robots[3] * s.time == 0) by (nonlinear_arith)
            requires
                s.time == 0,
        ;
    }
}

/// Whether two states hold the same stock and the same robots.
pub open spec fn same_holdings(a: StateView, b: StateView) -> bool {
    a.stock == b.stock && a.robots == b.robots
}

proof fn lemma_built_later(a: StateView, b: StateView, bp: &Blueprint, n: int)
    requires
        a.valid(),
        b.valid(),
        bp.chain_shaped(),
        same_holdings(a, b),
        0 < a.time <= b.time,
        0 <= n <= 4,
    ensures
        best_among(built_states(a, bp, n), bp, a.time) <= best_among(
            built_states(b, bp, n),
            bp,
            b.time,
        ),
    decreases a.time, 0int, n,
{
    if n > 0 {
        let k = n - 1;
        lemma_built_later(a, b, bp, k);
        if candidate(b, bp, k) {
            lemma_build(b, bp, k);
            assert(built_states(b, bp, n).last() == build(b, bp, k));
            assert(built_states(b, bp, n).drop_last() =~= built_states(b, bp, k));
        }
        if candidate(a, bp, k) {
            assert(candidate(b, bp, k));
            lemma_build(a, bp, k);
            assert(built_states(a, bp, n).last() == build(a, bp, k));
            assert(built_states(a, bp, n).drop_last() =~= built_states(a, bp, k));
            assert(build(a, bp, k).stock =~= build(b, bp, k).stock);
            lemma_later(build(a, bp, k), build(b, bp, k), bp);
        }
    }
}

/// Of two states with the same holdings, the one with more time left ends
/// with at least as much.
pub proof fn lemma_later(a: StateView, b: StateView, bp: &Blueprint)
    requires
        a.valid(),
        b.valid(),
        bp.chain_shaped(),
        same_holdings(a, b),
        a.time <= b.time,
    ensures
        best_from(a, bp) <= best_from(b, bp),
    decreases a.time, 1int, 0int,
{
    lemma_floor(b, bp);
    assert(a.robots[3] * a.time <= b.robots[3] * b.time) by (nonlinear_arith)
        requires
            a.robots[3] == b.robots[3],
            0 <= a.robots[3],
            0 <= a.time <= b.time,
    ;
    if a.time > 0 {
        if built_states(a, bp, 4).len() == 0 {
            let xs = seq![idle(a)];
            assert(xs.last() == idle(a));
            assert(xs.drop_last() =~= Seq::<StateView>::empty());
            assert(best_among(Seq::<StateView>::empty(), bp, a.time) == 0);
            assert(best_among(xs, bp, a.time) == max2(best_from(idle(a), bp), 0));
            lemma_best_nonneg(b, bp);
        } else {
            lemma_built_later(a, b, bp, 4);
            lemma_best_nonneg(b, bp);
            if built_states(b, bp, 4).len() == 0 {
                assert(best_among(built_states(b, bp, 4), bp, b.time) == 0);
            }
        }
    } else {
        assert(a.robots[3] * a.time == 0) by (nonlinear_arith)
            requires
                a.time == 0,
        ;
    }
}

/// More time never hurts: the best score over a longer horizon is at least
/// the best score over a shorter one.
pub proof fn lemma_more_time_never_hurts(bp: &Blueprint, shorter: int, longer: int)
    requires
        bp.wf(),
        0 <= shorter <= longer,
    ensures
        optimum(bp, shorter) <= optimum(bp, longer),
{
    bp.lemma_wf();
    lemma_later(root(shorter), root(longer), bp);
}

/// No stock is ever negative: from a state without a negative quantity,
/// every successor has all four stocks at 0 or above.
pub proof fn lemma_stock_never_negative(s: StateView, bp: &Blueprint, i: int, r: int)
    requires
        s.valid(),
        s.time > 0,
        0 <= i < successors(s, bp).len(),
        0 <= r < 4,
    ensures
        0 <= successors(s, bp)[i].stock[r],
{
    lemma_successors(s, bp);
    assert(descends(s, successors(s, bp)[i]));
}

/// A play: each state but the last has time left, and the next state is one
/// of its successors.
pub open spec fn is_play(p: Seq<StateView>, bp: &Blueprint) -> bool {
    forall|i: int|
        0 <= i < p.len() - 1 ==> (#[trigger] p[i]).time > 0 && successors(p[i], bp).contains(
            p[i + 1],
        )
}

/// Termination: along a play from the start every step takes time, so after
/// `i` transitions at most `horizon - i` steps are left, and no play makes
/// more than `horizon` transitions. A state with time left always has a
/// successor, so a play that cannot go on has reached the end of the time.
pub proof fn lemma_play_ends(p: Seq<StateView>, bp: &Blueprint, horizon: int, i: int)
    requires
        0 <= horizon,
        p.len() > 0,
        p[0] == root(horizon),
        is_play(p, bp),
        0 <= i < p.len(),
    ensures
        p[i].valid(),
        0 <= p[i].time <= horizon - i,
        p.len() <= horizon + 1,
        p[i].time > 0 ==> successors(p[i], bp).len() > 0,
    decreases p.len() - i,
{
    lemma_play_prefix(p, bp, horizon, i);
    lemma_play_prefix(p, bp, horizon, p.len() - 1);
    if p[i].time > 0 {
        lemma_successors(p[i], bp);
    }
}

proof fn lemma_play_prefix(p: Seq<StateView>, bp: &Blueprint, horizon: int, i: int)
    requires
        0 <= horizon,
        p.len() > 0,
        p[0] == root(horizon),
        is_play(p, bp),
        0 <= i < p.len(),
    ensures
        p[i].valid(),
        0 <= p[i].time <= horizon - i,
    decreases i,
{
    if i > 0 {
        lemma_play_prefix(p, bp, horizon, i - 1);
        let s = p[i - 1];
        assert(s.time > 0 && successors(s, bp).contains(p[i - 1 + 1]));
        lemma_successors(s, bp);
        let j = choose|j: int| 0 <= j < successors(s, bp).len() && successors(s, bp)[j] == p[i];
        assert(descends(s, successors(s, bp)[j]));
    }
}

/// What a line of text says of a blueprint: its number and the six costs.
pub struct BlueprintText {
    pub id: int,
    pub ore_ore: int,
    pub clay_ore: int,
    pub obsidian_ore: int,
    pub obsidian_clay: int,
    pub geode_ore: int,
    pub geode_obsidian: int,
}

/// The count that a word writes; `None` where it writes none that fits.
pub open spec fn count_of(word: Seq<u8>) -> Option<int> {
    match natural_of(word) {
        Some(v) => if v <= Count::MAX {
            Some(v as int)
        } else {
            None
        },
        None => None,
    }
}

/// The number that a word writes before its last byte, the colon.
pub open spec fn label_of(word: Seq<u8>) -> Option<int> {
    if word.len() == 0 {
        None
    } else {
        match natural_of(word.drop_last()) {
            Some(v) => if v <= usize::MAX {
                Some(v as int)
            } else {
                None
            },
            None => None,
        }
    }
}

/// What a line says: the number is its second word, and the costs are the
/// words at the places where the sentence of a blueprint has them. `None`
/// where the line is too short or one of these words writes no number.
pub open spec fn parsed_line(line: Seq<u8>) -> Option<BlueprintText> {
    let w = words_of(line);
    if w.len() <= 30 {
        None
    } else if label_of(w[1]).is_some() && count_of(w[6]).is_some() && count_of(w[12]).is_some()
        && count_of(w[18]).is_some() && count_of(w[21]).is_some() && count_of(w[27]).is_some()
        && count_of(w[30]).is_some() {
        Some(
            BlueprintText {
                id: label_of(w[1]).unwrap(),
                ore_ore: count_of(w[6]).unwrap(),
                clay_ore: count_of(w[12]).unwrap(),
                obsidian_ore: count_of(w[18]).unwrap(),
                obsidian_clay: count_of(w[21]).unwrap(),
                geode_ore: count_of(w[27]).unwrap(),
                geode_obsidian: count_of(w[30]).unwrap(),
            },
        )
    } else {
        None
    }
}

/// Whether every line of the text describes a blueprint.
pub open spec fn well_formed(text: Seq<u8>) -> bool {
    forall|i: int|
        0 <= i < lines_of(text).len() ==> parsed_line(#[trigger] lines_of(text)[i]).is_some()
}

impl Blueprint {
    /// Whether this is the blueprint that the text describes.
    pub open spec fn says(&self, t: BlueprintText) -> bool {
        &&& self.wf()
        &&& self.ident() == t.id
        &&& self.has_costs(
            t.ore_ore,
            t.clay_ore,
            t.obsidian_ore,
            t.obsidian_clay,
            t.geode_ore,
            t.geode_obsidian,
        )
    }

    /// Reads one blueprint from its line.
    pub fn parse(line: &[u8]) -> (r: Option<Blueprint>)
        ensures
            r.is_some() == parsed_line(line@).is_some(),
            r matches Some(bp) ==> bp.says(parsed_line(line@).unwrap()),
    {
        let w = words(line);
        if w.len() <= 30 {
            return None;
        }
        proof {
            let ws = rows(w@);
            assert(ws[1] == w[1]@ && ws[6] == w[6]@ && ws[12] == w[12]@ && ws[18] == w[18]@
                && ws[21] == w[21]@ && ws[27] == w[27]@ && ws[30] == w[30]@);
        }
        let id = read_label(w[1].as_slice());
        let ore_ore = read_count(w[6].as_slice());
        let clay_ore = read_count(w[12].as_slice());
        let obsidian_ore = read_count(w[18].as_slice());
        let obsidian_clay = read_count(w[21].as_slice());
        let geode_ore = read_count(w[27].as_slice());
        let geode_obsidian = read_count(w[30].as_slice());
        if id.is_none() || ore_ore.is_none() || clay_ore.is_none() || obsidian_ore.is_none()
            || obsidian_clay.is_none() || geode_ore.is_none() || geode_obsidian.is_none() {
            return None;
        }
        Some(
            Blueprint::new(
                id.unwrap(),
                ore_ore.unwrap(),
                clay_ore.unwrap(),
                obsidian_ore.unwrap(),
                obsidian_clay.unwrap(),
                geode_ore.unwrap(),
                geode_obsidian.unwrap(),
            ),
        )
    }
}

/// Reads a count.
pub fn read_count(word: &[u8]) -> (r: Option<Count>)
    ensures
        r.is_some() == count_of(word@).is_some(),
        r matches Some(c) ==> count_of(word@) == Some(c as int),
{
    match parse_natural(word) {
        Some(v) => if v <= Count::MAX as u64 {
            Some(v as Count)
        } else {
            None
        },
        None => None,
    }
}

/// Reads a blueprint's number from the word that ends with a colon.
pub fn read_label(word: &[u8]) -> (r: Option<usize>)
    ensures
        r.is_some() == label_of(word@).is_some(),
        r matches Some(c) ==> label_of(word@) == Some(c as int),
{
    if word.len() == 0 {
        return None;
    }
    let digits = slice_subrange(word, 0, word.len() - 1);
    assert(digits@ =~= word@.drop_last());
    match parse_natural(digits) {
        Some(v) => if v <= usize::MAX as u64 {
            Some(v as usize)
        } else {
            None
        },
        None => None,
    }
}

/// Reads the blueprints, one from each line; `None` where a line describes
/// none.
pub fn parse(input: &str) -> (r: Option<Vec<Blueprint>>)
    ensures
        r.is_some() == well_formed(input.spec_bytes()),
        r matches Some(v) ==> v.len() == lines_of(input.spec_bytes()).len() && forall|i: int|
            0 <= i < v.len() ==> (#[trigger] v[i]).says(
                parsed_line(lines_of(input.spec_bytes())[i]).unwrap(),
            ),
{
    let all = lines(input.as_bytes());
    let ghost ls = lines_of(input.spec_bytes());
    assert(ls == lines_of(input.spec_bytes()));
    let mut result: Vec<Blueprint> = Vec::new();
    let mut i: usize = 0;
    while i < all.len()
        invariant
            i <= all.len(),
            rows(all@) == ls,
            ls == lines_of(input.spec_bytes()),
            result.len() == i,
            forall|j: int| 0 <= j < i ==> parsed_line(#[trigger] ls[j]).is_some(),
            forall|j: int|
                0 <= j < i ==> (#[trigger] result[j]).says(parsed_line(ls[j]).unwrap()),
        decreases all.len() - i,
    {
        assert(rows(all@)[i as int] == all[i as int]@);
        match Blueprint::parse(all[i].as_slice()) {
            Some(bp) => {
                result.push(bp);
            },
            None => {
                assert(!parsed_line(lines_of(input.spec_bytes())[i as int]).is_some());
                return None;
            },
        }
        i += 1;
    }
    Some(result)
}

/// The blueprints that the text describes, one on each line.
pub fn generator(input: &str) -> (v: Vec<Blueprint>)
    requires
        well_formed(input.spec_bytes()),
    ensures
        v.len() == lines_of(input.spec_bytes()).len(),
        forall|i: int|
            0 <= i < v.len() ==> (#[trigger] v[i]).says(
                parsed_line(lines_of(input.spec_bytes())[i]).unwrap(),
            ),
{
    parse(input).unwrap()
}

/// The stock of `r` after `turns` steps if one more robot of its kind came
/// with every step, counting at least one robot at the start.
pub open spec fn estimated_resource(s: StateView, r: int, turns: int) -> int {
    s.stock[r] + max2(1, s.robots[r]) * turns + triangle(turns)
}

/// The steps until `have` reaches `needed` when each step adds `rate` and
/// then raises the rate by one.
pub open spec fn turns_from(have: int, rate: int, needed: int) -> int
    decreases
        (if have < needed {
            needed - have
        } else {
            0
        }),
{
    if have >= needed || rate <= 0 {
        0
    } else {
        1 + turns_from(have + rate, rate + 1, needed)
    }
}

/// The least number of steps after which `estimated_resource` is at least
/// `needed`.
pub open spec fn estimated_turns(s: StateView, r: int, needed: int) -> int {
    turns_from(s.stock[r], max2(1, s.robots[r]), needed)
}

/// The least number of steps before a first robot of kind `k` can stand,
/// by the estimate for each resource that it costs; 0 where one stands.
pub open spec fn estimated_build(s: StateView, bp: &Blueprint, k: int) -> int {
    if s.robots[k] > 0 {
        0
    } else {
        max2(
            max2(
                estimated_turns(s, 0, bp.cost_of(k, 0)),
                estimated_turns(s, 1, bp.cost_of(k, 1)),
            ),
            max2(
                estimated_turns(s, 2, bp.cost_of(k, 2)),
                estimated_turns(s, 3, bp.cost_of(k, 3)),
            ),
        ) + 1
    }
}

/// The steps that the estimates give to the first robots of all four kinds,
/// one after the other.
pub open spec fn estimated_chain(s: StateView, bp: &Blueprint) -> int {
    estimated_build(s, bp, 0) + estimated_build(s, bp, 1) + estimated_build(s, bp, 2)
        + estimated_build(s, bp, 3)
}

/// The estimate of the target stock that leaves out the steps of
/// `estimated_chain`: a heuristic, which the search does not use.
pub open spec fn chain_estimate_of(s: StateView, bp: &Blueprint) -> int {
    if estimated_chain(s, bp) >= s.time {
        s.stock[target()]
    } else {
        estimated_resource(s, target(), s.time - estimated_chain(s, bp))
    }
}

impl State {
    /// The most of a resource that `turns` steps can bring if one more
    /// robot of its kind comes with every step.
    pub fn estimate_resource(&self, resource: Resource, turns: Count) -> (amount: Count)
        requires
            estimated_resource(self@, resource.index(), turns as int) <= Count::MAX,
        ensures
            amount == estimated_resource(self@, resource.index(), turns as int),
    {
        let r = resource.idx();
        let rate: u64 = if self.robots[r] > 1 {
            self.robots[r] as u64
        } else {
            1
        };
        if turns == 0 {
            assert(triangle(0) == 0) by (nonlinear_arith);
            assert(max2(1, self@.robots[r as int]) * 0 == 0);
            return self.stock[r];
        }
        let t: u64 = turns as u64;
        assert(t * (t - 1) <= 0xffff * 0xffff) by (nonlinear_arith)
            requires
                1 <= t <= 0xffff,
        ;
        assert(rate * t <= 0xffff * 0xffff) by (nonlinear_arith)
            requires
                rate <= 0xffff,
                t <= 0xffff,
        ;
        let total: u64 = self.stock[r] as u64 + rate * t + t * (t - 1) / 2;
        assert(t * (t - 1) / 2 == triangle(turns as int));
        assert(total == estimated_resource(self@, r as int, turns as int));
        total as Count
    }

    /// The least number of steps that bring the stock of a resource to
    /// `needed` if one more robot of its kind comes with every step.
    pub fn estimate_turns(&self, resource: Resource, needed: Count) -> (turns: Count)
        ensures
            turns == estimated_turns(self@, resource.index(), needed as int),
            turns <= 362,
            estimated_resource(self@, resource.index(), turns as int) >= needed,
            turns > 0 ==> estimated_resource(self@, resource.index(), turns - 1) < needed,
    {
        let r = resource.idx();
        let first: u32 = if self.robots[r] > 1 {
            self.robots[r] as u32
        } else {
            1
        };
        let mut have: u32 = self.stock[r] as u32;
        let mut rate: u32 = first;
        let mut turns: Count = 0;
        proof {
            assert(triangle(0) == 0 && triangle(1) == 0) by (nonlinear_arith);
            assert(first * 0 == 0);
        }
        while have < needed as u32
            invariant
                r == resource.index(),
                first == max2(1, self@.robots[r as int]),
                rate == first + turns,
                have == estimated_resource(self@, r as int, turns as int),
                estimated_turns(self@, r as int, needed as int) == turns + turns_from(
                    have as int,
                    rate as int,
                    needed as int,
                ),
                turns > 0 ==> estimated_resource(self@, r as int, turns - 1) < needed,
                have >= triangle(turns + 1),
                turns <= 362,
            decreases
                    (if have < needed {
                        needed - have
                    } else {
                        0
                    }),
        {
            proof {
                lemma_triangle(turns as int, turns as int);
                lemma_triangle(turns as int + 1, turns as int + 1);
                assert(first * (turns + 1) == first * turns + first) by (nonlinear_arith);
                if turns >= 362 {
                    lemma_triangle(363, turns as int + 1);
                    assert(triangle(363) == 65703) by (nonlinear_arith);
                }
            }
            have = have + rate;
            rate = rate + 1;
            turns = turns + 1;
        }
        turns
    }

    /// The least number of steps before a first robot of the given kind can
    /// stand, by `estimate_turns` for each resource that it costs.
    pub fn estimate_robot_build(&self, robot: Resource, blueprint: &Blueprint) -> (turns: Count)
        ensures
            turns == estimated_build(self@, blueprint, robot.index()),
            turns <= 363,
            self.robots[robot.index()] == 0 ==> turns >= 1,
    {
        let k = robot.idx();
        if self.robots[k] > 0 {
            0
        } else {
            let t0 = self.estimate_turns(Resource::Ore, blueprint.robot[k][0]);
            let t1 = self.estimate_turns(Resource::Clay, blueprint.robot[k][1]);
            let t2 = self.estimate_turns(Resource::Obsidian, blueprint.robot[k][2]);
            let t3 = self.estimate_turns(Resource::Geode, blueprint.robot[k][3]);
            largest(largest(t0, t1), largest(t2, t3)) + 1
        }
    }

    /// The estimate of the target stock at the end that first takes off the
    /// steps which the first robots of all kinds need. Unlike `limit` it is
    /// no bound on every blueprint, and the search does not use it.
    pub fn chain_estimate(&self, blueprint: &Blueprint) -> (amount: Count)
        requires
            self@.fits(),
        ensures
            amount == chain_estimate_of(self@, blueprint),
    {
        let all: Count = self.estimate_robot_build(Resource::Ore, blueprint)
            + self.estimate_robot_build(Resource::Clay, blueprint) + self.estimate_robot_build(
            Resource::Obsidian,
            blueprint,
        ) + self.estimate_robot_build(Resource::Geode, blueprint);
        if all >= self.remaining_time {
            self.stock[3]
        } else {
            let turns = self.remaining_time - all;
            proof {
                let t = self@.time;
                lemma_triangle(turns as int, t);
                assert(self@.robots[3] * turns <= self@.robots[3] * t) by (nonlinear_arith)
                    requires
                        0 <= self@.robots[3],
                        0 <= turns <= t,
                ;
                if self@.robots[3] == 0 {
                    lemma_triangle(turns as int, turns as int);
                    lemma_triangle(turns as int + 1, t);
                    assert(self@.robots[3] * t == 0);
                    assert(max2(1, self@.robots[3]) * turns == turns);
                } else {
                    assert(max2(1, self@.robots[3]) == self@.robots[3]);
                }
                assert(estimated_resource(self@, 3, turns as int) <= self@.potential(3));
            }
            self.estimate_resource(Resource::Geode, turns)
        }
    }
}

} // verus!
