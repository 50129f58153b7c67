//! A rope of knots on a grid: the head is moved, each knot follows the one
//! before it, and the places that the last knot visits are counted.
use crate::text::{
    find_byte, lines, lines_of, natural_of, parse_natural, rows, split_once_at, SPACE,
};
use vstd::prelude::*;
use vstd::slice::slice_subrange;
use vstd::string::StringSliceAdditionalSpecFns;

verus! {

#[derive(Clone, Copy, Debug, PartialEq, Eq, Structural)]
pub enum Direction {
    Up,
    Right,
    Down,
    Left,
}

/// A move of the head: a direction and a number of steps.
#[derive(Debug)]
pub struct Command {
    pub dir: Direction,
    pub count: usize,
}

/// A place on the grid.
#[derive(Clone, Copy, Debug, PartialEq, Eq, Structural)]
pub struct Position {
    pub x: i32,
    pub y: i32,
}

impl View for Position {
    type V = (int, int);

    open spec fn view(&self) -> (int, int) {
        (self.x as int, self.y as int)
    }
}

/// -1, 0 or 1, as the number is below, at or above 0.
pub open spec fn sign(d: int) -> int {
    if d < 0 {
        -1
    } else if d > 0 {
        1
    } else {
        0
    }
}

/// Whether two places touch: they are the same, or neighbours, diagonals
/// included.
pub open spec fn touching(a: (int, int), b: (int, int)) -> bool {
    -1 <= b.0 - a.0 <= 1 && -1 <= b.1 - a.1 <= 1
}

/// Where a knot goes when the knot before it is at `leader`: it stays while
/// they touch, and else makes one step towards it along each axis.
pub open spec fn followed(me: (int, int), leader: (int, int)) -> (int, int) {
    if touching(me, leader) {
        me
    } else {
        (me.0 + sign(leader.0 - me.0), me.1 + sign(leader.1 - me.1))
    }
}

/// The place one step from `p` in a direction; up is towards smaller `y`.
pub open spec fn stepped(p: (int, int), dir: Direction) -> (int, int) {
    match dir {
        Direction::Up => (p.0, p.1 - 1),
        Direction::Right => (p.0 + 1, p.1),
        Direction::Down => (p.0, p.1 + 1),
        Direction::Left => (p.0 - 1, p.1),
    }
}

/// The rope after its head, the first knot, made one step and each other knot
/// followed the knot before it.
pub open spec fn pulled(rope: Seq<(int, int)>, dir: Direction) -> Seq<(int, int)>
    decreases rope.len(),
{
    if rope.len() == 0 {
        rope
    } else if rope.len() == 1 {
        seq![stepped(rope[0], dir)]
    } else {
        let front = pulled(rope.drop_last(), dir);
        front.push(followed(rope.last(), front.last()))
    }
}

/// A rope and the places that its last knot has visited.
pub struct Trail {
    pub rope: Seq<(int, int)>,
    pub visited: Set<(int, int)>,
}

/// The trail at the start: `knots` knots at the origin, and no place visited.
pub open spec fn start(knots: nat) -> Trail {
    Trail { rope: Seq::new(knots, |i: int| (0int, 0int)), visited: Set::empty() }
}

/// The trail after `count` more steps in a direction.
pub open spec fn dragged(trail: Trail, dir: Direction, count: nat) -> Trail
    decreases count,
{
    if count == 0 {
        trail
    } else {
        let before = dragged(trail, dir, (count - 1) as nat);
        let rope = pulled(before.rope, dir);
        Trail { rope, visited: before.visited.insert(rope.last()) }
    }
}

/// The trail after all the moves.
pub open spec fn trail_of(knots: nat, moves: Seq<Command>) -> Trail
    decreases moves.len(),
{
    if moves.len() == 0 {
        start(knots)
    } else {
        dragged(trail_of(knots, moves.drop_last()), moves.last().dir, moves.last().count as nat)
    }
}

/// The number of steps of all the moves.
pub open spec fn step_count(moves: Seq<Command>) -> int
    decreases moves.len(),
{
    if moves.len() == 0 {
        0
    } else {
        step_count(moves.drop_last()) + moves.last().count
    }
}

/// Whether every knot is within `reach` of the origin along each axis.
pub open spec fn within(rope: Seq<(int, int)>, reach: int) -> bool {
    forall|i: int|
        0 <= i < rope.len() ==> -reach <= (#[trigger] rope[i]).0 <= reach && -reach <= rope[i].1
            <= reach
}

/// One pull keeps the number of knots and moves no knot further than one
/// step from where knots were.
pub proof fn lemma_pulled(rope: Seq<(int, int)>, dir: Direction, reach: int)
    requires
        within(rope, reach),
        0 <= reach,
    ensures
        pulled(rope, dir).len() == rope.len(),
        within(pulled(rope, dir), reach + 1),
    decreases rope.len(),
{
    if rope.len() == 1 {
        assert(rope[0].0 <= reach);
    } else if rope.len() > 1 {
        let front = rope.drop_last();
        assert(within(front, reach)) by {
            assert forall|i: int| 0 <= i < front.len() implies -reach <= (#[trigger] front[i]).0
                <= reach && -reach <= front[i].1 <= reach by {
                assert(front[i] == rope[i]);
            }
        }
        lemma_pulled(front, dir, reach);
        let moved = pulled(front, dir);
        let leader = moved[moved.len() - 1];
        let me = rope[rope.len() - 1];
        assert(-reach <= me.0 <= reach && -reach <= me.1 <= reach);
        assert(-(reach + 1) <= leader.0 <= reach + 1 && -(reach + 1) <= leader.1 <= reach + 1);
        let result = pulled(rope, dir);
        assert forall|i: int| 0 <= i < result.len() implies -(reach + 1) <= (#[trigger] result[i]).0
            <= reach + 1 && -(reach + 1) <= result[i].1 <= reach + 1 by {
            if i < moved.len() {
                assert(result[i] == moved[i]);
            }
        }
    }
}

/// The number of steps of the first moves is no more than that of all.
pub proof fn lemma_step_count_prefix(moves: Seq<Command>, n: int)
    requires
        0 <= n <= moves.len(),
    ensures
        0 <= step_count(moves.take(n)) <= step_count(moves),
    decreases moves.len() - n,
{
    if n < moves.len() {
        lemma_step_count_prefix(moves, n + 1);
        assert(moves.take(n + 1).drop_last() =~= moves.take(n));
    } else {
        assert(moves.take(n) =~= moves);
    }
    lemma_step_count_nonneg(moves.take(n));
}

proof fn lemma_step_count_nonneg(moves: Seq<Command>)
    ensures
        0 <= step_count(moves),
    decreases moves.len(),
{
    if moves.len() > 0 {
        lemma_step_count_nonneg(moves.drop_last());
    }
}

/// The direction that a letter names.
pub open spec fn direction_of(word: Seq<u8>) -> Option<Direction> {
    if word.len() != 1 {
        None
    } else if word[0] == 82 {
        Some(Direction::Right)
    } else if word[0] == 85 {
        Some(Direction::Up)
    } else if word[0] == 76 {
        Some(Direction::Left)
    } else if word[0] == 68 {
        Some(Direction::Down)
    } else {
        None
    }
}

/// The move that a line writes: a letter, a space, and a number of steps
/// that fits `usize`.
pub open spec fn command_of(line: Seq<u8>) -> Option<(Direction, int)> {
    match split_once_at(line, SPACE) {
        Some((letter, number)) => if direction_of(letter).is_some() && natural_of(
            number,
        ).is_some() && natural_of(number).unwrap() <= usize::MAX {
            Some((direction_of(letter).unwrap(), natural_of(number).unwrap() as int))
        } else {
            None
        },
        None => None,
    }
}

/// Whether every line of the text writes a move.
pub open spec fn well_formed(text: Seq<u8>) -> bool {
    forall|i: int|
        0 <= i < lines_of(text).len() ==> command_of(#[trigger] lines_of(text)[i]).is_some()
}

/// Whether `moves` are the moves that the lines of the text write.
pub open spec fn text_says(text: Seq<u8>, moves: Seq<Command>) -> bool {
    &&& moves.len() == lines_of(text).len()
    &&& forall|i: int|
        0 <= i < moves.len() ==> command_of(lines_of(text)[i]) == Some(
            ((#[trigger] moves[i]).dir, moves[i].count as int),
        )
}

impl Command {
    /// Reads a move from its line.
    pub fn parse(line: &[u8]) -> (r: Option<Command>)
        ensures
            r.is_some() == command_of(line@).is_some(),
            r matches Some(c) ==> command_of(line@) == Some((c.dir, c.count as int)),
    {
        let at = find_byte(line, SPACE);
        if at >= line.len() {
            return None;
        }
        let letter = slice_subrange(line, 0, at);
        let number = slice_subrange(line, at + 1, line.len());
        assert(letter@ =~= line@.take(at as int));
        assert(number@ =~= line@.skip(at as int + 1));
        let count = match parse_natural(number) {
            Some(v) => if v <= usize::MAX as u64 {
                v as usize
            } else {
                return None;
            },
            None => {
                return None;
            },
        };
        if letter.len() != 1 {
            return None;
        }
        let dir = if letter[0] == 82 {
            Direction::Right
        } else if letter[0] == 85 {
            Direction::Up
        } else if letter[0] == 76 {
            Direction::Left
        } else if letter[0] == 68 {
            Direction::Down
        } else {
            return None;
        };
        Some(Command { dir, count })
    }
}

impl Position {
    /// The origin.
    pub fn origin() -> (p: Position)
        ensures
            p@ == (0int, 0int),
    {
        Position { x: 0, y: 0 }
    }

    /// Follows the knot before this one.
    pub fn follow(&mut self, leader: &Position)
        requires
            i32::MIN < old(self).x < i32::MAX,
            i32::MIN < old(self).y < i32::MAX,
        ensures
            final(self)@ == followed(old(self)@, leader@),
    {
        let x_delta: i64 = leader.x as i64 - self.x as i64;
        let y_delta: i64 = leader.y as i64 - self.y as i64;
        // Does the knot need to move?
        if x_delta < -1 || x_delta > 1 || y_delta < -1 || y_delta > 1 {
            self.x = self.x + signum(x_delta);
            self.y = self.y + signum(y_delta);
        }
    }
}

/// -1, 0 or 1, as the number is below, at or above 0.
pub fn signum(d: i64) -> (s: i32)
    ensures
        s == sign(d as int),
{
    if d < 0 {
        -1
    } else if d > 0 {
        1
    } else {
        0
    }
}

/// The rope: its head, and the knots that follow.
#[derive(Debug)]
pub struct Rope {
    pub head: Position,
    pub tails: Vec<Position>,
}

impl View for Rope {
    type V = Seq<(int, int)>;

    open spec fn view(&self) -> Seq<(int, int)> {
        seq![self.head@] + self.tails@.map_values(|p: Position| p@)
    }
}

impl Rope {
    /// A rope with all its knots at the origin.
    pub fn new(num_tails: usize) -> (rope: Rope)
        requires
            num_tails < usize::MAX,
        ensures
            rope@ == start((num_tails + 1) as nat).rope,
            rope.tails.len() == num_tails,
    {
        let mut tails: Vec<Position> = Vec::new();
        let mut i: usize = 0;
        while i < num_tails
            invariant
                i <= num_tails,
                tails.len() == i,
                forall|j: int| 0 <= j < i ==> (#[trigger] tails[j])@ == (0int, 0int),
            decreases num_tails - i,
        {
            tails.push(Position::origin());
            i += 1;
        }
        let rope = Rope { head: Position::origin(), tails };
        assert(rope@ =~= start((num_tails + 1) as nat).rope);
        rope
    }

    /// Moves the head one step and lets the knots follow.
    pub fn go(&mut self, dir: Direction)
        requires
            within(old(self)@, i32::MAX - 2),
        ensures
            final(self)@ == pulled(old(self)@, dir),
            final(self).tails.len() == old(self).tails.len(),
            forall|r: int| 0 <= r && within(old(self)@, r) ==> within(final(self)@, r + 1),
    {
        let ghost before = self@;
        let ghost reach = i32::MAX - 2;
        proof {
            assert forall|r: int| 0 <= r && within(before, r) implies within(
                pulled(before, dir),
                r + 1,
            ) by {
                lemma_pulled(before, dir, r);
            }
            assert(before[0] == self.head@);
            assert(-reach <= before[0].0 <= reach && -reach <= before[0].1 <= reach);
            lemma_pulled(before, dir, reach);
        }
        match dir {
            Direction::Up => {
                self.head.y = self.head.y - 1;
            },
            Direction::Right => {
                self.head.x = self.head.x + 1;
            },
            Direction::Down => {
                self.head.y = self.head.y + 1;
            },
            Direction::Left => {
                self.head.x = self.head.x - 1;
            },
        }
        assert(before.take(1) =~= seq![before[0]]);
        assert(self@.take(1) =~= pulled(before.take(1), dir));
        let mut t: usize = 0;
        while t < self.tails.len()
            invariant
                t <= self.tails.len(),
                self@.len() == before.len(),
                before.len() == self.tails.len() + 1,
                within(before, reach),
                reach == i32::MAX - 2,
                self@.take(t as int + 1) == pulled(before.take(t as int + 1), dir),
                forall|k: int| t < k < before.len() ==> self@[k] == before[k],
            decreases self.tails.len() - t,
        {
            let ghost now = self@;
            let prev = if t == 0 {
                self.head
            } else {
                self.tails[t - 1]
            };
            proof {
                assert(prev@ == now[t as int]);
                assert(now[t as int] == now.take(t as int + 1).last());
                assert(self.tails[t as int]@ == now[t as int + 1]);
                assert(now[t as int + 1] == before[t as int + 1]);
                assert(-reach <= before[t as int + 1].0 <= reach && -reach <= before[t as int
                    + 1].1 <= reach);
                assert(before.take(t as int + 2).drop_last() =~= before.take(t as int + 1));
                assert(before.take(t as int + 2).last() == before[t as int + 1]);
            }
            self.tails[t].follow(&prev);
            proof {
                assert(self@.take(t as int + 2) =~= now.take(t as int + 1).push(
                    followed(before[t as int + 1], prev@),
                ));
                assert forall|k: int| t + 1 < k < before.len() implies self@[k] == before[k] by {
                    assert(now[k] == before[k]);
                }
            }
            t += 1;
        }
        assert(self@.take(t as int + 1) =~= self@);
        assert(before.take(t as int + 1) =~= before);
    }

    /// The last knot.
    pub fn get_tail(&self) -> (p: Position)
        requires
            self.tails.len() > 0,
        ensures
            p@ == self@.last(),
    {
        self.tails[self.tails.len() - 1]
    }
}

/// The moves of the text, one from each line; `None` where a line writes
/// none.
pub fn parse(input: &str) -> (r: Option<Vec<Command>>)
    ensures
        r.is_some() == well_formed(input.spec_bytes()),
        r matches Some(moves) ==> text_says(input.spec_bytes(), moves@),
{
    let all = lines(input.as_bytes());
    let ghost ls = lines_of(input.spec_bytes());
    let mut moves: Vec<Command> = Vec::new();
    let mut i: usize = 0;
    while i < all.len()
        invariant
            i <= all.len(),
            rows(all@) == ls,
            ls == lines_of(input.spec_bytes()),
            moves.len() == i,
            forall|k: int|
                0 <= k < i ==> command_of(ls[k]) == Some(
                    ((#[trigger] moves[k]).dir, moves[k].count as int),
                ),
        decreases all.len() - i,
    {
        assert(rows(all@)[i as int] == all[i as int]@);
        match Command::parse(all[i].as_slice()) {
            Some(command) => {
                moves.push(command);
            },
            None => {
                assert(!command_of(lines_of(input.spec_bytes())[i as int]).is_some());
                return None;
            },
        }
        i += 1;
    }
    assert forall|k: int| 0 <= k < ls.len() implies command_of(#[trigger] ls[k]).is_some() by {
        assert(command_of(ls[k]) == Some((moves[k].dir, moves[k].count as int)));
    }
    Some(moves)
}

/// The moves of the text, one from each line.
pub fn generator(input: &str) -> (moves: Vec<Command>)
    requires
        well_formed(input.spec_bytes()),
    ensures
        text_says(input.spec_bytes(), moves@),
{
    parse(input).unwrap()
}

/// The places, as pairs of integers.
pub open spec fn spots(seen: Seq<Position>) -> Seq<(int, int)> {
    seen.map_values(|p: Position| p@)
}

/// Whether the place is among those seen.
pub fn is_seen(seen: &Vec<Position>, p: &Position) -> (found: bool)
    ensures
        found == spots(seen@).contains(p@),
{
    let mut i: usize = 0;
    while i < seen.len()
        invariant
            i <= seen.len(),
            forall|k: int| 0 <= k < i ==> spots(seen@)[k] != p@,
        decreases seen.len() - i,
    {
        if seen[i].x == p.x && seen[i].y == p.y {
            assert(spots(seen@)[i as int] == p@);
            return true;
        }
        i += 1;
    }
    false
}

/// The number of places that the last knot of a rope with `num_tails` knots
/// behind its head visits while the head makes the moves.
pub fn run_commands(input: &Vec<Command>, num_tails: usize) -> (count: usize)
    requires
        0 < num_tails < usize::MAX,
        step_count(input@) < i32::MAX - 1,
    ensures
        count == trail_of((num_tails + 1) as nat, input@).visited.len(),
{
    let ghost knots = (num_tails + 1) as nat;
    let mut rope = Rope::new(num_tails);
    let mut seen: Vec<Position> = Vec::new();
    let mut i: usize = 0;
    assert(input@.take(0) =~= Seq::<Command>::empty());
    assert(spots(seen@).to_set() =~= Set::<(int, int)>::empty());
    while i < input.len()
        invariant
            i <= input.len(),
            0 < num_tails < usize::MAX,
            knots == num_tails + 1,
            step_count(input@) < i32::MAX - 1,
            rope.tails.len() == num_tails,
            rope@ == trail_of(knots, input@.take(i as int)).rope,
            spots(seen@).no_duplicates(),
            spots(seen@).to_set() == trail_of(knots, input@.take(i as int)).visited,
            within(rope@, step_count(input@.take(i as int))),
        decreases input.len() - i,
    {
        let cmd = &input[i];
        let ghost base = trail_of(knots, input@.take(i as int));
        let ghost walked = step_count(input@.take(i as int));
        proof {
            assert(input@.take(i as int + 1).drop_last() =~= input@.take(i as int));
            assert(input@.take(i as int + 1).last() == input@[i as int]);
            lemma_step_count_prefix(input@, i as int + 1);
            lemma_step_count_prefix(input@, i as int);
        }
        let mut j: usize = 0;
        while j < cmd.count
            invariant
                j <= cmd.count,
                rope.tails.len() == num_tails,
                num_tails > 0,
                0 <= walked,
                walked + cmd.count < i32::MAX - 1,
                rope@ == dragged(base, cmd.dir, j as nat).rope,
                spots(seen@).no_duplicates(),
                spots(seen@).to_set() == dragged(base, cmd.dir, j as nat).visited,
                within(rope@, walked + j),
            decreases cmd.count - j,
        {
            assert(within(rope@, i32::MAX - 2)) by {
                assert forall|k: int| 0 <= k < rope@.len() implies -(i32::MAX - 2) <= (
                #[trigger] rope@[k]).0 <= i32::MAX - 2 && -(i32::MAX - 2) <= rope@[k].1
                    <= i32::MAX - 2 by {}
            }
            rope.go(cmd.dir);
            let tail = rope.get_tail();
            let ghost before = spots(seen@);
            if !is_seen(&seen, &tail) {
                seen.push(tail);
                proof {
                    assert(spots(seen@) =~= before.push(tail@));
                    before.lemma_push_to_set_commute(tail@);
                    assert forall|a: int, b: int|
                        0 <= a < spots(seen@).len() && 0 <= b < spots(seen@).len() && a
                            != b implies spots(seen@)[a] != spots(seen@)[b] by {
                        if a < before.len() && b < before.len() {
                            assert(before[a] != before[b]);
                        } else if a < before.len() {
                            assert(before.contains(before[a]));
                        } else if b < before.len() {
                            assert(before.contains(before[b]));
                        }
                    }
                }
            } else {
                assert(before.to_set().insert(tail@) =~= before.to_set());
            }
            j += 1;
        }
        i += 1;
    }
    proof {
        assert(input@.take(i as int) =~= input@);
        spots(seen@).unique_seq_to_set();
    }
    seen.len()
}

/// The number of places that the tail of a rope of two knots visits.
pub fn part1(input: &Vec<Command>) -> (count: usize)
    requires
        step_count(input@) < i32::MAX - 1,
    ensures
        count == trail_of(2, input@).visited.len(),
{
    run_commands(input, 1)
}

/// The number of places that the tail of a rope of ten knots visits.
pub fn part2(input: &Vec<Command>) -> (count: usize)
    requires
        step_count(input@) < i32::MAX - 1,
    ensures
        count == trail_of(10, input@).visited.len(),
{
    run_commands(input, 9)
}

} // verus!
