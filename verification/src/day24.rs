//! A valley with blizzards that move one place in each minute and wrap
//! round at the walls: the least number of minutes to cross it without
//! ever standing where a blizzard is.
use crate::remainder::lemma_wrapped;
use crate::text::{lines, lines_of, rows};
use vstd::prelude::*;
use vstd::string::StringSliceAdditionalSpecFns;

verus! {

/// The way a blizzard moves; `Still` is a wall.
#[derive(Clone, Copy, Debug, PartialEq, Eq, Structural)]
pub enum Direction {
    Still,
    North,
    West,
    East,
    South,
}

pub type Coordinate = i16;

/// A place in the valley: `x` to the east, `y` to the south.
#[derive(Clone, Copy, Debug, PartialEq, Eq, Structural)]
pub struct Position {
    pub x: Coordinate,
    pub y: Coordinate,
}

/// A place as the rules see it.
pub type Place = (int, int);

impl View for Position {
    type V = Place;

    open spec fn view(&self) -> Place {
        (self.x as int, self.y as int)
    }
}

/// The valley: what stands at each place at the start, its size, the
/// places to start from and to reach, and the number of minutes after which
/// the blizzards are where they were.
#[derive(Debug)]
pub struct InputType {
    pub obstacles: Vec<Vec<Option<Direction>>>,
    pub size: Position,
    pub start: Position,
    pub end: Position,
    pub period: usize,
}

/// The size of the valley along an axis, plus the period, must stay below
/// this.
pub const LIMIT: Coordinate = 0x4000;

/// What a character draws: a blizzard, a wall, or open ground for a dot;
/// `None` for any other character.
pub open spec fn drawn(b: u8) -> Option<Option<Direction>> {
    if b == 94 {
        Some(Some(Direction::North))
    } else if b == 60 {
        Some(Some(Direction::West))
    } else if b == 62 {
        Some(Some(Direction::East))
    } else if b == 118 {
        Some(Some(Direction::South))
    } else if b == 35 {
        Some(Some(Direction::Still))
    } else if b == 46 {
        Some(None)
    } else {
        None
    }
}

/// The place next to `p` in a direction.
pub open spec fn step(p: Place, dir: Direction) -> Place {
    match dir {
        Direction::Still => p,
        Direction::North => (p.0, p.1 - 1),
        Direction::South => (p.0, p.1 + 1),
        Direction::West => (p.0 - 1, p.1),
        Direction::East => (p.0 + 1, p.1),
    }
}

/// The rows of a valley.
pub open spec fn field(obstacles: Seq<Vec<Option<Direction>>>) -> Seq<Seq<Option<Direction>>> {
    obstacles.map_values(|r: Vec<Option<Direction>>| r@)
}

impl Direction {
    /// Reads a character of the map.
    pub fn parse(ch: u8) -> (r: Option<Option<Direction>>)
        ensures
            r == drawn(ch),
    {
        if ch == 94 {
            Some(Some(Direction::North))
        } else if ch == 60 {
            Some(Some(Direction::West))
        } else if ch == 62 {
            Some(Some(Direction::East))
        } else if ch == 118 {
            Some(Some(Direction::South))
        } else if ch == 35 {
            Some(Some(Direction::Still))
        } else if ch == 46 {
            Some(None)
        } else {
            None
        }
    }
}

impl Position {
    /// The place next to this one in a direction.
    pub fn advance(&self, dir: Direction) -> (p: Position)
        requires
            Coordinate::MIN < self.x < Coordinate::MAX,
            Coordinate::MIN < self.y < Coordinate::MAX,
        ensures
            p@ == step(self@, dir),
    {
        match dir {
            Direction::Still => *self,
            Direction::North => Position { x: self.x, y: self.y - 1 },
            Direction::South => Position { x: self.x, y: self.y + 1 },
            Direction::West => Position { x: self.x - 1, y: self.y },
            Direction::East => Position { x: self.x + 1, y: self.y },
        }
    }
}

/// The valley as the rules see it.
pub struct Valley {
    pub field: Seq<Seq<Option<Direction>>>,
    pub width: int,
    pub height: int,
    pub period: int,
}

impl Valley {
    /// Whether the field is a rectangle of the stated size with room
    /// between its walls, and the period is not 0.
    pub open spec fn wf(self) -> bool {
        &&& 3 <= self.width
        &&& 3 <= self.height
        &&& 0 < self.period
        &&& self.width + self.period < LIMIT
        &&& self.height + self.period < LIMIT
        &&& self.field.len() == self.height
        &&& forall|y: int| 0 <= y < self.height ==> (#[trigger] self.field[y]).len() == self.width
    }

    /// What stands at a place at the start; a wall outside the field.
    pub open spec fn get(self, p: Place) -> Option<Direction> {
        if 0 <= p.0 < self.width && 0 <= p.1 < self.height {
            self.field[p.1][p.0]
        } else {
            Some(Direction::Still)
        }
    }

    /// The place between the walls that a place is taken for when the
    /// valley wraps round.
    pub open spec fn normalize(self, p: Place) -> Place {
        ((p.0 - 1) % (self.width - 2) + 1, (p.1 - 1) % (self.height - 2) + 1)
    }

    /// Whether no blizzard of the given direction, and for `Still` no wall,
    /// stands at the place after `time` minutes.
    pub open spec fn safe_from(self, p: Place, time: int, dir: Direction) -> bool {
        let origin = match dir {
            Direction::Still => p,
            Direction::West => self.normalize((p.0 + time, p.1)),
            Direction::East => self.normalize((p.0 - time, p.1)),
            Direction::North => self.normalize((p.0, p.1 + time)),
            Direction::South => self.normalize((p.0, p.1 - time)),
        };
        self.get(origin) != Some(dir)
    }

    /// Whether one can stand at the place after `time` minutes: in the row
    /// and the column of the walls and outside, on open ground only; between
    /// the walls, where no blizzard is at that time.
    pub open spec fn safe(self, p: Place, time: int) -> bool {
        if p.0 <= 0 || p.0 >= self.width - 1 || p.1 <= 0 || p.1 >= self.height - 1 {
            self.get(p).is_none()
        } else {
            let cycle = time % self.period;
            &&& self.safe_from(p, cycle, Direction::Still)
            &&& self.safe_from(p, cycle, Direction::North)
            &&& self.safe_from(p, cycle, Direction::West)
            &&& self.safe_from(p, cycle, Direction::East)
            &&& self.safe_from(p, cycle, Direction::South)
        }
    }

    /// Whether one can be at the place `n` minutes after one was at `from`
    /// at minute `since`, standing on a safe place in every minute.
    pub open spec fn reach(self, from: Place, since: int, n: nat, p: Place) -> bool
        decreases n,
    {
        if n == 0 {
            p == from
        } else {
            self.safe(p, since + n) && exists|q: Place, dir: Direction|
                self.reach(from, since, (n - 1) as nat, q) && p == #[trigger] step(q, dir)
        }
    }

    /// Whether `n` is the least number of minutes after which one can be at
    /// `to`.
    pub open spec fn takes(self, from: Place, since: int, to: Place, n: nat) -> bool {
        self.reach(from, since, n, to) && forall|m: nat|
            m < n ==> !#[trigger] self.reach(from, since, m, to)
    }
}

impl View for InputType {
    type V = Valley;

    open spec fn view(&self) -> Valley {
        Valley {
            field: field(self.obstacles@),
            width: self.size.x as int,
            height: self.size.y as int,
            period: self.period as int,
        }
    }
}

/// The remainder that is never negative, for a positive divisor.
pub fn rem_euclid(a: Coordinate, m: Coordinate) -> (r: Coordinate)
    requires
        m > 0,
    ensures
        r == a as int % m as int,
        0 <= r < m,
{
    let r = a % m;
    proof {
        lemma_wrapped(a as int, m as int);
    }
    if r < 0 {
        r + m
    } else {
        r
    }
}

impl InputType {
    /// What stands at a place at the start; a wall outside the field.
    pub fn get(&self, pos: Position) -> (r: Option<Direction>)
        requires
            self@.wf(),
        ensures
            r == self@.get(pos@),
    {
        if 0 <= pos.x && pos.x < self.size.x && 0 <= pos.y && pos.y < self.size.y {
            assert(self@.field[pos.y as int] == self.obstacles[pos.y as int]@);
            return self.obstacles[pos.y as usize][pos.x as usize];
        }
        Some(Direction::Still)
    }

    /// Wrap positions around within the canyon.
    pub fn normalize(&self, pos: Position) -> (p: Position)
        requires
            self@.wf(),
            Coordinate::MIN < pos.x && Coordinate::MIN < pos.y,
        ensures
            p@ == self@.normalize(pos@),
            1 <= p.x < self.size.x - 1,
            1 <= p.y < self.size.y - 1,
    {
        Position {
            x: rem_euclid(pos.x - 1, self.size.x - 2) + 1,
            y: rem_euclid(pos.y - 1, self.size.y - 2) + 1,
        }
    }

    /// Is the given location and time safe from an obstacle moving in the
    /// given direction.
    pub fn is_safe_specific(&self, pos: Position, time: usize, dir: Direction) -> (safe: bool)
        requires
            self@.wf(),
            time < self.period,
            0 <= pos.x < self.size.x,
            0 <= pos.y < self.size.y,
        ensures
            safe == self@.safe_from(pos@, time as int, dir),
    {
        let delta = time as Coordinate;
        let adjusted_loc = match dir {
            Direction::Still => pos,
            Direction::West => self.normalize(Position { x: pos.x + delta, y: pos.y }),
            Direction::East => self.normalize(Position { x: pos.x - delta, y: pos.y }),
            Direction::North => self.normalize(Position { x: pos.x, y: pos.y + delta }),
            Direction::South => self.normalize(Position { x: pos.x, y: pos.y - delta }),
        };
        let result = self.get(adjusted_loc);
        match result {
            Some(d) => d != dir,
            None => true,
        }
    }

    /// Is the given position safe at the given time?
    pub fn is_safe(&self, pos: Position, time: usize) -> (safe: bool)
        requires
            self@.wf(),
        ensures
            safe == self@.safe(pos@, time as int),
    {
        if pos.x <= 0 || pos.x >= self.size.x - 1 || pos.y <= 0 || pos.y >= self.size.y - 1 {
            return self.get(pos).is_none();
        }
        // Where in the cycle are we?
        let cycle = time % self.period;
        self.is_safe_specific(pos, cycle, Direction::Still) && self.is_safe_specific(
            pos,
            cycle,
            Direction::North,
        ) && self.is_safe_specific(pos, cycle, Direction::West) && self.is_safe_specific(
            pos,
            cycle,
            Direction::East,
        ) && self.is_safe_specific(pos, cycle, Direction::South)
    }
}

/// The places where one can be at a minute.
#[derive(Debug)]
pub struct State {
    pub turn: usize,
    pub locations: Vec<Position>,
}

/// The places as the rules see them.
pub open spec fn places(locations: Seq<Position>) -> Seq<Place> {
    locations.map_values(|p: Position| p@)
}

/// Whether the place is among the places.
pub fn holds(locations: &Vec<Position>, p: &Position) -> (found: bool)
    ensures
        found == places(locations@).contains(p@),
{
    let mut i: usize = 0;
    while i < locations.len()
        invariant
            i <= locations.len(),
            forall|k: int| 0 <= k < i ==> places(locations@)[k] != p@,
        decreases locations.len() - i,
    {
        if locations[i].x == p.x && locations[i].y == p.y {
            assert(places(locations@)[i as int] == p@);
            return true;
        }
        i += 1;
    }
    false
}

impl State {
    /// One is at the start of the valley at minute 0.
    pub fn new(input: &InputType) -> (state: State)
        ensures
            state.turn == 0,
            state.locations@ == seq![input.start],
    {
        State::new_at(input.start, 0)
    }

    /// One is at `from` at minute `turn`.
    pub fn new_at(from: Position, turn: usize) -> (state: State)
        ensures
            state.turn == turn,
            state.locations@ == seq![from],
            places(state.locations@) == seq![from@],
    {
        let mut locations: Vec<Position> = Vec::new();
        locations.push(from);
        let state = State { turn, locations };
        assert(state.locations@ =~= seq![from]);
        assert(places(state.locations@) =~= seq![from@]);
        state
    }

    /// Whether one can be at the goal.
    pub fn done(&self, goal: Position) -> (d: bool)
        ensures
            d == places(self.locations@).contains(goal@),
    {
        holds(&self.locations, &goal)
    }
}

/// A place where one can stand lies in the field.
pub proof fn lemma_safe_inside(valley: Valley, p: Place, time: int)
    requires
        valley.wf(),
        valley.safe(p, time),
    ensures
        0 <= p.0 < valley.width,
        0 <= p.1 < valley.height,
{
}

/// Takes the place among the places where one can be, if one can stand on
/// it at the time and it is not among them yet.
pub fn consider(next: &mut Vec<Position>, input: &InputType, candidate: Position, time: usize)
    requires
        input@.wf(),
    ensures
        forall|p: Place| #[trigger]
            places(final(next)@).contains(p) <==> places(old(next)@).contains(p) || (p
                == candidate@ && input@.safe(p, time as int)),
{
    let ghost before = places(next@);
    if input.is_safe(candidate, time) && !holds(next, &candidate) {
        next.push(candidate);
        proof {
            assert(places(next@) =~= before.push(candidate@));
            assert forall|p: Place| #[trigger]
                places(next@).contains(p) <==> before.contains(p) || (p == candidate@
                    && input@.safe(p, time as int)) by {
                if before.contains(p) {
                    let i = choose|i: int| 0 <= i < before.len() && before[i] == p;
                    assert(places(next@)[i] == p);
                }
                if p == candidate@ {
                    assert(places(next@)[before.len() as int] == p);
                }
            }
        }
    }
}

impl State {
    /// One minute passes: one can be where one can stand in the next
    /// minute next to a place where one could be, or on it.
    pub fn step(&mut self, input: &InputType)
        requires
            input@.wf(),
            old(self).turn < usize::MAX,
            forall|i: int|
                0 <= i < old(self).locations.len() ==> 0 <= (#[trigger] old(self).locations[i]).x
                    < input.size.x && 0 <= old(self).locations[i].y < input.size.y,
        ensures
            final(self).turn == old(self).turn + 1,
            forall|p: Place| #[trigger]
                places(final(self).locations@).contains(p) <==> input@.safe(
                    p,
                    old(self).turn + 1,
                ) && exists|q: Place, dir: Direction|
                    places(old(self).locations@).contains(q) && p == #[trigger] step(q, dir),
            forall|i: int|
                0 <= i < final(self).locations.len() ==> 0 <= (
                #[trigger] final(self).locations[i]).x < input.size.x && 0
                    <= final(self).locations[i].y < input.size.y,
    {
        let ghost valley = input@;
        let ghost at = places(self.locations@);
        let time = self.turn + 1;
        let mut next: Vec<Position> = Vec::new();
        let mut i: usize = 0;
        while i < self.locations.len()
            invariant
                i <= self.locations.len(),
                valley == input@,
                valley.wf(),
                at == places(self.locations@),
                time == self.turn + 1,
                forall|k: int|
                    0 <= k < self.locations.len() ==> 0 <= (#[trigger] self.locations[k]).x
                        < input.size.x && 0 <= self.locations[k].y < input.size.y,
                forall|p: Place| #[trigger]
                    places(next@).contains(p) <==> valley.safe(p, time as int) && exists|
                        k: int,
                        dir: Direction,
                    | 0 <= k < i && p == #[trigger] step(at[k], dir),
            decreases self.locations.len() - i,
        {
            let loc = self.locations[i];
            let ghost n0 = places(next@);
            proof {
                assert(at[i as int] == loc@);
                assert(0 <= self.locations[i as int].x < input.size.x);
            }
            consider(&mut next, input, loc.advance(Direction::Still), time);
            consider(&mut next, input, loc.advance(Direction::North), time);
            consider(&mut next, input, loc.advance(Direction::West), time);
            consider(&mut next, input, loc.advance(Direction::East), time);
            consider(&mut next, input, loc.advance(Direction::South), time);
            proof {
                assert forall|p: Place| #[trigger]
                    places(next@).contains(p) <==> valley.safe(p, time as int) && exists|
                        k: int,
                        dir: Direction,
                    | 0 <= k < i + 1 && p == #[trigger] step(at[k], dir) by {
                    if places(next@).contains(p) {
                        if n0.contains(p) {
                            let (k, dir) = choose|k: int, dir: Direction|
                                0 <= k < i && p == #[trigger] step(at[k], dir);
                            assert(0 <= k < i + 1 && p == step(at[k], dir));
                        } else {
                            assert(p == step(at[i as int], Direction::Still) || p == step(
                                at[i as int],
                                Direction::North,
                            ) || p == step(at[i as int], Direction::West) || p == step(
                                at[i as int],
                                Direction::East,
                            ) || p == step(at[i as int], Direction::South));
                        }
                    }
                    if valley.safe(p, time as int) && exists|k: int, dir: Direction|
                        0 <= k < i + 1 && p == #[trigger] step(at[k], dir) {
                        let (k, dir) = choose|k: int, dir: Direction|
                            0 <= k < i + 1 && p == #[trigger] step(at[k], dir);
                        if k < i {
                            assert(n0.contains(p));
                        } else {
                            match dir {
                                Direction::Still => {},
                                Direction::North => {},
                                Direction::West => {},
                                Direction::East => {},
                                Direction::South => {},
                            }
                        }
                    }
                }
            }
            i += 1;
        }
        proof {
            assert forall|p: Place| #[trigger]
                places(next@).contains(p) <==> valley.safe(p, self.turn + 1) && exists|
                    q: Place,
                    dir: Direction,
                | at.contains(q) && p == #[trigger] step(q, dir) by {
                if places(next@).contains(p) {
                    let (k, dir) = choose|k: int, dir: Direction|
                        0 <= k < at.len() && p == #[trigger] step(at[k], dir);
                    assert(at.contains(at[k]) && p == step(at[k], dir));
                }
                if valley.safe(p, self.turn + 1) && exists|q: Place, dir: Direction|
                    at.contains(q) && p == #[trigger] step(q, dir) {
                    let (q, dir) = choose|q: Place, dir: Direction|
                        at.contains(q) && p == #[trigger] step(q, dir);
                    let k = choose|k: int| 0 <= k < at.len() && at[k] == q;
                    assert(p == step(at[k], dir));
                }
            }
            assert forall|k: int| 0 <= k < next.len() implies 0 <= (#[trigger] next[k]).x
                < input.size.x && 0 <= next[k].y < input.size.y by {
                assert(places(next@)[k] == next[k]@);
                assert(places(next@).contains(next[k]@));
                lemma_safe_inside(valley, next[k]@, time as int);
            }
        }
        self.locations = next;
        self.turn = self.turn + 1;
    }
}

/// The minute at which one can first be at `to`, when one is at `from` at
/// minute `since`; `None` where one cannot be there up to minute `limit`.
pub fn travel(input: &InputType, from: Position, to: Position, since: usize, limit: usize) -> (r:
    Option<usize>)
    requires
        input@.wf(),
        0 <= from.x < input.size.x,
        0 <= from.y < input.size.y,
        since <= limit,
    ensures
        r matches Some(turn) ==> since <= turn <= limit && input@.takes(
            from@,
            since as int,
            to@,
            (turn - since) as nat,
        ),
        r.is_none() ==> forall|n: nat|
            n <= limit - since ==> !#[trigger] input@.reach(from@, since as int, n, to@),
{
    let ghost valley = input@;
    let mut state = State::new_at(from, since);
    proof {
        assert forall|p: Place| #[trigger] places(state.locations@).contains(p) <==> valley.reach(
            from@,
            since as int,
            0,
            p,
        ) by {
            if p == from@ {
                assert(places(state.locations@)[0] == p);
            }
        }
    }
    loop
        invariant
            valley == input@,
            valley.wf(),
            since <= state.turn <= limit,
            forall|p: Place| #[trigger]
                places(state.locations@).contains(p) <==> valley.reach(
                    from@,
                    since as int,
                    (state.turn - since) as nat,
                    p,
                ),
            forall|i: int|
                0 <= i < state.locations.len() ==> 0 <= (#[trigger] state.locations[i]).x
                    < input.size.x && 0 <= state.locations[i].y < input.size.y,
            forall|n: nat|
                n < state.turn - since ==> !#[trigger] valley.reach(from@, since as int, n, to@),
        decreases limit - state.turn,
    {
        if state.done(to) {
            return Some(state.turn);
        }
        if state.turn >= limit {
            proof {
                assert forall|n: nat| n <= limit - since implies !#[trigger] valley.reach(
                    from@,
                    since as int,
                    n,
                    to@,
                ) by {
                    if n == state.turn - since {
                        assert(!places(state.locations@).contains(to@));
                    }
                }
            }
            return None;
        }
        let ghost before = places(state.locations@);
        let ghost n = (state.turn - since) as nat;
        state.step(input);
        proof {
            assert forall|p: Place| #[trigger] places(state.locations@).contains(p) <==> valley.reach(
                from@,
                since as int,
                (state.turn - since) as nat,
                p,
            ) by {
                if places(state.locations@).contains(p) {
                    let (q, dir) = choose|q: Place, dir: Direction|
                        before.contains(q) && p == #[trigger] step(q, dir);
                    assert(valley.reach(from@, since as int, n, q));
                    assert(valley.reach(from@, since as int, n + 1, p));
                }
                if valley.reach(from@, since as int, n + 1, p) {
                    let (q, dir) = choose|q: Place, dir: Direction|
                        valley.reach(from@, since as int, ((n + 1) - 1) as nat, q) && p
                            == #[trigger] step(q, dir);
                    assert(before.contains(q));
                }
            }
            assert forall|m: nat| m < state.turn - since implies !#[trigger] valley.reach(
                from@,
                since as int,
                m,
                to@,
            ) by {
                if m == n {
                    assert(!before.contains(to@));
                }
            }
        }
    }
}

/// What a line draws, character by character. Only for lines whose
/// characters all draw something.
pub open spec fn row_of(line: Seq<u8>) -> Seq<Option<Direction>> {
    line.map_values(|b: u8| drawn(b).unwrap())
}

/// The place of the first open ground in a row, or the length of the row
/// where it has none.
pub open spec fn first_open(row: Seq<Option<Direction>>) -> int
    decreases row.len(),
{
    if row.len() == 0 {
        0
    } else {
        let before = first_open(row.drop_last());
        if before < row.len() - 1 {
            before
        } else if row.last().is_none() {
            row.len() - 1
        } else {
            row.len() as int
        }
    }
}

/// The length of the longest of the first `n` lines.
pub open spec fn widest(ls: Seq<Seq<u8>>, n: nat) -> int
    decreases n,
{
    if n == 0 {
        0
    } else if ls[n - 1].len() > widest(ls, (n - 1) as nat) {
        ls[n - 1].len() as int
    } else {
        widest(ls, (n - 1) as nat)
    }
}

/// Whether the lines draw a valley: at least two lines, one of at least
/// two characters, none of too many; every character draws something; and
/// the first and the last line have open ground.
pub open spec fn well_formed(ls: Seq<Seq<u8>>) -> bool {
    &&& 2 <= ls.len() <= Coordinate::MAX
    &&& 2 <= widest(ls, ls.len()) <= Coordinate::MAX
    &&& forall|y: int, x: int|
        0 <= y < ls.len() && 0 <= x < ls[y].len() ==> drawn(#[trigger] ls[y][x]).is_some()
    &&& first_open(row_of(ls[0])) < ls[0].len()
    &&& first_open(row_of(ls.last())) < ls.last().len()
}

impl InputType {
    /// Whether this is the valley that the lines draw.
    pub open spec fn says(&self, ls: Seq<Seq<u8>>) -> bool {
        &&& field(self.obstacles@) == ls.map_values(|l: Seq<u8>| row_of(l))
        &&& self.size.x == widest(ls, ls.len())
        &&& self.size.y == ls.len()
        &&& self.start@ == (first_open(row_of(ls[0])), 0int)
        &&& self.end@ == (first_open(row_of(ls.last())), ls.len() - 1)
        &&& self.period == (self.size.x - 2) * (self.size.y - 2)
    }
}

/// The place of the first open ground in a row.
pub fn find_open(row: &Vec<Option<Direction>>) -> (at: usize)
    ensures
        at == first_open(row@),
        at <= row.len(),
{
    let mut at: usize = 0;
    let mut i: usize = 0;
    assert(row@.take(0) =~= Seq::<Option<Direction>>::empty());
    while i < row.len()
        invariant
            i <= row.len(),
            at == first_open(row@.take(i as int)),
            at <= i,
        decreases row.len() - i,
    {
        proof {
            assert(row@.take(i as int + 1).drop_last() =~= row@.take(i as int));
            assert(row@.take(i as int + 1).last() == row@[i as int]);
        }
        if at == i && row[i].is_some() {
            at = i + 1;
        }
        i += 1;
    }
    assert(row@.take(i as int) =~= row@);
    at
}

/// The valley that the text draws; `None` where it draws none.
pub fn parse(input: &str) -> (r: Option<InputType>)
    ensures
        r.is_some() == well_formed(lines_of(input.spec_bytes())),
        r matches Some(v) ==> v.says(lines_of(input.spec_bytes())),
{
    let all = lines(input.as_bytes());
    let ghost ls = lines_of(input.spec_bytes());
    if all.len() < 2 || all.len() > 0x7fff {
        return None;
    }
    let mut obstacles: Vec<Vec<Option<Direction>>> = Vec::new();
    let mut width: usize = 0;
    let mut y: usize = 0;
    assert(field(obstacles@) =~= ls.take(0).map_values(|l: Seq<u8>| row_of(l)));
    while y < all.len()
        invariant
            y <= all.len(),
            rows(all@) == ls,
            ls == lines_of(input.spec_bytes()),
            2 <= ls.len() <= Coordinate::MAX,
            width == widest(ls, y as nat),
            forall|r: int, c: int|
                0 <= r < y && 0 <= c < ls[r].len() ==> drawn(#[trigger] ls[r][c]).is_some(),
            field(obstacles@) == ls.take(y as int).map_values(|l: Seq<u8>| row_of(l)),
        decreases all.len() - y,
    {
        let line = &all[y];
        assert(rows(all@)[y as int] == line@);
        let mut row: Vec<Option<Direction>> = Vec::new();
        let mut x: usize = 0;
        assert(row@ =~= row_of(line@.take(0)));
        while x < line.len()
            invariant
                x <= line.len(),
                line@ == ls[y as int],
                y < ls.len(),
                ls == lines_of(input.spec_bytes()),
                forall|c: int| 0 <= c < x ==> drawn(#[trigger] line@[c]).is_some(),
                row@ == row_of(line@.take(x as int)),
            decreases line.len() - x,
        {
            match Direction::parse(line[x]) {
                Some(d) => {
                    row.push(d);
                    assert(row@ =~= row_of(line@.take(x as int + 1)));
                },
                None => {
                    assert(!drawn(lines_of(input.spec_bytes())[y as int][x as int]).is_some());
                    return None;
                },
            }
            x += 1;
        }
        assert(line@.take(x as int) =~= line@);
        if line.len() > width {
            width = line.len();
        }
        let ghost before = field(obstacles@);
        obstacles.push(row);
        assert(field(obstacles@) =~= before.push(row_of(line@)));
        assert(field(obstacles@) =~= ls.take(y as int + 1).map_values(|l: Seq<u8>| row_of(l)));
        y += 1;
    }
    assert(ls.take(y as int) =~= ls);
    if width < 2 || width > 0x7fff {
        return None;
    }
    let rows_count = obstacles.len();
    proof {
        assert(field(obstacles@)[0] == obstacles[0]@);
        assert(field(obstacles@)[rows_count - 1] == obstacles[rows_count - 1]@);
        assert(field(obstacles@).len() == ls.len());
    }
    let start_x = find_open(&obstacles[0]);
    if start_x >= obstacles[0].len() {
        return None;
    }
    let end_x = find_open(&obstacles[rows_count - 1]);
    if end_x >= obstacles[rows_count - 1].len() {
        return None;
    }
    proof {
        lemma_widest(ls, ls.len(), 0);
        lemma_widest(ls, ls.len(), ls.len() - 1);
        assert((width - 2) * (rows_count - 2) <= 0x7fff * 0x7fff) by (nonlinear_arith)
            requires
                2 <= width <= 0x7fff,
                2 <= rows_count <= 0x7fff,
        ;
    }
    let start = Position { y: 0, x: start_x as Coordinate };
    let end = Position { y: (rows_count - 1) as Coordinate, x: end_x as Coordinate };
    let size = Position { x: width as Coordinate, y: rows_count as Coordinate };
    // What is the time period that all of the obstacles repeat on?
    let period = (width - 2) * (rows_count - 2);
    Some(InputType { obstacles, start, end, size, period })
}

/// No line is longer than the longest.
pub proof fn lemma_widest(ls: Seq<Seq<u8>>, n: nat, i: int)
    requires
        0 <= i < n <= ls.len(),
    ensures
        ls[i].len() <= widest(ls, n),
    decreases n,
{
    if i < n - 1 {
        lemma_widest(ls, (n - 1) as nat, i);
    }
}

/// The valley that the text draws.
pub fn generator(input: &str) -> (v: InputType)
    requires
        well_formed(lines_of(input.spec_bytes())),
    ensures
        v.says(lines_of(input.spec_bytes())),
{
    parse(input).unwrap()
}

impl InputType {
    /// Whether the valley can be searched: it is well formed, and the places
    /// to start from and to reach lie in it.
    pub open spec fn searchable(&self) -> bool {
        &&& self@.wf()
        &&& 0 <= self.start.x < self.size.x && 0 <= self.start.y < self.size.y
        &&& 0 <= self.end.x < self.size.x && 0 <= self.end.y < self.size.y
    }
}

impl InputType {
    /// Whether the valley can be searched.
    pub fn is_searchable(&self) -> (b: bool)
        ensures
            b == self.searchable(),
    {
        let limit: usize = 0x4000;
        if self.size.x < 3 || self.size.y < 3 || self.period == 0 || self.period >= limit {
            return false;
        }
        let width: usize = self.size.x as usize;
        let height: usize = self.size.y as usize;
        if width + self.period >= limit || height + self.period >= limit {
            return false;
        }
        if self.obstacles.len() != height {
            return false;
        }
        let mut y: usize = 0;
        while y < height
            invariant
                y <= height,
                height == self.obstacles.len(),
                width == self.size.x,
                forall|r: int| 0 <= r < y ==> (#[trigger] field(self.obstacles@)[r]).len() == width,
            decreases height - y,
        {
            if self.obstacles[y].len() != width {
                assert(field(self.obstacles@)[y as int].len() != width);
                return false;
            }
            assert(field(self.obstacles@)[y as int].len() == width);
            y += 1;
        }
        0 <= self.start.x && self.start.x < self.size.x && 0 <= self.start.y && self.start.y
            < self.size.y && 0 <= self.end.x && self.end.x < self.size.x && 0 <= self.end.y
            && self.end.y < self.size.y
    }
}

/// The most minutes that the searches go on for.
pub const PATIENCE: usize = 1_000_000;

/// The least number of minutes to the end; `None` where `PATIENCE` minutes
/// are not enough.
pub fn try_part1(input: &InputType) -> (r: Option<usize>)
    requires
        input.searchable(),
    ensures
        r matches Some(n) ==> n <= PATIENCE && input@.takes(input.start@, 0, input.end@, n as nat),
        r.is_none() ==> forall|n: nat|
            n <= PATIENCE ==> !#[trigger] input@.reach(input.start@, 0, n, input.end@),
{
    travel(input, input.start, input.end, 0, PATIENCE)
}

/// The least number of minutes to the end.
pub fn part1(input: &InputType) -> (minutes: usize)
    requires
        input.searchable(),
        exists|n: nat| n <= PATIENCE && #[trigger] input@.reach(input.start@, 0, n, input.end@),
    ensures
        input@.takes(input.start@, 0, input.end@, minutes as nat),
{
    try_part1(input).unwrap()
}

/// Whether the three ways, to the end, back to the start and to the end
/// again, take `a`, `b` and `c` minutes, each as fast as can be and none
/// more than `PATIENCE`.
pub open spec fn ways(valley: Valley, start: Place, end: Place, a: nat, b: nat, c: nat) -> bool {
    &&& a <= PATIENCE && b <= PATIENCE && c <= PATIENCE
    &&& valley.takes(start, 0, end, a)
    &&& valley.takes(end, a as int, start, b)
    &&& valley.takes(start, (a + b) as int, end, c)
}

/// Whether each of the three ways can be made within `PATIENCE` minutes.
pub open spec fn there_and_back(valley: Valley, start: Place, end: Place) -> bool {
    exists|a: nat, b: nat, c: nat| #[trigger] ways(valley, start, end, a, b, c)
}

/// The least number of minutes after which one can be at a place is one
/// number.
pub proof fn lemma_takes_once(valley: Valley, from: Place, since: int, to: Place, n: nat, m: nat)
    requires
        valley.takes(from, since, to, n),
        valley.takes(from, since, to, m),
    ensures
        n == m,
{
    if n < m {
        assert(!valley.reach(from, since, n, to));
    }
    if m < n {
        assert(!valley.reach(from, since, m, to));
    }
}

/// The least number of minutes to the end, back to the start and to the end
/// again, each way as fast as can be; `None` where a way takes more than
/// `PATIENCE` minutes.
pub fn try_part2(input: &InputType) -> (r: Option<usize>)
    requires
        input.searchable(),
    ensures
        r.is_some() == there_and_back(input@, input.start@, input.end@),
        r matches Some(n) ==> exists|a: nat, b: nat, c: nat|
            #[trigger] ways(input@, input.start@, input.end@, a, b, c) && n == a + b + c,
{
    let ghost valley = input@;
    let ghost start = input.start@;
    let ghost end = input.end@;
    let first = match travel(input, input.start, input.end, 0, PATIENCE) {
        Some(t) => t,
        None => {
            proof {
                if there_and_back(valley, start, end) {
                    let (a, b, c) = choose|a: nat, b: nat, c: nat| #[trigger]
                        ways(valley, start, end, a, b, c);
                    assert(valley.reach(start, 0, a, end));
                }
            }
            return None;
        },
    };
    let second = match travel(input, input.end, input.start, first, first + PATIENCE) {
        Some(t) => t,
        None => {
            proof {
                if there_and_back(valley, start, end) {
                    let (a, b, c) = choose|a: nat, b: nat, c: nat| #[trigger]
                        ways(valley, start, end, a, b, c);
                    lemma_takes_once(valley, start, 0, end, a, first as nat);
                    assert(valley.reach(end, first as int, b, start));
                }
            }
            return None;
        },
    };
    let third = match travel(input, input.start, input.end, second, second + PATIENCE) {
        Some(t) => t,
        None => {
            proof {
                if there_and_back(valley, start, end) {
                    let (a, b, c) = choose|a: nat, b: nat, c: nat| #[trigger]
                        ways(valley, start, end, a, b, c);
                    lemma_takes_once(valley, start, 0, end, a, first as nat);
                    lemma_takes_once(valley, end, first as int, start, b, (second - first) as nat);
                    assert(valley.reach(start, second as int, c, end));
                }
            }
            return None;
        },
    };
    assert(ways(
        valley,
        start,
        end,
        first as nat,
        (second - first) as nat,
        (third - second) as nat,
    ));
    Some(third)
}

/// The least number of minutes to the end, back to the start and to the end
/// again.
pub fn part2(input: &InputType) -> (minutes: usize)
    requires
        input.searchable(),
        there_and_back(input@, input.start@, input.end@),
    ensures
        exists|a: nat, b: nat, c: nat|
            #[trigger] ways(input@, input.start@, input.end@, a, b, c) && minutes == a + b + c,
{
    try_part2(input).unwrap()
}

} // verus!
