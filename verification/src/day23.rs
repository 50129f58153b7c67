//! Elves that spread out on a field: in each turn every elf with a
//! neighbour proposes a step by the first rule that fits, and the elves
//! whose proposal is the only one for its place make the step.
use crate::text::{lines, lines_of, rows};
use std::ops::Range;
use vstd::prelude::*;
use vstd::string::StringSliceAdditionalSpecFns;

verus! {

/// The eight directions to a neighbour, in the order of their bits in a
/// mask of neighbours.
#[derive(Clone, Copy, Debug, PartialEq, Eq, Structural)]
pub enum Direction {
    NorthWest,
    North,
    NorthEast,
    West,
    East,
    SouthWest,
    South,
    SouthEast,
}

pub type Coordinate = i32;

/// A place on the field: `x` to the east, `y` to the south.
#[derive(Clone, Copy, Debug, PartialEq, Eq, Structural)]
pub struct Position {
    pub x: Coordinate,
    pub y: Coordinate,
}

/// A place as the rules see it.
pub type Place = (int, int);

impl View for Position {
    type V = Place;

    open spec fn view(&self) -> Place {
        (self.x as int, self.y as int)
    }
}

/// The elves.
#[derive(Debug)]
pub struct InputType {
    pub elves: Vec<Position>,
}

/// The elves in a turn: where they stand, the rule that is tried first,
/// and the number of turns that have passed.
#[derive(Debug)]
pub struct State {
    pub elves: Vec<Position>,
    pub first_rule: usize,
    pub turn: usize,
}

pub const NUM_RULES: usize = 4;

pub const NUM_TURNS: usize = 10;

/// All elves must stand less than this far from the origin along each
/// axis, and no more than this many turns are played.
pub const BOUND: Coordinate = 10_000;

/// The place next to `p` in a direction.
pub open spec fn step(p: Place, toward: Direction) -> Place {
    match toward {
        Direction::NorthWest => (p.0 - 1, p.1 - 1),
        Direction::North => (p.0, p.1 - 1),
        Direction::NorthEast => (p.0 + 1, p.1 - 1),
        Direction::East => (p.0 + 1, p.1),
        Direction::SouthEast => (p.0 + 1, p.1 + 1),
        Direction::South => (p.0, p.1 + 1),
        Direction::SouthWest => (p.0 - 1, p.1 + 1),
        Direction::West => (p.0 - 1, p.1),
    }
}

/// The places of the elves.
pub open spec fn places(elves: Seq<Position>) -> Seq<Place> {
    elves.map_values(|p: Position| p@)
}

/// Whether an elf stands at the place.
pub open spec fn occupied(elves: Seq<Place>, p: Place) -> bool {
    elves.contains(p)
}

/// Whether no elf stands next to the place.
pub open spec fn alone(elves: Seq<Place>, p: Place) -> bool {
    &&& !occupied(elves, step(p, Direction::NorthWest))
    &&& !occupied(elves, step(p, Direction::North))
    &&& !occupied(elves, step(p, Direction::NorthEast))
    &&& !occupied(elves, step(p, Direction::West))
    &&& !occupied(elves, step(p, Direction::East))
    &&& !occupied(elves, step(p, Direction::SouthWest))
    &&& !occupied(elves, step(p, Direction::South))
    &&& !occupied(elves, step(p, Direction::SouthEast))
}

/// The direction of a rule: north, south, west, east.
pub open spec fn rule_direction(rule: int) -> Direction {
    if rule == 0 {
        Direction::North
    } else if rule == 1 {
        Direction::South
    } else if rule == 2 {
        Direction::West
    } else {
        Direction::East
    }
}

/// Whether a rule fits at a place: no elf stands on the three places on the
/// side of its direction.
pub open spec fn rule_fits(elves: Seq<Place>, p: Place, rule: int) -> bool {
    if rule == 0 {
        !occupied(elves, step(p, Direction::NorthWest)) && !occupied(
            elves,
            step(p, Direction::North),
        ) && !occupied(elves, step(p, Direction::NorthEast))
    } else if rule == 1 {
        !occupied(elves, step(p, Direction::SouthWest)) && !occupied(
            elves,
            step(p, Direction::South),
        ) && !occupied(elves, step(p, Direction::SouthEast))
    } else if rule == 2 {
        !occupied(elves, step(p, Direction::NorthWest)) && !occupied(
            elves,
            step(p, Direction::West),
        ) && !occupied(elves, step(p, Direction::SouthWest))
    } else {
        !occupied(elves, step(p, Direction::NorthEast)) && !occupied(
            elves,
            step(p, Direction::East),
        ) && !occupied(elves, step(p, Direction::SouthEast))
    }
}

/// The direction that the elf at a place proposes: none where it is alone,
/// else that of the first rule that fits, the rules being tried in their
/// order from `first_rule` on and round.
pub open spec fn proposal(elves: Seq<Place>, first_rule: int, p: Place) -> Option<Direction> {
    if alone(elves, p) {
        None
    } else if rule_fits(elves, p, first_rule % 4) {
        Some(rule_direction(first_rule % 4))
    } else if rule_fits(elves, p, (first_rule + 1) % 4) {
        Some(rule_direction((first_rule + 1) % 4))
    } else if rule_fits(elves, p, (first_rule + 2) % 4) {
        Some(rule_direction((first_rule + 2) % 4))
    } else if rule_fits(elves, p, (first_rule + 3) % 4) {
        Some(rule_direction((first_rule + 3) % 4))
    } else {
        None
    }
}

/// The place that the elf at a place proposes to step to.
pub open spec fn wish(elves: Seq<Place>, first_rule: int, p: Place) -> Option<Place> {
    match proposal(elves, first_rule, p) {
        Some(dir) => Some(step(p, dir)),
        None => None,
    }
}

/// The places that the elves propose, elf by elf.
pub open spec fn all_wishes(elves: Seq<Place>, first_rule: int) -> Seq<Option<Place>> {
    Seq::new(elves.len(), |i: int| wish(elves, first_rule, elves[i]))
}

/// The number of the first `n` proposals that are for the place.
pub open spec fn count_in(wishes: Seq<Option<Place>>, q: Place, n: nat) -> int
    decreases n,
{
    if n == 0 {
        0
    } else {
        count_in(wishes, q, (n - 1) as nat) + if wishes[n - 1] == Some(q) {
            1int
        } else {
            0int
        }
    }
}

/// Where the elf at a place stands after the turn: on the place that it
/// proposes, where it is the only one to propose it, else where it stood.
pub open spec fn moved_one(elves: Seq<Place>, first_rule: int, p: Place) -> Place {
    match wish(elves, first_rule, p) {
        Some(q) => if count_in(all_wishes(elves, first_rule), q, elves.len()) == 1 {
            q
        } else {
            p
        },
        None => p,
    }
}

/// Where the elves stand after the turn.
pub open spec fn moved(elves: Seq<Place>, first_rule: int) -> Seq<Place> {
    Seq::new(elves.len(), |i: int| moved_one(elves, first_rule, elves[i]))
}

/// Where the elves stand after a number of turns; the rule that is tried
/// first moves on by one with every turn.
pub open spec fn after(elves: Seq<Place>, turns: nat) -> Seq<Place>
    decreases turns,
{
    if turns == 0 {
        elves
    } else {
        moved(after(elves, (turns - 1) as nat), turns - 1)
    }
}

/// Whether every elf stands within `reach` of the origin along each axis.
pub open spec fn within(elves: Seq<Place>, reach: int) -> bool {
    forall|i: int|
        0 <= i < elves.len() ==> -reach <= (#[trigger] elves[i]).0 <= reach && -reach
            <= elves[i].1 <= reach
}

/// A turn moves no elf by more than one step.
pub proof fn lemma_moved(elves: Seq<Place>, first_rule: int, reach: int)
    requires
        within(elves, reach),
    ensures
        within(moved(elves, first_rule), reach + 1),
        moved(elves, first_rule).len() == elves.len(),
{
    assert forall|i: int| 0 <= i < elves.len() implies -(reach + 1) <= (#[trigger] moved(
        elves,
        first_rule,
    )[i]).0 <= reach + 1 && -(reach + 1) <= moved(elves, first_rule)[i].1 <= reach + 1 by {
        assert(-reach <= elves[i].0 <= reach);
    }
}

/// After `turns` turns no elf stands more than `turns` steps further out.
pub proof fn lemma_after(elves: Seq<Place>, turns: nat, reach: int)
    requires
        within(elves, reach),
    ensures
        within(after(elves, turns), reach + turns),
        after(elves, turns).len() == elves.len(),
    decreases turns,
{
    if turns > 0 {
        lemma_after(elves, (turns - 1) as nat, reach);
        lemma_moved(after(elves, (turns - 1) as nat), turns - 1, reach + turns - 1);
    }
}

impl Position {
    /// The place next to this one in a direction.
    pub fn advance(&self, toward: Direction) -> (p: Position)
        requires
            Coordinate::MIN < self.x < Coordinate::MAX,
            Coordinate::MIN < self.y < Coordinate::MAX,
        ensures
            p@ == step(self@, toward),
    {
        match toward {
            Direction::NorthWest => Position { x: self.x - 1, y: self.y - 1 },
            Direction::North => Position { x: self.x, y: self.y - 1 },
            Direction::NorthEast => Position { x: self.x + 1, y: self.y - 1 },
            Direction::East => Position { x: self.x + 1, y: self.y },
            Direction::SouthEast => Position { x: self.x + 1, y: self.y + 1 },
            Direction::South => Position { x: self.x, y: self.y + 1 },
            Direction::SouthWest => Position { x: self.x - 1, y: self.y + 1 },
            Direction::West => Position { x: self.x - 1, y: self.y },
        }
    }
}

/// The elves that the lines draw: one at each `#`, in the order of the
/// lines and of the characters of a line.
pub open spec fn drawn(ls: Seq<Seq<u8>>, n: nat) -> Seq<Place>
    decreases n,
{
    if n == 0 {
        Seq::empty()
    } else {
        drawn(ls, (n - 1) as nat) + drawn_in(ls[n - 1], n - 1, ls[n - 1].len())
    }
}

/// The elves that the first `m` characters of a line draw.
pub open spec fn drawn_in(line: Seq<u8>, y: int, m: nat) -> Seq<Place>
    decreases m,
{
    if m == 0 {
        Seq::empty()
    } else if line[m - 1] == 35 {
        drawn_in(line, y, (m - 1) as nat).push((m - 1, y))
    } else {
        drawn_in(line, y, (m - 1) as nat)
    }
}

/// The elves of the text; `None` where it has more lines, or a line more
/// characters, than coordinates go.
pub fn parse(input: &str) -> (r: Option<InputType>)
    ensures
        r matches Some(v) ==> places(v.elves@) == drawn(
            lines_of(input.spec_bytes()),
            lines_of(input.spec_bytes()).len(),
        ),
        r.is_none() == (lines_of(input.spec_bytes()).len() > Coordinate::MAX || exists|i: int|
            0 <= i < lines_of(input.spec_bytes()).len() && (#[trigger] lines_of(
                input.spec_bytes(),
            )[i]).len() > Coordinate::MAX),
{
    let all = lines(input.as_bytes());
    let ghost ls = lines_of(input.spec_bytes());
    if all.len() > 0x7fff_ffff {
        return None;
    }
    let mut elves: Vec<Position> = Vec::new();
    let mut y: usize = 0;
    assert(places(elves@) =~= drawn(ls, 0));
    while y < all.len()
        invariant
            y <= all.len() <= Coordinate::MAX,
            rows(all@) == ls,
            ls == lines_of(input.spec_bytes()),
            forall|i: int| 0 <= i < y ==> (#[trigger] ls[i]).len() <= Coordinate::MAX,
            places(elves@) == drawn(ls, y as nat),
        decreases all.len() - y,
    {
        let line = &all[y];
        assert(rows(all@)[y as int] == line@);
        if line.len() > 0x7fff_ffff {
            assert(lines_of(input.spec_bytes())[y as int].len() > Coordinate::MAX);
            return None;
        }
        let ghost before = places(elves@);
        let mut x: usize = 0;
        assert(places(elves@) =~= before + drawn_in(line@, y as int, 0));
        while x < line.len()
            invariant
                x <= line.len() <= Coordinate::MAX,
                y <= Coordinate::MAX,
                places(elves@) == before + drawn_in(line@, y as int, x as nat),
            decreases line.len() - x,
        {
            if line[x] == 35 {
                let ghost now = places(elves@);
                elves.push(Position { x: x as Coordinate, y: y as Coordinate });
                assert(places(elves@) =~= now.push((x as int, y as int)));
            }
            x += 1;
            assert(places(elves@) =~= before + drawn_in(line@, y as int, x as nat));
        }
        y += 1;
    }
    Some(InputType { elves })
}

/// The elves of the text.
pub fn generator(input: &str) -> (v: InputType)
    requires
        lines_of(input.spec_bytes()).len() <= Coordinate::MAX,
        forall|i: int|
            0 <= i < lines_of(input.spec_bytes()).len() ==> (#[trigger] lines_of(
                input.spec_bytes(),
            )[i]).len() <= Coordinate::MAX,
    ensures
        places(v.elves@) == drawn(
            lines_of(input.spec_bytes()),
            lines_of(input.spec_bytes()).len(),
        ),
{
    parse(input).unwrap()
}

/// The bit of a direction in a mask of neighbours.
pub open spec fn bit_of(dir: Direction) -> u8 {
    match dir {
        Direction::NorthWest => 0,
        Direction::North => 1,
        Direction::NorthEast => 2,
        Direction::West => 3,
        Direction::East => 4,
        Direction::SouthWest => 5,
        Direction::South => 6,
        Direction::SouthEast => 7,
    }
}

/// 1 where an elf stands next to the place in the direction, else 0.
pub open spec fn flag(elves: Seq<Place>, p: Place, dir: Direction) -> u8 {
    if occupied(elves, step(p, dir)) {
        1
    } else {
        0
    }
}

/// Whether an elf stands at the place.
pub fn is_occupied(locations: &Vec<Position>, p: &Position) -> (found: bool)
    ensures
        found == occupied(places(locations@), p@),
{
    let mut i: usize = 0;
    while i < locations.len()
        invariant
            i <= locations.len(),
            forall|k: int| 0 <= k < i ==> places(locations@)[k] != p@,
        decreases locations.len() - i,
    {
        if locations[i].x == p.x && locations[i].y == p.y {
            assert(places(locations@)[i as int] == p@);
            return true;
        }
        i += 1;
    }
    false
}

impl State {
    /// The elves before the first turn.
    pub fn new(input: &InputType) -> (state: State)
        ensures
            places(state.elves@) == places(input.elves@),
            state.first_rule == 0,
            state.turn == 0,
    {
        State { elves: copy_elves(&input.elves), first_rule: 0, turn: 0 }
    }

    /// Sets the bit of the direction in the mask where an elf stands next to
    /// `elf` in that direction.
    pub fn update_mask(mask: &mut u8, elf: Position, dir: Direction, locations: &Vec<Position>)
        requires
            Coordinate::MIN < elf.x < Coordinate::MAX,
            Coordinate::MIN < elf.y < Coordinate::MAX,
        ensures
            *final(mask) == *old(mask) | (flag(places(locations@), elf@, dir) << bit_of(dir)),
    {
        let bit: u8 = match dir {
            Direction::NorthWest => 0,
            Direction::North => 1,
            Direction::NorthEast => 2,
            Direction::West => 3,
            Direction::East => 4,
            Direction::SouthWest => 5,
            Direction::South => 6,
            Direction::SouthEast => 7,
        };
        let before = *mask;
        if is_occupied(locations, &elf.advance(dir)) {
            *mask = before | (1u8 << bit);
        } else {
            assert(before | (0u8 << bit) == before) by (bit_vector);
        }
    }

    /// The direction that an elf proposes.
    pub fn find_rule(&self, elf: Position, locations: &Vec<Position>) -> (r: Option<Direction>)
        requires
            Coordinate::MIN < elf.x < Coordinate::MAX,
            Coordinate::MIN < elf.y < Coordinate::MAX,
            self.first_rule < NUM_RULES,
        ensures
            r == proposal(places(locations@), self.first_rule as int, elf@),
    {
        let ghost at = places(locations@);
        let ghost c0 = flag(at, elf@, Direction::NorthWest);
        let ghost c1 = flag(at, elf@, Direction::North);
        let ghost c2 = flag(at, elf@, Direction::NorthEast);
        let ghost c3 = flag(at, elf@, Direction::West);
        let ghost c4 = flag(at, elf@, Direction::East);
        let ghost c5 = flag(at, elf@, Direction::SouthWest);
        let ghost c6 = flag(at, elf@, Direction::South);
        let ghost c7 = flag(at, elf@, Direction::SouthEast);
        let mut neighbors: u8 = 0;
        State::update_mask(&mut neighbors, elf, Direction::NorthWest, locations);
        State::update_mask(&mut neighbors, elf, Direction::North, locations);
        State::update_mask(&mut neighbors, elf, Direction::NorthEast, locations);
        State::update_mask(&mut neighbors, elf, Direction::West, locations);
        State::update_mask(&mut neighbors, elf, Direction::East, locations);
        State::update_mask(&mut neighbors, elf, Direction::SouthWest, locations);
        State::update_mask(&mut neighbors, elf, Direction::South, locations);
        State::update_mask(&mut neighbors, elf, Direction::SouthEast, locations);
        proof {
            assert(neighbors == 0u8 | (c0 << 0u8) | (c1 << 1u8) | (c2 << 2u8) | (c3 << 3u8) | (c4
                << 4u8) | (c5 << 5u8) | (c6 << 6u8) | (c7 << 7u8));
            assert((neighbors == 0u8) == (c0 == 0 && c1 == 0 && c2 == 0 && c3 == 0 && c4 == 0
                && c5 == 0 && c6 == 0 && c7 == 0) && (neighbors & 0x7u8 == 0u8) == (c0 == 0 && c1
                == 0 && c2 == 0) && (neighbors & 0xe0u8 == 0u8) == (c5 == 0 && c6 == 0 && c7
                == 0) && (neighbors & 0x29u8 == 0u8) == (c0 == 0 && c3 == 0 && c5 == 0) && (
            neighbors & 0x94u8 == 0u8) == (c2 == 0 && c4 == 0 && c7 == 0)) by (bit_vector)
                requires
                    neighbors == 0u8 | (c0 << 0u8) | (c1 << 1u8) | (c2 << 2u8) | (c3 << 3u8) | (c4
                        << 4u8) | (c5 << 5u8) | (c6 << 6u8) | (c7 << 7u8),
                    c0 <= 1,
                    c1 <= 1,
                    c2 <= 1,
                    c3 <= 1,
                    c4 <= 1,
                    c5 <= 1,
                    c6 <= 1,
                    c7 <= 1,
            ;
        }
        if neighbors == 0 {
            return None;
        }
        let mut rule: usize = 0;
        while rule < NUM_RULES
            invariant
                rule <= NUM_RULES,
                self.first_rule < NUM_RULES,
                at == places(locations@),
                !alone(at, elf@),
                (neighbors & 0x7u8 == 0u8) == rule_fits(at, elf@, 0),
                (neighbors & 0xe0u8 == 0u8) == rule_fits(at, elf@, 1),
                (neighbors & 0x29u8 == 0u8) == rule_fits(at, elf@, 2),
                (neighbors & 0x94u8 == 0u8) == rule_fits(at, elf@, 3),
                rule > 0 ==> !rule_fits(at, elf@, (self.first_rule + 0) % 4),
                rule > 1 ==> !rule_fits(at, elf@, (self.first_rule + 1) % 4),
                rule > 2 ==> !rule_fits(at, elf@, (self.first_rule + 2) % 4),
                rule > 3 ==> !rule_fits(at, elf@, (self.first_rule + 3) % 4),
            decreases NUM_RULES - rule,
        {
            let which = (rule + self.first_rule) % NUM_RULES;
            if which == 0 {
                if neighbors & 0x7 == 0 {
                    return Some(Direction::North);
                }
            } else if which == 1 {
                if neighbors & 0xe0 == 0 {
                    return Some(Direction::South);
                }
            } else if which == 2 {
                if neighbors & 0x29 == 0 {
                    return Some(Direction::West);
                }
            } else {
                if neighbors & 0x94 == 0 {
                    return Some(Direction::East);
                }
            }
            rule += 1;
        }
        proof {
            assert(!rule_fits(at, elf@, (self.first_rule + 0) % 4));
            assert(!rule_fits(at, elf@, (self.first_rule + 1) % 4));
            assert(!rule_fits(at, elf@, (self.first_rule + 2) % 4));
            assert(!rule_fits(at, elf@, (self.first_rule + 3) % 4));
        }
        None
    }
}

/// A copy of the elves.
pub fn copy_elves(elves: &Vec<Position>) -> (copy: Vec<Position>)
    ensures
        copy@ == elves@,
{
    let mut copy: Vec<Position> = Vec::new();
    let mut i: usize = 0;
    while i < elves.len()
        invariant
            i <= elves.len(),
            copy@ == elves@.take(i as int),
        decreases elves.len() - i,
    {
        copy.push(elves[i]);
        assert(copy@ =~= elves@.take(i as int + 1));
        i += 1;
    }
    assert(elves@.take(i as int) =~= elves@);
    copy
}

/// The proposals as the rules see them.
pub open spec fn wishes_of(wishes: Seq<Option<Position>>) -> Seq<Option<Place>> {
    wishes.map_values(
        |w: Option<Position>|
            match w {
                Some(p) => Some(p@),
                None => None,
            },
    )
}

/// The number of proposals for a place.
pub fn count_wishes(wishes: &Vec<Option<Position>>, q: &Position) -> (count: usize)
    ensures
        count == count_in(wishes_of(wishes@), q@, wishes.len() as nat),
{
    let mut count: usize = 0;
    let mut i: usize = 0;
    while i < wishes.len()
        invariant
            i <= wishes.len(),
            count == count_in(wishes_of(wishes@), q@, i as nat),
            count <= i,
        decreases wishes.len() - i,
    {
        assert(wishes_of(wishes@)[i as int] == match wishes[i as int] {
            Some(p) => Some(p@),
            None => None,
        });
        match wishes[i] {
            Some(p) => {
                if p.x == q.x && p.y == q.y {
                    count += 1;
                }
            },
            None => {},
        }
        i += 1;
    }
    count
}

/// Whether a turn moves an elf.
pub open spec fn stirs(elves: Seq<Place>, first_rule: int) -> bool {
    exists|i: int| 0 <= i < elves.len() && moved_one(elves, first_rule, #[trigger] elves[i]) != elves[i]
}

impl State {
    /// Whether the rule that is tried first is the one of the turn, and the
    /// elves stand within reach.
    pub open spec fn wf(&self) -> bool {
        &&& self.first_rule == self.turn % NUM_RULES
        &&& self.turn < 2 * BOUND
        &&& within(places(self.elves@), 2 * BOUND + self.turn)
    }

    /// One turn; says whether an elf moved.
    pub fn everybody_move(&mut self) -> (result: bool)
        requires
            old(self).wf(),
        ensures
            places(final(self).elves@) == moved(places(old(self).elves@), old(self).turn as int),
            result == stirs(places(old(self).elves@), old(self).turn as int),
            final(self).turn == old(self).turn + 1,
            final(self).first_rule == final(self).turn % NUM_RULES,
            within(places(final(self).elves@), 2 * BOUND + final(self).turn),
    {
        let num_elves = self.elves.len();
        let locations = copy_elves(&self.elves);
        let ghost at = places(locations@);
        let ghost rule = self.turn as int;
        let mut result = false;
        // Generate all of the proposals
        let mut elf_proposal: Vec<Option<Position>> = Vec::new();
        let mut i: usize = 0;
        proof {
            lemma_moved(at, rule, 2 * BOUND + self.turn);
            assert forall|p: Place| #[trigger] proposal(at, self.first_rule as int, p) == proposal(at, rule, p) by {
                assert(self.first_rule as int % 4 == rule % 4);
                assert((self.first_rule as int + 1) % 4 == (rule + 1) % 4);
                assert((self.first_rule as int + 2) % 4 == (rule + 2) % 4);
                assert((self.first_rule as int + 3) % 4 == (rule + 3) % 4);
            }
        }
        while i < num_elves
            invariant
                i <= num_elves == self.elves.len(),
                self.elves@ == locations@,
                self.first_rule < NUM_RULES,
                at == places(locations@),
                within(at, 2 * BOUND + self.turn),
                self.turn < 2 * BOUND,
                rule == self.turn,
                forall|p: Place| #[trigger] proposal(at, self.first_rule as int, p) == proposal(at, rule, p),
                elf_proposal.len() == i,
                forall|k: int|
                    0 <= k < i ==> #[trigger] wishes_of(elf_proposal@)[k] == wish(at, rule, at[k]),
            decreases num_elves - i,
        {
            let elf = self.elves[i];
            proof {
                assert(at[i as int] == elf@);
                assert(-(2 * BOUND + self.turn) <= at[i as int].0 <= 2 * BOUND + self.turn);
            }
            let found = self.find_rule(elf, &locations);
            let ghost before = wishes_of(elf_proposal@);
            match found {
                Some(dir) => {
                    elf_proposal.push(Some(elf.advance(dir)));
                },
                None => {
                    elf_proposal.push(None);
                },
            }
            proof {
                assert(proposal(at, self.first_rule as int, elf@) == proposal(at, rule, elf@));
                assert forall|k: int| 0 <= k < i + 1 implies #[trigger] wishes_of(elf_proposal@)[k]
                    == wish(at, rule, at[k]) by {
                    if k < i {
                        assert(wishes_of(elf_proposal@)[k] == before[k]);
                    }
                }
            }
            i += 1;
        }
        proof {
            assert(wishes_of(elf_proposal@) =~= all_wishes(at, rule));
        }
        // If only 1 elf proposed moving there, go ahead and move
        let mut i: usize = 0;
        while i < num_elves
            invariant
                i <= num_elves == self.elves.len(),
                locations.len() == num_elves,
                at == places(locations@),
                elf_proposal.len() == num_elves,
                wishes_of(elf_proposal@) == all_wishes(at, rule),
                self.turn == old(self).turn,
                self.first_rule == old(self).first_rule,
                forall|k: int|
                    0 <= k < i ==> (#[trigger] self.elves[k])@ == moved_one(at, rule, at[k]),
                forall|k: int| i <= k < num_elves ==> (#[trigger] self.elves[k])@ == at[k],
                result == exists|k: int|
                    0 <= k < i && moved_one(at, rule, #[trigger] at[k]) != at[k],
            decreases num_elves - i,
        {
            proof {
                assert(wishes_of(elf_proposal@)[i as int] == wish(at, rule, at[i as int]));
                assert(wishes_of(elf_proposal@)[i as int] == match elf_proposal[i as int] {
                    Some(p) => Some(p@),
                    None => None,
                });
            }
            let ghost so_far = result;
            match elf_proposal[i] {
                Some(new_loc) => {
                    if count_wishes(&elf_proposal, &new_loc) == 1 {
                        result = true;
                        self.elves[i] = new_loc;
                        proof {
                            assert(moved_one(at, rule, at[i as int]) == new_loc@);
                            let dir = proposal(at, rule, at[i as int]).unwrap();
                            assert(new_loc@ == step(at[i as int], dir));
                            assert(new_loc@ != at[i as int]);
                        }
                    }
                },
                None => {},
            }
            proof {
                if !result {
                    assert(moved_one(at, rule, at[i as int]) == at[i as int]);
                }
            }
            i += 1;
        }
        proof {
            assert(places(self.elves@) =~= moved(at, rule));
        }
        self.first_rule = (self.first_rule + 1) % NUM_RULES;
        self.turn += 1;
        result
    }

    /// The ranges of the columns and of the rows in which elves stand; both
    /// empty where there is no elf.
    pub fn find_range(&self) -> (r: (Range<Coordinate>, Range<Coordinate>))
        requires
            within(places(self.elves@), 4 * BOUND as int),
        ensures
            self.elves.len() == 0 ==> r.0.start == 0 && r.0.end == 0 && r.1.start == 0 && r.1.end
                == 0,
            self.elves.len() > 0 ==> frames(places(self.elves@), r.0.start as int, r.0.end as int, r.1.start as int, r.1.end as int),
    {
        if self.elves.len() == 0 {
            return (Range { start: 0, end: 0 }, Range { start: 0, end: 0 });
        }
        let ghost at = places(self.elves@);
        assert(at[0] == self.elves[0]@);
        let first = self.elves[0];
        let mut x_range = Range { start: first.x, end: first.x + 1 };
        let mut y_range = Range { start: first.y, end: first.y + 1 };
        let mut i: usize = 1;
        while i < self.elves.len()
            invariant
                1 <= i <= self.elves.len(),
                at == places(self.elves@),
                within(at, 4 * BOUND as int),
                forall|k: int|
                    0 <= k < i ==> x_range.start <= (#[trigger] at[k]).0 < x_range.end
                        && y_range.start <= at[k].1 < y_range.end,
                exists|k: int| 0 <= k < i && (#[trigger] at[k]).0 == x_range.start,
                exists|k: int| 0 <= k < i && (#[trigger] at[k]).0 + 1 == x_range.end,
                exists|k: int| 0 <= k < i && (#[trigger] at[k]).1 == y_range.start,
                exists|k: int| 0 <= k < i && (#[trigger] at[k]).1 + 1 == y_range.end,
            decreases self.elves.len() - i,
        {
            let p = self.elves[i];
            proof {
                assert(at[i as int] == p@);
                assert(-(4 * BOUND) <= at[i as int].0 <= 4 * BOUND);
            }
            if p.x < x_range.start {
                x_range.start = p.x;
            }
            if p.x + 1 > x_range.end {
                x_range.end = p.x + 1;
            }
            if p.y < y_range.start {
                y_range.start = p.y;
            }
            if p.y + 1 > y_range.end {
                y_range.end = p.y + 1;
            }
            i += 1;
        }
        (x_range, y_range)
    }

    /// Find the total size of the covered area
    pub fn find_size(&self) -> (size: Coordinate)
        requires
            within(places(self.elves@), NEAR as int),
        ensures
            self.elves.len() == 0 ==> size == 0,
            self.elves.len() > 0 ==> exists|x0: int, x1: int, y0: int, y1: int|
                #![auto]
                frames(places(self.elves@), x0, x1, y0, y1) && size == (x1 - x0) * (y1 - y0),
    {
        let (x_range, y_range) = self.find_range();
        proof {
            if self.elves.len() > 0 {
                let at = places(self.elves@);
                let a = choose|k: int| 0 <= k < at.len() && (#[trigger] at[k]).0 == x_range.start;
                let b = choose|k: int| 0 <= k < at.len() && (#[trigger] at[k]).0 + 1 == x_range.end;
                let c = choose|k: int| 0 <= k < at.len() && (#[trigger] at[k]).1 == y_range.start;
                let d = choose|k: int| 0 <= k < at.len() && (#[trigger] at[k]).1 + 1 == y_range.end;
                assert(-NEAR <= at[a].0 && at[b].0 <= NEAR);
                assert(-NEAR <= at[c].1 && at[d].1 <= NEAR);
                assert(at[a].0 <= at[b].0 && at[c].1 <= at[d].1);
            }
            let w = x_range.end - x_range.start;
            let h = y_range.end - y_range.start;
            assert(0 <= w * h <= 46_001 * 46_001) by (nonlinear_arith)
                requires
                    0 <= w <= 46_001,
                    0 <= h <= 46_001,
            ;
            if self.elves.len() == 0 {
                assert(w * h == 0) by (nonlinear_arith)
                    requires
                        w == 0,
                ;
            }
        }
        (x_range.end - x_range.start) * (y_range.end - y_range.start)
    }
}

/// Elves that stand no further than this from the origin cover an area
/// that fits `Coordinate`.
pub const NEAR: Coordinate = 23_000;

/// Whether the ranges are the least that hold all the elves, of which
/// there is one.
pub open spec fn frames(elves: Seq<Place>, x0: int, x1: int, y0: int, y1: int) -> bool {
    &&& forall|k: int|
        0 <= k < elves.len() ==> x0 <= (#[trigger] elves[k]).0 < x1 && y0 <= elves[k].1 < y1
    &&& exists|k: int| 0 <= k < elves.len() && (#[trigger] elves[k]).0 == x0
    &&& exists|k: int| 0 <= k < elves.len() && (#[trigger] elves[k]).0 + 1 == x1
    &&& exists|k: int| 0 <= k < elves.len() && (#[trigger] elves[k]).1 == y0
    &&& exists|k: int| 0 <= k < elves.len() && (#[trigger] elves[k]).1 + 1 == y1
}

/// Whether `area` is the area of the least rectangle round the elves; 0
/// where there is no elf.
pub open spec fn is_area(elves: Seq<Place>, area: int) -> bool {
    if elves.len() == 0 {
        area == 0
    } else {
        exists|x0: int, x1: int, y0: int, y1: int|
            #![auto]
            frames(elves, x0, x1, y0, y1) && area == (x1 - x0) * (y1 - y0)
    }
}

/// The number of places without an elf in the least rectangle round the
/// elves after `NUM_TURNS` turns.
pub fn part1(input: &InputType) -> (free: Coordinate)
    requires
        within(places(input.elves@), BOUND as int),
        input.elves.len() <= BOUND,
    ensures
        is_area(after(places(input.elves@), NUM_TURNS as nat), free + input.elves.len()),
{
    let ghost start = places(input.elves@);
    let mut state = State::new(input);
    let mut turn: usize = 0;
    while turn < NUM_TURNS
        invariant
            turn <= NUM_TURNS,
            state.turn == turn,
            state.first_rule == turn % NUM_RULES,
            start == places(input.elves@),
            within(start, BOUND as int),
            places(state.elves@) == after(start, turn as nat),
        decreases NUM_TURNS - turn,
    {
        proof {
            lemma_after(start, turn as nat, BOUND as int);
        }
        state.everybody_move();
        turn += 1;
    }
    proof {
        lemma_after(start, NUM_TURNS as nat, BOUND as int);
    }
    state.find_size() - input.elves.len() as Coordinate
}

/// Whether no elf moves in the turn after `turns` turns.
pub open spec fn calm(elves: Seq<Place>, turns: nat) -> bool {
    !stirs(after(elves, turns), turns as int)
}

/// The number of the first turn in which no elf moves, where it is among the
/// first `BOUND` turns.
pub fn try_part2(input: &InputType) -> (r: Option<Coordinate>)
    requires
        within(places(input.elves@), BOUND as int),
    ensures
        r matches Some(turns) ==> turns >= 1 && calm(places(input.elves@), (turns - 1) as nat)
            && forall|t: nat| t < turns - 1 ==> !#[trigger] calm(places(input.elves@), t),
        r.is_none() ==> forall|t: nat| t < BOUND ==> !#[trigger] calm(places(input.elves@), t),
{
    let ghost start = places(input.elves@);
    let mut state = State::new(input);
    while state.turn < BOUND as usize
        invariant
            state.turn <= BOUND,
            start == places(input.elves@),
            within(start, BOUND as int),
            state.first_rule == state.turn % NUM_RULES,
            places(state.elves@) == after(start, state.turn as nat),
            forall|t: nat| t < state.turn ==> !#[trigger] calm(start, t),
        decreases BOUND - state.turn,
    {
        let ghost before = state.turn;
        proof {
            lemma_after(start, state.turn as nat, BOUND as int);
        }
        if !state.everybody_move() {
            return Some(state.turn as Coordinate);
        }
        proof {
            assert(!calm(start, before as nat));
            assert forall|t: nat| t < state.turn implies !#[trigger] calm(start, t) by {
                if t == before {
                    assert(!calm(start, before as nat));
                }
            }
        }
    }
    None
}

/// The number of the first turn in which no elf moves.
pub fn part2(input: &InputType) -> (turns: Coordinate)
    requires
        within(places(input.elves@), BOUND as int),
        exists|t: nat| t < BOUND && #[trigger] calm(places(input.elves@), t),
    ensures
        turns >= 1,
        calm(places(input.elves@), (turns - 1) as nat),
        forall|t: nat| t < turns - 1 ==> !#[trigger] calm(places(input.elves@), t),
{
    try_part2(input).unwrap()
}

} // verus!
