//! A walk over a chart that is the net of a cube: flat, where one comes in
//! again at the other side, and folded, where one goes on over the edge.
use crate::day24::{lemma_widest, widest};
use crate::remainder::lemma_wrapped;
use crate::text::{
    find_from, first_at, is_space, is_whitespace, lines, lines_of, parse_unsigned, rows,
    unsigned_of,
};
use itertools::Itertools;
use vstd::arithmetic::div_mod::{
    lemma_add_mod_noop_right, lemma_fundamental_div_mod, lemma_mod_multiples_vanish,
    lemma_small_mod,
};
use vstd::prelude::*;
use vstd::slice::slice_subrange;
use vstd::string::StringSliceAdditionalSpecFns;

verus! {

#[derive(Clone, Copy, Debug, PartialEq, Eq, Structural)]
pub enum Spot {
    Wall,
    Floor,
    Void,
}

impl Spot {
    /// What a character draws.
    pub open spec fn of(c: u8) -> Option<Spot> {
        if c == 35 {
            Some(Spot::Wall)
        } else if c == 46 {
            Some(Spot::Floor)
        } else if c == 32 {
            Some(Spot::Void)
        } else {
            None
        }
    }

    pub fn parse(c: u8) -> (r: Option<Spot>)
        ensures
            r == Spot::of(c),
    {
        if c == 35 {
            Some(Spot::Wall)
        } else if c == 46 {
            Some(Spot::Floor)
        } else if c == 32 {
            Some(Spot::Void)
        } else {
            None
        }
    }
}

#[derive(Clone, Copy, Debug, PartialEq, Eq, Structural)]
pub enum Move {
    Left,
    Right,
    Forward(i32),
}

/// No chart may be wider or higher than this.
pub const MOST: i32 = 2_000_000;

/// The chart: what is at each place, its width and height, and the length
/// of a side of the cube.
#[derive(Debug)]
pub struct Chart {
    pub walls: Vec<Vec<Spot>>,
    pub size: (i32, i32),
    pub face_size: i32,
}

impl Chart {
    /// Whether the chart has a row for each line of its height, none longer
    /// than its width, and is no larger than `MOST` either way, nor a side
    /// of the cube longer.
    pub open spec fn wf(&self) -> bool {
        &&& 0 < self.size.0 <= MOST
        &&& 0 < self.size.1 <= MOST
        &&& 0 <= self.face_size <= MOST
        &&& self.walls.len() == self.size.1
        &&& forall|y: int| 0 <= y < self.walls.len() ==> (#[trigger] self.walls[y]).len() <= self.size.0
    }

    /// What is at a place: nothing outside the chart and behind the end of
    /// a row.
    pub open spec fn spot(&self, x: int, y: int) -> Spot {
        if 0 <= x < self.size.0 && 0 <= y < self.size.1 && x < self.walls[y].len() {
            self.walls[y][x]
        } else {
            Spot::Void
        }
    }

    /// The place within the chart that a place stands for when the chart
    /// goes round.
    pub open spec fn wrapped(&self, xy: (int, int)) -> (int, int) {
        (xy.0 % (self.size.0 as int), xy.1 % (self.size.1 as int))
    }

    /// Wrap coordinates within the map's ranges
    pub fn wrap_locations(&self, xy: (i32, i32)) -> (r: (i32, i32))
        requires
            self.wf(),
        ensures
            (r.0 as int, r.1 as int) == self.wrapped((xy.0 as int, xy.1 as int)),
            0 <= r.0 < self.size.0,
            0 <= r.1 < self.size.1,
    {
        (rem_euclid(xy.0, self.size.0), rem_euclid(xy.1, self.size.1))
    }

    pub fn get(&self, x: i32, y: i32) -> (s: Spot)
        requires
            self.wf(),
        ensures
            s == self.spot(x as int, y as int),
    {
        if 0 <= x && x < self.size.0 && 0 <= y && y < self.size.1 {
            let row = &self.walls[y as usize];
            if (x as usize) < row.len() {
                return row[x as usize];
            }
        }
        Spot::Void
    }
}

/// The remainder that is never negative, for a positive divisor.
pub fn rem_euclid(a: i32, m: i32) -> (r: i32)
    requires
        m > 0,
    ensures
        r == a as int % m as int,
        0 <= r < m,
{
    let r = a % m;
    proof {
        lemma_wrapped(a as int, m as int);
    }
    if r < 0 {
        r + m
    } else {
        r
    }
}

/// Whether a byte is a decimal digit.
pub fn is_digit(ch: u8) -> (b: bool)
    ensures
        b == (48 <= ch <= 57),
{
    48 <= ch && ch <= 57
}

/// The runs of a line: the digits that follow each other are one run, and
/// so are the other bytes that follow each other; with each run, whether it
/// is one of digits.
pub open spec fn runs_of(line: Seq<u8>) -> Seq<(bool, Seq<u8>)>
    decreases line.len(),
{
    if line.len() == 0 {
        Seq::empty()
    } else {
        let before = runs_of(line.drop_last());
        let digit = 48 <= line.last() <= 57;
        if before.len() > 0 && before.last().0 == digit {
            before.drop_last().push((digit, before.last().1.push(line.last())))
        } else {
            before.push((digit, seq![line.last()]))
        }
    }
}

/// The runs as sequences.
pub open spec fn runs_view(groups: Seq<(bool, Vec<u8>)>) -> Seq<(bool, Seq<u8>)> {
    groups.map_values(|g: (bool, Vec<u8>)| (g.0, g.1@))
}

/// `Itertools::group_by` of the `itertools` crate, with `is_digit` as the
/// key: consecutive bytes with the same key are one group, and each group
/// comes with its key. The groups are collected, in their order.
#[verifier::external_body]
pub(crate) fn digit_runs(line: &[u8]) -> (groups: Vec<(bool, Vec<u8>)>)
    ensures
        runs_view(groups@) == runs_of(line@),
{
    line.iter().group_by(|ch| is_digit(**ch)).into_iter().map(
        |(key, run)| (key, run.copied().collect()),
    ).collect()
}

/// The text without the white space at its end.
pub open spec fn trim_end(s: Seq<u8>) -> Seq<u8>
    decreases s.len(),
{
    if s.len() > 0 && is_space(s.last()) {
        trim_end(s.drop_last())
    } else {
        s
    }
}

/// The text without the white space at its start.
pub open spec fn trim_start(s: Seq<u8>) -> Seq<u8>
    decreases s.len(),
{
    if s.len() > 0 && is_space(s[0]) {
        trim_start(s.skip(1))
    } else {
        s
    }
}

/// The text without the white space at its start and at its end.
pub fn trim(s: &[u8]) -> (r: &[u8])
    ensures
        r@ == trim_start(trim_end(s@)),
{
    let mut end: usize = s.len();
    assert(s@.take(end as int) =~= s@);
    while end > 0 && is_whitespace(s[end - 1])
        invariant
            end <= s.len(),
            trim_end(s@) == trim_end(s@.take(end as int)),
        decreases end,
    {
        assert(s@.take(end as int).drop_last() =~= s@.take(end as int - 1));
        end -= 1;
    }
    let ghost body = s@.take(end as int);
    assert(trim_end(s@) == body);
    let mut start: usize = 0;
    assert(body.skip(0) =~= body);
    while start < end && is_whitespace(s[start])
        invariant
            start <= end <= s.len(),
            body == s@.take(end as int),
            trim_start(body) == trim_start(body.skip(start as int)),
        decreases end - start,
    {
        assert(body.skip(start as int).skip(1) =~= body.skip(start as int + 1));
        assert(body.skip(start as int)[0] == s[start as int]);
        start += 1;
    }
    proof {
        if start < end {
            assert(body.skip(start as int)[0] == s[start as int]);
        }
        assert(body.skip(start as int) =~= s@.subrange(start as int, end as int));
    }
    slice_subrange(s, start, end)
}

/// The move that a run writes: so many steps forward for a run of digits,
/// else a turn, as the first byte of the run says.
pub open spec fn move_of(run: (bool, Seq<u8>)) -> Option<Move> {
    if run.0 {
        match unsigned_of(run.1) {
            Some(v) => if v <= i32::MAX {
                Some(Move::Forward(v as i32))
            } else {
                None
            },
            None => None,
        }
    } else if run.1.len() > 0 && run.1[0] == 82 {
        Some(Move::Right)
    } else if run.1.len() > 0 && run.1[0] == 76 {
        Some(Move::Left)
    } else {
        None
    }
}

/// The moves that the runs write; `None` where a run writes none.
pub open spec fn moves_of(runs: Seq<(bool, Seq<u8>)>) -> Option<Seq<Move>>
    decreases runs.len(),
{
    if runs.len() == 0 {
        Some(Seq::empty())
    } else {
        match (moves_of(runs.drop_last()), move_of(runs.last())) {
            (Some(before), Some(m)) => Some(before.push(m)),
            _ => None,
        }
    }
}

/// Where the first runs write no moves, all the runs write none.
pub proof fn lemma_moves_fail(runs: Seq<(bool, Seq<u8>)>, n: int)
    requires
        0 <= n <= runs.len(),
        moves_of(runs.take(n)).is_none(),
    ensures
        moves_of(runs).is_none(),
    decreases runs.len() - n,
{
    if n < runs.len() {
        assert(runs.take(n + 1).drop_last() =~= runs.take(n));
        lemma_moves_fail(runs, n + 1);
    } else {
        assert(runs.take(n) =~= runs);
    }
}

/// The moves that a line writes, white space at its ends left out.
pub open spec fn line_moves(line: Seq<u8>) -> Option<Seq<Move>> {
    moves_of(runs_of(trim_start(trim_end(line))))
}

/// The length of a side of the cube for a chart of the width and height:
/// the net of a cube is three sides by four, or two by five.
pub open spec fn face_of(width: int, height: int) -> int {
    let long_side = if width >= height { width } else { height };
    let short_side = if width >= height { height } else { width };
    if long_side / short_side >= 2 {
        short_side / 2
    } else {
        short_side / 3
    }
}

/// Whether the lines draw a chart: at least one line and one column, no
/// more than `MOST` of each, and every character draws something.
pub open spec fn draws_chart(ls: Seq<Seq<u8>>) -> bool {
    &&& 0 < ls.len() <= MOST
    &&& 0 < widest(ls, ls.len()) <= MOST
    &&& forall|y: int, x: int|
        0 <= y < ls.len() && 0 <= x < ls[y].len() ==> Spot::of(#[trigger] ls[y][x]).is_some()
}

impl Chart {
    /// Whether this is the chart that the lines draw.
    pub open spec fn says(&self, ls: Seq<Seq<u8>>) -> bool {
        &&& self.walls.len() == ls.len()
        &&& forall|y: int| 0 <= y < ls.len() ==> (#[trigger] self.walls[y]).len() == ls[y].len()
        &&& forall|y: int, x: int|
            0 <= y < ls.len() && 0 <= x < ls[y].len() ==> Spot::of(ls[y][x]) == Some(
                #[trigger] self.walls[y][x],
            )
        &&& self.size.0 == widest(ls, ls.len())
        &&& self.size.1 == ls.len()
        &&& self.face_size == face_of(self.size.0 as int, self.size.1 as int)
    }

    /// The chart that the text draws; `None` where it draws none.
    pub fn parse(input: &[u8]) -> (r: Option<Chart>)
        ensures
            r.is_some() == draws_chart(lines_of(input@)),
            r matches Some(chart) ==> chart.says(lines_of(input@)) && chart.wf(),
    {
        let all = lines(input);
        let ghost ls = lines_of(input@);
        if all.len() == 0 || all.len() > 2_000_000 {
            return None;
        }
        let mut walls: Vec<Vec<Spot>> = Vec::new();
        let mut width: usize = 0;
        let mut y: usize = 0;
        while y < all.len()
            invariant
                y <= all.len(),
                rows(all@) == ls,
                ls == lines_of(input@),
                0 < ls.len() <= MOST,
                width == widest(ls, y as nat),
                walls.len() == y,
                forall|r: int| 0 <= r < y ==> (#[trigger] walls[r]).len() == ls[r].len(),
                forall|r: int, c: int|
                    0 <= r < y && 0 <= c < ls[r].len() ==> Spot::of(ls[r][c]) == Some(
                        #[trigger] walls[r][c],
                    ),
            decreases all.len() - y,
        {
            let line = &all[y];
            assert(rows(all@)[y as int] == line@);
            let mut row: Vec<Spot> = Vec::new();
            let mut x: usize = 0;
            while x < line.len()
                invariant
                    x <= line.len(),
                    line@ == ls[y as int],
                    y < ls.len(),
                    ls == lines_of(input@),
                    row.len() == x,
                    forall|c: int| 0 <= c < x ==> Spot::of(line@[c]) == Some(#[trigger] row[c]),
                decreases line.len() - x,
            {
                match Spot::parse(line[x]) {
                    Some(s) => {
                        row.push(s);
                    },
                    None => {
                        assert(!Spot::of(lines_of(input@)[y as int][x as int]).is_some());
                        return None;
                    },
                }
                x += 1;
            }
            if line.len() > width {
                width = line.len();
            }
            walls.push(row);
            y += 1;
        }
        if width == 0 || width > 2_000_000 {
            return None;
        }
        proof {
            assert forall|r: int| 0 <= r < walls.len() implies (#[trigger] walls[r]).len()
                <= width by {
                lemma_widest(ls, ls.len(), r);
            }
            assert forall|r: int, c: int|
                0 <= r < ls.len() && 0 <= c < ls[r].len() implies Spot::of(
                #[trigger] ls[r][c],
            ).is_some() by {
                assert(Spot::of(ls[r][c]) == Some(walls[r][c]));
            }
        }
        let width = width as i32;
        let height = walls.len() as i32;
        // Flattened cubes are either 3x4 or 2x5
        let long_side = if width >= height { width } else { height };
        let short_side = if width >= height { height } else { width };
        if long_side / short_side >= 2 {
            Some(Chart { walls, size: (width, height), face_size: short_side / 2 })
        } else {
            Some(Chart { walls, size: (width, height), face_size: short_side / 3 })
        }
    }
}

#[derive(Debug)]
pub struct InputType {
    pub map: Chart,
    pub moves: Vec<Move>,
}

impl InputType {
    pub fn parse_moves(line: &[u8]) -> (r: Option<Vec<Move>>)
        ensures
            r.is_some() == line_moves(line@).is_some(),
            r matches Some(moves) ==> line_moves(line@) == Some(moves@),
    {
        let groups = digit_runs(trim(line));
        let ghost runs = runs_of(trim_start(trim_end(line@)));
        let mut moves: Vec<Move> = Vec::new();
        let mut i: usize = 0;
        assert(runs.take(0) =~= Seq::<(bool, Seq<u8>)>::empty());
        while i < groups.len()
            invariant
                i <= groups.len(),
                runs_view(groups@) == runs,
                runs == runs_of(trim_start(trim_end(line@))),
                moves_of(runs.take(i as int)) == Some(moves@),
            decreases groups.len() - i,
        {
            proof {
                assert(runs.take(i as int + 1).drop_last() =~= runs.take(i as int));
                assert(runs.take(i as int + 1).last() == runs[i as int]);
                assert(runs_view(groups@)[i as int] == (groups[i as int].0, groups[i as int].1@));
            }
            let is_digit = groups[i].0;
            let run = &groups[i].1;
            let mv = if is_digit {
                match parse_unsigned(run.as_slice()) {
                    Some(v) => if v <= 0x7fff_ffff {
                        Some(Move::Forward(v as i32))
                    } else {
                        None
                    },
                    None => None,
                }
            } else if run.len() > 0 && run[0] == 82 {
                Some(Move::Right)
            } else if run.len() > 0 && run[0] == 76 {
                Some(Move::Left)
            } else {
                None
            };
            match mv {
                Some(m) => {
                    moves.push(m);
                },
                None => {
                    proof {
                        lemma_moves_fail(runs, i as int + 1);
                    }
                    return None;
                },
            }
            i += 1;
        }
        assert(runs.take(i as int) =~= runs);
        Some(moves)
    }
}

/// Two newlines: what stands between the chart and the moves.
pub open spec fn blank_line() -> Seq<u8> {
    seq![10u8, 10u8]
}

/// Whether the text writes a chart, an empty line and the moves.
pub open spec fn well_formed(text: Seq<u8>) -> bool {
    let at = first_at(text, blank_line(), 0);
    &&& at < text.len()
    &&& draws_chart(lines_of(text.take(at)))
    &&& line_moves(text.skip(at + 2)).is_some()
}

/// Whether the chart and the moves are those that the text writes.
pub open spec fn text_says(text: Seq<u8>, input: InputType) -> bool {
    let at = first_at(text, blank_line(), 0);
    &&& input.map.says(lines_of(text.take(at)))
    &&& line_moves(text.skip(at + 2)) == Some(input.moves@)
}

/// The chart and the moves that the text writes; `None` where it writes
/// none.
pub fn parse(input: &str) -> (r: Option<InputType>)
    ensures
        r.is_some() == well_formed(input.spec_bytes()),
        r matches Some(v) ==> text_says(input.spec_bytes(), v) && v.map.wf(),
{
    let bytes = input.as_bytes();
    let blank: [u8; 2] = [10, 10];
    assert(blank@ =~= blank_line());
    let at = find_from(bytes, blank.as_slice(), 0);
    if at >= bytes.len() {
        return None;
    }
    let board_text = slice_subrange(bytes, 0, at);
    let move_text = slice_subrange(bytes, at + 2, bytes.len());
    assert(board_text@ =~= bytes@.take(at as int));
    assert(move_text@ =~= bytes@.skip(at as int + 2));
    let map = match Chart::parse(board_text) {
        Some(m) => m,
        None => {
            return None;
        },
    };
    let moves = match InputType::parse_moves(move_text) {
        Some(m) => m,
        None => {
            return None;
        },
    };
    Some(InputType { map, moves })
}

pub fn generator(input: &str) -> (r: InputType)
    requires
        well_formed(input.spec_bytes()),
    ensures
        text_says(input.spec_bytes(), r),
        r.map.wf(),
{
    parse(input).unwrap()
}

#[derive(Clone, Copy, Debug, PartialEq, Eq, Structural)]
pub enum Direction {
    Right,
    Down,
    Left,
    Up,
}

impl Direction {
    /// The direction after a quarter turn to the left.
    pub open spec fn turned_left(self) -> Direction {
        match self {
            Direction::Up => Direction::Left,
            Direction::Left => Direction::Down,
            Direction::Down => Direction::Right,
            Direction::Right => Direction::Up,
        }
    }

    /// The direction after a quarter turn to the right.
    pub open spec fn turned_right(self) -> Direction {
        match self {
            Direction::Up => Direction::Right,
            Direction::Left => Direction::Up,
            Direction::Down => Direction::Left,
            Direction::Right => Direction::Down,
        }
    }

    /// The opposite direction.
    pub open spec fn flipped(self) -> Direction {
        match self {
            Direction::Up => Direction::Down,
            Direction::Down => Direction::Up,
            Direction::Left => Direction::Right,
            Direction::Right => Direction::Left,
        }
    }

    /// One step in the direction, as what is added to a place.
    pub open spec fn step(self) -> (int, int) {
        match self {
            Direction::Up => (0, -1),
            Direction::Left => (-1, 0),
            Direction::Down => (0, 1),
            Direction::Right => (1, 0),
        }
    }

    /// The place one step on.
    pub open spec fn ahead(self, xy: (i32, i32)) -> (i32, i32) {
        ((xy.0 + self.step().0) as i32, (xy.1 + self.step().1) as i32)
    }

    /// The number that the direction counts for in a score.
    pub open spec fn number(self) -> int {
        match self {
            Direction::Right => 0,
            Direction::Down => 1,
            Direction::Left => 2,
            Direction::Up => 3,
        }
    }

    pub fn left(&self) -> (d: Direction)
        ensures
            d == self.turned_left(),
    {
        match self {
            Direction::Up => Direction::Left,
            Direction::Left => Direction::Down,
            Direction::Down => Direction::Right,
            Direction::Right => Direction::Up,
        }
    }

    pub fn right(&self) -> (d: Direction)
        ensures
            d == self.turned_right(),
    {
        match self {
            Direction::Up => Direction::Right,
            Direction::Left => Direction::Up,
            Direction::Down => Direction::Left,
            Direction::Right => Direction::Down,
        }
    }

    pub fn delta(&self) -> (d: (i32, i32))
        ensures
            (d.0 as int, d.1 as int) == self.step(),
    {
        match self {
            Direction::Up => (0, -1),
            Direction::Left => (-1, 0),
            Direction::Down => (0, 1),
            Direction::Right => (1, 0),
        }
    }

    pub fn advance(&self, xy: (i32, i32)) -> (r: (i32, i32))
        requires
            i32::MIN < xy.0 < i32::MAX,
            i32::MIN < xy.1 < i32::MAX,
        ensures
            r == self.ahead(xy),
            r.0 == xy.0 + self.step().0,
            r.1 == xy.1 + self.step().1,
    {
        let delta = self.delta();
        (xy.0 + delta.0, xy.1 + delta.1)
    }

    pub fn flip(&self) -> (d: Direction)
        ensures
            d == self.flipped(),
    {
        match self {
            Direction::Up => Direction::Down,
            Direction::Down => Direction::Up,
            Direction::Left => Direction::Right,
            Direction::Right => Direction::Left,
        }
    }

    /// The number that the direction counts for in a score.
    pub fn value(&self) -> (v: i32)
        ensures
            v == self.number(),
    {
        match self {
            Direction::Right => 0,
            Direction::Down => 1,
            Direction::Left => 2,
            Direction::Up => 3,
        }
    }
}

/// A map coordinate & facing direction for describing the source and destination of the jumps
/// through the void.
#[derive(Clone, Copy, Debug, PartialEq, Eq)]
pub struct VoidConnection {
    pub xy: (i32, i32),
    pub facing: Direction,
}

/// Whether a place is no farther outside a chart of the largest size than
/// a few steps.
pub open spec fn nearby(xy: (i32, i32)) -> bool {
    -8 <= xy.0 <= MOST + 8 && -8 <= xy.1 <= MOST + 8
}

/// The place within the chart that a place stands for when the chart goes
/// round.
pub open spec fn wrap_of(map: &Chart, xy: (i32, i32)) -> (i32, i32) {
    ((xy.0 % map.size.0) as i32, (xy.1 % map.size.1) as i32)
}

/// The first place from `at` on, step by step in the direction and round
/// the chart, where something is; `None` where there is none within `fuel`
/// steps.
pub open spec fn sought(map: &Chart, facing: Direction, at: (i32, i32), fuel: nat) -> Option<
    (i32, i32),
>
    decreases fuel,
{
    if map.spot(at.0 as int, at.1 as int) != Spot::Void {
        Some(at)
    } else if fuel == 0 {
        None
    } else {
        sought(map, facing, wrap_of(map, facing.ahead(at)), (fuel - 1) as nat)
    }
}

/// Where one comes in again on the flat chart, having left it at `src`: at
/// the first place round the chart where something is.
pub open spec fn flat_jump(map: &Chart, src: VoidConnection) -> Option<VoidConnection> {
    match sought(
        map,
        src.facing,
        wrap_of(map, src.facing.ahead(src.xy)),
        (map.size.0 + map.size.1) as nat,
    ) {
        Some(xy) => Some(VoidConnection { xy, facing: src.facing }),
        None => None,
    }
}

pub fn part1_void_jump(src: &VoidConnection, map: &Chart) -> (r: Option<VoidConnection>)
    requires
        map.wf(),
        nearby(src.xy),
    ensures
        r == flat_jump(map, *src),
{
    let mut next = map.wrap_locations(src.facing.advance(src.xy));
    let mut fuel: i32 = map.size.0 + map.size.1;
    while map.get(next.0, next.1) == Spot::Void
        invariant
            map.wf(),
            0 <= fuel,
            0 <= next.0 < map.size.0,
            0 <= next.1 < map.size.1,
            sought(map, src.facing, next, fuel as nat) == sought(
                map,
                src.facing,
                wrap_of(map, src.facing.ahead(src.xy)),
                (map.size.0 + map.size.1) as nat,
            ),
        decreases fuel,
    {
        if fuel == 0 {
            return None;
        }
        next = map.wrap_locations(src.facing.advance(next));
        fuel -= 1;
    }
    Some(VoidConnection { xy: next, facing: src.facing })
}

/// Where the jumps of a folded chart lead: for a place in the void and a
/// direction, the place and direction to go on with.
pub struct WrapMap {
    pub pairs: Vec<(VoidConnection, VoidConnection)>,
}

/// What was entered last for a key.
pub open spec fn lookup(pairs: Seq<(VoidConnection, VoidConnection)>, key: VoidConnection) -> Option<
    VoidConnection,
>
    decreases pairs.len(),
{
    if pairs.len() == 0 {
        None
    } else if pairs.last().0 == key {
        Some(pairs.last().1)
    } else {
        lookup(pairs.drop_last(), key)
    }
}

impl WrapMap {
    pub fn new() -> (map: WrapMap)
        ensures
            map.pairs@ == Seq::<(VoidConnection, VoidConnection)>::empty(),
    {
        WrapMap { pairs: Vec::new() }
    }

    /// Enters a jump; one entered before for the same key counts no more.
    pub fn insert(&mut self, key: VoidConnection, value: VoidConnection)
        ensures
            final(self).pairs@ == old(self).pairs@.push((key, value)),
    {
        self.pairs.push((key, value));
    }

    /// The jump for a key.
    pub fn get(&self, key: &VoidConnection) -> (r: Option<VoidConnection>)
        ensures
            r == lookup(self.pairs@, *key),
    {
        let mut i: usize = self.pairs.len();
        assert(self.pairs@.take(i as int) =~= self.pairs@);
        while i > 0
            invariant
                i <= self.pairs.len(),
                lookup(self.pairs@, *key) == lookup(self.pairs@.take(i as int), *key),
            decreases i,
        {
            assert(self.pairs@.take(i as int).drop_last() =~= self.pairs@.take(i as int - 1));
            assert(self.pairs@.take(i as int).last() == self.pairs[i - 1]);
            let entry = self.pairs[i - 1];
            if entry.0.xy.0 == key.xy.0 && entry.0.xy.1 == key.xy.1 && same_direction(
                entry.0.facing,
                key.facing,
            ) {
                return Some(entry.1);
            }
            i -= 1;
        }
        None
    }
}

/// Whether two directions are the same.
pub fn same_direction(a: Direction, b: Direction) -> (same: bool)
    ensures
        same == (a == b),
{
    match (a, b) {
        (Direction::Right, Direction::Right) => true,
        (Direction::Down, Direction::Down) => true,
        (Direction::Left, Direction::Left) => true,
        (Direction::Up, Direction::Up) => true,
        _ => false,
    }
}

/// How one goes on where the chart ends: round the flat chart, or over
/// the edges of the folded one.
pub enum Wrap {
    Flat,
    Folded(WrapMap),
}

/// The jumps of a folded chart; `None` for the flat chart.
pub type Jumps = Option<Seq<(VoidConnection, VoidConnection)>>;

impl View for Wrap {
    type V = Jumps;

    open spec fn view(&self) -> Jumps {
        match self {
            Wrap::Flat => None,
            Wrap::Folded(jumps) => Some(jumps.pairs@),
        }
    }
}

/// Where one goes on, having left the chart at `src`.
pub open spec fn jumped(jumps: Jumps, map: &Chart, src: VoidConnection) -> Option<VoidConnection> {
    match jumps {
        None => flat_jump(map, src),
        Some(pairs) => lookup(pairs, src),
    }
}

/// The most jumps that can follow each other before one comes again.
pub open spec fn budget(jumps: Jumps) -> nat {
    match jumps {
        None => 1,
        Some(pairs) => pairs.len(),
    }
}

impl Wrap {
    pub fn void_jump(&self, map: &Chart, src: VoidConnection) -> (r: Option<VoidConnection>)
        requires
            map.wf(),
            self is Flat ==> nearby(src.xy),
        ensures
            r == jumped(self@, map, src),
    {
        match self {
            Wrap::Flat => part1_void_jump(&src, map),
            Wrap::Folded(jumps) => jumps.get(&src),
        }
    }
}

/// Where one stands and which way one looks.
#[derive(Clone, Copy, Debug)]
pub struct State {
    pub x: i32,
    pub y: i32,
    pub facing: Direction,
}

/// What a step comes to, from the place in front: the place where one
/// stands after it, `None` for a wall; through the void one goes on by
/// jumps. `None` altogether where a jump is missing, or where they do not
/// end within `fuel` jumps.
pub open spec fn resolved(map: &Chart, jumps: Jumps, next: VoidConnection, fuel: nat) -> Option<
    Option<VoidConnection>,
>
    decreases fuel,
{
    match map.spot(next.xy.0 as int, next.xy.1 as int) {
        Spot::Floor => Some(Some(next)),
        Spot::Wall => Some(None),
        Spot::Void => if fuel == 0 {
            None
        } else {
            match jumped(jumps, map, next) {
                Some(onward) => resolved(map, jumps, onward, (fuel - 1) as nat),
                None => None,
            }
        },
    }
}

/// The place in the first row of the chart where the floor begins, or the
/// length of the row where it has no floor.
pub open spec fn first_floor(row: Seq<Spot>) -> int
    decreases row.len(),
{
    if row.len() == 0 {
        0
    } else {
        let before = first_floor(row.drop_last());
        if before < row.len() - 1 {
            before
        } else if row.last() == Spot::Floor {
            row.len() - 1
        } else {
            row.len() as int
        }
    }
}

impl State {
    /// Whether one stands within the chart.
    pub open spec fn fits(&self, map: &Chart) -> bool {
        0 <= self.x < map.size.0 && 0 <= self.y < map.size.1
    }

    /// Where one is after `distance` steps forward: one stops in front of a
    /// wall. `None` where a step cannot be resolved.
    pub open spec fn walked(self, map: &Chart, jumps: Jumps, distance: int) -> Option<State>
        decreases distance,
    {
        if distance <= 0 {
            Some(self)
        } else {
            let front = VoidConnection {
                xy: self.facing.ahead((self.x, self.y)),
                facing: self.facing,
            };
            match resolved(map, jumps, front, budget(jumps)) {
                None => None,
                Some(None) => Some(self),
                Some(Some(to)) => (State { x: to.xy.0, y: to.xy.1, facing: to.facing }).walked(
                    map,
                    jumps,
                    distance - 1,
                ),
            }
        }
    }

    /// Where one is after a move.
    pub open spec fn executed(self, mv: Move, map: &Chart, jumps: Jumps) -> Option<State> {
        match mv {
            Move::Left => Some(State { facing: self.facing.turned_left(), ..self }),
            Move::Right => Some(State { facing: self.facing.turned_right(), ..self }),
            Move::Forward(n) => self.walked(map, jumps, n as int),
        }
    }

    /// Where one is after the moves, one after the other.
    pub open spec fn followed(self, moves: Seq<Move>, map: &Chart, jumps: Jumps) -> Option<State>
        decreases moves.len(),
    {
        if moves.len() == 0 {
            Some(self)
        } else {
            match self.followed(moves.drop_last(), map, jumps) {
                Some(s) => s.executed(moves.last(), map, jumps),
                None => None,
            }
        }
    }

    /// The score of a place and a direction.
    pub open spec fn score_of(self) -> int {
        1000 * (self.y + 1) + 4 * (self.x + 1) + self.facing.number()
    }

    /// Where one starts: on the first floor of the first row, looking to
    /// the right; `None` where that row has no floor.
    pub open spec fn start(map: &Chart) -> Option<State> {
        let x = first_floor(map.walls[0]@);
        if x < map.walls[0].len() {
            Some(State { x: x as i32, y: 0, facing: Direction::Right })
        } else {
            None
        }
    }

    pub fn new(input: &InputType) -> (r: Option<State>)
        requires
            input.map.wf(),
        ensures
            r == State::start(&input.map),
            r matches Some(s) ==> s.fits(&input.map),
    {
        let row = &input.map.walls[0];
        let mut at: usize = 0;
        let mut i: usize = 0;
        assert(row@.take(0) =~= Seq::<Spot>::empty());
        while i < row.len()
            invariant
                i <= row.len(),
                at == first_floor(row@.take(i as int)),
                at <= i,
            decreases row.len() - i,
        {
            proof {
                assert(row@.take(i as int + 1).drop_last() =~= row@.take(i as int));
                assert(row@.take(i as int + 1).last() == row[i as int]);
            }
            let here = row[i];
            if at == i && !matches!(here, Spot::Floor) {
                at = i + 1;
            }
            i += 1;
        }
        assert(row@.take(i as int) =~= row@);
        if at < row.len() {
            Some(State { x: at as i32, y: 0, facing: Direction::Right })
        } else {
            None
        }
    }

    /// Goes forward; gives `false`, and stays, where a step cannot be
    /// resolved.
    pub fn forward(&mut self, distance: i32, map: &Chart, wrap: &Wrap) -> (ok: bool)
        requires
            map.wf(),
            old(self).fits(map),
        ensures
            ok == old(self).walked(map, wrap@, distance as int).is_some(),
            ok ==> Some(*final(self)) == old(self).walked(map, wrap@, distance as int),
            !ok ==> *final(self) == *old(self),
            final(self).fits(map),
    {
        let ghost goal = self.walked(map, wrap@, distance as int);
        let mut here = *self;
        let mut left = distance;
        while left > 0
            invariant
                map.wf(),
                here.fits(map),
                old(self).fits(map),
                *self == *old(self),
                goal == old(self).walked(map, wrap@, distance as int),
                here.walked(map, wrap@, left as int) == goal,
            decreases left,
        {
            let mut next = VoidConnection {
                xy: here.facing.advance((here.x, here.y)),
                facing: here.facing,
            };
            let ghost front = next;
            let mut fuel: usize = match wrap {
                Wrap::Flat => 1,
                Wrap::Folded(jumps) => jumps.pairs.len(),
            };
            let mut done = false;
            let mut stopped = false;
            while !done
                invariant
                    map.wf(),
                    here.fits(map),
                    old(self).fits(map),
                    *self == *old(self),
                    goal == old(self).walked(map, wrap@, distance as int),
                    here.walked(map, wrap@, left as int) == goal,
                    left > 0,
                    stopped ==> done,
                    fuel <= budget(wrap@),
                    fuel == budget(wrap@) ==> next == front,
                    wrap is Flat && fuel == 1 ==> nearby(next.xy),
                    front == (VoidConnection {
                        xy: here.facing.ahead((here.x, here.y)),
                        facing: here.facing,
                    }),
                    !done ==> resolved(map, wrap@, next, fuel as nat) == resolved(
                        map,
                        wrap@,
                        front,
                        budget(wrap@),
                    ),
                    done && stopped ==> resolved(map, wrap@, front, budget(wrap@)) == Some(
                        None::<VoidConnection>,
                    ),
                    done && !stopped ==> resolved(map, wrap@, front, budget(wrap@)) == Some(
                        Some(next),
                    ) && 0 <= next.xy.0 < map.size.0 && 0 <= next.xy.1 < map.size.1,
                decreases fuel, if done { 0int } else { 1int },
            {
                let ghost all = resolved(map, wrap@, front, budget(wrap@));
                assert(resolved(map, wrap@, next, fuel as nat) == all);
                match map.get(next.xy.0, next.xy.1) {
                    Spot::Floor => {
                        assert(all == Some(Some(next)));
                        done = true;
                    },
                    Spot::Wall => {
                        assert(all == Some(None::<VoidConnection>));
                        done = true;
                        stopped = true;
                    },
                    Spot::Void => {
                        if fuel == 0 {
                            assert(all.is_none());
                            assert(goal.is_none());
                            return false;
                        }
                        match wrap.void_jump(map, next) {
                            Some(onward) => {
                                assert(all == resolved(map, wrap@, onward, (fuel - 1) as nat));
                                next = onward;
                            },
                            None => {
                                assert(all.is_none());
                                assert(goal.is_none());
                                return false;
                            },
                        }
                        fuel -= 1;
                    },
                }
            }
            if stopped {
                proof {
                    assert(goal == Some(here));
                }
                *self = here;
                return true;
            }
            here = State { x: next.xy.0, y: next.xy.1, facing: next.facing };
            left -= 1;
        }
        *self = here;
        true
    }

    /// Makes the move; gives `false`, and stays, where a step cannot be
    /// resolved.
    pub fn execute(&mut self, mv: &Move, map: &Chart, wrap: &Wrap) -> (ok: bool)
        requires
            map.wf(),
            old(self).fits(map),
        ensures
            ok == old(self).executed(*mv, map, wrap@).is_some(),
            ok ==> Some(*final(self)) == old(self).executed(*mv, map, wrap@),
            !ok ==> *final(self) == *old(self),
            final(self).fits(map),
    {
        match mv {
            Move::Left => {
                self.facing = self.facing.left();
                true
            },
            Move::Right => {
                self.facing = self.facing.right();
                true
            },
            Move::Forward(n) => self.forward(*n, map, wrap),
        }
    }

    pub fn score(&self) -> (result: i32)
        requires
            0 <= self.x < MOST,
            0 <= self.y < MOST,
        ensures
            result == self.score_of(),
    {
        let result = 1000 * (self.y + 1) + 4 * (self.x + 1) + self.facing.value();
        result
    }
}

/// The score at the end of the walk; `None` where the first row has no
/// floor, or a step cannot be resolved.
pub open spec fn walk_score(input: &InputType, jumps: Jumps) -> Option<int> {
    match State::start(&input.map) {
        Some(start) => match start.followed(input.moves@, &input.map, jumps) {
            Some(end) => Some(end.score_of()),
            None => None,
        },
        None => None,
    }
}

/// Walks as the moves say and gives the score at the end.
pub fn walk(input: &InputType, wrap: &Wrap) -> (r: Option<i32>)
    requires
        input.map.wf(),
    ensures
        r.is_some() == walk_score(input, wrap@).is_some(),
        r matches Some(score) ==> walk_score(input, wrap@) == Some(score as int),
{
    let mut state = match State::new(input) {
        Some(s) => s,
        None => {
            return None;
        },
    };
    let ghost start = state;
    let mut i: usize = 0;
    assert(input.moves@.take(0) =~= Seq::<Move>::empty());
    while i < input.moves.len()
        invariant
            i <= input.moves.len(),
            input.map.wf(),
            state.fits(&input.map),
            Some(start) == State::start(&input.map),
            start.followed(input.moves@.take(i as int), &input.map, wrap@) == Some(state),
        decreases input.moves.len() - i,
    {
        proof {
            assert(input.moves@.take(i as int + 1).drop_last() =~= input.moves@.take(i as int));
            assert(input.moves@.take(i as int + 1).last() == input.moves[i as int]);
        }
        if !state.execute(&input.moves[i], &input.map, wrap) {
            proof {
                lemma_followed_fails(start, input.moves@, &input.map, wrap@, i as int + 1);
            }
            return None;
        }
        i += 1;
    }
    assert(input.moves@.take(i as int) =~= input.moves@);
    Some(state.score())
}

/// Where the first moves cannot be followed, all the moves cannot.
pub proof fn lemma_followed_fails(start: State, moves: Seq<Move>, map: &Chart, jumps: Jumps, n: int)
    requires
        0 <= n <= moves.len(),
        start.followed(moves.take(n), map, jumps).is_none(),
    ensures
        start.followed(moves, map, jumps).is_none(),
    decreases moves.len() - n,
{
    if n < moves.len() {
        assert(moves.take(n + 1).drop_last() =~= moves.take(n));
        lemma_followed_fails(start, moves, map, jumps, n + 1);
    } else {
        assert(moves.take(n) =~= moves);
    }
}

/// A place that is a whole number of times the width away stands for the
/// same place.
pub proof fn lemma_comes_round(at: int, offset: int, n: int)
    requires
        n > 0,
        0 <= at < n,
        offset % n == 0,
    ensures
        (at + offset) % n == at,
{
    lemma_fundamental_div_mod(offset, n);
    lemma_mod_multiples_vanish(offset / n, at, n);
    lemma_small_mod(at as nat, n as nat);
}

/// Whether the place `p` is `ox` columns and `oy` rows away from `s`, round
/// the chart, on the line through `s` in the direction, and `togo` steps on
/// in the direction lead to `s` again.
pub open spec fn on_the_way(
    map: &Chart,
    facing: Direction,
    s: (i32, i32),
    p: (i32, i32),
    ox: int,
    oy: int,
    togo: nat,
) -> bool {
    &&& p.0 == (s.0 + ox) % (map.size.0 as int)
    &&& p.1 == (s.1 + oy) % (map.size.1 as int)
    &&& match facing {
        Direction::Right => oy == 0 && (ox + togo) % (map.size.0 as int) == 0,
        Direction::Left => oy == 0 && (ox - togo) % (map.size.0 as int) == 0,
        Direction::Down => ox == 0 && (oy + togo) % (map.size.1 as int) == 0,
        Direction::Up => ox == 0 && (oy - togo) % (map.size.1 as int) == 0,
    }
}

/// Round the flat chart one comes to a place where something is: at the
/// latest to the place that one has left.
pub proof fn lemma_sought(
    map: &Chart,
    facing: Direction,
    s: (i32, i32),
    p: (i32, i32),
    ox: int,
    oy: int,
    togo: nat,
    fuel: nat,
)
    requires
        map.wf(),
        0 <= s.0 < map.size.0,
        0 <= s.1 < map.size.1,
        map.spot(s.0 as int, s.1 as int) != Spot::Void,
        on_the_way(map, facing, s, p, ox, oy, togo),
        fuel >= togo,
    ensures
        sought(map, facing, p, fuel) matches Some(to) && map.spot(to.0 as int, to.1 as int)
            != Spot::Void,
    decreases togo,
{
    let w = map.size.0 as int;
    let h = map.size.1 as int;
    if togo == 0 {
        lemma_small_mod(0, w as nat);
        lemma_small_mod(0, h as nat);
        lemma_comes_round(s.0 as int, ox, w);
        lemma_comes_round(s.1 as int, oy, h);
        assert(p == s);
    } else if map.spot(p.0 as int, p.1 as int) == Spot::Void {
        let q = wrap_of(map, facing.ahead(p));
        let (dx, dy) = facing.step();
        lemma_add_mod_noop_right(dx, s.0 + ox, w);
        lemma_add_mod_noop_right(dy, s.1 + oy, h);
        assert(q.0 == (s.0 + (ox + dx)) % w);
        assert(q.1 == (s.1 + (oy + dy)) % h);
        lemma_sought(map, facing, s, q, ox + dx, oy + dy, (togo - 1) as nat, (fuel - 1) as nat);
    }
}

/// On the flat chart one comes in again wherever one leaves it.
pub proof fn lemma_flat_jump(map: &Chart, s: State)
    requires
        map.wf(),
        s.fits(map),
        map.spot(s.x as int, s.y as int) != Spot::Void,
    ensures
        flat_jump(
            map,
            (VoidConnection { xy: s.facing.ahead((s.x, s.y)), facing: s.facing }),
        ) matches Some(to) && map.spot(to.xy.0 as int, to.xy.1 as int) != Spot::Void,
{
    let w = map.size.0 as int;
    let h = map.size.1 as int;
    let front = s.facing.ahead((s.x, s.y));
    let p = wrap_of(map, s.facing.ahead(front));
    let (dx, dy) = s.facing.step();
    let n = if dx != 0 { w } else { h };
    let togo: nat = if n <= 2 { 0 } else { (n - 2) as nat };
    assert(2int % 1 == 0 && 2int % 2 == 0);
    assert(n > 2 ==> n % n == 0) by (nonlinear_arith)
        requires
            n > 0,
    ;
    assert(n > 2 ==> (-n) % n == 0) by {
        if n > 2 {
            lemma_mod_multiples_vanish(-1, 0, n);
            assert(n * (-1) + 0 == -n);
        }
    }
    assert((-2int) % 1 == 0 && (-2int) % 2 == 0);
    lemma_sought(map, s.facing, (s.x, s.y), p, 2 * dx, 2 * dy, togo, (w + h) as nat);
}

/// On the flat chart every step can be resolved, from a place where
/// something is.
pub proof fn lemma_flat_walk(map: &Chart, s: State, distance: int)
    requires
        map.wf(),
        s.fits(map),
        map.spot(s.x as int, s.y as int) == Spot::Floor,
    ensures
        s.walked(map, None, distance) matches Some(end) && end.fits(map) && map.spot(
            end.x as int,
            end.y as int,
        ) == Spot::Floor,
    decreases distance,
{
    if distance > 0 {
        let front = VoidConnection { xy: s.facing.ahead((s.x, s.y)), facing: s.facing };
        let jumps: Jumps = None;
        if map.spot(front.xy.0 as int, front.xy.1 as int) == Spot::Void {
            lemma_flat_jump(map, s);
            let onward = flat_jump(map, front).unwrap();
            assert(resolved(map, jumps, front, 1) == resolved(map, jumps, onward, 0));
        }
        match resolved(map, jumps, front, 1) {
            Some(Some(to)) => {
                lemma_flat_walk(
                    map,
                    (State { x: to.xy.0, y: to.xy.1, facing: to.facing }),
                    distance - 1,
                );
            },
            _ => {},
        }
    }
}

/// On the flat chart all moves can be followed, from a place where
/// something is.
pub proof fn lemma_flat_moves(map: &Chart, s: State, moves: Seq<Move>)
    requires
        map.wf(),
        s.fits(map),
        map.spot(s.x as int, s.y as int) == Spot::Floor,
    ensures
        s.followed(moves, map, None) matches Some(end) && end.fits(map) && map.spot(
            end.x as int,
            end.y as int,
        ) == Spot::Floor,
    decreases moves.len(),
{
    if moves.len() > 0 {
        lemma_flat_moves(map, s, moves.drop_last());
        let before = s.followed(moves.drop_last(), map, None).unwrap();
        match moves.last() {
            Move::Forward(n) => {
                lemma_flat_walk(map, before, n as int);
            },
            _ => {},
        }
    }
}

/// Where the first row of the chart has a floor, the walk over the flat
/// chart has a score.
pub proof fn lemma_flat_score(input: &InputType)
    requires
        input.map.wf(),
    ensures
        walk_score(input, None).is_some() == State::start(&input.map).is_some(),
{
    if State::start(&input.map).is_some() {
        let start = State::start(&input.map).unwrap();
        lemma_first_floor(input.map.walls[0]@);
        lemma_flat_moves(&input.map, start, input.moves@);
    }
}

/// The first floor of a row is a floor.
pub proof fn lemma_first_floor(row: Seq<Spot>)
    ensures
        0 <= first_floor(row) <= row.len(),
        first_floor(row) < row.len() ==> row[first_floor(row)] == Spot::Floor,
    decreases row.len(),
{
    if row.len() > 0 {
        lemma_first_floor(row.drop_last());
    }
}

/// The score at the end of the walk over the flat chart; `None` where the
/// first row has no floor.
pub fn try_part1(input: &InputType) -> (r: Option<i32>)
    requires
        input.map.wf(),
    ensures
        r.is_some() == State::start(&input.map).is_some(),
        r matches Some(score) ==> walk_score(input, None) == Some(score as int),
{
    proof {
        lemma_flat_score(input);
    }
    walk(input, &Wrap::Flat)
}

pub fn part1(input: &InputType) -> (score: i32)
    requires
        input.map.wf(),
        State::start(&input.map).is_some(),
    ensures
        walk_score(input, None) == Some(score as int),
{
    try_part1(input).unwrap()
}

/// The chart as a net of faces.
#[derive(Debug)]
pub struct Cube<'a> {
    pub map: &'a Chart,
    // a map of where on the flattened map is an edge
    pub overview: Vec<Vec<bool>>,
    pub overview_size: (i32, i32),
    pub face_size: i32,
}

impl<'a> Cube<'a> {
    /// Whether the overview has a mark for each face of the chart: whether
    /// something is at the first place of the face.
    pub open spec fn wf(&self) -> bool {
        &&& self.map.wf()
        &&& self.face_size == self.map.face_size
        &&& self.face_size >= 1
        &&& self.overview_size.0 == self.map.size.0 / self.face_size
        &&& self.overview_size.1 == self.map.size.1 / self.face_size
        &&& self.overview.len() >= self.overview_size.1
        &&& forall|j: int|
            0 <= j < self.overview.len() ==> (#[trigger] self.overview[j]).len()
                >= self.overview_size.0
        &&& forall|j: int, i: int|
            0 <= j < self.overview_size.1 && 0 <= i < self.overview_size.0
                ==> #[trigger] self.overview[j][i] == (self.map.spot(
                i * self.face_size,
                j * self.face_size,
            ) != Spot::Void)
    }

    /// Whether a face is at the place of the overview.
    pub open spec fn face(&self, x: int, y: int) -> bool {
        0 <= x < self.overview_size.0 && 0 <= y < self.overview_size.1 && self.overview[y][x]
    }

    pub fn new(map: &'a Chart) -> (cube: Cube<'a>)
        requires
            map.wf(),
            map.face_size >= 1,
        ensures
            cube.wf(),
            cube.map == map,
    {
        let fs = map.face_size;
        let mut overview: Vec<Vec<bool>> = Vec::new();
        let mut y: i32 = 0;
        let ghost mut j: int = 0;
        while y < map.size.1
            invariant
                map.wf(),
                fs == map.face_size,
                fs >= 1,
                0 <= j,
                y == j * fs,
                0 <= y < map.size.1 + fs,
                overview.len() == j,
                forall|r: int|
                    0 <= r < j ==> (#[trigger] overview[r]).len() >= map.size.0 / fs,
                forall|r: int, c: int|
                    0 <= r < j && 0 <= c < map.size.0 / fs ==> #[trigger] overview[r][c]
                        == (map.spot(c * fs, r * fs) != Spot::Void),
            decreases map.size.1 + fs - y,
        {
            let mut row: Vec<bool> = Vec::new();
            let mut x: i32 = 0;
            let ghost mut i: int = 0;
            while x < map.size.0
                invariant
                    map.wf(),
                    1 <= fs <= MOST,
                    0 <= i,
                    x == i * fs,
                    y == j * fs,
                    0 <= x < map.size.0 + fs,
                    row.len() == i,
                    forall|c: int| 0 <= c < i ==> #[trigger] row[c] == (map.spot(c * fs, y as int)
                        != Spot::Void),
                decreases map.size.0 + fs - x,
            {
                if map.get(x, y) != Spot::Void {
                    row.push(true);
                } else {
                    row.push(false);
                }
                proof {
                    assert((i + 1) * fs == i * fs + fs) by (nonlinear_arith);
                    i = i + 1;
                }
                x += fs;
            }
            proof {
                let w = map.size.0 as int;
                let f = fs as int;
                assert(i >= w / f) by (nonlinear_arith)
                    requires
                        i * f >= w,
                        f >= 1,
                        w >= 0,
                ;
            }
            overview.push(row);
            proof {
                assert((j + 1) * fs == j * fs + fs) by (nonlinear_arith);
                j = j + 1;
            }
            y += fs;
        }
        proof {
            let h = map.size.1 as int;
            let f = fs as int;
            assert(j >= h / f) by (nonlinear_arith)
                requires
                    j * f >= h,
                    f >= 1,
                    h >= 0,
            ;
        }
        Cube {
            map,
            overview,
            face_size: map.face_size,
            overview_size: (map.size.0 / map.face_size, map.size.1 / map.face_size),
        }
    }

    /// Get the face at the given position in the overview if one is there.
    pub fn get(&self, x: i32, y: i32) -> (r: bool)
        requires
            self.wf(),
        ensures
            r == self.face(x as int, y as int),
    {
        if 0 <= x && x < self.overview_size.0 && 0 <= y && y < self.overview_size.1 {
            assert(self.overview[y as int].len() >= self.overview_size.0);
            return self.overview[y as usize][x as usize];
        }
        false
    }
}

/// Where a walk along an outside edge is.
pub struct Edge {
    /// x-y in the map
    pub at: (i32, i32),
    /// the direction we are currently moving
    pub moving: Direction,
    /// The edge that we are following.
    pub following: Direction,
    /// Did we just make a turn?
    pub made_turn: bool,
}

/// Iterators that will follow an outside edge.
pub struct EdgeIterator<'a> {
    pub cube: &'a Cube<'a>,
    /// x-y in the map
    pub map_xy: (i32, i32),
    /// the direction we are currently moving
    pub moving: Direction,
    /// The edge that we are following.
    /// It is always 90 degrees from the moving direction.
    pub following: Direction,
    /// Did we just make a turn?
    pub made_turn: bool,
}

impl<'a> View for EdgeIterator<'a> {
    type V = Edge;

    open spec fn view(&self) -> Edge {
        Edge {
            at: self.map_xy,
            moving: self.moving,
            following: self.following,
            made_turn: self.made_turn,
        }
    }
}

/// One step of a walk along an outside edge: the place in the void where it
/// was, with the direction in which one leaves the chart there, and where it
/// is then. It turns round a corner where the edge falls away, and goes on
/// straight along the edge else. `None` where the chart is in the way: the
/// walk has come to an inside corner; and where it is far from the chart.
pub open spec fn stepped(map: &Chart, e: Edge) -> Option<(VoidConnection, Edge)> {
    let result = VoidConnection { xy: e.at, facing: e.following.flipped() };
    let xy = e.moving.ahead(e.at);
    let beside = e.following.ahead(xy);
    if !nearby(e.at) {
        None
    } else if map.spot(beside.0 as int, beside.1 as int) == Spot::Void {
        Some(
            (
                result,
                Edge {
                    at: beside,
                    moving: e.following,
                    following: e.moving.flipped(),
                    made_turn: true,
                },
            ),
        )
    } else if map.spot(xy.0 as int, xy.1 as int) != Spot::Void {
        None
    } else {
        Some((result, Edge { at: xy, made_turn: false, ..e }))
    }
}

impl<'a> EdgeIterator<'a> {
    pub fn next(&mut self) -> (r: Option<VoidConnection>)
        requires
            old(self).cube.map.wf(),
        ensures
            final(self).cube == old(self).cube,
            match stepped(old(self).cube.map, old(self)@) {
                Some((result, after)) => r == Some(result) && final(self)@ == after,
                None => r.is_none() && final(self)@ == old(self)@,
            },
    {
        if !(-8 <= self.map_xy.0 && self.map_xy.0 <= MOST + 8 && -8 <= self.map_xy.1
            && self.map_xy.1 <= MOST + 8) {
            return None;
        }
        let result = VoidConnection { xy: self.map_xy, facing: self.following.flip() };
        let (x, y) = self.moving.advance(self.map_xy);
        let following = self.following.advance((x, y));
        // Do we need to turn?
        if self.cube.map.get(following.0, following.1) == Spot::Void {
            self.made_turn = true;
            let moving = self.moving;
            self.moving = self.following;
            self.following = moving.flip();
            self.map_xy = following;
        } else if self.cube.map.get(x, y) != Spot::Void {
            // Have we reached an inside turn? If so, we've lapped the cube and should stop.
            return None;
        } else {
            // Otherwise, we are just continuing straight
            self.made_turn = false;
            self.map_xy = (x, y);
        }
        Some(result)
    }
}

/// Where the two walks from an inside corner are.
pub struct Join {
    pub left: Edge,
    pub right: Edge,
    pub is_done: bool,
}

/// An iterator that will traverse two directions from an inner corner to find the pairs of
/// edges that should connect together.
pub struct JoinIterator<'a> {
    pub left: EdgeIterator<'a>,
    pub right: EdgeIterator<'a>,
    pub is_done: bool,
}

impl<'a> View for JoinIterator<'a> {
    type V = Join;

    open spec fn view(&self) -> Join {
        Join { left: self.left@, right: self.right@, is_done: self.is_done }
    }
}

/// The two walks at the start: from the place of a missing face that lies
/// in its corner toward `horiz` and `vert`, one away from the corner along
/// each of the two edges that meet there.
pub open spec fn join_at(face_size: int, xy: (int, int), vert: Direction, horiz: Direction) -> Join {
    let x = if horiz == Direction::Left {
        xy.0 * face_size
    } else {
        (xy.0 + 1) * face_size - 1
    };
    let y = if vert == Direction::Up {
        xy.1 * face_size
    } else {
        (xy.1 + 1) * face_size - 1
    };
    Join {
        left: Edge {
            at: (x as i32, y as i32),
            moving: horiz.flipped(),
            following: vert,
            made_turn: false,
        },
        right: Edge {
            at: (x as i32, y as i32),
            moving: vert.flipped(),
            following: horiz,
            made_turn: false,
        },
        is_done: false,
    }
}

/// One step of the two walks: the two places that belong together, and
/// where the walks are then. They are done when both have turned at once.
pub open spec fn joined(map: &Chart, j: Join) -> (Option<(VoidConnection, VoidConnection)>, Join) {
    if j.is_done {
        (None, j)
    } else {
        match stepped(map, j.left) {
            None => (None, j),
            Some((left, left_after)) => match stepped(map, j.right) {
                None => (None, Join { left: left_after, ..j }),
                Some((right, right_after)) => (
                    Some((left, right)),
                    Join {
                        left: left_after,
                        right: right_after,
                        is_done: left_after.made_turn && right_after.made_turn,
                    },
                ),
            },
        }
    }
}

impl<'a> JoinIterator<'a> {
    pub fn new(cube: &'a Cube<'a>, xy: (i32, i32), vert: Direction, horiz: Direction) -> (join:
        JoinIterator<'a>)
        requires
            cube.wf(),
            0 <= xy.0 < cube.overview_size.0,
            0 <= xy.1 < cube.overview_size.1,
        ensures
            join@ == join_at(cube.face_size as int, (xy.0 as int, xy.1 as int), vert, horiz),
            join.left.cube == cube,
            join.right.cube == cube,
    {
        proof {
            let f = cube.face_size as int;
            let w = cube.map.size.0 as int;
            let h = cube.map.size.1 as int;
            assert(0 <= xy.0 * f && (xy.0 + 1) * f <= w) by (nonlinear_arith)
                requires
                    f >= 1,
                    0 <= xy.0 < w / f,
                    w >= 0,
            ;
            assert(0 <= xy.1 * f && (xy.1 + 1) * f <= h) by (nonlinear_arith)
                requires
                    f >= 1,
                    0 <= xy.1 < h / f,
                    h >= 0,
            ;
            assert((xy.0 + 1) * f == xy.0 * f + f) by (nonlinear_arith);
            assert((xy.1 + 1) * f == xy.1 * f + f) by (nonlinear_arith);
        }
        let x;
        if same_direction(horiz, Direction::Left) {
            x = xy.0 * cube.face_size;
        } else {
            x = (xy.0 + 1) * cube.face_size - 1;
        }
        let y;
        if same_direction(vert, Direction::Up) {
            y = xy.1 * cube.face_size;
        } else {
            y = (xy.1 + 1) * cube.face_size - 1;
        }
        let h_itr = EdgeIterator {
            cube,
            map_xy: (x, y),
            moving: horiz.flip(),
            following: vert,
            made_turn: false,
        };
        let v_itr = EdgeIterator {
            cube,
            map_xy: (x, y),
            moving: vert.flip(),
            following: horiz,
            made_turn: false,
        };
        JoinIterator { left: h_itr, right: v_itr, is_done: false }
    }

    pub fn next(&mut self) -> (r: Option<(VoidConnection, VoidConnection)>)
        requires
            old(self).left.cube.map.wf(),
            old(self).right.cube == old(self).left.cube,
        ensures
            final(self).left.cube == old(self).left.cube,
            final(self).right.cube == old(self).right.cube,
            r == joined(old(self).left.cube.map, old(self)@).0,
            final(self)@ == joined(old(self).left.cube.map, old(self)@).1,
    {
        if !self.is_done {
            if let Some(left) = self.left.next() {
                if let Some(right) = self.right.next() {
                    self.is_done = self.left.made_turn && self.right.made_turn;
                    return Some((left, right));
                }
            }
        }
        None
    }
}

/// Whether the chart has a face at the place of the overview: one of the
/// whole faces that fit into the chart, with something at its first place.
pub open spec fn face_at(map: &Chart, x: int, y: int) -> bool {
    &&& 0 <= x < map.size.0 / map.face_size
    &&& 0 <= y < map.size.1 / map.face_size
    &&& map.spot(x * map.face_size, y * map.face_size) != Spot::Void
}

/// The walks from the place of the overview, where it is an inside corner:
/// a face is missing there, and a face is above or below it, and one to
/// its left or its right.
pub open spec fn corner_at(map: &Chart, x: int, y: int) -> Option<Join> {
    let fs = map.face_size as int;
    if face_at(map, x, y) {
        None
    } else if face_at(map, x, y - 1) {
        if face_at(map, x - 1, y) {
            Some(join_at(fs, (x, y), Direction::Up, Direction::Left))
        } else if face_at(map, x + 1, y) {
            Some(join_at(fs, (x, y), Direction::Up, Direction::Right))
        } else {
            None
        }
    } else if face_at(map, x, y + 1) {
        if face_at(map, x - 1, y) {
            Some(join_at(fs, (x, y), Direction::Down, Direction::Left))
        } else if face_at(map, x + 1, y) {
            Some(join_at(fs, (x, y), Direction::Down, Direction::Right))
        } else {
            None
        }
    } else {
        None
    }
}

/// The walks in `acc`, and behind them those from the inside corners of the
/// overview from the place `x` of row `y` on, row by row.
pub open spec fn corners_from(map: &Chart, y: int, x: int, acc: Seq<Join>) -> Seq<Join>
    decreases map.size.1 / map.face_size - y, map.size.0 / map.face_size - x,
{
    if y >= map.size.1 / map.face_size || x < 0 {
        acc
    } else if x >= map.size.0 / map.face_size {
        corners_from(map, y + 1, 0, acc)
    } else {
        corners_from(
            map,
            y,
            x + 1,
            match corner_at(map, x, y) {
                Some(j) => acc.push(j),
                None => acc,
            },
        )
    }
}

/// The walks as they stand.
pub open spec fn joins_view<'a>(joins: Seq<JoinIterator<'a>>) -> Seq<Join> {
    joins.map_values(|j: JoinIterator<'a>| j@)
}

/// The most steps that the two walks from an inside corner are followed
/// for.
pub const JOIN_LIMIT: u64 = 100_000_000_000_000;

/// The jumps for two places that belong together: who leaves the chart at
/// one goes on at the chart's place beside the other, into the chart.
pub open spec fn jumps_of(left: VoidConnection, right: VoidConnection) -> Seq<
    (VoidConnection, VoidConnection),
> {
    seq![
        (
            left,
            VoidConnection {
                xy: right.facing.flipped().ahead(right.xy),
                facing: right.facing.flipped(),
            },
        ),
        (
            right,
            VoidConnection {
                xy: left.facing.flipped().ahead(left.xy),
                facing: left.facing.flipped(),
            },
        ),
    ]
}

/// The jumps in `acc`, and behind them those that the two walks give until
/// they are done; `None` where they are not done after `fuel` steps.
pub open spec fn gathered(
    map: &Chart,
    j: Join,
    fuel: nat,
    acc: Seq<(VoidConnection, VoidConnection)>,
) -> Option<Seq<(VoidConnection, VoidConnection)>>
    decreases fuel,
{
    match joined(map, j).0 {
        None => Some(acc),
        Some((left, right)) => if fuel == 0 {
            None
        } else {
            gathered(map, joined(map, j).1, (fuel - 1) as nat, acc + jumps_of(left, right))
        },
    }
}

/// The jumps in `acc`, and behind them those of the walks from `from` on.
pub open spec fn gathered_all(
    map: &Chart,
    joins: Seq<Join>,
    from: int,
    acc: Seq<(VoidConnection, VoidConnection)>,
) -> Option<Seq<(VoidConnection, VoidConnection)>>
    decreases joins.len() - from,
{
    if from < 0 || from >= joins.len() {
        Some(acc)
    } else {
        match gathered(map, joins[from], JOIN_LIMIT as nat, acc) {
            Some(more) => gathered_all(map, joins, from + 1, more),
            None => None,
        }
    }
}

/// The jumps of the folded chart: from each inside corner of the net the
/// two edges that meet there are walked along, and the places that are
/// passed at the same time belong together.
pub open spec fn folded_jumps(map: &Chart) -> Option<Seq<(VoidConnection, VoidConnection)>> {
    gathered_all(map, corners_from(map, 0, 0, Seq::empty()), 0, Seq::empty())
}

impl<'a> Cube<'a> {
    /// Find all of the inside corners in the overview, because those represent the ends of the
    /// cuts that flattened the cube. Return a list of JoinIterators that will cover the
    /// perimeter.
    pub fn find_inside_corners(&'a self) -> (result: Vec<JoinIterator<'a>>)
        requires
            self.wf(),
        ensures
            joins_view(result@) == corners_from(self.map, 0, 0, Seq::empty()),
            forall|k: int|
                0 <= k < result.len() ==> (#[trigger] result[k]).left.cube == self
                    && result[k].right.cube == self,
    {
        let mut result: Vec<JoinIterator<'a>> = Vec::new();
        let ghost goal = corners_from(self.map, 0, 0, Seq::empty());
        assert(joins_view(result@) =~= Seq::<Join>::empty());
        let mut y: i32 = 0;
        while y < self.overview_size.1
            invariant
                self.wf(),
                0 <= y <= self.overview_size.1,
                corners_from(self.map, y as int, 0, joins_view(result@)) == goal,
                forall|k: int|
                    0 <= k < result.len() ==> (#[trigger] result[k]).left.cube == self
                        && result[k].right.cube == self,
            decreases self.overview_size.1 - y,
        {
            let mut x: i32 = 0;
            while x < self.overview_size.0
                invariant
                    self.wf(),
                    0 <= y < self.overview_size.1,
                    0 <= x <= self.overview_size.0,
                    corners_from(self.map, y as int, x as int, joins_view(result@)) == goal,
                    forall|k: int|
                        0 <= k < result.len() ==> (#[trigger] result[k]).left.cube == self
                            && result[k].right.cube == self,
                decreases self.overview_size.0 - x,
            {
                let ghost before = joins_view(result@);
                proof {
                    self.lemma_faces(x as int, y as int);
                    self.lemma_faces(x as int, y - 1);
                    self.lemma_faces(x as int, y + 1);
                    self.lemma_faces(x - 1, y as int);
                    self.lemma_faces(x + 1, y as int);
                }
                if !self.get(x, y) {
                    if self.get(x, y - 1) {
                        if self.get(x - 1, y) {
                            result.push(
                                JoinIterator::new(self, (x, y), Direction::Up, Direction::Left),
                            );
                        } else if self.get(x + 1, y) {
                            result.push(
                                JoinIterator::new(self, (x, y), Direction::Up, Direction::Right),
                            );
                        }
                    } else if self.get(x, y + 1) {
                        if self.get(x - 1, y) {
                            result.push(
                                JoinIterator::new(self, (x, y), Direction::Down, Direction::Left),
                            );
                        } else if self.get(x + 1, y) {
                            result.push(
                                JoinIterator::new(self, (x, y), Direction::Down, Direction::Right),
                            );
                        }
                    }
                }
                proof {
                    match corner_at(self.map, x as int, y as int) {
                        Some(j) => {
                            assert(joins_view(result@) =~= before.push(j));
                        },
                        None => {
                            assert(joins_view(result@) =~= before);
                        },
                    }
                }
                x += 1;
            }
            y += 1;
        }
        result
    }

    /// The overview says where the chart has its faces.
    pub proof fn lemma_faces(&self, x: int, y: int)
        requires
            self.wf(),
        ensures
            self.face(x, y) == face_at(self.map, x, y),
    {
        if 0 <= x < self.overview_size.0 && 0 <= y < self.overview_size.1 {
            assert(self.overview[y][x] == (self.map.spot(x * self.face_size, y * self.face_size)
                != Spot::Void));
        }
    }

    /// The jumps of the folded chart; `None` where two walks are not done
    /// after `JOIN_LIMIT` steps.
    pub fn build_wrap_map(&'a self) -> (r: Option<WrapMap>)
        requires
            self.wf(),
        ensures
            r.is_some() == folded_jumps(self.map).is_some(),
            r matches Some(jumps) ==> folded_jumps(self.map) == Some(jumps.pairs@),
    {
        let mut result = WrapMap::new();
        let mut joins = self.find_inside_corners();
        let ghost starts = joins_view(joins@);
        let ghost goal = folded_jumps(self.map);
        let mut k: usize = 0;
        while k < joins.len()
            invariant
                k <= joins.len(),
                self.wf(),
                goal == folded_jumps(self.map),
                joins.len() == starts.len(),
                forall|i: int| k <= i < joins.len() ==> (#[trigger] joins[i])@ == starts[i],
                forall|i: int|
                    0 <= i < joins.len() ==> (#[trigger] joins[i]).left.cube == self
                        && joins[i].right.cube == self,
                gathered_all(self.map, starts, k as int, result.pairs@) == goal,
            decreases joins.len() - k,
        {
            let ghost others = joins@;
            let done = gather(&mut joins[k], &mut result);
            proof {
                assert forall|i: int| k < i < joins.len() implies (#[trigger] joins[i])@
                    == starts[i] by {
                    assert(joins[i] == others[i]);
                }
                assert forall|i: int| 0 <= i < joins.len() implies (#[trigger] joins[i]).left.cube
                    == self && joins[i].right.cube == self by {
                    if i != k {
                        assert(joins[i] == others[i]);
                    }
                }
            }
            if !done {
                return None;
            }
            k += 1;
        }
        Some(result)
    }
}

/// Follows the two walks until they are done, and enters the jumps that
/// they give; gives `false` where they are not done after `JOIN_LIMIT`
/// steps.
pub fn gather<'a>(join: &mut JoinIterator<'a>, result: &mut WrapMap) -> (done: bool)
    requires
        old(join).left.cube.map.wf(),
        old(join).right.cube == old(join).left.cube,
    ensures
        final(join).left.cube == old(join).left.cube,
        final(join).right.cube == old(join).right.cube,
        match gathered(
            old(join).left.cube.map,
            old(join)@,
            JOIN_LIMIT as nat,
            old(result).pairs@,
        ) {
            Some(pairs) => done && final(result).pairs@ == pairs,
            None => !done,
        },
{
    let ghost map = join.left.cube.map;
    let ghost all = gathered(map, join@, JOIN_LIMIT as nat, result.pairs@);
    let mut fuel: u64 = JOIN_LIMIT;
    loop
        invariant
            map.wf(),
            join.left.cube == old(join).left.cube,
            join.right.cube == old(join).right.cube,
            join.left.cube.map == map,
            join.right.cube == join.left.cube,
            gathered(map, join@, fuel as nat, result.pairs@) == all,
            all == gathered(
                old(join).left.cube.map,
                old(join)@,
                JOIN_LIMIT as nat,
                old(result).pairs@,
            ),
        decreases fuel,
    {
        let ghost here = join@;
        let ghost pairs = result.pairs@;
        let found = join.next();
        match found {
            Some((left, right)) => {
                if fuel == 0 {
                    return false;
                }
                proof {
                    lemma_gathered_on(map, here, fuel as nat, pairs);
                    lemma_stepped_near(map, here.left);
                    lemma_stepped_near(map, here.right);
                }
                let left_target = right.facing.flip();
                result.insert(
                    left,
                    VoidConnection { xy: left_target.advance(right.xy), facing: left_target },
                );
                let right_target = left.facing.flip();
                result.insert(
                    right,
                    VoidConnection { xy: right_target.advance(left.xy), facing: right_target },
                );
                fuel -= 1;
                assert(result.pairs@ =~= pairs + jumps_of(left, right));
            },
            None => {
                return true;
            },
        }
    }
}

/// With fuel left and the two walks not done, the jumps gathered are those
/// gathered after one step more.
pub proof fn lemma_gathered_on(
    map: &Chart,
    j: Join,
    fuel: nat,
    acc: Seq<(VoidConnection, VoidConnection)>,
)
    requires
        fuel > 0,
        joined(map, j).0.is_some(),
    ensures
        gathered(map, j, fuel, acc) == gathered(
            map,
            joined(map, j).1,
            (fuel - 1) as nat,
            acc + jumps_of(joined(map, j).0.unwrap().0, joined(map, j).0.unwrap().1),
        ),
{
}

/// A walk takes a step only near the chart.
pub proof fn lemma_stepped_near(map: &Chart, e: Edge)
    ensures
        stepped(map, e) matches Some((result, after)) ==> nearby(result.xy),
{
}

/// The score at the end of the walk over the folded chart; `None` where the
/// chart has no faces to fold, the jumps are not found, the first row has
/// no floor, or a step cannot be resolved.
pub open spec fn folded_score(input: &InputType) -> Option<int> {
    if input.map.face_size < 1 {
        None
    } else {
        match folded_jumps(&input.map) {
            Some(pairs) => walk_score(input, Some(pairs)),
            None => None,
        }
    }
}

/// The score at the end of the walk over the folded chart, where there is
/// one.
pub fn try_part2(input: &InputType) -> (r: Option<i32>)
    requires
        input.map.wf(),
    ensures
        r.is_some() == folded_score(input).is_some(),
        r matches Some(score) ==> folded_score(input) == Some(score as int),
{
    if input.map.face_size < 1 {
        return None;
    }
    let cube = Cube::new(&input.map);
    let wrap_map = match cube.build_wrap_map() {
        Some(m) => m,
        None => {
            return None;
        },
    };
    walk(input, &Wrap::Folded(wrap_map))
}

pub fn part2(input: &InputType) -> (score: i32)
    requires
        input.map.wf(),
        folded_score(input).is_some(),
    ensures
        folded_score(input) == Some(score as int),
{
    try_part2(input).unwrap()
}

} // verus!
