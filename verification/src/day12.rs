//! A height map: reading it, and the steps that a climber may take on it.
use crate::frontier::{queue_new, queue_pop, queue_push, queued, Frontier, Place};
use crate::text::{lines, lines_of, rows};
use vstd::prelude::*;
use vstd::string::StringSliceAdditionalSpecFns;

verus! {

/// A place on the map: column `x` of row `y`.
#[derive(Clone, Copy, Debug, PartialEq, Eq, Structural)]
pub struct Position {
    pub x: usize,
    pub y: usize,
}

/// The height map, with the places to start from and to reach.
#[derive(Debug)]
pub struct Puzzle {
    pub elevations: Vec<Vec<u8>>,
    pub width: usize,
    pub height: usize,
    pub start: Position,
    pub end: Position,
}

pub const START_MARK: u8 = 83;

pub const END_MARK: u8 = 69;

/// The height that a character stands for: 0 to 25 for `a` to `z`, the
/// lowest for the start and the highest for the end; `None` for any other
/// character.
pub open spec fn elevation_of(b: u8) -> Option<u8> {
    if 97 <= b <= 122 {
        Some((b - 97) as u8)
    } else if b == START_MARK {
        Some(0)
    } else if b == END_MARK {
        Some(25)
    } else {
        None
    }
}

/// Whether every character of the line stands for a height.
pub open spec fn line_ok(line: Seq<u8>) -> bool {
    forall|x: int| 0 <= x < line.len() ==> elevation_of(#[trigger] line[x]).is_some()
}

/// Whether every character of the text stands for a height.
pub open spec fn well_formed(text: Seq<u8>) -> bool {
    forall|y: int| 0 <= y < lines_of(text).len() ==> line_ok(#[trigger] lines_of(text)[y])
}

/// The heights of a line.
pub open spec fn heights_of(line: Seq<u8>) -> Seq<u8> {
    line.map_values(|b: u8| elevation_of(b).unwrap())
}

/// The place of the last `b` in the line, or -1 where it has none.
pub open spec fn last_index(line: Seq<u8>, b: u8) -> int
    decreases line.len(),
{
    if line.len() == 0 {
        -1
    } else if line.last() == b {
        line.len() - 1
    } else {
        last_index(line.drop_last(), b)
    }
}

/// The place of the last `b` in the last line that has one, or the first
/// place of the map where no line has one.
pub open spec fn marked(ls: Seq<Seq<u8>>, b: u8) -> (int, int)
    decreases ls.len(),
{
    if ls.len() == 0 {
        (0, 0)
    } else if last_index(ls.last(), b) >= 0 {
        (last_index(ls.last(), b), ls.len() - 1)
    } else {
        marked(ls.drop_last(), b)
    }
}

/// The rows of heights.
pub open spec fn grid_of(elevations: Seq<Vec<u8>>) -> Seq<Seq<u8>> {
    elevations.map_values(|r: Vec<u8>| r@)
}

impl Puzzle {
    /// The rows of heights.
    pub open spec fn grid(&self) -> Seq<Seq<u8>> {
        grid_of(self.elevations@)
    }

    /// Whether the puzzle is the one that the lines describe.
    pub open spec fn says(&self, ls: Seq<Seq<u8>>) -> bool {
        &&& self.grid() == ls.map_values(|l: Seq<u8>| heights_of(l))
        &&& self.height == ls.len()
        &&& self.width == if ls.len() == 0 {
            0
        } else {
            ls[0].len()
        }
        &&& (self.start.x as int, self.start.y as int) == marked(ls, START_MARK)
        &&& (self.end.x as int, self.end.y as int) == marked(ls, END_MARK)
    }

    /// Whether the map is a rectangle of heights up to 25, of the stated
    /// width and height.
    pub open spec fn rectangular(&self) -> bool {
        &&& self.height == self.elevations.len()
        &&& forall|y: int|
            0 <= y < self.height ==> (#[trigger] self.elevations[y]).len() == self.width
        &&& forall|y: int, x: int|
            0 <= y < self.height && 0 <= x < self.width ==> (#[trigger] self.grid()[y][x]) <= 25
    }

    /// Whether a climber may step from one place to the other: the height
    /// rises by one at most.
    pub open spec fn may_step(&self, from: (int, int), to: (int, int)) -> bool {
        self.grid()[to.1][to.0] <= self.grid()[from.1][from.0] + 1
    }

    /// The places next to `pos` to which a climber may step: left, right,
    /// up and down, in this order.
    pub open spec fn steps_from(&self, pos: (int, int)) -> Seq<(int, int)> {
        let left = if pos.0 > 0 && self.may_step(pos, (pos.0 - 1, pos.1)) {
            seq![(pos.0 - 1, pos.1)]
        } else {
            Seq::empty()
        };
        let right = if pos.0 < self.width - 1 && self.may_step(pos, (pos.0 + 1, pos.1)) {
            seq![(pos.0 + 1, pos.1)]
        } else {
            Seq::empty()
        };
        let up = if pos.1 > 0 && self.may_step(pos, (pos.0, pos.1 - 1)) {
            seq![(pos.0, pos.1 - 1)]
        } else {
            Seq::empty()
        };
        let down = if pos.1 < self.height - 1 && self.may_step(pos, (pos.0, pos.1 + 1)) {
            seq![(pos.0, pos.1 + 1)]
        } else {
            Seq::empty()
        };
        left + right + up + down
    }

    /// Reads the map; `None` where a character stands for no height.
    pub fn parse(input: &str) -> (r: Option<Puzzle>)
        ensures
            r.is_some() == well_formed(input.spec_bytes()),
            r matches Some(p) ==> p.says(lines_of(input.spec_bytes())),
    {
        let all = lines(input.as_bytes());
        let ghost ls = lines_of(input.spec_bytes());
        let mut start = Position { x: 0, y: 0 };
        let mut end = Position { x: 0, y: 0 };
        let mut elevations: Vec<Vec<u8>> = Vec::new();
        let mut y: usize = 0;
        assert(ls.take(0) =~= Seq::<Seq<u8>>::empty());
        assert(grid_of(elevations@) =~= ls.take(0).map_values(|l: Seq<u8>| heights_of(l)));
        while y < all.len()
            invariant
                y <= all.len(),
                rows(all@) == ls,
                ls == lines_of(input.spec_bytes()),
                forall|k: int| 0 <= k < y ==> line_ok(#[trigger] ls[k]),
                grid_of(elevations@) == ls.take(y as int).map_values(|l: Seq<u8>| heights_of(l)),
                (start.x as int, start.y as int) == marked(ls.take(y as int), START_MARK),
                (end.x as int, end.y as int) == marked(ls.take(y as int), END_MARK),
            decreases all.len() - y,
        {
            let line = &all[y];
            let ghost l = ls[y as int];
            let ghost start_before = start;
            let ghost end_before = end;
            proof {
                assert(rows(all@)[y as int] == line@);
                assert(ls.take(y as int + 1).drop_last() =~= ls.take(y as int));
                assert(ls.take(y as int + 1).last() == l);
                assert(l.take(0) =~= Seq::<u8>::empty());
            }
            let mut row: Vec<u8> = Vec::new();
            let mut x: usize = 0;
            assert(row@ =~= heights_of(l.take(0)));
            while x < line.len()
                invariant
                    x <= line.len(),
                    line@ == l,
                    l == lines_of(input.spec_bytes())[y as int],
                    y < lines_of(input.spec_bytes()).len(),
                    line_ok(l.take(x as int)),
                    row@ == heights_of(l.take(x as int)),
                    (start.x as int, start.y as int) == if last_index(l.take(x as int), START_MARK)
                        >= 0 {
                        (last_index(l.take(x as int), START_MARK), y as int)
                    } else {
                        (start_before.x as int, start_before.y as int)
                    },
                    (end.x as int, end.y as int) == if last_index(l.take(x as int), END_MARK) >= 0 {
                        (last_index(l.take(x as int), END_MARK), y as int)
                    } else {
                        (end_before.x as int, end_before.y as int)
                    },
                decreases line.len() - x,
            {
                let ch = line[x];
                proof {
                    assert(l.take(x as int + 1).drop_last() =~= l.take(x as int));
                    assert(l.take(x as int + 1).last() == ch);
                }
                let ghost before = row@;
                if 97 <= ch && ch <= 122 {
                    row.push(ch - 97);
                } else if ch == START_MARK {
                    start = Position { x, y };
                    row.push(0);
                } else if ch == END_MARK {
                    end = Position { x, y };
                    row.push(25);
                } else {
                    assert(!elevation_of(l[x as int]).is_some());
                    assert(!line_ok(lines_of(input.spec_bytes())[y as int]));
                    return None;
                }
                proof {
                    assert(row@ =~= heights_of(l.take(x as int + 1)));
                    assert forall|k: int| 0 <= k < x + 1 implies elevation_of(
                        #[trigger] l.take(x as int + 1)[k],
                    ).is_some() by {
                        if k < x {
                            assert(l.take(x as int)[k] == l[k]);
                        }
                    }
                }
                x += 1;
            }
            proof {
                assert(l.take(x as int) =~= l);
            }
            let ghost before = grid_of(elevations@);
            elevations.push(row);
            proof {
                assert(grid_of(elevations@) =~= before.push(heights_of(l)));
                assert(grid_of(elevations@) =~= ls.take(y as int + 1).map_values(
                    |l: Seq<u8>| heights_of(l),
                ));
            }
            y += 1;
        }
        assert(ls.take(y as int) =~= ls);
        let height = elevations.len();
        let width = if height == 0 {
            0
        } else {
            elevations[0].len()
        };
        let puzzle = Puzzle { elevations, width, height, start, end };
        proof {
            if ls.len() > 0 {
                assert(puzzle.grid()[0] == heights_of(ls[0]));
            }
        }
        Some(puzzle)
    }

    /// The places to which a climber may step from `pos`.
    pub fn next(&self, pos: &Position) -> (result: Vec<Position>)
        requires
            self.rectangular(),
            pos.x < self.width,
            pos.y < self.height,
        ensures
            result@.map_values(|p: Position| (p.x as int, p.y as int)) == self.steps_from(
                (pos.x as int, pos.y as int),
            ),
    {
        let mut result: Vec<Position> = Vec::new();
        proof {
            assert(self.grid()[pos.y as int][pos.x as int] <= 25);
            assert(self.grid()[pos.y as int] == self.elevations[pos.y as int]@);
            if pos.y > 0 {
                assert(self.grid()[pos.y - 1] == self.elevations[pos.y - 1]@);
            }
            if pos.y < self.height - 1 {
                assert(self.grid()[pos.y + 1] == self.elevations[pos.y + 1]@);
            }
        }
        let elevation = self.elevations[pos.y][pos.x] + 1;
        let ghost at = (pos.x as int, pos.y as int);
        let ghost view = |p: Position| (p.x as int, p.y as int);
        if pos.x > 0 && self.elevations[pos.y][pos.x - 1] <= elevation {
            result.push(Position { x: pos.x - 1, y: pos.y });
        }
        let ghost one = result@.map_values(view);
        if pos.x < self.width - 1 && self.elevations[pos.y][pos.x + 1] <= elevation {
            result.push(Position { x: pos.x + 1, y: pos.y });
        }
        let ghost two = result@.map_values(view);
        if pos.y > 0 && self.elevations[pos.y - 1][pos.x] <= elevation {
            result.push(Position { x: pos.x, y: pos.y - 1 });
        }
        let ghost three = result@.map_values(view);
        if pos.y < self.height - 1 && self.elevations[pos.y + 1][pos.x] <= elevation {
            result.push(Position { x: pos.x, y: pos.y + 1 });
        }
        proof {
            let four = result@.map_values(view);
            assert(four =~= self.steps_from(at));
        }
        result
    }
}

/// The map that the text describes.
pub fn generator(input: &str) -> (p: Puzzle)
    requires
        well_formed(input.spec_bytes()),
    ensures
        p.says(lines_of(input.spec_bytes())),
{
    Puzzle::parse(input).unwrap()
}

/// The second part of this puzzle was never solved: the answer is 0.
pub fn part2(input: &Puzzle) -> (answer: usize)
    ensures
        answer == 0,
{
    0
}

/// The distance that a table holds for a place.
pub open spec fn at(d: Seq<Vec<usize>>, v: Place) -> usize {
    d[v.1 as int]@[v.0 as int]
}

/// The mark of a place that no way has reached yet.
pub const UNREACHED: usize = usize::MAX;

impl Puzzle {
    /// Whether a place is on the map.
    pub open spec fn has(&self, v: Place) -> bool {
        v.0 < self.width && v.1 < self.height
    }

    /// Whether a climber may step from `u` to `v`: they are neighbours on
    /// the map, and the height rises by one at most.
    pub open spec fn edge(&self, u: Place, v: Place) -> bool {
        &&& self.has(u)
        &&& self.has(v)
        &&& (u.1 == v.1 && (u.0 == v.0 + 1 || v.0 == u.0 + 1)) || (u.0 == v.0 && (u.1 == v.1 + 1
            || v.1 == u.1 + 1))
        &&& self.may_step((u.0 as int, u.1 as int), (v.0 as int, v.1 as int))
    }

    /// Whether some way of exactly `n` steps leads from the start to `v`.
    pub open spec fn reach(&self, v: Place, n: nat) -> bool
        decreases n,
    {
        if n == 0 {
            v == (self.start.x, self.start.y)
        } else {
            exists|u: Place| self.edge(u, v) && self.reach(u, (n - 1) as nat)
        }
    }

    /// Whether a table has the shape of the map.
    pub open spec fn table(&self, d: Seq<Vec<usize>>) -> bool {
        &&& d.len() == self.height
        &&& forall|y: int| 0 <= y < self.height ==> (#[trigger] d[y]).len() == self.width
    }

    /// The places that `steps_from` lists are those to which a step leads.
    pub proof fn lemma_steps_from(&self, u: Place, v: Place)
        requires
            self.rectangular(),
            self.has(u),
        ensures
            self.edge(u, v) == self.steps_from((u.0 as int, u.1 as int)).contains(
                (v.0 as int, v.1 as int),
            ),
    {
        let pos = (u.0 as int, u.1 as int);
        let target = (v.0 as int, v.1 as int);
        let left = if pos.0 > 0 && self.may_step(pos, (pos.0 - 1, pos.1)) {
            seq![(pos.0 - 1, pos.1)]
        } else {
            Seq::empty()
        };
        let right = if pos.0 < self.width - 1 && self.may_step(pos, (pos.0 + 1, pos.1)) {
            seq![(pos.0 + 1, pos.1)]
        } else {
            Seq::empty()
        };
        let up = if pos.1 > 0 && self.may_step(pos, (pos.0, pos.1 - 1)) {
            seq![(pos.0, pos.1 - 1)]
        } else {
            Seq::empty()
        };
        let down = if pos.1 < self.height - 1 && self.may_step(pos, (pos.0, pos.1 + 1)) {
            seq![(pos.0, pos.1 + 1)]
        } else {
            Seq::empty()
        };
        let all = left + right + up + down;
        assert(all == self.steps_from(pos));
        if all.contains(target) {
            let i = choose|i: int| 0 <= i < all.len() && all[i] == target;
            if i < left.len() {
                assert(all[i] == left[i]);
            } else if i < left.len() + right.len() {
                assert(all[i] == right[i - left.len()]);
            } else if i < left.len() + right.len() + up.len() {
                assert(all[i] == up[i - left.len() - right.len()]);
            } else {
                assert(all[i] == down[i - left.len() - right.len() - up.len()]);
            }
        }
        if self.edge(u, v) {
            if u.1 == v.1 && u.0 == v.0 + 1 {
                assert(all[0] == target);
            } else if u.1 == v.1 && v.0 == u.0 + 1 {
                assert(all[left.len() as int] == target);
            } else if u.0 == v.0 && u.1 == v.1 + 1 {
                assert(all[(left.len() + right.len()) as int] == target);
            } else {
                assert(all[(left.len() + right.len() + up.len()) as int] == target);
            }
        }
    }

    /// A place that a way leads to is on the map.
    pub proof fn lemma_reach_has(&self, v: Place, n: nat)
        requires
            self.has((self.start.x, self.start.y)),
            self.reach(v, n),
        ensures
            self.has(v),
    {
    }
}

/// What the search knows of a place: 2 for a place that no way has
/// reached, 1 for a place that waits in the queue, 0 for a place that is
/// done with.
pub open spec fn rank(d: Seq<Vec<usize>>, q: Map<Place, usize>, v: Place) -> nat {
    if at(d, v) == UNREACHED {
        2
    } else if q.contains_key(v) {
        1
    } else {
        0
    }
}

/// The sum of the ranks of the first `w` places of a row.
pub open spec fn row_rank(d: Seq<Vec<usize>>, q: Map<Place, usize>, y: usize, w: usize) -> nat
    decreases w,
{
    if w == 0 {
        0
    } else {
        row_rank(d, q, y, (w - 1) as usize) + rank(d, q, ((w - 1) as usize, y))
    }
}

/// The sum of the ranks of the places of the first `h` rows.
pub open spec fn grid_rank(d: Seq<Vec<usize>>, q: Map<Place, usize>, h: usize, w: usize) -> nat
    decreases h,
{
    if h == 0 {
        0
    } else {
        grid_rank(d, q, (h - 1) as usize, w) + row_rank(d, q, (h - 1) as usize, w)
    }
}

proof fn lemma_row_rank(
    d1: Seq<Vec<usize>>,
    q1: Map<Place, usize>,
    d2: Seq<Vec<usize>>,
    q2: Map<Place, usize>,
    y: usize,
    w: usize,
)
    requires
        forall|x: usize| x < w ==> rank(d2, q2, (x, y)) <= #[trigger] rank(d1, q1, (x, y)),
    ensures
        row_rank(d2, q2, y, w) <= row_rank(d1, q1, y, w),
        forall|x: usize|
            x < w && rank(d2, q2, (x, y)) < #[trigger] rank(d1, q1, (x, y)) ==> row_rank(
                d2,
                q2,
                y,
                w,
            ) < row_rank(d1, q1, y, w),
    decreases w,
{
    if w > 0 {
        lemma_row_rank(d1, q1, d2, q2, y, (w - 1) as usize);
        assert(rank(d2, q2, ((w - 1) as usize, y)) <= rank(d1, q1, ((w - 1) as usize, y)));
    }
}

proof fn lemma_grid_rank(
    d1: Seq<Vec<usize>>,
    q1: Map<Place, usize>,
    d2: Seq<Vec<usize>>,
    q2: Map<Place, usize>,
    h: usize,
    w: usize,
    v: Place,
)
    requires
        forall|x: usize, y: usize|
            x < w && y < h ==> rank(d2, q2, (x, y)) <= #[trigger] rank(d1, q1, (x, y)),
        v.0 < w,
        v.1 < h,
        rank(d2, q2, v) < rank(d1, q1, v),
    ensures
        grid_rank(d2, q2, h, w) < grid_rank(d1, q1, h, w),
    decreases h,
{
    let y = (h - 1) as usize;
    assert forall|x: usize| x < w implies rank(d2, q2, (x, y)) <= #[trigger] rank(
        d1,
        q1,
        (x, y),
    ) by {}
    lemma_row_rank(d1, q1, d2, q2, y, w);
    if v.1 == y {
        assert(rank(d2, q2, (v.0, y)) < rank(d1, q1, (v.0, y)));
        lemma_grid_rank_le(d1, q1, d2, q2, y, w);
    } else {
        lemma_grid_rank(d1, q1, d2, q2, y, w, v);
    }
}

proof fn lemma_grid_rank_le(
    d1: Seq<Vec<usize>>,
    q1: Map<Place, usize>,
    d2: Seq<Vec<usize>>,
    q2: Map<Place, usize>,
    h: usize,
    w: usize,
)
    requires
        forall|x: usize, y: usize|
            x < w && y < h ==> rank(d2, q2, (x, y)) <= #[trigger] rank(d1, q1, (x, y)),
    ensures
        grid_rank(d2, q2, h, w) <= grid_rank(d1, q1, h, w),
    decreases h,
{
    if h > 0 {
        let y = (h - 1) as usize;
        assert forall|x: usize| x < w implies rank(d2, q2, (x, y)) <= #[trigger] rank(
            d1,
            q1,
            (x, y),
        ) by {}
        lemma_row_rank(d1, q1, d2, q2, y, w);
        lemma_grid_rank_le(d1, q1, d2, q2, y, w);
    }
}

/// Whether the search is done with a place: a way has reached it, and it
/// does not wait in the queue.
pub open spec fn settled(p: &Puzzle, d: Seq<Vec<usize>>, q: Map<Place, usize>, v: Place) -> bool {
    p.has(v) && at(d, v) != UNREACHED && !q.contains_key(v)
}

/// Every distance in the table is the length of a way from the start.
pub open spec fn sound(p: &Puzzle, d: Seq<Vec<usize>>) -> bool {
    forall|v: Place| p.has(v) && #[trigger] at(d, v) != UNREACHED ==> p.reach(v, at(d, v) as nat)
}

/// Every place in the queue is on the map and waits with the distance that
/// the table holds for it.
pub open spec fn keyed(p: &Puzzle, d: Seq<Vec<usize>>, q: Map<Place, usize>) -> bool {
    forall|k: Place| #[trigger]
        q.contains_key(k) ==> p.has(k) && q[k] == at(d, k) && q[k] != UNREACHED
}

/// Every step from `u` leads to a place whose distance is at most one more
/// than that of `u`.
pub open spec fn relaxed_at(p: &Puzzle, d: Seq<Vec<usize>>, u: Place) -> bool {
    forall|v: Place| #[trigger] p.edge(u, v) ==> at(d, v) <= at(d, u) + 1
}

/// The steps from every place that the search is done with, but for `spare`,
/// are accounted for.
pub open spec fn relaxed(
    p: &Puzzle,
    d: Seq<Vec<usize>>,
    q: Map<Place, usize>,
    spare: Option<Place>,
) -> bool {
    forall|u: Place| #[trigger] settled(p, d, q, u) && Some(u) != spare ==> relaxed_at(p, d, u)
}

/// No place that the search is done with is further than `bound`.
pub open spec fn behind(p: &Puzzle, d: Seq<Vec<usize>>, q: Map<Place, usize>, bound: int) -> bool {
    forall|u: Place| #[trigger] settled(p, d, q, u) ==> at(d, u) <= bound
}

/// No place in the queue is nearer than `bound`.
pub open spec fn ahead(q: Map<Place, usize>, bound: int) -> bool {
    forall|k: Place| #[trigger] q.contains_key(k) ==> bound <= q[k]
}

/// A place that a way of `n` steps leads to has a distance of at most `n`
/// in the table, unless a place still waits in the queue at a distance of
/// at most `n`.
pub proof fn lemma_lower(p: &Puzzle, d: Seq<Vec<usize>>, q: Map<Place, usize>, v: Place, n: nat)
    requires
        p.has((p.start.x, p.start.y)),
        at(d, (p.start.x, p.start.y)) == 0,
        keyed(p, d, q),
        relaxed(p, d, q, None),
        p.reach(v, n),
    ensures
        at(d, v) <= n || exists|k: Place| #[trigger] q.contains_key(k) && q[k] <= n,
    decreases n,
{
    if 0 < n < usize::MAX {
        let u = choose|u: Place| p.edge(u, v) && p.reach(u, (n - 1) as nat);
        lemma_lower(p, d, q, u, (n - 1) as nat);
        if at(d, u) <= n - 1 {
            if q.contains_key(u) {
                assert(q[u] <= n);
            } else {
                assert(settled(p, d, q, u));
                assert(relaxed_at(p, d, u));
                assert(p.edge(u, v));
            }
        } else {
            let k = choose|k: Place| #[trigger] q.contains_key(k) && q[k] <= n - 1;
            assert(q.contains_key(k) && q[k] <= n);
        }
    }
}

/// A table of the given shape in which every place is unreached.
pub fn unreached_table(width: usize, height: usize) -> (d: Vec<Vec<usize>>)
    ensures
        d.len() == height,
        forall|y: int| 0 <= y < height ==> (#[trigger] d[y]).len() == width,
        forall|v: Place| v.0 < width && v.1 < height ==> #[trigger] at(d@, v) == UNREACHED,
{
    let mut d: Vec<Vec<usize>> = Vec::new();
    let mut y: usize = 0;
    while y < height
        invariant
            y <= height,
            d.len() == y,
            forall|r: int| 0 <= r < y ==> (#[trigger] d[r]).len() == width,
            forall|v: Place| v.0 < width && v.1 < y ==> #[trigger] at(d@, v) == UNREACHED,
        decreases height - y,
    {
        let mut row: Vec<usize> = Vec::new();
        let mut x: usize = 0;
        while x < width
            invariant
                x <= width,
                row.len() == x,
                forall|c: int| 0 <= c < x ==> #[trigger] row[c] == UNREACHED,
            decreases width - x,
        {
            row.push(UNREACHED);
            x += 1;
        }
        let ghost before = d@;
        d.push(row);
        assert forall|v: Place| v.0 < width && v.1 < y + 1 implies #[trigger] at(d@, v)
            == UNREACHED by {
            if v.1 < y {
                assert(d@[v.1 as int] == before[v.1 as int]);
                assert(at(before, v) == UNREACHED);
            }
        }
        y += 1;
    }
    d
}

/// The least number of steps from the start to the end; `UNREACHED` where no
/// way leads there.
pub fn part1(input: &Puzzle) -> (steps: usize)
    requires
        input.rectangular(),
        input.has((input.start.x, input.start.y)),
        input.has((input.end.x, input.end.y)),
    ensures
        steps != UNREACHED ==> input.reach((input.end.x, input.end.y), steps as nat),
        forall|n: nat| n < steps ==> !input.reach((input.end.x, input.end.y), n),
{
    let start: Place = (input.start.x, input.start.y);
    let end: Place = (input.end.x, input.end.y);
    let mut distance = unreached_table(input.width, input.height);
    let ghost blank = distance@;
    distance[start.1][start.0] = 0;
    let mut queue = queue_new();
    queue_push(&mut queue, start, 0);
    proof {
        let d = distance@;
        let q = queued(queue);
        assert(q =~= Map::<Place, usize>::empty().insert(start, 0));
        assert forall|v: Place| input.has(v) && v != start implies #[trigger] at(d, v)
            == UNREACHED by {
            assert(at(blank, v) == UNREACHED);
        }
        assert(input.table(d)) by {
            assert forall|y: int| 0 <= y < input.height implies (#[trigger] d[y]).len()
                == input.width by {
                assert(blank[y].len() == input.width);
            }
        }
    }
    loop
        invariant
            input.rectangular(),
            input.has(start),
            input.has(end),
            start == (input.start.x, input.start.y),
            end == (input.end.x, input.end.y),
            input.table(distance@),
            at(distance@, start) == 0,
            sound(input, distance@),
            keyed(input, distance@, queued(queue)),
            relaxed(input, distance@, queued(queue), None),
            forall|u: Place, k: Place| #[trigger]
                settled(input, distance@, queued(queue), u) && #[trigger] queued(
                    queue,
                ).contains_key(k) ==> at(distance@, u) <= queued(queue)[k],
        ensures
            queued(queue).dom() == Set::<Place>::empty(),
        decreases grid_rank(distance@, queued(queue), input.height, input.width),
    {
        let ghost d0 = distance@;
        let ghost q0 = queued(queue);
        let popped = queue_pop(&mut queue);
        if popped.is_none() {
            break ;
        }
        let (place, dist) = popped.unwrap();
        let ghost q1 = queued(queue);
        proof {
            assert(q0.contains_key(place));
            assert(ahead(q0, dist as int));
        }
        if place.0 == end.0 && place.1 == end.1 {
            proof {
                assert(at(d0, end) == dist);
                assert forall|n: nat| n < dist implies !input.reach(end, n) by {
                    if input.reach(end, n) {
                        lemma_lower(input, d0, q0, end, n);
                        if !(at(d0, end) <= n) {
                            let k = choose|k: Place| #[trigger] q0.contains_key(k) && q0[k] <= n;
                            assert(dist <= q0[k]);
                        }
                    }
                }
            }
            return dist;
        }
        let current = Position { x: place.0, y: place.1 };
        let next = input.next(&current);
        let ghost steps = input.steps_from((place.0 as int, place.1 as int));
        proof {
            assert(behind(input, d0, q1, dist as int)) by {
                assert forall|u: Place| #[trigger] settled(input, d0, q1, u) implies at(d0, u)
                    <= dist by {
                    if u != place {
                        assert(settled(input, d0, q0, u));
                    }
                }
            }
            assert(relaxed(input, d0, q1, Some(place))) by {
                assert forall|u: Place| #[trigger]
                    settled(input, d0, q1, u) && Some(u) != Some(place) implies relaxed_at(
                    input,
                    d0,
                    u,
                ) by {
                    assert(settled(input, d0, q0, u));
                }
            }
            assert(ahead(q1, dist as int));
        }
        let mut j: usize = 0;
        while j < next.len()
            invariant
                j <= next.len(),
                input.rectangular(),
                input.has(start),
                input.has(place),
                start == (input.start.x, input.start.y),
                input.table(distance@),
                at(distance@, start) == 0,
                sound(input, distance@),
                keyed(input, distance@, queued(queue)),
                relaxed(input, distance@, queued(queue), Some(place)),
                behind(input, distance@, queued(queue), dist as int),
                ahead(queued(queue), dist as int),
                settled(input, distance@, queued(queue), place),
                at(distance@, place) == dist,
                dist != UNREACHED,
                next@.map_values(|p: Position| (p.x as int, p.y as int)) == steps,
                steps == input.steps_from((place.0 as int, place.1 as int)),
                forall|i: int|
                    0 <= i < j ==> at(distance@, (#[trigger] next[i].x, next[i].y)) <= dist + 1,
                forall|v: Place|
                    input.has(v) ==> rank(distance@, queued(queue), v) <= #[trigger] rank(
                        d0,
                        q0,
                        v,
                    ),
                rank(d0, q0, place) == 1,
            decreases next.len() - j,
        {
            let n = next[j];
            let target: Place = (n.x, n.y);
            let ghost d1 = distance@;
            let ghost q2 = queued(queue);
            proof {
                assert(steps[j as int] == (n.x as int, n.y as int));
                assert(steps.contains((n.x as int, n.y as int)));
                input.lemma_steps_from(place, target);
                assert(input.edge(place, target));
                assert(d1[n.y as int].len() == input.width);
            }
            if dist + 1 < distance[n.y][n.x] {
                distance[n.y][n.x] = dist + 1;
                queue_push(&mut queue, target, dist + 1);
                proof {
                    let d2 = distance@;
                    let q3 = queued(queue);
                    assert(!settled(input, d1, q2, target));
                    assert forall|v: Place| input.has(v) implies at(d2, v) == if v == target {
                        (dist + 1) as usize
                    } else {
                        at(d1, v)
                    } by {
                        assert(d1[v.1 as int].len() == input.width);
                    }
                    assert(input.table(d2)) by {
                        assert forall|y: int| 0 <= y < input.height implies (#[trigger] d2[y]).len()
                            == input.width by {
                            assert(d1[y].len() == input.width);
                        }
                    }
                    assert(sound(input, d2)) by {
                        assert forall|v: Place| input.has(v) && #[trigger] at(d2, v)
                            != UNREACHED implies input.reach(v, at(d2, v) as nat) by {
                            if v == target {
                                assert(input.reach(place, dist as nat));
                                assert(input.edge(place, target) && input.reach(
                                    place,
                                    ((dist + 1) - 1) as nat,
                                ));
                            } else {
                                assert(at(d1, v) != UNREACHED);
                            }
                        }
                    }
                    assert(keyed(input, d2, q3)) by {
                        assert forall|k: Place| #[trigger] q3.contains_key(k) implies input.has(k)
                            && q3[k] == at(d2, k) && q3[k] != UNREACHED by {
                            if k != target {
                                assert(q2.contains_key(k));
                            }
                        }
                    }
                    assert forall|u: Place| #[trigger] settled(input, d2, q3, u) implies settled(
                        input,
                        d1,
                        q2,
                        u,
                    ) && u != target by {}
                    assert(relaxed(input, d2, q3, Some(place))) by {
                        assert forall|u: Place| #[trigger]
                            settled(input, d2, q3, u) && Some(u) != Some(place) implies relaxed_at(
                            input,
                            d2,
                            u,
                        ) by {
                            assert(settled(input, d1, q2, u));
                            assert(relaxed_at(input, d1, u));
                            assert forall|v: Place| #[trigger] input.edge(u, v) implies at(d2, v)
                                <= at(d2, u) + 1 by {
                                assert(at(d1, v) <= at(d1, u) + 1);
                            }
                        }
                    }
                    assert(behind(input, d2, q3, dist as int)) by {
                        assert forall|u: Place| #[trigger] settled(input, d2, q3, u) implies at(
                            d2,
                            u,
                        ) <= dist by {
                            assert(settled(input, d1, q2, u));
                        }
                    }
                    assert(ahead(q3, dist as int)) by {
                        assert forall|k: Place| #[trigger] q3.contains_key(k) implies dist
                            <= q3[k] by {
                            if k != target {
                                assert(q2.contains_key(k));
                            }
                        }
                    }
                    assert forall|i: int| 0 <= i < j + 1 implies at(
                        d2,
                        (#[trigger] next[i].x, next[i].y),
                    ) <= dist + 1 by {
                        let w: Place = (next[i].x, next[i].y);
                        assert(steps[i] == (w.0 as int, w.1 as int));
                        assert(steps.contains((w.0 as int, w.1 as int)));
                        input.lemma_steps_from(place, w);
                        if i < j {
                            assert(at(d1, w) <= dist + 1);
                        }
                    }
                    assert forall|v: Place| input.has(v) implies rank(d2, q3, v) <= #[trigger] rank(
                        d0,
                        q0,
                        v,
                    ) by {
                        assert(rank(d1, q2, v) <= rank(d0, q0, v));
                        if v == target {
                            if at(d1, v) != UNREACHED {
                                assert(q2.contains_key(v));
                            }
                        }
                    }
                }
            }
            j += 1;
        }
        proof {
            let d2 = distance@;
            let q3 = queued(queue);
            assert(relaxed_at(input, d2, place)) by {
                assert forall|v: Place| #[trigger] input.edge(place, v) implies at(d2, v) <= at(
                    d2,
                    place,
                ) + 1 by {
                    input.lemma_steps_from(place, v);
                    let i = choose|i: int|
                        0 <= i < steps.len() && steps[i] == (v.0 as int, v.1 as int);
                    assert(next@.map_values(|p: Position| (p.x as int, p.y as int))[i] == (
                        next[i].x as int,
                        next[i].y as int,
                    ));
                    assert(at(d2, (next[i].x, next[i].y)) <= dist + 1);
                }
            }
            assert(relaxed(input, d2, q3, None)) by {
                assert forall|u: Place| #[trigger]
                    settled(input, d2, q3, u) && Some(u) != None::<Place> implies relaxed_at(
                    input,
                    d2,
                    u,
                ) by {
                    if u != place {
                        assert(Some(u) != Some(place));
                    }
                }
            }
            assert forall|u: Place, k: Place| #[trigger]
                settled(input, d2, q3, u) && #[trigger] q3.contains_key(k) implies at(d2, u)
                <= q3[k] by {
                assert(at(d2, u) <= dist);
                assert(dist <= q3[k]);
            }
            assert(rank(d2, q3, place) == 0);
            assert forall|x: usize, y: usize| x < input.width && y < input.height implies rank(
                d2,
                q3,
                (x, y),
            ) <= #[trigger] rank(d0, q0, (x, y)) by {
                assert(input.has((x, y)));
            }
            lemma_grid_rank(d0, q0, d2, q3, input.height, input.width, place);
        }
    }
    proof {
        let d = distance@;
        let q = queued(queue);
        assert forall|n: nat| n < at(d, end) implies !input.reach(end, n) by {
            if input.reach(end, n) {
                lemma_lower(input, d, q, end, n);
                if !(at(d, end) <= n) {
                    let k = choose|k: Place| #[trigger] q.contains_key(k) && q[k] <= n;
                    assert(q.dom().contains(k));
                }
            }
        }
        assert(distance@[end.1 as int].len() == input.width);
    }
    distance[end.1][end.0]
}

} // verus!
