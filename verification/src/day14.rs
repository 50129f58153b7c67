//! Sand that falls into a cave of rock ledges: where each grain comes to
//! rest, and how many grains rest before one falls past the ledges or the
//! source is blocked.
use crate::text::{
    find_byte, lines, lines_of, natural_of, parse_natural, rows, split_at_each, split_by,
    split_once_at, COMMA,
};
use vstd::prelude::*;
use vstd::slice::slice_subrange;
use vstd::string::StringSliceAdditionalSpecFns;

verus! {

/// A place in the cave: `x` to the right, `y` down.
#[derive(Clone, Copy, Debug, PartialEq, Eq, Structural)]
pub struct Point {
    pub x: usize,
    pub y: usize,
}

/// The paths of rock, each a list of corners.
#[derive(Debug)]
pub struct Ledges {
    pub lines: Vec<Vec<Point>>,
}

/// The cave as a table of what is filled, from column `left` to column
/// `right` and from row 0 to row `height`.
#[derive(Debug)]
pub struct CrossSection {
    pub ledges: Vec<Vec<bool>>,
    pub left: usize,
    pub right: usize,
    pub height: usize,
}

/// The column from which the sand falls.
pub const START_X: usize = 500;

/// The row from which the sand falls.
pub const START_Y: usize = 0;

/// All coordinates of the corners must be less than this.
pub const BOUND: usize = 0x10_0000;

/// The arrow between two corners of a path.
pub open spec fn arrow() -> Seq<u8> {
    seq![32u8, 45u8, 62u8, 32u8]
}

/// The number that a text writes, where it fits `usize`.
pub open spec fn place_of(s: Seq<u8>) -> Option<usize> {
    match natural_of(s) {
        Some(v) => if v <= usize::MAX {
            Some(v as usize)
        } else {
            None
        },
        None => None,
    }
}

/// The corner that a text writes: a number on each side of its first
/// comma.
pub open spec fn point_of(s: Seq<u8>) -> Option<Point> {
    match split_once_at(s, COMMA) {
        Some((x, y)) => if place_of(x).is_some() && place_of(y).is_some() {
            Some(Point { x: place_of(x).unwrap(), y: place_of(y).unwrap() })
        } else {
            None
        },
        None => None,
    }
}

/// Whether every piece of the line between arrows writes a corner.
pub open spec fn line_ok(line: Seq<u8>) -> bool {
    forall|j: int|
        0 <= j < split_by(line, arrow()).len() ==> point_of(
            #[trigger] split_by(line, arrow())[j],
        ).is_some()
}

/// Whether every line of the text writes a path.
pub open spec fn well_formed(text: Seq<u8>) -> bool {
    forall|i: int| 0 <= i < lines_of(text).len() ==> line_ok(#[trigger] lines_of(text)[i])
}

/// Whether `path` holds the corners that the line writes.
pub open spec fn line_says(line: Seq<u8>, path: Seq<Point>) -> bool {
    &&& path.len() == split_by(line, arrow()).len()
    &&& forall|j: int|
        0 <= j < path.len() ==> point_of(split_by(line, arrow())[j]) == Some(#[trigger] path[j])
}

/// Whether `paths` holds the paths that the lines of the text write.
pub open spec fn text_says(text: Seq<u8>, paths: Seq<Vec<Point>>) -> bool {
    &&& paths.len() == lines_of(text).len()
    &&& forall|i: int|
        0 <= i < paths.len() ==> line_says(lines_of(text)[i], (#[trigger] paths[i])@)
}

impl Point {
    /// Reads a corner.
    pub fn parse(input: &[u8]) -> (r: Option<Point>)
        ensures
            r == point_of(input@),
    {
        let at = find_byte(input, COMMA);
        if at >= input.len() {
            return None;
        }
        let first = slice_subrange(input, 0, at);
        let second = slice_subrange(input, at + 1, input.len());
        assert(first@ =~= input@.take(at as int));
        assert(second@ =~= input@.skip(at as int + 1));
        let x = match parse_natural(first) {
            Some(v) => if v <= usize::MAX as u64 {
                v as usize
            } else {
                return None;
            },
            None => {
                return None;
            },
        };
        let y = match parse_natural(second) {
            Some(v) => if v <= usize::MAX as u64 {
                v as usize
            } else {
                return None;
            },
            None => {
                return None;
            },
        };
        Some(Point { x, y })
    }
}

/// The least of the numbers, or 0 where there is none.
pub open spec fn least(s: Seq<int>) -> int
    decreases s.len(),
{
    if s.len() == 0 {
        0
    } else if s.len() == 1 {
        s[0]
    } else if s.last() < least(s.drop_last()) {
        s.last()
    } else {
        least(s.drop_last())
    }
}

/// The largest of the numbers, or 0 where there is none.
pub open spec fn most(s: Seq<int>) -> int
    decreases s.len(),
{
    if s.len() == 0 {
        0
    } else if s.len() == 1 {
        s[0]
    } else if s.last() > most(s.drop_last()) {
        s.last()
    } else {
        most(s.drop_last())
    }
}

/// The columns of the corners of a path.
pub open spec fn columns(path: Seq<Point>) -> Seq<int> {
    path.map_values(|p: Point| p.x as int)
}

/// The rows of the corners of a path.
pub open spec fn levels(path: Seq<Point>) -> Seq<int> {
    path.map_values(|p: Point| p.y as int)
}

/// No number is less than `least` or more than `most`.
pub proof fn lemma_extremes(s: Seq<int>, i: int)
    requires
        0 <= i < s.len(),
    ensures
        least(s) <= s[i] <= most(s),
    decreases s.len(),
{
    if s.len() > 1 {
        if i < s.len() - 1 {
            lemma_extremes(s.drop_last(), i);
        }
    }
}

/// The least and the largest of numbers that are not negative are not
/// negative, and no more than any bound on the numbers.
pub proof fn lemma_extremes_bounded(s: Seq<int>, bound: int)
    requires
        forall|i: int| 0 <= i < s.len() ==> 0 <= #[trigger] s[i] <= bound,
        0 <= bound,
    ensures
        0 <= least(s) <= bound,
        0 <= most(s) <= bound,
    decreases s.len(),
{
    if s.len() > 1 {
        assert forall|i: int| 0 <= i < s.drop_last().len() implies 0
            <= #[trigger] s.drop_last()[i] <= bound by {
            assert(s.drop_last()[i] == s[i]);
        }
        lemma_extremes_bounded(s.drop_last(), bound);
        assert(0 <= s[s.len() - 1] <= bound);
    } else if s.len() == 1 {
        assert(0 <= s[0] <= bound);
    }
}

/// The least or the largest column or row of all the corners of the paths.
pub fn fold_extreme(lines: &Vec<Vec<Point>>, by_column: bool, smallest: bool) -> (r: usize)
    ensures
        r == extreme(lines@, by_column, smallest),
{
    let mut values: Vec<usize> = Vec::new();
    let mut i: usize = 0;
    while i < lines.len()
        invariant
            i <= lines.len(),
            values.len() == i,
            forall|k: int|
                0 <= k < i ==> #[trigger] values[k] as int == path_extreme(
                    lines[k]@,
                    by_column,
                    smallest,
                ),
        decreases lines.len() - i,
    {
        let path = &lines[i];
        let ghost of = if by_column {
            columns(path@)
        } else {
            levels(path@)
        };
        let mut best: usize = 0;
        let mut j: usize = 0;
        assert(of.take(0) =~= Seq::<int>::empty());
        while j < path.len()
            invariant
                j <= path.len(),
                of == if by_column {
                    columns(path@)
                } else {
                    levels(path@)
                },
                best as int == if smallest {
                    least(of.take(j as int))
                } else {
                    most(of.take(j as int))
                },
            decreases path.len() - j,
        {
            let v = if by_column {
                path[j].x
            } else {
                path[j].y
            };
            proof {
                assert(of.take(j as int + 1).drop_last() =~= of.take(j as int));
                assert(of.take(j as int + 1).last() == v);
            }
            if j == 0 || (smallest && v < best) || (!smallest && v > best) {
                best = v;
            }
            j += 1;
        }
        assert(of.take(j as int) =~= of);
        values.push(best);
        i += 1;
    }
    let ghost firsts = Seq::new(lines@.len(), |k: int| path_extreme(lines@[k]@, by_column, smallest));
    let mut best: usize = 0;
    let mut i: usize = 0;
    assert(firsts.take(0) =~= Seq::<int>::empty());
    while i < values.len()
        invariant
            i <= values.len(),
            values.len() == lines.len(),
            firsts == Seq::new(
                lines@.len(),
                |k: int| path_extreme(lines@[k]@, by_column, smallest),
            ),
            forall|k: int| 0 <= k < values.len() ==> #[trigger] values[k] as int == firsts[k],
            best as int == if smallest {
                least(firsts.take(i as int))
            } else {
                most(firsts.take(i as int))
            },
        decreases values.len() - i,
    {
        let v = values[i];
        proof {
            assert(firsts.take(i as int + 1).drop_last() =~= firsts.take(i as int));
            assert(firsts.take(i as int + 1).last() == v);
        }
        if i == 0 || (smallest && v < best) || (!smallest && v > best) {
            best = v;
        }
        i += 1;
    }
    assert(firsts.take(i as int) =~= firsts);
    best
}

/// The least or the largest column or row of the corners of a path; 0 for
/// a path without a corner.
pub open spec fn path_extreme(path: Seq<Point>, by_column: bool, smallest: bool) -> int {
    let of = if by_column {
        columns(path)
    } else {
        levels(path)
    };
    if smallest {
        least(of)
    } else {
        most(of)
    }
}

/// The least or the largest of what `path_extreme` gives for the paths; 0
/// where there is no path.
pub open spec fn extreme(paths: Seq<Vec<Point>>, by_column: bool, smallest: bool) -> int {
    let firsts = Seq::new(paths.len(), |k: int| path_extreme(paths[k]@, by_column, smallest));
    if smallest {
        least(firsts)
    } else {
        most(firsts)
    }
}

impl Ledges {
    /// Reads the paths; `None` where a piece between arrows writes no
    /// corner.
    pub fn parse(input: &[u8]) -> (r: Option<Ledges>)
        ensures
            r.is_some() == well_formed(input@),
            r matches Some(l) ==> text_says(input@, l.lines@),
    {
        let all = lines(input);
        let ghost ls = lines_of(input@);
        let pattern: [u8; 4] = [32, 45, 62, 32];
        assert(pattern@ =~= arrow());
        let mut paths: Vec<Vec<Point>> = Vec::new();
        let mut i: usize = 0;
        while i < all.len()
            invariant
                i <= all.len(),
                rows(all@) == ls,
                ls == lines_of(input@),
                pattern@ == arrow(),
                paths.len() == i,
                forall|k: int| 0 <= k < i ==> line_ok(#[trigger] ls[k]),
                forall|k: int| 0 <= k < i ==> line_says(ls[k], (#[trigger] paths[k])@),
            decreases all.len() - i,
        {
            assert(rows(all@)[i as int] == all[i as int]@);
            let pieces = split_at_each(all[i].as_slice(), pattern.as_slice());
            let ghost ps = split_by(ls[i as int], arrow());
            let mut path: Vec<Point> = Vec::new();
            let mut j: usize = 0;
            while j < pieces.len()
                invariant
                    j <= pieces.len(),
                    i < ls.len(),
                    ls == lines_of(input@),
                    rows(pieces@) == ps,
                    ps == split_by(ls[i as int], arrow()),
                    path.len() == j,
                    forall|k: int| 0 <= k < j ==> point_of(ps[k]) == Some(#[trigger] path[k]),
                decreases pieces.len() - j,
            {
                assert(rows(pieces@)[j as int] == pieces[j as int]@);
                match Point::parse(pieces[j].as_slice()) {
                    Some(p) => {
                        path.push(p);
                    },
                    None => {
                        assert(!point_of(split_by(ls[i as int], arrow())[j as int]).is_some());
                        assert(!line_ok(lines_of(input@)[i as int]));
                        return None;
                    },
                }
                j += 1;
            }
            proof {
                assert forall|k: int| 0 <= k < ps.len() implies point_of(#[trigger] ps[k]).is_some() by {
                    assert(point_of(ps[k]) == Some(path[k]));
                }
            }
            paths.push(path);
            i += 1;
        }
        Some(Ledges { lines: paths })
    }

    /// The least column of a corner; 0 where a path has no corner.
    pub fn left(&self) -> (r: usize)
        ensures
            r == extreme(self.lines@, true, true),
    {
        fold_extreme(&self.lines, true, true)
    }

    /// The largest column of a corner.
    pub fn right(&self) -> (r: usize)
        ensures
            r == extreme(self.lines@, true, false),
    {
        fold_extreme(&self.lines, true, false)
    }

    /// The largest row of a corner.
    pub fn height(&self) -> (r: usize)
        ensures
            r == extreme(self.lines@, false, false),
    {
        fold_extreme(&self.lines, false, false)
    }
}

/// -1, 0 or 1, as one goes from `a` to `b` down, not at all, or up.
pub open spec fn toward(a: int, b: int) -> int {
    if b > a {
        1
    } else if b < a {
        -1
    } else {
        0
    }
}

/// The place `t` steps from `a` in the direction `d`.
pub open spec fn shifted(a: int, d: int, t: int) -> int {
    if d > 0 {
        a + t
    } else if d < 0 {
        a - t
    } else {
        a
    }
}

/// How far two numbers lie apart.
pub open spec fn gap(a: int, b: int) -> int {
    if a <= b {
        b - a
    } else {
        a - b
    }
}

/// The number of steps from one corner to the next.
pub open spec fn stretch(a: Point, b: Point) -> int {
    if gap(a.x as int, b.x as int) >= gap(a.y as int, b.y as int) {
        gap(a.x as int, b.x as int)
    } else {
        gap(a.y as int, b.y as int)
    }
}

/// Whether one gets from one corner to the next by steps along a row, along
/// a column, or along a diagonal.
pub open spec fn aligned(a: Point, b: Point) -> bool {
    a.x == b.x || a.y == b.y || gap(a.x as int, b.x as int) == gap(a.y as int, b.y as int)
}

/// Whether the place lies on one of the first `n` steps from `a` to `b`,
/// `a` being the first.
pub open spec fn on_steps(a: Point, b: Point, n: int, x: int, y: int) -> bool {
    exists|t: int|
        0 <= t < n && x == #[trigger] shifted(a.x as int, toward(a.x as int, b.x as int), t) && y
            == shifted(a.y as int, toward(a.y as int, b.y as int), t)
}

/// Whether the place lies on the ledge from `a` to `b`.
pub open spec fn on_segment(a: Point, b: Point, x: int, y: int) -> bool {
    on_steps(a, b, stretch(a, b) + 1, x, y)
}

/// Whether the place lies on one of the first `n` ledges of a path.
pub open spec fn on_path(path: Seq<Point>, n: int, x: int, y: int) -> bool {
    exists|k: int| 0 <= k < n && k + 1 < path.len() && on_segment(#[trigger] path[k], path[k + 1], x, y)
}

/// Whether the place lies on a ledge of one of the first `n` paths.
pub open spec fn on_ledges(paths: Seq<Vec<Point>>, n: int, x: int, y: int) -> bool {
    exists|i: int|
        0 <= i < n && i < paths.len() && on_path(
            (#[trigger] paths[i])@,
            paths[i].len() as int,
            x,
            y,
        )
}

/// Whether the paths can be drawn: the corners lie below `BOUND` and not in
/// column 0, and each ledge runs along a row, a column or a diagonal.
pub open spec fn drawable(paths: Seq<Vec<Point>>) -> bool {
    &&& paths.len() > 0
    &&& forall|i: int| 0 <= i < paths.len() ==> (#[trigger] paths[i]).len() > 0
    &&& forall|i: int, k: int|
        0 <= i < paths.len() && 0 <= k < paths[i].len() ==> 0 < (#[trigger] paths[i][k]).x < BOUND
            && paths[i][k].y < BOUND
    &&& forall|i: int, k: int|
        0 <= i < paths.len() && 0 <= k && k + 1 < paths[i].len() ==> aligned(
            #[trigger] paths[i][k],
            paths[i][k + 1],
        )
}

/// The corners of drawable paths lie between the extremes, which lie below
/// `BOUND`.
pub proof fn lemma_corner(paths: Seq<Vec<Point>>, i: int, k: int)
    requires
        drawable(paths),
        0 <= i < paths.len(),
        0 <= k < paths[i].len(),
    ensures
        0 < extreme(paths, true, true) <= paths[i][k].x <= extreme(paths, true, false) < BOUND,
        paths[i][k].y <= extreme(paths, false, false) < BOUND,
{
    let path = paths[i]@;
    lemma_extremes(columns(path), k);
    lemma_extremes(levels(path), k);
    let lows = Seq::new(paths.len(), |j: int| path_extreme(paths[j]@, true, true));
    let highs = Seq::new(paths.len(), |j: int| path_extreme(paths[j]@, true, false));
    let deeps = Seq::new(paths.len(), |j: int| path_extreme(paths[j]@, false, false));
    lemma_extremes(lows, i);
    lemma_extremes(highs, i);
    lemma_extremes(deeps, i);
    assert forall|j: int| 0 <= j < paths.len() implies 1 <= #[trigger] lows[j] <= BOUND - 1 && 0
        <= highs[j] <= BOUND - 1 && 0 <= deeps[j] <= BOUND - 1 by {
        let other = paths[j]@;
        assert forall|m: int| 0 <= m < other.len() implies 1 <= #[trigger] columns(other)[m]
            <= BOUND - 1 && 0 <= levels(other)[m] <= BOUND - 1 by {
            assert(0 < paths[j][m].x < BOUND);
        }
        lemma_extremes_bounded(columns(other), BOUND - 1);
        lemma_extremes_bounded(levels(other), BOUND - 1);
        lemma_least_above(columns(other), 1);
    }
    assert forall|j: int| 0 <= j < highs.len() implies 0 <= #[trigger] highs[j] <= BOUND - 1 by {
        assert(1 <= lows[j]);
    }
    assert forall|j: int| 0 <= j < deeps.len() implies 0 <= #[trigger] deeps[j] <= BOUND - 1 by {
        assert(1 <= lows[j]);
    }
    lemma_extremes_bounded(highs, BOUND - 1);
    lemma_extremes_bounded(deeps, BOUND - 1);
    lemma_least_above(lows, 1);
}

/// The least of numbers that are at least `floor`, of which there is one, is
/// at least `floor`.
pub proof fn lemma_least_above(s: Seq<int>, floor: int)
    requires
        s.len() > 0,
        forall|i: int| 0 <= i < s.len() ==> floor <= #[trigger] s[i],
    ensures
        floor <= least(s),
    decreases s.len(),
{
    if s.len() > 1 {
        assert forall|i: int| 0 <= i < s.drop_last().len() implies floor
            <= #[trigger] s.drop_last()[i] by {
            assert(s.drop_last()[i] == s[i]);
        }
        lemma_least_above(s.drop_last(), floor);
        assert(floor <= s[s.len() - 1]);
    } else {
        assert(floor <= s[0]);
    }
}

impl CrossSection {
    /// The number of columns of the table.
    pub open spec fn width(&self) -> int {
        self.right - self.left + 1
    }

    /// Whether the table has a row for each level and a place for each
    /// column, and the source lies within its columns.
    pub open spec fn wf(&self) -> bool {
        &&& self.left <= START_X <= self.right
        &&& self.right < 2 * BOUND
        &&& self.height < 2 * BOUND
        &&& self.ledges.len() == self.height + 1
        &&& forall|y: int| 0 <= y <= self.height ==> (#[trigger] self.ledges[y]).len() == self.width()
    }

    /// Whether the place on level `y` in column `x` is filled.
    pub open spec fn filled_at(&self, x: int, y: int) -> bool {
        self.ledges[y][x - self.left]
    }

    /// Whether the table shows the ledges of the paths, with an empty
    /// column on each side of them and an empty row below them.
    pub open spec fn draws(&self, paths: Seq<Vec<Point>>) -> bool {
        &&& self.left == extreme(paths, true, true) - 1
        &&& self.right == extreme(paths, true, false) + 1
        &&& self.height == extreme(paths, false, false) + 1
        &&& self.ledges.len() == self.height + 1
        &&& forall|y: int| 0 <= y <= self.height ==> (#[trigger] self.ledges[y]).len() == self.width()
        &&& forall|x: int, y: int|
            self.left <= x <= self.right && 0 <= y <= self.height ==> #[trigger] self.filled_at(x, y)
                == on_ledges(paths, paths.len() as int, x, y)
    }
}

/// A row of `width` places that are not filled.
pub fn empty_row(width: usize) -> (row: Vec<bool>)
    ensures
        row.len() == width,
        forall|x: int| 0 <= x < width ==> !(#[trigger] row[x]),
{
    let mut row: Vec<bool> = Vec::new();
    let mut x: usize = 0;
    while x < width
        invariant
            x <= width,
            row.len() == x,
            forall|c: int| 0 <= c < x ==> !(#[trigger] row[c]),
        decreases width - x,
    {
        row.push(false);
        x += 1;
    }
    row
}

/// A table of `height` rows of `width` places that are not filled.
pub fn empty_table(width: usize, height: usize) -> (table: Vec<Vec<bool>>)
    ensures
        table.len() == height,
        forall|y: int| 0 <= y < height ==> (#[trigger] table[y]).len() == width,
        forall|y: int, x: int| 0 <= y < height && 0 <= x < width ==> !(#[trigger] table[y][x]),
{
    let mut table: Vec<Vec<bool>> = Vec::new();
    let mut y: usize = 0;
    while y < height
        invariant
            y <= height,
            table.len() == y,
            forall|r: int| 0 <= r < y ==> (#[trigger] table[r]).len() == width,
            forall|r: int, c: int| 0 <= r < y && 0 <= c < width ==> !(#[trigger] table[r][c]),
        decreases height - y,
    {
        table.push(empty_row(width));
        y += 1;
    }
    table
}

/// -1, 0 or 1, as one goes from `a` to `b` down, not at all, or up.
pub fn direction(a: usize, b: usize) -> (d: i64)
    ensures
        d == toward(a as int, b as int),
{
    if b > a {
        1
    } else if b < a {
        -1
    } else {
        0
    }
}

impl CrossSection {
    /// Draws the ledges of the paths into a table that leaves an empty
    /// column on each side of them and an empty row below them.
    pub fn new(input: &Ledges) -> (cs: CrossSection)
        requires
            drawable(input.lines@),
        ensures
            cs.draws(input.lines@),
    {
        let ghost paths = input.lines@;
        proof {
            lemma_corner(paths, 0, 0);
        }
        let left = input.left() - 1;
        let right = input.right() + 1;
        let height = input.height() + 1;
        let mut ledges = empty_table(right - left + 1, height + 1);
        let mut i: usize = 0;
        while i < input.lines.len()
            invariant
                i <= input.lines.len(),
                paths == input.lines@,
                drawable(paths),
                left == extreme(paths, true, true) - 1,
                right == extreme(paths, true, false) + 1,
                height == extreme(paths, false, false) + 1,
                ledges.len() == height + 1,
                forall|y: int| 0 <= y <= height ==> (#[trigger] ledges[y]).len() == right - left + 1,
                forall|x: int, y: int|
                    left <= x <= right && 0 <= y <= height ==> (#[trigger] ledges[y][x - left])
                        == on_ledges(paths, i as int, x, y),
            decreases input.lines.len() - i,
        {
            let row = &input.lines[i];
            let mut k: usize = 0;
            while k + 1 < row.len()
                invariant
                    k < row.len(),
                    i < input.lines.len(),
                    row@ == paths[i as int]@,
                    paths == input.lines@,
                    drawable(paths),
                    left == extreme(paths, true, true) - 1,
                    right == extreme(paths, true, false) + 1,
                    height == extreme(paths, false, false) + 1,
                    ledges.len() == height + 1,
                    forall|y: int|
                        0 <= y <= height ==> (#[trigger] ledges[y]).len() == right - left + 1,
                    forall|x: int, y: int|
                        left <= x <= right && 0 <= y <= height ==> (#[trigger] ledges[y][x - left])
                            == (on_ledges(paths, i as int, x, y) || on_path(row@, k as int, x, y)),
                decreases row.len() - k,
            {
                let a = row[k];
                let b = row[k + 1];
                let delta_x = direction(a.x, b.x);
                let delta_y = direction(a.y, b.y);
                let mut p = a;
                let ghost t: int = 0;
                proof {
                    lemma_corner(paths, i as int, k as int);
                    lemma_corner(paths, i as int, k as int + 1);
                    assert(aligned(paths[i as int][k as int], paths[i as int][k as int + 1]));
                }
                loop
                    invariant_except_break
                        0 <= t <= stretch(a, b),
                        p.x == shifted(a.x as int, delta_x as int, t),
                        p.y == shifted(a.y as int, delta_y as int, t),
                        forall|x: int, y: int|
                            left <= x <= right && 0 <= y <= height ==> (
                            #[trigger] ledges[y][x - left]) == (on_ledges(paths, i as int, x, y)
                                || on_path(row@, k as int, x, y) || on_steps(a, b, t, x, y)),
                    invariant
                        aligned(a, b),
                        delta_x == toward(a.x as int, b.x as int),
                        delta_y == toward(a.y as int, b.y as int),
                        left < a.x < right && left < b.x < right && a.y < height && b.y < height,
                        right < 2 * BOUND,
                        height < 2 * BOUND,
                        ledges.len() == height + 1,
                        forall|y: int|
                            0 <= y <= height ==> (#[trigger] ledges[y]).len() == right - left + 1,
                    ensures
                        forall|x: int, y: int|
                            left <= x <= right && 0 <= y <= height ==> (
                            #[trigger] ledges[y][x - left]) == (on_ledges(paths, i as int, x, y)
                                || on_path(row@, k as int, x, y) || on_segment(a, b, x, y)),
                    decreases stretch(a, b) - t,
                {
                    let ghost before = ledges@;
                    assert(before[p.y as int].len() == right - left + 1);
                    ledges[p.y][p.x - left] = true;
                    proof {
                        assert forall|y: int| 0 <= y <= height implies (#[trigger] ledges[y]).len()
                            == right - left + 1 by {
                            assert(before[y].len() == right - left + 1);
                        }
                        assert forall|x: int, y: int|
                            left <= x <= right && 0 <= y <= height implies (
                        #[trigger] ledges[y][x - left]) == (on_ledges(paths, i as int, x, y)
                            || on_path(row@, k as int, x, y) || on_steps(a, b, t + 1, x, y)) by {
                            assert(before[y].len() == right - left + 1);
                            if x == p.x && y == p.y {
                                assert(x == shifted(a.x as int, toward(a.x as int, b.x as int), t));
                                assert(on_steps(a, b, t + 1, x, y));
                            } else {
                                assert(ledges[y][x - left] == before[y][x - left]);
                                if on_steps(a, b, t + 1, x, y) {
                                    let u = choose|u: int|
                                        0 <= u < t + 1 && x == #[trigger] shifted(
                                            a.x as int,
                                            toward(a.x as int, b.x as int),
                                            u,
                                        ) && y == shifted(
                                            a.y as int,
                                            toward(a.y as int, b.y as int),
                                            u,
                                        );
                                    assert(u < t);
                                    assert(on_steps(a, b, t, x, y));
                                }
                                if on_steps(a, b, t, x, y) {
                                    let u = choose|u: int|
                                        0 <= u < t && x == #[trigger] shifted(
                                            a.x as int,
                                            toward(a.x as int, b.x as int),
                                            u,
                                        ) && y == shifted(
                                            a.y as int,
                                            toward(a.y as int, b.y as int),
                                            u,
                                        );
                                    assert(x == shifted(
                                        a.x as int,
                                        toward(a.x as int, b.x as int),
                                        u,
                                    ));
                                    assert(on_steps(a, b, t + 1, x, y));
                                }
                            }
                        }
                    }
                    if p.x == b.x && p.y == b.y {
                        assert(t == stretch(a, b));
                        break ;
                    }
                    p.x = (p.x as i64 + delta_x) as usize;
                    p.y = (p.y as i64 + delta_y) as usize;
                    proof {
                        t = t + 1;
                    }
                }
                proof {
                    assert(a == row@[k as int] && b == row@[k as int + 1]);
                    assert forall|x: int, y: int|
                        left <= x <= right && 0 <= y <= height implies (
                    #[trigger] ledges[y][x - left]) == (on_ledges(paths, i as int, x, y) || on_path(
                        row@,
                        k as int + 1,
                        x,
                        y,
                    )) by {
                        if on_path(row@, k as int + 1, x, y) {
                            let m = choose|m: int|
                                0 <= m < k + 1 && m + 1 < row@.len() && on_segment(
                                    #[trigger] row@[m],
                                    row@[m + 1],
                                    x,
                                    y,
                                );
                            if m < k {
                                assert(on_path(row@, k as int, x, y));
                            }
                        }
                        if on_path(row@, k as int, x, y) {
                            let m = choose|m: int|
                                0 <= m < k && m + 1 < row@.len() && on_segment(
                                    #[trigger] row@[m],
                                    row@[m + 1],
                                    x,
                                    y,
                                );
                            assert(on_segment(row@[m], row@[m + 1], x, y));
                            assert(on_path(row@, k as int + 1, x, y));
                        }
                        if on_segment(a, b, x, y) {
                            assert(on_segment(row@[k as int], row@[k as int + 1], x, y));
                            assert(on_path(row@, k as int + 1, x, y));
                        }
                    }
                }
                k += 1;
            }
            proof {
                assert forall|x: int, y: int|
                    left <= x <= right && 0 <= y <= height implies (#[trigger] ledges[y][x - left])
                    == on_ledges(paths, i as int + 1, x, y) by {
                    if on_ledges(paths, i as int + 1, x, y) {
                        let j = choose|j: int|
                            0 <= j < i + 1 && j < paths.len() && on_path(
                                (#[trigger] paths[j])@,
                                paths[j].len() as int,
                                x,
                                y,
                            );
                        if j < i {
                            assert(on_ledges(paths, i as int, x, y));
                        } else {
                            let m = choose|m: int|
                                0 <= m < row@.len() && m + 1 < row@.len() && on_segment(
                                    #[trigger] row@[m],
                                    row@[m + 1],
                                    x,
                                    y,
                                );
                            assert(on_segment(row@[m], row@[m + 1], x, y));
                            assert(on_path(row@, k as int, x, y));
                        }
                    }
                    if on_ledges(paths, i as int, x, y) {
                        let j = choose|j: int|
                            0 <= j < i && j < paths.len() && on_path(
                                (#[trigger] paths[j])@,
                                paths[j].len() as int,
                                x,
                                y,
                            );
                        assert(on_path(paths[j]@, paths[j].len() as int, x, y));
                        assert(on_ledges(paths, i as int + 1, x, y));
                    }
                    if on_path(row@, k as int, x, y) {
                        let m = choose|m: int|
                            0 <= m < k && m + 1 < row@.len() && on_segment(
                                #[trigger] row@[m],
                                row@[m + 1],
                                x,
                                y,
                            );
                        assert(on_segment(row@[m], row@[m + 1], x, y));
                        assert(on_path(paths[i as int]@, paths[i as int].len() as int, x, y));
                        assert(on_ledges(paths, i as int + 1, x, y));
                    }
                }
            }
            i += 1;
        }
        CrossSection { ledges, left, right, height }
    }
}

/// The cave that the text describes.
pub fn parse(input: &str) -> (r: Option<Ledges>)
    ensures
        r.is_some() == well_formed(input.spec_bytes()),
        r matches Some(l) ==> text_says(input.spec_bytes(), l.lines@),
{
    Ledges::parse(input.as_bytes())
}

/// The cave that the text describes, as a table.
pub fn generator(input: &str) -> (cs: CrossSection)
    requires
        well_formed(input.spec_bytes()),
        forall|paths: Seq<Vec<Point>>| #[trigger]
            text_says(input.spec_bytes(), paths) ==> drawable(paths),
    ensures
        exists|paths: Seq<Vec<Point>>| #[trigger]
            text_says(input.spec_bytes(), paths) && cs.draws(paths),
{
    let ledges = Ledges::parse(input.as_bytes()).unwrap();
    CrossSection::new(&ledges)
}

/// The rows of a table.
pub open spec fn grid(table: Seq<Vec<bool>>) -> Seq<Seq<bool>> {
    table.map_values(|r: Vec<bool>| r@)
}

/// The frame of a table: its first column, its last column, and its last
/// row.
pub struct Frame {
    pub left: int,
    pub right: int,
    pub height: int,
}

impl Frame {
    /// The number of columns.
    pub open spec fn width(self) -> int {
        self.right - self.left + 1
    }

    /// Whether the rows fit the frame, and the source lies within it.
    pub open spec fn fits(self, g: Seq<Seq<bool>>) -> bool {
        &&& 0 <= self.left <= START_X <= self.right < 2 * BOUND
        &&& 0 < self.height < 2 * BOUND
        &&& g.len() == self.height + 1
        &&& forall|y: int| 0 <= y <= self.height ==> (#[trigger] g[y]).len() == self.width()
    }

    /// Whether the place is filled.
    pub open spec fn filled(self, g: Seq<Seq<bool>>, x: int, y: int) -> bool {
        g[y][x - self.left]
    }

    /// Whether the frame is so wide that no grain can come to its first
    /// or last column.
    pub open spec fn roomy(self) -> bool {
        self.left + self.height <= START_X && START_X + self.height <= self.right
    }

    /// Whether nothing is filled in the first and in the last column.
    pub open spec fn margins_clear(self, g: Seq<Seq<bool>>) -> bool {
        forall|y: int|
            0 <= y <= self.height ==> !(#[trigger] g[y])[0] && !g[y][self.width() - 1]
    }

    /// Whether a grain can be followed without leaving the table.
    pub open spec fn safe(self, g: Seq<Seq<bool>>) -> bool {
        self.fits(g) && (self.roomy() || self.margins_clear(g))
    }

    /// Where a grain at the place comes to rest: it falls straight down
    /// while it can, else down to the left, else down to the right. `None`
    /// where it falls to the last row.
    pub open spec fn rest_from(self, g: Seq<Seq<bool>>, x: int, y: int) -> Option<(int, int)>
        decreases self.height - y,
    {
        if y >= self.height {
            None
        } else if !self.filled(g, x, y + 1) {
            self.rest_from(g, x, y + 1)
        } else if !self.filled(g, x - 1, y + 1) {
            self.rest_from(g, x - 1, y + 1)
        } else if !self.filled(g, x + 1, y + 1) {
            self.rest_from(g, x + 1, y + 1)
        } else {
            Some((x, y))
        }
    }

    /// Where a grain from the source comes to rest; `None` where the source
    /// is blocked, or the grain falls to the last row.
    pub open spec fn grain_rest(self, g: Seq<Seq<bool>>) -> Option<(int, int)> {
        if self.filled(g, START_X as int, START_Y as int) {
            None
        } else {
            self.rest_from(g, START_X as int, START_Y as int)
        }
    }

    /// The rows with the place filled.
    pub open spec fn with_filled(self, g: Seq<Seq<bool>>, at: (int, int)) -> Seq<Seq<bool>> {
        g.update(at.1, g[at.1].update(at.0 - self.left, true))
    }

    /// The rows after `n` grains came to rest one after the other; `None`
    /// where one of them did not.
    pub open spec fn poured(self, g: Seq<Seq<bool>>, n: nat) -> Option<Seq<Seq<bool>>>
        decreases n,
    {
        if n == 0 {
            Some(g)
        } else {
            match self.poured(g, (n - 1) as nat) {
                Some(before) => match self.grain_rest(before) {
                    Some(at) => Some(self.with_filled(before, at)),
                    None => None,
                },
                None => None,
            }
        }
    }

    /// Whether `count` is the number of grains that come to rest: so many
    /// do, and the next one does not. The count ends at `usize::MAX`.
    pub open spec fn holds_grains(self, g: Seq<Seq<bool>>, count: int) -> bool {
        &&& 0 <= count
        &&& self.poured(g, count as nat).is_some()
        &&& count < usize::MAX ==> self.grain_rest(self.poured(g, count as nat).unwrap()).is_none()
    }
}

impl CrossSection {
    /// The frame of the table.
    pub open spec fn frame(&self) -> Frame {
        Frame { left: self.left as int, right: self.right as int, height: self.height as int }
    }
}

/// Lets one grain fall from the source; says whether it came to rest.
pub fn do_grain(filled: &mut Vec<Vec<bool>>, start: &Point, input: &CrossSection) -> (rested: bool)
    requires
        start.x == START_X && start.y == START_Y,
        input.frame().safe(grid(old(filled)@)),
    ensures
        rested == input.frame().grain_rest(grid(old(filled)@)).is_some(),
        rested ==> grid(final(filled)@) == input.frame().with_filled(
            grid(old(filled)@),
            input.frame().grain_rest(grid(old(filled)@)).unwrap(),
        ),
        !rested ==> grid(final(filled)@) == grid(old(filled)@),
        input.frame().safe(grid(final(filled)@)),
{
    let ghost f = input.frame();
    let ghost g = grid(filled@);
    let mut x = START_X;
    assert(g[start.y as int] == filled[start.y as int]@);
    if filled[start.y][start.x - input.left] {
        return false;
    }
    let mut y = START_Y;
    while y < input.height
        invariant
            y <= input.height,
            !f.filled(g, START_X as int, START_Y as int),
            f == input.frame(),
            g == grid(filled@),
            grid(filled@) == grid(old(filled)@),
            f.safe(g),
            f.left <= x <= f.right,
            f.roomy() ==> gap(x as int, START_X as int) <= y,
            f.rest_from(g, x as int, y as int) == f.rest_from(g, START_X as int, START_Y as int),
        decreases input.height - y,
    {
        proof {
            assert(g[y as int + 1] == filled[y as int + 1]@);
            assert(g[y as int + 1].len() == f.width());
            assert(g[y as int] == filled[y as int]@);
            assert(g[y as int].len() == f.width());
        }
        if filled[y + 1][x - input.left] {
            proof {
                if !f.roomy() {
                    assert(!g[y as int + 1][0] && !g[y as int + 1][f.width() - 1]);
                }
            }
            if filled[y + 1][x - 1 - input.left] {
                if filled[y + 1][x + 1 - input.left] {
                    let ghost before = filled@;
                    proof {
                        assert(f.filled(g, x as int, y as int + 1));
                        assert(f.filled(g, x as int - 1, y as int + 1));
                        assert(f.filled(g, x as int + 1, y as int + 1));
                        assert(f.rest_from(g, x as int, y as int) == Some((x as int, y as int)));
                        assert(!f.filled(g, START_X as int, START_Y as int));
                    }
                    filled[y][x - input.left] = true;
                    proof {
                        let after = grid(filled@);
                        assert(after =~= f.with_filled(g, (x as int, y as int)));
                        assert forall|r: int| 0 <= r <= f.height implies (#[trigger] after[r]).len()
                            == f.width() by {
                            assert(g[r].len() == f.width());
                        }
                        if !f.roomy() {
                            assert(!g[y as int + 1][0] && !g[y as int + 1][f.width() - 1]);
                            assert forall|r: int| 0 <= r <= f.height implies !(
                            #[trigger] after[r])[0] && !after[r][f.width() - 1] by {
                                assert(!g[r][0] && !g[r][f.width() - 1]);
                            }
                        }
                    }
                    return true;
                } else {
                    x += 1;
                }
            } else {
                x -= 1;
            }
        }
        y += 1;
    }
    false
}

/// The number of grains that come to rest before one falls past the
/// ledges.
pub fn pour(input: &CrossSection) -> (count: usize)
    requires
        input.frame().safe(grid(input.ledges@)),
    ensures
        input.frame().holds_grains(grid(input.ledges@), count as int),
{
    let ghost f = input.frame();
    let ghost g0 = grid(input.ledges@);
    let mut filled = copy_table(&input.ledges);
    let start = Point { x: START_X, y: START_Y };
    let mut grain: usize = 0;
    while grain < usize::MAX
        invariant
            f == input.frame(),
            g0 == grid(input.ledges@),
            start.x == START_X && start.y == START_Y,
            f.safe(grid(filled@)),
            f.poured(g0, grain as nat) == Some(grid(filled@)),
        decreases usize::MAX - grain,
    {
        let ghost before = grid(filled@);
        if !do_grain(&mut filled, &start, input) {
            assert(f.grain_rest(before).is_none());
            assert(f.poured(g0, grain as nat) == Some(before));
            return grain;
        }
        grain += 1;
    }
    usize::MAX
}

/// A copy of a table.
pub fn copy_table(table: &Vec<Vec<bool>>) -> (copy: Vec<Vec<bool>>)
    ensures
        grid(copy@) == grid(table@),
{
    let mut copy: Vec<Vec<bool>> = Vec::new();
    let mut y: usize = 0;
    while y < table.len()
        invariant
            y <= table.len(),
            grid(copy@) == grid(table@).take(y as int),
        decreases table.len() - y,
    {
        let source = &table[y];
        let mut row: Vec<bool> = Vec::new();
        let mut x: usize = 0;
        while x < source.len()
            invariant
                x <= source.len(),
                row@ == source@.take(x as int),
            decreases source.len() - x,
        {
            row.push(source[x]);
            assert(row@ =~= source@.take(x as int + 1));
            x += 1;
        }
        assert(source@.take(x as int) =~= source@);
        let ghost before = grid(copy@);
        copy.push(row);
        assert(grid(copy@) =~= before.push(source@));
        assert(grid(copy@) =~= grid(table@).take(y as int + 1));
        y += 1;
    }
    assert(grid(table@).take(y as int) =~= grid(table@));
    copy
}

/// The number of grains that come to rest before one falls past the
/// ledges.
pub fn part1(input: &CrossSection) -> (count: usize)
    requires
        input.frame().fits(grid(input.ledges@)),
        input.frame().margins_clear(grid(input.ledges@)),
    ensures
        input.frame().holds_grains(grid(input.ledges@), count as int),
{
    pour(input)
}

/// A place on a ledge lies between the corners of the ledge.
pub proof fn lemma_on_segment(a: Point, b: Point, x: int, y: int)
    requires
        aligned(a, b),
        on_segment(a, b, x, y),
    ensures
        a.x <= x <= b.x || b.x <= x <= a.x,
        a.y <= y <= b.y || b.y <= y <= a.y,
{
}

/// A table that shows drawable ledges fits its frame, where the source lies
/// within it, and has nothing in its first and last column.
pub proof fn lemma_draws(cs: &CrossSection, paths: Seq<Vec<Point>>)
    requires
        drawable(paths),
        cs.draws(paths),
        cs.left <= START_X <= cs.right,
    ensures
        cs.frame().fits(grid(cs.ledges@)),
        cs.frame().margins_clear(grid(cs.ledges@)),
{
    let f = cs.frame();
    let g = grid(cs.ledges@);
    lemma_corner(paths, 0, 0);
    assert forall|y: int| 0 <= y <= f.height implies (#[trigger] g[y]).len() == f.width() by {
        assert(g[y] == cs.ledges[y]@);
    }
    assert forall|y: int| 0 <= y <= f.height implies !(#[trigger] g[y])[0] && !g[y][f.width()
        - 1] by {
        assert(g[y] == cs.ledges[y]@);
        assert forall|x: int| x == cs.left || x == cs.right implies !on_ledges(
            paths,
            paths.len() as int,
            x,
            y,
        ) by {
            if on_ledges(paths, paths.len() as int, x, y) {
                let i = choose|i: int|
                    0 <= i < paths.len() && i < paths.len() && on_path(
                        (#[trigger] paths[i])@,
                        paths[i].len() as int,
                        x,
                        y,
                    );
                let k = choose|k: int|
                    0 <= k < paths[i].len() && k + 1 < paths[i]@.len() && on_segment(
                        #[trigger] paths[i]@[k],
                        paths[i]@[k + 1],
                        x,
                        y,
                    );
                lemma_corner(paths, i, k);
                lemma_corner(paths, i, k + 1);
                assert(aligned(paths[i][k], paths[i][k + 1]));
                lemma_on_segment(paths[i][k], paths[i][k + 1], x, y);
            }
        }
        assert(cs.filled_at(cs.left as int, y) == on_ledges(
            paths,
            paths.len() as int,
            cs.left as int,
            y,
        ));
        assert(cs.filled_at(cs.right as int, y) == on_ledges(
            paths,
            paths.len() as int,
            cs.right as int,
            y,
        ));
    }
}

impl Frame {
    /// The frame with a floor one row below the last row, wide enough for
    /// a heap of sand from the source.
    pub open spec fn floored(self) -> Frame {
        let height = self.height + 1;
        Frame {
            left: if START_X - height < self.left {
                START_X - height
            } else {
                self.left
            },
            right: if START_X + height > self.right {
                START_X + height
            } else {
                self.right
            },
            height,
        }
    }

    /// The rows with the floor: what was filled above the last row stays
    /// filled, and the floor is filled from end to end.
    pub open spec fn with_floor(self, g: Seq<Seq<bool>>) -> Seq<Seq<bool>> {
        let wide = self.floored();
        Seq::new(
            (wide.height + 1) as nat,
            |y: int|
                Seq::new(
                    wide.width() as nat,
                    |c: int|
                        y == wide.height || (y < self.height && self.left <= c + wide.left
                            <= self.right && self.filled(g, c + wide.left, y)),
                ),
        )
    }
}

/// The cave with a floor one row below its last row.
pub fn add_floor(input: &CrossSection, start: &Point) -> (wide: CrossSection)
    requires
        start.x == START_X && start.y == START_Y,
        input.frame().fits(grid(input.ledges@)),
        input.height + 1 <= START_X,
    ensures
        wide.frame() == input.frame().floored(),
        grid(wide.ledges@) == input.frame().with_floor(grid(input.ledges@)),
        wide.frame().fits(grid(wide.ledges@)),
        wide.frame().roomy(),
{
    let ghost f = input.frame();
    let ghost g = grid(input.ledges@);
    let height = input.height + 1;
    let left = if start.x - height < input.left {
        start.x - height
    } else {
        input.left
    };
    let right = if start.x + height > input.right {
        start.x + height
    } else {
        input.right
    };
    let mut ledges = empty_table(right - left + 1, height + 1);
    let mut x: usize = input.left;
    while x <= input.right
        invariant
            input.left <= x <= input.right + 1,
            f == input.frame(),
            g == grid(input.ledges@),
            f.fits(g),
            left <= input.left,
            input.right <= right < 2 * BOUND + START_X,
            height == input.height + 1,
            start.y == START_Y,
            ledges.len() == height + 1,
            forall|r: int| 0 <= r <= height ==> (#[trigger] ledges[r]).len() == right - left + 1,
            forall|r: int, c: int|
                0 <= r <= height && 0 <= c <= right - left ==> (#[trigger] ledges[r][c]) == (r
                    < input.height && input.left <= c + left < x && f.filled(g, c + left, r)),
        decreases input.right + 1 - x,
    {
        let mut y: usize = start.y;
        while y < input.height
            invariant
                y <= input.height,
                input.left <= x <= input.right,
                f == input.frame(),
                g == grid(input.ledges@),
                f.fits(g),
                left <= input.left,
                input.right <= right,
                height == input.height + 1,
                ledges.len() == height + 1,
                forall|r: int|
                    0 <= r <= height ==> (#[trigger] ledges[r]).len() == right - left + 1,
                forall|r: int, c: int|
                    0 <= r <= height && 0 <= c <= right - left ==> (#[trigger] ledges[r][c]) == (r
                        < input.height && ((input.left <= c + left < x) || (c + left == x && r
                        < y)) && f.filled(g, c + left, r)),
            decreases input.height - y,
        {
            let ghost before = ledges@;
            proof {
                assert(g[y as int] == input.ledges[y as int]@);
                assert(g[y as int].len() == f.width());
                assert(before[y as int].len() == right - left + 1);
            }
            ledges[y][x - left] = input.ledges[y][x - input.left];
            proof {
                assert forall|r: int| 0 <= r <= height implies (#[trigger] ledges[r]).len() == right
                    - left + 1 by {
                    assert(before[r].len() == right - left + 1);
                }
                assert forall|r: int, c: int|
                    0 <= r <= height && 0 <= c <= right - left implies (#[trigger] ledges[r][c])
                    == (r < input.height && ((input.left <= c + left < x) || (c + left == x && r
                    < y + 1)) && f.filled(g, c + left, r)) by {
                    assert(before[r].len() == right - left + 1);
                    if !(r == y && c == x - left) {
                        assert(ledges[r][c] == before[r][c]);
                    }
                }
            }
            y += 1;
        }
        x += 1;
    }
    let mut x: usize = left;
    while x <= right
        invariant
            left <= x <= right + 1,
            right < 2 * BOUND + START_X,
            f == input.frame(),
            g == grid(input.ledges@),
            left <= input.left,
            input.right <= right,
            height == input.height + 1,
            ledges.len() == height + 1,
            forall|r: int| 0 <= r <= height ==> (#[trigger] ledges[r]).len() == right - left + 1,
            forall|r: int, c: int|
                0 <= r <= height && 0 <= c <= right - left ==> (#[trigger] ledges[r][c]) == ((r
                    == height && c + left < x) || (r < input.height && input.left <= c + left
                    <= input.right && f.filled(g, c + left, r))),
        decreases right + 1 - x,
    {
        let ghost before = ledges@;
        assert(before[height as int].len() == right - left + 1);
        ledges[height][x - left] = true;
        proof {
            assert forall|r: int| 0 <= r <= height implies (#[trigger] ledges[r]).len() == right
                - left + 1 by {
                assert(before[r].len() == right - left + 1);
            }
            assert forall|r: int, c: int|
                0 <= r <= height && 0 <= c <= right - left implies (#[trigger] ledges[r][c]) == ((r
                == height && c + left < x + 1) || (r < input.height && input.left <= c + left
                <= input.right && f.filled(g, c + left, r))) by {
                assert(before[r].len() == right - left + 1);
                if !(r == height && c == x - left) {
                    assert(ledges[r][c] == before[r][c]);
                }
            }
        }
        x += 1;
    }
    let wide = CrossSection { ledges, left, right, height };
    proof {
        let goal = f.with_floor(g);
        let now = grid(wide.ledges@);
        assert(now.len() == goal.len());
        assert forall|r: int| 0 <= r < goal.len() implies now[r] =~= goal[r] by {
            assert(now[r] == wide.ledges[r]@);
            assert(now[r].len() == right - left + 1);
            assert forall|c: int| 0 <= c < goal[r].len() implies now[r][c] == goal[r][c] by {
                assert(wide.ledges[r][c] == ((r == height && c + left < right + 1) || (r
                    < input.height && input.left <= c + left <= input.right && f.filled(
                    g,
                    c + left,
                    r,
                ))));
            }
        }
        assert(now =~= goal);
    }
    wide
}

/// The number of grains that come to rest on a floor below the ledges
/// before the source is blocked.
pub fn part2(input: &CrossSection) -> (count: usize)
    requires
        input.frame().fits(grid(input.ledges@)),
        input.height + 1 <= START_X,
    ensures
        input.frame().floored().holds_grains(
            input.frame().with_floor(grid(input.ledges@)),
            count as int,
        ),
{
    let start = Point { x: START_X, y: START_Y };
    let extended = add_floor(input, &start);
    pour(&extended)
}

} // verus!
