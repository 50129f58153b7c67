//! Droplets of lava made of unit cubes: the area of their surface, and of
//! the part of it that can be reached from outside.
use crate::text::{lines, lines_of, parse_signed, rows, signed_of, split, split_on, COMMA};
use std::ops::Range;
use vstd::prelude::*;
use vstd::string::StringSliceAdditionalSpecFns;

verus! {

pub type Coordinate = i32;

/// A cube, named by its corner.
#[derive(Clone, Copy, Debug, PartialEq, Eq, Structural)]
pub struct Point {
    pub x: Coordinate,
    pub y: Coordinate,
    pub z: Coordinate,
}

/// A cube as the rules see it.
pub type Cell = (int, int, int);

impl View for Point {
    type V = Cell;

    open spec fn view(&self) -> Cell {
        (self.x as int, self.y as int, self.z as int)
    }
}

/// What a place holds: nothing known, lava, or air that reaches outside.
#[derive(Clone, Copy, Debug, PartialEq, Eq, Structural)]
pub enum Kind {
    Air,
    Rock,
    Outside,
}

/// The box round the droplet, with what each place in it holds.
#[derive(Debug)]
pub struct Blob {
    pub ranges: [Range<Coordinate>; 3],
    pub boxes: Vec<Vec<Vec<Kind>>>,
}

/// All coordinates must be less than this far from 0.
pub const LIMIT: Coordinate = 0x1000_0000;

/// The coordinate that a text writes, where it writes one that fits.
pub open spec fn coordinate_of(s: Seq<u8>) -> Option<Coordinate> {
    match signed_of(s) {
        Some(v) => if Coordinate::MIN <= v <= Coordinate::MAX {
            Some(v as Coordinate)
        } else {
            None
        },
        None => None,
    }
}

/// The cube that a line writes: its first three numbers between commas;
/// `None` where it has fewer, or a piece between commas is no number.
pub open spec fn point_of(line: Seq<u8>) -> Option<Point> {
    let pieces = split_on(line, COMMA);
    if pieces.len() >= 3 && (forall|i: int|
        0 <= i < pieces.len() ==> coordinate_of(#[trigger] pieces[i]).is_some()) {
        Some(
            Point {
                x: coordinate_of(pieces[0]).unwrap(),
                y: coordinate_of(pieces[1]).unwrap(),
                z: coordinate_of(pieces[2]).unwrap(),
            },
        )
    } else {
        None
    }
}

/// Whether every line of the text writes a cube.
pub open spec fn well_formed(text: Seq<u8>) -> bool {
    forall|i: int|
        0 <= i < lines_of(text).len() ==> point_of(#[trigger] lines_of(text)[i]).is_some()
}

/// Whether `points` are the cubes that the lines of the text write.
pub open spec fn text_says(text: Seq<u8>, points: Seq<Point>) -> bool {
    &&& points.len() == lines_of(text).len()
    &&& forall|i: int|
        0 <= i < points.len() ==> point_of(lines_of(text)[i]) == Some(#[trigger] points[i])
}

impl Point {
    /// Reads a cube from its line.
    pub fn parse(line: &[u8]) -> (r: Option<Point>)
        ensures
            r == point_of(line@),
    {
        let pieces = split(line, COMMA);
        let ghost ps = split_on(line@, COMMA);
        let mut nums: Vec<Coordinate> = Vec::new();
        let mut i: usize = 0;
        while i < pieces.len()
            invariant
                i <= pieces.len(),
                rows(pieces@) == ps,
                ps == split_on(line@, COMMA),
                nums.len() == i,
                forall|k: int| 0 <= k < i ==> coordinate_of(ps[k]) == Some(#[trigger] nums[k]),
            decreases pieces.len() - i,
        {
            assert(rows(pieces@)[i as int] == pieces[i as int]@);
            match parse_signed(pieces[i].as_slice()) {
                Some(v) => if -0x8000_0000 <= v && v <= 0x7fff_ffff {
                    nums.push(v as Coordinate);
                } else {
                    assert(!coordinate_of(split_on(line@, COMMA)[i as int]).is_some());
                    return None;
                },
                None => {
                    assert(!coordinate_of(split_on(line@, COMMA)[i as int]).is_some());
                    return None;
                },
            }
            i += 1;
        }
        if nums.len() < 3 {
            return None;
        }
        assert forall|k: int| 0 <= k < ps.len() implies coordinate_of(#[trigger] ps[k]).is_some() by {
            assert(coordinate_of(ps[k]) == Some(nums[k]));
        }
        Some(Point { x: nums[0], y: nums[1], z: nums[2] })
    }
}

/// The cubes of the text, one from each line; `None` where a line writes
/// none.
pub fn parse(input: &str) -> (r: Option<Vec<Point>>)
    ensures
        r.is_some() == well_formed(input.spec_bytes()),
        r matches Some(points) ==> text_says(input.spec_bytes(), points@),
{
    let all = lines(input.as_bytes());
    let ghost ls = lines_of(input.spec_bytes());
    let mut points: Vec<Point> = Vec::new();
    let mut i: usize = 0;
    while i < all.len()
        invariant
            i <= all.len(),
            rows(all@) == ls,
            ls == lines_of(input.spec_bytes()),
            points.len() == i,
            forall|k: int| 0 <= k < i ==> point_of(ls[k]) == Some(#[trigger] points[k]),
        decreases all.len() - i,
    {
        assert(rows(all@)[i as int] == all[i as int]@);
        match Point::parse(all[i].as_slice()) {
            Some(p) => {
                points.push(p);
            },
            None => {
                assert(!point_of(lines_of(input.spec_bytes())[i as int]).is_some());
                return None;
            },
        }
        i += 1;
    }
    assert forall|k: int| 0 <= k < ls.len() implies point_of(#[trigger] ls[k]).is_some() by {
        assert(point_of(ls[k]) == Some(points[k]));
    }
    Some(points)
}

/// The cubes of the text, one from each line.
pub fn generator(input: &str) -> (points: Vec<Point>)
    requires
        well_formed(input.spec_bytes()),
    ensures
        text_says(input.spec_bytes(), points@),
{
    parse(input).unwrap()
}

/// The range from the least of the numbers to one past the largest; `None`
/// where there is no number.
pub fn find_range(input: &[Coordinate]) -> (r: Option<Range<Coordinate>>)
    requires
        forall|i: int| 0 <= i < input.len() ==> #[trigger] input[i] < Coordinate::MAX,
    ensures
        r.is_some() == (input.len() > 0),
        r matches Some(range) ==> {
            &&& forall|i: int| 0 <= i < input.len() ==> range.start <= #[trigger] input[i] < range.end
            &&& exists|i: int| 0 <= i < input.len() && #[trigger] input[i] == range.start
            &&& exists|i: int| 0 <= i < input.len() && #[trigger] input[i] + 1 == range.end
        },
{
    if input.len() == 0 {
        return None;
    }
    let mut low = input[0];
    let mut high = input[0];
    let mut i: usize = 1;
    while i < input.len()
        invariant
            1 <= i <= input.len(),
            forall|k: int| 0 <= k < i ==> low <= #[trigger] input[k] <= high,
            exists|k: int| 0 <= k < i && #[trigger] input[k] == low,
            exists|k: int| 0 <= k < i && #[trigger] input[k] == high,
        decreases input.len() - i,
    {
        if input[i] < low {
            low = input[i];
        }
        if input[i] > high {
            high = input[i];
        }
        i += 1;
    }
    Some(Range { start: low, end: high + 1 })
}

/// The length of a range.
pub fn size(input: &Range<Coordinate>) -> (n: usize)
    requires
        input.start <= input.end,
        input.end - input.start <= Coordinate::MAX,
    ensures
        n == input.end - input.start,
{
    (input.end - input.start) as usize
}

/// Whether every coordinate of the cubes is less than `LIMIT` from 0.
pub open spec fn modest(points: Seq<Point>) -> bool {
    forall|i: int|
        0 <= i < points.len() ==> -LIMIT < (#[trigger] points[i]).x < LIMIT && -LIMIT
            < points[i].y < LIMIT && -LIMIT < points[i].z < LIMIT
}

/// Whether a cube is one of the given cubes.
pub open spec fn is_rock(points: Seq<Point>, c: Cell) -> bool {
    exists|i: int| 0 <= i < points.len() && (#[trigger] points[i])@ == c
}

/// The cube next to `c` on side `side`, of the six sides.
pub open spec fn beside(c: Cell, side: int) -> Cell {
    if side == 0 {
        (c.0 + 1, c.1, c.2)
    } else if side == 1 {
        (c.0 - 1, c.1, c.2)
    } else if side == 2 {
        (c.0, c.1 + 1, c.2)
    } else if side == 3 {
        (c.0, c.1 - 1, c.2)
    } else if side == 4 {
        (c.0, c.1, c.2 + 1)
    } else {
        (c.0, c.1, c.2 - 1)
    }
}

impl Blob {
    /// Whether a cube lies in the box.
    pub open spec fn holds(&self, c: Cell) -> bool {
        &&& self.ranges[0].start <= c.0 < self.ranges[0].end
        &&& self.ranges[1].start <= c.1 < self.ranges[1].end
        &&& self.ranges[2].start <= c.2 < self.ranges[2].end
    }

    /// What the place of a cube holds.
    pub open spec fn kind_at(&self, c: Cell) -> Kind {
        self.boxes[c.0 - self.ranges[0].start][c.1 - self.ranges[1].start][c.2
            - self.ranges[2].start]
    }

    /// Whether the box has a place for every cube in its ranges, which are
    /// not empty and lie within `LIMIT` of 0.
    pub open spec fn wf(&self) -> bool {
        &&& -LIMIT < self.ranges[0].start < self.ranges[0].end <= LIMIT
        &&& -LIMIT < self.ranges[1].start < self.ranges[1].end <= LIMIT
        &&& -LIMIT < self.ranges[2].start < self.ranges[2].end <= LIMIT
        &&& self.boxes.len() == self.ranges[0].end - self.ranges[0].start
        &&& forall|i: int|
            0 <= i < self.boxes.len() ==> (#[trigger] self.boxes[i]).len() == self.ranges[1].end
                - self.ranges[1].start
        &&& forall|i: int, j: int|
            0 <= i < self.boxes.len() && 0 <= j < self.boxes[i].len() ==> (
            #[trigger] self.boxes[i][j]).len() == self.ranges[2].end - self.ranges[2].start
    }

    /// Whether the box is the least box round the cubes: it holds them all,
    /// and each of its six faces touches one of them.
    pub open spec fn girds(&self, points: Seq<Point>) -> bool {
        &&& self.wf()
        &&& forall|i: int| 0 <= i < points.len() ==> self.holds((#[trigger] points[i])@)
        &&& exists|i: int| 0 <= i < points.len() && (#[trigger] points[i]).x == self.ranges[0].start
        &&& exists|i: int| 0 <= i < points.len() && (#[trigger] points[i]).x + 1 == self.ranges[0].end
        &&& exists|i: int| 0 <= i < points.len() && (#[trigger] points[i]).y == self.ranges[1].start
        &&& exists|i: int| 0 <= i < points.len() && (#[trigger] points[i]).y + 1 == self.ranges[1].end
        &&& exists|i: int| 0 <= i < points.len() && (#[trigger] points[i]).z == self.ranges[2].start
        &&& exists|i: int| 0 <= i < points.len() && (#[trigger] points[i]).z + 1 == self.ranges[2].end
    }

    /// Whether the rocks of the box are the given cubes.
    pub open spec fn shows(&self, points: Seq<Point>) -> bool {
        forall|c: Cell| self.holds(c) ==> (#[trigger] self.kind_at(c) == Kind::Rock) == is_rock(points, c)
    }
}

/// Whether every place of the rows holds air.
pub open spec fn all_air(boxes: Seq<Vec<Vec<Kind>>>) -> bool {
    forall|i: int, j: int, k: int|
        0 <= i < boxes.len() && 0 <= j < boxes[i].len() && 0 <= k < boxes[i][j].len() ==> (
        #[trigger] boxes[i][j][k]) == Kind::Air
}

/// A box of the given size that holds only air.
pub fn empty_boxes(nx: usize, ny: usize, nz: usize) -> (boxes: Vec<Vec<Vec<Kind>>>)
    ensures
        boxes.len() == nx,
        forall|i: int| 0 <= i < nx ==> (#[trigger] boxes[i]).len() == ny,
        forall|i: int, j: int| 0 <= i < nx && 0 <= j < ny ==> (#[trigger] boxes[i][j]).len() == nz,
        all_air(boxes@),
{
    let mut boxes: Vec<Vec<Vec<Kind>>> = Vec::new();
    let mut i: usize = 0;
    while i < nx
        invariant
            i <= nx,
            boxes.len() == i,
            forall|a: int| 0 <= a < i ==> (#[trigger] boxes[a]).len() == ny,
            forall|a: int, b: int| 0 <= a < i && 0 <= b < ny ==> (#[trigger] boxes[a][b]).len() == nz,
            all_air(boxes@),
        decreases nx - i,
    {
        let mut plane: Vec<Vec<Kind>> = Vec::new();
        let mut j: usize = 0;
        while j < ny
            invariant
                j <= ny,
                plane.len() == j,
                forall|b: int| 0 <= b < j ==> (#[trigger] plane[b]).len() == nz,
                forall|b: int, c: int| 0 <= b < j && 0 <= c < nz ==> (#[trigger] plane[b][c]) == Kind::Air,
            decreases ny - j,
        {
            let mut row: Vec<Kind> = Vec::new();
            let mut k: usize = 0;
            while k < nz
                invariant
                    k <= nz,
                    row.len() == k,
                    forall|c: int| 0 <= c < k ==> #[trigger] row[c] == Kind::Air,
                decreases nz - k,
            {
                row.push(Kind::Air);
                k += 1;
            }
            plane.push(row);
            j += 1;
        }
        boxes.push(plane);
        i += 1;
    }
    boxes
}

/// Which coordinate of the cubes: 0 for `x`, 1 for `y`, 2 for `z`.
pub open spec fn along(p: Point, axis: int) -> Coordinate {
    if axis == 0 {
        p.x
    } else if axis == 1 {
        p.y
    } else {
        p.z
    }
}

/// The coordinates of the cubes along an axis.
pub fn coordinates(input: &[Point], axis: usize) -> (v: Vec<Coordinate>)
    requires
        axis < 3,
    ensures
        v.len() == input.len(),
        forall|i: int| 0 <= i < input.len() ==> #[trigger] v[i] == along(input[i], axis as int),
{
    let mut v: Vec<Coordinate> = Vec::new();
    let mut i: usize = 0;
    while i < input.len()
        invariant
            i <= input.len(),
            axis < 3,
            v.len() == i,
            forall|k: int| 0 <= k < i ==> #[trigger] v[k] == along(input[k], axis as int),
        decreases input.len() - i,
    {
        let p = &input[i];
        v.push(
            if axis == 0 {
                p.x
            } else if axis == 1 {
                p.y
            } else {
                p.z
            },
        );
        i += 1;
    }
    v
}

impl Blob {
    /// The least box that holds all the cubes, filled with air.
    pub fn new(input: &[Point]) -> (blob: Blob)
        requires
            input.len() > 0,
            modest(input@),
        ensures
            blob.wf(),
            all_air(blob.boxes@),
            forall|i: int| 0 <= i < input.len() ==> blob.holds((#[trigger] input[i])@),
            compact(input@) ==> blob.ranges[0].end - blob.ranges[0].start <= REACH
                && blob.ranges[1].end - blob.ranges[1].start <= REACH && blob.ranges[2].end
                - blob.ranges[2].start <= REACH,
            blob.girds(input@),
    {
        let xs = coordinates(input, 0);
        let ys = coordinates(input, 1);
        let zs = coordinates(input, 2);
        proof {
            assert forall|i: int| 0 <= i < input.len() implies -LIMIT < #[trigger] xs[i] < LIMIT
                && -LIMIT < ys[i] < LIMIT && -LIMIT < zs[i] < LIMIT by {
                assert(-LIMIT < input[i].x < LIMIT);
            }
        }
        let x_range = find_range(xs.as_slice()).unwrap();
        let y_range = find_range(ys.as_slice()).unwrap();
        let z_range = find_range(zs.as_slice()).unwrap();
        let boxes = empty_boxes(size(&x_range), size(&y_range), size(&z_range));
        let blob = Blob { ranges: [x_range, y_range, z_range], boxes };
        proof {
            assert forall|i: int| 0 <= i < input.len() implies blob.holds((#[trigger] input[i])@) by {
                assert(xs[i] == input[i].x && ys[i] == input[i].y && zs[i] == input[i].z);
            }
            let x_low = choose|i: int| 0 <= i < xs.len() && #[trigger] xs[i] == x_range.start;
            let x_high = choose|i: int| 0 <= i < xs.len() && #[trigger] xs[i] + 1 == x_range.end;
            let y_low = choose|i: int| 0 <= i < ys.len() && #[trigger] ys[i] == y_range.start;
            let y_high = choose|i: int| 0 <= i < ys.len() && #[trigger] ys[i] + 1 == y_range.end;
            let z_low = choose|i: int| 0 <= i < zs.len() && #[trigger] zs[i] == z_range.start;
            let z_high = choose|i: int| 0 <= i < zs.len() && #[trigger] zs[i] + 1 == z_range.end;
            assert(input@[x_low].x == blob.ranges[0].start && input@[x_high].x + 1
                == blob.ranges[0].end);
            assert(input@[y_low].y == blob.ranges[1].start && input@[y_high].y + 1
                == blob.ranges[1].end);
            assert(input@[z_low].z == blob.ranges[2].start && input@[z_high].z + 1
                == blob.ranges[2].end);
            if compact(input@) {
                let x_low = choose|i: int| 0 <= i < xs.len() && #[trigger] xs[i] == x_range.start;
                let x_high = choose|i: int| 0 <= i < xs.len() && #[trigger] xs[i] + 1 == x_range.end;
                assert(input[x_high].x - input[x_low].x < REACH);
                let y_low = choose|i: int| 0 <= i < ys.len() && #[trigger] ys[i] == y_range.start;
                let y_high = choose|i: int| 0 <= i < ys.len() && #[trigger] ys[i] + 1 == y_range.end;
                assert(input[y_high].y - input[y_low].y < REACH);
                let z_low = choose|i: int| 0 <= i < zs.len() && #[trigger] zs[i] == z_range.start;
                let z_high = choose|i: int| 0 <= i < zs.len() && #[trigger] zs[i] + 1 == z_range.end;
                assert(input[z_high].z - input[z_low].z < REACH);
            }
        }
        blob
    }

    /// Says what the place of a cube holds.
    pub fn set(&mut self, point: &Point, kind: Kind)
        requires
            old(self).wf(),
            old(self).holds(point@),
        ensures
            final(self).wf(),
            final(self).ranges == old(self).ranges,
            final(self).kind_at(point@) == kind,
            forall|c: Cell|
                old(self).holds(c) && c != point@ ==> #[trigger] final(self).kind_at(c) == old(
                    self,
                ).kind_at(c),
    {
        let i = (point.x - self.ranges[0].start) as usize;
        let j = (point.y - self.ranges[1].start) as usize;
        let k = (point.z - self.ranges[2].start) as usize;
        let ghost before = self.boxes@;
        assert(before[i as int].len() == self.ranges[1].end - self.ranges[1].start);
        assert(before[i as int][j as int].len() == self.ranges[2].end - self.ranges[2].start);
        self.boxes[i][j][k] = kind;
        proof {
            assert forall|a: int| 0 <= a < self.boxes.len() implies (#[trigger] self.boxes[a]).len()
                == self.ranges[1].end - self.ranges[1].start by {
                assert(before[a].len() == self.ranges[1].end - self.ranges[1].start);
            }
            assert forall|a: int, b: int|
                0 <= a < self.boxes.len() && 0 <= b < self.boxes[a].len() implies (
            #[trigger] self.boxes[a][b]).len() == self.ranges[2].end - self.ranges[2].start by {
                assert(before[a].len() == self.ranges[1].end - self.ranges[1].start);
                assert(before[a][b].len() == self.ranges[2].end - self.ranges[2].start);
            }
            assert forall|c: Cell| old(self).holds(c) && c != point@ implies #[trigger] self.kind_at(
                c,
            ) == old(self).kind_at(c) by {
                let a = c.0 - self.ranges[0].start;
                let b = c.1 - self.ranges[1].start;
                assert(before[a].len() == self.ranges[1].end - self.ranges[1].start);
                assert(before[a][b].len() == self.ranges[2].end - self.ranges[2].start);
            }
        }
    }

    /// What the place of a cube holds.
    pub fn get(&self, point: &Point) -> (kind: Kind)
        requires
            self.wf(),
            self.holds(point@),
        ensures
            kind == self.kind_at(point@),
    {
        let i = (point.x - self.ranges[0].start) as usize;
        let j = (point.y - self.ranges[1].start) as usize;
        let k = (point.z - self.ranges[2].start) as usize;
        assert(self.boxes[i as int].len() == self.ranges[1].end - self.ranges[1].start);
        assert(self.boxes[i as int][j as int].len() == self.ranges[2].end - self.ranges[2].start);
        self.boxes[i][j][k]
    }

    /// Whether a cube lies in the box.
    pub fn contains(&self, point: &Point) -> (inside: bool)
        ensures
            inside == self.holds(point@),
    {
        self.ranges[0].start <= point.x && point.x < self.ranges[0].end && self.ranges[1].start
            <= point.y && point.y < self.ranges[1].end && self.ranges[2].start <= point.z
            && point.z < self.ranges[2].end
    }

    /// 1 where the cube beside `c` on the given side lies in the box and is
    /// rock, else 0.
    pub open spec fn rock_beside(&self, c: Cell, side: int) -> int {
        if self.holds(beside(c, side)) && self.kind_at(beside(c, side)) == Kind::Rock {
            1
        } else {
            0
        }
    }

    /// The number of sides of a cube on which rock lies in the box.
    pub open spec fn rocks_around(&self, c: Cell) -> int {
        self.rock_beside(c, 0) + self.rock_beside(c, 1) + self.rock_beside(c, 2)
            + self.rock_beside(c, 3) + self.rock_beside(c, 4) + self.rock_beside(c, 5)
    }

    /// The number of sides of a cube on which rock lies.
    pub fn get_neighbors(&self, point: &Point) -> (count: usize)
        requires
            self.wf(),
            -LIMIT <= point.x <= LIMIT && -LIMIT <= point.y <= LIMIT && -LIMIT <= point.z <= LIMIT,
        ensures
            count == self.rocks_around(point@),
            count <= 6,
    {
        let mut result: usize = 0;
        let deltas: [(Coordinate, Coordinate, Coordinate); 6] = [
            (1, 0, 0),
            (-1, 0, 0),
            (0, 1, 0),
            (0, -1, 0),
            (0, 0, 1),
            (0, 0, -1),
        ];
        let ghost c = point@;
        let mut side: usize = 0;
        while side < 6
            invariant
                side <= 6,
                self.wf(),
                c == point@,
                -LIMIT <= point.x <= LIMIT && -LIMIT <= point.y <= LIMIT && -LIMIT <= point.z
                    <= LIMIT,
                deltas[0] == (1i32, 0i32, 0i32),
                deltas[1] == (-1i32, 0i32, 0i32),
                deltas[2] == (0i32, 1i32, 0i32),
                deltas[3] == (0i32, -1i32, 0i32),
                deltas[4] == (0i32, 0i32, 1i32),
                deltas[5] == (0i32, 0i32, -1i32),
                result == (if side > 0 {
                    self.rock_beside(c, 0)
                } else {
                    0
                }) + (if side > 1 {
                    self.rock_beside(c, 1)
                } else {
                    0
                }) + (if side > 2 {
                    self.rock_beside(c, 2)
                } else {
                    0
                }) + (if side > 3 {
                    self.rock_beside(c, 3)
                } else {
                    0
                }) + (if side > 4 {
                    self.rock_beside(c, 4)
                } else {
                    0
                }) + (if side > 5 {
                    self.rock_beside(c, 5)
                } else {
                    0
                }),
            decreases 6 - side,
        {
            let delta = deltas[side];
            let other = Point { x: point.x + delta.0, y: point.y + delta.1, z: point.z + delta.2 };
            assert(other@ == beside(c, side as int));
            if self.contains(&other) && self.get(&other) == Kind::Rock {
                result += 1;
            }
            side += 1;
        }
        result
    }
}

/// The number of sides of a cube on which one of the given cubes lies.
pub open spec fn near(points: Seq<Point>, c: Cell) -> int {
    (if is_rock(points, beside(c, 0)) {
        1int
    } else {
        0int
    }) + (if is_rock(points, beside(c, 1)) {
        1int
    } else {
        0int
    }) + (if is_rock(points, beside(c, 2)) {
        1int
    } else {
        0int
    }) + (if is_rock(points, beside(c, 3)) {
        1int
    } else {
        0int
    }) + (if is_rock(points, beside(c, 4)) {
        1int
    } else {
        0int
    }) + (if is_rock(points, beside(c, 5)) {
        1int
    } else {
        0int
    })
}

/// Over the first `n` cubes, the number of sides on which a cube touches
/// one of the cubes before it.
pub open spec fn touching(points: Seq<Point>, n: nat) -> int
    decreases n,
{
    if n == 0 {
        0
    } else {
        touching(points, (n - 1) as nat) + near(points.take(n as int), points[n - 1]@)
    }
}

/// The area of the surface of the cubes: six sides for each, less two for
/// each pair of sides on which two cubes touch.
pub open spec fn surface(points: Seq<Point>) -> int {
    6 * points.len() - 2 * touching(points, points.len())
}

/// A box whose rocks are the given cubes shows on each side of a cube what
/// the cubes say, where all the cubes lie in the box.
pub proof fn lemma_rocks_around(blob: &Blob, points: Seq<Point>, c: Cell)
    requires
        blob.shows(points),
        forall|i: int| 0 <= i < points.len() ==> blob.holds((#[trigger] points[i])@),
    ensures
        blob.rocks_around(c) == near(points, c),
{
    assert forall|side: int| 0 <= side < 6 implies blob.rock_beside(c, side) == if is_rock(
        points,
        beside(c, side),
    ) {
        1int
    } else {
        0int
    } by {
        let d = beside(c, side);
        if is_rock(points, d) {
            let i = choose|i: int| 0 <= i < points.len() && (#[trigger] points[i])@ == d;
            assert(blob.holds(points[i]@));
            assert(blob.kind_at(d) == Kind::Rock);
        } else if blob.holds(d) {
            assert(blob.kind_at(d) != Kind::Rock);
        }
    }
    assert(blob.rock_beside(c, 0) == if is_rock(points, beside(c, 0)) { 1int } else { 0int });
    assert(blob.rock_beside(c, 1) == if is_rock(points, beside(c, 1)) { 1int } else { 0int });
    assert(blob.rock_beside(c, 2) == if is_rock(points, beside(c, 2)) { 1int } else { 0int });
    assert(blob.rock_beside(c, 3) == if is_rock(points, beside(c, 3)) { 1int } else { 0int });
    assert(blob.rock_beside(c, 4) == if is_rock(points, beside(c, 4)) { 1int } else { 0int });
    assert(blob.rock_beside(c, 5) == if is_rock(points, beside(c, 5)) { 1int } else { 0int });
}

/// Puts the cubes into the box round them.
pub fn fill(input: &Vec<Point>) -> (r: (Blob, usize))
    requires
        input.len() > 0,
        input.len() * 6 <= usize::MAX,
        modest(input@),
    ensures
        r.0.wf(),
        r.0.shows(input@),
        forall|i: int| 0 <= i < input.len() ==> r.0.holds((#[trigger] input[i])@),
        forall|c: Cell| r.0.holds(c) ==> #[trigger] r.0.kind_at(c) != Kind::Outside,
        r.1 == touching(input@, input.len() as nat),
        r.1 <= 6 * input.len(),
        compact(input@) ==> r.0.ranges[0].end - r.0.ranges[0].start <= REACH && r.0.ranges[1].end
            - r.0.ranges[1].start <= REACH && r.0.ranges[2].end - r.0.ranges[2].start <= REACH,
        r.0.girds(input@),
{
    let mut blob = Blob::new(input.as_slice());
    let ghost frame = blob.ranges;
    let mut neighbors: usize = 0;
    let mut i: usize = 0;
    proof {
        assert forall|c: Cell| blob.holds(c) implies #[trigger] blob.kind_at(c) == Kind::Air by {
            let a = c.0 - blob.ranges[0].start;
            let b = c.1 - blob.ranges[1].start;
            assert(blob.boxes[a].len() == blob.ranges[1].end - blob.ranges[1].start);
            assert(blob.boxes[a][b].len() == blob.ranges[2].end - blob.ranges[2].start);
        }
        assert(blob.shows(input@.take(0)));
    }
    while i < input.len()
        invariant
            i <= input.len(),
            input.len() * 6 <= usize::MAX,
            modest(input@),
            blob.wf(),
            blob.ranges == frame,
            forall|k: int| 0 <= k < input.len() ==> blob.holds((#[trigger] input[k])@),
            blob.shows(input@.take(i as int)),
            forall|c: Cell| blob.holds(c) ==> #[trigger] blob.kind_at(c) != Kind::Outside,
            neighbors == touching(input@, i as nat),
            neighbors <= 6 * i,
        decreases input.len() - i,
    {
        let b = &input[i];
        let ghost before = blob;
        let ghost upto = input@.take(i as int + 1);
        assert(blob.holds(input[i as int]@));
        assert(-LIMIT < input[i as int].x < LIMIT);
        blob.set(b, Kind::Rock);
        proof {
            assert forall|c: Cell| blob.holds(c) implies (#[trigger] blob.kind_at(c) == Kind::Rock)
                == is_rock(upto, c) by {
                if c == b@ {
                    assert(upto[i as int]@ == c);
                } else {
                    assert(blob.kind_at(c) == before.kind_at(c));
                    assert((before.kind_at(c) == Kind::Rock) == is_rock(input@.take(i as int), c));
                    if is_rock(input@.take(i as int), c) {
                        let k = choose|k: int|
                            0 <= k < i && (#[trigger] input@.take(i as int)[k])@ == c;
                        assert(upto[k]@ == c);
                    }
                    if is_rock(upto, c) {
                        let k = choose|k: int| 0 <= k < i + 1 && (#[trigger] upto[k])@ == c;
                        assert(k < i);
                        assert(input@.take(i as int)[k]@ == c);
                    }
                }
            }
            assert forall|k: int| 0 <= k < upto.len() implies blob.holds((#[trigger] upto[k])@) by {
                assert(upto[k] == input[k]);
            }
            lemma_rocks_around(&blob, upto, b@);
        }
        neighbors += blob.get_neighbors(b);
        i += 1;
    }
    assert(input@.take(i as int) =~= input@);
    (blob, neighbors)
}

/// The area of the surface of the cubes.
pub fn part1(input: &Vec<Point>) -> (area: usize)
    requires
        input.len() > 0,
        input.len() * 12 <= usize::MAX,
        modest(input@),
        surface(input@) >= 0,
    ensures
        area == surface(input@),
{
    let (_, neighbors) = fill(input);
    input.len() * 6 - neighbors * 2
}

/// The cubes of a row: `x` and `y` fixed, `z` from `z0` up to `z1`.
pub open spec fn cells_z(x: int, y: int, z0: int, z1: int) -> Seq<Cell>
    decreases z1 - z0,
{
    if z1 <= z0 {
        Seq::empty()
    } else {
        cells_z(x, y, z0, z1 - 1).push((x, y, z1 - 1))
    }
}

/// The cubes of a plane: `x` fixed, row after row.
pub open spec fn cells_y(x: int, y0: int, y1: int, z0: int, z1: int) -> Seq<Cell>
    decreases y1 - y0,
{
    if y1 <= y0 {
        Seq::empty()
    } else {
        cells_y(x, y0, y1 - 1, z0, z1) + cells_z(x, y1 - 1, z0, z1)
    }
}

/// The cubes of a box, plane after plane.
pub open spec fn cells_x(x0: int, x1: int, y0: int, y1: int, z0: int, z1: int) -> Seq<Cell>
    decreases x1 - x0,
{
    if x1 <= x0 {
        Seq::empty()
    } else {
        cells_x(x0, x1 - 1, y0, y1, z0, z1) + cells_y(x1 - 1, y0, y1, z0, z1)
    }
}

/// The cubes of the points.
pub open spec fn cells_of(points: Seq<Point>) -> Seq<Cell> {
    points.map_values(|p: Point| p@)
}

/// Every cube of a row lies in it.
pub proof fn lemma_cells_z(x: int, y: int, z0: int, z1: int, i: int)
    requires
        0 <= i < cells_z(x, y, z0, z1).len(),
    ensures
        cells_z(x, y, z0, z1)[i].0 == x,
        cells_z(x, y, z0, z1)[i].1 == y,
        z0 <= cells_z(x, y, z0, z1)[i].2 < z1,
    decreases z1 - z0,
{
    if z1 > z0 && i < cells_z(x, y, z0, z1 - 1).len() {
        lemma_cells_z(x, y, z0, z1 - 1, i);
    }
}

/// Every cube of a plane lies in it.
pub proof fn lemma_cells_y(x: int, y0: int, y1: int, z0: int, z1: int, i: int)
    requires
        0 <= i < cells_y(x, y0, y1, z0, z1).len(),
    ensures
        cells_y(x, y0, y1, z0, z1)[i].0 == x,
        y0 <= cells_y(x, y0, y1, z0, z1)[i].1 < y1,
        z0 <= cells_y(x, y0, y1, z0, z1)[i].2 < z1,
    decreases y1 - y0,
{
    if y1 > y0 {
        let before = cells_y(x, y0, y1 - 1, z0, z1);
        if i < before.len() {
            lemma_cells_y(x, y0, y1 - 1, z0, z1, i);
        } else {
            lemma_cells_z(x, y1 - 1, z0, z1, i - before.len());
        }
    }
}

/// Every cube of a box lies in it.
pub proof fn lemma_cells_x(x0: int, x1: int, y0: int, y1: int, z0: int, z1: int, i: int)
    requires
        0 <= i < cells_x(x0, x1, y0, y1, z0, z1).len(),
    ensures
        x0 <= cells_x(x0, x1, y0, y1, z0, z1)[i].0 < x1,
        y0 <= cells_x(x0, x1, y0, y1, z0, z1)[i].1 < y1,
        z0 <= cells_x(x0, x1, y0, y1, z0, z1)[i].2 < z1,
    decreases x1 - x0,
{
    if x1 > x0 {
        let before = cells_x(x0, x1 - 1, y0, y1, z0, z1);
        if i < before.len() {
            lemma_cells_x(x0, x1 - 1, y0, y1, z0, z1, i);
        } else {
            lemma_cells_y(x1 - 1, y0, y1, z0, z1, i - before.len());
        }
    }
}

/// Every cube of a row is among its cubes.
pub proof fn lemma_in_cells_z(x: int, y: int, z0: int, z1: int, z: int)
    requires
        z0 <= z < z1,
    ensures
        cells_z(x, y, z0, z1).contains((x, y, z)),
    decreases z1 - z0,
{
    let all = cells_z(x, y, z0, z1);
    if z == z1 - 1 {
        assert(all[all.len() - 1] == (x, y, z));
    } else {
        lemma_in_cells_z(x, y, z0, z1 - 1, z);
        let before = cells_z(x, y, z0, z1 - 1);
        let i = choose|i: int| 0 <= i < before.len() && before[i] == (x, y, z);
        assert(all[i] == (x, y, z));
    }
}

/// Every cube of a plane is among its cubes.
pub proof fn lemma_in_cells_y(x: int, y0: int, y1: int, z0: int, z1: int, y: int, z: int)
    requires
        y0 <= y < y1,
        z0 <= z < z1,
    ensures
        cells_y(x, y0, y1, z0, z1).contains((x, y, z)),
    decreases y1 - y0,
{
    let all = cells_y(x, y0, y1, z0, z1);
    let before = cells_y(x, y0, y1 - 1, z0, z1);
    let last = cells_z(x, y1 - 1, z0, z1);
    if y == y1 - 1 {
        lemma_in_cells_z(x, y, z0, z1, z);
        let i = choose|i: int| 0 <= i < last.len() && last[i] == (x, y, z);
        assert(all[before.len() + i] == (x, y, z));
    } else {
        lemma_in_cells_y(x, y0, y1 - 1, z0, z1, y, z);
        let i = choose|i: int| 0 <= i < before.len() && before[i] == (x, y, z);
        assert(all[i] == (x, y, z));
    }
}

/// Every cube of a box is among its cubes.
pub proof fn lemma_in_cells_x(
    x0: int,
    x1: int,
    y0: int,
    y1: int,
    z0: int,
    z1: int,
    c: Cell,
)
    requires
        x0 <= c.0 < x1,
        y0 <= c.1 < y1,
        z0 <= c.2 < z1,
    ensures
        cells_x(x0, x1, y0, y1, z0, z1).contains(c),
    decreases x1 - x0,
{
    let all = cells_x(x0, x1, y0, y1, z0, z1);
    let before = cells_x(x0, x1 - 1, y0, y1, z0, z1);
    let last = cells_y(x1 - 1, y0, y1, z0, z1);
    if c.0 == x1 - 1 {
        lemma_in_cells_y(c.0, y0, y1, z0, z1, c.1, c.2);
        let i = choose|i: int| 0 <= i < last.len() && last[i] == c;
        assert(all[before.len() + i] == c);
    } else {
        lemma_in_cells_x(x0, x1 - 1, y0, y1, z0, z1, c);
        let i = choose|i: int| 0 <= i < before.len() && before[i] == c;
        assert(all[i] == c);
    }
}

impl Blob {
    /// The cubes of a part of the box, plane after plane and row after row.
    pub fn get_slice(
        &self,
        x_range: &Range<Coordinate>,
        y_range: &Range<Coordinate>,
        z_range: &Range<Coordinate>,
    ) -> (result: Vec<Point>)
        requires
            x_range.start < x_range.end,
            y_range.start < y_range.end,
            z_range.start < z_range.end,
        ensures
            cells_of(result@) == cells_x(
                x_range.start as int,
                x_range.end as int,
                y_range.start as int,
                y_range.end as int,
                z_range.start as int,
                z_range.end as int,
            ),
    {
        let mut result: Vec<Point> = Vec::new();
        let ghost x0 = x_range.start as int;
        let ghost y0 = y_range.start as int;
        let ghost y1 = y_range.end as int;
        let ghost z0 = z_range.start as int;
        let ghost z1 = z_range.end as int;
        let mut x = x_range.start;
        assert(cells_of(result@) =~= cells_x(x0, x as int, y0, y1, z0, z1));
        while x < x_range.end
            invariant
                x_range.start <= x <= x_range.end,
                y_range.start < y_range.end,
                z_range.start < z_range.end,
                x0 == x_range.start,
                y0 == y_range.start,
                y1 == y_range.end,
                z0 == z_range.start,
                z1 == z_range.end,
                cells_of(result@) == cells_x(x0, x as int, y0, y1, z0, z1),
            decreases x_range.end - x,
        {
            let ghost planes = cells_of(result@);
            let mut y = y_range.start;
            assert(cells_of(result@) =~= planes + cells_y(x as int, y0, y as int, z0, z1));
            while y < y_range.end
                invariant
                    y_range.start <= y <= y_range.end,
                    z_range.start < z_range.end,
                    y0 == y_range.start,
                    y1 == y_range.end,
                    z0 == z_range.start,
                    z1 == z_range.end,
                    cells_of(result@) == planes + cells_y(x as int, y0, y as int, z0, z1),
                decreases y_range.end - y,
            {
                let ghost rows_before = cells_of(result@);
                let mut z = z_range.start;
                assert(cells_of(result@) =~= rows_before + cells_z(x as int, y as int, z0, z as int));
                while z < z_range.end
                    invariant
                        z_range.start <= z <= z_range.end,
                        z0 == z_range.start,
                        z1 == z_range.end,
                        cells_of(result@) == rows_before + cells_z(
                            x as int,
                            y as int,
                            z0,
                            z as int,
                        ),
                    decreases z_range.end - z,
                {
                    let ghost cells_before = cells_of(result@);
                    result.push(Point { x, y, z });
                    assert(cells_of(result@) =~= cells_before.push((x as int, y as int, z as int)));
                    z = z + 1;
                    assert(cells_of(result@) =~= rows_before + cells_z(
                        x as int,
                        y as int,
                        z0,
                        z as int,
                    ));
                }
                y = y + 1;
                assert(cells_of(result@) =~= planes + cells_y(x as int, y0, y as int, z0, z1));
            }
            x = x + 1;
            assert(cells_of(result@) =~= cells_x(x0, x as int, y0, y1, z0, z1));
        }
        result
    }
}

/// The number of cubes of a row, a plane and a box.
pub proof fn lemma_cells_len(x0: int, x1: int, y0: int, y1: int, z0: int, z1: int)
    requires
        x0 <= x1,
        y0 <= y1,
        z0 <= z1,
    ensures
        cells_z(x0, y0, z0, z1).len() == z1 - z0,
        cells_y(x0, y0, y1, z0, z1).len() == (y1 - y0) * (z1 - z0),
        cells_x(x0, x1, y0, y1, z0, z1).len() == (x1 - x0) * ((y1 - y0) * (z1 - z0)),
    decreases x1 - x0, y1 - y0, z1 - z0,
{
    if z1 > z0 {
        lemma_cells_len(x0, x0, y0, y0, z0, z1 - 1);
    }
    if y1 > y0 {
        lemma_cells_len(x0, x0, y0, y1 - 1, z0, z1);
        lemma_cells_len(x0, x0, y1 - 1, y1 - 1, z0, z1);
        assert(cells_z(x0, y1 - 1, z0, z1).len() == z1 - z0) by {
            lemma_cells_z_len(x0, y1 - 1, z0, z1);
        }
        assert((y1 - y0) * (z1 - z0) == (y1 - 1 - y0) * (z1 - z0) + (z1 - z0)) by (nonlinear_arith);
    } else {
        assert((y1 - y0) * (z1 - z0) == 0) by (nonlinear_arith)
            requires
                y1 == y0,
        ;
    }
    if x1 > x0 {
        lemma_cells_len(x0, x1 - 1, y0, y1, z0, z1);
        lemma_cells_y_len(x1 - 1, y0, y1, z0, z1);
        lemma_cells_y_len(x0, y0, y1, z0, z1);
        let plane = (y1 - y0) * (z1 - z0);
        assert((x1 - x0) * plane == (x1 - 1 - x0) * plane + plane) by (nonlinear_arith);
    } else {
        assert((x1 - x0) * ((y1 - y0) * (z1 - z0)) == 0) by (nonlinear_arith)
            requires
                x1 == x0,
        ;
    }
}

proof fn lemma_cells_z_len(x: int, y: int, z0: int, z1: int)
    requires
        z0 <= z1,
    ensures
        cells_z(x, y, z0, z1).len() == z1 - z0,
    decreases z1 - z0,
{
    if z1 > z0 {
        lemma_cells_z_len(x, y, z0, z1 - 1);
    }
}

proof fn lemma_cells_y_len(x: int, y0: int, y1: int, z0: int, z1: int)
    requires
        y0 <= y1,
        z0 <= z1,
    ensures
        cells_y(x, y0, y1, z0, z1).len() == (y1 - y0) * (z1 - z0),
    decreases y1 - y0,
{
    if y1 > y0 {
        lemma_cells_y_len(x, y0, y1 - 1, z0, z1);
        lemma_cells_z_len(x, y1 - 1, z0, z1);
        assert((y1 - y0) * (z1 - z0) == (y1 - 1 - y0) * (z1 - z0) + (z1 - z0)) by (nonlinear_arith);
    } else {
        assert((y1 - y0) * (z1 - z0) == 0) by (nonlinear_arith)
            requires
                y1 == y0,
        ;
    }
}

/// The most that two cubes may lie apart along an axis for the second
/// part.
pub const REACH: Coordinate = 256;

/// Whether no two cubes lie `REACH` or more apart along an axis.
pub open spec fn compact(points: Seq<Point>) -> bool {
    forall|i: int, j: int|
        0 <= i < points.len() && 0 <= j < points.len() ==> (#[trigger] points[i]).x - (
        #[trigger] points[j]).x < REACH && points[i].y - points[j].y < REACH && points[i].z
            - points[j].z < REACH
}

/// The side opposite to a side.
pub open spec fn opposite(side: int) -> int {
    if side == 0 {
        1
    } else if side == 1 {
        0
    } else if side == 2 {
        3
    } else if side == 3 {
        2
    } else if side == 4 {
        5
    } else {
        4
    }
}

/// The number of rocks among the cubes, each counted as often as it
/// occurs.
pub open spec fn rocks_in(points: Seq<Point>, cells: Seq<Cell>) -> int
    decreases cells.len(),
{
    if cells.len() == 0 {
        0
    } else {
        rocks_in(points, cells.drop_last()) + if is_rock(points, cells.last()) {
            1int
        } else {
            0int
        }
    }
}

/// The sum over the cubes of the number of their sides on which rock lies.
pub open spec fn rocks_beside(points: Seq<Point>, cells: Seq<Cell>) -> int
    decreases cells.len(),
{
    if cells.len() == 0 {
        0
    } else {
        rocks_beside(points, cells.drop_last()) + near(points, cells.last())
    }
}

impl Blob {
    /// Whether a cube lies in the box and on one of its six faces.
    pub open spec fn on_face(&self, c: Cell) -> bool {
        self.holds(c) && (c.0 == self.ranges[0].start || c.0 == self.ranges[0].end - 1 || c.1
            == self.ranges[1].start || c.1 == self.ranges[1].end - 1 || c.2
            == self.ranges[2].start || c.2 == self.ranges[2].end - 1)
    }

    /// The cubes of the six faces of the box, face after face; a cube on
    /// several faces occurs once for each.
    pub open spec fn edges(&self) -> Seq<Cell> {
        let x0 = self.ranges[0].start as int;
        let x1 = self.ranges[0].end as int;
        let y0 = self.ranges[1].start as int;
        let y1 = self.ranges[1].end as int;
        let z0 = self.ranges[2].start as int;
        let z1 = self.ranges[2].end as int;
        cells_x(x0, x0 + 1, y0, y1, z0, z1) + cells_x(x1 - 1, x1, y0, y1, z0, z1) + cells_x(
            x0,
            x1,
            y0,
            y0 + 1,
            z0,
            z1,
        ) + cells_x(x0, x1, y1 - 1, y1, z0, z1) + cells_x(x0, x1, y0, y1, z0, z0 + 1) + cells_x(
            x0,
            x1,
            y0,
            y1,
            z1 - 1,
            z1,
        )
    }

    /// All the cubes of the box.
    pub open spec fn all_cells(&self) -> Seq<Cell> {
        cells_x(
            self.ranges[0].start as int,
            self.ranges[0].end as int,
            self.ranges[1].start as int,
            self.ranges[1].end as int,
            self.ranges[2].start as int,
            self.ranges[2].end as int,
        )
    }

    /// Whether a cube of the box is not one of the given cubes.
    pub open spec fn free(&self, points: Seq<Point>, c: Cell) -> bool {
        self.holds(c) && !is_rock(points, c)
    }

    /// Whether air reaches a free cube from a face of the box in at most `n`
    /// steps from free cube to free cube.
    pub open spec fn seeps(&self, points: Seq<Point>, c: Cell, n: nat) -> bool
        decreases n,
    {
        self.free(points, c) && if n == 0 {
            self.on_face(c)
        } else {
            self.seeps(points, c, (n - 1) as nat) || exists|side: int|
                0 <= side < 6 && self.seeps(points, #[trigger] beside(c, side), (n - 1) as nat)
        }
    }

    /// Whether air reaches a cube from outside.
    pub open spec fn leaky(&self, points: Seq<Point>, c: Cell) -> bool {
        exists|n: nat| #[trigger] self.seeps(points, c, n)
    }

    /// The cubes of the faces are those that `on_face` says.
    pub proof fn lemma_edges(&self, c: Cell)
        requires
            self.wf(),
        ensures
            self.edges().contains(c) == self.on_face(c),
    {
        let x0 = self.ranges[0].start as int;
        let x1 = self.ranges[0].end as int;
        let y0 = self.ranges[1].start as int;
        let y1 = self.ranges[1].end as int;
        let z0 = self.ranges[2].start as int;
        let z1 = self.ranges[2].end as int;
        let a = cells_x(x0, x0 + 1, y0, y1, z0, z1);
        let b = cells_x(x1 - 1, x1, y0, y1, z0, z1);
        let cc = cells_x(x0, x1, y0, y0 + 1, z0, z1);
        let d = cells_x(x0, x1, y1 - 1, y1, z0, z1);
        let e = cells_x(x0, x1, y0, y1, z0, z0 + 1);
        let f = cells_x(x0, x1, y0, y1, z1 - 1, z1);
        let all = self.edges();
        assert(all == a + b + cc + d + e + f);
        if all.contains(c) {
            let i = choose|i: int| 0 <= i < all.len() && all[i] == c;
            if i < a.len() {
                lemma_cells_x(x0, x0 + 1, y0, y1, z0, z1, i);
            } else if i < a.len() + b.len() {
                lemma_cells_x(x1 - 1, x1, y0, y1, z0, z1, i - a.len());
            } else if i < a.len() + b.len() + cc.len() {
                lemma_cells_x(x0, x1, y0, y0 + 1, z0, z1, i - a.len() - b.len());
            } else if i < a.len() + b.len() + cc.len() + d.len() {
                lemma_cells_x(x0, x1, y1 - 1, y1, z0, z1, i - a.len() - b.len() - cc.len());
            } else if i < a.len() + b.len() + cc.len() + d.len() + e.len() {
                lemma_cells_x(
                    x0,
                    x1,
                    y0,
                    y1,
                    z0,
                    z0 + 1,
                    i - a.len() - b.len() - cc.len() - d.len(),
                );
            } else {
                lemma_cells_x(
                    x0,
                    x1,
                    y0,
                    y1,
                    z1 - 1,
                    z1,
                    i - a.len() - b.len() - cc.len() - d.len() - e.len(),
                );
            }
        }
        if self.on_face(c) {
            if c.0 == x0 {
                lemma_in_cells_x(x0, x0 + 1, y0, y1, z0, z1, c);
                let i = choose|i: int| 0 <= i < a.len() && a[i] == c;
                assert(all[i] == c);
            } else if c.0 == x1 - 1 {
                lemma_in_cells_x(x1 - 1, x1, y0, y1, z0, z1, c);
                let i = choose|i: int| 0 <= i < b.len() && b[i] == c;
                assert(all[a.len() + i] == c);
            } else if c.1 == y0 {
                lemma_in_cells_x(x0, x1, y0, y0 + 1, z0, z1, c);
                let i = choose|i: int| 0 <= i < cc.len() && cc[i] == c;
                assert(all[a.len() + b.len() + i] == c);
            } else if c.1 == y1 - 1 {
                lemma_in_cells_x(x0, x1, y1 - 1, y1, z0, z1, c);
                let i = choose|i: int| 0 <= i < d.len() && d[i] == c;
                assert(all[a.len() + b.len() + cc.len() + i] == c);
            } else if c.2 == z0 {
                lemma_in_cells_x(x0, x1, y0, y1, z0, z0 + 1, c);
                let i = choose|i: int| 0 <= i < e.len() && e[i] == c;
                assert(all[a.len() + b.len() + cc.len() + d.len() + i] == c);
            } else {
                lemma_in_cells_x(x0, x1, y0, y1, z1 - 1, z1, c);
                let i = choose|i: int| 0 <= i < f.len() && f[i] == c;
                assert(all[a.len() + b.len() + cc.len() + d.len() + e.len() + i] == c);
            }
        }
    }

    /// Get the points that make the bounding box of the blob. This will be
    /// the points along all six faces.
    pub fn get_box_edges(&self) -> (result: Vec<Point>)
        requires
            self.wf(),
        ensures
            cells_of(result@) == self.edges(),
    {
        let x = Range { start: self.ranges[0].start, end: self.ranges[0].end };
        let y = Range { start: self.ranges[1].start, end: self.ranges[1].end };
        let z = Range { start: self.ranges[2].start, end: self.ranges[2].end };
        let mut result: Vec<Point> = Vec::new();
        let mut part = self.get_slice(&Range { start: x.start, end: x.start + 1 }, &y, &z);
        let ghost a = cells_of(part@);
        result.append(&mut part);
        let mut part = self.get_slice(&Range { start: x.end - 1, end: x.end }, &y, &z);
        let ghost b = cells_of(part@);
        result.append(&mut part);
        let mut part = self.get_slice(&x, &Range { start: y.start, end: y.start + 1 }, &z);
        let ghost c = cells_of(part@);
        result.append(&mut part);
        let mut part = self.get_slice(&x, &Range { start: y.end - 1, end: y.end }, &z);
        let ghost d = cells_of(part@);
        result.append(&mut part);
        let mut part = self.get_slice(&x, &y, &Range { start: z.start, end: z.start + 1 });
        let ghost e = cells_of(part@);
        result.append(&mut part);
        let mut part = self.get_slice(&x, &y, &Range { start: z.end - 1, end: z.end });
        let ghost f = cells_of(part@);
        result.append(&mut part);
        assert(cells_of(result@) =~= a + b + c + d + e + f);
        result
    }
}

/// The number of the cubes that hold air, each counted as often as it
/// occurs.
pub open spec fn air_in(blob: Blob, cells: Seq<Cell>) -> int
    decreases cells.len(),
{
    if cells.len() == 0 {
        0
    } else {
        air_in(blob, cells.drop_last()) + if blob.kind_at(cells.last()) == Kind::Air {
            1int
        } else {
            0int
        }
    }
}

/// Where no cube turns into air, the number of cubes that hold air does
/// not grow; it falls where one of the cubes is no longer air.
pub proof fn lemma_air_in(before: Blob, after: Blob, cells: Seq<Cell>)
    requires
        forall|i: int|
            0 <= i < cells.len() ==> (after.kind_at(#[trigger] cells[i]) == Kind::Air
                ==> before.kind_at(cells[i]) == Kind::Air),
    ensures
        0 <= air_in(after, cells) <= air_in(before, cells) <= cells.len(),
        (exists|i: int|
            0 <= i < cells.len() && before.kind_at(#[trigger] cells[i]) == Kind::Air
                && after.kind_at(cells[i]) != Kind::Air) ==> air_in(after, cells) < air_in(
            before,
            cells,
        ),
    decreases cells.len(),
{
    if cells.len() > 0 {
        let rest = cells.drop_last();
        assert forall|i: int| 0 <= i < rest.len() implies (after.kind_at(#[trigger] rest[i])
            == Kind::Air ==> before.kind_at(rest[i]) == Kind::Air) by {
            assert(rest[i] == cells[i]);
        }
        lemma_air_in(before, after, rest);
        assert(after.kind_at(cells[cells.len() - 1]) == Kind::Air ==> before.kind_at(
            cells[cells.len() - 1],
        ) == Kind::Air);
        if exists|i: int|
            0 <= i < cells.len() && before.kind_at(#[trigger] cells[i]) == Kind::Air
                && after.kind_at(cells[i]) != Kind::Air {
            let i = choose|i: int|
                0 <= i < cells.len() && before.kind_at(#[trigger] cells[i]) == Kind::Air
                    && after.kind_at(cells[i]) != Kind::Air;
            if i < rest.len() {
                assert(rest[i] == cells[i]);
            }
        }
    }
}

/// Going to a side and back to the opposite side leads back.
pub proof fn lemma_opposite(c: Cell, side: int)
    requires
        0 <= side < 6,
    ensures
        beside(beside(c, side), opposite(side)) == c,
        0 <= opposite(side) < 6,
{
}

/// Whether `faces` is the area of the surface that air reaches from
/// outside the box: the rocks on the faces of the box, and for every cube
/// that air reaches the sides on which rock lies.
pub open spec fn is_outer_surface(blob: Blob, points: Seq<Point>, faces: int) -> bool {
    exists|marked: Seq<Cell>|
        #![auto]
        marked.no_duplicates() && (forall|c: Cell|
            marked.contains(c) <==> blob.leaky(points, c)) && faces == rocks_in(
            points,
            blob.edges(),
        ) + rocks_beside(points, marked)
}

/// Whether the cube is among the cubes that wait.
pub open spec fn waits(pending: Seq<Point>, c: Cell) -> bool {
    exists|i: int| 0 <= i < pending.len() && (#[trigger] pending[i])@ == c
}

/// What the flood has found is consistent: the rocks are the given cubes,
/// the cubes marked as outside are those of `marked`, and air reaches each
/// of them and each cube that waits.
pub open spec fn flooding(
    frame: Blob,
    blob: Blob,
    points: Seq<Point>,
    marked: Seq<Cell>,
    pending: Seq<Point>,
) -> bool {
    &&& blob.wf()
    &&& blob.ranges == frame.ranges
    &&& blob.shows(points)
    &&& marked.no_duplicates()
    &&& forall|c: Cell|
        frame.holds(c) ==> (#[trigger] blob.kind_at(c) == Kind::Outside) == marked.contains(c)
    &&& forall|i: int| 0 <= i < marked.len() ==> frame.leaky(points, #[trigger] marked[i])
    &&& forall|i: int| 0 <= i < pending.len() ==> frame.leaky(points, (#[trigger] pending[i])@)
}

/// Every cube of air on a face of the box waits.
pub open spec fn faces_wait(frame: Blob, blob: Blob, pending: Seq<Point>) -> bool {
    forall|c: Cell|
        frame.on_face(c) && #[trigger] blob.kind_at(c) == Kind::Air ==> waits(pending, c)
}

/// Every cube of air beside a cube of `marked` waits.
pub open spec fn neighbours_wait(frame: Blob, blob: Blob, marked: Seq<Cell>, pending: Seq<Point>) -> bool {
    forall|c: Cell, side: int|
        0 <= side < 6 && frame.holds(c) && blob.kind_at(c) == Kind::Air && marked.contains(
            #[trigger] beside(c, side),
        ) ==> waits(pending, c)
}

/// Air that reaches a cube in some steps came from the cube itself or from
/// a cube beside it in one step less.
pub proof fn lemma_seeps_from(frame: Blob, points: Seq<Point>, c: Cell, n: nat)
    requires
        n > 0,
        frame.seeps(points, c, n),
    ensures
        frame.free(points, c),
        frame.seeps(points, c, (n - 1) as nat) || exists|side: int|
            0 <= side < 6 && frame.seeps(points, #[trigger] beside(c, side), (n - 1) as nat),
{
}

/// Air that reaches a cube reaches the free cubes beside it in one step
/// more.
pub proof fn lemma_seeps_on(frame: Blob, points: Seq<Point>, c: Cell, side: int, n: nat)
    requires
        0 <= side < 6,
        frame.free(points, c),
        frame.seeps(points, beside(c, side), n),
    ensures
        frame.seeps(points, c, n + 1),
{
    assert(frame.seeps(points, beside(c, side), ((n + 1) - 1) as nat));
}

/// When nothing waits any more, every cube that air reaches is marked.
pub proof fn lemma_flooded(
    frame: Blob,
    blob: Blob,
    points: Seq<Point>,
    marked: Seq<Cell>,
    c: Cell,
    n: nat,
)
    requires
        flooding(frame, blob, points, marked, Seq::empty()),
        faces_wait(frame, blob, Seq::empty()),
        neighbours_wait(frame, blob, marked, Seq::empty()),
        frame.seeps(points, c, n),
    ensures
        marked.contains(c),
    decreases n,
{
    let none = Seq::<Point>::empty();
    if n > 0 {
        lemma_seeps_from(frame, points, c, n);
    }
    assert(frame.holds(c) && !is_rock(points, c));
    assert(blob.holds(c));
    assert((blob.kind_at(c) == Kind::Rock) == is_rock(points, c));
    if n == 0 {
        if blob.kind_at(c) == Kind::Air {
            assert(waits(none, c));
        }
    } else if frame.seeps(points, c, (n - 1) as nat) {
        lemma_flooded(frame, blob, points, marked, c, (n - 1) as nat);
    } else {
        lemma_seeps_from(frame, points, c, n);
        let side = choose|side: int|
            0 <= side < 6 && frame.seeps(points, #[trigger] beside(c, side), (n - 1) as nat);
        lemma_flooded(frame, blob, points, marked, beside(c, side), (n - 1) as nat);
        if blob.kind_at(c) == Kind::Air {
            assert(marked.contains(beside(c, side)));
            assert(waits(none, c));
        }
    }
}

/// One more cube adds its sides to the sum.
pub proof fn lemma_rocks_beside_push(points: Seq<Point>, cells: Seq<Cell>, c: Cell)
    ensures
        rocks_beside(points, cells.push(c)) == rocks_beside(points, cells) + near(points, c),
{
    assert(cells.push(c).drop_last() =~= cells);
}

/// The area of the surface that air reaches from outside the least box
/// round the cubes.
pub fn part2(input: &Vec<Point>) -> (faces: usize)
    requires
        input.len() > 0,
        input.len() * 6 <= usize::MAX,
        modest(input@),
        compact(input@),
    ensures
        exists|blob: Blob| #[trigger] blob.girds(input@) && is_outer_surface(blob, input@, faces as int),
{
    let ghost points = input@;
    let (mut blob, _) = fill(input);
    let ghost frame = blob;
    let mut exterior_faces: usize = 0;
    let mut pending: Vec<Point> = Vec::new();
    let edges = blob.get_box_edges();
    let ghost edge_cells = frame.edges();
    let ghost all = frame.all_cells();
    proof {
        let x0 = frame.ranges[0].start as int;
        let x1 = frame.ranges[0].end as int;
        let y0 = frame.ranges[1].start as int;
        let y1 = frame.ranges[1].end as int;
        let z0 = frame.ranges[2].start as int;
        let z1 = frame.ranges[2].end as int;
        lemma_cells_len(x0, x1, y0, y1, z0, z1);
        lemma_cells_len(x0, x0 + 1, y0, y1, z0, z1);
        lemma_cells_len(x1 - 1, x1, y0, y1, z0, z1);
        lemma_cells_len(x0, x1, y0, y0 + 1, z0, z1);
        lemma_cells_len(x0, x1, y1 - 1, y1, z0, z1);
        lemma_cells_len(x0, x1, y0, y1, z0, z0 + 1);
        lemma_cells_len(x0, x1, y0, y1, z1 - 1, z1);
        let nx = x1 - x0;
        let ny = y1 - y0;
        let nz = z1 - z0;
        assert(nx * (ny * nz) <= 256 * (256 * 256) && 1 * (ny * nz) <= 256 * 256 && nx * (1 * nz)
            <= 256 * 256 && nx * (ny * 1) <= 256 * 256) by (nonlinear_arith)
            requires
                0 < nx <= 256,
                0 < ny <= 256,
                0 < nz <= 256,
        ;
        assert(edge_cells.len() <= 6 * (256 * 256));
        assert(edge_cells.take(0) =~= Seq::<Cell>::empty());
    }
    let mut e: usize = 0;
    while e < edges.len()
        invariant
            e <= edges.len(),
            cells_of(edges@) == edge_cells,
            edge_cells == frame.edges(),
            edge_cells.len() <= 6 * (256 * 256),
            frame.wf(),
            blob.wf(),
            blob.ranges == frame.ranges,
            blob.shows(points),
            forall|c: Cell| blob.holds(c) ==> #[trigger] blob.kind_at(c) != Kind::Outside,
            exterior_faces == rocks_in(points, edge_cells.take(e as int)),
            exterior_faces <= e,
            forall|i: int|
                0 <= i < pending.len() ==> frame.on_face((#[trigger] pending[i])@) && frame.free(
                    points,
                    pending[i]@,
                ),
            forall|j: int|
                0 <= j < e && blob.kind_at(#[trigger] edge_cells[j]) == Kind::Air ==> waits(
                    pending@,
                    edge_cells[j],
                ),
        decreases edges.len() - e,
    {
        let pt = edges[e];
        let ghost waiting = pending@;
        proof {
            assert(edge_cells[e as int] == pt@);
            assert(edge_cells.take(e as int + 1).drop_last() =~= edge_cells.take(e as int));
            assert(edge_cells.take(e as int + 1).last() == pt@);
            assert(edge_cells.contains(pt@));
            frame.lemma_edges(pt@);
            assert(blob.holds(pt@));
            assert((blob.kind_at(pt@) == Kind::Rock) == is_rock(points, pt@));
        }
        match blob.get(&pt) {
            Kind::Rock => {
                exterior_faces += 1;
            },
            Kind::Air => {
                pending.push(pt);
                assert(pending@[waiting.len() as int]@ == pt@);
            },
            Kind::Outside => {},
        }
        proof {
            assert forall|j: int|
                0 <= j < e + 1 && blob.kind_at(#[trigger] edge_cells[j]) == Kind::Air implies waits(
                pending@,
                edge_cells[j],
            ) by {
                if j < e {
                    let i = choose|i: int|
                        0 <= i < waiting.len() && (#[trigger] waiting[i])@ == edge_cells[j];
                    assert(pending@[i]@ == edge_cells[j]);
                }
            }
        }
        e += 1;
    }
    let ghost marked: Seq<Cell> = Seq::empty();
    let ghost air_start = air_in(blob, all);
    proof {
        assert(edge_cells.take(e as int) =~= edge_cells);
        lemma_air_in(blob, blob, all);
        assert forall|i: int| 0 <= i < pending.len() implies frame.leaky(
            points,
            (#[trigger] pending[i])@,
        ) by {
            assert(frame.seeps(points, pending[i]@, 0));
        }
        assert(faces_wait(frame, blob, pending@)) by {
            assert forall|c: Cell|
                frame.on_face(c) && #[trigger] blob.kind_at(c) == Kind::Air implies waits(
                pending@,
                c,
            ) by {
                frame.lemma_edges(c);
                let j = choose|j: int| 0 <= j < edge_cells.len() && edge_cells[j] == c;
                assert(blob.kind_at(edge_cells[j]) == Kind::Air);
            }
        }
    }
    while pending.len() > 0
        invariant
            points == input@,
            frame.wf(),
            all == frame.all_cells(),
            flooding(frame, blob, points, marked, pending@),
            faces_wait(frame, blob, pending@),
            neighbours_wait(frame, blob, marked, pending@),
            forall|i: int| 0 <= i < points.len() ==> frame.holds((#[trigger] points[i])@),
            exterior_faces == rocks_in(points, frame.edges()) + rocks_beside(points, marked),
            rocks_in(points, frame.edges()) <= 6 * (256 * 256),
            all.len() <= 256 * (256 * 256),
            marked.len() + air_in(blob, all) <= air_start <= all.len(),
            exterior_faces <= rocks_in(points, frame.edges()) + 6 * marked.len(),
        decreases air_in(blob, all), pending.len(),
    {
        let ghost waiting = pending@;
        let ghost before = blob;
        let pt = pending.pop().unwrap();
        proof {
            assert(waiting[waiting.len() - 1] == pt);
            assert(frame.leaky(points, pt@));
            let n = choose|n: nat| #[trigger] frame.seeps(points, pt@, n);
            assert(frame.holds(pt@));
            lemma_air_in(before, before, all);
        }
        // If we've already looked here, just continue.
        if blob.get(&pt) != Kind::Air {
            proof {
                assert forall|c: Cell|
                    frame.on_face(c) && #[trigger] blob.kind_at(c) == Kind::Air implies waits(
                    pending@,
                    c,
                ) by {
                    let i = choose|i: int| 0 <= i < waiting.len() && (#[trigger] waiting[i])@ == c;
                    assert(pending@[i]@ == c);
                }
                assert forall|c: Cell, side: int|
                    0 <= side < 6 && frame.holds(c) && blob.kind_at(c) == Kind::Air
                        && marked.contains(#[trigger] beside(c, side)) implies waits(
                    pending@,
                    c,
                ) by {
                    assert(waits(waiting, c));
                    let i = choose|i: int| 0 <= i < waiting.len() && (#[trigger] waiting[i])@ == c;
                    assert(pending@[i]@ == c);
                }
            }
            continue ;
        }
        blob.set(&pt, Kind::Outside);
        let ghost marked_before = marked;
        proof {
            marked = marked_before.push(pt@);
            assert(!marked_before.contains(pt@));
            lemma_in_cells_x(
                frame.ranges[0].start as int,
                frame.ranges[0].end as int,
                frame.ranges[1].start as int,
                frame.ranges[1].end as int,
                frame.ranges[2].start as int,
                frame.ranges[2].end as int,
                pt@,
            );
            let at = choose|at: int| 0 <= at < all.len() && all[at] == pt@;
            assert forall|i: int| 0 <= i < all.len() implies (blob.kind_at(#[trigger] all[i])
                == Kind::Air ==> before.kind_at(all[i]) == Kind::Air) by {
                lemma_cells_x(
                    frame.ranges[0].start as int,
                    frame.ranges[0].end as int,
                    frame.ranges[1].start as int,
                    frame.ranges[1].end as int,
                    frame.ranges[2].start as int,
                    frame.ranges[2].end as int,
                    i,
                );
                if all[i] != pt@ {
                    assert(blob.kind_at(all[i]) == before.kind_at(all[i]));
                }
            }
            assert(before.kind_at(all[at]) == Kind::Air && blob.kind_at(all[at]) != Kind::Air);
            lemma_air_in(before, blob, all);
            lemma_rocks_beside_push(points, marked_before, pt@);
            assert(blob.shows(points)) by {
                assert forall|c: Cell| blob.holds(c) implies (#[trigger] blob.kind_at(c)
                    == Kind::Rock) == is_rock(points, c) by {
                    if c != pt@ {
                        assert(blob.kind_at(c) == before.kind_at(c));
                    }
                    assert((before.kind_at(c) == Kind::Rock) == is_rock(points, c));
                }
            }
            lemma_rocks_around(&blob, points, pt@);
            assert forall|c: Cell| frame.holds(c) implies (#[trigger] blob.kind_at(c)
                == Kind::Outside) == marked.contains(c) by {
                if c != pt@ {
                    assert(blob.kind_at(c) == before.kind_at(c));
                    assert((before.kind_at(c) == Kind::Outside) == marked_before.contains(c));
                    if marked_before.contains(c) {
                        let i = choose|i: int| 0 <= i < marked_before.len() && marked_before[i] == c;
                        assert(marked[i] == c);
                    }
                    if marked.contains(c) {
                        let i = choose|i: int| 0 <= i < marked.len() && marked[i] == c;
                        assert(marked_before[i] == c);
                    }
                } else {
                    assert(marked[marked.len() - 1] == c);
                }
            }
            assert forall|i: int| 0 <= i < marked.len() implies frame.leaky(
                points,
                #[trigger] marked[i],
            ) by {
                if i < marked_before.len() {
                    assert(marked[i] == marked_before[i]);
                }
            }
            assert forall|i: int| 0 <= i < pending.len() implies frame.leaky(
                points,
                (#[trigger] pending[i])@,
            ) by {
                assert(pending@[i] == waiting[i]);
            }
            assert forall|c: Cell|
                frame.on_face(c) && #[trigger] blob.kind_at(c) == Kind::Air implies waits(
                pending@,
                c,
            ) by {
                assert(before.kind_at(c) == Kind::Air);
                let i = choose|i: int| 0 <= i < waiting.len() && (#[trigger] waiting[i])@ == c;
                assert(pending@[i]@ == c);
            }
            assert forall|c: Cell, side: int|
                0 <= side < 6 && frame.holds(c) && blob.kind_at(c) == Kind::Air
                    && marked_before.contains(#[trigger] beside(c, side)) implies waits(
                pending@,
                c,
            ) by {
                assert(before.kind_at(c) == Kind::Air);
                assert(waits(waiting, c));
                let i = choose|i: int| 0 <= i < waiting.len() && (#[trigger] waiting[i])@ == c;
                assert(pending@[i]@ == c);
            }
        }
        let ghost base = exterior_faces as int;
        let deltas: [(Coordinate, Coordinate, Coordinate); 6] = [
            (1, 0, 0),
            (-1, 0, 0),
            (0, 1, 0),
            (0, -1, 0),
            (0, 0, 1),
            (0, 0, -1),
        ];
        let mut side: usize = 0;
        while side < 6
            invariant
                side <= 6,
                frame.wf(),
                frame.holds(pt@),
                flooding(frame, blob, points, marked, pending@),
                faces_wait(frame, blob, pending@),
                neighbours_wait(frame, blob, marked_before, pending@),
                marked == marked_before.push(pt@),
                forall|t: int|
                    0 <= t < side && frame.holds(#[trigger] beside(pt@, t)) && blob.kind_at(
                        beside(pt@, t),
                    ) == Kind::Air ==> waits(pending@, beside(pt@, t)),
                deltas[0] == (1i32, 0i32, 0i32),
                deltas[1] == (-1i32, 0i32, 0i32),
                deltas[2] == (0i32, 1i32, 0i32),
                deltas[3] == (0i32, -1i32, 0i32),
                deltas[4] == (0i32, 0i32, 1i32),
                deltas[5] == (0i32, 0i32, -1i32),
                base <= rocks_in(points, frame.edges()) + 6 * marked_before.len(),
                rocks_in(points, frame.edges()) <= 6 * (256 * 256),
                marked_before.len() < 256 * (256 * 256),
                exterior_faces == base + (if side > 0 {
                    blob.rock_beside(pt@, 0)
                } else {
                    0
                }) + (if side > 1 {
                    blob.rock_beside(pt@, 1)
                } else {
                    0
                }) + (if side > 2 {
                    blob.rock_beside(pt@, 2)
                } else {
                    0
                }) + (if side > 3 {
                    blob.rock_beside(pt@, 3)
                } else {
                    0
                }) + (if side > 4 {
                    blob.rock_beside(pt@, 4)
                } else {
                    0
                }) + (if side > 5 {
                    blob.rock_beside(pt@, 5)
                } else {
                    0
                }),
            decreases 6 - side,
        {
            let delta = deltas[side];
            let other = Point { x: pt.x + delta.0, y: pt.y + delta.1, z: pt.z + delta.2 };
            let ghost waiting_now = pending@;
            assert(other@ == beside(pt@, side as int));
            if blob.contains(&other) {
                match blob.get(&other) {
                    Kind::Rock => {
                        exterior_faces += 1;
                    },
                    Kind::Outside => {},
                    Kind::Air => {
                        pending.push(other);
                        proof {
                            assert(pending@[waiting_now.len() as int]@ == other@);
                            assert(frame.leaky(points, marked[marked.len() - 1]));
                            let n = choose|n: nat| #[trigger] frame.seeps(points, pt@, n);
                            lemma_opposite(pt@, side as int);
                            assert(frame.seeps(
                                points,
                                beside(other@, opposite(side as int)),
                                n,
                            ));
                            assert((blob.kind_at(other@) == Kind::Rock) == is_rock(points, other@));
                            lemma_seeps_on(frame, points, other@, opposite(side as int), n);
                            assert(frame.seeps(points, other@, n + 1));
                            assert forall|i: int| 0 <= i < pending.len() implies frame.leaky(
                                points,
                                (#[trigger] pending[i])@,
                            ) by {
                                if i < waiting_now.len() {
                                    assert(pending@[i] == waiting_now[i]);
                                }
                            }
                        }
                    },
                }
            }
            proof {
                assert forall|c: Cell| waits(waiting_now, c) implies waits(pending@, c) by {
                    let i = choose|i: int|
                        0 <= i < waiting_now.len() && (#[trigger] waiting_now[i])@ == c;
                    assert(pending@[i]@ == c);
                }
                assert forall|c: Cell|
                    frame.on_face(c) && #[trigger] blob.kind_at(c) == Kind::Air implies waits(
                    pending@,
                    c,
                ) by {
                    assert(waits(waiting_now, c));
                }
                assert forall|c: Cell, t: int|
                    0 <= t < 6 && frame.holds(c) && blob.kind_at(c) == Kind::Air
                        && marked_before.contains(#[trigger] beside(c, t)) implies waits(
                    pending@,
                    c,
                ) by {
                    assert(waits(waiting_now, c));
                }
                assert forall|t: int|
                    0 <= t < side + 1 && frame.holds(#[trigger] beside(pt@, t)) && blob.kind_at(
                        beside(pt@, t),
                    ) == Kind::Air implies waits(pending@, beside(pt@, t)) by {
                    if t < side {
                        assert(waits(waiting_now, beside(pt@, t)));
                    }
                }
            }
            side += 1;
        }
        proof {
            assert forall|c: Cell, t: int|
                0 <= t < 6 && frame.holds(c) && blob.kind_at(c) == Kind::Air && marked.contains(
                    #[trigger] beside(c, t),
                ) implies waits(pending@, c) by {
                let d = beside(c, t);
                let i = choose|i: int| 0 <= i < marked.len() && marked[i] == d;
                if i < marked_before.len() {
                    assert(marked_before[i] == d);
                    assert(marked_before.contains(beside(c, t)));
                } else {
                    lemma_opposite(c, t);
                    assert(beside(pt@, opposite(t)) == c);
                }
            }
        }
    }
    proof {
        assert(pending@ =~= Seq::<Point>::empty());
        assert forall|c: Cell| marked.contains(c) <==> frame.leaky(points, c) by {
            if marked.contains(c) {
                let i = choose|i: int| 0 <= i < marked.len() && marked[i] == c;
                assert(frame.leaky(points, marked[i]));
            }
            if frame.leaky(points, c) {
                let n = choose|n: nat| #[trigger] frame.seeps(points, c, n);
                lemma_flooded(frame, blob, points, marked, c, n);
            }
        }
        assert(is_outer_surface(frame, points, exterior_faces as int));
        assert(frame.girds(input@));
    }
    exterior_faces
}

} // verus!
