//! A grid of trees: which trees can be seen from outside the grid, and how
//! far one sees from a tree.
use crate::text::{lines, lines_of, rows};
use vstd::prelude::*;
use vstd::string::StringSliceAdditionalSpecFns;

verus! {

/// The heights of the trees, row by row.
pub open spec fn heights(input: Seq<Vec<i8>>) -> Seq<Seq<int>> {
    input.map_values(|r: Vec<i8>| r@.map_values(|h: i8| h as int))
}

/// The flags of a table, row by row.
pub open spec fn flags(table: Seq<Vec<bool>>) -> Seq<Seq<bool>> {
    table.map_values(|r: Vec<bool>| r@)
}

/// Whether the grid is a rectangle with at least one tree, of heights that
/// are not negative.
pub open spec fn is_grid(g: Seq<Seq<int>>) -> bool {
    &&& g.len() >= 1
    &&& g[0].len() >= 1
    &&& forall|y: int| 0 <= y < g.len() ==> (#[trigger] g[y]).len() == g[0].len()
    &&& forall|y: int, x: int| 0 <= y < g.len() && 0 <= x < g[0].len() ==> 0 <= #[trigger] g[y][x]
}

/// Whether every tree above is lower.
pub open spec fn clear_up(g: Seq<Seq<int>>, y: int, x: int) -> bool {
    forall|k: int| 0 <= k < y ==> (#[trigger] g[k])[x] < g[y][x]
}

/// Whether every tree below is lower.
pub open spec fn clear_down(g: Seq<Seq<int>>, y: int, x: int) -> bool {
    forall|k: int| y < k < g.len() ==> (#[trigger] g[k])[x] < g[y][x]
}

/// Whether every tree to the left is lower.
pub open spec fn clear_left(g: Seq<Seq<int>>, y: int, x: int) -> bool {
    forall|k: int| 0 <= k < x ==> #[trigger] g[y][k] < g[y][x]
}

/// Whether every tree to the right is lower.
pub open spec fn clear_right(g: Seq<Seq<int>>, y: int, x: int) -> bool {
    forall|k: int| x < k < g[0].len() ==> #[trigger] g[y][k] < g[y][x]
}

/// Whether the tree can be seen from outside the grid: along its row or its
/// column, all trees between it and one of the edges are lower.
pub open spec fn visible(g: Seq<Seq<int>>, y: int, x: int) -> bool {
    clear_up(g, y, x) || clear_down(g, y, x) || clear_left(g, y, x) || clear_right(g, y, x)
}

/// Whether a table has the shape of the grid.
pub open spec fn shaped(table: Seq<Seq<bool>>, g: Seq<Seq<int>>) -> bool {
    &&& table.len() == g.len()
    &&& forall|y: int| 0 <= y < g.len() ==> (#[trigger] table[y]).len() == g[0].len()
}

/// Marks the trees that can be seen from above.
pub fn mark_from_top(input: &Vec<Vec<i8>>, result: &mut Vec<Vec<bool>>)
    requires
        is_grid(heights(input@)),
        shaped(flags(old(result)@), heights(input@)),
    ensures
        shaped(flags(final(result)@), heights(input@)),
        forall|y: int, x: int|
            0 <= y < input.len() && 0 <= x < input[0].len() ==> (#[trigger] flags(
                final(result)@,
            )[y][x]) == (flags(old(result)@)[y][x] || clear_up(heights(input@), y, x)),
{
    let ghost g = heights(input@);
    let ghost start = flags(result@);
    let height = input.len();
    let width = input[0].len();
    assert(g[0] == input[0]@.map_values(|h: i8| h as int));
    let mut x: usize = 0;
    while x < width
        invariant
            x <= width,
            g == heights(input@),
            is_grid(g),
            height == g.len(),
            width == g[0].len(),
            shaped(start, g),
            shaped(flags(result@), g),
            forall|y: int, c: int|
                0 <= y < height && 0 <= c < width ==> (#[trigger] flags(result@)[y][c]) == (
                start[y][c] || (c < x && clear_up(g, y, c))),
        decreases width - x,
    {
        let mut max: i8 = -1;
        let mut y: usize = 0;
        let ghost column_start = flags(result@);
        while y < height
            invariant
                y <= height,
                x < width,
                g == heights(input@),
                is_grid(g),
                height == g.len(),
                width == g[0].len(),
                shaped(flags(result@), g),
                shaped(column_start, g),
                -1 <= max,
                forall|k: int| 0 <= k < y ==> (#[trigger] g[k])[x as int] <= max,
                y > 0 ==> exists|k: int| 0 <= k < y && (#[trigger] g[k])[x as int] == max,
                y == 0 ==> max == -1,
                forall|r: int, c: int|
                    0 <= r < height && 0 <= c < width ==> (#[trigger] flags(result@)[r][c]) == (
                    column_start[r][c] || (c == x && r < y && clear_up(g, r, c))),
            decreases height - y,
        {
            
            proof {
                assert(g[y as int] == input[y as int]@.map_values(|h: i8| h as int));
                assert(g[y as int].len() == width);
                assert(flags(result@)[y as int].len() == width);
                assert(0 <= g[y as int][x as int]);
            }
            let here = input[y][x];
            let ghost before = flags(result@);
            if here > max {
                max = here;
                result[y][x] = true;
                proof {
                    assert(clear_up(g, y as int, x as int));
                    assert forall|r: int| 0 <= r < height implies (#[trigger] flags(
                        result@,
                    )[r]).len() == width by {
                        assert(before[r].len() == width);
                    }
                    assert forall|r: int, c: int| 0 <= r < height && 0 <= c < width implies (
                    #[trigger] flags(result@)[r][c]) == (column_start[r][c] || (c == x
                        && r < y + 1 && clear_up(g, r, c))) by {
                        assert(before[r].len() == width);
                        if r != y {
                            assert(flags(result@)[r][c] == before[r][c]);
                        } else if c != x {
                            assert(flags(result@)[r][c] == before[r][c]);
                        }
                    }
                }
            } else {
                proof {
                    let k = choose|k: int| 0 <= k < y && (#[trigger] g[k])[x as int] == max;
                    assert(!(g[k][x as int] < g[y as int][x as int]));
                    assert(!clear_up(g, y as int, x as int));
                }
            }
            y += 1;
        }
        x += 1;
    }
}

/// Marks the trees that can be seen from below.
pub fn mark_from_bottom(input: &Vec<Vec<i8>>, result: &mut Vec<Vec<bool>>)
    requires
        is_grid(heights(input@)),
        shaped(flags(old(result)@), heights(input@)),
    ensures
        shaped(flags(final(result)@), heights(input@)),
        forall|y: int, x: int|
            0 <= y < input.len() && 0 <= x < input[0].len() ==> (#[trigger] flags(
                final(result)@,
            )[y][x]) == (flags(old(result)@)[y][x] || clear_down(heights(input@), y, x)),
{
    let ghost g = heights(input@);
    let ghost start = flags(result@);
    let height = input.len();
    let width = input[0].len();
    assert(g[0] == input[0]@.map_values(|h: i8| h as int));
    let mut x: usize = 0;
    while x < width
        invariant
            x <= width,
            g == heights(input@),
            is_grid(g),
            height == g.len(),
            width == g[0].len(),
            shaped(start, g),
            shaped(flags(result@), g),
            forall|y: int, c: int|
                0 <= y < height && 0 <= c < width ==> (#[trigger] flags(result@)[y][c]) == (
                start[y][c] || (c < x && clear_down(g, y, c))),
        decreases width - x,
    {
        let mut max: i8 = -1;
        let mut y: usize = height;
        let ghost column_start = flags(result@);
        while y > 0
            invariant
                y <= height,
                x < width,
                g == heights(input@),
                is_grid(g),
                height == g.len(),
                width == g[0].len(),
                shaped(flags(result@), g),
                shaped(column_start, g),
                -1 <= max,
                forall|k: int| y <= k < height ==> (#[trigger] g[k])[x as int] <= max,
                y < height ==> exists|k: int| y <= k < height && (#[trigger] g[k])[x as int] == max,
                y == height ==> max == -1,
                forall|r: int, c: int|
                    0 <= r < height && 0 <= c < width ==> (#[trigger] flags(result@)[r][c]) == (
                    column_start[r][c] || (c == x && r >= y && clear_down(g, r, c))),
            decreases y,
        {
            let ghost above = y;
            y -= 1;
            proof {
                assert(g[y as int] == input[y as int]@.map_values(|h: i8| h as int));
                assert(g[y as int].len() == width);
                assert(flags(result@)[y as int].len() == width);
                assert(0 <= g[y as int][x as int]);
            }
            let here = input[y][x];
            let ghost before = flags(result@);
            if here > max {
                max = here;
                result[y][x] = true;
                proof {
                    assert(clear_down(g, y as int, x as int));
                    assert forall|r: int| 0 <= r < height implies (#[trigger] flags(
                        result@,
                    )[r]).len() == width by {
                        assert(before[r].len() == width);
                    }
                    assert forall|r: int, c: int| 0 <= r < height && 0 <= c < width implies (
                    #[trigger] flags(result@)[r][c]) == (column_start[r][c] || (c == x
                        && r >= y && clear_down(g, r, c))) by {
                        assert(before[r].len() == width);
                        if r != y {
                            assert(flags(result@)[r][c] == before[r][c]);
                        } else if c != x {
                            assert(flags(result@)[r][c] == before[r][c]);
                        }
                    }
                }
            } else {
                proof {
                    let k = choose|k: int| above <= k < height && (#[trigger] g[k])[x as int] == max;
                    assert(!(g[k][x as int] < g[y as int][x as int]));
                    assert(!clear_down(g, y as int, x as int));
                }
            }
            
        }
        x += 1;
    }
}

/// Marks the trees that can be seen from the left.
pub fn mark_from_left(input: &Vec<Vec<i8>>, result: &mut Vec<Vec<bool>>)
    requires
        is_grid(heights(input@)),
        shaped(flags(old(result)@), heights(input@)),
    ensures
        shaped(flags(final(result)@), heights(input@)),
        forall|y: int, x: int|
            0 <= y < input.len() && 0 <= x < input[0].len() ==> (#[trigger] flags(
                final(result)@,
            )[y][x]) == (flags(old(result)@)[y][x] || clear_left(heights(input@), y, x)),
{
    let ghost g = heights(input@);
    let ghost start = flags(result@);
    let height = input.len();
    let width = input[0].len();
    assert(g[0] == input[0]@.map_values(|h: i8| h as int));
    let mut y: usize = 0;
    while y < height
        invariant
            y <= height,
            g == heights(input@),
            is_grid(g),
            height == g.len(),
            width == g[0].len(),
            shaped(start, g),
            shaped(flags(result@), g),
            forall|r: int, c: int|
                0 <= r < height && 0 <= c < width ==> (#[trigger] flags(result@)[r][c]) == (
                start[r][c] || (r < y && clear_left(g, r, c))),
        decreases height - y,
    {
        let mut max: i8 = -1;
        let mut x: usize = 0;
        let ghost row_start = flags(result@);
        proof {
            assert(g[y as int] == input[y as int]@.map_values(|h: i8| h as int));
            assert(g[y as int].len() == width);
        }
        while x < width
            invariant
                x <= width,
                y < height,
                g == heights(input@),
                is_grid(g),
                height == g.len(),
                width == g[0].len(),
                input[y as int].len() == width,
                g[y as int] == input[y as int]@.map_values(|h: i8| h as int),
                shaped(flags(result@), g),
                shaped(row_start, g),
                -1 <= max,
                forall|k: int| 0 <= k < x ==> #[trigger] g[y as int][k] <= max,
                x > 0 ==> exists|k: int| 0 <= k < x && #[trigger] g[y as int][k] == max,
                x == 0 ==> max == -1,
                forall|r: int, c: int|
                    0 <= r < height && 0 <= c < width ==> (#[trigger] flags(result@)[r][c]) == (
                    row_start[r][c] || (r == y && c < x && clear_left(g, r, c))),
            decreases width - x,
        {
            
            proof {
                assert(flags(result@)[y as int].len() == width);
                assert(0 <= g[y as int][x as int]);
            }
            let here = input[y][x];
            let ghost before = flags(result@);
            if here > max {
                max = here;
                result[y][x] = true;
                proof {
                    assert(clear_left(g, y as int, x as int));
                    assert forall|r: int| 0 <= r < height implies (#[trigger] flags(
                        result@,
                    )[r]).len() == width by {
                        assert(before[r].len() == width);
                    }
                    assert forall|r: int, c: int| 0 <= r < height && 0 <= c < width implies (
                    #[trigger] flags(result@)[r][c]) == (row_start[r][c] || (r == y
                        && c < x + 1 && clear_left(g, r, c))) by {
                        assert(before[r].len() == width);
                        if r != y {
                            assert(flags(result@)[r][c] == before[r][c]);
                        } else if c != x {
                            assert(flags(result@)[r][c] == before[r][c]);
                        }
                    }
                }
            } else {
                proof {
                    let k = choose|k: int| 0 <= k < x && #[trigger] g[y as int][k] == max;
                    assert(!(g[y as int][k] < g[y as int][x as int]));
                    assert(!clear_left(g, y as int, x as int));
                }
            }
            x += 1;
        }
        y += 1;
    }
}

/// Marks the trees that can be seen from the right.
pub fn mark_from_right(input: &Vec<Vec<i8>>, result: &mut Vec<Vec<bool>>)
    requires
        is_grid(heights(input@)),
        shaped(flags(old(result)@), heights(input@)),
    ensures
        shaped(flags(final(result)@), heights(input@)),
        forall|y: int, x: int|
            0 <= y < input.len() && 0 <= x < input[0].len() ==> (#[trigger] flags(
                final(result)@,
            )[y][x]) == (flags(old(result)@)[y][x] || clear_right(heights(input@), y, x)),
{
    let ghost g = heights(input@);
    let ghost start = flags(result@);
    let height = input.len();
    let width = input[0].len();
    assert(g[0] == input[0]@.map_values(|h: i8| h as int));
    let mut y: usize = 0;
    while y < height
        invariant
            y <= height,
            g == heights(input@),
            is_grid(g),
            height == g.len(),
            width == g[0].len(),
            shaped(start, g),
            shaped(flags(result@), g),
            forall|r: int, c: int|
                0 <= r < height && 0 <= c < width ==> (#[trigger] flags(result@)[r][c]) == (
                start[r][c] || (r < y && clear_right(g, r, c))),
        decreases height - y,
    {
        let mut max: i8 = -1;
        let mut x: usize = width;
        let ghost row_start = flags(result@);
        proof {
            assert(g[y as int] == input[y as int]@.map_values(|h: i8| h as int));
            assert(g[y as int].len() == width);
        }
        while x > 0
            invariant
                x <= width,
                y < height,
                g == heights(input@),
                is_grid(g),
                height == g.len(),
                width == g[0].len(),
                input[y as int].len() == width,
                g[y as int] == input[y as int]@.map_values(|h: i8| h as int),
                shaped(flags(result@), g),
                shaped(row_start, g),
                -1 <= max,
                forall|k: int| x <= k < width ==> #[trigger] g[y as int][k] <= max,
                x < width ==> exists|k: int| x <= k < width && #[trigger] g[y as int][k] == max,
                x == width ==> max == -1,
                forall|r: int, c: int|
                    0 <= r < height && 0 <= c < width ==> (#[trigger] flags(result@)[r][c]) == (
                    row_start[r][c] || (r == y && c >= x && clear_right(g, r, c))),
            decreases x,
        {
            let ghost beyond = x;
            x -= 1;
            proof {
                assert(flags(result@)[y as int].len() == width);
                assert(0 <= g[y as int][x as int]);
            }
            let here = input[y][x];
            let ghost before = flags(result@);
            if here > max {
                max = here;
                result[y][x] = true;
                proof {
                    assert(clear_right(g, y as int, x as int));
                    assert forall|r: int| 0 <= r < height implies (#[trigger] flags(
                        result@,
                    )[r]).len() == width by {
                        assert(before[r].len() == width);
                    }
                    assert forall|r: int, c: int| 0 <= r < height && 0 <= c < width implies (
                    #[trigger] flags(result@)[r][c]) == (row_start[r][c] || (r == y
                        && c >= x && clear_right(g, r, c))) by {
                        assert(before[r].len() == width);
                        if r != y {
                            assert(flags(result@)[r][c] == before[r][c]);
                        } else if c != x {
                            assert(flags(result@)[r][c] == before[r][c]);
                        }
                    }
                }
            } else {
                proof {
                    let k = choose|k: int| beyond <= k < width && #[trigger] g[y as int][k] == max;
                    assert(!(g[y as int][k] < g[y as int][x as int]));
                    assert(!clear_right(g, y as int, x as int));
                }
            }
            
        }
        y += 1;
    }
}

/// The height that a character writes: its place after `0`.
pub open spec fn height_of(b: u8) -> int {
    b - 48
}

/// Whether every character of the text is ASCII.
pub open spec fn well_formed(text: Seq<u8>) -> bool {
    forall|y: int, x: int|
        0 <= y < lines_of(text).len() && 0 <= x < lines_of(text)[y].len() ==> (
        #[trigger] lines_of(text)[y][x]) < 128
}

/// The heights that the lines of a text write.
pub open spec fn heights_in(text: Seq<u8>) -> Seq<Seq<int>> {
    lines_of(text).map_values(|l: Seq<u8>| l.map_values(|b: u8| height_of(b)))
}

/// Reads the grid, a row of heights from each line; `None` where a character
/// is not ASCII.
pub fn parse(input: &str) -> (r: Option<Vec<Vec<i8>>>)
    ensures
        r.is_some() == well_formed(input.spec_bytes()),
        r matches Some(grid) ==> heights(grid@) == heights_in(input.spec_bytes()),
{
    let all = lines(input.as_bytes());
    let ghost ls = lines_of(input.spec_bytes());
    let mut grid: Vec<Vec<i8>> = Vec::new();
    let mut y: usize = 0;
    assert(heights(grid@) =~= heights_in(input.spec_bytes()).take(0));
    while y < all.len()
        invariant
            y <= all.len(),
            rows(all@) == ls,
            ls == lines_of(input.spec_bytes()),
            forall|r: int, c: int| 0 <= r < y && 0 <= c < ls[r].len() ==> (#[trigger] ls[r][c]) < 128,
            heights(grid@) == heights_in(input.spec_bytes()).take(y as int),
        decreases all.len() - y,
    {
        let line = &all[y];
        assert(rows(all@)[y as int] == line@);
        let mut row: Vec<i8> = Vec::new();
        let mut x: usize = 0;
        while x < line.len()
            invariant
                x <= line.len(),
                line@ == ls[y as int],
                y < ls.len(),
                ls == lines_of(input.spec_bytes()),
                forall|c: int| 0 <= c < x ==> (#[trigger] line@[c]) < 128,
                row@.map_values(|h: i8| h as int) == line@.take(x as int).map_values(
                    |b: u8| height_of(b),
                ),
            decreases line.len() - x,
        {
            let b = line[x];
            if b >= 128 {
                assert(!(lines_of(input.spec_bytes())[y as int][x as int] < 128));
                return None;
            }
            let ghost before = row@.map_values(|h: i8| h as int);
            row.push(b as i8 - 48);
            assert(row@.map_values(|h: i8| h as int) =~= before.push(height_of(b)));
            assert(line@.take(x as int + 1).map_values(|b: u8| height_of(b)) =~= before.push(
                height_of(b),
            ));
            x += 1;
        }
        assert(line@.take(x as int) =~= line@);
        let ghost before = heights(grid@);
        let ghost added = row@.map_values(|h: i8| h as int);
        grid.push(row);
        assert(heights(grid@) =~= before.push(added));
        assert(heights(grid@) =~= heights_in(input.spec_bytes()).take(y as int + 1));
        y += 1;
    }
    assert(heights_in(input.spec_bytes()).take(y as int) =~= heights_in(input.spec_bytes()));
    Some(grid)
}

/// The grid that the text writes.
pub fn generator(input: &str) -> (grid: Vec<Vec<i8>>)
    requires
        well_formed(input.spec_bytes()),
    ensures
        heights(grid@) == heights_in(input.spec_bytes()),
{
    parse(input).unwrap()
}

/// For each tree, whether it can be seen from outside the grid.
pub open spec fn visibility(g: Seq<Seq<int>>) -> Seq<Seq<bool>> {
    Seq::new(g.len(), |y: int| Seq::new(g[0].len(), |x: int| visible(g, y, x)))
}

/// A row of `width` flags that are not set.
pub fn blank_row(width: usize) -> (row: Vec<bool>)
    ensures
        row.len() == width,
        forall|x: int| 0 <= x < width ==> !(#[trigger] row[x]),
{
    let mut row: Vec<bool> = Vec::new();
    let mut x: usize = 0;
    while x < width
        invariant
            x <= width,
            row.len() == x,
            forall|c: int| 0 <= c < x ==> !(#[trigger] row[c]),
        decreases width - x,
    {
        row.push(false);
        x += 1;
    }
    row
}

/// For each tree, whether it can be seen from outside the grid.
pub fn is_visible(input: &Vec<Vec<i8>>) -> (result: Vec<Vec<bool>>)
    requires
        is_grid(heights(input@)),
    ensures
        flags(result@) == visibility(heights(input@)),
{
    let ghost g = heights(input@);
    let height = input.len();
    assert(g[0] == input[0]@.map_values(|h: i8| h as int));
    let width = input[0].len();
    let mut result: Vec<Vec<bool>> = Vec::new();
    let mut y: usize = 0;
    while y < height
        invariant
            y <= height,
            result.len() == y,
            forall|r: int| 0 <= r < y ==> (#[trigger] result[r]).len() == width,
            forall|r: int, c: int| 0 <= r < y && 0 <= c < width ==> !(#[trigger] result[r][c]),
        decreases height - y,
    {
        result.push(blank_row(width));
        y += 1;
    }
    proof {
        assert forall|r: int| 0 <= r < g.len() implies (#[trigger] flags(result@)[r]).len()
            == g[0].len() by {
            assert(flags(result@)[r] == result[r]@);
        }
    }
    let ghost blank = flags(result@);
    assert forall|r: int, c: int| 0 <= r < height && 0 <= c < width implies !(
    #[trigger] blank[r][c]) by {
        assert(blank[r] == result[r]@);
    }
    mark_from_top(input, &mut result);
    let ghost one = flags(result@);
    mark_from_bottom(input, &mut result);
    let ghost two = flags(result@);
    mark_from_left(input, &mut result);
    let ghost three = flags(result@);
    mark_from_right(input, &mut result);
    proof {
        let four = flags(result@);
        let goal = visibility(g);
        assert(four.len() == goal.len());
        assert forall|r: int| 0 <= r < goal.len() implies four[r] == goal[r] by {
            assert(four[r].len() == width);
            assert forall|c: int| 0 <= c < width implies four[r][c] == goal[r][c] by {
                assert(!blank[r][c]);
                assert(one[r][c] == (blank[r][c] || clear_up(g, r, c)));
                assert(two[r][c] == (one[r][c] || clear_down(g, r, c)));
                assert(three[r][c] == (two[r][c] || clear_left(g, r, c)));
                assert(four[r][c] == (three[r][c] || clear_right(g, r, c)));
            }
            assert(four[r] =~= goal[r]);
        }
        assert(four =~= goal);
    }
    result
}

/// The number of flags that are set in a row.
pub open spec fn count_row(row: Seq<bool>) -> int
    decreases row.len(),
{
    if row.len() == 0 {
        0
    } else {
        count_row(row.drop_last()) + if row.last() {
            1int
        } else {
            0int
        }
    }
}

/// The number of flags that are set in a table.
pub open spec fn count_set(table: Seq<Seq<bool>>) -> int
    decreases table.len(),
{
    if table.len() == 0 {
        0
    } else {
        count_set(table.drop_last()) + count_row(table.last())
    }
}

/// The number of flags of a table.
pub open spec fn cells(table: Seq<Seq<bool>>) -> int
    decreases table.len(),
{
    if table.len() == 0 {
        0
    } else {
        cells(table.drop_last()) + table.last().len()
    }
}

/// The number of trees that can be seen from outside the grid.
pub fn part1(input: &Vec<Vec<i8>>) -> (count: usize)
    requires
        is_grid(heights(input@)),
        cells(visibility(heights(input@))) <= usize::MAX,
    ensures
        count == count_set(visibility(heights(input@))),
{
    let table = is_visible(input);
    let ghost t = flags(table@);
    let mut count: usize = 0;
    let mut y: usize = 0;
    assert(t.take(0) =~= Seq::<Seq<bool>>::empty());
    while y < table.len()
        invariant
            y <= table.len(),
            t == flags(table@),
            cells(t) <= usize::MAX,
            count == count_set(t.take(y as int)),
            count <= cells(t.take(y as int)),
        decreases table.len() - y,
    {
        let row = &table[y];
        proof {
            assert(t.take(y as int + 1).drop_last() =~= t.take(y as int));
            assert(t.take(y as int + 1).last() == row@);
            lemma_cells_prefix(t, y as int + 1);
            assert(row@.take(0) =~= Seq::<bool>::empty());
        }
        let ghost base = count;
        let mut x: usize = 0;
        while x < row.len()
            invariant
                x <= row.len(),
                count == base + count_row(row@.take(x as int)),
                0 <= count_row(row@.take(x as int)) <= x,
                base + row.len() <= usize::MAX,
            decreases row.len() - x,
        {
            proof {
                assert(row@.take(x as int + 1).drop_last() =~= row@.take(x as int));
                assert(row@.take(x as int + 1).last() == row@[x as int]);
            }
            if row[x] {
                count = count + 1;
            }
            x += 1;
        }
        assert(row@.take(x as int) =~= row@);
        y += 1;
    }
    assert(t.take(y as int) =~= t);
    count
}

proof fn lemma_cells_prefix(t: Seq<Seq<bool>>, n: int)
    requires
        0 <= n <= t.len(),
    ensures
        0 <= cells(t.take(n)) <= cells(t),
    decreases t.len() - n,
{
    if n < t.len() {
        lemma_cells_prefix(t, n + 1);
        assert(t.take(n + 1).drop_last() =~= t.take(n));
    } else {
        assert(t.take(n) =~= t);
    }
    lemma_cells_nonneg(t.take(n));
}

proof fn lemma_cells_nonneg(t: Seq<Seq<bool>>)
    ensures
        0 <= cells(t),
    decreases t.len(),
{
    if t.len() > 0 {
        lemma_cells_nonneg(t.drop_last());
    }
}

#[derive(Clone, Copy, Debug, PartialEq, Eq, Structural)]
pub enum Direction {
    North,
    East,
    South,
    West,
}

/// A place on the grid or next to it.
pub struct Position {
    pub x: i32,
    pub y: i32,
}

/// The trees that one looks at from a tree in a direction, the nearest
/// first.
pub open spec fn line_of(g: Seq<Seq<int>>, y: int, x: int, dir: Direction) -> Seq<int> {
    match dir {
        Direction::North => Seq::new(y as nat, |i: int| g[y - 1 - i][x]),
        Direction::East => Seq::new((g[0].len() - 1 - x) as nat, |i: int| g[y][x + 1 + i]),
        Direction::South => Seq::new((g.len() - 1 - y) as nat, |i: int| g[y + 1 + i][x]),
        Direction::West => Seq::new(x as nat, |i: int| g[y][x - 1 - i]),
    }
}

/// The number of trees that one sees along a line from a tree of height
/// `h`: every tree up to the first that is as high, that one included.
pub open spec fn look(line: Seq<int>, h: int) -> int
    decreases line.len(),
{
    if line.len() == 0 {
        0
    } else if line[0] >= h {
        1
    } else {
        1 + look(line.skip(1), h)
    }
}

/// The number of trees that one sees from a tree in a direction.
pub open spec fn sight(g: Seq<Seq<int>>, y: int, x: int, dir: Direction) -> int {
    look(line_of(g, y, x, dir), g[y][x])
}

/// The scenic score of a tree: the product of what one sees in the four
/// directions.
pub open spec fn scenic(g: Seq<Seq<int>>, y: int, x: int) -> int {
    sight(g, y, x, Direction::North) * sight(g, y, x, Direction::East) * sight(
        g,
        y,
        x,
        Direction::South,
    ) * sight(g, y, x, Direction::West)
}

/// One sees no more trees than there are.
pub proof fn lemma_look(line: Seq<int>, h: int)
    ensures
        0 <= look(line, h) <= line.len(),
    decreases line.len(),
{
    if line.len() > 0 && line[0] < h {
        lemma_look(line.skip(1), h);
    }
}

impl Position {
    /// One step in a direction; north is towards smaller `y`.
    pub fn go(&mut self, dir: Direction)
        requires
            i32::MIN < old(self).x < i32::MAX,
            i32::MIN < old(self).y < i32::MAX,
        ensures
            final(self).x == old(self).x + match dir {
                Direction::East => 1int,
                Direction::West => -1int,
                _ => 0int,
            },
            final(self).y == old(self).y + match dir {
                Direction::South => 1int,
                Direction::North => -1int,
                _ => 0int,
            },
    {
        match dir {
            Direction::North => {
                self.y = self.y - 1;
            },
            Direction::East => {
                self.x = self.x + 1;
            },
            Direction::South => {
                self.y = self.y + 1;
            },
            Direction::West => {
                self.x = self.x - 1;
            },
        }
    }

    /// Whether the place is on a grid of the given size.
    pub fn in_bounds(&self, width: usize, height: usize) -> (inside: bool)
        requires
            width <= i32::MAX,
            height <= i32::MAX,
        ensures
            inside == (0 <= self.x < width && 0 <= self.y < height),
    {
        self.x >= 0 && self.x < width as i32 && self.y >= 0 && self.y < height as i32
    }

    /// The height of the tree at the place.
    pub fn height(&self, input: &Vec<Vec<i8>>) -> (h: i8)
        requires
            0 <= self.y < input.len(),
            0 <= self.x < input[self.y as int].len(),
        ensures
            h == heights(input@)[self.y as int][self.x as int],
    {
        input[self.y as usize][self.x as usize]
    }
}

/// The number of trees that one sees from a tree in a direction.
pub fn look_out(
    input: &Vec<Vec<i8>>,
    x: usize,
    y: usize,
    dir: Direction,
    width: usize,
    height: usize,
) -> (trees: usize)
    requires
        is_grid(heights(input@)),
        height == input.len(),
        width == input[0].len(),
        x < width <= 255,
        y < height <= 255,
    ensures
        trees == sight(heights(input@), y as int, x as int, dir),
        trees <= 254,
{
    let ghost g = heights(input@);
    let ghost line = line_of(g, y as int, x as int, dir);
    proof {
        assert(g[0] == input[0]@.map_values(|h: i8| h as int));
        assert(g[y as int] == input[y as int]@.map_values(|h: i8| h as int));
        assert(g[y as int].len() == width);
        lemma_look(line, g[y as int][x as int]);
        assert(line.skip(0) =~= line);
    }
    let our_height = input[y][x];
    let mut posn = Position { x: x as i32, y: y as i32 };
    let mut trees: usize = 0;
    loop
        invariant_except_break
            trees + look(line.skip(trees as int), our_height as int) == look(
                line,
                our_height as int,
            ),
            posn.x == x + match dir {
                Direction::East => trees as int,
                Direction::West => -(trees as int),
                _ => 0int,
            },
            posn.y == y + match dir {
                Direction::South => trees as int,
                Direction::North => -(trees as int),
                _ => 0int,
            },
        invariant
            g == heights(input@),
            is_grid(g),
            height == g.len(),
            width == g[0].len(),
            x < width <= 255,
            y < height <= 255,
            line == line_of(g, y as int, x as int, dir),
            our_height == g[y as int][x as int],
            trees <= line.len() <= 254,
        ensures
            trees == look(line, our_height as int),
        decreases line.len() - trees,
    {
        posn.go(dir);
        if !posn.in_bounds(width, height) {
            proof {
                assert(line.len() == trees);
                assert(line.skip(trees as int).len() == 0);
            }
            break ;
        }
        proof {
            assert(trees < line.len());
            assert(g[posn.y as int] == input[posn.y as int]@.map_values(|h: i8| h as int));
            assert(g[posn.y as int].len() == width);
            let rest = line.skip(trees as int);
            assert(rest[0] == line[trees as int]);
            assert(line[trees as int] == g[posn.y as int][posn.x as int]);
            assert(rest.skip(1) =~= line.skip(trees as int + 1));
        }
        trees = trees + 1;
        if posn.height(input) >= our_height {
            break ;
        }
    }
    trees
}

/// The scenic score of a tree.
pub fn scenary(input: &Vec<Vec<i8>>, x: usize, y: usize, width: usize, height: usize) -> (score:
    usize)
    requires
        is_grid(heights(input@)),
        height == input.len(),
        width == input[0].len(),
        x < width <= 255,
        y < height <= 255,
    ensures
        score == scenic(heights(input@), y as int, x as int),
{
    let north = look_out(input, x, y, Direction::North, width, height);
    let east = look_out(input, x, y, Direction::East, width, height);
    let south = look_out(input, x, y, Direction::South, width, height);
    let west = look_out(input, x, y, Direction::West, width, height);
    assert(north * east <= 254 * 254) by (nonlinear_arith)
        requires
            north <= 254,
            east <= 254,
    ;
    assert(north * east * south <= 254 * 254 * 254) by (nonlinear_arith)
        requires
            north * east <= 254 * 254,
            south <= 254,
    ;
    assert(north * east * south * west <= 254 * 254 * 254 * 254) by (nonlinear_arith)
        requires
            north * east * south <= 254 * 254 * 254,
            west <= 254,
    ;
    north * east * south * west
}

/// Whether the tree is not on an edge of the grid.
pub open spec fn inner(g: Seq<Seq<int>>, y: int, x: int) -> bool {
    0 < y < g.len() - 1 && 0 < x < g[0].len() - 1
}

/// The largest scenic score of a tree that is not on an edge; 0 where every
/// tree is on an edge.
pub fn part2(input: &Vec<Vec<i8>>) -> (best: usize)
    requires
        is_grid(heights(input@)),
        input.len() <= 255,
        input[0].len() <= 255,
    ensures
        forall|y: int, x: int|
            inner(heights(input@), y, x) ==> scenic(heights(input@), y, x) <= best,
        best == 0 || exists|y: int, x: int|
            inner(heights(input@), y, x) && scenic(heights(input@), y, x) == best,
{
    let ghost g = heights(input@);
    let height = input.len();
    assert(g[0] == input[0]@.map_values(|h: i8| h as int));
    let width = input[0].len();
    let mut best: usize = 0;
    let mut y: usize = 1;
    while y + 1 < height
        invariant
            1 <= y <= 255,
            g == heights(input@),
            is_grid(g),
            height == g.len(),
            width == g[0].len(),
            width <= 255,
            height <= 255,
            forall|r: int, c: int| inner(g, r, c) && r < y ==> scenic(g, r, c) <= best,
            best == 0 || exists|r: int, c: int| inner(g, r, c) && scenic(g, r, c) == best,
        decreases height - y,
    {
        let mut x: usize = 1;
        while x + 1 < width
            invariant
                1 <= x <= 255,
                1 <= y < height - 1,
                g == heights(input@),
                is_grid(g),
                height == g.len(),
                width == g[0].len(),
                width <= 255,
                height <= 255,
                forall|r: int, c: int|
                    inner(g, r, c) && (r < y || (r == y && c < x)) ==> scenic(g, r, c) <= best,
                best == 0 || exists|r: int, c: int| inner(g, r, c) && scenic(g, r, c) == best,
            decreases width - x,
        {
            let score = scenary(input, x, y, width, height);
            if score > best {
                best = score;
                assert(inner(g, y as int, x as int) && scenic(g, y as int, x as int) == best);
            }
            x += 1;
        }
        y += 1;
    }
    best
}

} // verus!
