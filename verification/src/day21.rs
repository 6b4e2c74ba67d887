//! A garden with rocks: the plots that a given number of steps leads to.

use crate::grid::{
    cell, grid_filled_with, grid_from_rows, grid_get, grid_height, grid_num_columns, grid_num_rows, grid_rows,
    grid_set, grid_width, in_grid, rectangular, row_views,
};
use crate::text::{lines, lines_of, views};
use array2d::Array2D;
use vstd::prelude::*;
use vstd::string::StringSliceAdditionalSpecFns;

verus! {

/// A tile of the garden.
#[derive(Debug, PartialEq, Eq, Clone, Copy, Structural)]
pub enum Tile {
    GardenPlot,
    Rock,
}

/// The byte that stands for a garden plot in a grid.
pub const GARDEN: u8 = 46;

/// The byte that stands for a rock in a grid.
pub const ROCK: u8 = 35;

/// The tile that a character stands for: a dot or `S` for a garden plot,
/// `#` for a rock.
pub open spec fn tile_of(value: u8) -> Option<Tile> {
    if value == 46 || value == 83 {
        Some(Tile::GardenPlot)
    } else if value == 35 {
        Some(Tile::Rock)
    } else {
        None
    }
}

impl Tile {
    /// The byte that stands for the tile in a grid.
    pub open spec fn code_of(self) -> u8 {
        match self {
            Tile::GardenPlot => GARDEN,
            Tile::Rock => ROCK,
        }
    }

    /// The tile that a character stands for.
    pub fn from(value: u8) -> (r: Option<Tile>)
        ensures
            r == tile_of(value),
    {
        if value == 46 || value == 83 {
            Some(Tile::GardenPlot)
        } else if value == 35 {
            Some(Tile::Rock)
        } else {
            None
        }
    }

    /// The byte that stands for the tile in a grid.
    pub fn code(&self) -> (c: u8)
        ensures
            c == self.code_of(),
    {
        match *self {
            Tile::GardenPlot => GARDEN,
            Tile::Rock => ROCK,
        }
    }
}

/// A compass direction.
#[derive(Debug, PartialEq, Eq, Clone, Copy, Structural)]
pub enum Direction {
    North,
    East,
    South,
    West,
}

/// The codes of the tiles that the first `n` characters of a line stand
/// for, if each stands for one.
pub open spec fn codes_from(line: Seq<u8>, n: int) -> Option<Seq<u8>>
    decreases n,
{
    if n <= 0 {
        Some(Seq::empty())
    } else {
        match (codes_from(line, n - 1), tile_of(line[n - 1])) {
            (Some(codes), Some(tile)) => Some(codes.push(tile.code_of())),
            _ => None,
        }
    }
}

/// If the first `i` characters are no tiles, neither are the first `n`.
pub proof fn lemma_codes_from_prefix(line: Seq<u8>, i: int, n: int)
    requires
        0 <= i <= n,
        codes_from(line, i) is None,
    ensures
        codes_from(line, n) is None,
    decreases n - i,
{
    if i < n {
        lemma_codes_from_prefix(line, i, n - 1);
    }
}

/// The rows of codes that the first `n` lines stand for.
pub open spec fn garden_from(ls: Seq<Seq<u8>>, n: int) -> Option<Seq<Seq<u8>>>
    decreases n,
{
    if n <= 0 {
        Some(Seq::empty())
    } else {
        match (garden_from(ls, n - 1), codes_from(ls[n - 1], ls[n - 1].len() as int)) {
            (Some(rows), Some(row)) => Some(rows.push(row)),
            _ => None,
        }
    }
}

/// If the first `i` lines are no rows of tiles, neither are the first `n`.
pub proof fn lemma_garden_from_prefix(ls: Seq<Seq<u8>>, i: int, n: int)
    requires
        0 <= i <= n,
        garden_from(ls, i) is None,
    ensures
        garden_from(ls, n) is None,
    decreases n - i,
{
    if i < n {
        lemma_garden_from_prefix(ls, i, n - 1);
    }
}

/// The rows of the garden that the input stands for, if every character is
/// a tile and all lines are as long as the first.
pub open spec fn garden_of(input: Seq<u8>) -> Option<Seq<Seq<u8>>> {
    match garden_from(lines_of(input), lines_of(input).len() as int) {
        None => None,
        Some(rows) => if forall|i: int| 0 <= i < rows.len() ==> (#[trigger] rows[i]).len() == rows[0].len() {
            Some(rows)
        } else {
            None
        },
    }
}

/// Reads the garden, one row from each line.
pub fn parse_input(input: &str) -> (r: Option<Array2D<u8>>)
    ensures
        match r {
            Some(grid) => garden_of(input.spec_bytes()) == Some(grid_rows(grid)) && rectangular(
                grid_rows(grid),
                grid_width(grid),
            ),
            None => garden_of(input.spec_bytes()) is None,
        },
{
    let texts = lines(input.as_bytes());
    let ghost all = lines_of(input.spec_bytes());
    let mut rows: Vec<Vec<u8>> = Vec::new();
    let mut i: usize = 0;
    assert(row_views(rows@) =~= Seq::<Seq<u8>>::empty());
    while i < texts.len()
        invariant
            i <= texts.len(),
            all == views(texts@),
            all == lines_of(input.spec_bytes()),
            garden_from(all, i as int) == Some(row_views(rows@)),
        decreases texts.len() - i,
    {
        assert(all[i as int] == texts@[i as int]@);
        let line = texts[i];
        let mut row: Vec<u8> = Vec::new();
        let mut j: usize = 0;
        while j < line.len()
            invariant
                j <= line@.len(),
                i < texts.len(),
                all == views(texts@),
                all == lines_of(input.spec_bytes()),
                line@ == all[i as int],
                codes_from(line@, j as int) == Some(row@),
            decreases line@.len() - j,
        {
            match Tile::from(line[j]) {
                Some(tile) => {
                    row.push(tile.code());
                },
                None => {
                    proof {
                        lemma_codes_from_prefix(line@, j + 1, line@.len() as int);
                        lemma_garden_from_prefix(all, i + 1, all.len() as int);
                    }
                    return None;
                },
            }
            j = j + 1;
        }
        let ghost before = rows@;
        rows.push(row);
        assert(row_views(rows@) =~= row_views(before).push(row@));
        i = i + 1;
    }
    proof {
        assert forall|k: int| 0 <= k < rows@.len() implies (#[trigger] rows@[k])@ == row_views(rows@)[k] by {}
    }
    match grid_from_rows(rows.as_slice()) {
        Ok(grid) => Some(grid),
        Err(_) => None,
    }
}

/// The middle of the grid, where the walk starts.
pub fn find_start(grid: &Array2D<u8>) -> (start: (usize, usize))
    ensures
        start.0 == grid_height(*grid) / 2,
        start.1 == grid_width(*grid) / 2,
{
    (grid_num_rows(grid) / 2, grid_num_columns(grid) / 2)
}

/// Whether the cell `(r, c)` lies on the grid and holds no rock.
pub open spec fn open_at(rows: Seq<Seq<u8>>, w: int, r: int, c: int) -> bool {
    0 <= r < rows.len() && 0 <= c < w && rows[r][c] != ROCK
}

/// The cell `(r, c)` if it lies on the grid and holds no rock, for use in a
/// list.
pub open spec fn step_to(rows: Seq<Seq<u8>>, w: int, r: int, c: int) -> Seq<(usize, usize)> {
    if open_at(rows, w, r, c) {
        seq![(r as usize, c as usize)]
    } else {
        Seq::empty()
    }
}

/// The cells without rocks that one step leads to from `point`: to the
/// north, east, south and west, in this order.
pub open spec fn successors_of(rows: Seq<Seq<u8>>, w: int, point: (int, int)) -> Seq<(usize, usize)> {
    step_to(rows, w, point.0 - 1, point.1) + step_to(rows, w, point.0, point.1 + 1) + step_to(
        rows,
        w,
        point.0 + 1,
        point.1,
    ) + step_to(rows, w, point.0, point.1 - 1)
}

/// Adds the cell to the list if it holds no rock.
fn push_step(result: &mut Vec<(usize, usize)>, grid: &Array2D<u8>, row: usize, column: usize)
    requires
        in_grid(*grid, row as int, column as int),
    ensures
        final(result)@ == old(result)@ + step_to(grid_rows(*grid), grid_width(*grid) as int, row as int, column as int),
{
    let ghost before = result@;
    if grid_get(grid, row, column) != Some(ROCK) {
        result.push((row, column));
        assert(result@ =~= before + seq![(row, column)]);
    } else {
        assert(result@ =~= before + Seq::<(usize, usize)>::empty());
    }
}

/// The cells without rocks that one step leads to from `point`.
pub fn get_successors(grid: &Array2D<u8>, point: (usize, usize)) -> (result: Vec<(usize, usize)>)
    requires
        in_grid(*grid, point.0 as int, point.1 as int),
    ensures
        result@ == successors_of(grid_rows(*grid), grid_width(*grid) as int, (point.0 as int, point.1 as int)),
{
    let mut result: Vec<(usize, usize)> = Vec::new();
    let (row, column) = point;
    let num_rows = grid_num_rows(grid);
    let num_columns = grid_num_columns(grid);
    let ghost rows = grid_rows(*grid);
    let ghost w = grid_width(*grid) as int;
    if row > 0 {
        push_step(&mut result, grid, row - 1, column);
    }
    assert(result@ =~= step_to(rows, w, row - 1, column as int));
    if column < num_columns - 1 {
        push_step(&mut result, grid, row, column + 1);
    }
    assert(result@ =~= step_to(rows, w, row - 1, column as int) + step_to(rows, w, row as int, column + 1));
    if row < num_rows - 1 {
        push_step(&mut result, grid, row + 1, column);
    }
    assert(result@ =~= step_to(rows, w, row - 1, column as int) + step_to(rows, w, row as int, column + 1) + step_to(
        rows,
        w,
        row + 1,
        column as int,
    ));
    if column > 0 {
        push_step(&mut result, grid, row, column - 1);
    }
    assert(result@ =~= successors_of(rows, w, (row as int, column as int)));
    result
}

/// Whether `q` is one step to the north, east, south or west of `p`.
pub open spec fn adjacent(p: (int, int), q: (int, int)) -> bool {
    q == (p.0 - 1, p.1) || q == (p.0, p.1 + 1) || q == (p.0 + 1, p.1) || q == (p.0, p.1 - 1)
}

/// One step from `p` leads to the cells beside it that hold no rock.
pub proof fn lemma_successors(rows: Seq<Seq<u8>>, w: int, p: (int, int), q: (usize, usize))
    requires
        rows.len() <= usize::MAX,
        w <= usize::MAX,
    ensures
        successors_of(rows, w, p).contains(q) <==> open_at(rows, w, q.0 as int, q.1 as int) && adjacent(
            p,
            (q.0 as int, q.1 as int),
        ),
{
    let a = step_to(rows, w, p.0 - 1, p.1);
    let b = step_to(rows, w, p.0, p.1 + 1);
    let c = step_to(rows, w, p.0 + 1, p.1);
    let d = step_to(rows, w, p.0, p.1 - 1);
    let all = successors_of(rows, w, p);
    assert(all == a + b + c + d);
    if all.contains(q) {
        let k = choose|k: int| 0 <= k < all.len() && all[k] == q;
        if k < a.len() {
            assert(a[k] == q);
        } else if k < a.len() + b.len() {
            assert(b[k - a.len()] == q);
        } else if k < a.len() + b.len() + c.len() {
            assert(c[k - a.len() - b.len()] == q);
        } else {
            assert(d[k - a.len() - b.len() - c.len()] == q);
        }
    }
    if open_at(rows, w, q.0 as int, q.1 as int) && adjacent(p, (q.0 as int, q.1 as int)) {
        if (q.0 as int, q.1 as int) == (p.0 - 1, p.1) {
            assert(all[0] == q);
        } else if (q.0 as int, q.1 as int) == (p.0, p.1 + 1) {
            assert(all[a.len() as int] == q);
        } else if (q.0 as int, q.1 as int) == (p.0 + 1, p.1) {
            assert(all[(a.len() + b.len()) as int] == q);
        } else {
            assert(all[(a.len() + b.len() + c.len()) as int] == q);
        }
    }
}

/// Whether exactly `d` steps lead from `start` to the cell `(r, c)`: no
/// step leads to the start, and one more step leads from a cell beside
/// `(r, c)` to it if it holds no rock.
pub open spec fn reached(rows: Seq<Seq<u8>>, w: int, start: (int, int), d: nat, r: int, c: int) -> bool
    decreases d,
{
    if d == 0 {
        (r, c) == start
    } else {
        open_at(rows, w, r, c) && (reached(rows, w, start, (d - 1) as nat, r + 1, c) || reached(
            rows,
            w,
            start,
            (d - 1) as nat,
            r,
            c - 1,
        ) || reached(rows, w, start, (d - 1) as nat, r - 1, c) || reached(rows, w, start, (d - 1) as nat, r, c + 1))
    }
}

/// Steps from a start on the grid lead to cells on the grid.
pub proof fn lemma_reached_on_grid(rows: Seq<Seq<u8>>, w: int, start: (int, int), d: nat, r: int, c: int)
    requires
        0 <= start.0 < rows.len(),
        0 <= start.1 < w,
        reached(rows, w, start, d, r, c),
    ensures
        0 <= r < rows.len(),
        0 <= c < w,
{
}

/// Whether `d` steps lead to the cell `(r, c)`, and the cell comes before
/// `(i, j)` when the cells are read row by row.
pub open spec fn arrives(rows: Seq<Seq<u8>>, w: int, start: (int, int), d: nat, r: int, c: int, i: int, j: int) -> bool {
    reached(rows, w, start, d, r, c) && (r < i || (r == i && c < j))
}

/// Whether one step leads to the cell `(r, c)` from a cell that `d` steps
/// lead to and that comes before `(i, j)`.
pub open spec fn pushed(rows: Seq<Seq<u8>>, w: int, start: (int, int), d: nat, r: int, c: int, i: int, j: int) -> bool {
    open_at(rows, w, r, c) && (arrives(rows, w, start, d, r + 1, c, i, j) || arrives(rows, w, start, d, r, c - 1, i, j)
        || arrives(rows, w, start, d, r - 1, c, i, j) || arrives(rows, w, start, d, r, c + 1, i, j))
}

/// Whether the cell `(r, c)` is marked.
pub open spec fn marked(marks: Seq<Seq<u8>>, r: int, c: int) -> bool {
    marks[r][c] == 1u8
}

/// A list holds `x` among its first `k + 1` items when it holds it among
/// the first `k`, or as the next.
proof fn lemma_take_contains(s: Seq<(usize, usize)>, k: int, x: (usize, usize))
    requires
        0 <= k < s.len(),
    ensures
        s.take(k + 1).contains(x) <==> s.take(k).contains(x) || s[k] == x,
{
    let shorter = s.take(k);
    let longer = s.take(k + 1);
    if longer.contains(x) {
        let m = choose|m: int| 0 <= m < longer.len() && longer[m] == x;
        if m < k {
            assert(shorter[m] == x);
        }
    }
    if shorter.contains(x) {
        let m = choose|m: int| 0 <= m < shorter.len() && shorter[m] == x;
        assert(longer[m] == x);
    }
    if s[k] == x {
        assert(longer[k] == x);
    }
}

/// Marks the cells that one step leads to from the marked cells.
fn spread(grid: &Array2D<u8>, current: &Array2D<u8>, Ghost(start): Ghost<(int, int)>, Ghost(d): Ghost<nat>) -> (next:
    Array2D<u8>)
    requires
        grid_height(*grid) * grid_width(*grid) <= usize::MAX,
        rectangular(grid_rows(*grid), grid_width(*grid)),
        grid_height(*current) == grid_height(*grid),
        grid_width(*current) == grid_width(*grid),
        rectangular(grid_rows(*current), grid_width(*grid)),
        0 <= start.0 < grid_height(*grid),
        0 <= start.1 < grid_width(*grid),
        forall|r: int, c: int|
            0 <= r < grid_height(*grid) && 0 <= c < grid_width(*grid) ==> (#[trigger] marked(grid_rows(*current), r, c)
                <==> reached(grid_rows(*grid), grid_width(*grid) as int, start, d, r, c)),
    ensures
        grid_height(next) == grid_height(*grid),
        grid_width(next) == grid_width(*grid),
        rectangular(grid_rows(next), grid_width(*grid)),
        forall|r: int, c: int|
            0 <= r < grid_height(*grid) && 0 <= c < grid_width(*grid) ==> (#[trigger] marked(grid_rows(next), r, c)
                <==> reached(grid_rows(*grid), grid_width(*grid) as int, start, d + 1, r, c)),
{
    let h = grid_num_rows(grid);
    let w = grid_num_columns(grid);
    let ghost rows = grid_rows(*grid);
    let ghost wi = w as int;
    let mut next = grid_filled_with(0, h, w);
    let mut i: usize = 0;
    while i < h
        invariant
            i <= h,
            h == grid_height(*grid),
            w == grid_width(*grid),
            wi == w,
            rows == grid_rows(*grid),
            rectangular(rows, w as nat),
            grid_height(*current) == h,
            grid_width(*current) == w,
            rectangular(grid_rows(*current), w as nat),
            grid_height(next) == h,
            grid_width(next) == w,
            rectangular(grid_rows(next), w as nat),
            0 <= start.0 < h,
            0 <= start.1 < w,
            forall|r: int, c: int|
                0 <= r < h && 0 <= c < w ==> (#[trigger] marked(grid_rows(*current), r, c) <==> reached(
                    rows,
                    wi,
                    start,
                    d,
                    r,
                    c,
                )),
            forall|r: int, c: int|
                0 <= r < h && 0 <= c < w ==> (#[trigger] marked(grid_rows(next), r, c) <==> pushed(
                    rows,
                    wi,
                    start,
                    d,
                    r,
                    c,
                    i as int,
                    0,
                )),
        decreases h - i,
    {
        let mut j: usize = 0;
        while j < w
            invariant
                j <= w,
                i < h,
                h == grid_height(*grid),
                w == grid_width(*grid),
                wi == w,
                rows == grid_rows(*grid),
                rectangular(rows, w as nat),
                grid_height(*current) == h,
                grid_width(*current) == w,
                rectangular(grid_rows(*current), w as nat),
                grid_height(next) == h,
                grid_width(next) == w,
                rectangular(grid_rows(next), w as nat),
                0 <= start.0 < h,
                0 <= start.1 < w,
                forall|r: int, c: int|
                    0 <= r < h && 0 <= c < w ==> (#[trigger] marked(grid_rows(*current), r, c) <==> reached(
                        rows,
                        wi,
                        start,
                        d,
                        r,
                        c,
                    )),
                forall|r: int, c: int|
                    0 <= r < h && 0 <= c < w ==> (#[trigger] marked(grid_rows(next), r, c) <==> pushed(
                        rows,
                        wi,
                        start,
                        d,
                        r,
                        c,
                        i as int,
                        j as int,
                    )),
            decreases w - j,
        {
            let here = grid_get(current, i, j) == Some(1);
            assert(here == marked(grid_rows(*current), i as int, j as int));
            if here {
                let successors = get_successors(grid, (i, j));
                let ghost before = grid_rows(next);
                let mut k: usize = 0;
                assert(successors@.take(0) =~= Seq::<(usize, usize)>::empty());
                while k < successors.len()
                    invariant
                        k <= successors@.len(),
                        i < h,
                        j < w,
                        h == grid_height(*grid),
                        w == grid_width(*grid),
                        wi == w,
                        rows == grid_rows(*grid),
                        successors@ == successors_of(rows, wi, (i as int, j as int)),
                        grid_height(next) == h,
                        grid_width(next) == w,
                        rectangular(grid_rows(next), w as nat),
                        rectangular(before, w as nat),
                        before.len() == h,
                        forall|r: int, c: int|
                            0 <= r < h && 0 <= c < w ==> (#[trigger] marked(grid_rows(next), r, c) <==> marked(
                                before,
                                r,
                                c,
                            ) || successors@.take(k as int).contains((r as usize, c as usize))),
                    decreases successors@.len() - k,
                {
                    let to = successors[k];
                    proof {
                        assert(successors@.contains(to));
                        lemma_successors(rows, wi, (i as int, j as int), to);
                    }
                    let ghost earlier = grid_rows(next);
                    let _ = grid_set(&mut next, to.0, to.1, 1);
                    proof {
                        assert forall|r: int, c: int| 0 <= r < h && 0 <= c < w implies (#[trigger] marked(
                            grid_rows(next),
                            r,
                            c,
                        ) <==> marked(before, r, c) || successors@.take(k + 1).contains((r as usize, c as usize))) by {
                            lemma_take_contains(successors@, k as int, (r as usize, c as usize));
                            assert(marked(earlier, r, c) <==> marked(before, r, c) || successors@.take(
                                k as int,
                            ).contains((r as usize, c as usize)));
                        }
                    }
                    k = k + 1;
                }
                proof {
                    assert(successors@.take(successors@.len() as int) =~= successors@);
                    assert forall|r: int, c: int| 0 <= r < h && 0 <= c < w implies (#[trigger] marked(
                        grid_rows(next),
                        r,
                        c,
                    ) <==> pushed(rows, wi, start, d, r, c, i as int, j + 1)) by {
                        lemma_successors(rows, wi, (i as int, j as int), (r as usize, c as usize));
                        assert(marked(before, r, c) <==> pushed(rows, wi, start, d, r, c, i as int, j as int));
                    }
                }
            } else {
                proof {
                    assert forall|r: int, c: int| 0 <= r < h && 0 <= c < w implies (#[trigger] marked(
                        grid_rows(next),
                        r,
                        c,
                    ) <==> pushed(rows, wi, start, d, r, c, i as int, j + 1)) by {
                        assert(marked(grid_rows(next), r, c) <==> pushed(rows, wi, start, d, r, c, i as int, j as int));
                    }
                }
            }
            j = j + 1;
        }
        proof {
            assert forall|r: int, c: int| 0 <= r < h && 0 <= c < w implies (#[trigger] marked(grid_rows(next), r, c)
                <==> pushed(rows, wi, start, d, r, c, i + 1, 0)) by {
                assert(marked(grid_rows(next), r, c) <==> pushed(rows, wi, start, d, r, c, i as int, w as int));
                if reached(rows, wi, start, d, r + 1, c) {
                    lemma_reached_on_grid(rows, wi, start, d, r + 1, c);
                }
                if reached(rows, wi, start, d, r - 1, c) {
                    lemma_reached_on_grid(rows, wi, start, d, r - 1, c);
                }
                if reached(rows, wi, start, d, r, c + 1) {
                    lemma_reached_on_grid(rows, wi, start, d, r, c + 1);
                }
                if reached(rows, wi, start, d, r, c - 1) {
                    lemma_reached_on_grid(rows, wi, start, d, r, c - 1);
                }
            }
        }
        i = i + 1;
    }
    proof {
        assert forall|r: int, c: int| 0 <= r < h && 0 <= c < w implies (#[trigger] marked(grid_rows(next), r, c)
            <==> reached(rows, wi, start, d + 1, r, c)) by {
            assert(marked(grid_rows(next), r, c) <==> pushed(rows, wi, start, d, r, c, h as int, 0));
            if reached(rows, wi, start, d, r + 1, c) {
                lemma_reached_on_grid(rows, wi, start, d, r + 1, c);
            }
            if reached(rows, wi, start, d, r - 1, c) {
                lemma_reached_on_grid(rows, wi, start, d, r - 1, c);
            }
            if reached(rows, wi, start, d, r, c + 1) {
                lemma_reached_on_grid(rows, wi, start, d, r, c + 1);
            }
            if reached(rows, wi, start, d, r, c - 1) {
                lemma_reached_on_grid(rows, wi, start, d, r, c - 1);
            }
        }
    }
    next
}

/// Whether the cells are listed row by row, each row from the left, and
/// none twice.
pub open spec fn listed_in_order(cells: Seq<(usize, usize)>) -> bool {
    forall|a: int, b: int|
        0 <= a < b < cells.len() ==> (#[trigger] cells[a]).0 < (#[trigger] cells[b]).0 || (cells[a].0 == cells[b].0
            && cells[a].1 < cells[b].1)
}

/// The cells that exactly `distance` steps lead to from the middle of the
/// grid. The grid must have a cell, and not more cells than `usize` counts.
pub fn part1(grid: &Array2D<u8>, distance: usize) -> (cells: Vec<(usize, usize)>)
    requires
        grid_height(*grid) > 0,
        grid_width(*grid) > 0,
        grid_height(*grid) * grid_width(*grid) <= usize::MAX,
    ensures
        listed_in_order(cells@),
        forall|i: usize, j: usize|
            cells@.contains((i, j)) <==> reached(
                grid_rows(*grid),
                grid_width(*grid) as int,
                ((grid_height(*grid) / 2) as int, (grid_width(*grid) / 2) as int),
                distance as nat,
                i as int,
                j as int,
            ),
{
    let h = grid_num_rows(grid);
    let w = grid_num_columns(grid);
    let start_pt = find_start(grid);
    let ghost rows = grid_rows(*grid);
    let ghost wi = w as int;
    let ghost start = (start_pt.0 as int, start_pt.1 as int);
    let mut current = grid_filled_with(0, h, w);
    let _ = grid_set(&mut current, start_pt.0, start_pt.1, 1);
    let mut d: usize = 0;
    while d < distance
        invariant
            d <= distance,
            h == grid_height(*grid),
            w == grid_width(*grid),
            wi == w,
            rows == grid_rows(*grid),
            h * w <= usize::MAX,
            rectangular(rows, w as nat),
            grid_height(current) == h,
            grid_width(current) == w,
            rectangular(grid_rows(current), w as nat),
            start == ((h / 2) as int, (w / 2) as int),
            0 <= start.0 < h,
            0 <= start.1 < w,
            forall|r: int, c: int|
                0 <= r < h && 0 <= c < w ==> (#[trigger] marked(grid_rows(current), r, c) <==> reached(
                    rows,
                    wi,
                    start,
                    d as nat,
                    r,
                    c,
                )),
        decreases distance - d,
    {
        current = spread(grid, &current, Ghost(start), Ghost(d as nat));
        d = d + 1;
    }
    let mut cells: Vec<(usize, usize)> = Vec::new();
    let mut i: usize = 0;
    while i < h
        invariant
            i <= h,
            h == grid_height(*grid),
            w == grid_width(*grid),
            wi == w,
            rows == grid_rows(*grid),
            grid_height(current) == h,
            grid_width(current) == w,
            rectangular(grid_rows(current), w as nat),
            start == ((h / 2) as int, (w / 2) as int),
            0 <= start.0 < h,
            0 <= start.1 < w,
            forall|r: int, c: int|
                0 <= r < h && 0 <= c < w ==> (#[trigger] marked(grid_rows(current), r, c) <==> reached(
                    rows,
                    wi,
                    start,
                    distance as nat,
                    r,
                    c,
                )),
            listed_in_order(cells@),
            forall|k: int| 0 <= k < cells@.len() ==> (#[trigger] cells@[k]).0 < i,
            forall|a: usize, b: usize|
                cells@.contains((a, b)) <==> reached(rows, wi, start, distance as nat, a as int, b as int) && a < i,
        decreases h - i,
    {
        let mut j: usize = 0;
        while j < w
            invariant
                j <= w,
                i < h,
                h == grid_height(*grid),
                w == grid_width(*grid),
                wi == w,
                rows == grid_rows(*grid),
                grid_height(current) == h,
                grid_width(current) == w,
                rectangular(grid_rows(current), w as nat),
                start == ((h / 2) as int, (w / 2) as int),
                0 <= start.0 < h,
                0 <= start.1 < w,
                forall|r: int, c: int|
                    0 <= r < h && 0 <= c < w ==> (#[trigger] marked(grid_rows(current), r, c) <==> reached(
                        rows,
                        wi,
                        start,
                        distance as nat,
                        r,
                        c,
                    )),
                listed_in_order(cells@),
                forall|k: int|
                    0 <= k < cells@.len() ==> (#[trigger] cells@[k]).0 < i || (cells@[k].0 == i && cells@[k].1 < j),
                forall|a: usize, b: usize|
                    cells@.contains((a, b)) <==> reached(rows, wi, start, distance as nat, a as int, b as int) && (a
                        < i || (a == i && b < j)),
            decreases w - j,
        {
            let here = grid_get(&current, i, j) == Some(1);
            assert(here == marked(grid_rows(current), i as int, j as int));
            let ghost before = cells@;
            if here {
                cells.push((i, j));
                assert(cells@[before.len() as int] == (i, j));
            }
            proof {
                assert forall|a: usize, b: usize| cells@.contains((a, b)) <==> reached(
                    rows,
                    wi,
                    start,
                    distance as nat,
                    a as int,
                    b as int,
                ) && (a < i || (a == i && b < j + 1)) by {
                    if cells@.contains((a, b)) {
                        let k = choose|k: int| 0 <= k < cells@.len() && cells@[k] == (a, b);
                        if k < before.len() {
                            assert(before[k] == (a, b));
                            assert(before.contains((a, b)));
                        }
                    }
                    if before.contains((a, b)) {
                        let k = choose|k: int| 0 <= k < before.len() && before[k] == (a, b);
                        assert(cells@[k] == (a, b));
                    }
                    if reached(rows, wi, start, distance as nat, a as int, b as int) {
                        lemma_reached_on_grid(rows, wi, start, distance as nat, a as int, b as int);
                    }
                }
            }
            j = j + 1;
        }
        i = i + 1;
    }
    proof {
        assert forall|a: usize, b: usize| cells@.contains((a, b)) <==> reached(
            rows,
            wi,
            start,
            distance as nat,
            a as int,
            b as int,
        ) by {
            if reached(rows, wi, start, distance as nat, a as int, b as int) {
                lemma_reached_on_grid(rows, wi, start, distance as nat, a as int, b as int);
            }
        }
    }
    cells
}

/// How many of the first `n` cells the predicate holds of.
pub open spec fn holds_count<F: Fn(usize, usize) -> bool>(cells: Seq<(usize, usize)>, predicate: F, n: int) -> int
    decreases n,
{
    if n <= 0 {
        0
    } else if predicate.ensures(cells[n - 1], true) {
        holds_count(cells, predicate, n - 1) + 1
    } else {
        holds_count(cells, predicate, n - 1)
    }
}

/// Whether the predicate can be asked of every cell and gives one answer
/// for each.
pub open spec fn decides<F: Fn(usize, usize) -> bool>(predicate: F) -> bool {
    &&& forall|i: usize, j: usize| #[trigger] predicate.requires((i, j))
    &&& forall|i: usize, j: usize| !(#[trigger] predicate.ensures((i, j), true) && predicate.ensures((i, j), false))
}

/// Whether `holds` tells what the predicate answers for every cell.
pub open spec fn tells<F: Fn(usize, usize) -> bool>(predicate: F, holds: spec_fn(usize, usize) -> bool) -> bool {
    forall|i: usize, j: usize, b: bool| #[trigger] predicate.ensures((i, j), b) ==> b == holds(i, j)
}

/// How many of the first `n` cells `holds` is true of.
pub open spec fn count_by(cells: Seq<(usize, usize)>, holds: spec_fn(usize, usize) -> bool, n: int) -> int
    decreases n,
{
    if n <= 0 {
        0
    } else if holds(cells[n - 1].0, cells[n - 1].1) {
        count_by(cells, holds, n - 1) + 1
    } else {
        count_by(cells, holds, n - 1)
    }
}

/// The number of cells that the predicate holds of.
pub fn num_gardens_with<F: Fn(usize, usize) -> bool>(reachable: &Vec<(usize, usize)>, predicate: F) -> (n: usize)
    requires
        decides(predicate),
    ensures
        n == holds_count(reachable@, predicate, reachable@.len() as int),
        forall|holds: spec_fn(usize, usize) -> bool| #[trigger]
            tells(predicate, holds) ==> n == count_by(reachable@, holds, reachable@.len() as int),
{
    let mut n: usize = 0;
    let mut k: usize = 0;
    while k < reachable.len()
        invariant
            k <= reachable@.len(),
            decides(predicate),
            n <= k,
            n == holds_count(reachable@, predicate, k as int),
            forall|holds: spec_fn(usize, usize) -> bool| #[trigger]
                tells(predicate, holds) ==> n == count_by(reachable@, holds, k as int),
        decreases reachable@.len() - k,
    {
        let (i, j) = reachable[k];
        if predicate(i, j) {
            n = n + 1;
        }
        k = k + 1;
    }
    n
}

/// The numbers of cells counted in the four corners of the grid.
#[derive(Debug, PartialEq, Eq, Clone, Copy, Structural)]
pub struct CornerCounts {
    pub top_left: usize,
    pub top_right: usize,
    pub bottom_left: usize,
    pub bottom_right: usize,
}

/// A corner of the grid.
#[derive(Debug, PartialEq, Eq, Clone, Copy, Structural)]
pub enum Corner {
    TopLeft,
    TopRight,
    BottomLeft,
    BottomRight,
}

/// The cell of a corner that lies `i` rows and `j` columns from the
/// corner's end of a grid of `side` rows and columns.
pub open spec fn corner_cell(corner: Corner, side: int, i: int, j: int) -> (usize, usize) {
    match corner {
        Corner::TopLeft => (i as usize, j as usize),
        Corner::TopRight => (i as usize, (side - j - 1) as usize),
        Corner::BottomLeft => ((side - i - 1) as usize, j as usize),
        Corner::BottomRight => ((side - i - 1) as usize, (side - j - 1) as usize),
    }
}

/// Whether the predicate holds of the cell and the cell is among those
/// reached.
pub open spec fn counted<F: Fn(usize, usize) -> bool>(reachable: Seq<(usize, usize)>, predicate: F, cell: (
    usize,
    usize,
)) -> bool {
    predicate.ensures(cell, true) && reachable.contains(cell)
}

/// How many of the first `m` cells of the corner's `i`-th row are counted.
pub open spec fn corner_row<F: Fn(usize, usize) -> bool>(
    reachable: Seq<(usize, usize)>,
    predicate: F,
    corner: Corner,
    side: int,
    i: int,
    m: int,
) -> int
    decreases m,
{
    if m <= 0 {
        0
    } else if counted(reachable, predicate, corner_cell(corner, side, i, m - 1)) {
        corner_row(reachable, predicate, corner, side, i, m - 1) + 1
    } else {
        corner_row(reachable, predicate, corner, side, i, m - 1)
    }
}

/// How many cells of the corner's first `n` rows are counted; the `i`-th
/// row of a corner reaches as far as `i + j` is at most half the side.
pub open spec fn corner_sum<F: Fn(usize, usize) -> bool>(
    reachable: Seq<(usize, usize)>,
    predicate: F,
    corner: Corner,
    side: int,
    n: int,
) -> int
    decreases n,
{
    if n <= 0 {
        0
    } else {
        corner_sum(reachable, predicate, corner, side, n - 1) + corner_row(
            reachable,
            predicate,
            corner,
            side,
            n - 1,
            side / 2 - (n - 1) + 1,
        )
    }
}

/// Whether `holds` is true of the cell and the cell is among those
/// reached.
pub open spec fn counted_by(reachable: Seq<(usize, usize)>, holds: spec_fn(usize, usize) -> bool, cell: (
    usize,
    usize,
)) -> bool {
    holds(cell.0, cell.1) && reachable.contains(cell)
}

/// How many of the first `m` cells of the corner's `i`-th row are reached
/// cells that `holds` is true of.
pub open spec fn corner_row_by(
    reachable: Seq<(usize, usize)>,
    holds: spec_fn(usize, usize) -> bool,
    corner: Corner,
    side: int,
    i: int,
    m: int,
) -> int
    decreases m,
{
    if m <= 0 {
        0
    } else if counted_by(reachable, holds, corner_cell(corner, side, i, m - 1)) {
        corner_row_by(reachable, holds, corner, side, i, m - 1) + 1
    } else {
        corner_row_by(reachable, holds, corner, side, i, m - 1)
    }
}

/// How many cells of the corner's first `n` rows are reached cells that
/// `holds` is true of.
pub open spec fn corner_sum_by(
    reachable: Seq<(usize, usize)>,
    holds: spec_fn(usize, usize) -> bool,
    corner: Corner,
    side: int,
    n: int,
) -> int
    decreases n,
{
    if n <= 0 {
        0
    } else {
        corner_sum_by(reachable, holds, corner, side, n - 1) + corner_row_by(
            reachable,
            holds,
            corner,
            side,
            n - 1,
            side / 2 - (n - 1) + 1,
        )
    }
}

/// Tells whether the cell is among those listed.
pub fn has_cell(reachable: &Vec<(usize, usize)>, i: usize, j: usize) -> (b: bool)
    ensures
        b == reachable@.contains((i, j)),
{
    let mut k: usize = 0;
    while k < reachable.len()
        invariant
            k <= reachable@.len(),
            forall|m: int| 0 <= m < k ==> reachable@[m] != (i, j),
        decreases reachable@.len() - k,
    {
        let (a, b) = reachable[k];
        if a == i && b == j {
            assert(reachable@[k as int] == (i, j));
            return true;
        }
        k = k + 1;
    }
    false
}

/// Tells whether the predicate holds of the cell and the cell is among
/// those reached.
fn is_counted<F: Fn(usize, usize) -> bool>(reachable: &Vec<(usize, usize)>, predicate: &F, i: usize, j: usize) -> (b:
    bool)
    requires
        decides(*predicate),
    ensures
        b == counted(reachable@, *predicate, (i, j)),
        forall|holds: spec_fn(usize, usize) -> bool| #[trigger]
            tells(*predicate, holds) ==> b == counted_by(reachable@, holds, (i, j)),
{
    predicate(i, j) && has_cell(reachable, i, j)
}

/// The numbers of reached cells that `holds` is true of in the four
/// corners of a grid of `side` rows and columns.
pub open spec fn corners_by(reachable: Seq<(usize, usize)>, holds: spec_fn(usize, usize) -> bool, side: int) -> CornerCounts {
    CornerCounts {
        top_left: corner_sum_by(reachable, holds, Corner::TopLeft, side, side / 2 + 1) as usize,
        top_right: corner_sum_by(reachable, holds, Corner::TopRight, side, side / 2 + 1) as usize,
        bottom_left: corner_sum_by(reachable, holds, Corner::BottomLeft, side, side / 2 + 1) as usize,
        bottom_right: corner_sum_by(reachable, holds, Corner::BottomRight, side, side / 2 + 1) as usize,
    }
}

/// Counts, in each corner of a grid of `grid_side_length` rows and columns,
/// the reached cells that the predicate holds of. The side must not be 0,
/// and the square of half the side, plus one, must fit in `usize`.
pub fn num_gardens_in_corners_with<F: Fn(usize, usize) -> bool>(
    reachable: &Vec<(usize, usize)>,
    grid_side_length: usize,
    predicate: F,
) -> (r: CornerCounts)
    requires
        decides(predicate),
        grid_side_length >= 1,
        (grid_side_length / 2 + 1) * (grid_side_length / 2 + 1) <= usize::MAX,
    ensures
        r.top_left == corner_sum(
            reachable@,
            predicate,
            Corner::TopLeft,
            grid_side_length as int,
            grid_side_length / 2 + 1,
        ),
        r.top_right == corner_sum(
            reachable@,
            predicate,
            Corner::TopRight,
            grid_side_length as int,
            grid_side_length / 2 + 1,
        ),
        r.bottom_left == corner_sum(
            reachable@,
            predicate,
            Corner::BottomLeft,
            grid_side_length as int,
            grid_side_length / 2 + 1,
        ),
        r.bottom_right == corner_sum(
            reachable@,
            predicate,
            Corner::BottomRight,
            grid_side_length as int,
            grid_side_length / 2 + 1,
        ),
        forall|holds: spec_fn(usize, usize) -> bool| #[trigger]
            tells(predicate, holds) ==> r == corners_by(reachable@, holds, grid_side_length as int),
{
    let half_grid = grid_side_length / 2;
    let ghost side = grid_side_length as int;
    let ghost cells = reachable@;
    let mut top_left: usize = 0;
    let mut top_right: usize = 0;
    let mut bottom_left: usize = 0;
    let mut bottom_right: usize = 0;
    let mut i: usize = 0;
    assert(0 * (half_grid + 1) == 0) by (nonlinear_arith);
    while i < half_grid + 1
        invariant
            i <= half_grid + 1,
            half_grid == grid_side_length / 2,
            side == grid_side_length,
            side >= 1,
            cells == reachable@,
            decides(predicate),
            (half_grid + 1) * (half_grid + 1) <= usize::MAX,
            top_left <= i * (half_grid + 1),
            top_right <= i * (half_grid + 1),
            bottom_left <= i * (half_grid + 1),
            bottom_right <= i * (half_grid + 1),
            top_left == corner_sum(cells, predicate, Corner::TopLeft, side, i as int),
            top_right == corner_sum(cells, predicate, Corner::TopRight, side, i as int),
            bottom_left == corner_sum(cells, predicate, Corner::BottomLeft, side, i as int),
            bottom_right == corner_sum(cells, predicate, Corner::BottomRight, side, i as int),
            forall|holds: spec_fn(usize, usize) -> bool| #[trigger]
                tells(predicate, holds) ==> top_left == corner_sum_by(cells, holds, Corner::TopLeft, side, i as int)
                    && top_right == corner_sum_by(cells, holds, Corner::TopRight, side, i as int) && bottom_left
                    == corner_sum_by(cells, holds, Corner::BottomLeft, side, i as int) && bottom_right
                    == corner_sum_by(cells, holds, Corner::BottomRight, side, i as int),
        decreases half_grid + 1 - i,
    {
        let ghost base = i * (half_grid + 1);
        let ghost top_left_before = top_left as int;
        let ghost top_right_before = top_right as int;
        let ghost bottom_left_before = bottom_left as int;
        let ghost bottom_right_before = bottom_right as int;
        proof {
            assert((i + 1) * (half_grid + 1) == i * (half_grid + 1) + (half_grid + 1)) by (nonlinear_arith);
            assert((i + 1) * (half_grid + 1) <= (half_grid + 1) * (half_grid + 1)) by (nonlinear_arith)
                requires
                    i + 1 <= half_grid + 1,
            ;
        }
        let mut j: usize = 0;
        while j < half_grid - i + 1
            invariant
                j <= half_grid - i + 1,
                i <= half_grid,
                half_grid == grid_side_length / 2,
                side == grid_side_length,
                side >= 1,
                cells == reachable@,
                decides(predicate),
                base + half_grid + 1 <= usize::MAX,
                top_left <= base + j,
                top_right <= base + j,
                bottom_left <= base + j,
                bottom_right <= base + j,
                top_left == top_left_before + corner_row(cells, predicate, Corner::TopLeft, side, i as int, j as int),
                top_right == top_right_before + corner_row(
                    cells,
                    predicate,
                    Corner::TopRight,
                    side,
                    i as int,
                    j as int,
                ),
                bottom_left == bottom_left_before + corner_row(
                    cells,
                    predicate,
                    Corner::BottomLeft,
                    side,
                    i as int,
                    j as int,
                ),
                bottom_right == bottom_right_before + corner_row(
                    cells,
                    predicate,
                    Corner::BottomRight,
                    side,
                    i as int,
                    j as int,
                ),
                forall|holds: spec_fn(usize, usize) -> bool| #[trigger]
                    tells(predicate, holds) ==> top_left == top_left_before + corner_row_by(
                        cells,
                        holds,
                        Corner::TopLeft,
                        side,
                        i as int,
                        j as int,
                    ) && top_right == top_right_before + corner_row_by(
                        cells,
                        holds,
                        Corner::TopRight,
                        side,
                        i as int,
                        j as int,
                    ) && bottom_left == bottom_left_before + corner_row_by(
                        cells,
                        holds,
                        Corner::BottomLeft,
                        side,
                        i as int,
                        j as int,
                    ) && bottom_right == bottom_right_before + corner_row_by(
                        cells,
                        holds,
                        Corner::BottomRight,
                        side,
                        i as int,
                        j as int,
                    ),
            decreases half_grid - i + 1 - j,
        {
            let rev_i = grid_side_length - i - 1;
            let rev_j = grid_side_length - j - 1;
            if is_counted(reachable, &predicate, i, j) {
                top_left = top_left + 1;
            }
            if is_counted(reachable, &predicate, i, rev_j) {
                top_right = top_right + 1;
            }
            if is_counted(reachable, &predicate, rev_i, j) {
                bottom_left = bottom_left + 1;
            }
            if is_counted(reachable, &predicate, rev_i, rev_j) {
                bottom_right = bottom_right + 1;
            }
            j = j + 1;
        }
        i = i + 1;
    }
    CornerCounts { top_left, top_right, bottom_left, bottom_right }
}

/// Whether the sum of the row and the column of a cell has the given
/// parity.
pub open spec fn on_parity(parity: int) -> spec_fn(usize, usize) -> bool {
    |i: usize, j: usize| (i + j) % 2 == parity
}

/// The number in a grid of a side of `side` cells that is repeated without
/// end, estimated from the gardens of even and of odd parity that are
/// reached in one grid and in its corners: the four kinds of grids that the
/// steps reach, each as often as it occurs for `q` grids to each side, less
/// a correction. There is none when a count of the corners is more than
/// the count of the grid, when a number on the way does not fit in 128
/// bits, or when the result is negative or does not fit in `usize`.
pub open spec fn weigh(even: int, odd: int, of_even: CornerCounts, of_odd: CornerCounts, q: int, correction: int) -> Option<
    usize,
> {
    let a = of_odd.top_left + of_odd.bottom_right + of_even.top_right + of_even.bottom_left;
    let b = of_even.top_left + of_even.bottom_right + of_odd.top_right + of_odd.bottom_left;
    let o = even - of_even.top_left - of_even.top_right - of_even.bottom_left - of_even.bottom_right;
    let e = odd - of_odd.top_left - of_odd.top_right - of_odd.bottom_left - of_odd.bottom_right;
    let total = (q + 1) * (q + 1) * o + q * q * e + q * (q + 1) * a + q * (q + 1) * b;
    if o >= 0 && e >= 0 && (q + 1) * (q + 1) <= u128::MAX && (q + 1) * (q + 1) * o <= u128::MAX && q * q * e
        <= u128::MAX && q * (q + 1) * a <= u128::MAX && q * (q + 1) * b <= u128::MAX && total <= u128::MAX
        && correction <= total && total - correction <= usize::MAX {
        Some((total - correction) as usize)
    } else {
        None
    }
}

/// Weighs the counts of one grid for the grid repeated without end.
pub fn weigh_gardens(
    even: usize,
    odd: usize,
    of_even: CornerCounts,
    of_odd: CornerCounts,
    q: usize,
    correction: usize,
) -> (r: Option<usize>)
    ensures
        r == weigh(even as int, odd as int, of_even, of_odd, q as int, correction as int),
{
    let a: u128 = of_odd.top_left as u128 + of_odd.bottom_right as u128 + of_even.top_right as u128
        + of_even.bottom_left as u128;
    let b: u128 = of_even.top_left as u128 + of_even.bottom_right as u128 + of_odd.top_right as u128
        + of_odd.bottom_left as u128;
    let o_wide: i128 = even as i128 - of_even.top_left as i128 - of_even.top_right as i128 - of_even.bottom_left as i128
        - of_even.bottom_right as i128;
    let e_wide: i128 = odd as i128 - of_odd.top_left as i128 - of_odd.top_right as i128 - of_odd.bottom_left as i128
        - of_odd.bottom_right as i128;
    if o_wide < 0 || e_wide < 0 {
        return None;
    }
    let o: u128 = o_wide as u128;
    let e: u128 = e_wide as u128;
    let more: u128 = q as u128 + 1;
    let wide: u128 = q as u128;
    proof {
        assert(wide * wide <= more * more && wide * more <= more * more && 0 <= wide * wide && 0 <= wide * more)
            by (nonlinear_arith)
            requires
                more == wide + 1,
                wide >= 0,
        ;
    }
    let o_count = match more.checked_mul(more) {
        Some(v) => v,
        None => {
            return None;
        },
    };
    let e_count: u128 = wide * wide;
    let a_count: u128 = wide * more;
    let first = match o_count.checked_mul(o) {
        Some(v) => v,
        None => {
            return None;
        },
    };
    let second = match e_count.checked_mul(e) {
        Some(v) => v,
        None => {
            return None;
        },
    };
    let third = match a_count.checked_mul(a) {
        Some(v) => v,
        None => {
            return None;
        },
    };
    let fourth = match a_count.checked_mul(b) {
        Some(v) => v,
        None => {
            return None;
        },
    };
    let total = match first.checked_add(second) {
        Some(sum) => match sum.checked_add(third) {
            Some(sum) => match sum.checked_add(fourth) {
                Some(sum) => sum,
                None => {
                    return None;
                },
            },
            None => {
                return None;
            },
        },
        None => {
            return None;
        },
    };
    if (correction as u128) > total || total - correction as u128 > usize::MAX as u128 {
        return None;
    }
    Some((total - correction as u128) as usize)
}

/// Whether `cells` lists, row by row, the cells that exactly `distance`
/// steps lead to from the middle of the grid.
pub open spec fn reaches(grid: Array2D<u8>, distance: nat, cells: Seq<(usize, usize)>) -> bool {
    listed_in_order(cells) && forall|i: usize, j: usize|
        cells.contains((i, j)) <==> reached(
            grid_rows(grid),
            grid_width(grid) as int,
            ((grid_height(grid) / 2) as int, (grid_width(grid) / 2) as int),
            distance,
            i as int,
            j as int,
        )
}

/// The number that `weigh` gives for the gardens among `cells`.
pub open spec fn estimate_of(cells: Seq<(usize, usize)>, side: int, q: int, correction: int) -> Option<usize> {
    weigh(
        count_by(cells, on_parity(0), cells.len() as int),
        count_by(cells, on_parity(1), cells.len() as int),
        corners_by(cells, on_parity(0), side),
        corners_by(cells, on_parity(1), side),
        q,
        correction,
    )
}

/// An estimate of the number of gardens that `num_steps` steps lead to in
/// the grid repeated without end, from the gardens that 65 steps lead to
/// in one grid, less `correction`. The grid must be a square of odd side,
/// and the steps must lead from its middle to its rim and then across an
/// even number of whole grids.
pub fn estimate_gardens(grid: &Array2D<u8>, num_steps: usize, correction: usize) -> (r: Option<usize>)
    requires
        grid_height(*grid) == grid_width(*grid),
        grid_height(*grid) % 2 == 1,
        (num_steps as int) % (grid_height(*grid) as int) == grid_height(*grid) / 2,
        ((num_steps as int) / (grid_height(*grid) as int)) % 2 == 0,
        grid_height(*grid) * grid_width(*grid) <= usize::MAX,
    ensures
        exists|cells: Seq<(usize, usize)>| #[trigger]
            reaches(*grid, 65, cells) && r == estimate_of(
                cells,
                grid_height(*grid) as int,
                (num_steps as int) / (grid_height(*grid) as int),
                correction as int,
            ),
{
    let side = grid_num_rows(grid);
    let width = grid_num_columns(grid);
    let q = num_steps / side;
    let reachable_grid = part1(grid, 65);
    let even = |i: usize, j: usize| -> (b: bool)
        ensures
            b == ((i + j) % 2 == 0),
        { (i % 2 + j % 2) % 2 == 0 };
    let odd = |i: usize, j: usize| -> (b: bool)
        ensures
            b == ((i + j) % 2 == 1),
        { (i % 2 + j % 2) % 2 == 1 };
    proof {
        assert(tells(even, on_parity(0)));
        assert(tells(odd, on_parity(1)));
        assert((side / 2 + 1) * (side / 2 + 1) <= side * side) by (nonlinear_arith)
            requires
                side >= 1,
                side % 2 == 1,
        ;
    }
    let num_even_gardens = num_gardens_with(&reachable_grid, even);
    let num_odd_gardens = num_gardens_with(&reachable_grid, odd);
    let of_even = num_gardens_in_corners_with(&reachable_grid, side, even);
    let of_odd = num_gardens_in_corners_with(&reachable_grid, side, odd);
    proof {
        assert(reaches(*grid, 65, reachable_grid@));
    }
    weigh_gardens(num_even_gardens, num_odd_gardens, of_even, of_odd, q, correction)
}

} // verus!
