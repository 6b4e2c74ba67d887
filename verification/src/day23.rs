//! A hike: the longest way through a forest without stepping on a tile
//! twice.

use crate::grid::{
    cell, grid_from_rows, grid_get, grid_height, grid_num_columns, grid_num_rows, grid_rows, grid_set,
    grid_width, in_grid, rectangular, row_views,
};
use crate::numbers::lemma_cell_bound;
use crate::text::{lines, lines_of, views};
use array2d::Array2D;
use vstd::prelude::*;
use vstd::string::StringSliceAdditionalSpecFns;

verus! {

/// A direction of a step or of a slope.
#[derive(Debug, Clone, Copy, PartialEq, Eq, Structural)]
pub enum Direction {
    North,
    East,
    South,
    West,
}

/// A tile of the map, by its row and its column.
pub type Position = (usize, usize);

impl Direction {
    /// The direction that faces this one.
    pub open spec fn opposite(self) -> Direction {
        match self {
            Direction::North => Direction::South,
            Direction::East => Direction::West,
            Direction::South => Direction::North,
            Direction::West => Direction::East,
        }
    }

    /// The tile one step from `point` in this direction.
    pub open spec fn stepped(self, point: (usize, usize)) -> (int, int) {
        match self {
            Direction::North => (point.0 - 1, point.1 as int),
            Direction::East => (point.0 as int, point.1 + 1),
            Direction::South => (point.0 + 1, point.1 as int),
            Direction::West => (point.0 as int, point.1 - 1),
        }
    }

    pub fn is_opposite(&self, other: Self) -> (b: bool)
        ensures
            b == (self.opposite() == other),
    {
        let oppo = match self {
            Direction::North => Direction::South,
            Direction::East => Direction::West,
            Direction::South => Direction::North,
            Direction::West => Direction::East,
        };
        oppo == other
    }

    /// The tile one step from `point` in this direction, which must have a
    /// row and a column that `usize` holds.
    pub fn move_one_step(&self, point: (usize, usize)) -> (p: (usize, usize))
        requires
            0 <= self.stepped(point).0 <= usize::MAX,
            0 <= self.stepped(point).1 <= usize::MAX,
        ensures
            p.0 == self.stepped(point).0,
            p.1 == self.stepped(point).1,
    {
        let (row, column) = point;
        match self {
            Direction::North => (row - 1, column),
            Direction::East => (row, column + 1),
            Direction::South => (row + 1, column),
            Direction::West => (row, column - 1),
        }
    }
}

/// A tile: a path, forest, or a slope down in some direction.
#[derive(Debug, Clone, Copy, PartialEq, Eq, Structural)]
pub enum Tile {
    Path,
    Forest,
    Slope(Direction),
}

/// The byte `.`, a path.
pub const PATH: u8 = 46;

/// The byte `#`, forest.
pub const FOREST: u8 = 35;

impl Tile {
    /// The tile that a byte stands for: `.`, `#`, `^`, `>`, `v` or `<`.
    pub open spec fn of(c: u8) -> Option<Tile> {
        if c == PATH {
            Some(Tile::Path)
        } else if c == FOREST {
            Some(Tile::Forest)
        } else if c == 94 {
            Some(Tile::Slope(Direction::North))
        } else if c == 62 {
            Some(Tile::Slope(Direction::East))
        } else if c == 118 {
            Some(Tile::Slope(Direction::South))
        } else if c == 60 {
            Some(Tile::Slope(Direction::West))
        } else {
            None
        }
    }

    /// Reads a tile from its byte.
    pub fn from_u8(c: u8) -> (r: Option<Tile>)
        ensures
            r == Tile::of(c),
    {
        if c == PATH {
            Some(Tile::Path)
        } else if c == FOREST {
            Some(Tile::Forest)
        } else if c == 94 {
            Some(Tile::Slope(Direction::North))
        } else if c == 62 {
            Some(Tile::Slope(Direction::East))
        } else if c == 118 {
            Some(Tile::Slope(Direction::South))
        } else if c == 60 {
            Some(Tile::Slope(Direction::West))
        } else {
            None
        }
    }
}

/// The bytes of the first `n` lines, one line after the other.
pub open spec fn joined(ls: Seq<Seq<u8>>, n: int) -> Seq<u8>
    decreases n,
{
    if n <= 0 {
        Seq::empty()
    } else {
        joined(ls, n - 1) + ls[n - 1]
    }
}

/// Whether every byte stands for a tile.
pub open spec fn tiles(s: Seq<u8>) -> bool {
    forall|i: int| 0 <= i < s.len() ==> Tile::of(#[trigger] s[i]) is Some
}

/// The rows of the map that a text describes: as many rows as the text has
/// lines, each as long as the first line, filled row by row with the bytes
/// of all lines one after the other. There is none for a text without a
/// line, with a byte that stands for no tile among those that are read, or
/// with too few bytes.
pub open spec fn map_of(text: Seq<u8>) -> Option<Seq<Seq<u8>>> {
    let ls = lines_of(text);
    if ls.len() == 0 {
        None
    } else {
        let h = ls.len() as int;
        let w = ls[0].len() as int;
        let all = joined(ls, h);
        if all.len() >= h * w && tiles(all.take(h * w)) {
            Some(Seq::new(h as nat, |r: int| all.subrange(r * w, r * w + w)))
        } else {
            None
        }
    }
}

/// Reads a map.
pub fn parse_input(input: &str) -> (r: Option<Array2D<u8>>)
    ensures
        match r {
            Some(grid) => map_of(input.spec_bytes()) == Some(grid_rows(grid)),
            None => map_of(input.spec_bytes()) is None,
        },
        r matches Some(grid) ==> rectangular(grid_rows(grid), grid_width(grid)) && grid_width(grid) == (if grid_rows(
            grid,
        ).len() > 0 {
            grid_rows(grid)[0].len()
        } else {
            0
        }),
{
    let ls = lines(input.as_bytes());
    let ghost texts = lines_of(input.spec_bytes());
    assert(texts.len() == ls@.len());
    if ls.len() == 0 {
        return None;
    }
    assert(texts[0] == ls@[0]@);
    let num_rows = ls.len();
    let num_columns = ls[0].len();
    let mut flat: Vec<u8> = Vec::new();
    let mut i: usize = 0;
    while i < ls.len()
        invariant
            i <= ls.len(),
            texts == views(ls@),
            flat@ == joined(texts, i as int),
        decreases ls.len() - i,
    {
        assert(texts[i as int] == ls@[i as int]@);
        let line = ls[i];
        let ghost before = flat@;
        let mut k: usize = 0;
        while k < line.len()
            invariant
                k <= line.len(),
                flat@ == before + line@.take(k as int),
            decreases line.len() - k,
        {
            flat.push(line[k]);
            assert(before + line@.take(k + 1) =~= (before + line@.take(k as int)).push(line@[k as int]));
            k = k + 1;
        }
        assert(line@.take(k as int) =~= line@);
        i = i + 1;
    }
    let ghost all = joined(texts, num_rows as int);
    let needed = match (num_rows as u128).checked_mul(num_columns as u128) {
        Some(needed) => needed,
        None => {
            assert(false) by {
                assert(num_rows * num_columns <= 0xffff_ffff_ffff_ffff * 0xffff_ffff_ffff_ffff) by (nonlinear_arith)
                    requires
                        num_rows <= 0xffff_ffff_ffff_ffff,
                        num_columns <= 0xffff_ffff_ffff_ffff,
                ;
            }
            return None;
        },
    };
    if needed > flat.len() as u128 {
        return None;
    }
    let ghost h = num_rows as int;
    let ghost w = num_columns as int;
    let total = flat.len();
    let mut rows: Vec<Vec<u8>> = Vec::new();
    let mut r: usize = 0;
    assert(0 * w == 0) by (nonlinear_arith);
    while r < num_rows
        invariant
            r <= num_rows,
            h == num_rows,
            w == num_columns,
            all == flat@,
            h * w <= all.len(),
            all.len() <= usize::MAX,
            rows@.len() == r,
            forall|k: int| 0 <= k < r ==> (#[trigger] rows@[k])@ == all.subrange(k * w, k * w + w),
            tiles(all.take(r * w)),
            map_of(input.spec_bytes()) == (if all.len() >= h * w && tiles(all.take(h * w)) {
                Some(Seq::new(h as nat, |r: int| all.subrange(r * w, r * w + w)))
            } else {
                None
            }),
        decreases num_rows - r,
    {
        proof {
            assert(0 <= r * w) by (nonlinear_arith)
                requires
                    r >= 0,
                    w >= 0,
            ;
            assert((r + 1) * w == r * w + w) by (nonlinear_arith);
            assert((r + 1) * w <= h * w) by (nonlinear_arith)
                requires
                    r + 1 <= h,
                    w >= 0,
            ;
        }
        let mut row: Vec<u8> = Vec::new();
        let mut c: usize = 0;
        while c < num_columns
            invariant
                c <= num_columns,
                r < num_rows,
                h == num_rows,
                w == num_columns,
                all == flat@,
                all.len() <= usize::MAX,
                h * w <= all.len(),
                r * w + w <= all.len(),
                0 <= r * w,
                row@ == all.subrange(r * w, r * w + c),
                tiles(all.take(r * w + c)),
                map_of(input.spec_bytes()) == (if all.len() >= h * w && tiles(all.take(h * w)) {
                    Some(Seq::new(h as nat, |r: int| all.subrange(r * w, r * w + w)))
                } else {
                    None
                }),
                r * w + w <= h * w,
            decreases num_columns - c,
        {
            let tile = flat[r * num_columns + c];
            if Tile::from_u8(tile).is_none() {
                proof {
                    assert(all.take(h * w)[r * w + c] == tile);
                }
                return None;
            }
            row.push(tile);
            proof {
                assert(all.subrange(r * w, r * w + c + 1) =~= all.subrange(r * w, r * w + c).push(tile));
                assert forall|k: int| 0 <= k < r * w + c + 1 implies Tile::of(
                    #[trigger] all.take(r * w + c + 1)[k],
                ) is Some by {
                    if k < r * w + c {
                        assert(all.take(r * w + c)[k] == all[k]);
                    }
                }
            }
            c = c + 1;
        }
        rows.push(row);
        r = r + 1;
    }
    proof {
        assert(row_views(rows@) =~= Seq::new(h as nat, |r: int| all.subrange(r * w, r * w + w)));
        assert forall|k: int| 0 <= k < rows@.len() implies (#[trigger] rows@[k])@.len() == rows@[0]@.len() by {
            assert(0 <= k * w && k * w + w <= h * w) by (nonlinear_arith)
                requires
                    0 <= k,
                    k + 1 <= h,
                    w >= 0,
            ;
            assert(0 * w == 0) by (nonlinear_arith);
        }
    }
    match grid_from_rows(rows.as_slice()) {
        Ok(grid) => Some(grid),
        Err(_) => None,
    }
}

/// The rows with every slope made a path.
pub open spec fn without_slopes(rows: Seq<Seq<u8>>, w: int) -> Seq<Seq<u8>> {
    Seq::new(
        rows.len(),
        |r: int| Seq::new(w as nat, |c: int| if Tile::of(rows[r][c]) is Some && Tile::of(rows[r][c]).unwrap() is Slope {
            PATH
        } else {
            rows[r][c]
        }),
    )
}

/// Makes every slope a path.
pub fn replace_slopes_with_paths(grid: &mut Array2D<u8>)
    ensures
        grid_rows(*final(grid)) == without_slopes(grid_rows(*old(grid)), grid_width(*old(grid)) as int),
        grid_width(*final(grid)) == grid_width(*old(grid)),
{
    let h = grid_num_rows(grid);
    let w = grid_num_columns(grid);
    let ghost rows = grid_rows(*grid);
    let ghost wanted = without_slopes(rows, w as int);
    let mut row: usize = 0;
    while row < h
        invariant
            row <= h,
            h == rows.len(),
            w == grid_width(*grid),
            grid_width(*grid) == grid_width(*old(grid)),
            rows == grid_rows(*old(grid)),
            grid_height(*grid) == h,
            rectangular(rows, w as nat),
            rectangular(grid_rows(*grid), w as nat),
            wanted == without_slopes(rows, w as int),
            forall|r: int| 0 <= r < row ==> #[trigger] grid_rows(*grid)[r] == wanted[r],
            forall|r: int| row <= r < h ==> #[trigger] grid_rows(*grid)[r] == rows[r],
        decreases h - row,
    {
        let mut column: usize = 0;
        while column < w
            invariant
                column <= w,
                row < h,
                h == rows.len(),
                w == grid_width(*grid),
                grid_width(*grid) == grid_width(*old(grid)),
                rows == grid_rows(*old(grid)),
                grid_height(*grid) == h,
                rectangular(rows, w as nat),
                rectangular(grid_rows(*grid), w as nat),
                wanted == without_slopes(rows, w as int),
                forall|r: int| 0 <= r < row ==> #[trigger] grid_rows(*grid)[r] == wanted[r],
                forall|r: int| row < r < h ==> #[trigger] grid_rows(*grid)[r] == rows[r],
                forall|c: int| 0 <= c < column ==> #[trigger] grid_rows(*grid)[row as int][c] == wanted[row as int][c],
                forall|c: int| column <= c < w ==> #[trigger] grid_rows(*grid)[row as int][c] == rows[row as int][c],
            decreases w - column,
        {
            let tile = grid_get(grid, row, column).unwrap();
            match Tile::from_u8(tile) {
                Some(Tile::Slope(_)) => {
                    let _ = grid_set(grid, row, column, PATH);
                },
                _ => {},
            }
            column = column + 1;
        }
        proof {
            assert(grid_rows(*grid)[row as int] =~= wanted[row as int]);
        }
        row = row + 1;
    }
    assert(grid_rows(*grid) =~= wanted);
}

/// What trying to step from `position` in `direction` gives: a failure when
/// the step leaves the map sideways, nothing when it is barred by the top
/// or bottom row or by forest, and otherwise the tile reached. From the top
/// row only a step south is tried, and from the bottom row only one north.
pub open spec fn step_of(g: Array2D<u8>, position: (usize, usize), direction: Direction) -> Option<
    Option<((usize, usize), Direction)>,
> {
    if position.0 == 0 && direction != Direction::South {
        Some(None)
    } else if position.0 == grid_height(g) - 1 && direction != Direction::North {
        Some(None)
    } else {
        let (row, column) = direction.stepped(position);
        if in_grid(g, row, column) {
            if cell(g, row, column) == FOREST {
                Some(None)
            } else {
                Some(Some(((row as usize, column as usize), direction)))
            }
        } else {
            None
        }
    }
}

/// The step as a list of no or one tile.
pub open spec fn as_list(step: Option<((usize, usize), Direction)>) -> Seq<((usize, usize), Direction)> {
    match step {
        Some(s) => seq![s],
        None => Seq::empty(),
    }
}

/// The tiles that can be stepped to from `position`, each with the direction
/// of the step: from a path north, east, south and west as far as they are
/// open, from a slope only downhill. There are none to speak of when the
/// position is off the map or in the forest, or when a step leaves the map
/// sideways.
pub open spec fn moves_of(g: Array2D<u8>, position: (usize, usize)) -> Option<Seq<((usize, usize), Direction)>> {
    if !in_grid(g, position.0 as int, position.1 as int) {
        None
    } else {
        match Tile::of(cell(g, position.0 as int, position.1 as int)) {
            Some(Tile::Path) => match (
                step_of(g, position, Direction::North),
                step_of(g, position, Direction::East),
                step_of(g, position, Direction::South),
                step_of(g, position, Direction::West),
            ) {
                (Some(n), Some(e), Some(s), Some(w)) => Some(as_list(n) + as_list(e) + as_list(s) + as_list(w)),
                _ => None,
            },
            Some(Tile::Slope(direction)) => match step_of(g, position, direction) {
                Some(step) => Some(as_list(step)),
                None => None,
            },
            _ => None,
        }
    }
}

/// Tries to step from `position` in `direction`.
fn try_direction(grid: &Array2D<u8>, position: (usize, usize), direction: Direction) -> (r: Option<
    Option<((usize, usize), Direction)>,
>)
    requires
        in_grid(*grid, position.0 as int, position.1 as int),
    ensures
        r == step_of(*grid, position, direction),
        r matches Some(Some(step)) ==> in_grid(*grid, step.0.0 as int, step.0.1 as int),
{
    let h = grid_num_rows(grid);
    let w = grid_num_columns(grid);
    if position.0 == 0 && !matches!(direction, Direction::South) {
        return Some(None);
    }
    if position.0 == h - 1 && !matches!(direction, Direction::North) {
        return Some(None);
    }
    let target: Option<(usize, usize)> = match direction {
        Direction::North => if position.0 > 0 {
            Some((position.0 - 1, position.1))
        } else {
            None
        },
        Direction::East => if position.1 + 1 < w {
            Some((position.0, position.1 + 1))
        } else {
            None
        },
        Direction::South => if position.0 + 1 < h {
            Some((position.0 + 1, position.1))
        } else {
            None
        },
        Direction::West => if position.1 > 0 {
            Some((position.0, position.1 - 1))
        } else {
            None
        },
    };
    match target {
        None => None,
        Some(new_position) => {
            if grid_get(grid, new_position.0, new_position.1).unwrap() == FOREST {
                Some(None)
            } else {
                Some(Some((new_position, direction)))
            }
        },
    }
}

/// The tiles that can be stepped to from `position`.
pub fn get_successors(grid: &Array2D<u8>, position: (usize, usize)) -> (r: Option<Vec<((usize, usize), Direction)>>)
    ensures
        match r {
            Some(moves) => moves_of(*grid, position) == Some(moves@) && moves@.len() <= 4 && in_grid(
                *grid,
                position.0 as int,
                position.1 as int,
            ) && forall|k: int|
                0 <= k < moves@.len() ==> in_grid(*grid, (#[trigger] moves@[k]).0.0 as int, moves@[k].0.1 as int),
            None => moves_of(*grid, position) is None,
        },
{
    let tile = grid_get(grid, position.0, position.1)?;
    let mut result: Vec<((usize, usize), Direction)> = Vec::new();
    match Tile::from_u8(tile) {
        Some(Tile::Path) => {
            let n = try_direction(grid, position, Direction::North)?;
            let e = try_direction(grid, position, Direction::East)?;
            let s = try_direction(grid, position, Direction::South)?;
            let w = try_direction(grid, position, Direction::West)?;
            if let Some(step) = n {
                result.push(step);
            }
            assert(result@ =~= as_list(n));
            if let Some(step) = e {
                result.push(step);
            }
            assert(result@ =~= as_list(n) + as_list(e));
            if let Some(step) = s {
                result.push(step);
            }
            assert(result@ =~= as_list(n) + as_list(e) + as_list(s));
            if let Some(step) = w {
                result.push(step);
            }
            assert(result@ =~= as_list(n) + as_list(e) + as_list(s) + as_list(w));
            Some(result)
        },
        Some(Tile::Slope(direction_to_try)) => {
            let step = try_direction(grid, position, direction_to_try)?;
            if let Some(succ) = step {
                result.push(succ);
            }
            assert(result@ =~= as_list(step));
            Some(result)
        },
        _ => None,
    }
}

/// The index of the first of the moves from `from` on that does not go back
/// against `direction`, or the number of moves.
pub open spec fn onward(moves: Seq<((usize, usize), Direction)>, direction: Direction, from: int) -> int
    decreases moves.len() - from,
{
    if from >= moves.len() {
        moves.len() as int
    } else if moves[from].1.opposite() != direction {
        from
    } else {
        onward(moves, direction, from + 1)
    }
}

/// Where the trail leads that has come to `position` in `direction` after
/// `distance` steps: to the first tile in the top or bottom row or with at
/// least three ways out, with the number of steps to it; nowhere when it
/// ends without one. It fails when there are no moves to speak of at a tile
/// or when more than `fuel` further steps do not end it.
pub open spec fn trail_end(
    g: Array2D<u8>,
    position: (usize, usize),
    direction: Direction,
    distance: usize,
    fuel: nat,
) -> Option<Option<((usize, usize), usize)>>
    decreases fuel,
{
    match moves_of(g, position) {
        None => None,
        Some(moves) => if position.0 == 0 || position.0 == grid_height(g) - 1 || moves.len() >= 3 {
            Some(Some((position, distance)))
        } else {
            let k = onward(moves, direction, 0);
            if k >= moves.len() {
                Some(None)
            } else if fuel == 0 || distance == usize::MAX {
                None
            } else {
                trail_end(g, moves[k].0, moves[k].1, (distance + 1) as usize, (fuel - 1) as nat)
            }
        },
    }
}

/// Follows a trail to its end.
fn follow_trail(grid: &Array2D<u8>, position: (usize, usize), direction: Direction, fuel: usize) -> (r: Option<
    Option<((usize, usize), usize)>,
>)
    ensures
        r == trail_end(*grid, position, direction, 1, fuel as nat),
        r matches Some(Some(end)) ==> in_grid(*grid, end.0.0 as int, end.0.1 as int),
{
    let h = grid_num_rows(grid);
    let mut cur_pos = position;
    let mut prev_direction = direction;
    let mut distance: usize = 1;
    let mut left = fuel;
    let ghost whole = trail_end(*grid, position, direction, 1, fuel as nat);
    loop
        invariant
            h == grid_height(*grid),
            whole == trail_end(*grid, position, direction, 1, fuel as nat),
            whole == trail_end(*grid, cur_pos, prev_direction, distance, left as nat),
        decreases left,
    {
        let cur_pos_successors = get_successors(grid, cur_pos)?;
        if cur_pos.0 == 0 || cur_pos.0 == h - 1 || cur_pos_successors.len() >= 3 {
            return Some(Some((cur_pos, distance)));
        }
        let mut k: usize = 0;
        while k < cur_pos_successors.len() && cur_pos_successors[k].1.is_opposite(prev_direction)
            invariant
                k <= cur_pos_successors.len(),
                onward(cur_pos_successors@, prev_direction, 0) == onward(
                    cur_pos_successors@,
                    prev_direction,
                    k as int,
                ),
            decreases cur_pos_successors.len() - k,
        {
            k = k + 1;
        }
        if k >= cur_pos_successors.len() {
            return Some(None);
        }
        if left == 0 || distance == usize::MAX {
            return None;
        }
        cur_pos = cur_pos_successors[k].0;
        prev_direction = cur_pos_successors[k].1;
        distance = distance + 1;
        left = left - 1;
    }
}

/// The index of the first entry from `from` on for `position`, or the number
/// of entries.
pub open spec fn entry_of(list: Seq<((usize, usize), usize)>, position: (usize, usize), from: int) -> int
    decreases list.len() - from,
{
    if from >= list.len() {
        list.len() as int
    } else if list[from].0 == position {
        from
    } else {
        entry_of(list, position, from + 1)
    }
}

/// The list with the distance to `position` on record: the greater of this
/// one and one that was on record before.
pub open spec fn with_edge(list: Seq<((usize, usize), usize)>, position: (usize, usize), distance: usize) -> Seq<
    ((usize, usize), usize),
> {
    let k = entry_of(list, position, 0);
    if k < list.len() {
        list.update(k, (position, if distance > list[k].1 { distance } else { list[k].1 }))
    } else {
        list.push((position, distance))
    }
}

/// The edges that the first `n` moves from a junction give: for each move
/// whose trail ends at a junction, that junction with the length of the
/// trail.
pub open spec fn edges_from(
    g: Array2D<u8>,
    moves: Seq<((usize, usize), Direction)>,
    n: int,
    fuel: nat,
) -> Option<Seq<((usize, usize), usize)>>
    decreases n,
{
    if n <= 0 {
        Some(Seq::empty())
    } else {
        match (edges_from(g, moves, n - 1, fuel), trail_end(g, moves[n - 1].0, moves[n - 1].1, 1, fuel)) {
            (Some(list), Some(end)) => match end {
                Some((position, distance)) => Some(with_edge(list, position, distance)),
                None => Some(list),
            },
            _ => None,
        }
    }
}

/// The edges of the junction at `position`, with at most `fuel` steps to a
/// trail.
pub open spec fn edges_of(g: Array2D<u8>, position: (usize, usize), fuel: nat) -> Option<
    Seq<((usize, usize), usize)>,
> {
    match moves_of(g, position) {
        None => None,
        Some(moves) => edges_from(g, moves, moves.len() as int, fuel),
    }
}

/// If the first `i` moves give no edges, neither do the first `n`.
pub proof fn lemma_edges_from_prefix(
    g: Array2D<u8>,
    moves: Seq<((usize, usize), Direction)>,
    i: int,
    n: int,
    fuel: nat,
)
    requires
        0 <= i <= n,
        edges_from(g, moves, i, fuel) is None,
    ensures
        edges_from(g, moves, n, fuel) is None,
    decreases n - i,
{
    if i < n {
        lemma_edges_from_prefix(g, moves, i, n - 1, fuel);
    }
}

/// Puts the distance to `position` on record.
fn record_edge(list: &mut Vec<((usize, usize), usize)>, position: (usize, usize), distance: usize)
    ensures
        final(list)@ == with_edge(old(list)@, position, distance),
        final(list)@.len() <= old(list)@.len() + 1,
        forall|t: int|
            0 <= t < final(list)@.len() ==> (#[trigger] final(list)@[t]).0 == position || (t < old(list)@.len()
                && final(list)@[t].0 == old(list)@[t].0),
{
    let mut k: usize = 0;
    while k < list.len()
        invariant
            k <= list.len(),
            list@ == old(list)@,
            entry_of(list@, position, 0) == entry_of(list@, position, k as int),
        decreases list.len() - k,
    {
        if list[k].0.0 == position.0 && list[k].0.1 == position.1 {
            let longest = if distance > list[k].1 {
                distance
            } else {
                list[k].1
            };
            list.set(k, (position, longest));
            return ;
        }
        k = k + 1;
    }
    list.push((position, distance));
}

/// The edges of the junction at `position`.
fn junction_edges(grid: &Array2D<u8>, position: (usize, usize), fuel: usize) -> (r: Option<
    Vec<((usize, usize), usize)>,
>)
    ensures
        match r {
            Some(edges) => edges_of(*grid, position, fuel as nat) == Some(edges@) && edges@.len() <= 4 && in_grid(
                *grid,
                position.0 as int,
                position.1 as int,
            ) && forall|k: int|
                0 <= k < edges@.len() ==> in_grid(*grid, (#[trigger] edges@[k]).0.0 as int, edges@[k].0.1 as int),
            None => edges_of(*grid, position, fuel as nat) is None,
        },
{
    let moves = get_successors(grid, position)?;
    let mut edges: Vec<((usize, usize), usize)> = Vec::new();
    let mut i: usize = 0;
    while i < moves.len()
        invariant
            i <= moves.len(),
            moves_of(*grid, position) == Some(moves@),
            edges_from(*grid, moves@, i as int, fuel as nat) == Some(edges@),
            edges@.len() <= i,
            moves@.len() <= 4,
            forall|k: int|
                0 <= k < edges@.len() ==> in_grid(*grid, (#[trigger] edges@[k]).0.0 as int, edges@[k].0.1 as int),
        decreases moves.len() - i,
    {
        let (cur_pos, prev_direction) = moves[i];
        match follow_trail(grid, cur_pos, prev_direction, fuel) {
            None => {
                proof {
                    lemma_edges_from_prefix(*grid, moves@, i + 1, moves@.len() as int, fuel as nat);
                }
                return None;
            },
            Some(None) => {},
            Some(Some((end, distance))) => {
                record_edge(&mut edges, end, distance);
            },
        }
        i = i + 1;
    }
    Some(edges)
}

/// Junctions, and for each the junctions that trails lead to from it, with
/// the lengths of the trails.
#[derive(Debug)]
pub struct Graph {
    pub nodes: Vec<(usize, usize)>,
    pub successors: Vec<Vec<((usize, usize), usize)>>,
}

/// A graph as plain values.
pub struct GraphView {
    pub nodes: Seq<(usize, usize)>,
    pub successors: Seq<Seq<((usize, usize), usize)>>,
}

/// The views of the lists of edges.
pub open spec fn edge_views(lists: Seq<Vec<((usize, usize), usize)>>) -> Seq<Seq<((usize, usize), usize)>> {
    lists.map_values(|l: Vec<((usize, usize), usize)>| l@)
}

impl View for Graph {
    type V = GraphView;

    open spec fn view(&self) -> GraphView {
        GraphView { nodes: self.nodes@, successors: edge_views(self.successors@) }
    }
}

/// The index of the first node from `from` on at `position`, or the number
/// of nodes.
pub open spec fn node_index(nodes: Seq<(usize, usize)>, position: (usize, usize), from: int) -> int
    decreases nodes.len() - from,
{
    if from >= nodes.len() {
        nodes.len() as int
    } else if nodes[from] == position {
        from
    } else {
        node_index(nodes, position, from + 1)
    }
}

impl GraphView {
    /// Whether every node has its list of edges.
    pub open spec fn wf(self) -> bool {
        self.nodes.len() == self.successors.len()
    }

    /// The graph with the edges of the node at `position` set to `edges`;
    /// the node is added if it is new.
    pub open spec fn with_node(self, position: (usize, usize), edges: Seq<((usize, usize), usize)>) -> GraphView {
        let i = node_index(self.nodes, position, 0);
        if i < self.nodes.len() {
            GraphView { nodes: self.nodes, successors: self.successors.update(i, edges) }
        } else {
            GraphView { nodes: self.nodes.push(position), successors: self.successors.push(edges) }
        }
    }
}

impl Graph {
    pub fn new() -> (g: Graph)
        ensures
            g@.nodes == Seq::<(usize, usize)>::empty(),
            g@.successors == Seq::<Seq<((usize, usize), usize)>>::empty(),
    {
        let g = Graph { nodes: Vec::new(), successors: Vec::new() };
        assert(g@.successors =~= Seq::<Seq<((usize, usize), usize)>>::empty());
        g
    }

    /// Finds the node at `position`.
    pub fn find(&self, position: &(usize, usize)) -> (r: Option<usize>)
        ensures
            match r {
                Some(i) => i < self@.nodes.len() && i == node_index(self@.nodes, *position, 0),
                None => node_index(self@.nodes, *position, 0) == self@.nodes.len(),
            },
    {
        let mut i: usize = 0;
        while i < self.nodes.len()
            invariant
                i <= self.nodes.len(),
                node_index(self@.nodes, *position, 0) == node_index(self@.nodes, *position, i as int),
            decreases self.nodes.len() - i,
        {
            if self.nodes[i].0 == position.0 && self.nodes[i].1 == position.1 {
                return Some(i);
            }
            i = i + 1;
        }
        None
    }

    /// Sets the edges of the node at `k`, which is added if it is new, and
    /// returns the edges it had before.
    pub fn insert(&mut self, k: (usize, usize), v: Vec<((usize, usize), usize)>) -> (before: Option<
        Vec<((usize, usize), usize)>,
    >)
        requires
            old(self)@.wf(),
        ensures
            final(self)@ == old(self)@.with_node(k, v@),
            final(self)@.wf(),
            match before {
                Some(edges) => node_index(old(self)@.nodes, k, 0) < old(self)@.nodes.len() && edges@ == old(
                    self,
                )@.successors[node_index(old(self)@.nodes, k, 0)],
                None => node_index(old(self)@.nodes, k, 0) == old(self)@.nodes.len(),
            },
    {
        let ghost old_lists = self.successors@;
        match self.find(&k) {
            Some(i) => {
                assert(edge_views(old_lists)[i as int] == old_lists[i as int]@);
                let before = self.successors.remove(i);
                self.successors.insert(i, v);
                proof {
                    assert(self.successors@ =~= old_lists.update(i as int, v));
                    assert(edge_views(self.successors@) =~= edge_views(old_lists).update(i as int, v@));
                }
                Some(before)
            },
            None => {
                self.nodes.push(k);
                self.successors.push(v);
                proof {
                    assert(edge_views(self.successors@) =~= edge_views(old_lists).push(v@));
                }
                None
            },
        }
    }
}

/// Whether every node that an edge leads to is a node or waits on the
/// stack.
pub open spec fn covered(graph: GraphView, stack: Seq<(usize, usize)>) -> bool {
    forall|i: int, k: int|
        0 <= i < graph.successors.len() && 0 <= k < graph.successors[i].len() ==> graph.nodes.contains(
            (#[trigger] graph.successors[i][k]).0,
        ) || stack.contains(graph.successors[i][k].0)
}

/// Whether every node has the edges that the trails from it give.
pub open spec fn edged(graph: GraphView, g: Array2D<u8>, fuel: nat) -> bool {
    forall|i: int|
        0 <= i < graph.nodes.len() ==> edges_of(g, #[trigger] graph.nodes[i], fuel) == Some(graph.successors[i])
}

/// Whether the graph is that of the junctions of the map: its first node is
/// the tile after the first in the top row, no tile is a node twice, every
/// node has the edges that the trails from it give, and every node that an
/// edge leads to is a node.
pub open spec fn maps(graph: GraphView, g: Array2D<u8>, fuel: nat) -> bool {
    &&& graph.wf()
    &&& graph.nodes.len() > 0
    &&& graph.nodes[0] == (0usize, 1usize)
    &&& graph.nodes.no_duplicates()
    &&& edged(graph, g, fuel)
    &&& covered(graph, Seq::empty())
}

/// Taking a node off the stack that is in the graph leaves everything
/// covered.
pub proof fn lemma_covered_pop(graph: GraphView, stack: Seq<(usize, usize)>)
    requires
        stack.len() > 0,
        covered(graph, stack),
        graph.nodes.contains(stack.last()),
    ensures
        covered(graph, stack.drop_last()),
{
    assert forall|i: int, k: int|
        0 <= i < graph.successors.len() && 0 <= k < graph.successors[i].len() implies graph.nodes.contains(
        (#[trigger] graph.successors[i][k]).0,
    ) || stack.drop_last().contains(graph.successors[i][k].0) by {
        let to = graph.successors[i][k].0;
        if !graph.nodes.contains(to) {
            let t = choose|t: int| 0 <= t < stack.len() && stack[t] == to;
            assert(stack.drop_last()[t] == to);
        }
    }
}

/// Putting a node into the graph whose edges lead to nodes, to the stack or
/// to itself leaves everything covered.
pub proof fn lemma_covered_insert(
    graph: GraphView,
    stack: Seq<(usize, usize)>,
    later: Seq<(usize, usize)>,
    node: (usize, usize),
    edges: Seq<((usize, usize), usize)>,
)
    requires
        graph.wf(),
        stack.len() > 0,
        stack.last() == node,
        covered(graph, stack),
        !graph.nodes.contains(node),
        forall|t: int| 0 <= t < stack.len() - 1 ==> later.contains(#[trigger] stack[t]),
        forall|t: int|
            0 <= t < edges.len() ==> graph.nodes.contains((#[trigger] edges[t]).0) || later.contains(edges[t].0)
                || edges[t].0 == node,
    ensures
        graph.with_node(node, edges) == (GraphView {
            nodes: graph.nodes.push(node),
            successors: graph.successors.push(edges),
        }),
        covered(graph.with_node(node, edges), later),
{
    lemma_node_index_absent(graph.nodes, node, 0);
    let after = graph.with_node(node, edges);
    assert(after.nodes[after.nodes.len() - 1] == node);
    assert forall|i: int, k: int|
        0 <= i < after.successors.len() && 0 <= k < after.successors[i].len() implies after.nodes.contains(
        (#[trigger] after.successors[i][k]).0,
    ) || later.contains(after.successors[i][k].0) by {
        let to = after.successors[i][k].0;
        if i < graph.successors.len() {
            assert(after.successors[i] == graph.successors[i]);
            if graph.nodes.contains(to) {
                let u = choose|u: int| 0 <= u < graph.nodes.len() && graph.nodes[u] == to;
                assert(after.nodes[u] == to);
            } else if to != node {
                let u = choose|u: int| 0 <= u < stack.len() && stack[u] == to;
                assert(later.contains(stack[u]));
            }
        } else {
            assert(after.successors[i] == edges);
            if graph.nodes.contains(to) {
                let u = choose|u: int| 0 <= u < graph.nodes.len() && graph.nodes[u] == to;
                assert(after.nodes[u] == to);
            }
        }
    }
}

/// A position that is found is at a node.
pub proof fn lemma_node_index_found(nodes: Seq<(usize, usize)>, position: (usize, usize), from: int)
    requires
        0 <= from <= nodes.len(),
        node_index(nodes, position, from) < nodes.len(),
    ensures
        nodes[node_index(nodes, position, from)] == position,
        nodes.contains(position),
    decreases nodes.len() - from,
{
    if from < nodes.len() && nodes[from] != position {
        lemma_node_index_found(nodes, position, from + 1);
    }
}

/// The stack after those of the nodes that the first `k` edges lead to are
/// put on it, in their order, that are neither among `nodes` nor `node`
/// itself.
pub open spec fn pushed(
    stack: Seq<(usize, usize)>,
    nodes: Seq<(usize, usize)>,
    edges: Seq<((usize, usize), usize)>,
    node: (usize, usize),
    k: int,
) -> Seq<(usize, usize)>
    decreases k,
{
    if k <= 0 {
        stack
    } else {
        let before = pushed(stack, nodes, edges, node, k - 1);
        let to = edges[k - 1].0;
        if node_index(nodes, to, 0) == nodes.len() && to != node {
            before.push(to)
        } else {
            before
        }
    }
}

/// What exploring gives when it goes on from `graph` with `stack` for at
/// most `budget` rounds: each round takes the last node off the stack and,
/// unless it is in the graph, puts it there with its edges and stacks the
/// new nodes they lead to. There is no graph when a node has no edges to
/// speak of, when the budget runs out first, or when no node was found.
pub open spec fn explored(
    g: Array2D<u8>,
    fuel: nat,
    graph: GraphView,
    stack: Seq<(usize, usize)>,
    budget: nat,
) -> Option<GraphView>
    decreases budget,
{
    if stack.len() == 0 || budget == 0 {
        if stack.len() > 0 || graph.nodes.len() == 0 {
            None
        } else {
            Some(graph)
        }
    } else if node_index(graph.nodes, stack.last(), 0) < graph.nodes.len() {
        explored(g, fuel, graph, stack.drop_last(), (budget - 1) as nat)
    } else {
        match edges_of(g, stack.last(), fuel) {
            None => None,
            Some(edges) => explored(
                g,
                fuel,
                graph.with_node(stack.last(), edges),
                pushed(stack.drop_last(), graph.nodes, edges, stack.last(), edges.len() as int),
                (budget - 1) as nat,
            ),
        }
    }
}

/// The graph of the junctions of the map, explored from the tile after the
/// first in the top row, with trails followed for at most as many steps as
/// the map has tiles. There is none for a map of more than an eighth of
/// the tiles that `usize` counts.
pub open spec fn graph_of_map(g: Array2D<u8>) -> Option<GraphView> {
    let cells = grid_height(g) * grid_width(g);
    if cells > usize::MAX / 8 {
        None
    } else {
        explored(
            g,
            cells,
            GraphView { nodes: Seq::empty(), successors: Seq::empty() },
            seq![(0usize, 1usize)],
            5 * cells + 1,
        )
    }
}

/// Puts on the stack the nodes that the edges lead to and that are neither
/// in the graph nor the node itself.
fn push_new(stack: &mut Vec<(usize, usize)>, graph: &Graph, edges: &Vec<((usize, usize), usize)>, node: (usize, usize))
    ensures
        final(stack)@ == pushed(old(stack)@, graph@.nodes, edges@, node, edges@.len() as int),
        final(stack)@.len() <= old(stack)@.len() + edges@.len(),
        forall|t: int| 0 <= t < old(stack)@.len() ==> final(stack)@.contains(#[trigger] old(stack)@[t]),
        forall|t: int|
            0 <= t < final(stack)@.len() ==> old(stack)@.contains(#[trigger] final(stack)@[t]) || exists|k: int|
                0 <= k < edges@.len() && (#[trigger] edges@[k]).0 == final(stack)@[t],
        forall|t: int|
            0 <= t < edges@.len() ==> graph@.nodes.contains((#[trigger] edges@[t]).0) || final(stack)@.contains(
                edges@[t].0,
            ) || edges@[t].0 == node,
{
    let mut k: usize = 0;
    while k < edges.len()
        invariant
            k <= edges.len(),
            stack@ == pushed(old(stack)@, graph@.nodes, edges@, node, k as int),
            stack@.len() <= old(stack)@.len() + k,
            forall|t: int| 0 <= t < old(stack)@.len() ==> stack@[t] == #[trigger] old(stack)@[t],
            old(stack)@.len() <= stack@.len(),
            forall|t: int|
                old(stack)@.len() <= t < stack@.len() ==> exists|j: int|
                    0 <= j < edges@.len() && (#[trigger] edges@[j]).0 == #[trigger] stack@[t],
            forall|t: int|
                0 <= t < k ==> graph@.nodes.contains((#[trigger] edges@[t]).0) || stack@.contains(edges@[t].0)
                    || edges@[t].0 == node,
        decreases edges.len() - k,
    {
        let to = edges[k].0;
        let ghost before = stack@;
        let known = graph.find(&to).is_some();
        proof {
            if known {
                lemma_node_index_found(graph@.nodes, to, 0);
            }
        }
        if !known && !(to.0 == node.0 && to.1 == node.1) {
            stack.push(to);
            assert(stack@[stack@.len() - 1] == to);
        }
        proof {
            assert forall|t: int| 0 <= t < k + 1 implies graph@.nodes.contains((#[trigger] edges@[t]).0)
                || stack@.contains(edges@[t].0) || edges@[t].0 == node by {
                if t < k {
                    if before.contains(edges@[t].0) {
                        let u = choose|u: int| 0 <= u < before.len() && before[u] == edges@[t].0;
                        assert(stack@[u] == edges@[t].0);
                    }
                }
            }
        }
        k = k + 1;
    }
    proof {
        assert forall|t: int| 0 <= t < old(stack)@.len() implies stack@.contains(#[trigger] old(stack)@[t]) by {
            assert(stack@[t] == old(stack)@[t]);
        }
        assert forall|t: int| 0 <= t < stack@.len() implies old(stack)@.contains(#[trigger] stack@[t]) || exists|
            k: int,
        | 0 <= k < edges@.len() && (#[trigger] edges@[k]).0 == stack@[t] by {
            if t < old(stack)@.len() {
                assert(old(stack)@[t] == stack@[t]);
            }
        }
    }
}

/// The graph of the junctions of the map, found from the tile after the
/// first in the top row. Trails are followed for at most as many steps as
/// the map has tiles. There is no graph when a tile that is walked has no
/// moves to speak of, or when the map has more tiles than `usize` counts.
pub fn to_graph(grid: &Array2D<u8>) -> (r: Option<Graph>)
    ensures
        r matches Some(graph) ==> maps(graph@, *grid, (grid_height(*grid) * grid_width(*grid)) as nat),
        match r {
            Some(graph) => graph_of_map(*grid) == Some(graph@),
            None => graph_of_map(*grid) is None,
        },
{
    let h = grid_num_rows(grid);
    let w = grid_num_columns(grid);
    let cells128 = match (h as u128).checked_mul(w as u128) {
        Some(cells) => cells,
        None => {
            return None;
        },
    };
    if cells128 > (usize::MAX / 8) as u128 {
        return None;
    }
    let cells = cells128 as usize;
    let ghost g = *grid;
    let ghost fuel = cells as nat;
    let mut stack: Vec<(usize, usize)> = Vec::new();
    let start: (usize, usize) = (0, 1);
    stack.push(start);
    let mut graph = Graph::new();
    let mut budget: usize = 5 * cells + 1;
    assert(stack@ =~= seq![start]);
    let ghost whole = graph_of_map(g);
    while stack.len() > 0 && budget > 0
        invariant
            g == *grid,
            fuel == grid_height(g) * grid_width(g),
            fuel == cells,
            whole == graph_of_map(g),
            whole == explored(g, fuel, graph@, stack@, budget as nat),
            graph@.wf(),
            graph@.nodes.no_duplicates(),
            edged(graph@, g, fuel),
            covered(graph@, stack@),
            graph@.nodes.len() > 0 ==> graph@.nodes[0] == start,
            graph@.nodes.len() == 0 ==> stack@ == seq![start],
        decreases budget,
    {
        budget = budget - 1;
        let ghost old_stack = stack@;
        let ghost old_graph = graph@;
        let cur_vertex = stack.pop().unwrap();
        assert(old_stack.last() == cur_vertex);
        assert(stack@ =~= old_stack.drop_last());
        if graph.find(&cur_vertex).is_some() {
            proof {
                lemma_node_index_found(graph@.nodes, cur_vertex, 0);
                lemma_covered_pop(graph@, old_stack);
            }
            continue ;
        }
        let edges = junction_edges(grid, cur_vertex, cells)?;
        push_new(&mut stack, &graph, &edges, cur_vertex);
        proof {
            if old_graph.nodes.contains(cur_vertex) {
                let u = choose|u: int| 0 <= u < old_graph.nodes.len() && old_graph.nodes[u] == cur_vertex;
                lemma_node_index_absent_conv(old_graph.nodes, cur_vertex, 0, u);
            }
            assert forall|t: int| 0 <= t < old_stack.len() - 1 implies stack@.contains(#[trigger] old_stack[t]) by {
                assert(old_stack.drop_last()[t] == old_stack[t]);
            }
            lemma_covered_insert(old_graph, old_stack, stack@, cur_vertex, edges@);
        }
        graph.insert(cur_vertex, edges);
        proof {
            assert(graph@.nodes[graph@.nodes.len() - 1] == cur_vertex);
            assert forall|i: int| 0 <= i < graph@.nodes.len() implies edges_of(g, #[trigger] graph@.nodes[i], fuel)
                == Some(graph@.successors[i]) by {
                if i < old_graph.nodes.len() {
                    assert(graph@.nodes[i] == old_graph.nodes[i]);
                    assert(graph@.successors[i] == old_graph.successors[i]);
                }
            }
            assert forall|i: int, j: int|
                0 <= i < graph@.nodes.len() && 0 <= j < graph@.nodes.len() && i != j implies graph@.nodes[i]
                != graph@.nodes[j] by {
                if i < old_graph.nodes.len() && j < old_graph.nodes.len() {
                    assert(old_graph.nodes[i] != old_graph.nodes[j]);
                } else if i < old_graph.nodes.len() {
                    assert(old_graph.nodes.contains(old_graph.nodes[i]));
                } else {
                    assert(old_graph.nodes.contains(old_graph.nodes[j]));
                }
            }
        }
    }
    if stack.len() > 0 || graph.nodes.len() == 0 {
        return None;
    }
    assert(stack@ =~= Seq::<(usize, usize)>::empty());
    Some(graph)
}

/// A position that is at a node is found at or before it.
pub proof fn lemma_node_index_absent_conv(nodes: Seq<(usize, usize)>, position: (usize, usize), from: int, at: int)
    requires
        0 <= from <= at < nodes.len(),
        nodes[at] == position,
    ensures
        node_index(nodes, position, from) <= at,
    decreases at - from,
{
    if nodes[from] != position {
        lemma_node_index_absent_conv(nodes, position, from + 1, at);
    }
}

/// A position that is at no node is not found.
pub proof fn lemma_node_index_absent(nodes: Seq<(usize, usize)>, position: (usize, usize), from: int)
    requires
        0 <= from <= nodes.len(),
        !nodes.contains(position),
    ensures
        node_index(nodes, position, from) == nodes.len(),
    decreases nodes.len() - from,
{
    if from < nodes.len() {
        assert(nodes[from] != position);
        lemma_node_index_absent(nodes, position, from + 1);
    }
}

/// The marks of `n` nodes of which none is on the way.
pub open spec fn nothing_open(n: nat) -> Seq<bool> {
    Seq::new(n, |i: int| false)
}

/// The greater of two lengths, where there is any.
pub open spec fn longer(a: Option<int>, b: Option<int>) -> Option<int> {
    match (a, b) {
        (Some(x), Some(y)) => Some(if x >= y { x } else { y }),
        (Some(x), None) => Some(x),
        (None, b) => b,
    }
}

/// Whether the node at `position` is on the way already.
pub open spec fn on_way(graph: GraphView, open: Seq<bool>, position: (usize, usize)) -> bool {
    let j = node_index(graph.nodes, position, 0);
    j < graph.nodes.len() && j < open.len() && open[j]
}

/// The length of the longest way from `node` to `target` that passes no
/// node twice and none that is on the way already, if there is a way. A way
/// of more than `fuel` edges is not followed; no way has more edges than
/// there are nodes.
pub open spec fn best_from(
    graph: GraphView,
    node: (usize, usize),
    target: (usize, usize),
    open: Seq<bool>,
    fuel: nat,
) -> Option<int>
    decreases fuel, 0nat,
{
    if node == target {
        Some(0)
    } else if fuel == 0 {
        None
    } else {
        let i = node_index(graph.nodes, node, 0);
        if i < graph.nodes.len() && i < graph.successors.len() && i < open.len() {
            best_over(graph, graph.successors[i], graph.successors[i].len(), target, open.update(i, true), (fuel - 1) as nat)
        } else {
            None
        }
    }
}

/// The length of the longest way to `target` that starts with one of the
/// first `n` edges.
pub open spec fn best_over(
    graph: GraphView,
    edges: Seq<((usize, usize), usize)>,
    n: nat,
    target: (usize, usize),
    open: Seq<bool>,
    fuel: nat,
) -> Option<int>
    decreases fuel, n + 1,
{
    if n == 0 {
        None
    } else {
        let (to, weight) = edges[n - 1];
        longer(
            best_over(graph, edges, (n - 1) as nat, target, open, fuel),
            if on_way(graph, open, to) {
                None
            } else {
                match best_from(graph, to, target, open, fuel) {
                    Some(d) => Some(d + weight),
                    None => None,
                }
            },
        )
    }
}

/// The longest way is at most as long as its edges are many and heavy.
pub proof fn lemma_best_bound(
    graph: GraphView,
    node: (usize, usize),
    target: (usize, usize),
    open: Seq<bool>,
    fuel: nat,
)
    ensures
        best_from(graph, node, target, open, fuel) matches Some(d) ==> 0 <= d <= fuel * usize::MAX,
    decreases fuel, 0nat,
{
    if node != target && fuel > 0 {
        let i = node_index(graph.nodes, node, 0);
        if i < graph.nodes.len() && i < graph.successors.len() && i < open.len() {
            lemma_best_over_bound(
                graph,
                graph.successors[i],
                graph.successors[i].len(),
                target,
                open.update(i, true),
                (fuel - 1) as nat,
            );
            assert((fuel - 1) * usize::MAX + usize::MAX == fuel * usize::MAX) by (nonlinear_arith);
        }
    } else {
        assert(fuel * usize::MAX >= 0) by (nonlinear_arith)
            requires
                fuel >= 0,
        ;
    }
}

/// The longest way over some edges is at most one edge longer than the
/// longest way from where they lead.
pub proof fn lemma_best_over_bound(
    graph: GraphView,
    edges: Seq<((usize, usize), usize)>,
    n: nat,
    target: (usize, usize),
    open: Seq<bool>,
    fuel: nat,
)
    ensures
        best_over(graph, edges, n, target, open, fuel) matches Some(d) ==> 0 <= d <= fuel * usize::MAX + usize::MAX,
    decreases fuel, n + 1,
{
    if n > 0 {
        lemma_best_over_bound(graph, edges, (n - 1) as nat, target, open, fuel);
        let (to, weight) = edges[n - 1];
        if !on_way(graph, open, to) {
            lemma_best_bound(graph, to, target, open, fuel);
        }
    }
}

impl Graph {
    /// The length of the longest way from `node` to `target` that passes no
    /// node twice and none that is marked in `open`.
    fn longest_from(&self, node: &(usize, usize), target: &(usize, usize), open: &mut Vec<bool>, fuel: usize) -> (r: Option<
        u128,
    >)
        requires
            self@.wf(),
            old(open)@.len() == self@.nodes.len(),
        ensures
            final(open)@ == old(open)@,
            match r {
                Some(d) => best_from(self@, *node, *target, old(open)@, fuel as nat) == Some(d as int),
                None => best_from(self@, *node, *target, old(open)@, fuel as nat) is None,
            },
        decreases fuel, 0nat,
    {
        if node.0 == target.0 && node.1 == target.1 {
            return Some(0);
        }
        if fuel == 0 {
            return None;
        }
        let i = match self.find(node) {
            Some(i) => i,
            None => {
                return None;
            },
        };
        let ghost before = open@;
        let was = open[i];
        open.set(i, true);
        let edges = &self.successors[i];
        assert(self@.successors[i as int] == edges@);
        let mut result: Option<u128> = None;
        let mut k: usize = 0;
        while k < edges.len()
            invariant
                k <= edges.len(),
                self@.wf(),
                fuel > 0,
                i < self@.nodes.len(),
                before.len() == self@.nodes.len(),
                open@ == before.update(i as int, true),
                match result {
                    Some(d) => best_over(self@, edges@, k as nat, *target, open@, (fuel - 1) as nat) == Some(d as int),
                    None => best_over(self@, edges@, k as nat, *target, open@, (fuel - 1) as nat) is None,
                },
            decreases edges.len() - k,
        {
            let (to, weight) = edges[k];
            let blocked = match self.find(&to) {
                Some(j) => open[j],
                None => false,
            };
            proof {
                lemma_best_over_bound(self@, edges@, k as nat, *target, open@, (fuel - 1) as nat);
                lemma_best_bound(self@, to, *target, open@, (fuel - 1) as nat);
                assert((fuel - 1) * usize::MAX + usize::MAX + usize::MAX < 0x1_0000_0000_0000_0000_0000_0000_0000_0000)
                    by (nonlinear_arith)
                    requires
                        fuel - 1 <= 0xffff_ffff_ffff_fffe,
                        usize::MAX <= 0xffff_ffff_ffff_ffff,
                ;
            }
            if !blocked {
                match self.longest_from(&to, target, open, fuel - 1) {
                    Some(d) => {
                        let candidate = d + weight as u128;
                        result = match result {
                            Some(best) => Some(if best >= candidate { best } else { candidate }),
                            None => Some(candidate),
                        };
                    },
                    None => {},
                }
            }
            k = k + 1;
        }
        open.set(i, was);
        assert(open@ =~= before);
        result
    }

    /// The length of the longest way from `source` to `target` that passes
    /// no node twice, if there is a way and its length fits in `usize`.
    pub fn longest_path_len_brute_force(&self, source: &(usize, usize), target: &(usize, usize)) -> (r: Option<
        usize,
    >)
        requires
            self@.wf(),
        ensures
            r == (match best_from(
                self@,
                *source,
                *target,
                nothing_open(self@.nodes.len()),
                self@.nodes.len(),
            ) {
                Some(d) => if d <= usize::MAX {
                    Some(d as usize)
                } else {
                    None
                },
                None => None,
            }),
    {
        let n = self.nodes.len();
        let mut open: Vec<bool> = Vec::new();
        let mut a: usize = 0;
        while a < n
            invariant
                a <= n,
                open@.len() == a,
                forall|j: int| 0 <= j < a ==> !(#[trigger] open@[j]),
            decreases n - a,
        {
            open.push(false);
            a = a + 1;
        }
        assert(open@ =~= nothing_open(self@.nodes.len()));
        match self.longest_from(source, target, &mut open, n) {
            Some(d) => if d <= usize::MAX as u128 {
                Some(d as usize)
            } else {
                None
            },
            None => None,
        }
    }
}

/// The tile before the last in the bottom row, where a hike ends.
pub open spec fn hike_end(g: Array2D<u8>) -> (usize, usize) {
    ((grid_height(g) - 1) as usize, (grid_width(g) - 2) as usize)
}

/// The greatest number of steps of a hike over the graph of the map that
/// passes no junction twice; none for a map without a row or with fewer
/// than two columns, without a graph or a way, or when the number does not
/// fit in `usize`.
pub open spec fn hike_of(g: Array2D<u8>) -> Option<usize> {
    if grid_height(g) == 0 || grid_width(g) < 2 {
        None
    } else {
        match graph_of_map(g) {
            None => None,
            Some(graph) => match best_from(
                graph,
                (0usize, 1usize),
                hike_end(g),
                nothing_open(graph.nodes.len()),
                graph.nodes.len(),
            ) {
                Some(d) => if d <= usize::MAX {
                    Some(d as usize)
                } else {
                    None
                },
                None => None,
            },
        }
    }
}

/// What sweeping gives for the hike over the graph of the map; none for a
/// map without a row or with fewer than two columns, or without a graph.
pub open spec fn swept_hike_of(g: Array2D<u8>) -> Option<usize> {
    if grid_height(g) == 0 || grid_width(g) < 2 {
        None
    } else {
        match graph_of_map(g) {
            None => None,
            Some(graph) => swept_length(graph, (0usize, 1usize), hike_end(g)),
        }
    }
}

/// The greatest number of steps of a hike from the tile after the first in
/// the top row to the tile before the last in the bottom row that passes
/// no junction twice.
pub fn longest_path_len(grid: &Array2D<u8>) -> (r: Option<usize>)
    ensures
        r matches Some(steps) ==> exists|graph: GraphView| #[trigger]
            maps(graph, *grid, (grid_height(*grid) * grid_width(*grid)) as nat) && best_from(
                graph,
                (0usize, 1usize),
                ((grid_height(*grid) - 1) as usize, (grid_width(*grid) - 2) as usize),
                nothing_open(graph.nodes.len()),
                graph.nodes.len(),
            ) == Some(steps as int),
        r == hike_of(*grid),
{
    let h = grid_num_rows(grid);
    let w = grid_num_columns(grid);
    if h == 0 || w < 2 {
        return None;
    }
    let graph = to_graph(grid)?;
    let source: (usize, usize) = (0, 1);
    let target: (usize, usize) = (h - 1, w - 2);
    let result = graph.longest_path_len_brute_force(&source, &target);
    proof {
        if result is Some {
            assert(maps(graph@, *grid, (grid_height(*grid) * grid_width(*grid)) as nat));
            let best = best_from(graph@, source, target, nothing_open(graph@.nodes.len()), graph@.nodes.len());
            assert(best is Some);
            assert(best.unwrap() <= usize::MAX);
            assert(result.unwrap() == best.unwrap() as usize);
            assert(target == ((grid_height(*grid) - 1) as usize, (grid_width(*grid) - 2) as usize));
            assert(source == (0usize, 1usize));
            lemma_best_bound(graph@, source, target, nothing_open(graph@.nodes.len()), graph@.nodes.len());
            assert(best_from(
                graph@,
                (0usize, 1usize),
                ((grid_height(*grid) - 1) as usize, (grid_width(*grid) - 2) as usize),
                nothing_open(graph@.nodes.len()),
                graph@.nodes.len(),
            ) == Some(result.unwrap() as int));
        }
    }
    result
}

/// The distance on record for `position`, if there is one.
pub open spec fn distance_to(distances: Seq<((usize, usize), usize)>, position: (usize, usize)) -> Option<usize> {
    let k = entry_of(distances, position, 0);
    if k < distances.len() {
        Some(distances[k].1)
    } else {
        None
    }
}

/// The distances after the first `n` edges from a node at distance `from`
/// have been followed: each node they lead to is on record with the greater
/// of its distance before and the distance over the edge. There is nothing
/// when a distance leaves `usize`.
pub open spec fn relaxed(
    distances: Seq<((usize, usize), usize)>,
    from: usize,
    edges: Seq<((usize, usize), usize)>,
    n: int,
) -> Option<Seq<((usize, usize), usize)>>
    decreases n,
{
    if n <= 0 {
        Some(distances)
    } else {
        match relaxed(distances, from, edges, n - 1) {
            None => None,
            Some(so_far) => if from + edges[n - 1].1 <= usize::MAX {
                Some(with_edge(so_far, edges[n - 1].0, (from + edges[n - 1].1) as usize))
            } else {
                None
            },
        }
    }
}

/// The distances after the edges of the first `n` nodes have been followed,
/// node by node, from those nodes that are on record.
pub open spec fn swept(graph: GraphView, distances: Seq<((usize, usize), usize)>, n: int) -> Option<
    Seq<((usize, usize), usize)>,
>
    decreases n,
{
    if n <= 0 {
        Some(distances)
    } else {
        match swept(graph, distances, n - 1) {
            None => None,
            Some(so_far) => match distance_to(so_far, graph.nodes[n - 1]) {
                None => Some(so_far),
                Some(from) => relaxed(so_far, from, graph.successors[n - 1], graph.successors[n - 1].len() as int),
            },
        }
    }
}

/// The distances after `rounds` sweeps over all nodes.
pub open spec fn swept_often(graph: GraphView, distances: Seq<((usize, usize), usize)>, rounds: int) -> Option<
    Seq<((usize, usize), usize)>,
>
    decreases rounds,
{
    if rounds <= 0 {
        Some(distances)
    } else {
        match swept_often(graph, distances, rounds - 1) {
            None => None,
            Some(so_far) => swept(graph, so_far, graph.nodes.len() as int),
        }
    }
}

/// Whether the edge `k` of node `i` settles nothing: its node is not on
/// record, or the node it leads to is not, or the way over it is no longer
/// than what is on record.
pub open spec fn settled_edge(graph: GraphView, distances: Seq<((usize, usize), usize)>, i: int, k: int) -> bool {
    match (distance_to(distances, graph.nodes[i]), distance_to(distances, graph.successors[i][k].0)) {
        (Some(from), Some(to)) => from + graph.successors[i][k].1 <= to,
        _ => true,
    }
}

/// Whether every edge is settled.
pub open spec fn settled(graph: GraphView, distances: Seq<((usize, usize), usize)>) -> bool {
    forall|i: int, k: int|
        0 <= i < graph.nodes.len() && 0 <= k < graph.successors[i].len() ==> #[trigger] settled_edge(
            graph,
            distances,
            i,
            k,
        )
}

/// The length of the longest way from `source` to `target` as sweeping the
/// edges one time less than there are nodes finds it, if afterwards every
/// edge is settled; that is so when no way leads round in a circle.
pub open spec fn swept_length(graph: GraphView, source: (usize, usize), target: (usize, usize)) -> Option<usize> {
    if graph.nodes.len() == 0 {
        None
    } else {
        match swept_often(graph, seq![(source, 0usize)], graph.nodes.len() - 1) {
            None => None,
            Some(distances) => if settled(graph, distances) {
                distance_to(distances, target)
            } else {
                None
            },
        }
    }
}

/// If the first `i` edges cannot be followed, neither can the first `n`.
pub proof fn lemma_relaxed_prefix(
    distances: Seq<((usize, usize), usize)>,
    from: usize,
    edges: Seq<((usize, usize), usize)>,
    i: int,
    n: int,
)
    requires
        0 <= i <= n,
        relaxed(distances, from, edges, i) is None,
    ensures
        relaxed(distances, from, edges, n) is None,
    decreases n - i,
{
    if i < n {
        lemma_relaxed_prefix(distances, from, edges, i, n - 1);
    }
}

/// If the first `i` nodes cannot be swept, neither can the first `n`.
pub proof fn lemma_swept_prefix(graph: GraphView, distances: Seq<((usize, usize), usize)>, i: int, n: int)
    requires
        0 <= i <= n,
        swept(graph, distances, i) is None,
    ensures
        swept(graph, distances, n) is None,
    decreases n - i,
{
    if i < n {
        lemma_swept_prefix(graph, distances, i, n - 1);
    }
}

/// If `i` sweeps fail, so do `n`.
pub proof fn lemma_swept_often_prefix(graph: GraphView, distances: Seq<((usize, usize), usize)>, i: int, n: int)
    requires
        0 <= i <= n,
        swept_often(graph, distances, i) is None,
    ensures
        swept_often(graph, distances, n) is None,
    decreases n - i,
{
    if i < n {
        lemma_swept_often_prefix(graph, distances, i, n - 1);
    }
}

/// Looks up the distance on record for `position`.
fn distance_of(distances: &Vec<((usize, usize), usize)>, position: &(usize, usize)) -> (r: Option<usize>)
    ensures
        r == distance_to(distances@, *position),
{
    let mut k: usize = 0;
    while k < distances.len()
        invariant
            k <= distances.len(),
            entry_of(distances@, *position, 0) == entry_of(distances@, *position, k as int),
        decreases distances.len() - k,
    {
        if distances[k].0.0 == position.0 && distances[k].0.1 == position.1 {
            return Some(distances[k].1);
        }
        k = k + 1;
    }
    None
}

impl Graph {
    /// Sweeps over all nodes once.
    fn sweep(&self, distances: &mut Vec<((usize, usize), usize)>) -> (ok: bool)
        requires
            self@.wf(),
        ensures
            match swept(self@, old(distances)@, self@.nodes.len() as int) {
                Some(after) => ok && final(distances)@ == after,
                None => !ok,
            },
    {
        let ghost start = distances@;
        let mut i: usize = 0;
        while i < self.nodes.len()
            invariant
                i <= self.nodes.len(),
                self@.wf(),
                start == old(distances)@,
                swept(self@, start, i as int) == Some(distances@),
            decreases self.nodes.len() - i,
        {
            let ghost so_far = distances@;
            match distance_of(distances, &self.nodes[i]) {
                None => {},
                Some(distance_from) => {
                    let edges = &self.successors[i];
                    assert(self@.successors[i as int] == edges@);
                    let mut k: usize = 0;
                    while k < edges.len()
                        invariant
                            k <= edges.len(),
                            i < self.nodes.len(),
                            self@.wf(),
                            self@.successors[i as int] == edges@,
                            start == old(distances)@,
                            swept(self@, start, i as int) == Some(so_far),
                            distance_to(so_far, self@.nodes[i as int]) == Some(distance_from),
                            relaxed(so_far, distance_from, edges@, k as int) == Some(distances@),
                        decreases edges.len() - k,
                    {
                        let (to, weight) = edges[k];
                        match distance_from.checked_add(weight) {
                            Some(new_distance_to) => {
                                record_edge(distances, to, new_distance_to);
                            },
                            None => {
                                proof {
                                    lemma_relaxed_prefix(
                                        so_far,
                                        distance_from,
                                        edges@,
                                        k + 1,
                                        edges@.len() as int,
                                    );
                                    lemma_swept_prefix(self@, start, i + 1, self@.nodes.len() as int);
                                }
                                return false;
                            },
                        }
                        k = k + 1;
                    }
                },
            }
            i = i + 1;
        }
        true
    }

    /// Tells whether every edge is settled.
    fn is_settled(&self, distances: &Vec<((usize, usize), usize)>) -> (b: bool)
        requires
            self@.wf(),
        ensures
            b == settled(self@, distances@),
    {
        let mut i: usize = 0;
        while i < self.nodes.len()
            invariant
                i <= self.nodes.len(),
                self@.wf(),
                forall|a: int, k: int|
                    0 <= a < i && 0 <= k < self@.successors[a].len() ==> #[trigger] settled_edge(
                        self@,
                        distances@,
                        a,
                        k,
                    ),
            decreases self.nodes.len() - i,
        {
            let from = distance_of(distances, &self.nodes[i]);
            let edges = &self.successors[i];
            assert(self@.successors[i as int] == edges@);
            let mut k: usize = 0;
            while k < edges.len()
                invariant
                    k <= edges.len(),
                    i < self.nodes.len(),
                    self@.wf(),
                    self@.successors[i as int] == edges@,
                    from == distance_to(distances@, self@.nodes[i as int]),
                    forall|t: int| 0 <= t < k ==> #[trigger] settled_edge(self@, distances@, i as int, t),
                decreases edges.len() - k,
            {
                let to = distance_of(distances, &edges[k].0);
                let loose = match (from, to) {
                    (Some(distance_from), Some(distance_to)) => match distance_from.checked_add(edges[k].1) {
                        Some(sum) => sum > distance_to,
                        None => true,
                    },
                    _ => false,
                };
                if loose {
                    assert(!settled_edge(self@, distances@, i as int, k as int));
                    return false;
                }
                k = k + 1;
            }
            i = i + 1;
        }
        true
    }

    /// The length of the longest way from `source` to `target`, found by
    /// sweeping over the edges one time less than there are nodes. It is
    /// right when no way leads round in a circle; when a circle shows in
    /// that an edge is not settled in the end, there is no answer.
    pub fn _longest_path_len(&self, source: &(usize, usize), target: &(usize, usize)) -> (r: Option<usize>)
        requires
            self@.wf(),
        ensures
            r == swept_length(self@, *source, *target),
    {
        let n = self.nodes.len();
        if n == 0 {
            return None;
        }
        let mut distances: Vec<((usize, usize), usize)> = Vec::new();
        distances.push((*source, 0));
        assert(distances@ =~= seq![(*source, 0usize)]);
        let ghost start = distances@;
        let mut round: usize = 0;
        while round < n - 1
            invariant
                round <= n - 1,
                n == self@.nodes.len(),
                self@.wf(),
                start == seq![(*source, 0usize)],
                swept_often(self@, start, round as int) == Some(distances@),
            decreases n - 1 - round,
        {
            if !self.sweep(&mut distances) {
                proof {
                    lemma_swept_often_prefix(self@, start, round + 1, n - 1);
                }
                return None;
            }
            round = round + 1;
        }
        if !self.is_settled(&distances) {
            return None;
        }
        distance_of(&distances, target)
    }
}

/// The greatest number of steps of a hike, found by sweeping; right when
/// the slopes let no way lead round in a circle.
pub fn _longest_path_len_no_cycles(grid: &Array2D<u8>) -> (r: Option<usize>)
    ensures
        r matches Some(steps) ==> exists|graph: GraphView| #[trigger]
            maps(graph, *grid, (grid_height(*grid) * grid_width(*grid)) as nat) && swept_length(
                graph,
                (0usize, 1usize),
                ((grid_height(*grid) - 1) as usize, (grid_width(*grid) - 2) as usize),
            ) == Some(steps),
        r == swept_hike_of(*grid),
{
    let h = grid_num_rows(grid);
    let w = grid_num_columns(grid);
    if h == 0 || w < 2 {
        return None;
    }
    let graph = to_graph(grid)?;
    let source: (usize, usize) = (0, 1);
    let target: (usize, usize) = (h - 1, w - 2);
    let result = graph._longest_path_len(&source, &target);
    proof {
        if result is Some {
            assert(maps(graph@, *grid, (grid_height(*grid) * grid_width(*grid)) as nat));
            assert(swept_length(
                graph@,
                (0usize, 1usize),
                ((grid_height(*grid) - 1) as usize, (grid_width(*grid) - 2) as usize),
            ) == result);
        }
    }
    result
}

} // verus!
