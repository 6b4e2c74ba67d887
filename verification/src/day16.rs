//! A beam of light that mirrors and splitters send through a cave.

use crate::grid::{
    cell, grid_from_rows, grid_get, grid_height, grid_num_columns, grid_num_rows, grid_rows, grid_width,
    in_grid, rectangular, row_views,
};
use crate::numbers::lemma_cell_bound;
use crate::reach::{connected, count_set, lemma_count_set_bound, list_views, lists_wf, reachable_in};
use crate::text::{lines, lines_of, to_vec, views};
use array2d::Array2D;
use vstd::prelude::*;
use vstd::string::StringSliceAdditionalSpecFns;

verus! {

/// A direction in which the beam travels.
#[derive(Debug, Clone, Copy, PartialEq, Eq, Structural)]
pub enum Direction {
    North,
    East,
    South,
    West,
}

impl Direction {
    /// The number of the direction, clockwise from north.
    pub open spec fn index(self) -> int {
        match self {
            Direction::North => 0,
            Direction::East => 1,
            Direction::South => 2,
            Direction::West => 3,
        }
    }

    /// The cell next to `(row, column)` in this direction, if the cave goes
    /// on there.
    pub open spec fn moved(self, row: int, column: int, h: int, w: int) -> Option<(usize, usize)> {
        match self {
            Direction::North => if row == 0 {
                None
            } else {
                Some(((row - 1) as usize, column as usize))
            },
            Direction::East => if column == w - 1 {
                None
            } else {
                Some((row as usize, (column + 1) as usize))
            },
            Direction::South => if row == h - 1 {
                None
            } else {
                Some(((row + 1) as usize, column as usize))
            },
            Direction::West => if column == 0 {
                None
            } else {
                Some((row as usize, (column - 1) as usize))
            },
        }
    }

    /// The cell next to `(row, column)` in this direction, if the cave goes
    /// on there. The cell must lie in the cave.
    pub fn try_move(&self, row: usize, column: usize, num_rows: usize, num_columns: usize) -> (r: Option<
        (usize, usize),
    >)
        requires
            row < num_rows,
            column < num_columns,
        ensures
            r == self.moved(row as int, column as int, num_rows as int, num_columns as int),
            r matches Some(p) ==> p.0 < num_rows && p.1 < num_columns,
    {
        match self {
            Direction::North => {
                if row == 0 {
                    None
                } else {
                    Some((row - 1, column))
                }
            },
            Direction::East => {
                if column == num_columns - 1 {
                    None
                } else {
                    Some((row, column + 1))
                }
            },
            Direction::South => {
                if row == num_rows - 1 {
                    None
                } else {
                    Some((row + 1, column))
                }
            },
            Direction::West => {
                if column == 0 {
                    None
                } else {
                    Some((row, column - 1))
                }
            },
        }
    }
}

/// What a cell of the cave holds.
#[derive(Debug, Clone, Copy, PartialEq, Eq, Structural)]
pub enum Tile {
    NorthSouthSplitter,
    EastWestSplitter,
    SlashMirror,
    BackSlashMirror,
    Empty,
}

impl Tile {
    /// The tile that a byte stands for: `|`, `-`, `/`, `\` or `.`.
    pub open spec fn of(c: u8) -> Option<Tile> {
        if c == 124 {
            Some(Tile::NorthSouthSplitter)
        } else if c == 45 {
            Some(Tile::EastWestSplitter)
        } else if c == 47 {
            Some(Tile::SlashMirror)
        } else if c == 92 {
            Some(Tile::BackSlashMirror)
        } else if c == 46 {
            Some(Tile::Empty)
        } else {
            None
        }
    }

    /// Reads a tile from its byte.
    pub fn from_u8(c: u8) -> (r: Option<Tile>)
        ensures
            r == Tile::of(c),
    {
        if c == 124 {
            Some(Tile::NorthSouthSplitter)
        } else if c == 45 {
            Some(Tile::EastWestSplitter)
        } else if c == 47 {
            Some(Tile::SlashMirror)
        } else if c == 92 {
            Some(Tile::BackSlashMirror)
        } else if c == 46 {
            Some(Tile::Empty)
        } else {
            None
        }
    }
}

/// Why a text is no cave.
#[derive(Debug, Clone, Copy, PartialEq, Eq, Structural)]
pub enum CaveError {
    /// A byte stands for no tile.
    UnknownTile,
    /// The lines are not all of one length.
    Ragged,
}

/// Whether every byte of the line stands for a tile.
pub open spec fn tiles(line: Seq<u8>) -> bool {
    forall|i: int| 0 <= i < line.len() ==> Tile::of(#[trigger] line[i]) is Some
}

/// The rows of the cave that a text describes, one per line.
pub open spec fn cave_of(text: Seq<u8>) -> Result<Seq<Seq<u8>>, CaveError> {
    let ls = lines_of(text);
    if !(forall|r: int| 0 <= r < ls.len() ==> tiles(#[trigger] ls[r])) {
        Err(CaveError::UnknownTile)
    } else if !(forall|r: int| 0 <= r < ls.len() ==> (#[trigger] ls[r]).len() == ls[0].len()) {
        Err(CaveError::Ragged)
    } else {
        Ok(ls)
    }
}

/// Tells whether every byte of the line stands for a tile.
fn check_tiles(line: &[u8]) -> (b: bool)
    ensures
        b == tiles(line@),
{
    let mut i: usize = 0;
    while i < line.len()
        invariant
            i <= line.len(),
            forall|k: int| 0 <= k < i ==> Tile::of(#[trigger] line@[k]) is Some,
        decreases line.len() - i,
    {
        if Tile::from_u8(line[i]).is_none() {
            return false;
        }
        i = i + 1;
    }
    true
}

/// Reads a cave, one row per line.
pub fn parse_input(input: &str) -> (r: Result<Array2D<u8>, CaveError>)
    ensures
        match r {
            Ok(grid) => cave_of(input.spec_bytes()) == Ok::<Seq<Seq<u8>>, CaveError>(grid_rows(grid)),
            Err(e) => cave_of(input.spec_bytes()) == Err::<Seq<Seq<u8>>, CaveError>(e),
        },
        r matches Ok(grid) ==> rectangular(grid_rows(grid), grid_width(grid)) && grid_width(grid) == (if grid_rows(
            grid,
        ).len() > 0 {
            grid_rows(grid)[0].len()
        } else {
            0
        }),
{
    let ls = lines(input.as_bytes());
    let ghost all = lines_of(input.spec_bytes());
    let mut rows: Vec<Vec<u8>> = Vec::new();
    let mut i: usize = 0;
    assert(row_views(rows@) =~= all.take(0));
    while i < ls.len()
        invariant
            i <= ls.len(),
            all == views(ls@),
            all == lines_of(input.spec_bytes()),
            row_views(rows@) == all.take(i as int),
            forall|k: int| 0 <= k < i ==> tiles(#[trigger] all[k]),
        decreases ls.len() - i,
    {
        assert(all[i as int] == ls@[i as int]@);
        if !check_tiles(ls[i]) {
            return Err(CaveError::UnknownTile);
        }
        let row = to_vec(ls[i]);
        proof {
            assert(row_views(rows@.push(row)) =~= row_views(rows@).push(row@));
            assert(all.take(i + 1) =~= all.take(i as int).push(all[i as int]));
        }
        rows.push(row);
        i = i + 1;
    }
    assert(all.take(i as int) =~= all);
    proof {
        assert forall|k: int| 0 <= k < rows@.len() implies (#[trigger] rows@[k])@.len() == all[k].len() by {
            assert(row_views(rows@)[k] == rows@[k]@);
        }
        if rows@.len() > 0 {
            assert(row_views(rows@)[0] == rows@[0]@);
        }
    }
    match grid_from_rows(rows.as_slice()) {
        Ok(grid) => Ok(grid),
        Err(_) => Err(CaveError::Ragged),
    }
}

/// Where a beam goes on: nowhere, to one state, or to two.
#[derive(Debug, PartialEq, Eq, Structural)]
pub enum GetSuccessorsResult<T> {
    Zero,
    One(T),
    Two(T, T),
}

/// A beam: the cell it is in and the direction it travels in.
#[derive(Debug, Clone, Copy, PartialEq, Eq, Structural)]
pub struct State {
    pub row: usize,
    pub column: usize,
    pub direction: Direction,
}

/// The direction, or the two directions, in which a beam leaves a cell that
/// it entered travelling in `direction`: a splitter that it meets across
/// sends it both ways, a mirror turns it, anything else lets it pass.
pub open spec fn leaves(tile: u8, direction: Direction) -> (Direction, Option<Direction>) {
    if tile == 124 {
        match direction {
            Direction::East | Direction::West => (Direction::North, Some(Direction::South)),
            _ => (direction, None),
        }
    } else if tile == 45 {
        match direction {
            Direction::North | Direction::South => (Direction::East, Some(Direction::West)),
            _ => (direction, None),
        }
    } else if tile == 47 {
        (
            match direction {
                Direction::North => Direction::East,
                Direction::East => Direction::North,
                Direction::South => Direction::West,
                Direction::West => Direction::South,
            },
            None,
        )
    } else if tile == 92 {
        (
            match direction {
                Direction::North => Direction::West,
                Direction::East => Direction::South,
                Direction::South => Direction::East,
                Direction::West => Direction::North,
            },
            None,
        )
    } else {
        (direction, None)
    }
}

/// The beam in the next cell in `direction`, if the cave goes on there.
pub open spec fn beam_to(g: Array2D<u8>, s: State, direction: Direction) -> Option<State> {
    match direction.moved(s.row as int, s.column as int, grid_height(g) as int, grid_width(g) as int) {
        Some(p) => Some(State { row: p.0, column: p.1, direction }),
        None => None,
    }
}

/// Where the beam goes on.
pub open spec fn successors_of(g: Array2D<u8>, s: State) -> GetSuccessorsResult<State> {
    let (first, second) = leaves(cell(g, s.row as int, s.column as int), s.direction);
    let one = beam_to(g, s, first);
    let two = match second {
        Some(direction) => beam_to(g, s, direction),
        None => None,
    };
    match (one, two) {
        (Some(a), Some(b)) => GetSuccessorsResult::Two(a, b),
        (Some(a), None) => GetSuccessorsResult::One(a),
        (None, Some(b)) => GetSuccessorsResult::One(b),
        (None, None) => GetSuccessorsResult::Zero,
    }
}

impl State {
    pub fn new(row: usize, column: usize, direction: Direction) -> (s: Self)
        ensures
            s == (State { row, column, direction }),
    {
        State { row, column, direction }
    }

    /// Where the beam goes on. The beam must be in the cave.
    pub fn get_successors(&self, puzzle_input: &Array2D<u8>) -> (r: GetSuccessorsResult<State>)
        requires
            in_grid(*puzzle_input, self.row as int, self.column as int),
        ensures
            r == successors_of(*puzzle_input, *self),
            match r {
                GetSuccessorsResult::Zero => true,
                GetSuccessorsResult::One(a) => in_grid(*puzzle_input, a.row as int, a.column as int),
                GetSuccessorsResult::Two(a, b) => in_grid(*puzzle_input, a.row as int, a.column as int)
                    && in_grid(*puzzle_input, b.row as int, b.column as int),
            },
    {
        let row = self.row;
        let column = self.column;
        let prev_dir = self.direction;
        let h = grid_num_rows(puzzle_input);
        let w = grid_num_columns(puzzle_input);
        let mut next_dir = prev_dir;
        let mut next_dir2: Option<Direction> = None;
        let tile = grid_get(puzzle_input, row, column).unwrap();
        if tile == 124 {
            match prev_dir {
                Direction::East | Direction::West => {
                    next_dir = Direction::North;
                    next_dir2 = Some(Direction::South);
                },
                _ => {},
            }
        } else if tile == 45 {
            match prev_dir {
                Direction::North | Direction::South => {
                    next_dir = Direction::East;
                    next_dir2 = Some(Direction::West);
                },
                _ => {},
            }
        } else if tile == 47 {
            next_dir = match prev_dir {
                Direction::North => Direction::East,
                Direction::East => Direction::North,
                Direction::South => Direction::West,
                Direction::West => Direction::South,
            };
        } else if tile == 92 {
            next_dir = match prev_dir {
                Direction::North => Direction::West,
                Direction::East => Direction::South,
                Direction::South => Direction::East,
                Direction::West => Direction::North,
            };
        }
        let maybe_succ1 = if let Some((next_row, next_col)) = next_dir.try_move(row, column, h, w) {
            Some(State::new(next_row, next_col, next_dir))
        } else {
            None
        };
        let maybe_succ2 = if let Some(dir) = next_dir2 {
            if let Some((next_row, next_col)) = dir.try_move(row, column, h, w) {
                Some(State::new(next_row, next_col, dir))
            } else {
                None
            }
        } else {
            None
        };
        if let Some(succ1) = maybe_succ1 {
            if let Some(succ2) = maybe_succ2 {
                GetSuccessorsResult::Two(succ1, succ2)
            } else {
                GetSuccessorsResult::One(succ1)
            }
        } else if let Some(succ2) = maybe_succ2 {
            GetSuccessorsResult::One(succ2)
        } else {
            GetSuccessorsResult::Zero
        }
    }
}

/// The number that stands for a beam: its cell, counted row by row, times 4,
/// plus the number of its direction.
pub open spec fn code_of(s: State, w: int) -> int {
    (s.row * w + s.column) * 4 + s.direction.index()
}

/// The direction with the given number.
pub open spec fn direction_of(index: int) -> Direction {
    if index == 0 {
        Direction::North
    } else if index == 1 {
        Direction::East
    } else if index == 2 {
        Direction::South
    } else {
        Direction::West
    }
}

/// The beam that a number stands for.
pub open spec fn state_of(code: int, w: int) -> State {
    State {
        row: ((code / 4) / w) as usize,
        column: ((code / 4) % w) as usize,
        direction: direction_of(code % 4),
    }
}

/// The numbers of the beams that a beam goes on to.
pub open spec fn next_codes(g: Array2D<u8>, code: int) -> Seq<usize> {
    let w = grid_width(g) as int;
    match successors_of(g, state_of(code, w)) {
        GetSuccessorsResult::Zero => Seq::empty(),
        GetSuccessorsResult::One(a) => seq![code_of(a, w) as usize],
        GetSuccessorsResult::Two(a, b) => seq![code_of(a, w) as usize, code_of(b, w) as usize],
    }
}

/// For every beam, by its number, the numbers of the beams it goes on to.
pub open spec fn beam_graph(g: Array2D<u8>) -> Seq<Seq<usize>> {
    Seq::new((4 * (grid_height(g) * grid_width(g))) as nat, |code: int| next_codes(g, code))
}

/// Whether some beam that comes of the beam `start` passes through the
/// cell with the given number.
pub open spec fn lit(g: Array2D<u8>, start: State, place: int) -> bool {
    exists|d: int|
        0 <= d < 4 && #[trigger] connected(
            beam_graph(g),
            code_of(start, grid_width(g) as int) as usize,
            (4 * place + d) as usize,
        )
}

/// The number of cells among the first `n` that are lit.
pub open spec fn lit_count(g: Array2D<u8>, start: State, n: int) -> int
    decreases n,
{
    if n <= 0 {
        0
    } else if lit(g, start, n - 1) {
        lit_count(g, start, n - 1) + 1
    } else {
        lit_count(g, start, n - 1)
    }
}

/// The number of a beam in the cave stands for that beam.
pub proof fn lemma_code_round_trip(s: State, h: int, w: int)
    requires
        0 <= s.row < h,
        0 <= s.column < w,
    ensures
        0 <= code_of(s, w) < 4 * (h * w),
        state_of(code_of(s, w), w) == s,
{
    let place = s.row * w + s.column;
    lemma_cell_bound(s.row as int, s.column as int, h, w);
    vstd::arithmetic::div_mod::lemma_fundamental_div_mod_converse(place, w, s.row as int, s.column as int);
}

/// The beam with direction number `d` in the cell `(row, column)`.
fn beam_at(row: usize, column: usize, d: usize) -> (s: State)
    requires
        d < 4,
    ensures
        s == (State { row, column, direction: direction_of(d as int) }),
        s.direction.index() == d,
{
    let direction = if d == 0 {
        Direction::North
    } else if d == 1 {
        Direction::East
    } else if d == 2 {
        Direction::South
    } else {
        Direction::West
    };
    State { row, column, direction }
}

/// The number of a beam in the cave.
fn encode(s: &State, h: usize, w: usize) -> (code: usize)
    requires
        s.row < h,
        s.column < w,
        4 * (h * w) <= usize::MAX,
    ensures
        code == code_of(*s, w as int),
        code < 4 * (h * w),
{
    proof {
        lemma_code_round_trip(*s, h as int, w as int);
        lemma_cell_bound(s.row as int, 0, h as int, w as int);
    }
    let index: usize = match s.direction {
        Direction::North => 0,
        Direction::East => 1,
        Direction::South => 2,
        Direction::West => 3,
    };
    (s.row * w + s.column) * 4 + index
}

/// For every beam, the beams it goes on to, or nothing when the cave has
/// too many cells to number its beams.
fn build_graph(puzzle_input: &Array2D<u8>) -> (r: Option<Vec<Vec<usize>>>)
    ensures
        match r {
            Some(lists) => list_views(lists@) == beam_graph(*puzzle_input) && lists_wf(list_views(lists@)) && 4
                * (grid_height(*puzzle_input) * grid_width(*puzzle_input)) <= usize::MAX && lists@.len() == 4 * (
            grid_height(*puzzle_input) * grid_width(*puzzle_input)),
            None => 4 * (grid_height(*puzzle_input) * grid_width(*puzzle_input)) > usize::MAX,
        },
{
    let h = grid_num_rows(puzzle_input);
    let w = grid_num_columns(puzzle_input);
    let cells = match (h as u128).checked_mul(w as u128) {
        Some(cells) => cells,
        None => {
            assert(false) by {
                assert(h * w <= 0xffff_ffff_ffff_ffff * 0xffff_ffff_ffff_ffff) by (nonlinear_arith)
                    requires
                        h <= 0xffff_ffff_ffff_ffff,
                        w <= 0xffff_ffff_ffff_ffff,
                ;
            }
            return None;
        },
    };
    if cells > (usize::MAX / 4) as u128 {
        return None;
    }
    let ghost g = *puzzle_input;
    let ghost wi = w as int;
    let ghost total = 4 * (h * w);
    let mut lists: Vec<Vec<usize>> = Vec::new();
    let mut row: usize = 0;
    assert(0 * w == 0) by (nonlinear_arith);
    while row < h
        invariant
            row <= h,
            h == grid_height(g),
            w == grid_width(g),
            wi == w,
            g == *puzzle_input,
            rectangular(grid_rows(g), w as nat),
            total == 4 * (h * w),
            total <= usize::MAX,
            lists@.len() == 4 * (row * w),
            forall|c: int| 0 <= c < lists@.len() ==> (#[trigger] lists@[c])@ == next_codes(g, c),
            forall|c: int, k: int|
                0 <= c < lists@.len() && 0 <= k < lists@[c]@.len() ==> (#[trigger] lists@[c]@[k]) < total,
        decreases h - row,
    {
        let mut column: usize = 0;
        while column < w
            invariant
                column <= w,
                row < h,
                h == grid_height(g),
                w == grid_width(g),
                wi == w,
                g == *puzzle_input,
                rectangular(grid_rows(g), w as nat),
                total == 4 * (h * w),
                total <= usize::MAX,
                lists@.len() == 4 * (row * w + column),
                forall|c: int| 0 <= c < lists@.len() ==> (#[trigger] lists@[c])@ == next_codes(g, c),
                forall|c: int, k: int|
                    0 <= c < lists@.len() && 0 <= k < lists@[c]@.len() ==> (#[trigger] lists@[c]@[k]) < total,
            decreases w - column,
        {
            let mut d: usize = 0;
            while d < 4
                invariant
                    d <= 4,
                    row < h,
                    column < w,
                    h == grid_height(g),
                    w == grid_width(g),
                    wi == w,
                    g == *puzzle_input,
                    rectangular(grid_rows(g), w as nat),
                    total == 4 * (h * w),
                    total <= usize::MAX,
                    lists@.len() == 4 * (row * w + column) + d,
                    forall|c: int| 0 <= c < lists@.len() ==> (#[trigger] lists@[c])@ == next_codes(g, c),
                    forall|c: int, k: int|
                        0 <= c < lists@.len() && 0 <= k < lists@[c]@.len() ==> (#[trigger] lists@[c]@[k]) < total,
                decreases 4 - d,
            {
                let state = beam_at(row, column, d);
                proof {
                    lemma_code_round_trip(state, h as int, wi);
                }
                let mut list: Vec<usize> = Vec::new();
                match state.get_successors(puzzle_input) {
                    GetSuccessorsResult::Zero => {},
                    GetSuccessorsResult::One(a) => {
                        list.push(encode(&a, h, w));
                    },
                    GetSuccessorsResult::Two(a, b) => {
                        list.push(encode(&a, h, w));
                        list.push(encode(&b, h, w));
                    },
                }
                assert(list@ =~= next_codes(g, code_of(state, wi)));
                lists.push(list);
                d = d + 1;
            }
            column = column + 1;
        }
        proof {
            assert((row + 1) * w == row * w + w) by (nonlinear_arith);
        }
        row = row + 1;
    }
    proof {
        assert(list_views(lists@) =~= beam_graph(g));
        assert forall|x: int, k: int|
            0 <= x < list_views(lists@).len() && 0 <= k < list_views(lists@)[x].len() implies #[trigger] list_views(
            lists@,
        )[x][k] < list_views(lists@).len() by {
            assert(list_views(lists@)[x] == lists@[x]@);
            assert(lists@[x]@[k] < total);
        }
    }
    Some(lists)
}

/// The number of cells that the beam `initial_state` and the beams that
/// come of it pass through, or nothing when the cave has too many cells to
/// number its beams. The beam must be in the cave.
pub fn num_energized(puzzle_input: &Array2D<u8>, initial_state: State) -> (r: Option<usize>)
    requires
        in_grid(*puzzle_input, initial_state.row as int, initial_state.column as int),
    ensures
        match r {
            Some(n) => n == lit_count(
                *puzzle_input,
                initial_state,
                (grid_height(*puzzle_input) * grid_width(*puzzle_input)) as int,
            ),
            None => 4 * (grid_height(*puzzle_input) * grid_width(*puzzle_input)) > usize::MAX,
        },
{
    let lists = build_graph(puzzle_input)?;
    let h = grid_num_rows(puzzle_input);
    let w = grid_num_columns(puzzle_input);
    let ghost g = *puzzle_input;
    let start = encode(&initial_state, h, w);
    let explored = reachable_in(&lists, start);
    let ghost graph = beam_graph(g);
    proof {
        lemma_cell_bound(0, 0, h as int, w as int);
    }
    let cells = h * w;
    let mut energized: usize = 0;
    let mut place: usize = 0;
    while place < cells
        invariant
            place <= cells,
            cells == h * w,
            4 * cells <= usize::MAX,
            h == grid_height(g),
            w == grid_width(g),
            graph == beam_graph(g),
            graph == list_views(lists@),
            start == code_of(initial_state, w as int),
            explored@.len() == 4 * cells,
            forall|v: int| 0 <= v < explored@.len() ==> (#[trigger] explored@[v] <==> connected(graph, start, v as usize)),
            energized == lit_count(g, initial_state, place as int),
            energized <= place,
        decreases cells - place,
    {
        let any = explored[4 * place] || explored[4 * place + 1] || explored[4 * place + 2] || explored[4
            * place + 3];
        proof {
            if any {
                let d: int = if explored@[4 * place] {
                    0
                } else if explored@[4 * place + 1] {
                    1
                } else if explored@[4 * place + 2] {
                    2
                } else {
                    3
                };
                assert(explored@[4 * place + d]);
                assert(connected(graph, start, (4 * place + d) as usize));
                assert(connected(
                    beam_graph(g),
                    code_of(initial_state, grid_width(g) as int) as usize,
                    (4 * place + d) as usize,
                ));
                assert(lit(g, initial_state, place as int));
            } else {
                if lit(g, initial_state, place as int) {
                    let d = choose|d: int|
                        0 <= d < 4 && #[trigger] connected(
                            beam_graph(g),
                            code_of(initial_state, grid_width(g) as int) as usize,
                            (4 * place + d) as usize,
                        );
                    assert(connected(graph, start, (4 * place + d) as usize));
                    assert(explored@[4 * place + d]);
                }
            }
        }
        if any {
            energized = energized + 1;
        }
        place = place + 1;
    }
    Some(energized)
}

/// The number of cells that a beam lights which enters the cave in the
/// north-west corner travelling east. The cave must have a cell.
pub fn part1(puzzle_input: &Array2D<u8>) -> (r: Option<usize>)
    requires
        in_grid(*puzzle_input, 0, 0),
    ensures
        match r {
            Some(n) => n == lit_count(
                *puzzle_input,
                State { row: 0, column: 0, direction: Direction::East },
                (grid_height(*puzzle_input) * grid_width(*puzzle_input)) as int,
            ),
            None => 4 * (grid_height(*puzzle_input) * grid_width(*puzzle_input)) > usize::MAX,
        },
{
    num_energized(puzzle_input, State::new(0, 0, Direction::East))
}

/// The beams that enter the cave from outside: into each row from the left
/// and from the right, into each column from above and from below.
pub open spec fn edge_starts(h: int, w: int) -> Seq<State> {
    Seq::new(h as nat, |row: int| State { row: row as usize, column: 0, direction: Direction::East })
        + Seq::new(
        h as nat,
        |row: int| State { row: row as usize, column: (w - 1) as usize, direction: Direction::West },
    ) + Seq::new(
        w as nat,
        |column: int| State { row: 0, column: column as usize, direction: Direction::South },
    ) + Seq::new(
        w as nat,
        |column: int| State { row: (h - 1) as usize, column: column as usize, direction: Direction::North },
    )
}

/// The greatest number of cells that one of the first `n` beams lights.
pub open spec fn most_lit(g: Array2D<u8>, starts: Seq<State>, n: int) -> int
    decreases n,
{
    if n <= 0 {
        0
    } else {
        let here = lit_count(g, starts[n - 1], (grid_height(g) * grid_width(g)) as int);
        if here > most_lit(g, starts, n - 1) {
            here
        } else {
            most_lit(g, starts, n - 1)
        }
    }
}

/// The greatest number of cells that a beam lights which enters the cave
/// from outside, or nothing when the cave has no cell or too many.
pub fn part2(puzzle_input: &Array2D<u8>) -> (r: Option<usize>)
    ensures
        match r {
            Some(n) => n == most_lit(
                *puzzle_input,
                edge_starts(grid_height(*puzzle_input) as int, grid_width(*puzzle_input) as int),
                (2 * grid_height(*puzzle_input) + 2 * grid_width(*puzzle_input)) as int,
            ),
            None => grid_height(*puzzle_input) == 0 || grid_width(*puzzle_input) == 0 || 4 * (grid_height(
                *puzzle_input,
            ) * grid_width(*puzzle_input)) > usize::MAX,
        },
{
    let h = grid_num_rows(puzzle_input);
    let w = grid_num_columns(puzzle_input);
    if h == 0 || w == 0 {
        return None;
    }
    let ghost g = *puzzle_input;
    let ghost starts = edge_starts(h as int, w as int);
    let mut best: usize = 0;
    let mut row: usize = 0;
    while row < h
        invariant
            row <= h,
            h == grid_height(g),
            w == grid_width(g),
            h > 0,
            w > 0,
            g == *puzzle_input,
            starts == edge_starts(h as int, w as int),
            best == most_lit(g, starts, row as int),
        decreases h - row,
    {
        assert(starts[row as int] == (State { row, column: 0, direction: Direction::East }));
        let n = num_energized(puzzle_input, State::new(row, 0, Direction::East))?;
        if n > best {
            best = n;
        }
        row = row + 1;
    }
    let mut row: usize = 0;
    while row < h
        invariant
            row <= h,
            h == grid_height(g),
            w == grid_width(g),
            h > 0,
            w > 0,
            g == *puzzle_input,
            starts == edge_starts(h as int, w as int),
            best == most_lit(g, starts, h + row),
        decreases h - row,
    {
        assert(starts[h + row] == (State { row, column: (w - 1) as usize, direction: Direction::West }));
        let n = num_energized(puzzle_input, State::new(row, w - 1, Direction::West))?;
        if n > best {
            best = n;
        }
        row = row + 1;
    }
    let mut column: usize = 0;
    while column < w
        invariant
            column <= w,
            h == grid_height(g),
            w == grid_width(g),
            h > 0,
            w > 0,
            g == *puzzle_input,
            starts == edge_starts(h as int, w as int),
            best == most_lit(g, starts, 2 * h + column),
        decreases w - column,
    {
        assert(starts[2 * h + column] == (State { row: 0, column, direction: Direction::South }));
        let n = num_energized(puzzle_input, State::new(0, column, Direction::South))?;
        if n > best {
            best = n;
        }
        column = column + 1;
    }
    let mut column: usize = 0;
    while column < w
        invariant
            column <= w,
            h == grid_height(g),
            w == grid_width(g),
            h > 0,
            w > 0,
            g == *puzzle_input,
            starts == edge_starts(h as int, w as int),
            best == most_lit(g, starts, 2 * h + w + column),
        decreases w - column,
    {
        assert(starts[2 * h + w + column] == (State {
            row: (h - 1) as usize,
            column,
            direction: Direction::North,
        }));
        let n = num_energized(puzzle_input, State::new(h - 1, column, Direction::North))?;
        if n > best {
            best = n;
        }
        column = column + 1;
    }
    Some(best)
}

} // verus!
