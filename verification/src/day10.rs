//! A loop of pipes on a grid: how long it is, and how many tiles it encloses.

use crate::numbers::{lemma_cell_bound, lemma_pigeonhole};
use crate::reach::{connected, list_views, lists_wf, reachable_in};
use crate::text::{lines, lines_of, views};
use vstd::prelude::*;
use vstd::string::StringSliceAdditionalSpecFns;

verus! {

/// A compass direction; clockwise, north is 0, east 1, south 2 and west 3.
#[derive(Debug, PartialEq, Eq, Clone, Copy, Structural)]
pub enum Direction {
    North,
    East,
    South,
    West,
}

/// A turn; straight is 0, right 1, backwards 2 and left 3 quarters
/// clockwise.
#[derive(Debug, PartialEq, Eq, Clone, Copy, Structural)]
pub enum Turn {
    Straight,
    Right,
    Backwards,
    Left,
}

/// The direction with the given number, taken modulo 4.
pub open spec fn direction_of(n: int) -> Direction {
    if n % 4 == 0 {
        Direction::North
    } else if n % 4 == 1 {
        Direction::East
    } else if n % 4 == 2 {
        Direction::South
    } else {
        Direction::West
    }
}

/// The turn of the given number of quarters clockwise, taken modulo 4.
pub open spec fn turn_of(n: int) -> Turn {
    if n % 4 == 0 {
        Turn::Straight
    } else if n % 4 == 1 {
        Turn::Right
    } else if n % 4 == 2 {
        Turn::Backwards
    } else {
        Turn::Left
    }
}

impl Turn {
    /// The number of quarters clockwise that the turn makes.
    pub open spec fn quarters(self) -> int {
        match self {
            Turn::Straight => 0,
            Turn::Right => 1,
            Turn::Backwards => 2,
            Turn::Left => 3,
        }
    }
}

impl Direction {
    /// The number of the direction.
    pub open spec fn number(self) -> int {
        match self {
            Direction::North => 0,
            Direction::East => 1,
            Direction::South => 2,
            Direction::West => 3,
        }
    }

    /// The cell one step from `(i, j)` in this direction; it may lie off the
    /// grid.
    pub open spec fn successor_of(self, i: int, j: int) -> (int, int) {
        match self {
            Direction::North => (i - 1, j),
            Direction::South => (i + 1, j),
            Direction::East => (i, j + 1),
            Direction::West => (i, j - 1),
        }
    }

    /// The cell one step from `(i, j)` in this direction.
    pub fn get_successor(&self, i: usize, j: usize) -> (r: (isize, isize))
        requires
            i < isize::MAX,
            j < isize::MAX,
        ensures
            (r.0 as int, r.1 as int) == self.successor_of(i as int, j as int),
    {
        match *self {
            Direction::North => (i as isize - 1, j as isize),
            Direction::South => (i as isize + 1, j as isize),
            Direction::East => (i as isize, j as isize + 1),
            Direction::West => (i as isize, j as isize - 1),
        }
    }

    /// The cell one step from `(i, j)` in this direction, if it lies on a
    /// grid of `rows` by `cols` cells.
    pub fn neighbour(&self, i: usize, j: usize, rows: usize, cols: usize) -> (r: Option<(usize, usize)>)
        requires
            i < rows,
            j < cols,
        ensures
            r == (if on_grid(self.successor_of(i as int, j as int), rows as int, cols as int) {
                Some((self.successor_of(i as int, j as int).0 as usize, self.successor_of(i as int, j as int).1 as usize))
            } else {
                None
            }),
    {
        match *self {
            Direction::North => if i > 0 {
                Some((i - 1, j))
            } else {
                None
            },
            Direction::South => if i + 1 < rows {
                Some((i + 1, j))
            } else {
                None
            },
            Direction::East => if j + 1 < cols {
                Some((i, j + 1))
            } else {
                None
            },
            Direction::West => if j > 0 {
                Some((i, j - 1))
            } else {
                None
            },
        }
    }

    /// The direction that points the other way.
    pub fn opposite(&self) -> (r: Direction)
        ensures
            r == direction_of(self.number() + 2),
    {
        match *self {
            Direction::North => Direction::South,
            Direction::South => Direction::North,
            Direction::East => Direction::West,
            Direction::West => Direction::East,
        }
    }

    /// The turn that leads from `last_dir` to this direction.
    pub fn get_turn_since_last(&self, last_dir: Direction) -> (r: Turn)
        ensures
            r == turn_of(self.number() + 4 - last_dir.number()),
    {
        let here: u8 = self.index();
        let before: u8 = last_dir.index();
        let quarters: u8 = (here + 4 - before) % 4;
        if quarters == 0 {
            Turn::Straight
        } else if quarters == 1 {
            Turn::Right
        } else if quarters == 2 {
            Turn::Backwards
        } else {
            Turn::Left
        }
    }

    /// The direction after making `turn`.
    pub fn turn(&self, turn: Turn) -> (r: Direction)
        ensures
            r == direction_of(self.number() + turn.quarters()),
    {
        match turn {
            Turn::Right => Direction::from_index((self.index() + 1) % 4),
            Turn::Left => Direction::from_index((self.index() + 3) % 4),
            Turn::Straight => *self,
            Turn::Backwards => self.opposite(),
        }
    }

    /// The number of the direction.
    pub fn index(&self) -> (n: u8)
        ensures
            n == self.number(),
    {
        match *self {
            Direction::North => 0,
            Direction::East => 1,
            Direction::South => 2,
            Direction::West => 3,
        }
    }

    /// The direction with the given number, taken modulo 4.
    pub fn from_index(n: u8) -> (r: Direction)
        ensures
            r == direction_of(n as int),
    {
        let quarters: u8 = n % 4;
        if quarters == 0 {
            Direction::North
        } else if quarters == 1 {
            Direction::East
        } else if quarters == 2 {
            Direction::South
        } else {
            Direction::West
        }
    }
}

/// Whether `cell` lies on a grid of `rows` by `cols` cells.
pub open spec fn on_grid(cell: (int, int), rows: int, cols: int) -> bool {
    0 <= cell.0 < rows && 0 <= cell.1 < cols
}

/// A tile: a pipe that joins two directions, ground, or the start.
#[derive(Debug, PartialEq, Eq, Clone, Copy, Structural)]
pub enum Tile {
    NorthSouth,
    EastWest,
    NorthEast,
    NorthWest,
    SouthWest,
    SouthEast,
    Ground,
    Start,
}

impl Tile {
    /// The two directions that the pipe joins.
    pub open spec fn joined(self) -> Option<(Direction, Direction)> {
        match self {
            Tile::NorthSouth => Some((Direction::North, Direction::South)),
            Tile::EastWest => Some((Direction::East, Direction::West)),
            Tile::NorthEast => Some((Direction::North, Direction::East)),
            Tile::NorthWest => Some((Direction::North, Direction::West)),
            Tile::SouthWest => Some((Direction::South, Direction::West)),
            Tile::SouthEast => Some((Direction::South, Direction::East)),
            Tile::Ground => None,
            Tile::Start => None,
        }
    }

    /// The tile that a character stands for.
    pub open spec fn of_byte(c: u8) -> Option<Tile> {
        if c == 124 {
            Some(Tile::NorthSouth)
        } else if c == 45 {
            Some(Tile::EastWest)
        } else if c == 76 {
            Some(Tile::NorthEast)
        } else if c == 74 {
            Some(Tile::NorthWest)
        } else if c == 55 {
            Some(Tile::SouthWest)
        } else if c == 70 {
            Some(Tile::SouthEast)
        } else if c == 46 {
            Some(Tile::Ground)
        } else if c == 83 {
            Some(Tile::Start)
        } else {
            None
        }
    }

    /// The tile that a character stands for: one of `|-LJ7F.S`.
    pub fn from_byte(c: u8) -> (r: Option<Tile>)
        ensures
            r == Tile::of_byte(c),
    {
        if c == 124 {
            Some(Tile::NorthSouth)
        } else if c == 45 {
            Some(Tile::EastWest)
        } else if c == 76 {
            Some(Tile::NorthEast)
        } else if c == 74 {
            Some(Tile::NorthWest)
        } else if c == 55 {
            Some(Tile::SouthWest)
        } else if c == 70 {
            Some(Tile::SouthEast)
        } else if c == 46 {
            Some(Tile::Ground)
        } else if c == 83 {
            Some(Tile::Start)
        } else {
            None
        }
    }

    /// The character that stands for the tile.
    pub open spec fn byte(self) -> u8 {
        match self {
            Tile::NorthSouth => 124,
            Tile::EastWest => 45,
            Tile::NorthEast => 76,
            Tile::NorthWest => 74,
            Tile::SouthWest => 55,
            Tile::SouthEast => 70,
            Tile::Ground => 46,
            Tile::Start => 83,
        }
    }

    /// The character that stands for the tile.
    pub fn to_byte(&self) -> (c: u8)
        ensures
            c == self.byte(),
            Tile::of_byte(c) == Some(*self),
    {
        match *self {
            Tile::NorthSouth => 124,
            Tile::EastWest => 45,
            Tile::NorthEast => 76,
            Tile::NorthWest => 74,
            Tile::SouthWest => 55,
            Tile::SouthEast => 70,
            Tile::Ground => 46,
            Tile::Start => 83,
        }
    }

    /// Whether the tile is a pipe with an end in direction `dir`.
    pub fn connects_to(&self, dir: Direction) -> (b: bool)
        ensures
            b == match self.joined() {
                Some((d1, d2)) => dir == d1 || dir == d2,
                None => false,
            },
    {
        match self.dirs() {
            Some(ends) => dir == ends[0] || dir == ends[1],
            None => false,
        }
    }

    /// The two directions that the pipe joins; nothing for ground and for
    /// the start.
    pub fn dirs(&self) -> (r: Option<[Direction; 2]>)
        ensures
            match r {
                Some(ends) => self.joined() == Some((ends[0], ends[1])),
                None => self.joined() is None,
            },
    {
        match *self {
            Tile::NorthSouth => Some([Direction::North, Direction::South]),
            Tile::EastWest => Some([Direction::East, Direction::West]),
            Tile::NorthEast => Some([Direction::North, Direction::East]),
            Tile::NorthWest => Some([Direction::North, Direction::West]),
            Tile::SouthWest => Some([Direction::South, Direction::West]),
            Tile::SouthEast => Some([Direction::South, Direction::East]),
            Tile::Ground => None,
            Tile::Start => None,
        }
    }
}

/// What is known of a tile: that it is enclosed by the loop, or part of it.
#[derive(Debug, PartialEq, Eq, Clone, Copy, Structural)]
pub enum TileInfo {
    Enclosed,
    InLoop,
}

/// A place on the loop and the direction in which it was entered.
#[derive(Debug, PartialEq, Eq, Clone, Copy, Structural)]
pub struct PipeState {
    pub row: usize,
    pub col: usize,
    pub dir: Direction,
}

/// The rows of a grid of tiles.
pub open spec fn tiles_of(puzzle_input: Seq<&[Tile]>) -> Seq<Seq<Tile>> {
    puzzle_input.map_values(|row: &[Tile]| row@)
}

/// Whether every row of the grid has `cols` tiles.
pub open spec fn even(grid: Seq<Seq<Tile>>, cols: int) -> bool {
    forall|i: int| 0 <= i < grid.len() ==> (#[trigger] grid[i]).len() == cols
}

/// What following the pipe from a place gives.
#[derive(Debug, PartialEq, Eq, Clone, Copy, Structural)]
pub enum Advance {
    /// The place is the start: the loop is closed.
    Arrived,
    /// The next place on the pipe.
    Moved(PipeState),
    /// The place is ground, or the pipe leads off the grid.
    Lost,
}

/// What following the pipe from `state` gives: the pipe is left by the end
/// that is not opposite to the direction in which it was entered.
pub open spec fn advance_of(grid: Seq<Seq<Tile>>, cols: int, state: PipeState) -> Advance {
    let tile = grid[state.row as int][state.col as int];
    if tile == Tile::Start {
        Advance::Arrived
    } else {
        match tile.joined() {
            None => Advance::Lost,
            Some((d1, d2)) => {
                let dir = if d1 == direction_of(state.dir.number() + 2) {
                    d2
                } else {
                    d1
                };
                let next = dir.successor_of(state.row as int, state.col as int);
                if on_grid(next, grid.len() as int, cols) {
                    Advance::Moved(PipeState { row: next.0 as usize, col: next.1 as usize, dir })
                } else {
                    Advance::Lost
                }
            },
        }
    }
}

/// Whether `state` is a place on the grid.
pub open spec fn placed(grid: Seq<Seq<Tile>>, cols: int, state: PipeState) -> bool {
    state.row < grid.len() && state.col < cols
}

/// Follows the pipe one step from `state`.
pub fn advance(puzzle_input: &[&[Tile]], num_cols: usize, state: PipeState) -> (r: Advance)
    requires
        even(tiles_of(puzzle_input@), num_cols as int),
        placed(tiles_of(puzzle_input@), num_cols as int, state),
    ensures
        r == advance_of(tiles_of(puzzle_input@), num_cols as int, state),
        r matches Advance::Moved(next) ==> placed(tiles_of(puzzle_input@), num_cols as int, next),
{
    assert(tiles_of(puzzle_input@)[state.row as int] == puzzle_input@[state.row as int]@);
    let tile = puzzle_input[state.row][state.col];
    if tile == Tile::Start {
        return Advance::Arrived;
    }
    match tile.dirs() {
        None => Advance::Lost,
        Some(ends) => {
            let dir = if ends[0] == state.dir.opposite() {
                ends[1]
            } else {
                ends[0]
            };
            match dir.neighbour(state.row, state.col, puzzle_input.len(), num_cols) {
                Some((row, col)) => Advance::Moved(PipeState { row, col, dir }),
                None => Advance::Lost,
            }
        },
    }
}

/// Walks along a pipe until the start is reached.
pub struct PipeIterator<'a> {
    pub puzzle_input: &'a [&'a [Tile]],
    pub num_cols: usize,
    pub state: PipeState,
}

impl<'a> PipeIterator<'a> {
    /// Whether the rows are even and the iterator stands on the grid.
    pub open spec fn wf(&self) -> bool {
        &&& even(tiles_of(self.puzzle_input@), self.num_cols as int)
        &&& placed(tiles_of(self.puzzle_input@), self.num_cols as int, self.state)
    }

    /// What following the pipe from here gives.
    pub open spec fn ahead(&self) -> Advance {
        advance_of(tiles_of(self.puzzle_input@), self.num_cols as int, self.state)
    }

    /// Moves one step along the pipe and returns the place reached; at the
    /// start, stays and returns nothing. The pipe must not be lost here.
    pub fn next(&mut self) -> (r: Option<PipeState>)
        requires
            old(self).wf(),
            old(self).ahead() != Advance::Lost,
        ensures
            final(self).wf(),
            final(self).puzzle_input == old(self).puzzle_input,
            final(self).num_cols == old(self).num_cols,
            match old(self).ahead() {
                Advance::Moved(next) => r == Some(next) && final(self).state == next,
                _ => r is None && final(self).state == old(self).state,
            },
    {
        match advance(self.puzzle_input, self.num_cols, self.state) {
            Advance::Moved(next) => {
                self.state = next;
                Some(next)
            },
            _ => None,
        }
    }
}

/// An iterator along the pipe that begins after `initial_state`.
pub fn get_pipe_iterator<'a>(puzzle_input: &'a [&'a [Tile]], num_cols: usize, initial_state: PipeState) -> (r:
    PipeIterator<'a>)
    ensures
        r.puzzle_input == puzzle_input,
        r.num_cols == num_cols,
        r.state == initial_state,
{
    PipeIterator { puzzle_input, num_cols, state: initial_state }
}

/// The first place at or after `j` in the row that holds the start.
pub open spec fn start_in_row(row: Seq<Tile>, j: int) -> Option<int>
    decreases row.len() - j,
{
    if j < 0 || j >= row.len() {
        None
    } else if row[j] == Tile::Start {
        Some(j)
    } else {
        start_in_row(row, j + 1)
    }
}

/// The first start in the first row at or after `i` that holds one.
pub open spec fn start_from(grid: Seq<Seq<Tile>>, i: int) -> Option<(int, int)>
    decreases grid.len() - i,
{
    if i < 0 || i >= grid.len() {
        None
    } else {
        match start_in_row(grid[i], 0) {
            Some(j) => Some((i, j)),
            None => start_from(grid, i + 1),
        }
    }
}

/// The place one step from `start` in direction `dir`, if it lies on the
/// grid and holds a pipe with an end towards `start`.
pub open spec fn launch(grid: Seq<Seq<Tile>>, cols: int, start: (int, int), dir: Direction) -> Option<PipeState> {
    let next = dir.successor_of(start.0, start.1);
    if on_grid(next, grid.len() as int, cols) {
        match grid[next.0][next.1].joined() {
            Some((d1, d2)) => if d1 == direction_of(dir.number() + 2) || d2 == direction_of(dir.number() + 2) {
                Some(PipeState { row: next.0 as usize, col: next.1 as usize, dir })
            } else {
                None
            },
            None => None,
        }
    } else {
        None
    }
}

/// The place from which the loop is followed: one step from the first start
/// in the first of the directions north, east, south, west that leads into a
/// pipe.
pub open spec fn initial_of(grid: Seq<Seq<Tile>>, cols: int) -> Option<PipeState> {
    match start_from(grid, 0) {
        None => None,
        Some(start) => if launch(grid, cols, start, Direction::North) is Some {
            launch(grid, cols, start, Direction::North)
        } else if launch(grid, cols, start, Direction::East) is Some {
            launch(grid, cols, start, Direction::East)
        } else if launch(grid, cols, start, Direction::South) is Some {
            launch(grid, cols, start, Direction::South)
        } else {
            launch(grid, cols, start, Direction::West)
        },
    }
}

/// The first start of the grid, rows from the top and each from the left.
fn find_start(puzzle_input: &[&[Tile]], num_cols: usize) -> (r: Option<(usize, usize)>)
    requires
        even(tiles_of(puzzle_input@), num_cols as int),
    ensures
        match r {
            Some((i, j)) => start_from(tiles_of(puzzle_input@), 0) == Some((i as int, j as int)) && i
                < puzzle_input@.len() && j < num_cols,
            None => start_from(tiles_of(puzzle_input@), 0) is None,
        },
{
    let ghost grid = tiles_of(puzzle_input@);
    let mut i: usize = 0;
    while i < puzzle_input.len()
        invariant
            i <= puzzle_input@.len(),
            grid == tiles_of(puzzle_input@),
            even(grid, num_cols as int),
            start_from(grid, 0) == start_from(grid, i as int),
        decreases puzzle_input@.len() - i,
    {
        assert(grid[i as int] == puzzle_input@[i as int]@);
        let row = puzzle_input[i];
        let mut j: usize = 0;
        while j < row.len()
            invariant
                j <= row@.len(),
                i < puzzle_input@.len(),
                grid == tiles_of(puzzle_input@),
                even(grid, num_cols as int),
                start_from(grid, 0) == start_from(grid, i as int),
                row@ == grid[i as int],
                start_in_row(row@, 0) == start_in_row(row@, j as int),
            decreases row@.len() - j,
        {
            if row[j] == Tile::Start {
                return Some((i, j));
            }
            j = j + 1;
        }
        i = i + 1;
    }
    None
}

/// The place one step from the start in direction `dir`, if it holds a pipe
/// with an end towards the start.
fn try_launch(puzzle_input: &[&[Tile]], num_cols: usize, start: (usize, usize), dir: Direction) -> (r: Option<
    PipeState,
>)
    requires
        even(tiles_of(puzzle_input@), num_cols as int),
        start.0 < puzzle_input@.len(),
        start.1 < num_cols,
    ensures
        r == launch(tiles_of(puzzle_input@), num_cols as int, (start.0 as int, start.1 as int), dir),
        r matches Some(state) ==> placed(tiles_of(puzzle_input@), num_cols as int, state),
{
    match dir.neighbour(start.0, start.1, puzzle_input.len(), num_cols) {
        None => None,
        Some((row, col)) => {
            assert(tiles_of(puzzle_input@)[row as int] == puzzle_input@[row as int]@);
            if puzzle_input[row][col].connects_to(dir.opposite()) {
                Some(PipeState { row, col, dir })
            } else {
                None
            }
        },
    }
}

/// The place from which the loop is followed; nothing when the grid has no
/// start or no pipe leads away from it.
pub fn get_intitial_pipe_state(puzzle_input: &[&[Tile]], num_cols: usize) -> (r: Option<PipeState>)
    requires
        even(tiles_of(puzzle_input@), num_cols as int),
    ensures
        r == initial_of(tiles_of(puzzle_input@), num_cols as int),
        r matches Some(state) ==> placed(tiles_of(puzzle_input@), num_cols as int, state),
{
    let start = find_start(puzzle_input, num_cols)?;
    let north = try_launch(puzzle_input, num_cols, start, Direction::North);
    if north.is_some() {
        return north;
    }
    let east = try_launch(puzzle_input, num_cols, start, Direction::East);
    if east.is_some() {
        return east;
    }
    let south = try_launch(puzzle_input, num_cols, start, Direction::South);
    if south.is_some() {
        return south;
    }
    try_launch(puzzle_input, num_cols, start, Direction::West)
}

/// The places passed from `state` until the start is reached, after those
/// of `passed`; nothing when the pipe is lost, or when the start is not
/// reached with fewer than `limit` places passed.
pub open spec fn trail_from(grid: Seq<Seq<Tile>>, cols: int, state: PipeState, passed: Seq<PipeState>, limit: nat) -> Option<
    Seq<PipeState>,
>
    decreases limit - passed.len(),
{
    match advance_of(grid, cols, state) {
        Advance::Arrived => Some(passed),
        Advance::Lost => None,
        Advance::Moved(next) => if passed.len() >= limit {
            None
        } else {
            trail_from(grid, cols, next, passed.push(next), limit)
        },
    }
}

/// The places passed on the loop, from the place after the initial one to
/// the start; four visits of each cell are the limit.
pub open spec fn trail_of(grid: Seq<Seq<Tile>>, cols: int) -> Option<Seq<PipeState>> {
    match initial_of(grid, cols) {
        None => None,
        Some(state) => trail_from(grid, cols, state, Seq::empty(), (4 * (grid.len() * cols)) as nat),
    }
}

/// Follows the loop from the initial place to the start and returns the
/// initial place with the places passed.
pub fn follow_loop(puzzle_input: &[&[Tile]], num_cols: usize) -> (r: Option<(PipeState, Vec<PipeState>)>)
    requires
        even(tiles_of(puzzle_input@), num_cols as int),
    ensures
        match r {
            Some((initial, trail)) => {
                &&& initial_of(tiles_of(puzzle_input@), num_cols as int) == Some(initial)
                &&& trail_of(tiles_of(puzzle_input@), num_cols as int) == Some(trail@)
                &&& placed(tiles_of(puzzle_input@), num_cols as int, initial)
                &&& forall|k: int|
                    0 <= k < trail@.len() ==> placed(tiles_of(puzzle_input@), num_cols as int, #[trigger] trail@[k])
            },
            None => trail_of(tiles_of(puzzle_input@), num_cols as int) is None,
        },
{
    let initial = get_intitial_pipe_state(puzzle_input, num_cols)?;
    let ghost grid = tiles_of(puzzle_input@);
    let ghost limit = (4 * (grid.len() * num_cols)) as nat;
    let num_rows = puzzle_input.len();
    assert(num_rows * num_cols <= u128::MAX) by (nonlinear_arith)
        requires
            num_rows <= 0xffff_ffff_ffff_ffff,
            num_cols <= 0xffff_ffff_ffff_ffff,
    ;
    let cells: u128 = (num_rows as u128) * (num_cols as u128);
    let mut iterator = get_pipe_iterator(puzzle_input, num_cols, initial);
    let mut trail: Vec<PipeState> = Vec::new();
    loop
        invariant
            iterator.wf(),
            iterator.puzzle_input == puzzle_input,
            iterator.num_cols == num_cols,
            grid == tiles_of(puzzle_input@),
            limit == 4 * (grid.len() * num_cols),
            cells == grid.len() * num_cols,
            trail@.len() <= limit,
            initial_of(grid, num_cols as int) == Some(initial),
            placed(grid, num_cols as int, initial),
            trail_of(grid, num_cols as int) == trail_from(grid, num_cols as int, iterator.state, trail@, limit),
            forall|k: int| 0 <= k < trail@.len() ==> placed(grid, num_cols as int, #[trigger] trail@[k]),
        decreases limit - trail@.len(),
    {
        if advance(puzzle_input, num_cols, iterator.state) == Advance::Lost {
            return None;
        }
        match iterator.next() {
            None => {
                return Some((initial, trail));
            },
            Some(next) => {
                if (trail.len() as u128) / 4 >= cells {
                    return None;
                }
                trail.push(next);
            },
        }
    }
}

/// Half the length of the loop through the start.
pub fn part1(puzzle_input: &[&[Tile]], num_cols: usize) -> (r: Option<usize>)
    requires
        even(tiles_of(puzzle_input@), num_cols as int),
    ensures
        r == match trail_of(tiles_of(puzzle_input@), num_cols as int) {
            Some(trail) => Some(((trail.len() + 1) / 2) as usize),
            None => None,
        },
{
    let (_, trail) = follow_loop(puzzle_input, num_cols)?;
    let num_steps = trail.len();
    Some(num_steps / 2 + num_steps % 2)
}

/// What is known of every tile, row by row.
pub open spec fn infos_of(tile_info_arr: Seq<Vec<Option<TileInfo>>>) -> Seq<Seq<Option<TileInfo>>> {
    tile_info_arr.map_values(|row: Vec<Option<TileInfo>>| row@)
}

/// Whether every row of what is known has `cols` entries.
pub open spec fn even_infos(infos: Seq<Seq<Option<TileInfo>>>, cols: int) -> bool {
    forall|i: int| 0 <= i < infos.len() ==> (#[trigger] infos[i]).len() == cols
}

/// Notes `value` for the tile `(row, col)`.
fn set_info(tile_info_arr: &mut Vec<Vec<Option<TileInfo>>>, row: usize, col: usize, value: Option<TileInfo>)
    requires
        row < old(tile_info_arr)@.len(),
        col < old(tile_info_arr)@[row as int]@.len(),
    ensures
        infos_of(final(tile_info_arr)@) == infos_of(old(tile_info_arr)@).update(
            row as int,
            infos_of(old(tile_info_arr)@)[row as int].update(col as int, value),
        ),
        final(tile_info_arr)@.len() == old(tile_info_arr)@.len(),
{
    let ghost before = infos_of(tile_info_arr@);
    let mut changed = tile_info_arr.remove(row);
    changed.set(col, value);
    tile_info_arr.insert(row, changed);
    assert(infos_of(tile_info_arr@) =~= before.update(row as int, before[row as int].update(col as int, value)));
}

/// The number of the cell `(r, c)` if it lies on the grid and nothing is
/// known of it, for use in a list.
pub open spec fn free_neighbour(infos: Seq<Seq<Option<TileInfo>>>, cols: int, r: int, c: int) -> Seq<usize> {
    if on_grid((r, c), infos.len() as int, cols) && infos[r][c] is None {
        seq![(r * cols + c) as usize]
    } else {
        Seq::empty()
    }
}

/// The cells next to the cell with the given number of which nothing is
/// known: above, to the right, below, to the left.
pub open spec fn free_neighbours(infos: Seq<Seq<Option<TileInfo>>>, cols: int, place: int) -> Seq<usize> {
    let r = place / cols;
    let c = place % cols;
    free_neighbour(infos, cols, r - 1, c) + free_neighbour(infos, cols, r, c + 1) + free_neighbour(
        infos,
        cols,
        r + 1,
        c,
    ) + free_neighbour(infos, cols, r, c - 1)
}

/// For every cell, by its number, the cells next to it of which nothing is
/// known.
pub open spec fn free_graph(infos: Seq<Seq<Option<TileInfo>>>, cols: int) -> Seq<Seq<usize>> {
    Seq::new((infos.len() * cols) as nat, |place: int| free_neighbours(infos, cols, place))
}

/// What is known of the tile `(r, c)` after filling from `(i, j)`.
pub open spec fn filled_at(infos: Seq<Seq<Option<TileInfo>>>, cols: int, i: int, j: int, r: int, c: int) -> Option<
    TileInfo,
> {
    if connected(free_graph(infos, cols), (i * cols + j) as usize, (r * cols + c) as usize) {
        Some(TileInfo::Enclosed)
    } else {
        infos[r][c]
    }
}

/// What is known after the tile `(i, j)`, and every tile that can be reached
/// from it through tiles of which nothing is known, is noted as enclosed.
pub open spec fn filled(infos: Seq<Seq<Option<TileInfo>>>, cols: int, i: int, j: int) -> Seq<Seq<Option<TileInfo>>> {
    Seq::new(infos.len(), |r: int| Seq::new(cols as nat, |c: int| filled_at(infos, cols, i, j, r, c)))
}

/// Adds the number of the cell `(r, c)` to the list if the cell lies on the
/// grid and nothing is known of it.
fn push_free(list: &mut Vec<usize>, tile_info_arr: &Vec<Vec<Option<TileInfo>>>, num_cols: usize, cell: Option<(usize, usize)>)
    requires
        even_infos(infos_of(tile_info_arr@), num_cols as int),
        tile_info_arr@.len() * num_cols <= usize::MAX,
        cell matches Some(at) ==> at.0 < tile_info_arr@.len() && at.1 < num_cols,
        forall|k: int| 0 <= k < old(list)@.len() ==> #[trigger] old(list)@[k] < tile_info_arr@.len() * num_cols,
    ensures
        final(list)@ == old(list)@ + (match cell {
            Some(at) => free_neighbour(infos_of(tile_info_arr@), num_cols as int, at.0 as int, at.1 as int),
            None => Seq::empty(),
        }),
        forall|k: int| 0 <= k < final(list)@.len() ==> #[trigger] final(list)@[k] < tile_info_arr@.len() * num_cols,
{
    let ghost before = list@;
    match cell {
        Some((row, col)) => {
            assert(infos_of(tile_info_arr@)[row as int] == tile_info_arr@[row as int]@);
            if tile_info_arr[row][col].is_none() {
                proof {
                    lemma_cell_bound(row as int, col as int, tile_info_arr@.len() as int, num_cols as int);
                    lemma_cell_bound(row as int, 0, tile_info_arr@.len() as int, num_cols as int);
                }
                list.push(row * num_cols + col);
                assert(list@ =~= before + seq![(row * num_cols + col) as usize]);
                return ;
            }
        },
        None => {},
    }
    assert(list@ =~= before + Seq::<usize>::empty());
}

/// For every cell, the cells next to it of which nothing is known.
fn build_free_graph(tile_info_arr: &Vec<Vec<Option<TileInfo>>>, num_cols: usize) -> (lists: Vec<Vec<usize>>)
    requires
        even_infos(infos_of(tile_info_arr@), num_cols as int),
        tile_info_arr@.len() * num_cols <= usize::MAX,
    ensures
        list_views(lists@) == free_graph(infos_of(tile_info_arr@), num_cols as int),
        lists_wf(list_views(lists@)),
        lists@.len() == tile_info_arr@.len() * num_cols,
{
    let h = tile_info_arr.len();
    let w = num_cols;
    let ghost infos = infos_of(tile_info_arr@);
    let ghost wi = w as int;
    let ghost total = h * w;
    let mut lists: Vec<Vec<usize>> = Vec::new();
    let mut row: usize = 0;
    assert(0 * w == 0) by (nonlinear_arith);
    while row < h
        invariant
            row <= h,
            h == tile_info_arr@.len(),
            w == num_cols,
            wi == w,
            infos == infos_of(tile_info_arr@),
            even_infos(infos, wi),
            total == h * w,
            total <= usize::MAX,
            lists@.len() == row * w,
            forall|p: int| 0 <= p < lists@.len() ==> (#[trigger] lists@[p])@ == free_neighbours(infos, wi, p),
            forall|p: int, k: int|
                0 <= p < lists@.len() && 0 <= k < lists@[p]@.len() ==> (#[trigger] lists@[p]@[k]) < total,
        decreases h - row,
    {
        let mut column: usize = 0;
        while column < w
            invariant
                column <= w,
                row < h,
                h == tile_info_arr@.len(),
                w == num_cols,
                wi == w,
                infos == infos_of(tile_info_arr@),
                even_infos(infos, wi),
                total == h * w,
                total <= usize::MAX,
                lists@.len() == row * w + column,
                forall|p: int| 0 <= p < lists@.len() ==> (#[trigger] lists@[p])@ == free_neighbours(infos, wi, p),
                forall|p: int, k: int|
                    0 <= p < lists@.len() && 0 <= k < lists@[p]@.len() ==> (#[trigger] lists@[p]@[k]) < total,
            decreases w - column,
        {
            proof {
                vstd::arithmetic::div_mod::lemma_fundamental_div_mod_converse(
                    row * w + column,
                    wi,
                    row as int,
                    column as int,
                );
            }
            let mut list: Vec<usize> = Vec::new();
            push_free(&mut list, tile_info_arr, w, Direction::North.neighbour(row, column, h, w));
            push_free(&mut list, tile_info_arr, w, Direction::East.neighbour(row, column, h, w));
            push_free(&mut list, tile_info_arr, w, Direction::South.neighbour(row, column, h, w));
            push_free(&mut list, tile_info_arr, w, Direction::West.neighbour(row, column, h, w));
            assert(list@ =~= free_neighbours(infos, wi, row * w + column));
            lists.push(list);
            column = column + 1;
        }
        proof {
            assert((row + 1) * w == row * w + w) by (nonlinear_arith);
        }
        row = row + 1;
    }
    proof {
        assert(list_views(lists@) =~= free_graph(infos, wi));
        assert forall|x: int, k: int|
            0 <= x < list_views(lists@).len() && 0 <= k < list_views(lists@)[x].len() implies #[trigger] list_views(
            lists@,
        )[x][k] < list_views(lists@).len() by {
            assert(list_views(lists@)[x] == lists@[x]@);
            assert(lists@[x]@[k] < total);
        }
    }
    lists
}

/// Notes the tile `(i, j)` as enclosed, and with it every tile that can be
/// reached from it through tiles of which nothing is known. The grid must
/// not have more cells than `usize` counts.
pub fn flood_fill(tile_info_arr: &mut Vec<Vec<Option<TileInfo>>>, num_cols: usize, i: usize, j: usize)
    requires
        even_infos(infos_of(old(tile_info_arr)@), num_cols as int),
        old(tile_info_arr)@.len() * num_cols <= usize::MAX,
        i < old(tile_info_arr)@.len(),
        j < num_cols,
    ensures
        infos_of(final(tile_info_arr)@) == filled(infos_of(old(tile_info_arr)@), num_cols as int, i as int, j as int),
        even_infos(infos_of(final(tile_info_arr)@), num_cols as int),
        final(tile_info_arr)@.len() == old(tile_info_arr)@.len(),
{
    let h = tile_info_arr.len();
    let w = num_cols;
    let ghost infos = infos_of(tile_info_arr@);
    let ghost wi = w as int;
    proof {
        lemma_cell_bound(i as int, j as int, h as int, wi);
        lemma_cell_bound(i as int, 0, h as int, wi);
    }
    let lists = build_free_graph(tile_info_arr, w);
    let seed = i * w + j;
    let marks = reachable_in(&lists, seed);
    let ghost graph = free_graph(infos, wi);
    let ghost wanted = filled(infos, wi, i as int, j as int);
    let mut row: usize = 0;
    while row < h
        invariant
            row <= h,
            h == infos.len(),
            w == num_cols,
            wi == w,
            h * w <= usize::MAX,
            tile_info_arr@.len() == h,
            even_infos(infos, wi),
            even_infos(infos_of(tile_info_arr@), wi),
            graph == free_graph(infos, wi),
            marks@.len() == h * w,
            seed == i * wi + j,
            forall|v: int| 0 <= v < marks@.len() ==> (#[trigger] marks@[v] <==> connected(graph, seed, v as usize)),
            wanted == filled(infos, wi, i as int, j as int),
            forall|r: int| 0 <= r < row ==> #[trigger] infos_of(tile_info_arr@)[r] == wanted[r],
            forall|r: int| row <= r < h ==> #[trigger] infos_of(tile_info_arr@)[r] == infos[r],
        decreases h - row,
    {
        let mut column: usize = 0;
        while column < w
            invariant
                column <= w,
                row < h,
                h == infos.len(),
                w == num_cols,
                wi == w,
                h * w <= usize::MAX,
                tile_info_arr@.len() == h,
                even_infos(infos, wi),
                even_infos(infos_of(tile_info_arr@), wi),
                graph == free_graph(infos, wi),
                marks@.len() == h * w,
                seed == i * wi + j,
                forall|v: int|
                    0 <= v < marks@.len() ==> (#[trigger] marks@[v] <==> connected(graph, seed, v as usize)),
                wanted == filled(infos, wi, i as int, j as int),
                forall|r: int| 0 <= r < row ==> #[trigger] infos_of(tile_info_arr@)[r] == wanted[r],
                forall|r: int| row < r < h ==> #[trigger] infos_of(tile_info_arr@)[r] == infos[r],
                forall|c: int|
                    0 <= c < column ==> #[trigger] infos_of(tile_info_arr@)[row as int][c] == wanted[row as int][c],
                forall|c: int|
                    column <= c < w ==> #[trigger] infos_of(tile_info_arr@)[row as int][c] == infos[row as int][c],
            decreases w - column,
        {
            proof {
                lemma_cell_bound(row as int, column as int, h as int, wi);
                lemma_cell_bound(row as int, 0, h as int, wi);
                assert(infos_of(tile_info_arr@)[row as int] == tile_info_arr@[row as int]@);
            }
            if marks[row * w + column] {
                set_info(tile_info_arr, row, column, Some(TileInfo::Enclosed));
            }
            column = column + 1;
        }
        proof {
            assert(infos_of(tile_info_arr@)[row as int] =~= wanted[row as int]);
        }
        row = row + 1;
    }
    assert(infos_of(tile_info_arr@) =~= wanted);
}

/// The direction in which the `k`-th place of the loop is left: that in
/// which the next place is entered, and after the last place, the first.
pub open spec fn dir_after(places: Seq<PipeState>, k: int) -> Direction {
    if k + 1 < places.len() {
        places[k + 1].dir
    } else {
        places[0].dir
    }
}

/// At how many of the first `n` places the loop makes the turn `which`.
pub open spec fn turns(places: Seq<PipeState>, which: Turn, n: int) -> nat
    decreases n,
{
    if n <= 0 {
        0
    } else if turn_of(dir_after(places, n - 1).number() + 4 - places[n - 1].dir.number()) == which {
        turns(places, which, n - 1) + 1
    } else {
        turns(places, which, n - 1)
    }
}

/// The turn that leads to the inside of the loop: right when the loop
/// turns right more often than left.
pub open spec fn inside_of(places: Seq<PipeState>) -> Turn {
    if turns(places, Turn::Right, places.len() as int) > turns(places, Turn::Left, places.len() as int) {
        Turn::Right
    } else {
        Turn::Left
    }
}

/// Whether one of the first `n` places of the loop is the cell `(r, c)`.
pub open spec fn on_loop(places: Seq<PipeState>, n: int, r: int, c: int) -> bool
    decreases n,
{
    n > 0 && ((places[n - 1].row == r && places[n - 1].col == c) || on_loop(places, n - 1, r, c))
}

/// The cell beside the `k`-th place of the loop, on the inside as seen in
/// the direction in which the place is entered.
pub open spec fn inner_first(places: Seq<PipeState>, inside: Turn, k: int) -> (int, int) {
    direction_of(places[k].dir.number() + inside.quarters()).successor_of(places[k].row as int, places[k].col as int)
}

/// The cell beside the `k`-th place of the loop, on the inside as seen in
/// the direction in which the place is left.
pub open spec fn inner_second(places: Seq<PipeState>, inside: Turn, k: int) -> (int, int) {
    direction_of(dir_after(places, k).number() + inside.quarters()).successor_of(
        places[k].row as int,
        places[k].col as int,
    )
}

/// Whether the cells beside the first `n` places of the loop, on the
/// inside, all lie on the grid.
pub open spec fn inner_ok(places: Seq<PipeState>, inside: Turn, rows: int, cols: int, n: int) -> bool
    decreases n,
{
    n <= 0 || (inner_ok(places, inside, rows, cols, n - 1) && on_grid(
        inner_first(places, inside, n - 1),
        rows,
        cols,
    ) && on_grid(inner_second(places, inside, n - 1), rows, cols))
}

/// Whether `(r, c)` is a cell beside one of the first `n` places of the
/// loop, on the inside.
pub open spec fn is_inner(places: Seq<PipeState>, inside: Turn, n: int, r: int, c: int) -> bool
    decreases n,
{
    n > 0 && (inner_first(places, inside, n - 1) == (r, c) || inner_second(places, inside, n - 1) == (r, c)
        || is_inner(places, inside, n - 1, r, c))
}

/// What is known of the cell `(r, c)` once the first `on` places of the
/// loop are noted as such and the cells beside the first
/// `beside` places, on the inside, as enclosed unless they are part of the
/// loop.
pub open spec fn outlined_at(
    places: Seq<PipeState>,
    inside: Turn,
    on: int,
    beside: int,
    r: int,
    c: int,
) -> Option<TileInfo> {
    if on_loop(places, on, r, c) {
        Some(TileInfo::InLoop)
    } else if is_inner(places, inside, beside, r, c) {
        Some(TileInfo::Enclosed)
    } else {
        None
    }
}

/// What is known of every cell of a grid of `rows` by `cols` cells once the
/// loop and the cells beside it are noted.
pub open spec fn outlined(
    places: Seq<PipeState>,
    inside: Turn,
    rows: int,
    cols: int,
    on: int,
    beside: int,
) -> Seq<Seq<Option<TileInfo>>> {
    Seq::new(
        rows as nat,
        |r: int| Seq::new(cols as nat, |c: int| outlined_at(places, inside, on, beside, r, c)),
    )
}

/// What is known after going through the first `n` cells, row by row, and
/// filling from each that is noted as enclosed by then.
pub open spec fn swept(infos: Seq<Seq<Option<TileInfo>>>, cols: int, n: int) -> Seq<Seq<Option<TileInfo>>>
    decreases n,
{
    if n <= 0 {
        infos
    } else {
        let before = swept(infos, cols, n - 1);
        if before[(n - 1) / cols][(n - 1) % cols] == Some(TileInfo::Enclosed) {
            filled(before, cols, (n - 1) / cols, (n - 1) % cols)
        } else {
            before
        }
    }
}

/// How many of the first `n` cells, row by row, are noted as enclosed.
pub open spec fn enclosed_in(infos: Seq<Seq<Option<TileInfo>>>, cols: int, n: int) -> nat
    decreases n,
{
    if n <= 0 {
        0
    } else if infos[(n - 1) / cols][(n - 1) % cols] == Some(TileInfo::Enclosed) {
        enclosed_in(infos, cols, n - 1) + 1
    } else {
        enclosed_in(infos, cols, n - 1)
    }
}

/// The places of the loop through the start: the place from which it is
/// followed, and then the places passed, the start last.
pub open spec fn loop_of(grid: Seq<Seq<Tile>>, cols: int) -> Option<Seq<PipeState>> {
    match (initial_of(grid, cols), trail_of(grid, cols)) {
        (Some(initial), Some(trail)) => Some(seq![initial] + trail),
        _ => None,
    }
}

/// The number of tiles that the loop encloses: the cells beside the loop on
/// its inside, and what can be reached from them without crossing the loop.
pub open spec fn enclosed_by(grid: Seq<Seq<Tile>>, cols: int) -> Option<usize> {
    match loop_of(grid, cols) {
        Some(places) => {
            let inside = inside_of(places);
            let rows = grid.len() as int;
            if rows * cols <= usize::MAX && inner_ok(places, inside, rows, cols, places.len() as int) {
                let infos = outlined(places, inside, rows, cols, places.len() as int, places.len() as int);
                Some(enclosed_in(swept(infos, cols, rows * cols), cols, rows * cols) as usize)
            } else {
                None
            }
        },
        None => None,
    }
}

/// The number of enclosed cells is at most the number of cells counted.
pub proof fn lemma_enclosed_bound(infos: Seq<Seq<Option<TileInfo>>>, cols: int, n: int)
    requires
        0 <= n,
    ensures
        enclosed_in(infos, cols, n) <= n,
    decreases n,
{
    if n > 0 {
        lemma_enclosed_bound(infos, cols, n - 1);
    }
}

/// Notes the tile `(row, col)` as enclosed unless something is known of it.
fn note_enclosed(tile_info_arr: &mut Vec<Vec<Option<TileInfo>>>, num_cols: usize, row: usize, col: usize)
    requires
        even_infos(infos_of(old(tile_info_arr)@), num_cols as int),
        row < old(tile_info_arr)@.len(),
        col < num_cols,
    ensures
        final(tile_info_arr)@.len() == old(tile_info_arr)@.len(),
        infos_of(final(tile_info_arr)@) == infos_of(old(tile_info_arr)@).update(
            row as int,
            infos_of(old(tile_info_arr)@)[row as int].update(
                col as int,
                if infos_of(old(tile_info_arr)@)[row as int][col as int] is None {
                    Some(TileInfo::Enclosed)
                } else {
                    infos_of(old(tile_info_arr)@)[row as int][col as int]
                },
            ),
        ),
{
    let ghost before = infos_of(tile_info_arr@);
    assert(before[row as int] == tile_info_arr@[row as int]@);
    if tile_info_arr[row][col].is_none() {
        set_info(tile_info_arr, row, col, Some(TileInfo::Enclosed));
    } else {
        assert(before[row as int] =~= before[row as int].update(col as int, before[row as int][col as int]));
        assert(before =~= before.update(row as int, before[row as int]));
    }
}

/// A grid of `num_rows` by `num_cols` cells of which nothing is known.
fn blank_infos(num_rows: usize, num_cols: usize) -> (tile_info_arr: Vec<Vec<Option<TileInfo>>>)
    ensures
        tile_info_arr@.len() == num_rows,
        even_infos(infos_of(tile_info_arr@), num_cols as int),
        forall|r: int, c: int|
            0 <= r < num_rows && 0 <= c < num_cols ==> (#[trigger] infos_of(tile_info_arr@)[r][c]) is None,
{
    let mut tile_info_arr: Vec<Vec<Option<TileInfo>>> = Vec::new();
    let mut i: usize = 0;
    while i < num_rows
        invariant
            i <= num_rows,
            tile_info_arr@.len() == i,
            forall|r: int| 0 <= r < i ==> (#[trigger] tile_info_arr@[r])@.len() == num_cols,
            forall|r: int, c: int| 0 <= r < i && 0 <= c < num_cols ==> (#[trigger] tile_info_arr@[r]@[c]) is None,
        decreases num_rows - i,
    {
        let mut v: Vec<Option<TileInfo>> = Vec::new();
        let mut j: usize = 0;
        while j < num_cols
            invariant
                j <= num_cols,
                v@.len() == j,
                forall|c: int| 0 <= c < j ==> (#[trigger] v@[c]) is None,
            decreases num_cols - j,
        {
            v.push(None);
            j = j + 1;
        }
        tile_info_arr.push(v);
        i = i + 1;
    }
    proof {
        assert forall|r: int| 0 <= r < num_rows implies (#[trigger] infos_of(tile_info_arr@)[r]).len()
            == num_cols by {
            assert(infos_of(tile_info_arr@)[r] == tile_info_arr@[r]@);
        }
        assert forall|r: int, c: int| 0 <= r < num_rows && 0 <= c < num_cols implies (#[trigger] infos_of(
            tile_info_arr@,
        )[r][c]) is None by {
            assert(infos_of(tile_info_arr@)[r] == tile_info_arr@[r]@);
            assert(tile_info_arr@[r]@[c] is None);
        }
    }
    tile_info_arr
}

/// The direction in which the `k`-th place of the loop is left.
fn leaving(places: &Vec<PipeState>, k: usize) -> (dir: Direction)
    requires
        k < places@.len(),
    ensures
        dir == dir_after(places@, k as int),
{
    if k < places.len() - 1 {
        places[k + 1].dir
    } else {
        places[0].dir
    }
}

/// How often the loop turns left and how often right.
fn count_turns(places: &Vec<PipeState>) -> (r: (usize, usize))
    ensures
        r.0 == turns(places@, Turn::Left, places@.len() as int),
        r.1 == turns(places@, Turn::Right, places@.len() as int),
{
    let mut num_lefts: usize = 0;
    let mut num_rights: usize = 0;
    let mut k: usize = 0;
    while k < places.len()
        invariant
            k <= places@.len(),
            num_lefts == turns(places@, Turn::Left, k as int),
            num_rights == turns(places@, Turn::Right, k as int),
            num_lefts <= k,
            num_rights <= k,
        decreases places@.len() - k,
    {
        let pipe_state = places[k];
        match leaving(places, k).get_turn_since_last(pipe_state.dir) {
            Turn::Right => {
                num_rights = num_rights + 1;
            },
            Turn::Left => {
                num_lefts = num_lefts + 1;
            },
            _ => {},
        }
        k = k + 1;
    }
    (num_lefts, num_rights)
}

/// Notes every place of the loop as part of the loop.
fn mark_loop(
    tile_info_arr: &mut Vec<Vec<Option<TileInfo>>>,
    num_cols: usize,
    places: &Vec<PipeState>,
    inside: Turn,
)
    requires
        even_infos(infos_of(old(tile_info_arr)@), num_cols as int),
        forall|r: int, c: int|
            0 <= r < old(tile_info_arr)@.len() && 0 <= c < num_cols ==> (#[trigger] infos_of(
                old(tile_info_arr)@,
            )[r][c]) is None,
        forall|k: int|
            0 <= k < places@.len() ==> (#[trigger] places@[k]).row < old(tile_info_arr)@.len() && places@[k].col
                < num_cols,
    ensures
        final(tile_info_arr)@.len() == old(tile_info_arr)@.len(),
        infos_of(final(tile_info_arr)@) == outlined(
            places@,
            inside,
            old(tile_info_arr)@.len() as int,
            num_cols as int,
            places@.len() as int,
            0,
        ),
{
    let ghost rows = tile_info_arr@.len() as int;
    let ghost cols = num_cols as int;
    assert(infos_of(tile_info_arr@) =~= outlined(places@, inside, rows, cols, 0, 0)) by {
        assert forall|r: int| 0 <= r < rows implies #[trigger] infos_of(tile_info_arr@)[r] =~= outlined(
            places@,
            inside,
            rows,
            cols,
            0,
            0,
        )[r] by {
            assert forall|c: int| 0 <= c < cols implies infos_of(tile_info_arr@)[r][c] == outlined_at(
                places@,
                inside,
                0,
                0,
                r,
                c,
            ) by {
                assert(infos_of(tile_info_arr@)[r][c] is None);
            }
        }
    }
    let mut k: usize = 0;
    while k < places.len()
        invariant
            k <= places@.len(),
            rows == tile_info_arr@.len(),
            cols == num_cols,
            forall|k: int| 0 <= k < places@.len() ==> (#[trigger] places@[k]).row < rows && places@[k].col < cols,
            infos_of(tile_info_arr@) == outlined(places@, inside, rows, cols, k as int, 0),
        decreases places@.len() - k,
    {
        let pipe_state = places[k];
        let ghost before = infos_of(tile_info_arr@);
        assert(before[pipe_state.row as int] == tile_info_arr@[pipe_state.row as int]@);
        set_info(tile_info_arr, pipe_state.row, pipe_state.col, Some(TileInfo::InLoop));
        proof {
            let after = infos_of(tile_info_arr@);
            let wanted = outlined(places@, inside, rows, cols, k + 1, 0);
            assert forall|r: int| 0 <= r < rows implies #[trigger] after[r] =~= wanted[r] by {
                assert(before[r] == outlined(places@, inside, rows, cols, k as int, 0)[r]);
            }
            assert(after =~= wanted);
        }
        k = k + 1;
    }
}

/// Notes the cells beside the loop, on its inside, as enclosed unless they
/// are part of the loop, and tells whether all of them lie on the grid.
fn mark_inner(
    tile_info_arr: &mut Vec<Vec<Option<TileInfo>>>,
    num_cols: usize,
    places: &Vec<PipeState>,
    inside: Turn,
) -> (ok: bool)
    requires
        infos_of(old(tile_info_arr)@) == outlined(
            places@,
            inside,
            old(tile_info_arr)@.len() as int,
            num_cols as int,
            places@.len() as int,
            0,
        ),
        forall|k: int|
            0 <= k < places@.len() ==> (#[trigger] places@[k]).row < old(tile_info_arr)@.len() && places@[k].col
                < num_cols,
    ensures
        final(tile_info_arr)@.len() == old(tile_info_arr)@.len(),
        ok == inner_ok(
            places@,
            inside,
            old(tile_info_arr)@.len() as int,
            num_cols as int,
            places@.len() as int,
        ),
        ok ==> infos_of(final(tile_info_arr)@) == outlined(
            places@,
            inside,
            old(tile_info_arr)@.len() as int,
            num_cols as int,
            places@.len() as int,
            places@.len() as int,
        ),
{
    let ghost rows = tile_info_arr@.len() as int;
    let ghost cols = num_cols as int;
    let ghost all = places@.len() as int;
    let num_rows = tile_info_arr.len();
    let mut k: usize = 0;
    while k < places.len()
        invariant
            k <= places@.len(),
            rows == tile_info_arr@.len(),
            num_rows == rows,
            rows == old(tile_info_arr)@.len(),
            cols == num_cols,
            all == places@.len(),
            forall|k: int| 0 <= k < places@.len() ==> (#[trigger] places@[k]).row < rows && places@[k].col < cols,
            inner_ok(places@, inside, rows, cols, k as int),
            infos_of(tile_info_arr@) == outlined(places@, inside, rows, cols, all, k as int),
        decreases places@.len() - k,
    {
        let pipe_state = places[k];
        let first = pipe_state.dir.turn(inside).neighbour(pipe_state.row, pipe_state.col, num_rows, num_cols);
        let second = leaving(places, k).turn(inside).neighbour(pipe_state.row, pipe_state.col, num_rows, num_cols);
        match (first, second) {
            (Some(a), Some(b)) => {
                let ghost before = infos_of(tile_info_arr@);
                assert(even_infos(before, cols));
                note_enclosed(tile_info_arr, num_cols, a.0, a.1);
                let ghost between = infos_of(tile_info_arr@);
                assert(even_infos(between, cols));
                note_enclosed(tile_info_arr, num_cols, b.0, b.1);
                proof {
                    let after = infos_of(tile_info_arr@);
                    let wanted = outlined(places@, inside, rows, cols, all, k + 1);
                    assert(inner_first(places@, inside, k as int) == (a.0 as int, a.1 as int));
                    assert(inner_second(places@, inside, k as int) == (b.0 as int, b.1 as int));
                    assert forall|r: int| 0 <= r < rows implies #[trigger] after[r] =~= wanted[r] by {
                        assert(before[r] == outlined(places@, inside, rows, cols, all, k as int)[r]);
                    }
                    assert(after =~= wanted);
                }
            },
            _ => {
                proof {
                    lemma_inner_ok_prefix(places@, inside, rows, cols, k + 1, all);
                }
                return false;
            },
        }
        k = k + 1;
    }
    true
}

/// If the cells beside the first `i` places do not all lie on the grid,
/// neither do those beside the first `n`.
pub proof fn lemma_inner_ok_prefix(
    places: Seq<PipeState>,
    inside: Turn,
    rows: int,
    cols: int,
    i: int,
    n: int,
)
    requires
        0 <= i <= n,
        !inner_ok(places, inside, rows, cols, i),
    ensures
        !inner_ok(places, inside, rows, cols, n),
    decreases n - i,
{
    if i < n {
        lemma_inner_ok_prefix(places, inside, rows, cols, i, n - 1);
    }
}

/// Goes through the cells row by row and fills from each that is noted as
/// enclosed by then.
fn sweep(tile_info_arr: &mut Vec<Vec<Option<TileInfo>>>, num_cols: usize)
    requires
        even_infos(infos_of(old(tile_info_arr)@), num_cols as int),
        old(tile_info_arr)@.len() * num_cols <= usize::MAX,
    ensures
        final(tile_info_arr)@.len() == old(tile_info_arr)@.len(),
        even_infos(infos_of(final(tile_info_arr)@), num_cols as int),
        infos_of(final(tile_info_arr)@) == swept(
            infos_of(old(tile_info_arr)@),
            num_cols as int,
            old(tile_info_arr)@.len() * num_cols,
        ),
{
    let h = tile_info_arr.len();
    let w = num_cols;
    let ghost first = infos_of(tile_info_arr@);
    let ghost wi = w as int;
    let mut i: usize = 0;
    assert(0 * w == 0) by (nonlinear_arith);
    while i < h
        invariant
            i <= h,
            h == old(tile_info_arr)@.len(),
            tile_info_arr@.len() == h,
            w == num_cols,
            wi == w,
            h * w <= usize::MAX,
            first == infos_of(old(tile_info_arr)@),
            even_infos(infos_of(tile_info_arr@), wi),
            infos_of(tile_info_arr@) == swept(first, wi, i * w),
        decreases h - i,
    {
        let mut j: usize = 0;
        while j < w
            invariant
                j <= w,
                i < h,
                h == old(tile_info_arr)@.len(),
                tile_info_arr@.len() == h,
                w == num_cols,
                wi == w,
                h * w <= usize::MAX,
                first == infos_of(old(tile_info_arr)@),
                even_infos(infos_of(tile_info_arr@), wi),
                infos_of(tile_info_arr@) == swept(first, wi, i * w + j),
            decreases w - j,
        {
            proof {
                vstd::arithmetic::div_mod::lemma_fundamental_div_mod_converse(i * w + j, wi, i as int, j as int);
                lemma_cell_bound(i as int, j as int, h as int, wi);
                assert(infos_of(tile_info_arr@)[i as int] == tile_info_arr@[i as int]@);
            }
            let enclosed = match tile_info_arr[i][j] {
                Some(TileInfo::Enclosed) => true,
                _ => false,
            };
            if enclosed {
                flood_fill(tile_info_arr, w, i, j);
            }
            j = j + 1;
        }
        proof {
            assert((i + 1) * w == i * w + w) by (nonlinear_arith);
        }
        i = i + 1;
    }
}

/// The number of cells that are noted as enclosed.
fn count_enclosed(tile_info_arr: &Vec<Vec<Option<TileInfo>>>, num_cols: usize) -> (n: usize)
    requires
        even_infos(infos_of(tile_info_arr@), num_cols as int),
        tile_info_arr@.len() * num_cols <= usize::MAX,
    ensures
        n == enclosed_in(infos_of(tile_info_arr@), num_cols as int, tile_info_arr@.len() * num_cols),
{
    let h = tile_info_arr.len();
    let w = num_cols;
    let ghost infos = infos_of(tile_info_arr@);
    let ghost wi = w as int;
    let mut n: usize = 0;
    let mut i: usize = 0;
    assert(0 * w == 0) by (nonlinear_arith);
    while i < h
        invariant
            i <= h,
            h == tile_info_arr@.len(),
            w == num_cols,
            wi == w,
            h * w <= usize::MAX,
            infos == infos_of(tile_info_arr@),
            even_infos(infos, wi),
            n == enclosed_in(infos, wi, i * w),
        decreases h - i,
    {
        let mut j: usize = 0;
        while j < w
            invariant
                j <= w,
                i < h,
                h == tile_info_arr@.len(),
                w == num_cols,
                wi == w,
                h * w <= usize::MAX,
                infos == infos_of(tile_info_arr@),
                even_infos(infos, wi),
                n == enclosed_in(infos, wi, i * w + j),
            decreases w - j,
        {
            proof {
                vstd::arithmetic::div_mod::lemma_fundamental_div_mod_converse(i * w + j, wi, i as int, j as int);
                lemma_cell_bound(i as int, j as int, h as int, wi);
                lemma_enclosed_bound(infos, wi, i * w + j);
                assert(infos[i as int] == tile_info_arr@[i as int]@);
            }
            match tile_info_arr[i][j] {
                Some(TileInfo::Enclosed) => {
                    n = n + 1;
                },
                _ => {},
            }
            j = j + 1;
        }
        proof {
            assert((i + 1) * w == i * w + w) by (nonlinear_arith);
        }
        i = i + 1;
    }
    n
}

/// The number of tiles that the loop through the start encloses; nothing
/// when there is no such loop, or a cell beside it on its inside lies off
/// the grid, or the grid has more cells than `usize` counts.
pub fn part2(puzzle_input: &[&[Tile]], num_cols: usize) -> (r: Option<usize>)
    requires
        even(tiles_of(puzzle_input@), num_cols as int),
    ensures
        r == enclosed_by(tiles_of(puzzle_input@), num_cols as int),
{
    let (initial, trail) = follow_loop(puzzle_input, num_cols)?;
    let num_rows = puzzle_input.len();
    assert(num_rows * num_cols <= u128::MAX) by (nonlinear_arith)
        requires
            num_rows <= 0xffff_ffff_ffff_ffff,
            num_cols <= 0xffff_ffff_ffff_ffff,
    ;
    if (num_rows as u128) * (num_cols as u128) > usize::MAX as u128 {
        return None;
    }
    let mut places: Vec<PipeState> = Vec::new();
    places.push(initial);
    let mut k: usize = 0;
    while k < trail.len()
        invariant
            k <= trail@.len(),
            places@ == seq![initial] + trail@.take(k as int),
        decreases trail@.len() - k,
    {
        places.push(trail[k]);
        k = k + 1;
        assert(places@ =~= seq![initial] + trail@.take(k as int));
    }
    assert(trail@.take(trail@.len() as int) =~= trail@);
    let (num_lefts, num_rights) = count_turns(&places);
    let inside_turn = if num_rights > num_lefts {
        Turn::Right
    } else {
        Turn::Left
    };
    let mut tile_info_arr = blank_infos(num_rows, num_cols);
    mark_loop(&mut tile_info_arr, num_cols, &places, inside_turn);
    if !mark_inner(&mut tile_info_arr, num_cols, &places, inside_turn) {
        return None;
    }
    proof {
        let infos = infos_of(tile_info_arr@);
        assert forall|i: int| 0 <= i < infos.len() implies (#[trigger] infos[i]).len() == num_cols by {}
    }
    sweep(&mut tile_info_arr, num_cols);
    Some(count_enclosed(&tile_info_arr, num_cols))
}

/// The tiles that the first `n` characters of a line stand for, if each
/// stands for one.
pub open spec fn tiles_from(line: Seq<u8>, n: int) -> Option<Seq<Tile>>
    decreases n,
{
    if n <= 0 {
        Some(Seq::empty())
    } else {
        match (tiles_from(line, n - 1), Tile::of_byte(line[n - 1])) {
            (Some(tiles), Some(tile)) => Some(tiles.push(tile)),
            _ => None,
        }
    }
}

/// If the first `i` characters are no tiles, neither are the first `n`.
pub proof fn lemma_tiles_from_prefix(line: Seq<u8>, i: int, n: int)
    requires
        0 <= i <= n,
        tiles_from(line, i) is None,
    ensures
        tiles_from(line, n) is None,
    decreases n - i,
{
    if i < n {
        lemma_tiles_from_prefix(line, i, n - 1);
    }
}

/// The rows of tiles that the first `n` lines stand for, if each stands for
/// one.
pub open spec fn grid_from(ls: Seq<Seq<u8>>, n: int) -> Option<Seq<Seq<Tile>>>
    decreases n,
{
    if n <= 0 {
        Some(Seq::empty())
    } else {
        match (grid_from(ls, n - 1), tiles_from(ls[n - 1], ls[n - 1].len() as int)) {
            (Some(grid), Some(row)) => Some(grid.push(row)),
            _ => None,
        }
    }
}

/// If the first `i` lines are no rows of tiles, neither are the first `n`.
pub proof fn lemma_grid_from_prefix(ls: Seq<Seq<u8>>, i: int, n: int)
    requires
        0 <= i <= n,
        grid_from(ls, i) is None,
    ensures
        grid_from(ls, n) is None,
    decreases n - i,
{
    if i < n {
        lemma_grid_from_prefix(ls, i, n - 1);
    }
}

/// The length of the first row, or 0 where there is none.
pub open spec fn first_width(grid: Seq<Seq<Tile>>) -> int {
    if grid.len() > 0 {
        grid[0].len() as int
    } else {
        0
    }
}

/// The grid that the input stands for, with the length of its rows, if
/// every character is a tile and all rows are as long as the first.
pub open spec fn grid_of(input: Seq<u8>) -> Option<(Seq<Seq<Tile>>, int)> {
    match grid_from(lines_of(input), lines_of(input).len() as int) {
        Some(grid) => if even(grid, first_width(grid)) {
            Some((grid, first_width(grid)))
        } else {
            None
        },
        None => None,
    }
}

/// The rows of a grid that is held as vectors.
pub open spec fn row_tiles(rows: Seq<Vec<Tile>>) -> Seq<Seq<Tile>> {
    rows.map_values(|row: Vec<Tile>| row@)
}

/// Reads a grid of tiles, one row from each line, and the length of its
/// rows.
pub fn parse_input(input: &str) -> (r: Option<(Vec<Vec<Tile>>, usize)>)
    ensures
        match r {
            Some((rows, num_cols)) => grid_of(input.spec_bytes()) == Some((row_tiles(rows@), num_cols as int)),
            None => grid_of(input.spec_bytes()) is None,
        },
{
    let texts = lines(input.as_bytes());
    let ghost all = lines_of(input.spec_bytes());
    let mut rows: Vec<Vec<Tile>> = Vec::new();
    let mut i: usize = 0;
    while i < texts.len()
        invariant
            i <= texts.len(),
            all == views(texts@),
            all == lines_of(input.spec_bytes()),
            grid_from(all, i as int) == Some(row_tiles(rows@)),
        decreases texts.len() - i,
    {
        assert(all[i as int] == texts@[i as int]@);
        let line = texts[i];
        let mut row: Vec<Tile> = Vec::new();
        let mut j: usize = 0;
        while j < line.len()
            invariant
                j <= line@.len(),
                i < texts.len(),
                all == views(texts@),
                all == lines_of(input.spec_bytes()),
                line@ == all[i as int],
                grid_from(all, i as int) == Some(row_tiles(rows@)),
                tiles_from(line@, j as int) == Some(row@),
            decreases line@.len() - j,
        {
            match Tile::from_byte(line[j]) {
                Some(tile) => {
                    row.push(tile);
                },
                None => {
                    proof {
                        lemma_tiles_from_prefix(line@, j + 1, line@.len() as int);
                        lemma_grid_from_prefix(all, i + 1, all.len() as int);
                    }
                    return None;
                },
            }
            j = j + 1;
        }
        let ghost before = rows@;
        rows.push(row);
        assert(row_tiles(rows@) =~= row_tiles(before).push(row@));
        i = i + 1;
    }
    let num_cols = if rows.len() > 0 {
        rows[0].len()
    } else {
        0
    };
    let ghost grid = row_tiles(rows@);
    assert(rows@.len() > 0 ==> grid[0] == rows@[0]@);
    let mut k: usize = 0;
    while k < rows.len()
        invariant
            k <= rows@.len(),
            grid == row_tiles(rows@),
            num_cols == first_width(grid),
            grid_from(all, all.len() as int) == Some(grid),
            all == lines_of(input.spec_bytes()),
            forall|r: int| 0 <= r < k ==> (#[trigger] grid[r]).len() == num_cols,
        decreases rows@.len() - k,
    {
        assert(grid[k as int] == rows@[k as int]@);
        if rows[k].len() != num_cols {
            return None;
        }
        k = k + 1;
    }
    Some((rows, num_cols))
}

/// The character that shows a tile with what is known of it: the tile where
/// it is part of the loop, `I` where it is enclosed (a dot when only the
/// loop is to be shown), and a dot otherwise.
pub open spec fn glyph_of(tile: Tile, info: Option<TileInfo>, main_loop_only: bool) -> u8 {
    match info {
        Some(TileInfo::InLoop) => tile.byte(),
        Some(TileInfo::Enclosed) => if main_loop_only {
            46u8
        } else {
            73u8
        },
        None => 46u8,
    }
}

/// The character that shows a tile with what is known of it.
pub fn glyph(tile: Tile, info: Option<TileInfo>, print_main_loop_only: bool) -> (c: u8)
    ensures
        c == glyph_of(tile, info, print_main_loop_only),
{
    match info {
        Some(TileInfo::InLoop) => tile.to_byte(),
        Some(TileInfo::Enclosed) => {
            if print_main_loop_only {
                46
            } else {
                73
            }
        },
        None => 46,
    }
}

/// The place of the walk along the pipe after `t` steps from `initial`;
/// none once the walk has arrived or is lost.
pub open spec fn place_after(grid: Seq<Seq<Tile>>, cols: int, initial: PipeState, t: nat) -> Option<PipeState>
    decreases t,
{
    if t == 0 {
        Some(initial)
    } else {
        match place_after(grid, cols, initial, (t - 1) as nat) {
            None => None,
            Some(state) => match advance_of(grid, cols, state) {
                Advance::Moved(next) => Some(next),
                _ => None,
            },
        }
    }
}

/// Whether the walk moves on after `t` steps.
pub open spec fn moves_on(grid: Seq<Seq<Tile>>, cols: int, initial: PipeState, t: nat) -> bool {
    place_after(grid, cols, initial, t) matches Some(state) && advance_of(grid, cols, state) is Moved
}

/// A walk that has ended stays ended.
pub proof fn lemma_place_ends(grid: Seq<Seq<Tile>>, cols: int, initial: PipeState, i: nat, t: nat)
    requires
        i <= t,
        place_after(grid, cols, initial, i) is None,
    ensures
        place_after(grid, cols, initial, t) is None,
    decreases t - i,
{
    if i < t {
        lemma_place_ends(grid, cols, initial, i, (t - 1) as nat);
    }
}

/// A walk that moves on after `t` steps moved on after fewer.
pub proof fn lemma_moved_before(grid: Seq<Seq<Tile>>, cols: int, initial: PipeState, i: nat, t: nat)
    requires
        i <= t,
        place_after(grid, cols, initial, t) is Some,
    ensures
        place_after(grid, cols, initial, i) is Some,
        i < t ==> moves_on(grid, cols, initial, i),
    decreases t - i,
{
    if place_after(grid, cols, initial, i) is None {
        lemma_place_ends(grid, cols, initial, i, t);
    }
    if i < t {
        if place_after(grid, cols, initial, i + 1) is None {
            lemma_place_ends(grid, cols, initial, i + 1, t);
        }
    }
}

/// The places of a walk from a place on the grid are on the grid.
pub proof fn lemma_place_on_grid(grid: Seq<Seq<Tile>>, cols: int, initial: PipeState, t: nat)
    requires
        grid.len() <= usize::MAX,
        cols <= usize::MAX,
        placed(grid, cols, initial),
        place_after(grid, cols, initial, t) is Some,
    ensures
        placed(grid, cols, place_after(grid, cols, initial, t).unwrap()),
    decreases t,
{
    if t > 0 {
        lemma_moved_before(grid, cols, initial, (t - 1) as nat, t);
        lemma_place_on_grid(grid, cols, initial, (t - 1) as nat);
    }
}

/// What `trail_from` gives is the places passed until the walk arrives;
/// where it gives none, the walk is lost within the limit, or moves on
/// after every number of steps up to the limit.
pub proof fn lemma_trail_walk(
    grid: Seq<Seq<Tile>>,
    cols: int,
    initial: PipeState,
    state: PipeState,
    passed: Seq<PipeState>,
    limit: nat,
)
    requires
        place_after(grid, cols, initial, passed.len()) == Some(state),
        passed.len() <= limit,
        forall|t: nat| t < passed.len() ==> moves_on(grid, cols, initial, t),
    ensures
        match trail_from(grid, cols, state, passed, limit) {
            Some(trail) => trail.len() <= limit && place_after(grid, cols, initial, trail.len()) is Some
                && advance_of(grid, cols, place_after(grid, cols, initial, trail.len()).unwrap()) == Advance::Arrived,
            None => (exists|t: nat|
                t <= limit && place_after(grid, cols, initial, t) is Some && advance_of(
                    grid,
                    cols,
                    place_after(grid, cols, initial, t).unwrap(),
                ) == Advance::Lost) || forall|t: nat| t <= limit ==> moves_on(grid, cols, initial, t),
        },
    decreases limit - passed.len(),
{
    match advance_of(grid, cols, state) {
        Advance::Arrived => {},
        Advance::Lost => {
            assert(passed.len() <= limit && place_after(grid, cols, initial, passed.len()) is Some && advance_of(
                grid,
                cols,
                place_after(grid, cols, initial, passed.len()).unwrap(),
            ) == Advance::Lost);
        },
        Advance::Moved(next) => {
            if passed.len() >= limit {
                assert forall|t: nat| t <= limit implies moves_on(grid, cols, initial, t) by {}
            } else {
                assert(place_after(grid, cols, initial, passed.len() + 1) == Some(next));
                lemma_trail_walk(grid, cols, initial, next, passed.push(next), limit);
            }
        },
    }
}

/// The number that stands for a place on the pipe.
pub open spec fn place_code(cols: int, state: PipeState) -> int {
    (state.row * cols + state.col) * 4 + state.dir.number()
}

/// A walk that is at one place after `a` and after `b` steps is at one
/// place again however many steps later.
pub proof fn lemma_place_repeats(grid: Seq<Seq<Tile>>, cols: int, initial: PipeState, a: nat, b: nat, d: nat)
    requires
        place_after(grid, cols, initial, a) == place_after(grid, cols, initial, b),
    ensures
        place_after(grid, cols, initial, a + d) == place_after(grid, cols, initial, b + d),
    decreases d,
{
    if d > 0 {
        lemma_place_repeats(grid, cols, initial, a, b, (d - 1) as nat);
    }
}

/// A walk that moves on after every number of steps up to four times the
/// number of cells moves on for ever: it neither arrives nor is lost.
pub proof fn lemma_wanders(grid: Seq<Seq<Tile>>, cols: int, initial: PipeState, t: nat)
    requires
        grid.len() <= usize::MAX,
        0 <= cols <= usize::MAX,
        placed(grid, cols, initial),
        forall|k: nat| k <= 4 * (grid.len() * cols) ==> moves_on(grid, cols, initial, k),
    ensures
        moves_on(grid, cols, initial, t),
    decreases t,
{
    let rows = grid.len() as int;
    assert(rows * cols >= 0) by (nonlinear_arith)
        requires
            rows >= 0,
            cols >= 0,
    ;
    let limit = (4 * (grid.len() * cols)) as nat;
    if t > limit {
        assert forall|k: int| 0 <= k <= limit implies 0 <= #[trigger] place_code(
            cols,
            place_after(grid, cols, initial, k as nat).unwrap(),
        ) < limit by {
            assert(moves_on(grid, cols, initial, k as nat));
            lemma_place_on_grid(grid, cols, initial, k as nat);
            let state = place_after(grid, cols, initial, k as nat).unwrap();
            lemma_cell_bound(state.row as int, state.col as int, rows, cols);
        }
        let codes = Seq::new(limit + 1, |k: int| place_code(cols, place_after(grid, cols, initial, k as nat).unwrap()));
        lemma_pigeonhole(codes, limit as int);
        let (a, b) = choose|a: int, b: int| 0 <= a < b < codes.len() && codes[a] == codes[b];
        assert(moves_on(grid, cols, initial, a as nat));
        assert(moves_on(grid, cols, initial, b as nat));
        let first = place_after(grid, cols, initial, a as nat).unwrap();
        let second = place_after(grid, cols, initial, b as nat).unwrap();
        lemma_place_on_grid(grid, cols, initial, a as nat);
        lemma_place_on_grid(grid, cols, initial, b as nat);
        assert(place_code(cols, first) == place_code(cols, second));
        assert(first.dir.number() == second.dir.number() && first.row * cols + first.col == second.row * cols
            + second.col);
        vstd::arithmetic::div_mod::lemma_fundamental_div_mod_converse(
            first.row * cols + first.col,
            cols,
            first.row as int,
            first.col as int,
        );
        vstd::arithmetic::div_mod::lemma_fundamental_div_mod_converse(
            second.row * cols + second.col,
            cols,
            second.row as int,
            second.col as int,
        );
        assert(first.dir == second.dir);
        assert(first == second);
        let d = (t - b) as nat;
        lemma_place_repeats(grid, cols, initial, a as nat, b as nat, d);
        lemma_wanders(grid, cols, initial, (a + d) as nat);
    }
}

/// The limit of four visits of each cell is enough: a walk whose trail is
/// not found within it has no trail within any limit.
pub proof fn lemma_loop_limit(grid: Seq<Seq<Tile>>, cols: int, initial: PipeState, limit: nat)
    requires
        grid.len() <= usize::MAX,
        0 <= cols <= usize::MAX,
        placed(grid, cols, initial),
        trail_from(grid, cols, initial, Seq::empty(), (4 * (grid.len() * cols)) as nat) is None,
    ensures
        trail_from(grid, cols, initial, Seq::empty(), limit) is None,
{
    let rows = grid.len() as int;
    assert(rows * cols >= 0) by (nonlinear_arith)
        requires
            rows >= 0,
            cols >= 0,
    ;
    let four = (4 * (grid.len() * cols)) as nat;
    lemma_trail_walk(grid, cols, initial, initial, Seq::empty(), four);
    lemma_trail_walk(grid, cols, initial, initial, Seq::empty(), limit);
    if trail_from(grid, cols, initial, Seq::empty(), limit) is Some {
        let k = trail_from(grid, cols, initial, Seq::empty(), limit).unwrap().len();
        if forall|t: nat| t <= four ==> moves_on(grid, cols, initial, t) {
            lemma_wanders(grid, cols, initial, k);
        } else {
            let t = choose|t: nat|
                t <= four && place_after(grid, cols, initial, t) is Some && advance_of(
                    grid,
                    cols,
                    place_after(grid, cols, initial, t).unwrap(),
                ) == Advance::Lost;
            if k < t {
                lemma_moved_before(grid, cols, initial, k, t);
            } else if t < k {
                lemma_moved_before(grid, cols, initial, t, k);
            }
        }
    }
}

} // verus!
