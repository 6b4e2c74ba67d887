//! A crucible that loses as little heat as possible on its way through a
//! city.

pub mod search;

use crate::grid::{
    cell, grid_from_rows, grid_get, grid_height, grid_num_columns, grid_num_rows, grid_rows, grid_width,
    in_grid, rectangular, row_views,
};
use crate::numbers::lemma_cell_bound;
use crate::text::{lines, lines_of, views};
use array2d::Array2D;
use search::{
    a_star_search, arrives, fits, model_walk, reaches, step, sure_step, sure_walk, surely_reaches, total, walk, Model,
};
use vstd::prelude::*;
use vstd::string::StringSliceAdditionalSpecFns;

verus! {

/// The digits of a line as numbers, if all its bytes are digits.
pub open spec fn digits_of(line: Seq<u8>) -> Option<Seq<u8>> {
    if forall|i: int| 0 <= i < line.len() ==> 48 <= #[trigger] line[i] <= 57 {
        Some(Seq::new(line.len(), |i: int| (line[i] - 48) as u8))
    } else {
        None
    }
}

/// The rows of digits that the lines hold, if all their bytes are digits.
pub open spec fn digit_rows(ls: Seq<Seq<u8>>) -> Option<Seq<Seq<u8>>> {
    if forall|i: int| 0 <= i < ls.len() ==> digits_of(#[trigger] ls[i]) is Some {
        Some(Seq::new(ls.len(), |i: int| digits_of(ls[i]).unwrap()))
    } else {
        None
    }
}

/// The city that a text describes: one row of digits per line, all of one
/// length.
pub open spec fn city_of(text: Seq<u8>) -> Option<Seq<Seq<u8>>> {
    match digit_rows(lines_of(text)) {
        Some(rows) => if forall|i: int| 0 <= i < rows.len() ==> (#[trigger] rows[i]).len() == rows[0].len() {
            Some(rows)
        } else {
            None
        },
        None => None,
    }
}

/// Reads the digits of a line.
fn parse_row(line: &[u8]) -> (r: Option<Vec<u8>>)
    ensures
        match r {
            Some(row) => digits_of(line@) == Some(row@),
            None => digits_of(line@) is None,
        },
{
    let mut row: Vec<u8> = Vec::new();
    let mut i: usize = 0;
    while i < line.len()
        invariant
            i <= line.len(),
            row@.len() == i,
            forall|k: int| 0 <= k < i ==> 48 <= #[trigger] line@[k] <= 57,
            forall|k: int| 0 <= k < i ==> row@[k] == (line@[k] - 48) as u8,
        decreases line.len() - i,
    {
        let c = line[i];
        if c < 48 || c > 57 {
            return None;
        }
        row.push(c - 48);
        i = i + 1;
    }
    assert(row@ =~= Seq::new(line@.len(), |i: int| (line@[i] - 48) as u8));
    Some(row)
}

/// Reads a city: the heat loss of each block, one row per line.
pub fn parse_input(input: &str) -> (r: Option<Array2D<u8>>)
    ensures
        match r {
            Some(grid) => city_of(input.spec_bytes()) == Some(grid_rows(grid)) && rectangular(
                grid_rows(grid),
                grid_width(grid),
            ),
            None => city_of(input.spec_bytes()) is None,
        },
{
    let ls = lines(input.as_bytes());
    let ghost all = lines_of(input.spec_bytes());
    let mut rows: Vec<Vec<u8>> = Vec::new();
    let mut i: usize = 0;
    while i < ls.len()
        invariant
            i <= ls.len(),
            all == views(ls@),
            all == lines_of(input.spec_bytes()),
            rows@.len() == i,
            forall|k: int| 0 <= k < i ==> digits_of(#[trigger] all[k]) == Some(rows@[k]@),
        decreases ls.len() - i,
    {
        assert(all[i as int] == ls@[i as int]@);
        match parse_row(ls[i]) {
            Some(row) => {
                rows.push(row);
            },
            None => {
                return None;
            },
        }
        i = i + 1;
    }
    proof {
        assert(row_views(rows@) =~= Seq::new(all.len(), |i: int| digits_of(all[i]).unwrap()));
        assert forall|k: int| 0 <= k < rows@.len() implies (#[trigger] rows@[k])@.len() == row_views(rows@)[k].len() by {}
        if rows@.len() > 0 {
            assert(row_views(rows@)[0] == rows@[0]@);
        }
    }
    match grid_from_rows(rows.as_slice()) {
        Ok(grid) => Some(grid),
        Err(_) => None,
    }
}

/// A direction of travel.
#[derive(Debug, Clone, Copy, PartialEq, Eq, Structural)]
pub enum Direction {
    North,
    East,
    South,
    West,
}

impl Direction {
    /// The direction after a quarter turn to the right.
    pub open spec fn right(self) -> Direction {
        match self {
            Direction::North => Direction::East,
            Direction::East => Direction::South,
            Direction::South => Direction::West,
            Direction::West => Direction::North,
        }
    }

    /// The direction after a quarter turn to the left.
    pub open spec fn left(self) -> Direction {
        match self {
            Direction::North => Direction::West,
            Direction::East => Direction::North,
            Direction::South => Direction::East,
            Direction::West => Direction::South,
        }
    }

    /// The number of the direction, clockwise from north.
    pub open spec fn index(self) -> int {
        match self {
            Direction::North => 0,
            Direction::East => 1,
            Direction::South => 2,
            Direction::West => 3,
        }
    }

    pub fn turn_right(&self) -> (d: Self)
        ensures
            d == self.right(),
    {
        match self {
            Direction::North => Direction::East,
            Direction::East => Direction::South,
            Direction::South => Direction::West,
            Direction::West => Direction::North,
        }
    }

    pub fn turn_left(&self) -> (d: Self)
        ensures
            d == self.left(),
    {
        match self {
            Direction::North => Direction::West,
            Direction::East => Direction::North,
            Direction::South => Direction::East,
            Direction::West => Direction::South,
        }
    }
}

/// A block of the city.
#[derive(Debug, Clone, Copy, PartialEq, Eq, Structural)]
pub struct Position {
    pub row: usize,
    pub column: usize,
}

impl Position {
    /// The number of blocks between the two, along rows and columns.
    pub open spec fn distance(self, other: Position) -> int {
        (if self.row > other.row {
            self.row - other.row
        } else {
            other.row - self.row
        }) + (if self.column > other.column {
            self.column - other.column
        } else {
            other.column - self.column
        })
    }

    /// The neighbour in the given direction in a city of `h` rows and `w`
    /// columns, if there is one.
    pub open spec fn moved(self, direction: Direction, h: int, w: int) -> Option<Position> {
        match direction {
            Direction::North => if self.row == 0 {
                None
            } else {
                Some(Position { row: (self.row - 1) as usize, column: self.column })
            },
            Direction::East => if self.column == w - 1 {
                None
            } else {
                Some(Position { row: self.row, column: (self.column + 1) as usize })
            },
            Direction::South => if self.row == h - 1 {
                None
            } else {
                Some(Position { row: (self.row + 1) as usize, column: self.column })
            },
            Direction::West => if self.column == 0 {
                None
            } else {
                Some(Position { row: self.row, column: (self.column - 1) as usize })
            },
        }
    }

    pub fn new(row: usize, column: usize) -> (p: Self)
        ensures
            p == (Position { row, column }),
    {
        Position { row, column }
    }

    pub fn manhattan_distance(&self, other: &Self) -> (d: usize)
        requires
            self.distance(*other) <= usize::MAX,
        ensures
            d == self.distance(*other),
    {
        let di = if self.row > other.row {
            self.row - other.row
        } else {
            other.row - self.row
        };
        let dj = if self.column > other.column {
            self.column - other.column
        } else {
            other.column - self.column
        };
        di + dj
    }

    /// The neighbour in the given direction, if the city goes on there. The
    /// position must lie in the city.
    pub fn move_in_dir(&self, direction: Direction, num_rows: usize, num_columns: usize) -> (r: Option<Self>)
        requires
            self.row < num_rows,
            self.column < num_columns,
        ensures
            r == self.moved(direction, num_rows as int, num_columns as int),
            r matches Some(p) ==> p.row < num_rows && p.column < num_columns,
    {
        match direction {
            Direction::North => {
                if self.row == 0 {
                    None
                } else {
                    Some(Position::new(self.row - 1, self.column))
                }
            },
            Direction::East => {
                if self.column == num_columns - 1 {
                    None
                } else {
                    Some(Position::new(self.row, self.column + 1))
                }
            },
            Direction::South => {
                if self.row == num_rows - 1 {
                    None
                } else {
                    Some(Position::new(self.row + 1, self.column))
                }
            },
            Direction::West => {
                if self.column == 0 {
                    None
                } else {
                    Some(Position::new(self.row, self.column - 1))
                }
            },
        }
    }
}

/// Where the crucible is, where it is heading, and how many blocks it has
/// gone straight.
#[derive(Debug, Clone, Copy, PartialEq, Eq, Structural)]
pub struct State {
    pub position: Position,
    pub direction: Direction,
    pub num_straight: usize,
}

/// The move from `from` one block in `direction`, if the city goes on
/// there, with the heat lost on the block entered.
pub open spec fn step_to(g: Array2D<u8>, from: State, direction: Direction, num_straight: usize) -> Seq<
    (usize, State),
> {
    match from.position.moved(direction, grid_height(g) as int, grid_width(g) as int) {
        Some(position) => seq![
            (
                cell(g, position.row as int, position.column as int) as usize,
                State { position, direction, num_straight },
            ),
        ],
        None => Seq::empty(),
    }
}

/// Whether the crucible may go straight on: a plain one after fewer than 3
/// blocks in a row, an ultra one after fewer than 10.
pub open spec fn may_go_straight(s: State, ultra: bool) -> bool {
    if ultra {
        s.num_straight < 10
    } else {
        s.num_straight < 3
    }
}

/// Whether the crucible may turn: a plain one always, an ultra one after at
/// least 4 blocks in a row.
pub open spec fn may_turn(s: State, ultra: bool) -> bool {
    !ultra || s.num_straight >= 4
}

/// The moves open to the crucible, with the heat each loses: straight on,
/// to the right, to the left.
pub open spec fn successors_of(g: Array2D<u8>, s: State, ultra: bool) -> Seq<(usize, State)> {
    (if may_go_straight(s, ultra) {
        step_to(g, s, s.direction, (s.num_straight + 1) as usize)
    } else {
        Seq::empty()
    }) + (if may_turn(s, ultra) {
        step_to(g, s, s.direction.right(), 1) + step_to(g, s, s.direction.left(), 1)
    } else {
        Seq::empty()
    })
}

/// Whether the state lies in the city and has gone at most 10 blocks
/// straight.
pub open spec fn valid_state(g: Array2D<u8>, s: State) -> bool {
    in_grid(g, s.position.row as int, s.position.column as int) && s.num_straight <= 10
}

/// Every move from a valid state leads to a valid state.
pub proof fn lemma_successors_valid(g: Array2D<u8>, s: State, ultra: bool, k: int)
    requires
        valid_state(g, s),
        0 <= k < successors_of(g, s, ultra).len(),
    ensures
        valid_state(g, successors_of(g, s, ultra)[k].1),
{
}

/// Adds the move in `direction` to `result`, if the city goes on there.
fn push_step(
    result: &mut Vec<(usize, State)>,
    puzzle_input: &Array2D<u8>,
    from: &State,
    direction: Direction,
    num_straight: usize,
)
    requires
        in_grid(*puzzle_input, from.position.row as int, from.position.column as int),
    ensures
        final(result)@ == old(result)@ + step_to(*puzzle_input, *from, direction, num_straight),
{
    let h = grid_num_rows(puzzle_input);
    let w = grid_num_columns(puzzle_input);
    match from.position.move_in_dir(direction, h, w) {
        Some(position) => {
            let heat = grid_get(puzzle_input, position.row, position.column).unwrap();
            let ghost before = result@;
            result.push((heat as usize, State { position, direction, num_straight }));
            assert(result@ =~= before + step_to(*puzzle_input, *from, direction, num_straight));
        },
        None => {
            assert(result@ + Seq::<(usize, State)>::empty() =~= result@);
        },
    }
}

impl State {
    /// The moves open to the crucible, each with the heat it loses. The
    /// state must lie in the city.
    pub fn get_successors(&self, puzzle_input: &Array2D<u8>, is_ultra_crucible: bool) -> (result: Vec<(usize, State)>)
        requires
            in_grid(*puzzle_input, self.position.row as int, self.position.column as int),
        ensures
            result@ == successors_of(*puzzle_input, *self, is_ultra_crucible),
    {
        let mut result: Vec<(usize, State)> = Vec::new();
        let can_go_straight = if is_ultra_crucible {
            self.num_straight < 10
        } else {
            self.num_straight < 3
        };
        if can_go_straight {
            push_step(&mut result, puzzle_input, self, self.direction, self.num_straight + 1);
        }
        let ghost first = result@;
        let can_turn = if is_ultra_crucible {
            self.num_straight >= 4
        } else {
            true
        };
        if can_turn {
            let right = self.direction.turn_right();
            push_step(&mut result, puzzle_input, self, right, 1);
            let left = self.direction.turn_left();
            push_step(&mut result, puzzle_input, self, left, 1);
        }
        proof {
            let g = *puzzle_input;
            if can_turn {
                assert(result@ =~= first + (step_to(g, *self, self.direction.right(), 1) + step_to(
                    g,
                    *self,
                    self.direction.left(),
                    1,
                )));
            } else {
                assert(result@ =~= first + Seq::<(usize, State)>::empty());
            }
            assert(first =~= (if may_go_straight(*self, is_ultra_crucible) {
                step_to(g, *self, self.direction, (self.num_straight + 1) as usize)
            } else {
                Seq::empty()
            }));
        }
        result
    }
}

/// The greatest number of blocks of a city that can be searched.
pub const CELL_LIMIT: u64 = 0x0400_0000_0000_0000;

/// Whether the city has blocks, and no more than can be searched.
pub open spec fn searchable(g: Array2D<u8>) -> bool {
    grid_height(g) > 0 && grid_width(g) > 0 && grid_height(g) * grid_width(g) <= CELL_LIMIT
}

/// The number that stands for a state in the search.
pub open spec fn code_of(s: State, w: int) -> int {
    ((s.position.row * w + s.position.column) * 4 + s.direction.index()) * 16 + s.num_straight
}

/// The direction with the given number.
pub open spec fn direction_of(index: int) -> Direction {
    if index == 0 {
        Direction::North
    } else if index == 1 {
        Direction::East
    } else if index == 2 {
        Direction::South
    } else {
        Direction::West
    }
}

/// The state that a number stands for.
pub open spec fn state_of(code: u64, w: int) -> State {
    State {
        position: Position {
            row: ((code as int / 64) / w) as usize,
            column: ((code as int / 64) % w) as usize,
        },
        direction: direction_of((code as int / 16) % 4),
        num_straight: (code % 16) as usize,
    }
}

/// Whether the number stands for a valid state.
pub open spec fn valid_code(g: Array2D<u8>, code: u64) -> bool {
    grid_width(g) > 0 && (code as int / 64) / (grid_width(g) as int) < grid_height(g) && code % 16 <= 10
}

/// The number of a valid state stands for that state.
pub proof fn lemma_code_round_trip(g: Array2D<u8>, s: State)
    requires
        searchable(g),
        valid_state(g, s),
    ensures
        0 <= code_of(s, grid_width(g) as int) < 0x1_0000_0000_0000_0000,
        state_of(code_of(s, grid_width(g) as int) as u64, grid_width(g) as int) == s,
        valid_code(g, code_of(s, grid_width(g) as int) as u64),
{
    let w = grid_width(g) as int;
    let h = grid_height(g) as int;
    let block = s.position.row * w + s.position.column;
    lemma_cell_bound(s.position.row as int, s.position.column as int, h, w);
    let code = code_of(s, w);
    assert(code / 64 == block);
    assert((code / 16) % 4 == s.direction.index());
    assert(code % 16 == s.num_straight);
    vstd::arithmetic::div_mod::lemma_fundamental_div_mod_converse(
        block,
        w,
        s.position.row as int,
        s.position.column as int,
    );
}

/// The number of a state.
fn encode(s: &State, w: usize) -> (code: u64)
    requires
        s.position.row * w + s.position.column < CELL_LIMIT,
        s.num_straight <= 10,
    ensures
        code == code_of(*s, w as int),
{
    let index: u64 = match s.direction {
        Direction::North => 0,
        Direction::East => 1,
        Direction::South => 2,
        Direction::West => 3,
    };
    assert(s.position.row * w >= 0) by (nonlinear_arith)
        requires
            s.position.row >= 0,
            w >= 0,
    ;
    let block: u64 = (s.position.row as u64) * (w as u64) + s.position.column as u64;
    (block * 4 + index) * 16 + s.num_straight as u64
}

/// The state that a number stands for, if it stands for a valid one.
fn decode(puzzle_input: &Array2D<u8>, code: u64) -> (r: Option<State>)
    ensures
        r == (if valid_code(*puzzle_input, code) {
            Some(state_of(code, grid_width(*puzzle_input) as int))
        } else {
            None
        }),
        r matches Some(s) ==> valid_state(*puzzle_input, s),
{
    let h = grid_num_rows(puzzle_input);
    let w = grid_num_columns(puzzle_input);
    if w == 0 {
        return None;
    }
    let num_straight = code % 16;
    let index = (code / 16) % 4;
    let block = code / 64;
    let row = block / (w as u64);
    let column = block % (w as u64);
    if row >= h as u64 || num_straight > 10 {
        return None;
    }
    let direction = if index == 0 {
        Direction::North
    } else if index == 1 {
        Direction::East
    } else if index == 2 {
        Direction::South
    } else {
        Direction::West
    };
    Some(
        State {
            position: Position { row: row as usize, column: column as usize },
            direction,
            num_straight: num_straight as usize,
        },
    )
}

/// The moves with states as numbers.
pub open spec fn coded(moves: Seq<(usize, State)>, w: int) -> Seq<(u64, u64)> {
    moves.map_values(|m: (usize, State)| (m.0 as u64, code_of(m.1, w) as u64))
}

/// The moves open from the state that `code` stands for, with states as
/// numbers: none when it stands for no valid state of a city that can be
/// searched.
pub open spec fn coded_moves(g: Array2D<u8>, ultra: bool, code: u64) -> Seq<(u64, u64)> {
    if searchable(g) && valid_code(g, code) {
        coded(successors_of(g, state_of(code, grid_width(g) as int), ultra), grid_width(g) as int)
    } else {
        Seq::empty()
    }
}

/// Tells whether the city has blocks, and no more than can be searched.
fn is_searchable(puzzle_input: &Array2D<u8>) -> (b: bool)
    ensures
        b == searchable(*puzzle_input),
{
    let h = grid_num_rows(puzzle_input);
    let w = grid_num_columns(puzzle_input);
    if h == 0 || w == 0 {
        return false;
    }
    match (h as u64).checked_mul(w as u64) {
        Some(blocks) => blocks <= CELL_LIMIT,
        None => false,
    }
}

/// The moves open from the state that `code` stands for.
fn coded_successors(puzzle_input: &Array2D<u8>, is_ultra_crucible: bool, code: u64) -> (r: Vec<(u64, u64)>)
    ensures
        r@ == coded_moves(*puzzle_input, is_ultra_crucible, code),
{
    let mut r: Vec<(u64, u64)> = Vec::new();
    if !is_searchable(puzzle_input) {
        return r;
    }
    let w = grid_num_columns(puzzle_input);
    let state = match decode(puzzle_input, code) {
        Some(state) => state,
        None => {
            return r;
        },
    };
    let moves = state.get_successors(puzzle_input, is_ultra_crucible);
    let ghost all = coded(moves@, w as int);
    let mut i: usize = 0;
    while i < moves.len()
        invariant
            i <= moves.len(),
            searchable(*puzzle_input),
            w == grid_width(*puzzle_input),
            valid_state(*puzzle_input, state),
            moves@ == successors_of(*puzzle_input, state, is_ultra_crucible),
            all == coded(moves@, w as int),
            r@ == all.take(i as int),
        decreases moves.len() - i,
    {
        let (heat, next) = moves[i];
        proof {
            lemma_successors_valid(*puzzle_input, state, is_ultra_crucible, i as int);
            lemma_code_round_trip(*puzzle_input, next);
            lemma_cell_bound(
                next.position.row as int,
                next.position.column as int,
                grid_height(*puzzle_input) as int,
                w as int,
            );
        }
        r.push((heat as u64, encode(&next, w)));
        proof {
            assert(all.take(i + 1) =~= all.take(i as int).push(all[i as int]));
        }
        i = i + 1;
    }
    assert(all.take(i as int) =~= all);
    r
}

/// The state in which the crucible sets out: in the north-west corner,
/// heading east.
pub open spec fn start_state() -> State {
    State { position: Position { row: 0, column: 0 }, direction: Direction::East, num_straight: 0 }
}

/// Whether the crucible has arrived: it is in the south-east corner, an
/// ultra one after at least 4 blocks in a row.
pub open spec fn at_goal(g: Array2D<u8>, ultra: bool, s: State) -> bool {
    s.position.row == grid_height(g) - 1 && s.position.column == grid_width(g) - 1 && (!ultra
        || s.num_straight >= 4)
}

/// Whether `code` stands for a valid state that has arrived.
pub open spec fn goal_code(g: Array2D<u8>, ultra: bool, code: u64) -> bool {
    searchable(g) && valid_code(g, code) && at_goal(g, ultra, state_of(code, grid_width(g) as int))
}

/// Tells whether `code` stands for a state that has arrived.
fn is_goal_code(puzzle_input: &Array2D<u8>, is_ultra_crucible: bool, code: u64) -> (b: bool)
    ensures
        b == goal_code(*puzzle_input, is_ultra_crucible, code),
{
    if !is_searchable(puzzle_input) {
        return false;
    }
    let h = grid_num_rows(puzzle_input);
    let w = grid_num_columns(puzzle_input);
    match decode(puzzle_input, code) {
        Some(state) => state.position.row == h - 1 && state.position.column == w - 1 && (!is_ultra_crucible
            || state.num_straight >= 4),
        None => false,
    }
}

/// The south-east corner of the city.
pub open spec fn goal_position(g: Array2D<u8>) -> Position {
    Position { row: (grid_height(g) - 1) as usize, column: (grid_width(g) - 1) as usize }
}

/// The estimate of the heat still to be lost from the state that `code`
/// stands for: the number of blocks to the south-east corner, and 0 where
/// the number stands for no state or the city is too large.
pub open spec fn estimate_of(g: Array2D<u8>, code: u64) -> u64 {
    if searchable(g) && grid_height(g) + grid_width(g) <= usize::MAX && valid_code(g, code) {
        state_of(code, grid_width(g) as int).position.distance(goal_position(g)) as u64
    } else {
        0
    }
}

/// An estimate of the heat still to be lost from the state that `code`
/// stands for: the number of blocks to the south-east corner.
fn estimate(puzzle_input: &Array2D<u8>, code: u64) -> (e: u64)
    ensures
        e == estimate_of(*puzzle_input, code),
{
    if !is_searchable(puzzle_input) {
        return 0;
    }
    let h = grid_num_rows(puzzle_input);
    let w = grid_num_columns(puzzle_input);
    if h as u128 + w as u128 > usize::MAX as u128 {
        return 0;
    }
    match decode(puzzle_input, code) {
        Some(state) => {
            let goal_position = Position::new(h - 1, w - 1);
            state.position.manhattan_distance(&goal_position) as u64
        },
        None => 0,
    }
}

/// Whether the states are a way of the crucible with the given heat losses:
/// each state is one of the moves open from the one before.
pub open spec fn heat_walk(g: Array2D<u8>, ultra: bool, states: Seq<State>, heats: Seq<usize>) -> bool {
    states.len() == heats.len() + 1 && forall|i: int|
        0 <= i < heats.len() ==> successors_of(g, #[trigger] states[i], ultra).contains((heats[i], states[i + 1]))
}

/// Whether the states are a way of the crucible from where it sets out to
/// where it has arrived.
pub open spec fn route(g: Array2D<u8>, ultra: bool, states: Seq<State>, heats: Seq<usize>) -> bool {
    heat_walk(g, ultra, states, heats) && states[0] == start_state() && at_goal(g, ultra, states.last())
}

/// The heat lost in all.
pub open spec fn heat_total(heats: Seq<usize>) -> int
    decreases heats.len(),
{
    if heats.len() == 0 {
        0
    } else {
        heat_total(heats.drop_last()) + heats.last()
    }
}

/// Whether `f` reports exactly the coded moves of each state.
pub open spec fn moves_as<S: Fn(&u64) -> Vec<(u64, u64)>>(f: S, g: Array2D<u8>, ultra: bool) -> bool {
    forall|code: u64, r: Vec<(u64, u64)>| #[trigger] f.ensures((&code,), r) ==> r@ == coded_moves(g, ultra, code)
}

/// Whether `f` tells exactly whether a state has arrived.
pub open spec fn goals_as<G: Fn(&u64) -> bool>(f: G, g: Array2D<u8>, ultra: bool) -> bool {
    forall|code: u64, b: bool| #[trigger] f.ensures((&code,), b) ==> b == goal_code(g, ultra, code)
}

/// The states that the numbers stand for.
pub open spec fn states_of(codes: Seq<u64>, w: int) -> Seq<State> {
    Seq::new(codes.len(), |i: int| state_of(codes[i], w))
}

/// The costs as heat losses.
pub open spec fn heats_of(costs: Seq<u64>) -> Seq<usize> {
    Seq::new(costs.len(), |i: int| costs[i] as usize)
}

/// The numbers of the states.
pub open spec fn codes_of(states: Seq<State>, w: int) -> Seq<u64> {
    Seq::new(states.len(), |i: int| code_of(states[i], w) as u64)
}

/// The heat losses as costs.
pub open spec fn costs_of(heats: Seq<usize>) -> Seq<u64> {
    Seq::new(heats.len(), |i: int| heats[i] as u64)
}

/// A valid number stands for a valid state.
pub proof fn lemma_valid_code_state(g: Array2D<u8>, code: u64)
    requires
        valid_code(g, code),
    ensures
        valid_state(g, state_of(code, grid_width(g) as int)),
{
}

/// Along a walk of the search from a valid number, every number is valid and
/// every step is a move of the crucible.
pub proof fn lemma_walk_is_heat_walk<S: Fn(&u64) -> Vec<(u64, u64)>>(
    f: S,
    g: Array2D<u8>,
    ultra: bool,
    codes: Seq<u64>,
    costs: Seq<u64>,
    i: int,
)
    requires
        moves_as(f, g, ultra),
        searchable(g),
        walk(f, codes, costs),
        valid_code(g, codes[0]),
        0 <= i < codes.len(),
    ensures
        valid_code(g, codes[i]),
        i > 0 ==> costs[i - 1] <= usize::MAX && successors_of(
            g,
            state_of(codes[i - 1], grid_width(g) as int),
            ultra,
        ).contains((costs[i - 1] as usize, state_of(codes[i], grid_width(g) as int))),
    decreases i,
{
    if i > 0 {
        lemma_walk_is_heat_walk(f, g, ultra, codes, costs, i - 1);
        let w = grid_width(g) as int;
        assert(step(f, codes[i - 1], costs[i - 1], codes[i]));
        let r = choose|r: Vec<(u64, u64)>| #[trigger]
            f.ensures((&codes[i - 1],), r) && r@.contains((costs[i - 1], codes[i]));
        let prev = state_of(codes[i - 1], w);
        let moves = successors_of(g, prev, ultra);
        assert(r@ == coded(moves, w));
        let k = choose|k: int| 0 <= k < r@.len() && r@[k] == (costs[i - 1], codes[i]);
        lemma_valid_code_state(g, codes[i - 1]);
        lemma_successors_valid(g, prev, ultra, k);
        lemma_code_round_trip(g, moves[k].1);
        assert(coded(moves, w)[k] == (moves[k].0 as u64, code_of(moves[k].1, w) as u64));
        assert(moves[k] == (costs[i - 1] as usize, state_of(codes[i], w)));
    }
}

/// Along a way of the crucible from a valid state, every state is valid and
/// every move is a sure step of the search.
pub proof fn lemma_heat_walk_is_sure_walk<S: Fn(&u64) -> Vec<(u64, u64)>>(
    f: S,
    g: Array2D<u8>,
    ultra: bool,
    states: Seq<State>,
    heats: Seq<usize>,
    i: int,
)
    requires
        moves_as(f, g, ultra),
        searchable(g),
        heat_walk(g, ultra, states, heats),
        valid_state(g, states[0]),
        0 <= i < states.len(),
    ensures
        valid_state(g, states[i]),
        i > 0 ==> sure_step(
            f,
            code_of(states[i - 1], grid_width(g) as int) as u64,
            heats[i - 1] as u64,
            code_of(states[i], grid_width(g) as int) as u64,
        ),
    decreases i,
{
    if i > 0 {
        lemma_heat_walk_is_sure_walk(f, g, ultra, states, heats, i - 1);
        let w = grid_width(g) as int;
        let moves = successors_of(g, states[i - 1], ultra);
        assert(moves.contains((heats[i - 1], states[i])));
        let k = choose|k: int| 0 <= k < moves.len() && moves[k] == (heats[i - 1], states[i]);
        lemma_successors_valid(g, states[i - 1], ultra, k);
        lemma_code_round_trip(g, states[i - 1]);
        let from = code_of(states[i - 1], w) as u64;
        assert forall|r: Vec<(u64, u64)>| #[trigger] f.ensures((&from,), r) implies r@.contains(
            (heats[i - 1] as u64, code_of(states[i], w) as u64),
        ) by {
            assert(r@ == coded(moves, w));
            assert(r@[k] == (heats[i - 1] as u64, code_of(states[i], w) as u64));
        }
    }
}

/// The heat lost along a walk of the search is the sum of its costs.
pub proof fn lemma_heat_total(costs: Seq<u64>)
    requires
        forall|i: int| 0 <= i < costs.len() ==> #[trigger] costs[i] <= usize::MAX,
    ensures
        heat_total(heats_of(costs)) == total(costs),
    decreases costs.len(),
{
    if costs.len() > 0 {
        lemma_heat_total(costs.drop_last());
        assert(heats_of(costs).drop_last() =~= heats_of(costs.drop_last()));
    }
}

/// The sum of the costs of a way of the crucible is the heat it loses.
pub proof fn lemma_cost_total(heats: Seq<usize>)
    ensures
        total(costs_of(heats)) == heat_total(heats),
    decreases heats.len(),
{
    if heats.len() > 0 {
        lemma_cost_total(heats.drop_last());
        assert(costs_of(heats).drop_last() =~= costs_of(heats.drop_last()));
    }
}

/// Whether every block of the city loses some heat.
pub open spec fn warm(g: Array2D<u8>) -> bool {
    forall|r: int, c: int| in_grid(g, r, c) ==> #[trigger] cell(g, r, c) >= 1
}

/// Whether `f` gives exactly the estimate for each state.
pub open spec fn estimates_as<H: Fn(&u64) -> u64>(f: H, g: Array2D<u8>) -> bool {
    forall|code: u64, e: u64| #[trigger] f.ensures((&code,), e) ==> e == estimate_of(g, code)
}

/// The search for the way of the crucible in plain terms.
pub open spec fn crucible_model(g: Array2D<u8>, ultra: bool) -> Model {
    Model {
        moves: |code: u64| coded_moves(g, ultra, code),
        goals: |code: u64| goal_code(g, ultra, code),
        estimate: |code: u64| estimate_of(g, code),
    }
}

/// In a warm city, a move loses heat and leads at most one block nearer to
/// `target`.
pub proof fn lemma_move_near(g: Array2D<u8>, s: State, ultra: bool, k: int, target: Position)
    requires
        warm(g),
        searchable(g),
        grid_height(g) <= usize::MAX,
        grid_width(g) <= usize::MAX,
        valid_state(g, s),
        0 <= k < successors_of(g, s, ultra).len(),
    ensures
        successors_of(g, s, ultra)[k].0 >= 1,
        successors_of(g, s, ultra)[k].0 <= 255,
        s.position.distance(target) <= 1 + successors_of(g, s, ultra)[k].1.position.distance(target),
{
    let h = grid_height(g) as int;
    let w = grid_width(g) as int;
    let all = successors_of(g, s, ultra);
    let first = if may_go_straight(s, ultra) {
        step_to(g, s, s.direction, (s.num_straight + 1) as usize)
    } else {
        Seq::empty()
    };
    let right = step_to(g, s, s.direction.right(), 1);
    let left = step_to(g, s, s.direction.left(), 1);
    let next = all[k];
    if k < first.len() {
        assert(next == first[k]);
        lemma_step_near(g, s, s.direction, (s.num_straight + 1) as usize, target);
    } else {
        assert(may_turn(s, ultra));
        let turns = right + left;
        assert(all == first + turns);
        assert(next == turns[k - first.len()]);
        if k - first.len() < right.len() {
            assert(next == right[k - first.len()]);
            lemma_step_near(g, s, s.direction.right(), 1, target);
        } else {
            assert(next == left[k - first.len() - right.len()]);
            lemma_step_near(g, s, s.direction.left(), 1, target);
        }
    }
}

/// In a warm city, the move one block in `direction` loses heat and leads
/// at most one block nearer to `target`.
pub proof fn lemma_step_near(g: Array2D<u8>, s: State, direction: Direction, num_straight: usize, target: Position)
    requires
        warm(g),
        searchable(g),
        grid_height(g) <= usize::MAX,
        grid_width(g) <= usize::MAX,
        valid_state(g, s),
    ensures
        forall|k: int|
            0 <= k < step_to(g, s, direction, num_straight).len() ==> {
                let next = #[trigger] step_to(g, s, direction, num_straight)[k];
                next.0 >= 1 && next.0 <= 255 && s.position.distance(target) <= 1 + next.1.position.distance(target)
            },
{
    let h = grid_height(g) as int;
    let w = grid_width(g) as int;
    assert(w <= h * w && h <= h * w) by (nonlinear_arith)
        requires
            h >= 1,
            w >= 1,
    ;
    match s.position.moved(direction, h, w) {
        Some(position) => {
            assert(in_grid(g, position.row as int, position.column as int));
            assert(cell(g, position.row as int, position.column as int) >= 1);
            let list = step_to(g, s, direction, num_straight);
            let heat = cell(g, position.row as int, position.column as int) as usize;
            assert(list =~= seq![(heat, State { position, direction, num_straight })]);
            assert(list[0].1.position == position);
            match direction {
                Direction::North => {
                    assert(position.row == s.position.row - 1 && position.column == s.position.column);
                },
                Direction::East => {
                    assert(position.row == s.position.row && position.column == s.position.column + 1);
                },
                Direction::South => {
                    assert(position.row == s.position.row + 1 && position.column == s.position.column);
                },
                Direction::West => {
                    assert(position.row == s.position.row && position.column == s.position.column - 1);
                },
            }
            assert(s.position.distance(target) <= 1 + position.distance(target));
        },
        None => {},
    }
}

/// In a warm city, the model of the search describes closures that report
/// the coded moves, the goals and the estimates, and guides the search
/// well.
pub proof fn lemma_model_fits<S: Fn(&u64) -> Vec<(u64, u64)>, G: Fn(&u64) -> bool, H: Fn(&u64) -> u64>(
    f: S,
    goal_test: G,
    guess: H,
    g: Array2D<u8>,
    ultra: bool,
)
    requires
        moves_as(f, g, ultra),
        goals_as(goal_test, g, ultra),
        estimates_as(guess, g),
        warm(g),
        grid_height(g) <= usize::MAX,
        grid_width(g) <= usize::MAX,
    ensures
        fits(crucible_model(g, ultra), f, goal_test, guess),
{
    let m = crucible_model(g, ultra);
    let w = grid_width(g) as int;
    assert forall|code: u64, k: int| 0 <= k < (m.moves)(code).len() implies (m.estimate)(code) <= (#[trigger] (m.moves)(
        code,
    )[k]).0 + (m.estimate)((m.moves)(code)[k].1) by {
        let s = state_of(code, w);
        let moves = successors_of(g, s, ultra);
        lemma_valid_code_state(g, code);
        lemma_successors_valid(g, s, ultra, k);
        lemma_code_round_trip(g, moves[k].1);
        lemma_move_near(g, s, ultra, k, goal_position(g));
        assert(coded(moves, w)[k] == (moves[k].0 as u64, code_of(moves[k].1, w) as u64));
    }
    assert forall|code: u64| #[trigger] (m.goals)(code) implies (m.estimate)(code) == 0 by {}
}

/// Along a way of the crucible from a valid state, every state is valid and
/// every move is a step of the model.
pub proof fn lemma_heat_walk_is_model_walk(
    g: Array2D<u8>,
    ultra: bool,
    states: Seq<State>,
    heats: Seq<usize>,
    i: int,
)
    requires
        searchable(g),
        heat_walk(g, ultra, states, heats),
        valid_state(g, states[0]),
        0 <= i < states.len(),
    ensures
        valid_state(g, states[i]),
        i > 0 ==> coded_moves(g, ultra, code_of(states[i - 1], grid_width(g) as int) as u64).contains(
            (heats[i - 1] as u64, code_of(states[i], grid_width(g) as int) as u64),
        ),
    decreases i,
{
    if i > 0 {
        lemma_heat_walk_is_model_walk(g, ultra, states, heats, i - 1);
        let w = grid_width(g) as int;
        let moves = successors_of(g, states[i - 1], ultra);
        assert(moves.contains((heats[i - 1], states[i])));
        let k = choose|k: int| 0 <= k < moves.len() && moves[k] == (heats[i - 1], states[i]);
        lemma_successors_valid(g, states[i - 1], ultra, k);
        lemma_code_round_trip(g, states[i - 1]);
        let from = code_of(states[i - 1], w) as u64;
        assert(coded_moves(g, ultra, from) == coded(moves, w));
        assert(coded(moves, w)[k] == (heats[i - 1] as u64, code_of(states[i], w) as u64));
    }
}

/// The heat that the crucible loses on a way from the north-west corner to
/// the south-east corner, found by a best-first search.
///
/// A heat that is returned is lost on some such way, and in a city where
/// every block loses some heat, no such way loses less. Nothing is returned
/// for a city that cannot be searched, when there is no such way, or when
/// the heat found does not fit in `usize`.
pub fn get_minimum_heat(puzzle_input: &Array2D<u8>, is_ultra_crucible: bool) -> (r: Option<usize>)
    ensures
        r matches Some(heat) ==> exists|states: Seq<State>, heats: Seq<usize>| #[trigger]
            route(*puzzle_input, is_ultra_crucible, states, heats) && heat_total(heats) == heat,
        r matches Some(heat) ==> (warm(*puzzle_input) ==> forall|states: Seq<State>, heats: Seq<usize>| #[trigger]
            route(*puzzle_input, is_ultra_crucible, states, heats) ==> heat <= heat_total(heats)),
        r is None && searchable(*puzzle_input) && warm(*puzzle_input) ==> forall|
            states: Seq<State>,
            heats: Seq<usize>,
        | #[trigger] route(*puzzle_input, is_ultra_crucible, states, heats) ==> heat_total(heats) > usize::MAX,
        r is None && searchable(*puzzle_input) ==> (forall|states: Seq<State>, heats: Seq<usize>|
            !#[trigger] route(*puzzle_input, is_ultra_crucible, states, heats)) || (exists|
            states: Seq<State>,
            heats: Seq<usize>,
        | #[trigger]
            route(*puzzle_input, is_ultra_crucible, states, heats) && heat_total(heats) > usize::MAX),
{
    if !is_searchable(puzzle_input) {
        return None;
    }
    let ghost g = *puzzle_input;
    let ghost ultra = is_ultra_crucible;
    let h = grid_num_rows(puzzle_input);
    let w = grid_num_columns(puzzle_input);
    let ghost wi = w as int;
    let start = State {
        position: Position::new(0, 0),
        direction: Direction::East,
        num_straight: 0,
    };
    proof {
        lemma_code_round_trip(g, start);
        lemma_cell_bound(0, 0, grid_height(g) as int, wi);
    }
    let start_code = encode(&start, w);
    let mut initial_states: Vec<u64> = Vec::new();
    initial_states.push(start_code);
    let successors = |code: &u64| -> (r: Vec<(u64, u64)>)
        ensures
            r@ == coded_moves(*puzzle_input, is_ultra_crucible, *code),
        { coded_successors(puzzle_input, is_ultra_crucible, *code) };
    let is_goal = |code: &u64| -> (b: bool)
        ensures
            b == goal_code(*puzzle_input, is_ultra_crucible, *code),
        { is_goal_code(puzzle_input, is_ultra_crucible, *code) };
    let heuristic = |code: &u64| -> (e: u64)
        ensures
            e == estimate_of(*puzzle_input, *code),
        { estimate(puzzle_input, *code) };
    let ghost f = successors;
    let ghost goal_test = is_goal;
    let ghost guess = heuristic;
    assert(moves_as(f, g, ultra));
    assert(goals_as(goal_test, g, ultra));
    assert(estimates_as(guess, g));
    let found = a_star_search(initial_states.as_slice(), successors, is_goal, heuristic);
    let ghost initial = initial_states@;
    match found {
        Some(cost) => {
            proof {
                let goal = choose|goal: u64| #[trigger]
                    goal_test.ensures((&goal,), true) && reaches(f, initial, goal, cost as int);
                let (codes, costs) = choose|codes: Seq<u64>, costs: Seq<u64>| #[trigger]
                    walk(f, codes, costs) && initial.contains(codes[0]) && codes.last() == goal && total(
                        costs,
                    ) == cost;
                assert(codes[0] == start_code);
                let states = states_of(codes, wi);
                let heats = heats_of(costs);
                assert forall|i: int| 0 <= i < heats.len() implies successors_of(
                    g,
                    #[trigger] states[i],
                    ultra,
                ).contains((heats[i], states[i + 1])) by {
                    lemma_walk_is_heat_walk(f, g, ultra, codes, costs, i + 1);
                }
                assert forall|i: int| 0 <= i < costs.len() implies #[trigger] costs[i] <= usize::MAX by {
                    lemma_walk_is_heat_walk(f, g, ultra, codes, costs, i + 1);
                }
                lemma_heat_total(costs);
                assert(goal_code(g, ultra, goal));
                assert(states.last() == state_of(goal, wi));
                assert(route(g, ultra, states, heats));
                if warm(g) {
                    let m = crucible_model(g, ultra);
                    lemma_model_fits(f, goal_test, guess, g, ultra);
                    assert forall|way: Seq<State>, lost: Seq<usize>| #[trigger] route(g, ultra, way, lost) implies cost
                        <= heat_total(lost) by {
                        let numbers = codes_of(way, wi);
                        let prices = costs_of(lost);
                        assert forall|i: int| 0 <= i < prices.len() implies (m.moves)(#[trigger] numbers[i]).contains(
                            (prices[i], numbers[i + 1]),
                        ) by {
                            lemma_heat_walk_is_model_walk(g, ultra, way, lost, i + 1);
                        }
                        assert(model_walk(m, numbers, prices));
                        assert(numbers[0] == start_code);
                        assert(initial[0] == start_code);
                        lemma_cost_total(lost);
                        let end = numbers.last();
                        assert(arrives(m, initial, end, heat_total(lost)));
                        lemma_heat_walk_is_model_walk(g, ultra, way, lost, way.len() - 1);
                        lemma_code_round_trip(g, way.last());
                        assert((m.goals)(end));
                    }
                }
            }
            if cost <= usize::MAX as u128 {
                Some(cost as usize)
            } else {
                None
            }
        },
        None => {
            proof {
                assert forall|states: Seq<State>, heats: Seq<usize>| !#[trigger] route(
                    g,
                    ultra,
                    states,
                    heats,
                ) by {
                    if route(g, ultra, states, heats) {
                        let codes = codes_of(states, wi);
                        let costs = costs_of(heats);
                        assert forall|i: int| 0 <= i < costs.len() implies sure_step(
                            f,
                            #[trigger] codes[i],
                            costs[i],
                            codes[i + 1],
                        ) by {
                            lemma_heat_walk_is_sure_walk(f, g, ultra, states, heats, i + 1);
                        }
                        assert(sure_walk(f, codes, costs));
                        assert(codes[0] == start_code);
                        assert(initial[0] == start_code);
                        lemma_cost_total(heats);
                        let goal = codes.last();
                        assert(surely_reaches(f, initial, goal, heat_total(heats)));
                        lemma_heat_walk_is_sure_walk(f, g, ultra, states, heats, states.len() - 1);
                        lemma_code_round_trip(g, states.last());
                        assert(goal_code(g, ultra, goal));
                        assert(goal_test.ensures((&goal,), false));
                    }
                }
            }
            None
        },
    }
}

/// The heat that a plain crucible loses.
pub fn part1(puzzle_input: &Array2D<u8>) -> (r: Option<usize>)
    ensures
        r matches Some(heat) ==> exists|states: Seq<State>, heats: Seq<usize>| #[trigger]
            route(*puzzle_input, false, states, heats) && heat_total(heats) == heat,
        r matches Some(heat) ==> (warm(*puzzle_input) ==> forall|states: Seq<State>, heats: Seq<usize>| #[trigger]
            route(*puzzle_input, false, states, heats) ==> heat <= heat_total(heats)),
        r is None && searchable(*puzzle_input) && warm(*puzzle_input) ==> forall|
            states: Seq<State>,
            heats: Seq<usize>,
        | #[trigger] route(*puzzle_input, false, states, heats) ==> heat_total(heats) > usize::MAX,
        r is None && searchable(*puzzle_input) ==> (forall|states: Seq<State>, heats: Seq<usize>|
            !#[trigger] route(*puzzle_input, false, states, heats)) || (exists|
            states: Seq<State>,
            heats: Seq<usize>,
        | #[trigger] route(*puzzle_input, false, states, heats) && heat_total(heats) > usize::MAX),
{
    get_minimum_heat(puzzle_input, false)
}

/// The heat that an ultra crucible loses.
pub fn part2(puzzle_input: &Array2D<u8>) -> (r: Option<usize>)
    ensures
        r matches Some(heat) ==> exists|states: Seq<State>, heats: Seq<usize>| #[trigger]
            route(*puzzle_input, true, states, heats) && heat_total(heats) == heat,
        r matches Some(heat) ==> (warm(*puzzle_input) ==> forall|states: Seq<State>, heats: Seq<usize>| #[trigger]
            route(*puzzle_input, true, states, heats) ==> heat <= heat_total(heats)),
        r is None && searchable(*puzzle_input) && warm(*puzzle_input) ==> forall|
            states: Seq<State>,
            heats: Seq<usize>,
        | #[trigger] route(*puzzle_input, true, states, heats) ==> heat_total(heats) > usize::MAX,
        r is None && searchable(*puzzle_input) ==> (forall|states: Seq<State>, heats: Seq<usize>|
            !#[trigger] route(*puzzle_input, true, states, heats)) || (exists|
            states: Seq<State>,
            heats: Seq<usize>,
        | #[trigger] route(*puzzle_input, true, states, heats) && heat_total(heats) > usize::MAX),
{
    get_minimum_heat(puzzle_input, true)
}

} // verus!
