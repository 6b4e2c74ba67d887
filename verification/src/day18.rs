//! A lagoon that is dug out along a trench and then inside it.

use crate::grid::{
    cell, grid_filled_with, grid_get, grid_height, grid_num_columns, grid_num_rows, grid_rows, grid_set,
    grid_width, in_grid, rectangular,
};
use crate::numbers::lemma_cell_bound;
use crate::reach::{connected, list_views, lists_wf, reachable_in};
use crate::text::{lines, lines_of, parse_usize, usize_of, views, words, words_of};
use array2d::Array2D;
use vstd::prelude::*;
use vstd::string::StringSliceAdditionalSpecFns;

verus! {

/// A direction in which to dig.
#[derive(Debug, Clone, Copy, PartialEq, Eq, Structural)]
pub enum Direction {
    Right,
    Down,
    Left,
    Up,
}

impl Direction {
    /// The direction after a quarter turn to the right.
    pub open spec fn right(self) -> Direction {
        match self {
            Direction::Right => Direction::Down,
            Direction::Down => Direction::Left,
            Direction::Left => Direction::Up,
            Direction::Up => Direction::Right,
        }
    }

    /// The direction after a quarter turn to the left.
    pub open spec fn left(self) -> Direction {
        match self {
            Direction::Right => Direction::Up,
            Direction::Down => Direction::Right,
            Direction::Left => Direction::Down,
            Direction::Up => Direction::Left,
        }
    }

    /// Whether going in this direction after `last_direction` was a turn to
    /// the right.
    pub fn was_right_turn(&self, last_direction: Direction) -> (b: bool)
        ensures
            b == (*self == last_direction.right()),
    {
        match last_direction {
            Direction::Right => matches!(self, Direction::Down),
            Direction::Down => matches!(self, Direction::Left),
            Direction::Left => matches!(self, Direction::Up),
            Direction::Up => matches!(self, Direction::Right),
        }
    }

    pub fn turn_right(&self) -> (d: Self)
        ensures
            d == self.right(),
    {
        match self {
            Direction::Right => Direction::Down,
            Direction::Down => Direction::Left,
            Direction::Left => Direction::Up,
            Direction::Up => Direction::Right,
        }
    }

    pub fn turn_left(&self) -> (d: Self)
        ensures
            d == self.left(),
    {
        match self {
            Direction::Right => Direction::Up,
            Direction::Down => Direction::Right,
            Direction::Left => Direction::Down,
            Direction::Up => Direction::Left,
        }
    }

    /// The direction that a letter names: `R`, `D`, `L` or `U`.
    pub open spec fn of_letter(c: u8) -> Option<Direction> {
        if c == 82 {
            Some(Direction::Right)
        } else if c == 68 {
            Some(Direction::Down)
        } else if c == 76 {
            Some(Direction::Left)
        } else if c == 85 {
            Some(Direction::Up)
        } else {
            None
        }
    }

    /// Reads a direction from its letter.
    pub fn from_letter(c: u8) -> (r: Option<Direction>)
        ensures
            r == Direction::of_letter(c),
    {
        if c == 82 {
            Some(Direction::Right)
        } else if c == 68 {
            Some(Direction::Down)
        } else if c == 76 {
            Some(Direction::Left)
        } else if c == 85 {
            Some(Direction::Up)
        } else {
            None
        }
    }

    /// The direction with the given number: 0 for right, then clockwise.
    pub open spec fn of_number(n: u32) -> Option<Direction> {
        if n == 0 {
            Some(Direction::Right)
        } else if n == 1 {
            Some(Direction::Down)
        } else if n == 2 {
            Some(Direction::Left)
        } else if n == 3 {
            Some(Direction::Up)
        } else {
            None
        }
    }

    /// Reads a direction from its number.
    pub fn from_number(n: u32) -> (r: Option<Direction>)
        ensures
            r == Direction::of_number(n),
    {
        if n == 0 {
            Some(Direction::Right)
        } else if n == 1 {
            Some(Direction::Down)
        } else if n == 2 {
            Some(Direction::Left)
        } else if n == 3 {
            Some(Direction::Up)
        } else {
            None
        }
    }
}

/// One step of the dig plan: a direction and a number of cells.
#[derive(Debug, Clone, Copy, PartialEq, Eq, Structural)]
pub struct Instruction {
    pub direction: Direction,
    pub length: usize,
}

/// The instruction that a line `<letter> <number> ...` describes.
pub open spec fn instruction_of(line: Seq<u8>) -> Option<Instruction> {
    let parts = words_of(line);
    if parts.len() >= 2 && parts[0].len() == 1 {
        match (Direction::of_letter(parts[0][0]), usize_of(parts[1])) {
            (Some(direction), Some(length)) => Some(Instruction { direction, length }),
            _ => None,
        }
    } else {
        None
    }
}

/// The value of a hexadecimal digit.
pub open spec fn hex_digit(c: u8) -> Option<int> {
    if 48 <= c <= 57 {
        Some(c - 48)
    } else if 97 <= c <= 102 {
        Some(c - 87)
    } else if 65 <= c <= 70 {
        Some(c - 55)
    } else {
        None
    }
}

/// The number that the first `n` hexadecimal digits denote, as far as it
/// fits in `usize`.
pub open spec fn hex_value(s: Seq<u8>, n: int) -> Option<usize>
    decreases n,
{
    if n <= 0 {
        Some(0)
    } else {
        match (hex_value(s, n - 1), hex_digit(s[n - 1])) {
            (Some(v), Some(d)) => if v * 16 + d <= usize::MAX {
                Some((v * 16 + d) as usize)
            } else {
                None
            },
            _ => None,
        }
    }
}

/// The index after the last space among the first `n` bytes, or 0.
pub open spec fn after_last_space(line: Seq<u8>, n: int) -> int
    decreases n,
{
    if n <= 0 {
        0
    } else if line[n - 1] == 32u8 {
        n
    } else {
        after_last_space(line, n - 1)
    }
}

/// The instruction that the last word of a line describes when its last
/// byte is read as the number of a direction and the bytes before it as a
/// hexadecimal length. The line must hold a space.
pub open spec fn instruction_of_part2(line: Seq<u8>) -> Option<Instruction> {
    let from = after_last_space(line, line.len() as int);
    if from == 0 || from >= line.len() {
        None
    } else {
        let word = line.skip(from);
        let last = word.last();
        if 48 <= last <= 51 && word.len() >= 2 {
            match (Direction::of_number((last - 48) as u32), hex_value(word.drop_last(), word.len() - 1)) {
                (Some(direction), Some(length)) => Some(Instruction { direction, length }),
                _ => None,
            }
        } else {
            None
        }
    }
}

/// If the first `i` digits denote no number, neither do the first `n`.
pub proof fn lemma_hex_value_prefix(s: Seq<u8>, i: int, n: int)
    requires
        0 <= i <= n,
        hex_value(s, i) is None,
    ensures
        hex_value(s, n) is None,
    decreases n - i,
{
    if i < n {
        lemma_hex_value_prefix(s, i, n - 1);
    }
}

/// Reads a hexadecimal number.
fn parse_hex(s: &[u8]) -> (r: Option<usize>)
    ensures
        r == hex_value(s@, s@.len() as int),
{
    let mut value: usize = 0;
    let mut i: usize = 0;
    while i < s.len()
        invariant
            i <= s.len(),
            hex_value(s@, i as int) == Some(value),
        decreases s.len() - i,
    {
        let c = s[i];
        let digit: Option<usize> = if 48 <= c && c <= 57 {
            Some((c - 48) as usize)
        } else if 97 <= c && c <= 102 {
            Some((c - 87) as usize)
        } else if 65 <= c && c <= 70 {
            Some((c - 55) as usize)
        } else {
            None
        };
        let step = match digit {
            Some(d) => match value.checked_mul(16) {
                Some(shifted) => shifted.checked_add(d),
                None => None,
            },
            None => None,
        };
        match step {
            Some(next) => {
                value = next;
            },
            None => {
                proof {
                    lemma_hex_value_prefix(s@, i + 1, s@.len() as int);
                }
                return None;
            },
        }
        i = i + 1;
    }
    Some(value)
}

impl Instruction {
    /// Reads an instruction such as `R 6 (#70c710)` from its first two
    /// words.
    pub fn from_line(line: &[u8]) -> (r: Option<Instruction>)
        ensures
            r == instruction_of(line@),
    {
        let parts = words(line);
        assert(views(parts@).len() == parts@.len());
        if parts.len() < 2 {
            return None;
        }
        assert(views(parts@)[0] == parts@[0]@);
        assert(views(parts@)[1] == parts@[1]@);
        if parts[0].len() != 1 {
            return None;
        }
        let direction = Direction::from_letter(parts[0][0])?;
        let length = parse_usize(parts[1])?;
        Some(Instruction { direction, length })
    }

    /// Reads an instruction from the last word of a line: its last byte is
    /// the number of the direction, and the bytes before it are the length
    /// in hexadecimal.
    pub fn from_part2(line: &[u8]) -> (r: Option<Instruction>)
        ensures
            r == instruction_of_part2(line@),
    {
        let mut from: usize = line.len();
        while from > 0 && line[from - 1] != 32u8
            invariant
                from <= line.len(),
                after_last_space(line@, line@.len() as int) == after_last_space(line@, from as int),
            decreases from,
        {
            from = from - 1;
        }
        if from == 0 || from >= line.len() {
            return None;
        }
        let word = &line[from..line.len()];
        assert(word@ =~= line@.skip(from as int));
        let last = word[word.len() - 1];
        if last < 48 || last > 51 || word.len() < 2 {
            return None;
        }
        let direction = Direction::from_number((last - 48) as u32)?;
        let digits = &word[0..word.len() - 1];
        assert(digits@ =~= word@.drop_last());
        let length = parse_hex(digits)?;
        Some(Instruction { direction, length })
    }
}

/// The instructions that the first `n` lines describe, read as in part 1.
pub open spec fn plan_of(ls: Seq<Seq<u8>>, n: int) -> Option<Seq<Instruction>>
    decreases n,
{
    if n <= 0 {
        Some(Seq::empty())
    } else {
        match (plan_of(ls, n - 1), instruction_of(ls[n - 1])) {
            (Some(plan), Some(i)) => Some(plan.push(i)),
            _ => None,
        }
    }
}

/// The instructions that the first `n` lines describe, read as in part 2.
pub open spec fn plan_of_part2(ls: Seq<Seq<u8>>, n: int) -> Option<Seq<Instruction>>
    decreases n,
{
    if n <= 0 {
        Some(Seq::empty())
    } else {
        match (plan_of_part2(ls, n - 1), instruction_of_part2(ls[n - 1])) {
            (Some(plan), Some(i)) => Some(plan.push(i)),
            _ => None,
        }
    }
}

/// If the first `i` lines are no plan, neither are the first `n`.
pub proof fn lemma_plan_of_prefix(ls: Seq<Seq<u8>>, i: int, n: int)
    requires
        0 <= i <= n,
        plan_of(ls, i) is None,
    ensures
        plan_of(ls, n) is None,
    decreases n - i,
{
    if i < n {
        lemma_plan_of_prefix(ls, i, n - 1);
    }
}

/// If the first `i` lines are no plan, neither are the first `n`.
pub proof fn lemma_plan_of_part2_prefix(ls: Seq<Seq<u8>>, i: int, n: int)
    requires
        0 <= i <= n,
        plan_of_part2(ls, i) is None,
    ensures
        plan_of_part2(ls, n) is None,
    decreases n - i,
{
    if i < n {
        lemma_plan_of_part2_prefix(ls, i, n - 1);
    }
}

/// Reads the dig plan, one instruction per line.
pub fn parse_input_part1(file_contents: &str) -> (r: Option<Vec<Instruction>>)
    ensures
        match r {
            Some(plan) => plan_of(lines_of(file_contents.spec_bytes()), lines_of(file_contents.spec_bytes()).len() as int)
                == Some(plan@),
            None => plan_of(lines_of(file_contents.spec_bytes()), lines_of(file_contents.spec_bytes()).len() as int) is None,
        },
{
    let ls = lines(file_contents.as_bytes());
    let ghost all = lines_of(file_contents.spec_bytes());
    let mut plan: Vec<Instruction> = Vec::new();
    let mut i: usize = 0;
    while i < ls.len()
        invariant
            i <= ls.len(),
            all == views(ls@),
            all == lines_of(file_contents.spec_bytes()),
            plan_of(all, i as int) == Some(plan@),
        decreases ls.len() - i,
    {
        assert(all[i as int] == ls@[i as int]@);
        match Instruction::from_line(ls[i]) {
            Some(instruction) => {
                plan.push(instruction);
            },
            None => {
                proof {
                    lemma_plan_of_prefix(all, i + 1, all.len() as int);
                }
                return None;
            },
        }
        i = i + 1;
    }
    Some(plan)
}

/// Reads the dig plan from the last word of each line.
pub fn parse_input_part2(file_contents: &str) -> (r: Option<Vec<Instruction>>)
    ensures
        match r {
            Some(plan) => plan_of_part2(
                lines_of(file_contents.spec_bytes()),
                lines_of(file_contents.spec_bytes()).len() as int,
            ) == Some(plan@),
            None => plan_of_part2(
                lines_of(file_contents.spec_bytes()),
                lines_of(file_contents.spec_bytes()).len() as int,
            ) is None,
        },
{
    let ls = lines(file_contents.as_bytes());
    let ghost all = lines_of(file_contents.spec_bytes());
    let mut plan: Vec<Instruction> = Vec::new();
    let mut i: usize = 0;
    while i < ls.len()
        invariant
            i <= ls.len(),
            all == views(ls@),
            all == lines_of(file_contents.spec_bytes()),
            plan_of_part2(all, i as int) == Some(plan@),
        decreases ls.len() - i,
    {
        assert(all[i as int] == ls@[i as int]@);
        match Instruction::from_part2(ls[i]) {
            Some(instruction) => {
                plan.push(instruction);
            },
            None => {
                proof {
                    lemma_plan_of_part2_prefix(all, i + 1, all.len() as int);
                }
                return None;
            },
        }
        i = i + 1;
    }
    Some(plan)
}

/// A cell, by its row and its column; both may be negative while the plan
/// is laid out.
#[derive(Debug, Clone, Copy, PartialEq, Eq, Structural)]
pub struct Position {
    pub row: isize,
    pub column: isize,
}

impl Position {
    /// The position `length` cells away in `direction`.
    pub open spec fn moved(self, direction: Direction, length: int) -> (int, int) {
        match direction {
            Direction::Right => (self.row as int, self.column + length),
            Direction::Down => (self.row + length, self.column as int),
            Direction::Left => (self.row as int, self.column - length),
            Direction::Up => (self.row - length, self.column as int),
        }
    }

    /// Whether the position `length` cells away in `direction` has a row and
    /// a column that fit in `isize`.
    pub open spec fn can_move(self, direction: Direction, length: int) -> bool {
        length <= isize::MAX && isize::MIN <= self.moved(direction, length).0 <= isize::MAX && isize::MIN
            <= self.moved(direction, length).1 <= isize::MAX
    }

    pub fn new(row: isize, column: isize) -> (p: Self)
        ensures
            p == (Position { row, column }),
    {
        Position { row, column }
    }

    pub fn move_in_direction(&self, direction: Direction, length: usize) -> (p: Self)
        requires
            self.can_move(direction, length as int),
        ensures
            p.row == self.moved(direction, length as int).0,
            p.column == self.moved(direction, length as int).1,
    {
        match direction {
            Direction::Right => Position::new(self.row, self.column + length as isize),
            Direction::Down => Position::new(self.row + length as isize, self.column),
            Direction::Left => Position::new(self.row, self.column - length as isize),
            Direction::Up => Position::new(self.row - length as isize, self.column),
        }
    }

    /// The position `length` cells away in `direction`, if its row and its
    /// column fit in `isize`.
    pub fn checked_move(&self, direction: Direction, length: usize) -> (r: Option<Self>)
        ensures
            match r {
                Some(p) => self.can_move(direction, length as int) && p.row == self.moved(direction, length as int).0
                    && p.column == self.moved(direction, length as int).1,
                None => !self.can_move(direction, length as int),
            },
    {
        if length > isize::MAX as usize {
            return None;
        }
        let by = length as isize;
        match direction {
            Direction::Right => match self.column.checked_add(by) {
                Some(column) => Some(Position::new(self.row, column)),
                None => None,
            },
            Direction::Down => match self.row.checked_add(by) {
                Some(row) => Some(Position::new(row, self.column)),
                None => None,
            },
            Direction::Left => match self.column.checked_sub(by) {
                Some(column) => Some(Position::new(self.row, column)),
                None => None,
            },
            Direction::Up => match self.row.checked_sub(by) {
                Some(row) => Some(Position::new(row, self.column)),
                None => None,
            },
        }
    }
}

/// The byte `#`, a cell that is dug out.
pub const POUND: u8 = 35;

/// The byte `.`, a cell that is not dug out.
pub const DOT: u8 = 46;

/// Whether the cell `(r, c)` lies on the grid and is not dug out.
pub open spec fn open_at(rows: Seq<Seq<u8>>, w: int, r: int, c: int) -> bool {
    0 <= r < rows.len() && 0 <= c < w && rows[r][c] != POUND
}

/// The number of the cell `(r, c)` if it is open, for use in a list.
pub open spec fn open_neighbour(rows: Seq<Seq<u8>>, w: int, r: int, c: int) -> Seq<usize> {
    if open_at(rows, w, r, c) {
        seq![(r * w + c) as usize]
    } else {
        Seq::empty()
    }
}

/// The open cells next to the cell with the given number, if it is open
/// itself: to the right, below, to the left, above.
pub open spec fn open_neighbours(rows: Seq<Seq<u8>>, w: int, place: int) -> Seq<usize> {
    let r = place / w;
    let c = place % w;
    if open_at(rows, w, r, c) {
        open_neighbour(rows, w, r, c + 1) + open_neighbour(rows, w, r + 1, c) + open_neighbour(rows, w, r, c - 1)
            + open_neighbour(rows, w, r - 1, c)
    } else {
        Seq::empty()
    }
}

/// For every cell, by its number, the open cells next to it.
pub open spec fn open_graph(rows: Seq<Seq<u8>>, w: int) -> Seq<Seq<usize>> {
    Seq::new((rows.len() * w) as nat, |place: int| open_neighbours(rows, w, place))
}

/// The rows after digging out, from `seed`, every cell that can be reached
/// through cells that are not dug out. Nothing changes when `seed` is off
/// the grid or dug out already.
pub open spec fn flooded(rows: Seq<Seq<u8>>, w: int, seed: (int, int)) -> Seq<Seq<u8>> {
    if open_at(rows, w, seed.0, seed.1) {
        Seq::new(
            rows.len(),
            |r: int|
                Seq::new(
                    w as nat,
                    |c: int|
                        if connected(open_graph(rows, w), (seed.0 * w + seed.1) as usize, (r * w + c) as usize) {
                            POUND
                        } else {
                            rows[r][c]
                        },
                ),
        )
    } else {
        rows
    }
}

/// Adds the number of the cell `(r, c)` to the list if the cell is open.
fn push_open(list: &mut Vec<usize>, array: &Array2D<u8>, r: i128, c: i128)
    requires
        (grid_height(*array) * grid_width(*array)) <= usize::MAX,
        rectangular(grid_rows(*array), grid_width(*array)),
        -1 <= r <= grid_height(*array),
        -1 <= c <= grid_width(*array),
        forall|k: int| 0 <= k < old(list)@.len() ==> #[trigger] old(list)@[k] < grid_height(*array) * grid_width(*array),
    ensures
        final(list)@ == old(list)@ + open_neighbour(grid_rows(*array), grid_width(*array) as int, r as int, c as int),
        forall|k: int| 0 <= k < final(list)@.len() ==> #[trigger] final(list)@[k] < grid_height(*array) * grid_width(*array),
{
    let h = grid_num_rows(array);
    let w = grid_num_columns(array);
    let ghost before = list@;
    if 0 <= r && r < h as i128 && 0 <= c && c < w as i128 {
        let row = r as usize;
        let column = c as usize;
        if grid_get(array, row, column).unwrap() != POUND {
            proof {
                lemma_cell_bound(row as int, column as int, h as int, w as int);
                lemma_cell_bound(row as int, 0, h as int, w as int);
            }
            list.push(row * w + column);
            assert(list@ =~= before + seq![(row * w + column) as usize]);
            return ;
        }
    }
    assert(list@ =~= before + Seq::<usize>::empty());
}

/// For every cell, the open cells next to it.
fn build_open_graph(array: &Array2D<u8>) -> (lists: Vec<Vec<usize>>)
    requires
        (grid_height(*array) * grid_width(*array)) <= usize::MAX,
    ensures
        list_views(lists@) == open_graph(grid_rows(*array), grid_width(*array) as int),
        lists_wf(list_views(lists@)),
        lists@.len() == grid_height(*array) * grid_width(*array),
{
    let h = grid_num_rows(array);
    let w = grid_num_columns(array);
    let ghost rows = grid_rows(*array);
    let ghost wi = w as int;
    let ghost total = h * w;
    let mut lists: Vec<Vec<usize>> = Vec::new();
    let mut row: usize = 0;
    assert(0 * w == 0) by (nonlinear_arith);
    while row < h
        invariant
            row <= h,
            h == grid_height(*array),
            w == grid_width(*array),
            wi == w,
            rows == grid_rows(*array),
            rectangular(rows, w as nat),
            total == h * w,
            total <= usize::MAX,
            lists@.len() == row * w,
            forall|p: int| 0 <= p < lists@.len() ==> (#[trigger] lists@[p])@ == open_neighbours(rows, wi, p),
            forall|p: int, k: int|
                0 <= p < lists@.len() && 0 <= k < lists@[p]@.len() ==> (#[trigger] lists@[p]@[k]) < total,
        decreases h - row,
    {
        let mut column: usize = 0;
        while column < w
            invariant
                column <= w,
                row < h,
                h == grid_height(*array),
                w == grid_width(*array),
                wi == w,
                rows == grid_rows(*array),
                rectangular(rows, w as nat),
                total == h * w,
                total <= usize::MAX,
                lists@.len() == row * w + column,
                forall|p: int| 0 <= p < lists@.len() ==> (#[trigger] lists@[p])@ == open_neighbours(rows, wi, p),
                forall|p: int, k: int|
                    0 <= p < lists@.len() && 0 <= k < lists@[p]@.len() ==> (#[trigger] lists@[p]@[k]) < total,
            decreases w - column,
        {
            proof {
                vstd::arithmetic::div_mod::lemma_fundamental_div_mod_converse(
                    row * w + column,
                    wi,
                    row as int,
                    column as int,
                );
            }
            let mut list: Vec<usize> = Vec::new();
            if grid_get(array, row, column).unwrap() != POUND {
                let r = row as i128;
                let c = column as i128;
                push_open(&mut list, array, r, c + 1);
                push_open(&mut list, array, r + 1, c);
                push_open(&mut list, array, r, c - 1);
                push_open(&mut list, array, r - 1, c);
            }
            assert(list@ =~= open_neighbours(rows, wi, row * w + column));
            lists.push(list);
            column = column + 1;
        }
        proof {
            assert((row + 1) * w == row * w + w) by (nonlinear_arith);
        }
        row = row + 1;
    }
    proof {
        assert(list_views(lists@) =~= open_graph(rows, wi));
        assert forall|x: int, k: int|
            0 <= x < list_views(lists@).len() && 0 <= k < list_views(lists@)[x].len() implies #[trigger] list_views(
            lists@,
        )[x][k] < list_views(lists@).len() by {
            assert(list_views(lists@)[x] == lists@[x]@);
            assert(lists@[x]@[k] < total);
        }
    }
    lists
}

/// Digs out, from `position`, every cell that can be reached through cells
/// that are not dug out. The grid must not have more cells than `usize`
/// counts.
pub fn flood_fill_with_pound(array: &mut Array2D<u8>, position: Position)
    requires
        (grid_height(*old(array)) * grid_width(*old(array))) <= usize::MAX,
    ensures
        grid_rows(*final(array)) == flooded(
            grid_rows(*old(array)),
            grid_width(*old(array)) as int,
            (position.row as int, position.column as int),
        ),
        grid_width(*final(array)) == grid_width(*old(array)),
        grid_height(*final(array)) == grid_height(*old(array)),
{
    let h = grid_num_rows(array);
    let w = grid_num_columns(array);
    let ghost rows = grid_rows(*array);
    let ghost wi = w as int;
    if position.row < 0 || position.column < 0 || position.row as usize >= h || position.column as usize >= w {
        return ;
    }
    let seed_row = position.row as usize;
    let seed_column = position.column as usize;
    if grid_get(array, seed_row, seed_column).unwrap() == POUND {
        return ;
    }
    proof {
        lemma_cell_bound(seed_row as int, seed_column as int, h as int, wi);
        lemma_cell_bound(seed_row as int, 0, h as int, wi);
    }
    let lists = build_open_graph(array);
    let seed = seed_row * w + seed_column;
    let marks = reachable_in(&lists, seed);
    let ghost graph = open_graph(rows, wi);
    let ghost wanted = flooded(rows, wi, (position.row as int, position.column as int));
    let mut row: usize = 0;
    while row < h
        invariant
            row <= h,
            h == rows.len(),
            w == grid_width(*array),
            wi == w,
            h * w <= usize::MAX,
            grid_height(*array) == h,
            rectangular(rows, w as nat),
            rectangular(grid_rows(*array), w as nat),
            graph == open_graph(rows, wi),
            marks@.len() == h * w,
            seed == position.row * wi + position.column,
            open_at(rows, wi, position.row as int, position.column as int),
            forall|v: int| 0 <= v < marks@.len() ==> (#[trigger] marks@[v] <==> connected(graph, seed, v as usize)),
            wanted == flooded(rows, wi, (position.row as int, position.column as int)),
            forall|r: int| 0 <= r < row ==> #[trigger] grid_rows(*array)[r] == wanted[r],
            forall|r: int| row <= r < h ==> #[trigger] grid_rows(*array)[r] == rows[r],
        decreases h - row,
    {
        let mut column: usize = 0;
        while column < w
            invariant
                column <= w,
                row < h,
                h == rows.len(),
                w == grid_width(*array),
                wi == w,
                h * w <= usize::MAX,
                grid_height(*array) == h,
                rectangular(rows, w as nat),
                rectangular(grid_rows(*array), w as nat),
                graph == open_graph(rows, wi),
                marks@.len() == h * w,
                seed == position.row * wi + position.column,
                open_at(rows, wi, position.row as int, position.column as int),
                forall|v: int|
                    0 <= v < marks@.len() ==> (#[trigger] marks@[v] <==> connected(graph, seed, v as usize)),
                wanted == flooded(rows, wi, (position.row as int, position.column as int)),
                forall|r: int| 0 <= r < row ==> #[trigger] grid_rows(*array)[r] == wanted[r],
                forall|r: int| row < r < h ==> #[trigger] grid_rows(*array)[r] == rows[r],
                forall|c: int| 0 <= c < column ==> #[trigger] grid_rows(*array)[row as int][c] == wanted[row as int][c],
                forall|c: int| column <= c < w ==> #[trigger] grid_rows(*array)[row as int][c] == rows[row as int][c],
            decreases w - column,
        {
            proof {
                lemma_cell_bound(row as int, column as int, h as int, wi);
                lemma_cell_bound(row as int, 0, h as int, wi);
            }
            if marks[row * w + column] {
                let _ = grid_set(array, row, column, POUND);
            }
            column = column + 1;
        }
        proof {
            assert(grid_rows(*array)[row as int] =~= wanted[row as int]);
        }
        row = row + 1;
    }
    assert(grid_rows(*array) =~= wanted);
}

/// What laying out the plan gives: the least and greatest row and column
/// among the corners, the position reached, and how many turns went right
/// and how many did not.
pub struct Layout {
    pub min_row: isize,
    pub max_row: isize,
    pub min_column: isize,
    pub max_column: isize,
    pub position: Position,
    pub rights: usize,
    pub lefts: usize,
}

/// The layout after the first `n` instructions, walked from the origin, as
/// far as every corner fits in `isize`.
pub open spec fn layout_of(plan: Seq<Instruction>, n: int) -> Option<Layout>
    decreases n,
{
    if n <= 0 {
        Some(
            Layout {
                min_row: 0,
                max_row: 0,
                min_column: 0,
                max_column: 0,
                position: Position { row: 0, column: 0 },
                rights: 0,
                lefts: 0,
            },
        )
    } else {
        match layout_of(plan, n - 1) {
            None => None,
            Some(l) => {
                let step = plan[n - 1];
                if l.position.can_move(step.direction, step.length as int) {
                    let (row, column) = l.position.moved(step.direction, step.length as int);
                    Some(
                        Layout {
                            min_row: if row < l.min_row { row as isize } else { l.min_row },
                            max_row: if row > l.max_row { row as isize } else { l.max_row },
                            min_column: if column < l.min_column { column as isize } else { l.min_column },
                            max_column: if column > l.max_column { column as isize } else { l.max_column },
                            position: Position { row: row as isize, column: column as isize },
                            rights: if n >= 2 && step.direction == plan[n - 2].direction.right() {
                                (l.rights + 1) as usize
                            } else {
                                l.rights
                            },
                            lefts: if n >= 2 && step.direction != plan[n - 2].direction.right() {
                                (l.lefts + 1) as usize
                            } else {
                                l.lefts
                            },
                        },
                    )
                } else {
                    None
                }
            },
        }
    }
}

/// If the first `i` instructions cannot be laid out, neither can the first
/// `n`.
pub proof fn lemma_layout_of_prefix(plan: Seq<Instruction>, i: int, n: int)
    requires
        0 <= i <= n,
        layout_of(plan, i) is None,
    ensures
        layout_of(plan, n) is None,
    decreases n - i,
{
    if i < n {
        lemma_layout_of_prefix(plan, i, n - 1);
    }
}

/// There are at most as many turns as instructions.
pub proof fn lemma_layout_turns(plan: Seq<Instruction>, n: int)
    requires
        0 <= n,
        layout_of(plan, n) is Some,
    ensures
        layout_of(plan, n).unwrap().rights + layout_of(plan, n).unwrap().lefts <= n,
    decreases n,
{
    if n > 0 {
        lemma_layout_turns(plan, n - 1);
    }
}

/// The rows and the position after `n` cells have been dug out, one after
/// the other in `direction`, starting with the cell at the position. There
/// is nothing when a cell lies off the grid.
pub open spec fn dug(rows: Seq<Seq<u8>>, w: int, at: Position, direction: Direction, n: nat) -> Option<
    (Seq<Seq<u8>>, Position),
>
    decreases n,
{
    if n == 0 {
        Some((rows, at))
    } else if 0 <= at.row < rows.len() && 0 <= at.column < w && at.can_move(direction, 1) {
        let (row, column) = at.moved(direction, 1);
        dug(
            rows.update(at.row as int, rows[at.row as int].update(at.column as int, POUND)),
            w,
            Position { row: row as isize, column: column as isize },
            direction,
            (n - 1) as nat,
        )
    } else {
        None
    }
}

/// The rows and the position after the instructions from the `i`-th on have
/// been dug.
pub open spec fn dug_plan(rows: Seq<Seq<u8>>, w: int, at: Position, plan: Seq<Instruction>, i: int) -> Option<
    (Seq<Seq<u8>>, Position),
>
    decreases plan.len() - i,
{
    if i >= plan.len() {
        Some((rows, at))
    } else {
        match dug(rows, w, at, plan[i].direction, plan[i].length as nat) {
            None => None,
            Some((next_rows, next)) => dug_plan(next_rows, w, next, plan, i + 1),
        }
    }
}

/// The direction in which the inside lies when going in `direction`.
pub open spec fn inward(direction: Direction, inside_on_right: bool) -> Direction {
    if inside_on_right {
        direction.right()
    } else {
        direction.left()
    }
}

/// The rows and the position after going `n` cells in `direction` and
/// flooding, from the cell beside each, whatever can be reached on the
/// inside.
pub open spec fn filled(
    rows: Seq<Seq<u8>>,
    w: int,
    at: Position,
    direction: Direction,
    inside_on_right: bool,
    n: nat,
) -> Option<(Seq<Seq<u8>>, Position)>
    decreases n,
{
    if n == 0 {
        Some((rows, at))
    } else if at.can_move(inward(direction, inside_on_right), 1) && at.can_move(direction, 1) {
        let (row, column) = at.moved(direction, 1);
        filled(
            flooded(rows, w, at.moved(inward(direction, inside_on_right), 1)),
            w,
            Position { row: row as isize, column: column as isize },
            direction,
            inside_on_right,
            (n - 1) as nat,
        )
    } else {
        None
    }
}

/// The rows and the position after the inside has been flooded along the
/// instructions from the `i`-th on.
pub open spec fn filled_plan(
    rows: Seq<Seq<u8>>,
    w: int,
    at: Position,
    plan: Seq<Instruction>,
    inside_on_right: bool,
    i: int,
) -> Option<(Seq<Seq<u8>>, Position)>
    decreases plan.len() - i,
{
    if i >= plan.len() {
        Some((rows, at))
    } else {
        match filled(rows, w, at, plan[i].direction, inside_on_right, plan[i].length as nat) {
            None => None,
            Some((next_rows, next)) => filled_plan(next_rows, w, next, plan, inside_on_right, i + 1),
        }
    }
}

/// The number of cells among the first `n` of the row that are dug out.
pub open spec fn pounds_in(row: Seq<u8>, n: int) -> int
    decreases n,
{
    if n <= 0 {
        0
    } else if row[n - 1] == POUND {
        pounds_in(row, n - 1) + 1
    } else {
        pounds_in(row, n - 1)
    }
}

/// The number of cells in the first `n` rows that are dug out.
pub open spec fn pounds(rows: Seq<Seq<u8>>, w: int, n: int) -> int
    decreases n,
{
    if n <= 0 {
        0
    } else {
        pounds(rows, w, n - 1) + pounds_in(rows[n - 1], w)
    }
}

/// A grid of `h` rows of `w` cells that are not dug out.
pub open spec fn blank(h: int, w: int) -> Seq<Seq<u8>> {
    Seq::new(h as nat, |r: int| Seq::new(w as nat, |c: int| DOT))
}

/// The size of the lagoon that a plan digs. The corners of all instructions
/// but the last give the grid; then the trench is dug along all of them, and
/// the inside, which is to the right when more turns went right than did
/// not, is flooded from beside every cell of the trench. There is no size
/// for an empty plan, when the grid or a position leaves the numbers, or
/// when the trench leaves the grid.
pub open spec fn lagoon_size(plan: Seq<Instruction>) -> Option<usize> {
    if plan.len() == 0 {
        None
    } else {
        match layout_of(plan, plan.len() - 1) {
            None => None,
            Some(l) => {
                let h = l.max_row - l.min_row + 1;
                let w = l.max_column - l.min_column + 1;
                if h > isize::MAX || w > isize::MAX || h * w > usize::MAX || l.min_row == isize::MIN
                    || l.min_column == isize::MIN {
                    None
                } else {
                    let start = Position { row: (-l.min_row) as isize, column: (-l.min_column) as isize };
                    match dug_plan(blank(h, w), w, start, plan, 0) {
                        None => None,
                        Some((trench, _)) => match filled_plan(trench, w, start, plan, l.rights > l.lefts, 0) {
                            None => None,
                            Some((lagoon, _)) => Some(pounds(lagoon, w, h) as usize),
                        },
                    }
                }
            },
        }
    }
}

/// There are at most as many cells dug out as cells.
pub proof fn lemma_pounds_in_bound(row: Seq<u8>, n: int)
    requires
        0 <= n,
    ensures
        0 <= pounds_in(row, n) <= n,
    decreases n,
{
    if n > 0 {
        lemma_pounds_in_bound(row, n - 1);
    }
}

/// There are at most as many cells dug out as cells.
pub proof fn lemma_pounds_bound(rows: Seq<Seq<u8>>, w: int, n: int)
    requires
        0 <= n,
        0 <= w,
    ensures
        0 <= pounds(rows, w, n) <= n * w,
    decreases n,
{
    if n > 0 {
        lemma_pounds_bound(rows, w, n - 1);
        lemma_pounds_in_bound(rows[n - 1], w);
        assert(n * w == (n - 1) * w + w) by (nonlinear_arith);
    } else {
        assert(n * w == 0) by (nonlinear_arith)
            requires
                n == 0,
        ;
    }
}

/// Lays out the first `n` instructions.
fn lay_out(plan: &[Instruction], n: usize) -> (r: Option<Layout>)
    requires
        n <= plan@.len(),
    ensures
        r == layout_of(plan@, n as int),
{
    let mut l = Layout {
        min_row: 0,
        max_row: 0,
        min_column: 0,
        max_column: 0,
        position: Position::new(0, 0),
        rights: 0,
        lefts: 0,
    };
    let mut i: usize = 0;
    while i < n
        invariant
            i <= n <= plan@.len(),
            layout_of(plan@, i as int) == Some(l),
        decreases n - i,
    {
        proof {
            lemma_layout_turns(plan@, i as int);
        }
        let step = plan[i];
        let next = match l.position.checked_move(step.direction, step.length) {
            Some(next) => next,
            None => {
                proof {
                    lemma_layout_of_prefix(plan@, i + 1, n as int);
                }
                return None;
            },
        };
        let turned_right = i >= 1 && step.direction.was_right_turn(plan[i - 1].direction);
        l = Layout {
            min_row: if next.row < l.min_row { next.row } else { l.min_row },
            max_row: if next.row > l.max_row { next.row } else { l.max_row },
            min_column: if next.column < l.min_column { next.column } else { l.min_column },
            max_column: if next.column > l.max_column { next.column } else { l.max_column },
            position: next,
            rights: if turned_right { l.rights + 1 } else { l.rights },
            lefts: if i >= 1 && !turned_right { l.lefts + 1 } else { l.lefts },
        };
        i = i + 1;
    }
    Some(l)
}

/// Digs the trench along the plan.
fn dig_plan(matrix: &mut Array2D<u8>, start: Position, plan: &[Instruction]) -> (ok: bool)
    ensures
        grid_width(*final(matrix)) == grid_width(*old(matrix)),
        grid_height(*final(matrix)) == grid_height(*old(matrix)),
        match dug_plan(grid_rows(*old(matrix)), grid_width(*old(matrix)) as int, start, plan@, 0) {
            None => !ok,
            Some((rows, _)) => ok && grid_rows(*final(matrix)) == rows,
        },
{
    let ghost w = grid_width(*matrix) as int;
    let ghost whole = dug_plan(grid_rows(*matrix), w, start, plan@, 0);
    let mut cur_pos = start;
    let mut i: usize = 0;
    while i < plan.len()
        invariant
            i <= plan.len(),
            w == grid_width(*matrix),
            grid_width(*matrix) == grid_width(*old(matrix)),
            grid_height(*matrix) == grid_height(*old(matrix)),
            whole == dug_plan(grid_rows(*old(matrix)), grid_width(*old(matrix)) as int, start, plan@, 0),
            whole == dug_plan(grid_rows(*matrix), w, cur_pos, plan@, i as int),
        decreases plan.len() - i,
    {
        let instruction = plan[i];
        let ghost step = dug(grid_rows(*matrix), w, cur_pos, instruction.direction, instruction.length as nat);
        let mut k: usize = 0;
        while k < instruction.length
            invariant
                k <= instruction.length,
                w == grid_width(*matrix),
                grid_width(*matrix) == grid_width(*old(matrix)),
                grid_height(*matrix) == grid_height(*old(matrix)),
                step == dug(grid_rows(*matrix), w, cur_pos, instruction.direction, (instruction.length - k) as nat),
                whole == (match step {
                    None => None,
                    Some((next_rows, next)) => dug_plan(next_rows, w, next, plan@, i + 1),
                }),
                whole == dug_plan(grid_rows(*old(matrix)), grid_width(*old(matrix)) as int, start, plan@, 0),
            decreases instruction.length - k,
        {
            let h = grid_num_rows(matrix);
            let width = grid_num_columns(matrix);
            if cur_pos.row < 0 || cur_pos.column < 0 || cur_pos.row as usize >= h || cur_pos.column as usize
                >= width {
                return false;
            }
            let next = match cur_pos.checked_move(instruction.direction, 1) {
                Some(next) => next,
                None => {
                    return false;
                },
            };
            let _ = grid_set(matrix, cur_pos.row as usize, cur_pos.column as usize, POUND);
            cur_pos = next;
            k = k + 1;
        }
        i = i + 1;
    }
    true
}

/// Floods the inside along the plan. The grid must not have more cells
/// than `usize` counts.
fn fill_plan(matrix: &mut Array2D<u8>, start: Position, plan: &[Instruction], inside_on_right: bool) -> (ok: bool)
    requires
        (grid_height(*old(matrix)) * grid_width(*old(matrix))) <= usize::MAX,
    ensures
        grid_width(*final(matrix)) == grid_width(*old(matrix)),
        grid_height(*final(matrix)) == grid_height(*old(matrix)),
        match filled_plan(
            grid_rows(*old(matrix)),
            grid_width(*old(matrix)) as int,
            start,
            plan@,
            inside_on_right,
            0,
        ) {
            None => !ok,
            Some((rows, _)) => ok && grid_rows(*final(matrix)) == rows,
        },
{
    let ghost w = grid_width(*matrix) as int;
    let ghost whole = filled_plan(grid_rows(*matrix), w, start, plan@, inside_on_right, 0);
    let mut cur_pos = start;
    let mut i: usize = 0;
    while i < plan.len()
        invariant
            i <= plan.len(),
            w == grid_width(*matrix),
            grid_width(*matrix) == grid_width(*old(matrix)),
            grid_height(*matrix) == grid_height(*old(matrix)),
            (grid_height(*matrix) * grid_width(*matrix)) <= usize::MAX,
            whole == filled_plan(
                grid_rows(*old(matrix)),
                grid_width(*old(matrix)) as int,
                start,
                plan@,
                inside_on_right,
                0,
            ),
            whole == filled_plan(grid_rows(*matrix), w, cur_pos, plan@, inside_on_right, i as int),
        decreases plan.len() - i,
    {
        let instruction = plan[i];
        let ghost step = filled(
            grid_rows(*matrix),
            w,
            cur_pos,
            instruction.direction,
            inside_on_right,
            instruction.length as nat,
        );
        let toward = if inside_on_right {
            instruction.direction.turn_right()
        } else {
            instruction.direction.turn_left()
        };
        let mut k: usize = 0;
        while k < instruction.length
            invariant
                k <= instruction.length,
                w == grid_width(*matrix),
                grid_width(*matrix) == grid_width(*old(matrix)),
                grid_height(*matrix) == grid_height(*old(matrix)),
                (grid_height(*matrix) * grid_width(*matrix)) <= usize::MAX,
                toward == inward(instruction.direction, inside_on_right),
                step == filled(
                    grid_rows(*matrix),
                    w,
                    cur_pos,
                    instruction.direction,
                    inside_on_right,
                    (instruction.length - k) as nat,
                ),
                whole == (match step {
                    None => None,
                    Some((next_rows, next)) => filled_plan(next_rows, w, next, plan@, inside_on_right, i + 1),
                }),
                whole == filled_plan(
                    grid_rows(*old(matrix)),
                    grid_width(*old(matrix)) as int,
                    start,
                    plan@,
                    inside_on_right,
                    0,
                ),
            decreases instruction.length - k,
        {
            let seed = match cur_pos.checked_move(toward, 1) {
                Some(seed) => seed,
                None => {
                    return false;
                },
            };
            let next = match cur_pos.checked_move(instruction.direction, 1) {
                Some(next) => next,
                None => {
                    return false;
                },
            };
            flood_fill_with_pound(matrix, seed);
            cur_pos = next;
            k = k + 1;
        }
        i = i + 1;
    }
    true
}

/// Counts the cells that are dug out.
fn count_pounds(matrix: &Array2D<u8>) -> (count: usize)
    requires
        (grid_height(*matrix) * grid_width(*matrix)) <= usize::MAX,
    ensures
        count == pounds(grid_rows(*matrix), grid_width(*matrix) as int, grid_height(*matrix) as int),
{
    let h = grid_num_rows(matrix);
    let w = grid_num_columns(matrix);
    let ghost rows = grid_rows(*matrix);
    let mut count: usize = 0;
    let mut row: usize = 0;
    while row < h
        invariant
            row <= h,
            h == grid_height(*matrix),
            w == grid_width(*matrix),
            rows == grid_rows(*matrix),
            rectangular(rows, w as nat),
            h * w <= usize::MAX,
            count == pounds(rows, w as int, row as int),
        decreases h - row,
    {
        let mut in_row: usize = 0;
        let mut column: usize = 0;
        while column < w
            invariant
                column <= w,
                row < h,
                h == grid_height(*matrix),
                w == grid_width(*matrix),
                rows == grid_rows(*matrix),
                rectangular(rows, w as nat),
                in_row == pounds_in(rows[row as int], column as int),
                in_row <= column,
            decreases w - column,
        {
            if grid_get(matrix, row, column).unwrap() == POUND {
                in_row = in_row + 1;
            }
            column = column + 1;
        }
        proof {
            lemma_pounds_bound(rows, w as int, row as int);
            lemma_pounds_bound(rows, w as int, row + 1);
            assert((row + 1) * w <= h * w) by (nonlinear_arith)
                requires
                    row + 1 <= h,
                    w >= 0,
            ;
        }
        count = count + in_row;
        row = row + 1;
    }
    count
}

/// The number of cells of the lagoon that the plan digs.
pub fn part1(puzzle_input: &[Instruction]) -> (r: Option<usize>)
    ensures
        r == lagoon_size(puzzle_input@),
{
    if puzzle_input.len() == 0 {
        return None;
    }
    let l = lay_out(puzzle_input, puzzle_input.len() - 1)?;
    let h128 = l.max_row as i128 - l.min_row as i128 + 1;
    let w128 = l.max_column as i128 - l.min_column as i128 + 1;
    if h128 > isize::MAX as i128 || w128 > isize::MAX as i128 {
        return None;
    }
    let num_rows = h128 as usize;
    let num_columns = w128 as usize;
    let cells = match (num_rows as u128).checked_mul(num_columns as u128) {
        Some(cells) => cells,
        None => {
            assert(false) by {
                assert(num_rows * num_columns <= 0xffff_ffff_ffff_ffff * 0xffff_ffff_ffff_ffff) by (nonlinear_arith)
                    requires
                        num_rows <= 0xffff_ffff_ffff_ffff,
                        num_columns <= 0xffff_ffff_ffff_ffff,
                ;
            }
            return None;
        },
    };
    if cells > usize::MAX as u128 || l.min_row == isize::MIN || l.min_column == isize::MIN {
        return None;
    }
    let mut matrix = grid_filled_with(DOT, num_rows, num_columns);
    assert(grid_rows(matrix) =~= blank(num_rows as int, num_columns as int));
    let start_pos = Position { row: -l.min_row, column: -l.min_column };
    if !dig_plan(&mut matrix, start_pos, puzzle_input) {
        return None;
    }
    let inside_on_right = l.rights > l.lefts;
    if !fill_plan(&mut matrix, start_pos, puzzle_input, inside_on_right) {
        return None;
    }
    Some(count_pounds(&matrix))
}

} // verus!
