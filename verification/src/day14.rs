//! A platform of round and cube-shaped rocks that is tilted in four
//! directions.

use crate::grid::{
    cell, grid_clone, grid_eq, grid_from_rows, grid_get, grid_height, grid_num_columns, grid_num_rows,
    grid_rows, grid_set, grid_width, in_grid, rectangular, row_views,
};
use crate::text::{lines, lines_of, to_vec, views};
use array2d::Array2D;
use vstd::prelude::*;
use vstd::string::StringSliceAdditionalSpecFns;

verus! {

/// What a cell of the platform holds.
#[derive(Debug, Clone, Copy, PartialEq, Eq, Structural)]
pub enum Cell {
    Round,
    Cube,
    Empty,
}

/// The byte `O`, a round rock.
pub const ROUND: u8 = 79;

/// The byte `#`, a cube-shaped rock.
pub const CUBE: u8 = 35;

/// The byte `.`, an empty cell.
pub const EMPTY: u8 = 46;

impl Cell {
    /// The cell that a byte stands for.
    pub open spec fn of(c: u8) -> Option<Cell> {
        if c == ROUND {
            Some(Cell::Round)
        } else if c == CUBE {
            Some(Cell::Cube)
        } else if c == EMPTY {
            Some(Cell::Empty)
        } else {
            None
        }
    }

    /// Reads a cell from its byte: `O`, `#` or `.`.
    pub fn from_u8(c: u8) -> (r: Option<Cell>)
        ensures
            r == Cell::of(c),
    {
        if c == ROUND {
            Some(Cell::Round)
        } else if c == CUBE {
            Some(Cell::Cube)
        } else if c == EMPTY {
            Some(Cell::Empty)
        } else {
            None
        }
    }
}

/// A direction in which the platform can be tilted, in the order of a spin
/// cycle.
#[derive(Debug, Clone, Copy, PartialEq, Eq, Structural)]
pub enum Direction {
    North,
    West,
    South,
    East,
}

/// Whether every byte of `s` stands for a cell.
pub open spec fn valid_line(s: Seq<u8>) -> bool {
    forall|i: int| 0 <= i < s.len() ==> Cell::of(#[trigger] s[i]) is Some
}

/// Whether every byte of every row stands for a cell.
pub open spec fn valid_rows(rows: Seq<Seq<u8>>) -> bool {
    forall|r: int| 0 <= r < rows.len() ==> valid_line(#[trigger] rows[r])
}

/// The start of the stretch between cubes that cell `i` lies in, or that a
/// cell at `i` would begin.
pub open spec fn seg_start(s: Seq<u8>, i: int) -> int
    decreases i,
{
    if i <= 0 {
        0
    } else if s[i - 1] == CUBE {
        i
    } else {
        seg_start(s, i - 1)
    }
}

/// The index of the first cube at or after `i`, or the length of the line.
pub open spec fn seg_end(s: Seq<u8>, i: int) -> int
    decreases s.len() - i,
{
    if i >= s.len() {
        s.len() as int
    } else if s[i] == CUBE {
        i
    } else {
        seg_end(s, i + 1)
    }
}

/// The number of round rocks from `a` up to, not including, `b`.
pub open spec fn rounds(s: Seq<u8>, a: int, b: int) -> int
    decreases b - a,
{
    if b <= a {
        0
    } else if s[b - 1] == ROUND {
        rounds(s, a, b - 1) + 1
    } else {
        rounds(s, a, b - 1)
    }
}

/// What cell `i` holds after the round rocks have rolled towards the end of
/// the line: cubes stay, and in each stretch between cubes the round rocks
/// fill its last cells.
pub open spec fn settled_cell(s: Seq<u8>, i: int) -> u8 {
    if s[i] == CUBE {
        CUBE
    } else if i >= seg_end(s, i) - rounds(s, seg_start(s, i), seg_end(s, i)) {
        ROUND
    } else {
        EMPTY
    }
}

/// The line after the round rocks have rolled towards its end.
pub open spec fn settled(s: Seq<u8>) -> Seq<u8> {
    Seq::new(s.len(), |i: int| settled_cell(s, i))
}

/// The number of lines that a tilt works on: columns for north and south,
/// rows for west and east.
pub open spec fn line_count(h: int, w: int, direction: Direction) -> int {
    match direction {
        Direction::North | Direction::South => w,
        Direction::East | Direction::West => h,
    }
}

/// The length of each of those lines.
pub open spec fn line_len(h: int, w: int, direction: Direction) -> int {
    match direction {
        Direction::North | Direction::South => h,
        Direction::East | Direction::West => w,
    }
}

/// The row of the `t`-th cell of line `line`, counted so that the rocks roll
/// towards the last cell.
pub open spec fn scan_row(h: int, w: int, direction: Direction, line: int, t: int) -> int {
    match direction {
        Direction::North => h - 1 - t,
        Direction::South => t,
        Direction::East | Direction::West => line,
    }
}

/// The column of the `t`-th cell of line `line`.
pub open spec fn scan_col(h: int, w: int, direction: Direction, line: int, t: int) -> int {
    match direction {
        Direction::North | Direction::South => line,
        Direction::West => w - 1 - t,
        Direction::East => t,
    }
}

/// Line `line` of the rows in the direction of the tilt.
pub open spec fn line_of(rows: Seq<Seq<u8>>, w: int, direction: Direction, line: int) -> Seq<u8> {
    Seq::new(
        line_len(rows.len() as int, w, direction) as nat,
        |t: int|
            rows[scan_row(rows.len() as int, w, direction, line, t)][scan_col(
                rows.len() as int,
                w,
                direction,
                line,
                t,
            )],
    )
}

/// The line and the place in it of the cell at `(r, c)`.
pub open spec fn line_at(h: int, w: int, direction: Direction, r: int, c: int) -> (int, int) {
    match direction {
        Direction::North => (c, h - 1 - r),
        Direction::South => (c, r),
        Direction::West => (r, w - 1 - c),
        Direction::East => (r, c),
    }
}

/// The rows after the platform has been tilted: every line has settled.
pub open spec fn tilted(rows: Seq<Seq<u8>>, w: int, direction: Direction) -> Seq<Seq<u8>> {
    Seq::new(
        rows.len(),
        |r: int|
            Seq::new(
                w as nat,
                |c: int|
                    {
                        let (line, t) = line_at(rows.len() as int, w, direction, r, c);
                        settled(line_of(rows, w, direction, line))[t]
                    },
            ),
    )
}

/// Within a stretch without cubes that begins at `a`, every cell has `a` as
/// the start of its stretch.
pub proof fn lemma_seg_start(s: Seq<u8>, a: int, i: int)
    requires
        0 <= a <= i <= s.len(),
        a == 0 || s[a - 1] == CUBE,
        forall|k: int| a <= k < i ==> s[k] != CUBE,
    ensures
        seg_start(s, i) == a,
    decreases i - a,
{
    if i > a {
        lemma_seg_start(s, a, i - 1);
    }
}

/// Within a stretch without cubes that ends at `b`, every cell has `b` as
/// the end of its stretch.
pub proof fn lemma_seg_end(s: Seq<u8>, i: int, b: int)
    requires
        0 <= i <= b <= s.len(),
        b == s.len() || s[b] == CUBE,
        forall|k: int| i <= k < b ==> s[k] != CUBE,
    ensures
        seg_end(s, i) == b,
    decreases b - i,
{
    if i < b {
        lemma_seg_end(s, i + 1, b);
    }
}

/// There are at most as many round rocks in a stretch as cells.
pub proof fn lemma_rounds_bound(s: Seq<u8>, a: int, b: int)
    requires
        a <= b,
    ensures
        0 <= rounds(s, a, b) <= b - a,
    decreases b - a,
{
    if a < b {
        lemma_rounds_bound(s, a, b - 1);
    }
}

/// The platform.
pub struct Platform(pub Array2D<u8>);

impl Platform {
    /// The rows of the platform, north to south.
    pub open spec fn rows(&self) -> Seq<Seq<u8>> {
        grid_rows(self.0)
    }

    /// The number of columns.
    pub open spec fn width(&self) -> int {
        grid_width(self.0) as int
    }

    /// Whether every cell holds the byte of a cell.
    pub open spec fn wf(&self) -> bool {
        rectangular(self.rows(), self.width() as nat) && valid_rows(self.rows())
    }
}

/// The row and the column of the `t`-th cell of a line.
fn scan_position(h: usize, w: usize, direction: Direction, line: usize, t: usize) -> (p: (usize, usize))
    requires
        line < line_count(h as int, w as int, direction),
        t < line_len(h as int, w as int, direction),
    ensures
        p.0 == scan_row(h as int, w as int, direction, line as int, t as int),
        p.1 == scan_col(h as int, w as int, direction, line as int, t as int),
        p.0 < h,
        p.1 < w,
{
    match direction {
        Direction::North => (h - 1 - t, line),
        Direction::South => (t, line),
        Direction::West => (line, w - 1 - t),
        Direction::East => (line, t),
    }
}

/// Reads the `t`-th cell of a line.
fn get_at(grid: &Array2D<u8>, direction: Direction, line: usize, t: usize) -> (c: u8)
    requires
        rectangular(grid_rows(*grid), grid_width(*grid)),
        line < line_count(grid_height(*grid) as int, grid_width(*grid) as int, direction),
        t < line_len(grid_height(*grid) as int, grid_width(*grid) as int, direction),
    ensures
        c == line_of(grid_rows(*grid), grid_width(*grid) as int, direction, line as int)[t as int],
{
    let h = grid_num_rows(grid);
    let w = grid_num_columns(grid);
    let (row, column) = scan_position(h, w, direction, line, t);
    grid_get(grid, row, column).unwrap()
}

/// Writes the `t`-th cell of a line.
fn set_at(grid: &mut Array2D<u8>, direction: Direction, line: usize, t: usize, value: u8)
    requires
        rectangular(grid_rows(*old(grid)), grid_width(*old(grid))),
        line < line_count(grid_height(*old(grid)) as int, grid_width(*old(grid)) as int, direction),
        t < line_len(grid_height(*old(grid)) as int, grid_width(*old(grid)) as int, direction),
    ensures
        grid_width(*final(grid)) == grid_width(*old(grid)),
        grid_height(*final(grid)) == grid_height(*old(grid)),
        rectangular(grid_rows(*final(grid)), grid_width(*final(grid))),
        line_of(grid_rows(*final(grid)), grid_width(*final(grid)) as int, direction, line as int) == line_of(
            grid_rows(*old(grid)),
            grid_width(*old(grid)) as int,
            direction,
            line as int,
        ).update(t as int, value),
        forall|other: int|
            0 <= other < line_count(grid_height(*old(grid)) as int, grid_width(*old(grid)) as int, direction)
                && other != line ==> #[trigger] line_of(
                grid_rows(*final(grid)),
                grid_width(*final(grid)) as int,
                direction,
                other,
            ) == line_of(grid_rows(*old(grid)), grid_width(*old(grid)) as int, direction, other),
{
    let h = grid_num_rows(grid);
    let w = grid_num_columns(grid);
    let (row, column) = scan_position(h, w, direction, line, t);
    let ghost before = grid_rows(*grid);
    let _ = grid_set(grid, row, column, value);
    proof {
        let after = grid_rows(*grid);
        let wi = w as int;
        assert(after == before.update(row as int, before[row as int].update(column as int, value)));
        assert(line_of(after, wi, direction, line as int) =~= line_of(before, wi, direction, line as int).update(
            t as int,
            value,
        ));
        assert forall|other: int|
            0 <= other < line_count(h as int, wi, direction) && other != line implies #[trigger] line_of(
            after,
            wi,
            direction,
            other,
        ) == line_of(before, wi, direction, other) by {
            assert(line_of(after, wi, direction, other) =~= line_of(before, wi, direction, other));
        }
    }
}

/// Lets the round rocks of one line roll towards its end.
fn tilt_line(grid: &mut Array2D<u8>, direction: Direction, line: usize)
    requires
        rectangular(grid_rows(*old(grid)), grid_width(*old(grid))),
        line < line_count(grid_height(*old(grid)) as int, grid_width(*old(grid)) as int, direction),
    ensures
        grid_width(*final(grid)) == grid_width(*old(grid)),
        grid_height(*final(grid)) == grid_height(*old(grid)),
        rectangular(grid_rows(*final(grid)), grid_width(*final(grid))),
        line_of(grid_rows(*final(grid)), grid_width(*final(grid)) as int, direction, line as int) == settled(
            line_of(grid_rows(*old(grid)), grid_width(*old(grid)) as int, direction, line as int),
        ),
        forall|other: int|
            0 <= other < line_count(grid_height(*old(grid)) as int, grid_width(*old(grid)) as int, direction)
                && other != line ==> #[trigger] line_of(
                grid_rows(*final(grid)),
                grid_width(*final(grid)) as int,
                direction,
                other,
            ) == line_of(grid_rows(*old(grid)), grid_width(*old(grid)) as int, direction, other),
{
    let h = grid_num_rows(grid);
    let w = grid_num_columns(grid);
    let n = match direction {
        Direction::North | Direction::South => h,
        Direction::East | Direction::West => w,
    };
    let ghost wi = w as int;
    let ghost count = line_count(h as int, wi, direction);
    let ghost s = line_of(grid_rows(*grid), wi, direction, line as int);
    let ghost mut a: int = 0;
    let mut num_round: usize = 0;
    let mut t: usize = 0;
    while t < n
        invariant
            t <= n,
            n == s.len(),
            n == line_len(h as int, wi, direction),
            count == line_count(h as int, wi, direction),
            line < count,
            wi == w,
            grid_width(*grid) == w,
            grid_height(*grid) == h,
            rectangular(grid_rows(*grid), grid_width(*grid)),
            s == line_of(grid_rows(*old(grid)), wi, direction, line as int),
            wi == grid_width(*old(grid)),
            h == grid_height(*old(grid)),
            0 <= a <= t,
            a == 0 || s[a - 1] == CUBE,
            forall|k: int| a <= k < t ==> s[k] != CUBE,
            num_round == rounds(s, a, t as int),
            forall|i: int|
                0 <= i < a ==> line_of(grid_rows(*grid), wi, direction, line as int)[i] == settled_cell(s, i),
            forall|i: int| a <= i < t ==> line_of(grid_rows(*grid), wi, direction, line as int)[i] == EMPTY,
            forall|i: int| t <= i < n ==> line_of(grid_rows(*grid), wi, direction, line as int)[i] == s[i],
            forall|other: int|
                0 <= other < count && other != line ==> #[trigger] line_of(
                    grid_rows(*grid),
                    wi,
                    direction,
                    other,
                ) == line_of(grid_rows(*old(grid)), wi, direction, other),
        decreases n - t,
    {
        proof {
            lemma_rounds_bound(s, a, t as int);
        }
        let c = get_at(grid, direction, line, t);
        if c == ROUND {
            num_round = num_round + 1;
            set_at(grid, direction, line, t, EMPTY);
        } else if c == CUBE {
            place_rounds(grid, direction, line, t - num_round, t);
            proof {
                assert forall|i: int| 0 <= i < t + 1 implies line_of(
                    grid_rows(*grid),
                    wi,
                    direction,
                    line as int,
                )[i] == settled_cell(s, i) by {
                    if a <= i < t {
                        lemma_seg_start(s, a, i);
                        lemma_seg_end(s, i, t as int);
                    }
                }
                a = t + 1;
            }
            num_round = 0;
        } else {
            set_at(grid, direction, line, t, EMPTY);
        }
        t = t + 1;
    }
    proof {
        lemma_rounds_bound(s, a, n as int);
    }
    place_rounds(grid, direction, line, n - num_round, n);
    proof {
        let cur = line_of(grid_rows(*grid), wi, direction, line as int);
        assert forall|i: int| 0 <= i < n implies cur[i] == settled_cell(s, i) by {
            if a <= i {
                lemma_seg_start(s, a, i);
                lemma_seg_end(s, i, n as int);
            }
        }
        assert(cur =~= settled(s));
    }
}

/// Puts round rocks into the cells from `from` up to, not including, `to`.
fn place_rounds(grid: &mut Array2D<u8>, direction: Direction, line: usize, from: usize, to: usize)
    requires
        rectangular(grid_rows(*old(grid)), grid_width(*old(grid))),
        line < line_count(grid_height(*old(grid)) as int, grid_width(*old(grid)) as int, direction),
        from <= to <= line_len(grid_height(*old(grid)) as int, grid_width(*old(grid)) as int, direction),
    ensures
        grid_width(*final(grid)) == grid_width(*old(grid)),
        grid_height(*final(grid)) == grid_height(*old(grid)),
        rectangular(grid_rows(*final(grid)), grid_width(*final(grid))),
        line_of(grid_rows(*final(grid)), grid_width(*final(grid)) as int, direction, line as int).len()
            == line_of(grid_rows(*old(grid)), grid_width(*old(grid)) as int, direction, line as int).len(),
        forall|i: int|
            0 <= i < line_len(grid_height(*old(grid)) as int, grid_width(*old(grid)) as int, direction)
                ==> line_of(grid_rows(*final(grid)), grid_width(*final(grid)) as int, direction, line as int)[i]
                == (if from <= i < to {
                ROUND
            } else {
                line_of(grid_rows(*old(grid)), grid_width(*old(grid)) as int, direction, line as int)[i]
            }),
        forall|other: int|
            0 <= other < line_count(grid_height(*old(grid)) as int, grid_width(*old(grid)) as int, direction)
                && other != line ==> #[trigger] line_of(
                grid_rows(*final(grid)),
                grid_width(*final(grid)) as int,
                direction,
                other,
            ) == line_of(grid_rows(*old(grid)), grid_width(*old(grid)) as int, direction, other),
{
    let ghost wi = grid_width(*grid) as int;
    let ghost h = grid_height(*grid) as int;
    let ghost before = line_of(grid_rows(*grid), wi, direction, line as int);
    let mut i: usize = from;
    while i < to
        invariant
            from <= i <= to,
            to <= line_len(h, wi, direction),
            line < line_count(h, wi, direction),
            wi == grid_width(*old(grid)),
            h == grid_height(*old(grid)),
            grid_width(*grid) == wi,
            grid_height(*grid) == h,
            rectangular(grid_rows(*grid), grid_width(*grid)),
            before == line_of(grid_rows(*old(grid)), wi, direction, line as int),
            line_of(grid_rows(*grid), wi, direction, line as int).len() == before.len(),
            forall|k: int|
                0 <= k < line_len(h, wi, direction) ==> line_of(grid_rows(*grid), wi, direction, line as int)[k]
                    == (if from <= k < i {
                    ROUND
                } else {
                    before[k]
                }),
            forall|other: int|
                0 <= other < line_count(h, wi, direction) && other != line ==> #[trigger] line_of(
                    grid_rows(*grid),
                    wi,
                    direction,
                    other,
                ) == line_of(grid_rows(*old(grid)), wi, direction, other),
        decreases to - i,
    {
        set_at(grid, direction, line, i, ROUND);
        i = i + 1;
    }
}

/// Two grids of one size are the same when all their lines in some direction
/// are.
pub proof fn lemma_lines_determine(a: Seq<Seq<u8>>, b: Seq<Seq<u8>>, w: int, direction: Direction)
    requires
        0 <= w,
        a.len() == b.len(),
        rectangular(a, w as nat),
        rectangular(b, w as nat),
        forall|line: int|
            0 <= line < line_count(a.len() as int, w, direction) ==> #[trigger] line_of(a, w, direction, line)
                == line_of(b, w, direction, line),
    ensures
        a == b,
{
    let h = a.len() as int;
    assert forall|r: int| 0 <= r < h implies a[r] == b[r] by {
        assert forall|c: int| 0 <= c < w implies a[r][c] == b[r][c] by {
            let (line, t) = line_at(h, w, direction, r, c);
            assert(line_of(a, w, direction, line)[t] == a[r][c]);
            assert(line_of(b, w, direction, line)[t] == b[r][c]);
        }
        assert(a[r] =~= b[r]);
    }
    assert(a =~= b);
}

/// The lines of the tilted rows are the settled lines of the rows.
pub proof fn lemma_tilted_lines(rows: Seq<Seq<u8>>, w: int, direction: Direction, line: int)
    requires
        0 <= w,
        rectangular(rows, w as nat),
        0 <= line < line_count(rows.len() as int, w, direction),
    ensures
        line_of(tilted(rows, w, direction), w, direction, line) == settled(line_of(rows, w, direction, line)),
{
    let h = rows.len() as int;
    let out = tilted(rows, w, direction);
    let lhs = line_of(out, w, direction, line);
    let rhs = settled(line_of(rows, w, direction, line));
    assert forall|t: int| 0 <= t < lhs.len() implies lhs[t] == rhs[t] by {
        let r = scan_row(h, w, direction, line, t);
        let c = scan_col(h, w, direction, line, t);
        assert(line_at(h, w, direction, r, c) == (line, t));
        assert(out[r][c] == rhs[t]);
    }
    assert(lhs =~= rhs);
}

impl Platform {
    /// Tilts the platform: all round rocks roll as far as they can in the
    /// given direction.
    pub fn tilt(&mut self, direction: Direction)
        ensures
            final(self).rows() == tilted(old(self).rows(), old(self).width(), direction),
            final(self).width() == old(self).width(),
            rectangular(final(self).rows(), final(self).width() as nat),
    {
        let h = grid_num_rows(&self.0);
        let w = grid_num_columns(&self.0);
        let count = match direction {
            Direction::North | Direction::South => w,
            Direction::East | Direction::West => h,
        };
        let ghost before = grid_rows(self.0);
        let ghost wi = w as int;
        let mut line: usize = 0;
        while line < count
            invariant
                line <= count,
                count == line_count(h as int, wi, direction),
                before == old(self).rows(),
                wi == old(self).width(),
                wi == w,
                h == before.len(),
                grid_width(self.0) == w,
                grid_height(self.0) == h,
                rectangular(grid_rows(self.0), grid_width(self.0)),
                rectangular(before, wi as nat),
                forall|l: int|
                    0 <= l < line ==> #[trigger] line_of(grid_rows(self.0), wi, direction, l) == settled(
                        line_of(before, wi, direction, l),
                    ),
                forall|l: int|
                    line <= l < count ==> #[trigger] line_of(grid_rows(self.0), wi, direction, l) == line_of(
                        before,
                        wi,
                        direction,
                        l,
                    ),
            decreases count - line,
        {
            tilt_line(&mut self.0, direction, line);
            line = line + 1;
        }
        proof {
            let out = tilted(before, wi, direction);
            assert(rectangular(out, wi as nat));
            assert forall|l: int| 0 <= l < count implies #[trigger] line_of(
                grid_rows(self.0),
                wi,
                direction,
                l,
            ) == line_of(out, wi, direction, l) by {
                lemma_tilted_lines(before, wi, direction, l);
            }
            lemma_lines_determine(grid_rows(self.0), out, wi, direction);
        }
    }
}

/// Why a text is no platform.
#[derive(Debug, Clone, Copy, PartialEq, Eq, Structural)]
pub enum PlatformError {
    /// A byte stands for no cell.
    UnknownCell,
    /// The lines are not all of one length.
    Ragged,
}

/// Whether all rows are as long as the first.
pub open spec fn even_rows(rows: Seq<Seq<u8>>) -> bool {
    forall|i: int| 0 <= i < rows.len() ==> (#[trigger] rows[i]).len() == rows[0].len()
}

/// The rows of the platform that a text describes, one per line.
pub open spec fn platform_of(text: Seq<u8>) -> Result<Seq<Seq<u8>>, PlatformError> {
    let ls = lines_of(text);
    if !valid_rows(ls) {
        Err(PlatformError::UnknownCell)
    } else if !even_rows(ls) {
        Err(PlatformError::Ragged)
    } else {
        Ok(ls)
    }
}

/// Tells whether every byte of `s` stands for a cell.
fn check_line(s: &[u8]) -> (b: bool)
    ensures
        b == valid_line(s@),
{
    let mut i: usize = 0;
    while i < s.len()
        invariant
            i <= s.len(),
            forall|k: int| 0 <= k < i ==> Cell::of(#[trigger] s@[k]) is Some,
        decreases s.len() - i,
    {
        if Cell::from_u8(s[i]).is_none() {
            return false;
        }
        i = i + 1;
    }
    true
}

impl Platform {
    /// Reads a platform, one row per line.
    pub fn try_from(input: &str) -> (r: Result<Platform, PlatformError>)
        ensures
            match r {
                Ok(platform) => platform_of(input.spec_bytes()) == Ok::<Seq<Seq<u8>>, PlatformError>(
                    platform.rows(),
                ) && platform.wf(),
                Err(e) => platform_of(input.spec_bytes()) == Err::<Seq<Seq<u8>>, PlatformError>(e),
            },
    {
        let ls = lines(input.as_bytes());
        let ghost all = lines_of(input.spec_bytes());
        let mut rows: Vec<Vec<u8>> = Vec::new();
        let mut i: usize = 0;
        assert(row_views(rows@) =~= all.take(0));
        while i < ls.len()
            invariant
                i <= ls.len(),
                all == views(ls@),
                all == lines_of(input.spec_bytes()),
                row_views(rows@) == all.take(i as int),
                forall|k: int| 0 <= k < i ==> valid_line(#[trigger] all[k]),
            decreases ls.len() - i,
        {
            assert(all[i as int] == ls@[i as int]@);
            if !check_line(ls[i]) {
                return Err(PlatformError::UnknownCell);
            }
            let row = to_vec(ls[i]);
            proof {
                assert(row_views(rows@.push(row)) =~= row_views(rows@).push(row@));
                assert(all.take(i + 1) =~= all.take(i as int).push(all[i as int]));
            }
            rows.push(row);
            i = i + 1;
        }
        assert(all.take(i as int) =~= all);
        proof {
            assert forall|k: int| 0 <= k < rows@.len() implies (#[trigger] rows@[k])@.len() == all[k].len() by {
                assert(row_views(rows@)[k] == rows@[k]@);
            }
            if rows@.len() > 0 {
                assert(row_views(rows@)[0] == rows@[0]@);
            }
        }
        match grid_from_rows(rows.as_slice()) {
            Ok(grid) => Ok(Platform(grid)),
            Err(_) => Err(PlatformError::Ragged),
        }
    }
}

/// The load on the north support beams of the first `n` rows: each round
/// rock weighs as many units as there are rows from it to the south edge.
pub open spec fn load(rows: Seq<Seq<u8>>, n: int) -> nat
    decreases n,
{
    if n <= 0 {
        0
    } else {
        (load(rows, n - 1) + (rows.len() - (n - 1)) * rounds(rows[n - 1], 0, rows[n - 1].len() as int)) as nat
    }
}

/// The load of more rows is at least the load of fewer.
pub proof fn lemma_load_grows(rows: Seq<Seq<u8>>, i: int, n: int)
    requires
        0 <= i <= n <= rows.len(),
    ensures
        load(rows, i) <= load(rows, n),
        load(rows, n) == load(rows, n - 1) + (rows.len() - (n - 1)) * rounds(
            rows[n - 1],
            0,
            rows[n - 1].len() as int,
        ) || n == 0,
    decreases n - i,
{
    if n > 0 {
        lemma_rounds_bound(rows[n - 1], 0, rows[n - 1].len() as int);
        let weight = rows.len() - (n - 1);
        let count = rounds(rows[n - 1], 0, rows[n - 1].len() as int);
        assert(weight * count >= 0) by (nonlinear_arith)
            requires
                weight >= 0,
                count >= 0,
        ;
    }
    if i < n {
        lemma_load_grows(rows, i, n - 1);
    }
}

/// The total load as far as it fits in `usize`.
pub open spec fn total_load_of(rows: Seq<Seq<u8>>) -> Option<usize> {
    if load(rows, rows.len() as int) <= usize::MAX {
        Some(load(rows, rows.len() as int) as usize)
    } else {
        None
    }
}

impl Platform {
    /// The load on the north support beams, or nothing when it does not fit
    /// in `usize`.
    pub fn total_load(&self) -> (r: Option<usize>)
        ensures
            r == total_load_of(self.rows()),
    {
        let h = grid_num_rows(&self.0);
        let w = grid_num_columns(&self.0);
        let ghost rows = self.rows();
        let mut total: usize = 0;
        let mut row: usize = 0;
        while row < h
            invariant
                row <= h,
                h == rows.len(),
                rows == grid_rows(self.0),
                w == grid_width(self.0),
                rectangular(rows, w as nat),
                total == load(rows, row as int),
            decreases h - row,
        {
            let mut count: usize = 0;
            let mut column: usize = 0;
            while column < w
                invariant
                    column <= w,
                    row < h,
                    h == rows.len(),
                    rows == grid_rows(self.0),
                    w == grid_width(self.0),
                    rectangular(rows, w as nat),
                    count == rounds(rows[row as int], 0, column as int),
                    count <= column,
                decreases w - column,
            {
                if grid_get(&self.0, row, column).unwrap() == ROUND {
                    count = count + 1;
                }
                column = column + 1;
            }
            proof {
                lemma_load_grows(rows, row + 1, h as int);
            }
            let step = match (h - row).checked_mul(count) {
                Some(weight) => total.checked_add(weight),
                None => None,
            };
            match step {
                Some(sum) => {
                    total = sum;
                },
                None => {
                    return None;
                },
            }
            row = row + 1;
        }
        Some(total)
    }
}

/// The load after the platform has been tilted north.
pub fn part1(platform: Platform) -> (r: Option<usize>)
    ensures
        r == total_load_of(tilted(platform.rows(), platform.width(), Direction::North)),
{
    let mut tilting = platform;
    tilting.tilt(Direction::North);
    tilting.total_load()
}

/// The number of tilts in a thousand million spin cycles.
pub const NUM_TILTS: usize = 4_000_000_000;

/// The direction of tilt number `t`, counted from 0: north, west, south,
/// east, and so on.
pub open spec fn direction_at(t: int) -> Direction {
    if t % 4 == 0 {
        Direction::North
    } else if t % 4 == 1 {
        Direction::West
    } else if t % 4 == 2 {
        Direction::South
    } else {
        Direction::East
    }
}

/// The rows after the first `t` tilts.
pub open spec fn after_tilts(rows: Seq<Seq<u8>>, w: int, t: int) -> Seq<Seq<u8>>
    decreases t,
{
    if t <= 0 {
        rows
    } else {
        tilted(after_tilts(rows, w, t - 1), w, direction_at(t - 1))
    }
}

/// Once the platform looks after `i` tilts as it did after `j`, with the
/// same direction next, it goes on as it did from `j`.
pub proof fn lemma_repeats(rows: Seq<Seq<u8>>, w: int, j: int, i: int, k: int)
    requires
        0 <= j <= i,
        0 <= k,
        i % 4 == j % 4,
        after_tilts(rows, w, j) == after_tilts(rows, w, i),
    ensures
        after_tilts(rows, w, j + k) == after_tilts(rows, w, i + k),
    decreases k,
{
    if k > 0 {
        lemma_repeats(rows, w, j, i, k - 1);
        assert(direction_at(j + k - 1) == direction_at(i + k - 1));
    }
}

/// With a period of `p` tilts from `j` on, whole periods can be left out.
pub proof fn lemma_skip_periods(rows: Seq<Seq<u8>>, w: int, j: int, p: int, q: int, rest: int)
    requires
        0 <= j,
        0 < p,
        p % 4 == 0,
        0 <= q,
        0 <= rest,
        after_tilts(rows, w, j) == after_tilts(rows, w, j + p),
    ensures
        after_tilts(rows, w, j + p + q * p + rest) == after_tilts(rows, w, j + p + rest),
    decreases q,
{
    if q > 0 {
        assert(q * p == (q - 1) * p + p) by (nonlinear_arith);
        assert((q - 1) * p >= 0) by (nonlinear_arith)
            requires
                q >= 1,
                p > 0,
        ;
        assert(q * p >= 0) by (nonlinear_arith)
            requires
                q >= 1,
                p > 0,
        ;
        lemma_repeats(rows, w, j, j + p, q * p + rest);
        lemma_skip_periods(rows, w, j, p, q - 1, rest);
    } else {
        assert(q * p == 0) by (nonlinear_arith)
            requires
                q == 0,
        ;
    }
}

/// The direction of tilt number `t`.
pub fn direction_of(t: usize) -> (d: Direction)
    ensures
        d == direction_at(t as int),
{
    let phase = t % 4;
    if phase == 0 {
        Direction::North
    } else if phase == 1 {
        Direction::West
    } else if phase == 2 {
        Direction::South
    } else {
        Direction::East
    }
}

/// Whether the state `j` of the history equals `grid` and had the same
/// direction next as tilt number `i` has.
pub open spec fn same_at(history: Seq<Array2D<u8>>, grid: Array2D<u8>, i: int, j: int) -> bool {
    j % 4 == i % 4 && grid_rows(history[j]) == grid_rows(grid) && grid_width(history[j]) == grid_width(grid)
}

/// Looks among the earlier states for the first that equals `grid` and had
/// the same direction next as tilt number `i` has.
fn find_same(history: &Vec<Array2D<u8>>, grid: &Array2D<u8>, i: usize) -> (r: Option<usize>)
    ensures
        r matches Some(j) ==> j < history@.len() && j % 4 == i % 4 && grid_rows(history@[j as int])
            == grid_rows(*grid),
        match r {
            Some(j) => j < history@.len() && same_at(history@, *grid, i as int, j as int) && forall|k: int|
                0 <= k < j ==> !same_at(history@, *grid, i as int, k),
            None => forall|k: int| 0 <= k < history@.len() ==> !same_at(history@, *grid, i as int, k),
        },
{
    let mut j: usize = 0;
    while j < history.len()
        invariant
            j <= history.len(),
            forall|k: int| 0 <= k < j ==> !same_at(history@, *grid, i as int, k),
        decreases history.len() - j,
    {
        if j % 4 == i % 4 && grid_eq(&history[j], grid) {
            return Some(j);
        }
        j = j + 1;
    }
    None
}

/// The load after a thousand million spin cycles of tilts north, west, south
/// and east. As soon as the platform looks as it did before with the same
/// direction next, the whole periods that remain are left out.
pub fn part2(platform: Platform) -> (r: Option<usize>)
    ensures
        r == total_load_of(after_tilts(platform.rows(), platform.width(), NUM_TILTS as int)),
{
    let ghost rows = platform.rows();
    let ghost w = platform.width();
    let mut spinning = platform;
    let mut history: Vec<Array2D<u8>> = Vec::new();
    let mut i: usize = 0;
    while i < NUM_TILTS
        invariant
            i <= NUM_TILTS,
            rows == platform.rows(),
            w == platform.width(),
            spinning.width() == w,
            spinning.rows() == after_tilts(rows, w, i as int),
            history@.len() == i,
            forall|k: int| 0 <= k < i ==> grid_rows(#[trigger] history@[k]) == after_tilts(rows, w, k),
        decreases NUM_TILTS - i,
    {
        match find_same(&history, &spinning.0, i) {
            Some(j) => {
                let period = i - j;
                let remaining = (NUM_TILTS - i) % period;
                let ghost whole = ((NUM_TILTS - i) / (period as int)) as int;
                proof {
                    vstd::arithmetic::div_mod::lemma_fundamental_div_mod((NUM_TILTS - i) as int, period as int);
                    assert(whole >= 0) by (nonlinear_arith)
                        requires
                            whole == (NUM_TILTS - i) / (period as int),
                            NUM_TILTS - i >= 0,
                            period > 0,
                    ;
                    assert(period as int * whole >= 0) by (nonlinear_arith)
                        requires
                            whole >= 0,
                            period > 0,
                    ;
                }
                let mut k: usize = 0;
                while k < remaining
                    invariant
                        k <= remaining,
                        i + remaining <= NUM_TILTS,
                        spinning.width() == w,
                        spinning.rows() == after_tilts(rows, w, i + k),
                    decreases remaining - k,
                {
                    spinning.tilt(direction_of(i + k));
                    k = k + 1;
                }
                proof {
                    assert(period as int * whole == whole * period) by (nonlinear_arith);
                    assert(period % 4 == 0);
                    lemma_skip_periods(rows, w, j as int, period as int, whole, remaining as int);
                }
                return spinning.total_load();
            },
            None => {
                history.push(grid_clone(&spinning.0));
            },
        }
        spinning.tilt(direction_of(i));
        i = i + 1;
    }
    spinning.total_load()
}

} // verus!
