//! Patterns of ash and rock with a line of reflection, and a smudge that
//! hides another.

use crate::grid::{
    cell, grid_clone, grid_from_rows, grid_get, grid_height, grid_num_columns, grid_num_rows, grid_rows,
    grid_set, grid_width, in_grid, rectangular, row_views,
};
use crate::text::{lines, lines_of, to_vec, views};
use array2d::Array2D;
use vstd::prelude::*;
use vstd::string::StringSliceAdditionalSpecFns;

verus! {

/// A cell of a pattern.
#[derive(Debug, Clone, Copy, PartialEq, Eq, Structural)]
pub enum Tile {
    Ash,
    Rock,
}

/// The byte `.`, ash.
pub const ASH: u8 = 46;

/// The byte `#`, rock.
pub const ROCK: u8 = 35;

impl Tile {
    /// The tile that a byte stands for.
    pub open spec fn of(c: u8) -> Option<Tile> {
        if c == ASH {
            Some(Tile::Ash)
        } else if c == ROCK {
            Some(Tile::Rock)
        } else {
            None
        }
    }

    /// Reads a tile from its byte: `.` or `#`.
    pub fn from_u8(c: u8) -> (r: Option<Tile>)
        ensures
            r == Tile::of(c),
    {
        if c == ASH {
            Some(Tile::Ash)
        } else if c == ROCK {
            Some(Tile::Rock)
        } else {
            None
        }
    }

    /// The other tile.
    pub open spec fn other(self) -> Tile {
        match self {
            Tile::Ash => Tile::Rock,
            Tile::Rock => Tile::Ash,
        }
    }

    pub fn switch_tile(&mut self)
        ensures
            *final(self) == old(self).other(),
    {
        *self = match self {
            Tile::Ash => Tile::Rock,
            Tile::Rock => Tile::Ash,
        };
    }
}

/// The byte of the other tile; a byte of neither tile becomes rock.
pub open spec fn switched(c: u8) -> u8 {
    if c == ROCK {
        ASH
    } else {
        ROCK
    }
}

/// Whether the sequence mirrors itself at `center`: going outwards from the
/// gap before `center`, the items agree until one side ends.
pub open spec fn mirrors(l: Seq<u64>, center: int) -> bool {
    forall|k: int|
        0 <= k && center - 1 - k >= 0 && center + k < l.len() ==> l[center - 1 - k] == #[trigger] l[center + k]
}

/// The least center from `from` on, other than `skip`, at which the
/// sequence mirrors itself, or nothing.
pub open spec fn center_from(l: Seq<u64>, skip: int, from: int) -> Option<usize>
    decreases l.len() - from,
{
    if from >= l.len() {
        None
    } else if from != skip && mirrors(l, from) {
        Some(from as usize)
    } else {
        center_from(l, skip, from + 1)
    }
}

/// Tells whether the sequence mirrors itself at `center`.
fn is_mirror(l: &[u64], center: usize) -> (b: bool)
    requires
        1 <= center < l@.len(),
    ensures
        b == mirrors(l@, center as int),
{
    let mut i: usize = center - 1;
    let mut j: usize = center;
    while l[i] == l[j]
        invariant
            i < center <= j < l@.len(),
            i + j == 2 * center - 1,
            forall|k: int| 0 <= k < j - center ==> l@[center - 1 - k] == #[trigger] l@[center + k],
        decreases i,
    {
        if i == 0 || j == l.len() - 1 {
            return true;
        }
        i = i - 1;
        j = j + 1;
    }
    proof {
        let k = j - center;
        assert(l@[center - 1 - k] != l@[center + k]);
    }
    false
}

/// The least place, counted in items before it, at which the sequence
/// mirrors itself.
pub fn get_center_of_symmetry(l: &[u64]) -> (r: Option<usize>)
    ensures
        r == center_from(l@, 0, 1),
{
    get_new_center_of_symmetry(l, 0)
}

/// The least place other than `old` at which the sequence mirrors itself.
pub fn get_new_center_of_symmetry(l: &[u64], old: usize) -> (r: Option<usize>)
    ensures
        r == center_from(l@, old as int, 1),
{
    let mut center: usize = 1;
    while center < l.len()
        invariant
            1 <= center,
            center_from(l@, old as int, 1) == center_from(l@, old as int, center as int),
        decreases l.len() - center,
    {
        if center != old && is_mirror(l, center) {
            return Some(center);
        }
        center = center + 1;
    }
    None
}

/// A line of reflection: between two columns or between two rows, given by
/// the number of columns or rows before it.
#[derive(Debug, Clone, Copy, PartialEq, Eq, Structural)]
pub enum ReflectionLine {
    Vertical(usize),
    Horizontal(usize),
}

impl ReflectionLine {
    /// The score of the line: the columns before it, or a hundred times the
    /// rows before it.
    pub open spec fn score(self) -> int {
        match self {
            ReflectionLine::Vertical(num_cols) => num_cols as int,
            ReflectionLine::Horizontal(num_rows) => num_rows * 100,
        }
    }

    /// The score of the line, or nothing when it does not fit in `usize`.
    pub fn get_score(&self) -> (r: Option<usize>)
        ensures
            r == (if self.score() <= usize::MAX {
                Some(self.score() as usize)
            } else {
                None
            }),
    {
        match *self {
            ReflectionLine::Vertical(num_cols) => Some(num_cols),
            ReflectionLine::Horizontal(num_rows) => num_rows.checked_mul(100),
        }
    }
}

/// Two to the power of `k`.
pub open spec fn two_to(k: int) -> int
    decreases k,
{
    if k <= 0 {
        1
    } else {
        2 * two_to(k - 1)
    }
}

/// The number whose binary digits are the first `n` cells, rock for 1, the
/// first cell lowest.
pub open spec fn code_of(cells: Seq<u8>, n: int) -> int
    decreases n,
{
    if n <= 0 {
        0
    } else if cells[n - 1] == ROCK {
        code_of(cells, n - 1) + two_to(n - 1)
    } else {
        code_of(cells, n - 1)
    }
}

/// The cells of column `c`, top to bottom.
pub open spec fn column(rows: Seq<Seq<u8>>, c: int) -> Seq<u8> {
    Seq::new(rows.len(), |r: int| rows[r][c])
}

/// The numbers of the rows.
pub open spec fn row_codes(rows: Seq<Seq<u8>>, w: int) -> Seq<int> {
    Seq::new(rows.len(), |r: int| code_of(rows[r], w))
}

/// The numbers of the columns.
pub open spec fn column_codes(rows: Seq<Seq<u8>>, w: int) -> Seq<int> {
    Seq::new(w as nat, |c: int| code_of(column(rows, c), rows.len() as int))
}

/// A code of `n` cells is below two to the `n`.
pub proof fn lemma_code_bound(cells: Seq<u8>, n: int)
    requires
        0 <= n,
    ensures
        0 <= code_of(cells, n) < two_to(n),
    decreases n,
{
    if n > 0 {
        lemma_code_bound(cells, n - 1);
    }
}

/// A greater power of two is at least as great.
pub proof fn lemma_two_to_grows(k: int, m: int)
    requires
        0 <= k <= m,
    ensures
        1 <= two_to(k) <= two_to(m),
    decreases m,
{
    if k < m {
        lemma_two_to_grows(k, m - 1);
    } else if k > 0 {
        lemma_two_to_grows(k - 1, k - 1);
    }
}

/// Two to the 64th.
pub proof fn lemma_two_to_64()
    ensures
        two_to(64) == 0x1_0000_0000_0000_0000,
{
    reveal_with_fuel(two_to, 65);
}

/// A pattern of ash and rock.
pub struct Pattern(pub Array2D<u8>);

impl Pattern {
    /// The rows of the pattern.
    pub open spec fn rows(&self) -> Seq<Seq<u8>> {
        grid_rows(self.0)
    }

    /// The number of columns.
    pub open spec fn width(&self) -> int {
        grid_width(self.0) as int
    }

    /// Whether the pattern has at most 64 rows and 64 columns, so that each
    /// row and column has a number of 64 bits.
    pub open spec fn small(&self) -> bool {
        self.rows().len() <= 64 && self.width() <= 64
    }

    /// The numbers of the rows, if there are at most 64 columns.
    pub fn rows_as_u64_slice(&self) -> (r: Option<Vec<u64>>)
        ensures
            match r {
                Some(codes) => self.width() <= 64 && codes@.len() == self.rows().len() && forall|k: int|
                    0 <= k < codes@.len() ==> #[trigger] codes@[k] == code_of(self.rows()[k], self.width()),
                None => self.width() > 64,
            },
    {
        let h = grid_num_rows(&self.0);
        let w = grid_num_columns(&self.0);
        if w > 64 {
            return None;
        }
        let mut result: Vec<u64> = Vec::new();
        let mut row: usize = 0;
        while row < h
            invariant
                row <= h,
                h == self.rows().len(),
                w == self.width(),
                w <= 64,
                rectangular(self.rows(), w as nat),
                result@.len() == row,
                forall|k: int| 0 <= k < row ==> #[trigger] result@[k] == code_of(self.rows()[k], w as int),
            decreases h - row,
        {
            let mut code: u64 = 0;
            let mut bit: u64 = 1;
            let mut i: usize = 0;
            while i < w
                invariant
                    i <= w <= 64,
                    row < h,
                    h == self.rows().len(),
                    w == self.width(),
                    rectangular(self.rows(), w as nat),
                    code == code_of(self.rows()[row as int], i as int),
                    i < 64 ==> bit == two_to(i as int),
                decreases w - i,
            {
                proof {
                    lemma_code_bound(self.rows()[row as int], i as int);
                    lemma_code_bound(self.rows()[row as int], i + 1);
                    lemma_two_to_grows(i + 1, 64);
                    lemma_two_to_64();
                    if i + 1 < 64 {
                        lemma_two_to_grows(i + 1, 63);
                    }
                }
                if grid_get(&self.0, row, i).unwrap() == ROCK {
                    code = code + bit;
                }
                if i + 1 < 64 {
                    bit = bit * 2;
                }
                i = i + 1;
            }
            result.push(code);
            row = row + 1;
        }
        Some(result)
    }

    /// The numbers of the columns, if there are at most 64 rows.
    pub fn cols_as_u64_slice(&self) -> (r: Option<Vec<u64>>)
        ensures
            match r {
                Some(codes) => self.rows().len() <= 64 && codes@.len() == self.width() && forall|k: int|
                    0 <= k < codes@.len() ==> #[trigger] codes@[k] == code_of(
                        column(self.rows(), k),
                        self.rows().len() as int,
                    ),
                None => self.rows().len() > 64,
            },
    {
        let h = grid_num_rows(&self.0);
        let w = grid_num_columns(&self.0);
        if h > 64 {
            return None;
        }
        let mut result: Vec<u64> = Vec::new();
        let mut col: usize = 0;
        while col < w
            invariant
                col <= w,
                h == self.rows().len(),
                w == self.width(),
                h <= 64,
                rectangular(self.rows(), w as nat),
                result@.len() == col,
                forall|k: int|
                    0 <= k < col ==> #[trigger] result@[k] == code_of(column(self.rows(), k), h as int),
            decreases w - col,
        {
            let ghost cells = column(self.rows(), col as int);
            let mut code: u64 = 0;
            let mut bit: u64 = 1;
            let mut i: usize = 0;
            while i < h
                invariant
                    i <= h <= 64,
                    col < w,
                    h == self.rows().len(),
                    w == self.width(),
                    rectangular(self.rows(), w as nat),
                    cells == column(self.rows(), col as int),
                    code == code_of(cells, i as int),
                    i < 64 ==> bit == two_to(i as int),
                decreases h - i,
            {
                proof {
                    lemma_code_bound(cells, i as int);
                    lemma_code_bound(cells, i + 1);
                    lemma_two_to_grows(i + 1, 64);
                    lemma_two_to_64();
                    if i + 1 < 64 {
                        lemma_two_to_grows(i + 1, 63);
                    }
                }
                if grid_get(&self.0, i, col).unwrap() == ROCK {
                    code = code + bit;
                }
                if i + 1 < 64 {
                    bit = bit * 2;
                }
                i = i + 1;
            }
            result.push(code);
            col = col + 1;
        }
        Some(result)
    }
}

/// The numbers as 64-bit numbers.
pub open spec fn as_codes(codes: Seq<int>) -> Seq<u64> {
    Seq::new(codes.len(), |k: int| codes[k] as u64)
}

/// The line of reflection of a small pattern: the first place at which the
/// rows mirror themselves, or else the first at which the columns do.
pub open spec fn line_of(rows: Seq<Seq<u8>>, w: int) -> Option<ReflectionLine> {
    match center_from(as_codes(row_codes(rows, w)), 0, 1) {
        Some(num_rows) => Some(ReflectionLine::Horizontal(num_rows)),
        None => match center_from(as_codes(column_codes(rows, w)), 0, 1) {
            Some(num_cols) => Some(ReflectionLine::Vertical(num_cols)),
            None => None,
        },
    }
}

/// A line of reflection other than `prev`: first one across to where `prev`
/// runs, and else one along it at another place.
pub open spec fn new_line_of(rows: Seq<Seq<u8>>, w: int, prev: ReflectionLine) -> Option<ReflectionLine> {
    match prev {
        ReflectionLine::Horizontal(prev_rows) => match center_from(as_codes(column_codes(rows, w)), 0, 1) {
            Some(num_cols) => Some(ReflectionLine::Vertical(num_cols)),
            None => match center_from(as_codes(row_codes(rows, w)), prev_rows as int, 1) {
                Some(num_rows) => Some(ReflectionLine::Horizontal(num_rows)),
                None => None,
            },
        },
        ReflectionLine::Vertical(prev_cols) => match center_from(as_codes(row_codes(rows, w)), 0, 1) {
            Some(num_rows) => Some(ReflectionLine::Horizontal(num_rows)),
            None => match center_from(as_codes(column_codes(rows, w)), prev_cols as int, 1) {
                Some(num_cols) => Some(ReflectionLine::Vertical(num_cols)),
                None => None,
            },
        },
    }
}

/// Why a text holds no patterns, or a pattern has no score.
#[derive(Debug, Clone, Copy, PartialEq, Eq, Structural)]
pub enum PatternError {
    /// A byte stands for no tile.
    IllegalCharacter,
    /// The rows of a pattern are not all of one length.
    Ragged,
    /// The pattern has more than 64 rows or columns.
    TooLarge,
    /// The pattern has no line of reflection.
    NoReflection,
    /// No cell of the pattern hides another line of reflection.
    NoSmudge,
    /// A score does not fit in `usize`.
    Overflow,
}

impl Pattern {
    /// The codes of the rows and of the columns of a small pattern.
    fn codes(&self) -> (r: Option<(Vec<u64>, Vec<u64>)>)
        ensures
            match r {
                Some((by_row, by_column)) => self.small() && by_row@ == as_codes(row_codes(self.rows(), self.width()))
                    && by_column@ == as_codes(column_codes(self.rows(), self.width())),
                None => !self.small(),
            },
    {
        let by_row = self.rows_as_u64_slice()?;
        let by_column = self.cols_as_u64_slice()?;
        proof {
            assert(by_row@ =~= as_codes(row_codes(self.rows(), self.width())));
            assert(by_column@ =~= as_codes(column_codes(self.rows(), self.width())));
        }
        Some((by_row, by_column))
    }

    /// The line of reflection of the pattern. The pattern must be small.
    pub fn get_reflection_line(&self) -> (r: Option<ReflectionLine>)
        requires
            self.small(),
        ensures
            r == line_of(self.rows(), self.width()),
    {
        let (by_row, by_column) = self.codes().unwrap();
        if let Some(num_rows) = get_center_of_symmetry(by_row.as_slice()) {
            Some(ReflectionLine::Horizontal(num_rows))
        } else if let Some(num_cols) = get_center_of_symmetry(by_column.as_slice()) {
            Some(ReflectionLine::Vertical(num_cols))
        } else {
            None
        }
    }

    /// A line of reflection other than `prev_rl`. The pattern must be small.
    pub fn get_new_reflection_line(&self, prev_rl: &ReflectionLine) -> (r: Option<ReflectionLine>)
        requires
            self.small(),
        ensures
            r == new_line_of(self.rows(), self.width(), *prev_rl),
    {
        let (by_row, by_column) = self.codes().unwrap();
        match *prev_rl {
            ReflectionLine::Horizontal(prev_num_rows) => {
                if let Some(new_num_cols) = get_center_of_symmetry(by_column.as_slice()) {
                    Some(ReflectionLine::Vertical(new_num_cols))
                } else if let Some(new_num_rows) = get_new_center_of_symmetry(by_row.as_slice(), prev_num_rows) {
                    Some(ReflectionLine::Horizontal(new_num_rows))
                } else {
                    None
                }
            },
            ReflectionLine::Vertical(prev_num_cols) => {
                if let Some(new_num_rows) = get_center_of_symmetry(by_row.as_slice()) {
                    Some(ReflectionLine::Horizontal(new_num_rows))
                } else if let Some(new_num_cols) = get_new_center_of_symmetry(by_column.as_slice(), prev_num_cols) {
                    Some(ReflectionLine::Vertical(new_num_cols))
                } else {
                    None
                }
            },
        }
    }
}

/// The score of a small pattern: that of its line of reflection.
pub open spec fn score_of(rows: Seq<Seq<u8>>, w: int) -> Result<usize, PatternError> {
    if rows.len() > 64 || w > 64 {
        Err(PatternError::TooLarge)
    } else {
        match line_of(rows, w) {
            None => Err(PatternError::NoReflection),
            Some(line) => if line.score() <= usize::MAX {
                Ok(line.score() as usize)
            } else {
                Err(PatternError::Overflow)
            },
        }
    }
}

/// The rows with the cell at `(i, j)` switched.
pub open spec fn smudged(rows: Seq<Seq<u8>>, i: int, j: int) -> Seq<Seq<u8>> {
    rows.update(i, rows[i].update(j, switched(rows[i][j])))
}

/// The other line of reflection that shows when the first cell from the
/// `k`-th on, row by row, that hides one is switched.
pub open spec fn smudge_from(rows: Seq<Seq<u8>>, w: int, prev: ReflectionLine, k: int) -> Option<
    ReflectionLine,
>
    decreases rows.len() * w - k,
{
    if w <= 0 || k < 0 || k >= rows.len() * w {
        None
    } else {
        match new_line_of(smudged(rows, k / w, k % w), w, prev) {
            Some(line) => Some(line),
            None => smudge_from(rows, w, prev, k + 1),
        }
    }
}

/// The score of a small pattern once its smudge is cleaned: that of the
/// other line of reflection that shows when the first cell that hides one is
/// switched.
pub open spec fn smudged_score_of(rows: Seq<Seq<u8>>, w: int) -> Result<usize, PatternError> {
    if rows.len() > 64 || w > 64 {
        Err(PatternError::TooLarge)
    } else {
        match line_of(rows, w) {
            None => Err(PatternError::NoReflection),
            Some(prev) => match smudge_from(rows, w, prev, 0) {
                None => Err(PatternError::NoSmudge),
                Some(line) => if line.score() <= usize::MAX {
                    Ok(line.score() as usize)
                } else {
                    Err(PatternError::Overflow)
                },
            },
        }
    }
}

/// Whether all rows are as long as the first.
pub open spec fn even_rows(rows: Seq<Seq<u8>>) -> bool {
    forall|i: int| 0 <= i < rows.len() ==> (#[trigger] rows[i]).len() == rows[0].len()
}

impl Pattern {
    /// A pattern with the given rows, which must all be of one length.
    pub fn from_rows(rows: &[Vec<u8>]) -> (r: Result<Pattern, PatternError>)
        ensures
            match r {
                Ok(pattern) => even_rows(row_views(rows@)) && pattern.rows() == row_views(rows@)
                    && pattern.width() == (if rows@.len() > 0 { rows@[0]@.len() } else { 0 }),
                Err(e) => !even_rows(row_views(rows@)) && e == PatternError::Ragged,
            },
    {
        proof {
            assert forall|k: int| 0 <= k < rows@.len() implies (#[trigger] rows@[k])@.len() == row_views(rows@)[k].len() by {}
            if rows@.len() > 0 {
                assert(row_views(rows@)[0] == rows@[0]@);
            }
        }
        match grid_from_rows(rows) {
            Ok(grid) => Ok(Pattern(grid)),
            Err(_) => Err(PatternError::Ragged),
        }
    }

    /// The score of the pattern.
    pub fn get_score(&self) -> (r: Result<usize, PatternError>)
        ensures
            r == score_of(self.rows(), self.width()),
    {
        let h = grid_num_rows(&self.0);
        let w = grid_num_columns(&self.0);
        if h > 64 || w > 64 {
            return Err(PatternError::TooLarge);
        }
        match self.get_reflection_line() {
            None => Err(PatternError::NoReflection),
            Some(line) => match line.get_score() {
                Some(score) => Ok(score),
                None => Err(PatternError::Overflow),
            },
        }
    }

    /// The score of the pattern once its smudge is cleaned.
    pub fn get_smudged_score(&self) -> (r: Result<usize, PatternError>)
        ensures
            r == smudged_score_of(self.rows(), self.width()),
    {
        let h = grid_num_rows(&self.0);
        let w = grid_num_columns(&self.0);
        if h > 64 || w > 64 {
            return Err(PatternError::TooLarge);
        }
        let prev_rl = match self.get_reflection_line() {
            None => {
                return Err(PatternError::NoReflection);
            },
            Some(line) => line,
        };
        let ghost rows = self.rows();
        let ghost wi = w as int;
        let mut pattern_cpy = Pattern(grid_clone(&self.0));
        let mut i: usize = 0;
        while i < h
            invariant
                i <= h,
                h == rows.len(),
                wi == w,
                w <= 64,
                h <= 64,
                rows == self.rows(),
                wi == self.width(),
                rectangular(rows, w as nat),
                pattern_cpy.rows() == rows,
                pattern_cpy.width() == wi,
                line_of(rows, wi) == Some(prev_rl),
                smudge_from(rows, wi, prev_rl, 0) == smudge_from(rows, wi, prev_rl, i * w),
            decreases h - i,
        {
            let mut j: usize = 0;
            while j < w
                invariant
                    j <= w,
                    i < h,
                    h == rows.len(),
                    wi == w,
                    w <= 64,
                    h <= 64,
                    rows == self.rows(),
                    wi == self.width(),
                    rectangular(rows, w as nat),
                    pattern_cpy.rows() == rows,
                    pattern_cpy.width() == wi,
                    line_of(rows, wi) == Some(prev_rl),
                    smudge_from(rows, wi, prev_rl, 0) == smudge_from(rows, wi, prev_rl, i * w + j),
                decreases w - j,
            {
                proof {
                    crate::numbers::lemma_cell_bound(i as int, j as int, h as int, wi);
                    vstd::arithmetic::div_mod::lemma_fundamental_div_mod_converse(
                        i * w + j,
                        wi,
                        i as int,
                        j as int,
                    );
                }
                let tile = grid_get(&pattern_cpy.0, i, j).unwrap();
                let other = if tile == ROCK {
                    ASH
                } else {
                    ROCK
                };
                let _ = grid_set(&mut pattern_cpy.0, i, j, other);
                assert(pattern_cpy.rows() == smudged(rows, i as int, j as int));
                if let Some(rl) = pattern_cpy.get_new_reflection_line(&prev_rl) {
                    return match rl.get_score() {
                        Some(score) => Ok(score),
                        None => Err(PatternError::Overflow),
                    };
                }
                let _ = grid_set(&mut pattern_cpy.0, i, j, tile);
                proof {
                    assert(pattern_cpy.rows() =~= rows) by {
                        assert(pattern_cpy.rows()[i as int] =~= rows[i as int]);
                    }
                }
                j = j + 1;
            }
            proof {
                assert((i + 1) * w == i * w + w) by (nonlinear_arith);
            }
            i = i + 1;
        }
        Err(PatternError::NoSmudge)
    }
}

/// Whether every byte of the line stands for a tile.
pub open spec fn tiles(line: Seq<u8>) -> bool {
    forall|i: int| 0 <= i < line.len() ==> Tile::of(#[trigger] line[i]) is Some
}

/// The patterns that the first `n` lines hold, each as its rows, and the
/// rows of the pattern that is under way: patterns are parted by empty
/// lines.
pub open spec fn blocks_from(ls: Seq<Seq<u8>>, n: int) -> Result<(Seq<Seq<Seq<u8>>>, Seq<Seq<u8>>), PatternError>
    decreases n,
{
    if n <= 0 {
        Ok((Seq::empty(), Seq::empty()))
    } else {
        match blocks_from(ls, n - 1) {
            Err(e) => Err(e),
            Ok((done, current)) => if ls[n - 1].len() == 0 {
                if current.len() == 0 {
                    Ok((done, current))
                } else if even_rows(current) {
                    Ok((done.push(current), Seq::empty()))
                } else {
                    Err(PatternError::Ragged)
                }
            } else if tiles(ls[n - 1]) {
                Ok((done, current.push(ls[n - 1])))
            } else {
                Err(PatternError::IllegalCharacter)
            },
        }
    }
}

/// The patterns that a text holds, each as its rows.
pub open spec fn patterns_of(text: Seq<u8>) -> Result<Seq<Seq<Seq<u8>>>, PatternError> {
    let ls = lines_of(text);
    match blocks_from(ls, ls.len() as int) {
        Err(e) => Err(e),
        Ok((done, current)) => if current.len() == 0 {
            Ok(done)
        } else if even_rows(current) {
            Ok(done.push(current))
        } else {
            Err(PatternError::Ragged)
        },
    }
}

/// If the first `i` lines hold no patterns, neither do the first `n`, for
/// the same reason.
pub proof fn lemma_blocks_from_prefix(ls: Seq<Seq<u8>>, i: int, n: int)
    requires
        0 <= i <= n,
        blocks_from(ls, i) is Err,
    ensures
        blocks_from(ls, n) is Err,
        blocks_from(ls, n)->Err_0 == blocks_from(ls, i)->Err_0,
    decreases n - i,
{
    if i < n {
        lemma_blocks_from_prefix(ls, i, n - 1);
    }
}

/// The rows of each pattern.
pub open spec fn pattern_rows(patterns: Seq<Pattern>) -> Seq<Seq<Seq<u8>>> {
    patterns.map_values(|p: Pattern| p.rows())
}

/// Whether each pattern is as wide as its first row is long.
pub open spec fn widths_fit(patterns: Seq<Pattern>) -> bool {
    forall|k: int|
        0 <= k < patterns.len() ==> (#[trigger] patterns[k]).rows().len() > 0 && patterns[k].width()
            == patterns[k].rows()[0].len()
}

/// Tells whether every byte of the line stands for a tile.
fn check_tiles(line: &[u8]) -> (b: bool)
    ensures
        b == tiles(line@),
{
    let mut i: usize = 0;
    while i < line.len()
        invariant
            i <= line.len(),
            forall|k: int| 0 <= k < i ==> Tile::of(#[trigger] line@[k]) is Some,
        decreases line.len() - i,
    {
        if Tile::from_u8(line[i]).is_none() {
            return false;
        }
        i = i + 1;
    }
    true
}

/// Reads the patterns of a text, which are parted by empty lines.
pub fn parse_input(input: &str) -> (r: Result<Vec<Pattern>, PatternError>)
    ensures
        match r {
            Ok(patterns) => patterns_of(input.spec_bytes()) == Ok::<Seq<Seq<Seq<u8>>>, PatternError>(
                pattern_rows(patterns@),
            ) && widths_fit(patterns@),
            Err(e) => patterns_of(input.spec_bytes()) == Err::<Seq<Seq<Seq<u8>>>, PatternError>(e),
        },
{
    let ls = lines(input.as_bytes());
    let ghost all = lines_of(input.spec_bytes());
    let mut result: Vec<Pattern> = Vec::new();
    let mut cur_rows: Vec<Vec<u8>> = Vec::new();
    let mut i: usize = 0;
    assert(pattern_rows(result@) =~= Seq::<Seq<Seq<u8>>>::empty());
    assert(row_views(cur_rows@) =~= Seq::<Seq<u8>>::empty());
    while i < ls.len()
        invariant
            i <= ls.len(),
            all == views(ls@),
            all == lines_of(input.spec_bytes()),
            blocks_from(all, i as int) == Ok::<(Seq<Seq<Seq<u8>>>, Seq<Seq<u8>>), PatternError>(
                (pattern_rows(result@), row_views(cur_rows@)),
            ),
            widths_fit(result@),
        decreases ls.len() - i,
    {
        assert(all[i as int] == ls@[i as int]@);
        let ghost done = pattern_rows(result@);
        let ghost current = row_views(cur_rows@);
        if ls[i].len() == 0 {
            if cur_rows.len() != 0 {
                assert(current[0] == cur_rows@[0]@);
                match Pattern::from_rows(cur_rows.as_slice()) {
                    Ok(pattern) => {
                        proof {
                            assert(pattern_rows(result@.push(pattern)) =~= done.push(current));
                        }
                        result.push(pattern);
                        cur_rows = Vec::new();
                        assert(row_views(cur_rows@) =~= Seq::<Seq<u8>>::empty());
                    },
                    Err(e) => {
                        proof {
                            lemma_blocks_from_prefix(all, i + 1, all.len() as int);
                        }
                        return Err(e);
                    },
                }
            }
        } else {
            if !check_tiles(ls[i]) {
                proof {
                    lemma_blocks_from_prefix(all, i + 1, all.len() as int);
                }
                return Err(PatternError::IllegalCharacter);
            }
            let row = to_vec(ls[i]);
            proof {
                assert(row_views(cur_rows@.push(row)) =~= current.push(row@));
            }
            cur_rows.push(row);
        }
        i = i + 1;
    }
    if cur_rows.len() != 0 {
        let ghost done = pattern_rows(result@);
        let ghost current = row_views(cur_rows@);
        assert(current[0] == cur_rows@[0]@);
        match Pattern::from_rows(cur_rows.as_slice()) {
            Ok(pattern) => {
                proof {
                    assert(pattern_rows(result@.push(pattern)) =~= done.push(current));
                }
                result.push(pattern);
            },
            Err(e) => {
                return Err(e);
            },
        }
    }
    Ok(result)
}

/// The sum of the scores, where each of the first `n` patterns has one and
/// the sum fits in `usize`; else the first reason why not.
pub open spec fn score_sum(scores: Seq<Result<usize, PatternError>>, n: int) -> Result<usize, PatternError>
    decreases n,
{
    if n <= 0 {
        Ok(0)
    } else {
        match score_sum(scores, n - 1) {
            Err(e) => Err(e),
            Ok(sum) => match scores[n - 1] {
                Err(e) => Err(e),
                Ok(score) => if sum + score <= usize::MAX {
                    Ok((sum + score) as usize)
                } else {
                    Err(PatternError::Overflow)
                },
            },
        }
    }
}

/// If the first `i` scores have no sum, neither have the first `n`, for the
/// same reason.
pub proof fn lemma_score_sum_prefix(scores: Seq<Result<usize, PatternError>>, i: int, n: int)
    requires
        0 <= i <= n,
        score_sum(scores, i) is Err,
    ensures
        score_sum(scores, n) == score_sum(scores, i),
    decreases n - i,
{
    if i < n {
        lemma_score_sum_prefix(scores, i, n - 1);
    }
}

/// The scores of the patterns.
pub open spec fn scores_of(patterns: Seq<Pattern>) -> Seq<Result<usize, PatternError>> {
    patterns.map_values(|p: Pattern| score_of(p.rows(), p.width()))
}

/// The scores of the patterns once their smudges are cleaned.
pub open spec fn smudged_scores_of(patterns: Seq<Pattern>) -> Seq<Result<usize, PatternError>> {
    patterns.map_values(|p: Pattern| smudged_score_of(p.rows(), p.width()))
}

/// The sum of the scores of the patterns.
pub fn part1(puzzle_input: &[Pattern]) -> (r: Result<usize, PatternError>)
    ensures
        r == score_sum(scores_of(puzzle_input@), puzzle_input@.len() as int),
{
    let ghost scores = scores_of(puzzle_input@);
    let mut sum: usize = 0;
    let mut i: usize = 0;
    while i < puzzle_input.len()
        invariant
            i <= puzzle_input.len(),
            scores == scores_of(puzzle_input@),
            score_sum(scores, i as int) == Ok::<usize, PatternError>(sum),
        decreases puzzle_input.len() - i,
    {
        let step = match puzzle_input[i].get_score() {
            Err(e) => Err(e),
            Ok(score) => match sum.checked_add(score) {
                Some(next) => Ok(next),
                None => Err(PatternError::Overflow),
            },
        };
        match step {
            Ok(next) => {
                sum = next;
            },
            Err(e) => {
                proof {
                    lemma_score_sum_prefix(scores, i + 1, scores.len() as int);
                }
                return Err(e);
            },
        }
        i = i + 1;
    }
    Ok(sum)
}

/// The sum of the scores of the patterns once their smudges are cleaned.
pub fn part2(puzzle_input: &[Pattern]) -> (r: Result<usize, PatternError>)
    ensures
        r == score_sum(smudged_scores_of(puzzle_input@), puzzle_input@.len() as int),
{
    let ghost scores = smudged_scores_of(puzzle_input@);
    let mut sum: usize = 0;
    let mut i: usize = 0;
    while i < puzzle_input.len()
        invariant
            i <= puzzle_input.len(),
            scores == smudged_scores_of(puzzle_input@),
            score_sum(scores, i as int) == Ok::<usize, PatternError>(sum),
        decreases puzzle_input.len() - i,
    {
        let step = match puzzle_input[i].get_smudged_score() {
            Err(e) => Err(e),
            Ok(score) => match sum.checked_add(score) {
                Some(next) => Ok(next),
                None => Err(PatternError::Overflow),
            },
        };
        match step {
            Ok(next) => {
                sum = next;
            },
            Err(e) => {
                proof {
                    lemma_score_sum_prefix(scores, i + 1, scores.len() as int);
                }
                return Err(e);
            },
        }
        i = i + 1;
    }
    Ok(sum)
}

} // verus!
