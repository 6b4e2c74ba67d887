//! Galaxies in a universe whose empty rows and columns have grown.

use vstd::prelude::*;

verus! {

/// A galaxy: its row and its column.
pub struct Galaxy(pub u128, pub u128);

/// The views of the rows.
pub open spec fn row_views(rows: Seq<&[u8]>) -> Seq<Seq<u8>> {
    rows.map_values(|r: &[u8]| r@)
}

/// Whether the image has a row and all rows are as long as the first.
pub open spec fn image(rows: Seq<Seq<u8>>) -> bool {
    rows.len() > 0 && forall|r: int| 0 <= r < rows.len() ==> (#[trigger] rows[r]).len() == rows[0].len()
}

/// Whether the first `n` cells of the row hold no galaxy nor anything else.
pub open spec fn blank_to(row: Seq<u8>, n: int) -> bool {
    forall|c: int| 0 <= c < n ==> #[trigger] row[c] == 46u8
}

/// Whether the first `n` rows are empty at column `c`.
pub open spec fn blank_column_to(rows: Seq<Seq<u8>>, c: int, n: int) -> bool {
    forall|r: int| 0 <= r < n ==> (#[trigger] rows[r])[c] == 46u8
}

/// The number of empty rows among the first `n`.
pub open spec fn blank_rows(rows: Seq<Seq<u8>>, n: int) -> int
    decreases n,
{
    if n <= 0 {
        0
    } else if blank_to(rows[n - 1], rows[n - 1].len() as int) {
        blank_rows(rows, n - 1) + 1
    } else {
        blank_rows(rows, n - 1)
    }
}

/// The number of empty columns among the first `n`.
pub open spec fn blank_columns(rows: Seq<Seq<u8>>, n: int) -> int
    decreases n,
{
    if n <= 0 {
        0
    } else if blank_column_to(rows, n - 1, rows.len() as int) {
        blank_columns(rows, n - 1) + 1
    } else {
        blank_columns(rows, n - 1)
    }
}

/// The row `r` after each empty row has become `factor` rows.
pub open spec fn far_row(rows: Seq<Seq<u8>>, factor: int, r: int) -> int {
    r + (factor - 1) * blank_rows(rows, r + 1)
}

/// The column `c` after each empty column has become `factor` columns.
pub open spec fn far_column(rows: Seq<Seq<u8>>, factor: int, c: int) -> int {
    c + (factor - 1) * blank_columns(rows, c + 1)
}

/// The galaxies among the first `n` cells of row `r`, where they are after
/// the universe has grown.
pub open spec fn row_galaxies(rows: Seq<Seq<u8>>, factor: int, r: int, n: int) -> Seq<(int, int)>
    decreases n,
{
    if n <= 0 {
        Seq::empty()
    } else if rows[r][n - 1] == 35u8 {
        row_galaxies(rows, factor, r, n - 1).push((far_row(rows, factor, r), far_column(rows, factor, n - 1)))
    } else {
        row_galaxies(rows, factor, r, n - 1)
    }
}

/// The galaxies of the first `n` rows, row by row.
pub open spec fn galaxies_of(rows: Seq<Seq<u8>>, factor: int, n: int) -> Seq<(int, int)>
    decreases n,
{
    if n <= 0 {
        Seq::empty()
    } else {
        galaxies_of(rows, factor, n - 1) + row_galaxies(rows, factor, n - 1, rows[n - 1].len() as int)
    }
}

/// The number of steps between two galaxies, along rows and columns.
pub open spec fn steps(a: (int, int), b: (int, int)) -> int {
    (if a.0 > b.0 { a.0 - b.0 } else { b.0 - a.0 }) + (if a.1 > b.1 { a.1 - b.1 } else { b.1 - a.1 })
}

/// The sum of the steps from galaxy `i` to the galaxies after it and before
/// `n`.
pub open spec fn steps_from(gs: Seq<(int, int)>, i: int, n: int) -> int
    decreases n - i,
{
    if n <= i + 1 {
        0
    } else {
        steps_from(gs, i, n - 1) + steps(gs[i], gs[n - 1])
    }
}

/// The sum of the steps between each of the first `n` galaxies and every
/// galaxy after it.
pub open spec fn steps_total(gs: Seq<(int, int)>, n: int) -> int
    decreases n,
{
    if n <= 0 {
        0
    } else {
        steps_total(gs, n - 1) + steps_from(gs, n - 1, gs.len() as int)
    }
}

/// There are at most as many empty rows as rows.
pub proof fn lemma_blank_rows_bound(rows: Seq<Seq<u8>>, n: int)
    requires
        0 <= n,
    ensures
        0 <= blank_rows(rows, n) <= n,
    decreases n,
{
    if n > 0 {
        lemma_blank_rows_bound(rows, n - 1);
    }
}

/// There are at most as many empty columns as columns.
pub proof fn lemma_blank_columns_bound(rows: Seq<Seq<u8>>, n: int)
    requires
        0 <= n,
    ensures
        0 <= blank_columns(rows, n) <= n,
    decreases n,
{
    if n > 0 {
        lemma_blank_columns_bound(rows, n - 1);
    }
}

/// The sums of steps are not negative, and grow with the galaxies counted.
pub proof fn lemma_steps_from_grows(gs: Seq<(int, int)>, i: int, m: int, n: int)
    requires
        i < m <= n,
    ensures
        0 <= steps_from(gs, i, m) <= steps_from(gs, i, n),
    decreases n - i,
{
    if m < n {
        lemma_steps_from_grows(gs, i, m, n - 1);
    } else if m > i + 1 {
        lemma_steps_from_grows(gs, i, m - 1, m - 1);
    }
}

/// The totals of steps grow with the galaxies counted.
pub proof fn lemma_steps_total_grows(gs: Seq<(int, int)>, m: int, n: int)
    requires
        0 <= m <= n <= gs.len(),
    ensures
        0 <= steps_total(gs, m) <= steps_total(gs, n),
    decreases n,
{
    if m < n {
        lemma_steps_total_grows(gs, m, n - 1);
        lemma_steps_from_grows(gs, n - 1, n, gs.len() as int);
    } else if m > 0 {
        lemma_steps_total_grows(gs, m - 1, m - 1);
        lemma_steps_from_grows(gs, m - 1, m, gs.len() as int);
    }
}

/// The product of a factor below 2^64 and a count of at most 2^64 - 1 is
/// below 2^128 - 2^64.
pub proof fn lemma_growth_fits(f: int, count: int)
    requires
        0 <= f <= 0xffff_ffff_ffff_fffe,
        0 <= count <= 0xffff_ffff_ffff_ffff,
    ensures
        0 <= f * count <= 0xffff_ffff_ffff_fffe * 0xffff_ffff_ffff_ffff,
{
    assert(0 <= f * count <= 0xffff_ffff_ffff_fffe * 0xffff_ffff_ffff_ffff) by (nonlinear_arith)
        requires
            0 <= f <= 0xffff_ffff_ffff_fffe,
            0 <= count <= 0xffff_ffff_ffff_ffff,
    ;
}

/// Tells whether the row holds nothing.
fn is_blank(row: &[u8]) -> (b: bool)
    ensures
        b == blank_to(row@, row@.len() as int),
{
    let mut c: usize = 0;
    while c < row.len()
        invariant
            c <= row.len(),
            blank_to(row@, c as int),
        decreases row.len() - c,
    {
        if row[c] != 46u8 {
            return false;
        }
        c = c + 1;
    }
    true
}

/// Tells whether the column holds nothing.
fn is_blank_column(puzzle_input: &[&[u8]], c: usize) -> (b: bool)
    requires
        image(row_views(puzzle_input@)),
        c < puzzle_input@[0]@.len(),
    ensures
        b == blank_column_to(row_views(puzzle_input@), c as int, puzzle_input@.len() as int),
{
    let ghost rows = row_views(puzzle_input@);
    let mut r: usize = 0;
    while r < puzzle_input.len()
        invariant
            r <= puzzle_input.len(),
            rows == row_views(puzzle_input@),
            image(rows),
            c < rows[0].len(),
            blank_column_to(rows, c as int, r as int),
        decreases puzzle_input.len() - r,
    {
        assert(rows[r as int] == puzzle_input@[r as int]@);
        if puzzle_input[r][c] != 46u8 {
            return false;
        }
        r = r + 1;
    }
    true
}

/// The sum of the steps between every two galaxies after each empty row and
/// column has become `expansion_factor` rows or columns, or nothing when the
/// sum does not fit in `usize`. The image must have a row, all its rows must
/// be of one length, and the factor must be at least 1.
pub fn find_sum_of_dists(puzzle_input: &[&[u8]], expansion_factor: usize) -> (r: Option<usize>)
    requires
        image(row_views(puzzle_input@)),
        expansion_factor >= 1,
    ensures
        r == ({
            let gs = galaxies_of(row_views(puzzle_input@), expansion_factor as int, puzzle_input@.len() as int);
            if steps_total(gs, gs.len() as int) <= usize::MAX {
                Some(steps_total(gs, gs.len() as int) as usize)
            } else {
                None
            }
        }),
{
    let ghost rows = row_views(puzzle_input@);
    let ghost factor = expansion_factor as int;
    let h = puzzle_input.len();
    assert(rows[0] == puzzle_input@[0]@);
    let w = puzzle_input[0].len();
    let grow: u128 = (expansion_factor - 1) as u128;
    let mut row_expands: Vec<u128> = Vec::new();
    let mut num_empty: u128 = 0;
    let mut i: usize = 0;
    while i < h
        invariant
            i <= h,
            h == rows.len(),
            rows == row_views(puzzle_input@),
            grow == factor - 1,
            0 <= grow <= 0xffff_ffff_ffff_fffe,
            num_empty == grow * blank_rows(rows, i as int),
            row_expands@.len() == i,
            forall|k: int| 0 <= k < i ==> #[trigger] row_expands@[k] == grow * blank_rows(rows, k + 1),
        decreases h - i,
    {
        assert(rows[i as int] == puzzle_input@[i as int]@);
        proof {
            lemma_blank_rows_bound(rows, i as int);
            lemma_blank_rows_bound(rows, i + 1);
            lemma_growth_fits(grow as int, blank_rows(rows, i + 1));
            assert(grow * (blank_rows(rows, i as int) + 1) == grow * blank_rows(rows, i as int) + grow)
                by (nonlinear_arith);
        }
        if is_blank(puzzle_input[i]) {
            num_empty = num_empty + grow;
        }
        row_expands.push(num_empty);
        i = i + 1;
    }
    let mut col_expands: Vec<u128> = Vec::new();
    let mut num_empty: u128 = 0;
    let mut col: usize = 0;
    while col < w
        invariant
            col <= w,
            w == rows[0].len(),
            h == rows.len(),
            rows == row_views(puzzle_input@),
            image(rows),
            grow == factor - 1,
            0 <= grow <= 0xffff_ffff_ffff_fffe,
            num_empty == grow * blank_columns(rows, col as int),
            col_expands@.len() == col,
            forall|k: int| 0 <= k < col ==> #[trigger] col_expands@[k] == grow * blank_columns(rows, k + 1),
        decreases w - col,
    {
        proof {
            lemma_blank_columns_bound(rows, col as int);
            lemma_blank_columns_bound(rows, col + 1);
            lemma_growth_fits(grow as int, blank_columns(rows, col + 1));
            assert(grow * (blank_columns(rows, col as int) + 1) == grow * blank_columns(rows, col as int) + grow)
                by (nonlinear_arith);
        }
        if is_blank_column(puzzle_input, col) {
            num_empty = num_empty + grow;
        }
        col_expands.push(num_empty);
        col = col + 1;
    }
    let mut galaxies: Vec<Galaxy> = Vec::new();
    let ghost mut gs: Seq<(int, int)> = Seq::empty();
    let mut row: usize = 0;
    while row < h
        invariant
            row <= h,
            h == rows.len(),
            w == rows[0].len(),
            rows == row_views(puzzle_input@),
            image(rows),
            grow == factor - 1,
            0 <= grow <= 0xffff_ffff_ffff_fffe,
            row_expands@.len() == h,
            col_expands@.len() == w,
            forall|k: int| 0 <= k < h ==> #[trigger] row_expands@[k] == grow * blank_rows(rows, k + 1),
            forall|k: int| 0 <= k < w ==> #[trigger] col_expands@[k] == grow * blank_columns(rows, k + 1),
            gs == galaxies_of(rows, factor, row as int),
            galaxies@.len() == gs.len(),
            forall|k: int| 0 <= k < gs.len() ==> (#[trigger] galaxies@[k]).0 == gs[k].0 && galaxies@[k].1 == gs[k].1,
        decreases h - row,
    {
        let line = puzzle_input[row];
        assert(rows[row as int] == line@);
        let ghost before = gs;
        let mut column: usize = 0;
        while column < w
            invariant
                column <= w,
                row < h,
                h == rows.len(),
                w == rows[0].len(),
                w == line@.len(),
                rows[row as int] == line@,
                grow == factor - 1,
                0 <= grow <= 0xffff_ffff_ffff_fffe,
                row_expands@.len() == h,
                col_expands@.len() == w,
                forall|k: int| 0 <= k < h ==> #[trigger] row_expands@[k] == grow * blank_rows(rows, k + 1),
                forall|k: int| 0 <= k < w ==> #[trigger] col_expands@[k] == grow * blank_columns(rows, k + 1),
                gs == before + row_galaxies(rows, factor, row as int, column as int),
                galaxies@.len() == gs.len(),
                forall|k: int|
                    0 <= k < gs.len() ==> (#[trigger] galaxies@[k]).0 == gs[k].0 && galaxies@[k].1 == gs[k].1,
            decreases w - column,
        {
            if line[column] == 35u8 {
                proof {
                    lemma_blank_rows_bound(rows, row + 1);
                    lemma_blank_columns_bound(rows, column + 1);
                    lemma_growth_fits(grow as int, blank_rows(rows, row + 1));
                    lemma_growth_fits(grow as int, blank_columns(rows, column + 1));
                    let found = (far_row(rows, factor, row as int), far_column(rows, factor, column as int));
                    assert(before + row_galaxies(rows, factor, row as int, column as int).push(found) =~= (
                    before + row_galaxies(rows, factor, row as int, column as int)).push(found));
                    gs = gs.push(found);
                }
                galaxies.push(Galaxy(row as u128 + row_expands[row], column as u128 + col_expands[column]));
            }
            column = column + 1;
        }
        row = row + 1;
    }
    let n = galaxies.len();
    let mut result: u128 = 0;
    let mut a: usize = 0;
    while a < n
        invariant
            a <= n,
            n == gs.len(),
            galaxies@.len() == n,
            gs == galaxies_of(rows, factor, h as int),
            rows == row_views(puzzle_input@),
            h == puzzle_input@.len(),
            factor == expansion_factor,
            forall|k: int| 0 <= k < gs.len() ==> (#[trigger] galaxies@[k]).0 == gs[k].0 && galaxies@[k].1 == gs[k].1,
            result == steps_total(gs, a as int),
        decreases n - a,
    {
        let mut b: usize = a + 1;
        let ghost start = result;
        while b < n
            invariant
                a < b <= n || (b == a + 1 && a + 1 >= n),
                a < n,
                n == gs.len(),
                galaxies@.len() == n,
                gs == galaxies_of(rows, factor, h as int),
                rows == row_views(puzzle_input@),
                h == puzzle_input@.len(),
                factor == expansion_factor,
                forall|k: int|
                    0 <= k < gs.len() ==> (#[trigger] galaxies@[k]).0 == gs[k].0 && galaxies@[k].1 == gs[k].1,
                start == steps_total(gs, a as int),
                result == start + steps_from(gs, a as int, b as int),
            decreases n - b,
        {
            let row1 = galaxies[a].0;
            let col1 = galaxies[a].1;
            let row2 = galaxies[b].0;
            let col2 = galaxies[b].1;
            let down = if row1 > row2 {
                row1 - row2
            } else {
                row2 - row1
            };
            let across = if col1 > col2 {
                col1 - col2
            } else {
                col2 - col1
            };
            let step = match down.checked_add(across) {
                Some(both) => result.checked_add(both),
                None => None,
            };
            match step {
                Some(sum) => {
                    result = sum;
                },
                None => {
                    proof {
                        lemma_steps_from_grows(gs, a as int, b + 1, n as int);
                        lemma_steps_total_grows(gs, a + 1, n as int);
                        lemma_steps_total_grows(gs, 0, a as int);
                        lemma_steps_from_grows(gs, a as int, b as int + 1, b as int + 1);
                    }
                    return None;
                },
            }
            b = b + 1;
        }
        a = a + 1;
    }
    if result <= usize::MAX as u128 {
        Some(result as usize)
    } else {
        None
    }
}

} // verus!
