//! Numbers in an engine schematic, and the symbols next to them.

use crate::text::{i32_of, is_digit, is_utf8, parse_i32, views};
use vstd::prelude::*;

verus! {

/// A number in the schematic: the row it stands in, the columns from
/// `start` up to, but without, `end` that hold its digits, and its value.
#[derive(Debug, Clone, Copy, PartialEq, Eq, Structural)]
pub struct EngineNumber {
    pub row_index: usize,
    pub start: usize,
    pub end: usize,
    pub number: i32,
}

/// Whether the character is a symbol: neither a digit nor a dot.
pub open spec fn symbol(c: u8) -> bool {
    !is_digit(c) && c != 46
}

/// Tells whether the character is a symbol.
pub fn is_symbol(c: u8) -> (b: bool)
    ensures
        b == symbol(c),
{
    !(48 <= c && c <= 57) && c != 46
}

/// Whether the cell `(i, j)` of a schematic of `num_rows` by `num_cols`
/// cells is next to the number: in its row or the one above or below, from
/// the column before its first digit to the column after its last, and not
/// on one of its digits.
pub open spec fn near(number: EngineNumber, num_rows: int, num_cols: int, i: int, j: int) -> bool {
    &&& 0 <= i < num_rows
    &&& 0 <= j < num_cols
    &&& number.row_index - 1 <= i <= number.row_index + 1
    &&& number.start - 1 <= j <= number.end
    &&& (i != number.row_index || j < number.start || j == number.end)
}

/// Whether the cells are listed row by row, each row from the left, and
/// none twice.
pub open spec fn in_reading_order(cells: Seq<(usize, usize)>) -> bool {
    forall|a: int, b: int|
        0 <= a < b < cells.len() ==> (#[trigger] cells[a]).0 < (#[trigger] cells[b]).0 || (cells[a].0 == cells[b].0
            && cells[a].1 < cells[b].1)
}

impl EngineNumber {
    /// The cells next to the number in a schematic of `num_rows` by
    /// `num_cols` cells.
    pub fn get_neighbors(&self, num_rows: usize, num_cols: usize) -> (cells: Vec<(usize, usize)>)
        ensures
            in_reading_order(cells@),
            forall|i: usize, j: usize|
                cells@.contains((i, j)) <==> near(*self, num_rows as int, num_cols as int, i as int, j as int),
    {
        let start_row = if self.row_index > 0 {
            self.row_index - 1
        } else {
            0
        };
        let start_col = if self.start > 0 {
            self.start - 1
        } else {
            0
        };
        let mut cells: Vec<(usize, usize)> = Vec::new();
        let mut i: usize = start_row;
        while i < num_rows && i <= self.row_index.saturating_add(1)
            invariant
                start_row <= i,
                start_row == (if self.row_index > 0 {
                    self.row_index - 1
                } else {
                    0
                }),
                start_col == (if self.start > 0 {
                    self.start - 1
                } else {
                    0
                }),
                in_reading_order(cells@),
                forall|k: int| 0 <= k < cells@.len() ==> (#[trigger] cells@[k]).0 < i,
                forall|a: usize, b: usize|
                    cells@.contains((a, b)) <==> near(*self, num_rows as int, num_cols as int, a as int, b as int)
                        && a < i,
            decreases num_rows - i,
        {
            let mut j: usize = start_col;
            while j < num_cols && j <= self.end
                invariant
                    start_col <= j,
                    i < num_rows,
                    start_row <= i <= self.row_index + 1,
                    start_row == (if self.row_index > 0 {
                        self.row_index - 1
                    } else {
                        0
                    }),
                    start_col == (if self.start > 0 {
                        self.start - 1
                    } else {
                        0
                    }),
                    in_reading_order(cells@),
                    forall|k: int|
                        0 <= k < cells@.len() ==> (#[trigger] cells@[k]).0 < i || (cells@[k].0 == i && cells@[k].1
                            < j),
                    forall|a: usize, b: usize|
                        cells@.contains((a, b)) <==> near(
                            *self,
                            num_rows as int,
                            num_cols as int,
                            a as int,
                            b as int,
                        ) && (a < i || (a == i && b < j)),
                decreases num_cols - j,
            {
                if i != self.row_index || j < self.start || j == self.end {
                    let ghost before = cells@;
                    cells.push((i, j));
                    proof {
                        assert(cells@[before.len() as int] == (i, j));
                        assert forall|a: usize, b: usize| cells@.contains((a, b)) implies before.contains((a, b)) || (
                        a,
                        b,
                        ) == (i, j) by {
                            let k = choose|k: int| 0 <= k < cells@.len() && cells@[k] == (a, b);
                            if k < before.len() {
                                assert(before[k] == (a, b));
                            }
                        }
                        assert forall|a: usize, b: usize| before.contains((a, b)) implies cells@.contains((a, b)) by {
                            let k = choose|k: int| 0 <= k < before.len() && before[k] == (a, b);
                            assert(cells@[k] == (a, b));
                        }
                    }
                }
                j = j + 1;
            }
            i = i + 1;
        }
        cells
    }
}

/// Whether the schematic has a row, and every row is as long as the first.
pub open spec fn schematic(rows: Seq<Seq<u8>>) -> bool {
    rows.len() > 0 && forall|i: int| 0 <= i < rows.len() ==> (#[trigger] rows[i]).len() == rows[0].len()
}

/// Whether a symbol stands next to the number.
pub open spec fn is_part(number: EngineNumber, rows: Seq<Seq<u8>>) -> bool {
    exists|i: usize, j: usize|
        near(number, rows.len() as int, rows[0].len() as int, i as int, j as int) && symbol(
            #[trigger] rows[i as int][j as int],
        )
}

impl EngineNumber {
    /// Tells whether a symbol stands next to the number.
    pub fn is_part_number(&self, puzzle_input: &[&[u8]]) -> (b: bool)
        requires
            schematic(views(puzzle_input@)),
        ensures
            b == is_part(*self, views(puzzle_input@)),
    {
        let ghost rows = views(puzzle_input@);
        let num_rows = puzzle_input.len();
        assert(rows[0] == puzzle_input@[0]@);
        let num_cols = puzzle_input[0].len();
        let cells = self.get_neighbors(num_rows, num_cols);
        let mut k: usize = 0;
        while k < cells.len()
            invariant
                k <= cells@.len(),
                rows == views(puzzle_input@),
                schematic(rows),
                num_rows == rows.len(),
                num_cols == rows[0].len(),
                forall|i: usize, j: usize|
                    cells@.contains((i, j)) <==> near(*self, num_rows as int, num_cols as int, i as int, j as int),
                forall|m: int| 0 <= m < k ==> !symbol(rows[(#[trigger] cells@[m]).0 as int][cells@[m].1 as int]),
            decreases cells@.len() - k,
        {
            let (i, j) = cells[k];
            assert(cells@[k as int] == (i, j));
            assert(cells@.contains((i, j)));
            assert(near(*self, num_rows as int, num_cols as int, i as int, j as int));
            assert(rows[i as int] == puzzle_input@[i as int]@);
            if is_symbol(puzzle_input[i][j]) {
                return true;
            }
            k = k + 1;
        }
        proof {
            assert forall|i: usize, j: usize|
                near(*self, rows.len() as int, rows[0].len() as int, i as int, j as int) implies !symbol(
                #[trigger] rows[i as int][j as int],
            ) by {
                assert(cells@.contains((i, j)));
                let m = choose|m: int| 0 <= m < cells@.len() && cells@[m] == (i, j);
                assert(!symbol(rows[cells@[m].0 as int][cells@[m].1 as int]));
            }
        }
        false
    }
}

/// Why the numbers of a schematic cannot be read.
#[derive(Debug, Clone, Copy, PartialEq, Eq, Structural)]
pub enum EngineError {
    /// A line is no UTF-8 text.
    NotUtf8,
    /// A number does not fit in 32 bits.
    BadNumber,
}

/// The numbers `acc` and, after them, those that stand in the line from
/// index `i` on, where `open` is the index at which a run of digits that
/// reaches up to `i` began. A number is a run of digits that is as long as
/// can be; there is nothing when one of them does not fit in 32 bits.
pub open spec fn scan_line(line: Seq<u8>, row: usize, i: int, open: Option<int>, acc: Seq<EngineNumber>) -> Option<
    Seq<EngineNumber>,
>
    decreases line.len() - i,
{
    if i < 0 {
        None
    } else if i >= line.len() {
        match open {
            None => Some(acc),
            Some(start) => match i32_of(line.subrange(start, line.len() as int)) {
                Some(number) => Some(
                    acc.push(EngineNumber { row_index: row, start: start as usize, end: line.len() as usize, number }),
                ),
                None => None,
            },
        }
    } else if is_digit(line[i]) {
        scan_line(
            line,
            row,
            i + 1,
            if open is None {
                Some(i)
            } else {
                open
            },
            acc,
        )
    } else {
        match open {
            None => scan_line(line, row, i + 1, None, acc),
            Some(start) => match i32_of(line.subrange(start, i)) {
                Some(number) => scan_line(
                    line,
                    row,
                    i + 1,
                    None,
                    acc.push(EngineNumber { row_index: row, start: start as usize, end: i as usize, number }),
                ),
                None => None,
            },
        }
    }
}

/// The numbers of the first `n` rows, row by row, or the first reason why
/// they cannot be read.
pub open spec fn numbers_upto(rows: Seq<Seq<u8>>, n: int) -> Result<Seq<EngineNumber>, EngineError>
    decreases n,
{
    if n <= 0 {
        Ok(Seq::empty())
    } else {
        match numbers_upto(rows, n - 1) {
            Err(e) => Err(e),
            Ok(acc) => if !vstd::utf8::valid_utf8(rows[n - 1]) {
                Err(EngineError::NotUtf8)
            } else {
                match scan_line(rows[n - 1], (n - 1) as usize, 0, None, acc) {
                    None => Err(EngineError::BadNumber),
                    Some(all) => Ok(all),
                }
            },
        }
    }
}

/// If the first `i` rows cannot be read, the first `n` cannot, for the same
/// reason.
pub proof fn lemma_numbers_upto_prefix(rows: Seq<Seq<u8>>, i: int, n: int)
    requires
        0 <= i <= n,
        numbers_upto(rows, i) is Err,
    ensures
        numbers_upto(rows, n) == numbers_upto(rows, i),
    decreases n - i,
{
    if i < n {
        lemma_numbers_upto_prefix(rows, i, n - 1);
    }
}

/// Reads the numbers of the schematic, row by row.
pub fn find_engine_numbers(puzzle_input: &[&[u8]]) -> (r: Result<Vec<EngineNumber>, EngineError>)
    ensures
        match r {
            Ok(numbers) => numbers_upto(views(puzzle_input@), puzzle_input@.len() as int) == Ok::<
                Seq<EngineNumber>,
                EngineError,
            >(numbers@),
            Err(e) => numbers_upto(views(puzzle_input@), puzzle_input@.len() as int) == Err::<
                Seq<EngineNumber>,
                EngineError,
            >(e),
        },
{
    let ghost rows = views(puzzle_input@);
    let mut result: Vec<EngineNumber> = Vec::new();
    let mut n: usize = 0;
    while n < puzzle_input.len()
        invariant
            n <= puzzle_input@.len(),
            rows == views(puzzle_input@),
            numbers_upto(rows, n as int) == Ok::<Seq<EngineNumber>, EngineError>(result@),
        decreases puzzle_input@.len() - n,
    {
        let line = puzzle_input[n];
        assert(rows[n as int] == line@);
        if !is_utf8(line) {
            proof {
                lemma_numbers_upto_prefix(rows, n + 1, rows.len() as int);
            }
            return Err(EngineError::NotUtf8);
        }
        let ghost first = result@;
        let mut open: Option<usize> = None;
        let mut i: usize = 0;
        while i < line.len()
            invariant
                i <= line@.len(),
                n < puzzle_input@.len(),
                rows == views(puzzle_input@),
                rows[n as int] == line@,
                vstd::utf8::valid_utf8(line@),
                numbers_upto(rows, n as int) == Ok::<Seq<EngineNumber>, EngineError>(first),
                open matches Some(start) ==> start < i,
                scan_line(line@, n, 0, None, first) == scan_line(
                    line@,
                    n,
                    i as int,
                    match open {
                        Some(start) => Some(start as int),
                        None => None,
                    },
                    result@,
                ),
            decreases line@.len() - i,
        {
            let c = line[i];
            if 48 <= c && c <= 57 {
                if open.is_none() {
                    open = Some(i);
                }
            } else {
                match open {
                    None => {},
                    Some(start) => {
                        match parse_i32(&line[start..i]) {
                            Some(number) => {
                                result.push(EngineNumber { row_index: n, start, end: i, number });
                            },
                            None => {
                                proof {
                                    lemma_numbers_upto_prefix(rows, n + 1, rows.len() as int);
                                }
                                return Err(EngineError::BadNumber);
                            },
                        }
                        open = None;
                    },
                }
            }
            i = i + 1;
        }
        match open {
            None => {},
            Some(start) => {
                match parse_i32(&line[start..line.len()]) {
                    Some(number) => {
                        result.push(EngineNumber { row_index: n, start, end: line.len(), number });
                    },
                    None => {
                        proof {
                            lemma_numbers_upto_prefix(rows, n + 1, rows.len() as int);
                        }
                        return Err(EngineError::BadNumber);
                    },
                }
            },
        }
        n = n + 1;
    }
    Ok(result)
}

/// The sum of those of the first `n` numbers that stand next to a symbol,
/// as far as it fits in 32 bits at every step.
pub open spec fn part_sum(rows: Seq<Seq<u8>>, numbers: Seq<EngineNumber>, n: int) -> Option<i32>
    decreases n,
{
    if n <= 0 {
        Some(0)
    } else {
        match part_sum(rows, numbers, n - 1) {
            None => None,
            Some(sum) => if !is_part(numbers[n - 1], rows) {
                Some(sum)
            } else if i32::MIN <= sum + numbers[n - 1].number <= i32::MAX {
                Some((sum + numbers[n - 1].number) as i32)
            } else {
                None
            },
        }
    }
}

/// If the first `i` numbers have no sum, neither have the first `n`.
pub proof fn lemma_part_sum_prefix(rows: Seq<Seq<u8>>, numbers: Seq<EngineNumber>, i: int, n: int)
    requires
        0 <= i <= n,
        part_sum(rows, numbers, i) is None,
    ensures
        part_sum(rows, numbers, n) is None,
    decreases n - i,
{
    if i < n {
        lemma_part_sum_prefix(rows, numbers, i, n - 1);
    }
}

/// The sum of the numbers that stand next to a symbol.
pub fn part1(puzzle_input: &[&[u8]], engine_numbers: &[EngineNumber]) -> (r: Option<i32>)
    requires
        schematic(views(puzzle_input@)),
    ensures
        r == part_sum(views(puzzle_input@), engine_numbers@, engine_numbers@.len() as int),
{
    let ghost rows = views(puzzle_input@);
    let mut sum: i32 = 0;
    let mut n: usize = 0;
    while n < engine_numbers.len()
        invariant
            n <= engine_numbers@.len(),
            rows == views(puzzle_input@),
            schematic(rows),
            part_sum(rows, engine_numbers@, n as int) == Some(sum),
        decreases engine_numbers@.len() - n,
    {
        let engine_number = engine_numbers[n];
        if engine_number.is_part_number(puzzle_input) {
            match sum.checked_add(engine_number.number) {
                Some(v) => {
                    sum = v;
                },
                None => {
                    proof {
                        lemma_part_sum_prefix(rows, engine_numbers@, n + 1, engine_numbers@.len() as int);
                    }
                    return None;
                },
            }
        }
        n = n + 1;
    }
    Some(sum)
}

/// Whether one of the first `n` numbers stands next to the cell `(i, j)`,
/// and the product of the negated numbers that do; nothing when a product
/// does not fit in 32 bits.
pub open spec fn gear_product(
    numbers: Seq<EngineNumber>,
    num_rows: int,
    num_cols: int,
    i: int,
    j: int,
    n: int,
) -> Option<(bool, i32)>
    decreases n,
{
    if n <= 0 {
        Some((false, 1i32))
    } else {
        match gear_product(numbers, num_rows, num_cols, i, j, n - 1) {
            None => None,
            Some((touched, product)) => if !near(numbers[n - 1], num_rows, num_cols, i, j) {
                Some((touched, product))
            } else if i32::MIN <= product * (-numbers[n - 1].number) <= i32::MAX && numbers[n - 1].number
                != i32::MIN {
                Some((true, (product * (-numbers[n - 1].number)) as i32))
            } else {
                None
            },
        }
    }
}

/// If the first `k` numbers give no product, neither do the first `n`.
pub proof fn lemma_gear_product_prefix(
    numbers: Seq<EngineNumber>,
    num_rows: int,
    num_cols: int,
    i: int,
    j: int,
    k: int,
    n: int,
)
    requires
        0 <= k <= n,
        gear_product(numbers, num_rows, num_cols, i, j, k) is None,
    ensures
        gear_product(numbers, num_rows, num_cols, i, j, n) is None,
    decreases n - k,
{
    if k < n {
        lemma_gear_product_prefix(numbers, num_rows, num_cols, i, j, k, n - 1);
    }
}

/// What the cell `(i, j)` adds to the sum: the product of the negated
/// numbers next to it where it holds an asterisk, has a number next to it
/// and the product is not negative, and 0 otherwise.
pub open spec fn gear_value(rows: Seq<Seq<u8>>, numbers: Seq<EngineNumber>, i: int, j: int) -> Option<i32> {
    if rows[i][j] != 42u8 {
        Some(0i32)
    } else {
        match gear_product(numbers, rows.len() as int, rows[0].len() as int, i, j, numbers.len() as int) {
            None => None,
            Some((touched, product)) => if touched && product >= 0 {
                Some(product)
            } else {
                Some(0i32)
            },
        }
    }
}

/// The sum of what the first `m` cells of row `i` add, as far as it fits
/// in 32 bits.
pub open spec fn row_gears(rows: Seq<Seq<u8>>, numbers: Seq<EngineNumber>, i: int, m: int) -> Option<i32>
    decreases m,
{
    if m <= 0 {
        Some(0)
    } else {
        match (row_gears(rows, numbers, i, m - 1), gear_value(rows, numbers, i, m - 1)) {
            (Some(sum), Some(value)) => if sum + value <= i32::MAX {
                Some((sum + value) as i32)
            } else {
                None
            },
            _ => None,
        }
    }
}

/// The sum of what the cells of the first `n` rows add, as far as it fits
/// in 32 bits.
pub open spec fn gears(rows: Seq<Seq<u8>>, numbers: Seq<EngineNumber>, n: int) -> Option<i32>
    decreases n,
{
    if n <= 0 {
        Some(0)
    } else {
        match (gears(rows, numbers, n - 1), row_gears(rows, numbers, n - 1, rows[0].len() as int)) {
            (Some(sum), Some(value)) => if sum + value <= i32::MAX {
                Some((sum + value) as i32)
            } else {
                None
            },
            _ => None,
        }
    }
}

/// If the first `k` cells of a row have no sum, neither have the first `m`.
pub proof fn lemma_row_gears_prefix(rows: Seq<Seq<u8>>, numbers: Seq<EngineNumber>, i: int, k: int, m: int)
    requires
        0 <= k <= m,
        row_gears(rows, numbers, i, k) is None,
    ensures
        row_gears(rows, numbers, i, m) is None,
    decreases m - k,
{
    if k < m {
        lemma_row_gears_prefix(rows, numbers, i, k, m - 1);
    }
}

/// If the first `k` rows have no sum, neither have the first `n`.
pub proof fn lemma_gears_prefix(rows: Seq<Seq<u8>>, numbers: Seq<EngineNumber>, k: int, n: int)
    requires
        0 <= k <= n,
        gears(rows, numbers, k) is None,
    ensures
        gears(rows, numbers, n) is None,
    decreases n - k,
{
    if k < n {
        lemma_gears_prefix(rows, numbers, k, n - 1);
    }
}

/// Tells whether the cell `(i, j)` is next to the number.
pub fn is_near(number: &EngineNumber, num_rows: usize, num_cols: usize, i: usize, j: usize) -> (b: bool)
    ensures
        b == near(*number, num_rows as int, num_cols as int, i as int, j as int),
{
    i < num_rows && j < num_cols && (number.row_index == 0 || number.row_index - 1 <= i) && (i == 0 || i - 1
        <= number.row_index) && (number.start == 0 || number.start - 1 <= j) && j <= number.end && (i
        != number.row_index || j < number.start || j == number.end)
}

/// What the cell `(i, j)` adds to the sum.
fn get_gear_value(puzzle_input: &[&[u8]], engine_numbers: &[EngineNumber], i: usize, j: usize) -> (r: Option<i32>)
    requires
        schematic(views(puzzle_input@)),
        i < puzzle_input@.len(),
        j < views(puzzle_input@)[0].len(),
    ensures
        r == gear_value(views(puzzle_input@), engine_numbers@, i as int, j as int),
        r matches Some(v) ==> v >= 0,
{
    let ghost rows = views(puzzle_input@);
    assert(rows[0] == puzzle_input@[0]@);
    assert(rows[i as int] == puzzle_input@[i as int]@);
    let num_rows = puzzle_input.len();
    let num_cols = puzzle_input[0].len();
    if puzzle_input[i][j] != 42 {
        return Some(0);
    }
    let mut touched = false;
    let mut product: i32 = 1;
    let mut n: usize = 0;
    while n < engine_numbers.len()
        invariant
            n <= engine_numbers@.len(),
            rows == views(puzzle_input@),
            num_rows == rows.len(),
            num_cols == rows[0].len(),
            rows[i as int][j as int] == 42u8,
            gear_product(engine_numbers@, num_rows as int, num_cols as int, i as int, j as int, n as int) == Some(
                (touched, product),
            ),
        decreases engine_numbers@.len() - n,
    {
        let engine_number = engine_numbers[n];
        if is_near(&engine_number, num_rows, num_cols, i, j) {
            let next = if engine_number.number == i32::MIN {
                None
            } else {
                product.checked_mul(-engine_number.number)
            };
            match next {
                Some(v) => {
                    product = v;
                    touched = true;
                },
                None => {
                    proof {
                        lemma_gear_product_prefix(
                            engine_numbers@,
                            num_rows as int,
                            num_cols as int,
                            i as int,
                            j as int,
                            n + 1,
                            engine_numbers@.len() as int,
                        );
                    }
                    return None;
                },
            }
        }
        n = n + 1;
    }
    if touched && product >= 0 {
        Some(product)
    } else {
        Some(0)
    }
}

/// The sum, over the asterisks that have numbers next to them, of the
/// product of the negated numbers, where that is not negative: for an
/// asterisk between two numbers, their product.
pub fn part2(puzzle_input: &[&[u8]], engine_numbers: &[EngineNumber]) -> (r: Option<i32>)
    requires
        schematic(views(puzzle_input@)),
    ensures
        r == gears(views(puzzle_input@), engine_numbers@, puzzle_input@.len() as int),
{
    let ghost rows = views(puzzle_input@);
    assert(rows[0] == puzzle_input@[0]@);
    let num_rows = puzzle_input.len();
    let num_cols = puzzle_input[0].len();
    let mut sum: i32 = 0;
    let mut i: usize = 0;
    while i < num_rows
        invariant
            i <= num_rows,
            rows == views(puzzle_input@),
            schematic(rows),
            num_rows == rows.len(),
            num_cols == rows[0].len(),
            sum >= 0,
            gears(rows, engine_numbers@, i as int) == Some(sum),
        decreases num_rows - i,
    {
        let mut row_sum: i32 = 0;
        let mut j: usize = 0;
        while j < num_cols
            invariant
                j <= num_cols,
                i < num_rows,
                rows == views(puzzle_input@),
                schematic(rows),
                num_rows == rows.len(),
                num_cols == rows[0].len(),
                row_sum >= 0,
                gears(rows, engine_numbers@, i as int) == Some(sum),
                row_gears(rows, engine_numbers@, i as int, j as int) == Some(row_sum),
            decreases num_cols - j,
        {
            let next = match get_gear_value(puzzle_input, engine_numbers, i, j) {
                Some(value) => row_sum.checked_add(value),
                None => None,
            };
            match next {
                Some(v) => {
                    row_sum = v;
                },
                None => {
                    proof {
                        lemma_row_gears_prefix(rows, engine_numbers@, i as int, j + 1, num_cols as int);
                        lemma_gears_prefix(rows, engine_numbers@, i + 1, num_rows as int);
                    }
                    return None;
                },
            }
            j = j + 1;
        }
        match sum.checked_add(row_sum) {
            Some(v) => {
                sum = v;
            },
            None => {
                proof {
                    lemma_gears_prefix(rows, engine_numbers@, i + 1, num_rows as int);
                }
                return None;
            },
        }
        i = i + 1;
    }
    Some(sum)
}

} // verus!
