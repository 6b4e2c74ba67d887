//! Rectangular byte grids held in an `array2d::Array2D<u8>`.
//!
//! The items in this file are the trusted boundary to the `array2d` crate:
//! their contracts are taken from that crate's source and are not proved.

use array2d::Array2D;
use vstd::prelude::*;

verus! {

#[verifier::external_type_specification]
#[verifier::external_body]
#[verifier::reject_recursive_types(T)]
pub struct ExArray2D<T>(Array2D<T>);

#[verifier::external_type_specification]
#[verifier::external_body]
pub struct ExArray2DError(array2d::Error);

/// The rows of a grid, top to bottom, each left to right.
pub uninterp spec fn grid_rows(g: Array2D<u8>) -> Seq<Seq<u8>>;

/// The number of columns a grid was made with.
pub uninterp spec fn grid_width(g: Array2D<u8>) -> nat;

/// Whether every row of `rows` has `width` cells.
pub open spec fn rectangular(rows: Seq<Seq<u8>>, width: nat) -> bool {
    forall|i: int| 0 <= i < rows.len() ==> (#[trigger] rows[i]).len() == width
}

/// The number of rows of a grid.
pub open spec fn grid_height(g: Array2D<u8>) -> nat {
    grid_rows(g).len()
}

/// The cell at `(row, column)`.
pub open spec fn cell(g: Array2D<u8>, row: int, column: int) -> u8 {
    grid_rows(g)[row][column]
}

/// Whether `(row, column)` lies on the grid.
pub open spec fn in_grid(g: Array2D<u8>, row: int, column: int) -> bool {
    0 <= row < grid_height(g) && 0 <= column < grid_width(g)
}

/// The views of a sequence of byte vectors.
pub open spec fn row_views(rows: Seq<Vec<u8>>) -> Seq<Seq<u8>> {
    rows.map_values(|r: Vec<u8>| r@)
}

/// `Array2D::from_rows`: succeeds exactly when all rows are as long as the
/// first; the grid then holds the rows as given, and its width is the length
/// of the first row, or 0 when there is none.
#[verifier::external_body]
pub(crate) fn grid_from_rows(rows: &[Vec<u8>]) -> (r: Result<Array2D<u8>, array2d::Error>)
    ensures
        r is Ok <==> (forall|i: int| 0 <= i < rows@.len() ==> (#[trigger] rows@[i])@.len() == rows@[0]@.len()),
        r matches Ok(g) ==> {
            &&& grid_rows(g) == row_views(rows@)
            &&& grid_width(g) == (if rows@.len() > 0 { rows@[0]@.len() } else { 0 })
            &&& rectangular(grid_rows(g), grid_width(g))
        },
{
    Array2D::from_rows(rows)
}

/// `Array2D::filled_with`: a grid of the given size with `element` in every
/// cell. The product of the two sizes must fit in `usize`.
#[verifier::external_body]
pub(crate) fn grid_filled_with(element: u8, num_rows: usize, num_columns: usize) -> (g: Array2D<u8>)
    requires
        num_rows * num_columns <= usize::MAX,
    ensures
        grid_rows(g) == Seq::new(num_rows as nat, |i: int| Seq::new(num_columns as nat, |j: int| element)),
        grid_width(g) == num_columns,
        rectangular(grid_rows(g), grid_width(g)),
{
    Array2D::filled_with(element, num_rows, num_columns)
}

/// `Array2D::num_rows`: the number of rows.
#[verifier::external_body]
pub(crate) fn grid_num_rows(g: &Array2D<u8>) -> (n: usize)
    ensures
        n == grid_height(*g),
{
    g.num_rows()
}

/// `Array2D::num_columns`: the number of columns, which is the length of
/// every row.
#[verifier::external_body]
pub(crate) fn grid_num_columns(g: &Array2D<u8>) -> (n: usize)
    ensures
        n == grid_width(*g),
        rectangular(grid_rows(*g), n as nat),
{
    g.num_columns()
}

/// `Array2D::get`: the cell at `(row, column)` when that lies on the grid,
/// and nothing otherwise.
#[verifier::external_body]
pub(crate) fn grid_get(g: &Array2D<u8>, row: usize, column: usize) -> (r: Option<u8>)
    ensures
        r == (if in_grid(*g, row as int, column as int) {
            Some(cell(*g, row as int, column as int))
        } else {
            None
        }),
{
    g.get(row, column).copied()
}

/// `Array2D::set`: writes `element` at `(row, column)` when that lies on the
/// grid and leaves every other cell, and the size, as they were; off the grid
/// it fails and changes nothing.
#[verifier::external_body]
pub(crate) fn grid_set(g: &mut Array2D<u8>, row: usize, column: usize, element: u8) -> (r: Result<(), array2d::Error>)
    ensures
        r is Ok <==> in_grid(*old(g), row as int, column as int),
        grid_width(*final(g)) == grid_width(*old(g)),
        rectangular(grid_rows(*final(g)), grid_width(*final(g))),
        r is Ok ==> grid_rows(*final(g)) == grid_rows(*old(g)).update(
            row as int,
            grid_rows(*old(g))[row as int].update(column as int, element),
        ),
        r is Err ==> grid_rows(*final(g)) == grid_rows(*old(g)),
{
    g.set(row, column, element)
}

/// `Array2D::clone`: a grid with the same rows and width.
#[verifier::external_body]
pub(crate) fn grid_clone(g: &Array2D<u8>) -> (c: Array2D<u8>)
    ensures
        grid_rows(c) == grid_rows(*g),
        grid_width(c) == grid_width(*g),
{
    g.clone()
}

/// `Array2D::eq`: whether two grids have the same size and the same cells.
#[verifier::external_body]
pub(crate) fn grid_eq(a: &Array2D<u8>, b: &Array2D<u8>) -> (same: bool)
    ensures
        same == (grid_rows(*a) == grid_rows(*b) && grid_width(*a) == grid_width(*b)),
{
    a == b
}

} // verus!
