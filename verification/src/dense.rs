//! The dense matrix of `p3_matrix`, with cells that are representatives of field elements.
use p3_matrix::dense::DenseMatrix;
use p3_matrix::Matrix;
use vstd::prelude::*;

verus! {

/// `p3_matrix::dense::DenseMatrix`, a matrix stored row by row.
#[verifier::external_type_specification]
#[verifier::external_body]
#[verifier::reject_recursive_types(T)]
#[verifier::reject_recursive_types(V)]
pub struct ExDenseMatrix<T, V>(DenseMatrix<T, V>);

/// The cells of a dense matrix, row by row.
pub uninterp spec fn dense_cells(m: DenseMatrix<u64, Vec<u64>>) -> Seq<u64>;

/// The number of cells in a row of a dense matrix.
pub uninterp spec fn dense_width(m: DenseMatrix<u64, Vec<u64>>) -> nat;

/// The number of full rows.
pub open spec fn dense_height(m: DenseMatrix<u64, Vec<u64>>) -> nat {
    if dense_width(m) == 0 {
        0
    } else {
        dense_cells(m).len() / dense_width(m)
    }
}

/// All rows are full.
pub open spec fn dense_full(m: DenseMatrix<u64, Vec<u64>>) -> bool {
    if dense_width(m) == 0 {
        dense_cells(m).len() == 0
    } else {
        dense_cells(m).len() % dense_width(m) == 0
    }
}

/// `DenseMatrix::new`: the matrix with the given cells and width. The width divides the number of
/// cells, unless it is zero.
#[verifier::external_body]
pub(crate) fn dense_new(values: Vec<u64>, width: usize) -> (m: DenseMatrix<u64, Vec<u64>>)
    requires
        width == 0 || values@.len() % (width as nat) == 0,
    ensures
        dense_cells(m) == values@,
        dense_width(m) == width,
{
    DenseMatrix::new(values, width)
}

/// `Matrix::height` of a dense matrix: the number of cells divided by the width, and zero for the
/// width zero.
#[verifier::external_body]
pub(crate) fn dense_height_of(m: &DenseMatrix<u64, Vec<u64>>) -> (r: usize)
    ensures
        r == dense_height(*m),
{
    m.height()
}

/// The `width` field of `DenseMatrix`.
#[verifier::external_body]
pub(crate) fn dense_width_of(m: &DenseMatrix<u64, Vec<u64>>) -> (r: usize)
    ensures
        r == dense_width(*m),
{
    m.width
}

/// The `values` field of `DenseMatrix`.
#[verifier::external_body]
pub(crate) fn dense_values_of(m: &DenseMatrix<u64, Vec<u64>>) -> (r: &Vec<u64>)
    ensures
        r@ == dense_cells(*m),
{
    &m.values
}

/// `DenseMatrix::row_mut` and an assignment into the row: changes one cell.
#[verifier::external_body]
pub(crate) fn dense_set(m: &mut DenseMatrix<u64, Vec<u64>>, row: usize, col: usize, value: u64)
    requires
        col < dense_width(*old(m)),
        row < dense_height(*old(m)),
    ensures
        dense_width(*final(m)) == dense_width(*old(m)),
        dense_cells(*final(m)) == dense_cells(*old(m)).update(
            row * dense_width(*old(m)) + col,
            value,
        ),
{
    m.row_mut(row)[col] = value;
}

/// `DenseMatrix::pad_to_height`: keeps the cells and appends rows of `fill` up to the given height.
#[verifier::external_body]
pub(crate) fn dense_pad_to_height(m: &mut DenseMatrix<u64, Vec<u64>>, new_height: usize, fill: u64)
    requires
        new_height >= dense_height(*old(m)),
        dense_width(*old(m)) * new_height <= usize::MAX,
        dense_full(*old(m)),
    ensures
        dense_width(*final(m)) == dense_width(*old(m)),
        dense_cells(*final(m)) == dense_cells(*old(m)) + Seq::new(
            (dense_width(*old(m)) * new_height - dense_cells(*old(m)).len()) as nat,
            |i: int| fill,
        ),
{
    m.pad_to_height(new_height, fill);
}

} // verus!
