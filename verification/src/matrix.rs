//! A two-dimensional `ndarray` array of optional entry positions.

use vstd::prelude::*;

verus! {

/// An `ndarray::Array2<Option<usize>>`, held opaquely.
#[verifier::external_body]
pub struct RatioMatrix {
    cells: ndarray::Array2<Option<usize>>,
}

/// The cells of a matrix, keyed by `(row, column)`.
pub uninterp spec fn matrix_cells(m: RatioMatrix) -> Map<(int, int), Option<usize>>;

/// The `(rows, columns)` the matrix was made with.
pub uninterp spec fn matrix_dims(m: RatioMatrix) -> (nat, nat);

/// The cells of a `rows` by `cols` matrix that all hold `elem`.
pub open spec fn uniform_cells(rows: nat, cols: nat, elem: Option<usize>) -> Map<(int, int), Option<usize>> {
    Map::new(|p: (int, int)| 0 <= p.0 < rows && 0 <= p.1 < cols, |p: (int, int)| elem)
}

impl RatioMatrix {
    /// `ndarray::Array2::from_elem((rows, cols), elem)`: a `rows` by `cols`
    /// array with `elem` in every cell. `from_elem` panics where the product
    /// of the non-zero axis lengths overflows `isize` (so also where one axis
    /// is zero and the other exceeds `isize::MAX`) or the bytes of the elements
    /// (at most 16 each) cannot be allocated; `requires` leaves those sizes out.
    #[verifier::external_body]
    pub(crate) fn from_elem(rows: usize, cols: usize, elem: Option<usize>) -> (m: RatioMatrix)
        requires
            rows <= isize::MAX,
            cols <= isize::MAX,
            rows * cols * 16 <= isize::MAX,
        ensures
            matrix_dims(m) == (rows as nat, cols as nat),
            matrix_cells(m) == uniform_cells(rows as nat, cols as nat, elem),
    {
        RatioMatrix { cells: ndarray::Array2::from_elem((rows, cols), elem) }
    }

    /// `array.dim()`: the `(rows, columns)` of the array.
    #[verifier::external_body]
    pub(crate) fn dim(&self) -> (d: (usize, usize))
        ensures
            d.0 as nat == matrix_dims(*self).0,
            d.1 as nat == matrix_dims(*self).1,
    {
        self.cells.dim()
    }

    /// `array[(row, col)]`: the cell at `(row, col)`; indexing panics outside
    /// the array, so `requires` keeps to it.
    #[verifier::external_body]
    pub(crate) fn get(&self, row: usize, col: usize) -> (v: Option<usize>)
        requires
            row < matrix_dims(*self).0,
            col < matrix_dims(*self).1,
        ensures
            v == matrix_cells(*self)[(row as int, col as int)],
    {
        self.cells[(row, col)]
    }

    /// `array[(row, col)] = v`: sets one cell and keeps the others and the
    /// dimensions; indexing panics outside the array, so `requires` keeps to it.
    #[verifier::external_body]
    pub(crate) fn set(&mut self, row: usize, col: usize, v: Option<usize>)
        requires
            row < matrix_dims(*old(self)).0,
            col < matrix_dims(*old(self)).1,
        ensures
            matrix_dims(*final(self)) == matrix_dims(*old(self)),
            matrix_cells(*final(self)) == matrix_cells(*old(self)).insert(
                (row as int, col as int),
                v,
            ),
    {
        self.cells[(row, col)] = v;
    }
}

} // verus!
