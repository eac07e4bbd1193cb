//! Two-dimensional arrays of the `ndarray` crate, seen as sequences of rows.

use vstd::prelude::*;

verus! {

/// The cells of a square board, held in an `ndarray::Array2<u8>`.
#[verifier::external_body]
pub struct CellGrid {
    cells: ndarray::Array2<u8>,
}

/// The rows of a cell grid, top to bottom, each from left to right.
pub uninterp spec fn cell_rows(grid: CellGrid) -> Seq<Seq<u8>>;

/// `rows` holds `height` rows of `width` entries each.
pub open spec fn has_shape<T>(rows: Seq<Seq<T>>, height: int, width: int) -> bool {
    &&& rows.len() == height
    &&& forall|r: int| 0 <= r < height ==> (#[trigger] rows[r]).len() == width
}

/// `rows` with the entry at (`row`, `col`) replaced by `value`.
pub open spec fn with_cell<T>(rows: Seq<Seq<T>>, row: int, col: int, value: T) -> Seq<Seq<T>> {
    rows.update(row, rows[row].update(col, value))
}

/// `height` rows of `width` copies of `value`.
pub open spec fn uniform<T>(height: nat, width: nat, value: T) -> Seq<Seq<T>> {
    Seq::new(height, |r: int| Seq::new(width, |c: int| value))
}

impl View for CellGrid {
    type V = Seq<Seq<u8>>;

    open spec fn view(&self) -> Seq<Seq<u8>> {
        cell_rows(*self)
    }
}

impl CellGrid {
    /// Calls `Array2::zeros`: `size` rows of `size` zeros. The call panics when the number
    /// of entries does not fit in an `isize`, which the precondition rules out.
    #[verifier::external_body]
    pub(crate) fn zeros(size: usize) -> (grid: CellGrid)
        requires
            size * size <= isize::MAX,
        ensures
            cell_rows(grid) == uniform(size as nat, size as nat, 0u8),
    {
        CellGrid { cells: ndarray::Array2::zeros((size, size)) }
    }

    /// Calls the `Index` operator of `Array2`: the entry at (`row`, `col`). The call panics
    /// outside the array.
    #[verifier::external_body]
    pub(crate) fn at(&self, row: usize, col: usize) -> (cell: u8)
        requires
            row < cell_rows(*self).len(),
            col < cell_rows(*self)[row as int].len(),
        ensures
            cell == cell_rows(*self)[row as int][col as int],
    {
        self.cells[[row, col]]
    }

    /// Calls the `IndexMut` operator of `Array2`: replaces the entry at (`row`, `col`) and
    /// keeps every other. The call panics outside the array.
    #[verifier::external_body]
    pub(crate) fn put(&mut self, row: usize, col: usize, cell: u8)
        requires
            row < cell_rows(*old(self)).len(),
            col < cell_rows(*old(self))[row as int].len(),
        ensures
            cell_rows(*final(self)) == with_cell(cell_rows(*old(self)), row as int, col as int, cell),
    {
        self.cells[[row, col]] = cell;
    }

    /// Calls `Array2::clone`: an array with the same entries.
    #[verifier::external_body]
    pub(crate) fn duplicate(&self) -> (grid: CellGrid)
        ensures
            cell_rows(grid) == cell_rows(*self),
    {
        CellGrid { cells: self.cells.clone() }
    }
}

/// A table of visit counts, held in an `ndarray::Array2<usize>` with at least one row.
#[verifier::external_body]
pub struct VisitGrid {
    visits: ndarray::Array2<usize>,
}

/// The rows of a visit grid, top to bottom, each from left to right.
pub uninterp spec fn visit_rows(grid: VisitGrid) -> Seq<Seq<usize>>;

impl View for VisitGrid {
    type V = Seq<Seq<usize>>;

    open spec fn view(&self) -> Seq<Seq<usize>> {
        visit_rows(*self)
    }
}

impl VisitGrid {
    /// Calls `Array2::from_elem`: `rows` rows of `cols` copies of `value`. The call panics
    /// when the number of entries, or the size of their memory, does not fit in an `isize`,
    /// which the precondition rules out.
    #[verifier::external_body]
    pub(crate) fn filled(rows: usize, cols: usize, value: usize) -> (grid: VisitGrid)
        requires
            rows > 0,
            rows * cols <= isize::MAX / 8,
            rows <= isize::MAX,
        ensures
            visit_rows(grid) == uniform(rows as nat, cols as nat, value),
    {
        VisitGrid { visits: ndarray::Array2::from_elem((rows, cols), value) }
    }

    /// Calls the `Index` operator of `Array2`: the entry at (`row`, `col`). The call panics
    /// outside the array.
    #[verifier::external_body]
    pub(crate) fn at(&self, row: usize, col: usize) -> (value: usize)
        requires
            row < visit_rows(*self).len(),
            col < visit_rows(*self)[row as int].len(),
        ensures
            value == visit_rows(*self)[row as int][col as int],
    {
        self.visits[[row, col]]
    }

    /// Calls the `IndexMut` operator of `Array2`: replaces the entry at (`row`, `col`) and
    /// keeps every other. The call panics outside the array.
    #[verifier::external_body]
    pub(crate) fn put(&mut self, row: usize, col: usize, value: usize)
        requires
            row < visit_rows(*old(self)).len(),
            col < visit_rows(*old(self))[row as int].len(),
        ensures
            visit_rows(*final(self)) == with_cell(
                visit_rows(*old(self)),
                row as int,
                col as int,
                value,
            ),
    {
        self.visits[[row, col]] = value;
    }

    /// Calls `ArrayBase::nrows`: the number of rows.
    #[verifier::external_body]
    pub(crate) fn row_count(&self) -> (n: usize)
        ensures
            n == visit_rows(*self).len(),
    {
        self.visits.nrows()
    }

    /// Calls `ArrayBase::ncols`: the length of every row.
    #[verifier::external_body]
    pub(crate) fn row_len(&self) -> (n: usize)
        ensures
            forall|r: int|
                0 <= r < visit_rows(*self).len() ==> n == (#[trigger] visit_rows(*self)[r]).len(),
    {
        self.visits.ncols()
    }

    /// The number of rows.
    pub fn nrows(&self) -> (n: usize)
        ensures
            n == self@.len(),
    {
        self.row_count()
    }

    /// The length of every row.
    pub fn ncols(&self) -> (n: usize)
        ensures
            forall|r: int| 0 <= r < self@.len() ==> n == (#[trigger] self@[r]).len(),
    {
        self.row_len()
    }

    /// The entry at (`row`, `col`).
    pub fn get(&self, row: usize, col: usize) -> (value: usize)
        requires
            row < self@.len(),
            col < self@[row as int].len(),
        ensures
            value == self@[row as int][col as int],
    {
        self.at(row, col)
    }
}

} // verus!
