use vstd::prelude::*;

verus! {

/// Per-pixel difference cells, indexed by row then column: `0` for equal pixels,
/// `1` for a difference not yet in a region, `n >= 2` for a cell of region `n`.
#[verifier::external_body]
pub struct DiffMatrix {
    cells: ndarray::Array2<usize>,
}

/// The cells held by the matrix: one sequence per row.
pub uninterp spec fn cells_of(m: DiffMatrix) -> Seq<Seq<usize>>;

/// The number of columns the matrix was created with.
pub uninterp spec fn cols_of(m: DiffMatrix) -> nat;

/// Every row holds exactly as many cells as the matrix has columns.
pub open spec fn shaped(c: Seq<Seq<usize>>, cols: nat) -> bool {
    forall|y: int| 0 <= y < c.len() ==> (#[trigger] c[y]).len() == cols
}

/// A matrix of the given shape whose cells are all zero.
pub open spec fn zero_cells(rows: nat, cols: nat) -> Seq<Seq<usize>> {
    Seq::new(rows, |y: int| Seq::new(cols, |x: int| 0usize))
}

impl DiffMatrix {
    pub open spec fn view_cells(self) -> Seq<Seq<usize>> {
        cells_of(self)
    }

    pub open spec fn cols(self) -> nat {
        cols_of(self)
    }

    pub open spec fn wf(self) -> bool {
        shaped(cells_of(self), cols_of(self))
    }

    pub open spec fn at(self, x: int, y: int) -> usize {
        cells_of(self)[y][x]
    }

    /// Relies on ndarray's `Array2::zeros`: a `rows` by `cols` array of zeros. It
    /// panics when the product of the non-zero side lengths overflows `isize` (so a
    /// side above `isize::MAX` panics even when the other is 0), and allocating the
    /// elements (`vec![0; rows * cols]`) panics past `isize::MAX` bytes; a `usize`
    /// takes at most 8 bytes.
    #[verifier::external_body]
    pub(crate) fn zeros(rows: usize, cols: usize) -> (r: DiffMatrix)
        requires
            rows <= isize::MAX,
            cols <= isize::MAX,
            rows * cols <= isize::MAX / 8,
        ensures
            cells_of(r) == zero_cells(rows as nat, cols as nat),
            cols_of(r) == cols,
    {
        DiffMatrix { cells: ndarray::Array2::<usize>::zeros((rows, cols)) }
    }

    /// Relies on ndarray's `nrows`: the length of the first axis.
    #[verifier::external_body]
    pub(crate) fn nrows(&self) -> (r: usize)
        ensures
            r == cells_of(*self).len(),
    {
        self.cells.nrows()
    }

    /// Relies on ndarray's `ncols`: the length of the second axis.
    #[verifier::external_body]
    pub(crate) fn ncols(&self) -> (r: usize)
        ensures
            r == cols_of(*self),
    {
        self.cells.ncols()
    }

    /// Relies on ndarray's indexing by `[row, column]`, which panics out of bounds.
    #[verifier::external_body]
    pub(crate) fn get(&self, y: usize, x: usize) -> (r: usize)
        requires
            y < cells_of(*self).len(),
            x < cells_of(*self)[y as int].len(),
        ensures
            r == cells_of(*self)[y as int][x as int],
    {
        self.cells[[y, x]]
    }

    /// Relies on ndarray's mutable indexing by `[row, column]`, which panics out of
    /// bounds and otherwise writes that one element.
    #[verifier::external_body]
    pub(crate) fn set(&mut self, y: usize, x: usize, v: usize)
        requires
            y < cells_of(*old(self)).len(),
            x < cells_of(*old(self))[y as int].len(),
        ensures
            cells_of(*final(self)) == cells_of(*old(self)).update(
                y as int,
                cells_of(*old(self))[y as int].update(x as int, v),
            ),
            cols_of(*final(self)) == cols_of(*old(self)),
    {
        self.cells[[y, x]] = v;
    }

    /// The value of the cell at column `x`, row `y`, or `None` outside the matrix.
    pub fn value_at(&self, x: usize, y: usize) -> (r: Option<usize>)
        requires
            self.wf(),
        ensures
            r == (if y < self.view_cells().len() && x < self.cols() {
                Some(self.at(x as int, y as int))
            } else {
                None
            }),
    {
        if y < self.nrows() && x < self.ncols() {
            Some(self.get(y, x))
        } else {
            None
        }
    }

    /// The number of rows.
    pub fn height(&self) -> (r: usize)
        ensures
            r == self.view_cells().len(),
    {
        self.nrows()
    }

    /// The number of columns.
    pub fn width(&self) -> (r: usize)
        ensures
            r == self.cols(),
    {
        self.ncols()
    }
}

} // verus!
