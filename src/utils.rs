use vstd::prelude::*;
use vstd::slice::slice_subrange;

verus! {

/// Why a grid operation was refused.
#[derive(Debug, Clone, Copy, PartialEq, Eq, Structural)]
pub enum GridError {
    /// The number of cells handed to the constructor is not `rows * cols`.
    DimensionMismatch,
    /// A coordinate is not below its axis bound.
    OutOfBounds,
}

/// A dense row-major grid of `rows * cols` cells, addressed by `(col, row)`.
#[derive(Debug, Clone)]
pub struct Vec2d<T> {
    pub vec: Vec<T>,
    pub rows: usize,
    pub cols: usize,
}

/// Position of cell `(col, row)` in the row-major store.
pub open spec fn cell_index(cols: int, col: int, row: int) -> int {
    row * cols + col
}

/// A cell with `col < cols` and `row < rows` lies inside the row-major store.
pub proof fn lemma_cell_index_bounds(cols: int, rows: int, col: int, row: int)
    requires
        0 <= col < cols,
        0 <= row < rows,
    ensures
        0 <= cell_index(cols, col, row) < rows * cols,
        row * cols <= cell_index(cols, col, row) < row * cols + cols,
        row * cols + cols <= rows * cols,
{
    lemma_row_bounds(cols, rows, row);
}

/// Row `row` of a grid with `rows` rows ends inside the store.
pub proof fn lemma_row_bounds(cols: int, rows: int, row: int)
    requires
        0 <= cols,
        0 <= row < rows,
    ensures
        0 <= row * cols,
        row * cols + cols <= rows * cols,
{
    assert(0 <= row * cols) by (nonlinear_arith)
        requires
            0 <= row,
            0 <= cols,
    ;
    assert(row * cols + cols <= rows * cols) by (nonlinear_arith)
        requires
            0 <= row < rows,
            0 <= cols,
    ;
}

/// Distinct in-bounds cells occupy distinct places in the store.
pub proof fn lemma_cell_index_injective(cols: int, c1: int, r1: int, c2: int, r2: int)
    requires
        0 <= c1 < cols,
        0 <= c2 < cols,
        0 <= r1,
        0 <= r2,
        cell_index(cols, c1, r1) == cell_index(cols, c2, r2),
    ensures
        c1 == c2,
        r1 == r2,
{
    if r1 < r2 {
        assert(r1 * cols + cols <= r2 * cols) by (nonlinear_arith)
            requires
                r1 < r2,
                0 <= c1 < cols,
        ;
    } else if r2 < r1 {
        assert(r2 * cols + cols <= r1 * cols) by (nonlinear_arith)
            requires
                r2 < r1,
                0 <= c1 < cols,
        ;
    }
}

impl<T> Vec2d<T> {
    /// The store holds exactly one cell per coordinate pair.
    pub open spec fn wf(&self) -> bool {
        self.vec@.len() == self.rows * self.cols
    }

    pub open spec fn in_bounds(&self, col: int, row: int) -> bool {
        0 <= col < self.cols && 0 <= row < self.rows
    }

    /// The cell at `(col, row)`.
    pub open spec fn at(&self, col: int, row: int) -> T {
        self.vec@[cell_index(self.cols as int, col, row)]
    }

    /// Builds a grid from its cells in row-major order; refused when the
    /// number of cells is not `rows * cols`.
    pub fn new(vec: Vec<T>, rows: usize, cols: usize) -> (r: Result<Self, GridError>)
        ensures
            vec@.len() == rows * cols <==> r is Ok,
            r matches Ok(g) ==> g.vec@ == vec@ && g.rows == rows && g.cols == cols && g.wf(),
            r matches Err(e) ==> e == GridError::DimensionMismatch,
    {
        let n_cells = vec.len();
        match rows.checked_mul(cols) {
            Some(n) => {
                if n_cells == n {
                    Ok(Vec2d { vec, rows, cols })
                } else {
                    Err(GridError::DimensionMismatch)
                }
            },
            None => Err(GridError::DimensionMismatch),
        }
    }

    /// The contiguous run of cells that make up row `row`.
    pub fn row(&self, row: usize) -> (r: &[T])
        requires
            self.wf(),
            row < self.rows,
        ensures
            r@ == self.vec@.subrange(row * self.cols, row * self.cols + self.cols),
    {
        proof {
            lemma_row_bounds(self.cols as int, self.rows as int, row as int);
            assert(self.vec.len() <= usize::MAX);
        }
        let i = row * self.cols;
        slice_subrange(self.vec.as_slice(), i, i + self.cols)
    }

    /// The cell at `(col, row)`, which must lie inside the grid.
    pub fn index(&self, col: usize, row: usize) -> (r: &T)
        requires
            self.wf(),
            col < self.cols,
            row < self.rows,
        ensures
            *r == self.at(col as int, row as int),
    {
        proof {
            lemma_cell_index_bounds(self.cols as int, self.rows as int, col as int, row as int);
            assert(self.vec.len() <= usize::MAX);
        }
        let i = row * self.cols;
        &self.vec[i + col]
    }

    /// Mutable access to the cell at `(col, row)`, which must lie inside the grid.
    pub fn index_mut(&mut self, col: usize, row: usize) -> (r: &mut T)
        requires
            old(self).wf(),
            col < old(self).cols,
            row < old(self).rows,
        ensures
            *r == old(self).at(col as int, row as int),
            final(self).rows == old(self).rows,
            final(self).cols == old(self).cols,
            final(self).vec@ == old(self).vec@.update(
                cell_index(old(self).cols as int, col as int, row as int),
                *final(r),
            ),
    {
        proof {
            lemma_cell_index_bounds(self.cols as int, self.rows as int, col as int, row as int);
            assert(self.vec.len() <= usize::MAX);
        }
        let i = row * self.cols;
        &mut self.vec[i + col]
    }

    /// The cell at `(col, row)`, or `OutOfBounds` when either coordinate is
    /// not below its axis bound.
    pub fn get(&self, col: usize, row: usize) -> (r: Result<&T, GridError>)
        requires
            self.wf(),
        ensures
            (col < self.cols && row < self.rows) <==> r is Ok,
            r matches Ok(t) ==> *t == self.at(col as int, row as int),
            r matches Err(e) ==> e == GridError::OutOfBounds,
    {
        if col < self.cols && row < self.rows {
            Ok(self.index(col, row))
        } else {
            Err(GridError::OutOfBounds)
        }
    }

    /// Mutable access to the cell at `(col, row)`, or `OutOfBounds` when
    /// either coordinate is not below its axis bound.
    pub fn get_mut(&mut self, col: usize, row: usize) -> (r: Result<&mut T, GridError>)
        requires
            old(self).wf(),
        ensures
            (col < old(self).cols && row < old(self).rows) <==> r is Ok,
            final(self).rows == old(self).rows,
            final(self).cols == old(self).cols,
            r matches Ok(t) ==> *t == old(self).at(col as int, row as int) && final(self).vec@
                == old(self).vec@.update(
                cell_index(old(self).cols as int, col as int, row as int),
                *final(t),
            ),
            r matches Err(e) ==> e == GridError::OutOfBounds && final(self).vec@ == old(self).vec@,
    {
        if col < self.cols && row < self.rows {
            Ok(self.index_mut(col, row))
        } else {
            Err(GridError::OutOfBounds)
        }
    }
}

} // verus!
