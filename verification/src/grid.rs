//! A dense, fixed-shape table of unsigned integers kept in one flat,
//! row-major buffer.

use vstd::prelude::*;

verus! {

/// A table of `rows × columns` cells. The cell `(row, column)` lives at offset
/// `row * columns + column` of the buffer.
pub struct Grid {
    rows: usize,
    columns: usize,
    data: Vec<usize>,
}

/// Offsets of distinct in-bounds cells are in bounds and distinct.
proof fn lemma_offset(rows: int, columns: int, row: int, column: int)
    requires
        0 <= row < rows,
        0 <= column < columns,
    ensures
        0 <= row * columns,
        0 <= row * columns + column < rows * columns,
        row == (row * columns + column) / columns,
        column == (row * columns + column) % columns,
{
    assert(0 <= row * columns && (row + 1) * columns <= rows * columns) by (nonlinear_arith)
        requires
            0 <= row < rows,
            0 < columns,
    ;
    assert((row + 1) * columns == row * columns + columns) by (nonlinear_arith);
    vstd::arithmetic::div_mod::lemma_fundamental_div_mod_converse(
        row * columns + column,
        columns,
        row,
        column,
    );
}

impl Grid {
    /// The buffer holds exactly one slot per cell.
    pub closed spec fn well_formed(&self) -> bool {
        self.data@.len() == self.rows * self.columns <= usize::MAX
    }

    /// Number of rows the table was made with.
    pub closed spec fn rows(&self) -> nat {
        self.rows as nat
    }

    /// Number of columns the table was made with.
    pub closed spec fn columns(&self) -> nat {
        self.columns as nat
    }

    /// The value held at `(row, column)`; meaningful for `row < rows()` and
    /// `column < columns()`.
    pub closed spec fn cell(&self, row: int, column: int) -> usize {
        self.data@[row * self.columns + column]
    }

    /// Makes a table of the given shape with every cell 0. Either dimension
    /// may be 0, which leaves no addressable cell.
    pub fn new(rows: usize, columns: usize) -> (grid: Grid)
        requires
            rows * columns <= usize::MAX,
        ensures
            grid.well_formed(),
            grid.rows() == rows,
            grid.columns() == columns,
            forall|row: int, column: int|
                0 <= row < rows && 0 <= column < columns ==> #[trigger] grid.cell(row, column) == 0,
    {
        let grid = Grid { rows, columns, data: vec![0; columns * rows] };
        proof {
            assert(columns * rows == rows * columns) by (nonlinear_arith);
            assert forall|row: int, column: int|
                0 <= row < rows && 0 <= column < columns implies #[trigger] grid.cell(row, column)
                == 0 by {
                lemma_offset(rows as int, columns as int, row, column);
            }
        }
        grid
    }

    /// Overwrites the cell `(row, column)` and leaves every other cell as it was.
    pub fn insert(&mut self, row: usize, column: usize, number: usize)
        requires
            old(self).well_formed(),
            row < old(self).rows(),
            column < old(self).columns(),
        ensures
            final(self).well_formed(),
            final(self).rows() == old(self).rows(),
            final(self).columns() == old(self).columns(),
            final(self).cell(row as int, column as int) == number,
            forall|r: int, c: int|
                0 <= r < old(self).rows() && 0 <= c < old(self).columns() && !(r == row && c
                    == column) ==> #[trigger] final(self).cell(r, c) == old(self).cell(r, c),
    {
        proof {
            lemma_offset(self.rows as int, self.columns as int, row as int, column as int);
        }
        let ghost before = *self;
        self.data.set(row * self.columns + column, number);
        proof {
            assert forall|r: int, c: int|
                0 <= r < before.rows() && 0 <= c < before.columns() && !(r == row && c
                    == column) implies #[trigger] self.cell(r, c) == before.cell(r, c) by {
                lemma_offset(self.rows as int, self.columns as int, r, c);
            }
        }
    }

    /// Reads the cell `(row, column)`.
    pub fn get(&self, row: usize, column: usize) -> (value: usize)
        requires
            self.well_formed(),
            row < self.rows(),
            column < self.columns(),
        ensures
            value == self.cell(row as int, column as int),
    {
        proof {
            lemma_offset(self.rows as int, self.columns as int, row as int, column as int);
        }
        self.data[row * self.columns + column]
    }
}

} // verus!
