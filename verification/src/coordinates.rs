use vstd::prelude::*;

verus! {

/// A position within a text document: zero-based row and column.
#[derive(Debug, Clone, Copy, PartialEq, Eq, Structural)]
pub struct Point {
    /// The zero-based row of the position.
    pub row: usize,
    /// The zero-based column of the position.
    pub column: usize,
}

impl Point {
    /// Creates a point at the given row and column.
    pub fn new(row: usize, column: usize) -> (p: Self)
        ensures
            p.row == row,
            p.column == column,
    {
        Point { row, column }
    }

    /// Creates a point at the beginning of the document.
    pub fn zero() -> (p: Self)
        ensures
            p.row == 0,
            p.column == 0,
    {
        Point { row: 0, column: 0 }
    }
}

} // verus!
