//! Grid coordinates.

use vstd::prelude::*;

verus! {

/// Position of a cell in the grid: zero-based row and column.
#[derive(Clone, Copy, Debug, PartialEq, Eq, Structural, Hash, PartialOrd, Ord, Default)]
pub struct Coordinates {
    pub row: u32,
    pub col: u32,
}

impl Coordinates {
    /// The origin, (0, 0).
    pub fn new() -> (r: Coordinates)
        ensures
            r.row == 0,
            r.col == 0,
    {
        Coordinates { row: 0, col: 0 }
    }

    pub fn from(row: u32, col: u32) -> (r: Coordinates)
        ensures
            r.row == row,
            r.col == col,
    {
        Coordinates { row, col }
    }
}

} // verus!
