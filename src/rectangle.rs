//! Rectangular regions of the grid.

use vstd::prelude::*;
use crate::coordinates::Coordinates;

verus! {

/// An inclusive rectangle of coordinates, from `begin` to `end`.
#[derive(Clone, Copy, Debug, PartialEq, Eq, Structural, Default)]
pub struct Rectangle {
    pub begin: Coordinates,
    pub end: Coordinates,
}

impl Rectangle {
    /// Well-formed: `begin` is above and to the left of `end`, or equal to it.
    pub open spec fn well_formed(self) -> bool {
        self.begin.row <= self.end.row && self.begin.col <= self.end.col
    }

    /// Lies inside a grid of `rows` rows and `cols` columns.
    pub open spec fn in_bounds(self, rows: int, cols: int) -> bool {
        self.end.row < rows && self.end.col < cols
    }

    pub open spec fn contains(self, row: int, col: int) -> bool {
        self.begin.row <= row <= self.end.row && self.begin.col <= col <= self.end.col
    }

    /// Number of coordinates covered (for a well-formed rectangle).
    pub open spec fn area(self) -> int {
        (self.end.row - self.begin.row + 1) * (self.end.col - self.begin.col + 1)
    }

    pub fn new() -> (r: Rectangle)
        ensures
            r.begin.row == 0 && r.begin.col == 0,
            r.end.row == 0 && r.end.col == 0,
    {
        Rectangle { begin: Coordinates::new(), end: Coordinates::new() }
    }

    pub fn from(begin: Coordinates, end: Coordinates) -> (r: Rectangle)
        ensures
            r.begin == begin,
            r.end == end,
    {
        Rectangle { begin, end }
    }

    /// Whether the rectangle ends at or before the given last row and last column.
    pub fn rect_respecting_max(&mut self, row_max: u32, col_max: u32) -> (r: bool)
        ensures
            *final(self) == *old(self),
            r == (old(self).end.col <= col_max && old(self).end.row <= row_max),
    {
        self.end.col <= col_max && self.end.row <= row_max
    }

    pub fn is_valid(&self) -> (r: bool)
        ensures
            r == self.well_formed(),
    {
        self.begin.row <= self.end.row && self.begin.col <= self.end.col
    }
}

} // verus!
