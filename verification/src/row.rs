//! Rows, chunks and the order of sort keys.

use vstd::prelude::*;

verus! {

/// Bytes that one cell is counted as when a chunk's size is estimated.
pub const CELL_BYTES: usize = 16;

/// One row of a chunk: a cell per column, in physical representation.
/// `None` is a null.
#[derive(Debug, Clone, PartialEq, Eq)]
pub struct Row {
    pub cells: Vec<Option<i64>>,
}

impl Row {
    /// The number of cells.
    pub open spec fn width(self) -> nat {
        self.cells@.len()
    }

    /// The cell in column `idx`.
    pub open spec fn key(self, idx: int) -> Option<i64> {
        self.cells@[idx]
    }

    pub fn new(cells: Vec<Option<i64>>) -> (row: Row)
        ensures
            row.cells == cells,
    {
        Row { cells }
    }

    /// Reads the cell in column `idx`.
    pub fn get(&self, idx: usize) -> (cell: Option<i64>)
        requires
            idx < self.width(),
        ensures
            cell == self.key(idx as int),
    {
        self.cells[idx]
    }
}

/// Whether key `a` may stand before key `b` in the sorted order: values go up,
/// or down when `descending`; nulls stand before every value, or behind every
/// value when `nulls_last`.
pub open spec fn key_le(a: Option<i64>, b: Option<i64>, descending: bool, nulls_last: bool) -> bool {
    match (a, b) {
        (None, None) => true,
        (None, Some(_)) => !nulls_last,
        (Some(_), None) => nulls_last,
        (Some(x), Some(y)) => if descending {
            x >= y
        } else {
            x <= y
        },
    }
}

/// Decides `key_le`.
pub fn key_precedes(a: Option<i64>, b: Option<i64>, descending: bool, nulls_last: bool) -> (le: bool)
    ensures
        le == key_le(a, b, descending, nulls_last),
{
    match (a, b) {
        (None, None) => true,
        (None, Some(_)) => !nulls_last,
        (Some(_), None) => nulls_last,
        (Some(x), Some(y)) => if descending {
            x >= y
        } else {
            x <= y
        },
    }
}

} // verus!
