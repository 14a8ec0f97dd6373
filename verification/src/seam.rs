//! Seams, by position and by identifier, and the ways an operation can fail.

use vstd::prelude::*;

verus! {

/// A seam named by the identifiers of its cells: one per row when it is
/// vertical, one per column when it is horizontal.
#[derive(Clone, Debug)]
pub struct Seam {
    pub indices: Vec<usize>,
    pub is_vertical: bool,
}

/// A seam named by position: for each column, the row of its cell.
#[derive(Clone, Debug)]
pub struct HorizontalSeam {
    pub rows: Vec<usize>,
}

/// A seam named by position: for each row, the column of its cell.
#[derive(Clone, Debug)]
pub struct VerticalSeam {
    pub columns: Vec<usize>,
}

/// Why a seam could not be found, removed or put back.
#[derive(Clone, Copy, Debug, PartialEq, Eq, Structural)]
pub enum CarveError {
    /// Removing the seam would leave no cell in the carved direction.
    DimensionExhausted,
    /// No seam avoids the cells that are excluded from the search.
    EmptySearchSpace,
    /// The seam has not one entry per line of the matrix.
    SeamLengthMismatch,
    /// The seam names a cell that is not where the operation looks for it.
    CellNotFound,
    /// An identifier to be put back is already in the matrix, or occurs
    /// twice in the seam.
    OriginAlreadyPresent,
}

} // verus!
