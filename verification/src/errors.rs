//! The errors that the library reports.

use vstd::prelude::*;

verus! {

/// What can go wrong when a board is read or built.
#[derive(Clone, Copy, Debug, PartialEq, Eq, Structural)]
pub enum Error {
    /// The givens of a grid collide with each other, or a board that had to
    /// be solved has no solution.
    InvalidSudoku,
    /// The character `found` cannot stand for the cell at (`row`, `col`).
    UnexpectedChar { row: usize, col: usize, found: char },
    /// The text ended before the cell at (`row`, `col`) was read.
    UnexpectedEnd { row: usize, col: usize },
    /// The character `found` follows the last cell.
    TrailingInput { found: char },
}

} // verus!
