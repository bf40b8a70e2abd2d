use vstd::prelude::*;

verus! {

/// The representation of a position on the game board.
#[derive(Copy, Clone, Debug, PartialEq, Eq, Structural)]
pub struct Coordinate {
    /// The row on the game board.
    pub row: usize,
    /// The column on the game board.
    pub col: usize,
}

} // verus!
