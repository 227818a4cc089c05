use vstd::prelude::*;

verus! {

/// The recoverable failures of the game engine.
#[derive(Debug, Clone, PartialEq, Eq, Structural)]
pub enum GameError {
    /// A move was attempted after the round counter exceeded the board's
    /// capacity; the game instance is exhausted.
    BoardFull,
    /// The drop axis above the given fixed coordinates has no empty cell
    /// left; the board is unchanged.
    AxisFull,
    /// Construction was requested with fewer than two dimension sizes; no
    /// drop axis and no four-in-a-row geometry exist in such a board.
    TooFewDimensions,
}

} // verus!
