//! Why a move notification is rejected.

use vstd::prelude::*;

verus! {

/// The reasons for which a single event is turned down.  A rejected event
/// leaves the board and the turn as they were.
#[derive(Clone, Copy, Debug, PartialEq, Eq, Structural)]
pub enum GameError {
    /// The row letter is not in the board's alphabet, or the column token
    /// does not denote a positive integer.
    Decode,
    /// The coordinate lies outside the board.
    Range,
}

} // verus!
