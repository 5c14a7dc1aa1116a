//! The phases a game turn moves through.

use vstd::prelude::*;

verus! {

/// Whose move it is.
#[derive(Copy, Clone, Debug, PartialEq, Eq, Structural)]
pub enum TurnState {
    /// Nothing happens until the player presses a key.
    AwaitingInput,
    /// The player's chosen action is being carried out.
    PlayerTurn,
    /// The monsters answer.
    MonsterTurn,
}

} // verus!
