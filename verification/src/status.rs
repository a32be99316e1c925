//! Game status as seen by drivers and strategies.

use vstd::prelude::*;

verus! {

/// Game status: an ongoing turn, or a finished game.
#[derive(Clone, Copy, Debug, PartialEq, Eq, Structural)]
pub enum Status {
    /// The index of the player whose turn it is.
    Turn { i: usize },
    /// The index of the winning player.
    Over { i: usize },
}

impl Status {
    /// The stored player index, whatever the game stage.
    pub fn get_i(&self) -> (r: usize)
        ensures
            r == (match *self {
                Status::Turn { i } => i,
                Status::Over { i } => i,
            }),
    {
        match *self {
            Status::Turn { i } => i,
            Status::Over { i } => i,
        }
    }
}

} // verus!
