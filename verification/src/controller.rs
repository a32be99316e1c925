//! The decision-strategy boundary: anything that can pick a move for the
//! player at the front of the roster.

use crate::chopsticks_state::{action_ok, ids_in_range, in_enumeration, Action, ChopsticksState};
use vstd::prelude::*;

verus! {

/// A provider of moves for the player whose turn it is. Every
/// implementation must return an action drawn from the rule engine's own
/// enumeration of the position's legal moves.
pub trait Controller {
    /// Picks one of the enumerated legal actions for the mover of a
    /// non-terminal position.
    fn get_action(&mut self, state: &ChopsticksState) -> (r: Action)
        requires
            state.wf(),
            state@.players.len() >= 2,
            state@.n_hands == 2,
            ids_in_range(state@.players),
        ensures
            action_ok(state@, r@),
            in_enumeration(state@, r@),
    ;
}

} // verus!
