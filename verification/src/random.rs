//! The uniform-random strategy: pick any legal action with equal
//! probability.

use crate::chopsticks_state::{action_ok, in_enumeration, Action, ChopsticksState};
use crate::controller::Controller;
use rand::Rng;
use vstd::prelude::*;

verus! {

/// Relies on rand's `Rng::gen_range` over `0..len`: the sample always lies
/// in the (non-empty) range.
#[verifier::external_body]
fn pick_uniform_index(len: usize) -> (r: usize)
    requires
        len > 0,
    ensures
        r < len,
{
    rand::thread_rng().gen_range(0..len)
}

/// Picks one of the legal actions uniformly at random.
#[derive(Clone, Copy, Default)]
pub struct Random;

impl Controller for Random {
    fn get_action(&mut self, state: &ChopsticksState) -> (r: Action)
        ensures
            action_ok(state@, r@),
            in_enumeration(state@, r@),
    {
        let mut actions = state.iter_actions();
        let k = pick_uniform_index(actions.len());
        let r = actions.swap_remove(k);
        r
    }
}

} // verus!
