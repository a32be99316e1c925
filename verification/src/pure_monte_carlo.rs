//! The Monte-Carlo rollout strategy: score every legal action by random
//! playouts and pick the one whose simulated outcomes rank best.

use crate::chopsticks_state::{
    action_ok, id_bound, ids_in_range, in_enumeration, lemma_id_bound, Action, ChopsticksState,
};
use crate::controller::Controller;
use crate::game::SingleStrategy;
use crate::random::Random;
use vstd::prelude::*;

verus! {

/// Scores each candidate action by the sum of the mover's ranks over
/// `n_sims` uniform-random playouts, and plays the first action with the
/// lowest sum. Its own simulated future moves are random too, so the
/// strategy undervalues its own later skill; that bias is part of the
/// design.
#[derive(Clone, Copy)]
pub struct PureMonteCarlo {
    /// Number of simulations run for each candidate action.
    pub n_sims: usize,
    pub strategies: Random,
}

impl PureMonteCarlo {
    /// A rollout strategy running `n_sims` simulations per candidate.
    pub fn new(n_sims: usize) -> (r: PureMonteCarlo)
        ensures
            r.n_sims == n_sims,
    {
        PureMonteCarlo { n_sims, strategies: Random }
    }
}

/// The index of the first minimal entry: no earlier entry is as small,
/// and no entry anywhere is smaller.
fn first_min_index(scores: &Vec<u128>) -> (r: usize)
    requires
        scores@.len() > 0,
    ensures
        r < scores@.len(),
        forall|u: int| 0 <= u < scores@.len() ==> scores@[r as int] <= #[trigger] scores@[u],
        forall|u: int| 0 <= u < r ==> #[trigger] scores@[u] > scores@[r as int],
{
    let mut best: usize = 0;
    let mut t: usize = 1;
    while t < scores.len()
        invariant
            0 <= best < t <= scores@.len(),
            forall|u: int| 0 <= u < t ==> scores@[best as int] <= #[trigger] scores@[u],
            forall|u: int| 0 <= u < best ==> #[trigger] scores@[u] > scores@[best as int],
        decreases scores@.len() - t,
    {
        if scores[t] < scores[best] {
            best = t;
        }
        t = t + 1;
    }
    best
}

impl Controller for PureMonteCarlo {
    fn get_action(&mut self, state: &ChopsticksState) -> (r: Action) {
        let id = state.get_turn();
        proof {
            lemma_id_bound(state@.players);
        }
        let mut actions = state.iter_actions();
        let mut scores: Vec<u128> = Vec::new();
        let mut t: usize = 0;
        while t < actions.len()
            invariant
                state.wf(),
                state@.players.len() >= 2,
                state@.n_hands == 2,
                ids_in_range(state@.players),
                id == state@.players[0].id,
                actions@.len() > 0,
                0 <= t <= actions@.len(),
                scores@.len() == t,
                forall|u: int|
                    0 <= u < actions@.len() ==> action_ok(state@, #[trigger] actions@[u]@)
                        && in_enumeration(state@, actions@[u]@),
            decreases actions@.len() - t,
        {
            let mut score: u128 = 0;
            let mut s: usize = 0;
            while s < self.n_sims
                invariant
                    state.wf(),
                    state@.players.len() >= 2,
                    state@.n_hands == 2,
                    ids_in_range(state@.players),
                    id == state@.players[0].id,
                    0 <= t < actions@.len(),
                    forall|u: int|
                        0 <= u < actions@.len() ==> action_ok(state@, #[trigger] actions@[u]@),
                    0 <= s <= self.n_sims,
                    score <= s * 0xffff_ffff_ffff_ffff,
                decreases self.n_sims - s,
            {
                let mut sim_state = state.clone();
                let a = actions[t].clone();
                let ghost sv = sim_state@;
                let ghost av = a@;
                let res = sim_state.apply_action(a);
                match res {
                    Ok(()) => {},
                    Err(_) => {
                        proof {
                            assert(false);
                        }
                    },
                }
                proof {
                    crate::chopsticks_state::lemma_action_preserves_ids(
                        sv,
                        av,
                        usize::MAX as int,
                    );
                    crate::chopsticks_state::lemma_action_keeps_mover(sv, av);
                    lemma_id_bound(sim_state@.players);
                    assert(id < id_bound(sim_state@.players)) by {
                        assert(sim_state@.players.last().id == id);
                    }
                }
                let mut sim = SingleStrategy::new(sim_state, Random);
                let ranks = sim.get_rankings();
                proof {
                    assert(id < ranks@.len());
                    assert(ranks@[id as int] <= 0xffff_ffff_ffff_ffff) by {
                        assert(ranks@[id as int] <= usize::MAX);
                    }
                }
                score = score + (ranks[id] as u128);
                s = s + 1;
            }
            scores.push(score);
            t = t + 1;
        }
        let best_idx = first_min_index(&scores);
        let r = actions.swap_remove(best_idx);
        r
    }
}

} // verus!
