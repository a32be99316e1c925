//! Game drivers: run a position to completion by repeatedly asking a
//! controller for a move, and compute final rankings.

use crate::chopsticks_state::{
    action_err, action_next, action_ok, id_bound, ids_in_range, lemma_action_preserves_ids,
    lemma_id_bound, loop_fingerprint, replay, Action, ActionError, ChopsticksState, StateV,
};
use crate::controller::Controller;
use vstd::pervasive::VecAdditionalExecFns;
use vstd::prelude::*;

verus! {

/// Encapsulates gameplay: a position driven by one or more controllers.
pub trait Game {
    /// The driver invariant.
    spec fn wf(&self) -> bool;

    /// The driven position.
    spec fn pos(&self) -> StateV;

    /// Asks the mover's controller for an action; `None` once the game is
    /// over.
    fn get_action(&mut self) -> (r: Option<Action>)
        requires
            old(self).wf(),
        ensures
            final(self).wf(),
            final(self).pos() == old(self).pos(),
            match r {
                Some(a) => old(self).pos().players.len() >= 2 && action_ok(old(self).pos(), a@),
                None => old(self).pos().players.len() < 2,
            },
    ;

    /// Records an action in the history and plays it against the position.
    fn play_action(&mut self, action: &Action) -> (r: Result<(), ActionError>)
        requires
            old(self).wf(),
        ensures
            final(self).wf(),
            match r {
                Err(e) => action_err(old(self).pos(), action@) == Some(e) && final(self).pos()
                    == old(self).pos(),
                Ok(()) => action_err(old(self).pos(), action@) is None && final(self).pos()
                    == action_next(old(self).pos(), action@),
            },
    ;

    /// The current position.
    fn get_state(&self) -> (r: &ChopsticksState)
        requires
            self.wf(),
        ensures
            r@ == self.pos(),
    ;
}

/// Whether a roster holds a player with this id.
pub open spec fn roster_has_id(ps: Seq<crate::chopsticks_state::PlayerV>, id: int) -> bool {
    exists|k: int| 0 <= k < ps.len() && (#[trigger] ps[k]).id == id
}

/// The rank table after a recorded run: starting from `table`, after each
/// action every player still present takes the survivor count of that
/// moment, so an id's final entry is the roster size just after the last
/// action at which it was present, or its starting entry if never seen.
pub open spec fn ranks_after(s: StateV, acts: Seq<crate::chopsticks_state::ActionV>, table: Seq<
    usize,
>) -> Seq<usize>
    decreases acts.len(),
{
    if acts.len() == 0 {
        table
    } else {
        let prev = ranks_after(s, acts.drop_last(), table);
        let cur = replay(s, acts);
        Seq::new(
            prev.len(),
            |id: int|
                if roster_has_id(cur.players, id) {
                    cur.players.len() as usize
                } else {
                    prev[id]
                },
        )
    }
}

/// The driver invariant over a position and a rank-array size: a
/// well-formed two-hand position whose player ids all lie below the size.
pub open spec fn driver_wf(s: StateV, n_players: usize) -> bool {
    &&& crate::chopsticks_state::state_wf(s)
    &&& s.n_hands == 2
    &&& n_players >= 1
    &&& forall|k: int| 0 <= k < s.players.len() ==> (#[trigger] s.players[k]).id < n_players
}

/// One more than the largest player id in the roster, and at least one.
fn roster_id_bound(state: &ChopsticksState) -> (r: usize)
    requires
        ids_in_range(state@.players),
    ensures
        r as int == (if id_bound(state@.players) >= 1 {
            id_bound(state@.players)
        } else {
            1int
        }),
        forall|k: int| 0 <= k < state@.players.len() ==> (#[trigger] state@.players[k]).id < r,
{
    proof {
        lemma_id_bound(state@.players);
        assert(state@.players.subrange(0, 0) =~= Seq::<crate::chopsticks_state::PlayerV>::empty());
    }
    let mut bound: usize = 1;
    let mut k: usize = 0;
    while k < state.players.len()
        invariant
            0 <= k <= state@.players.len(),
            ids_in_range(state@.players),
            bound as int == (if id_bound(state@.players.subrange(0, k as int)) >= 1 {
                id_bound(state@.players.subrange(0, k as int))
            } else {
                1int
            }),
        decreases state@.players.len() - k,
    {
        proof {
            let pre = state@.players.subrange(0, k + 1);
            assert(pre.drop_last() =~= state@.players.subrange(0, k as int));
            assert(pre.last() == state@.players[k as int]);
        }
        if state.players[k].id >= bound {
            bound = state.players[k].id + 1;
        }
        k = k + 1;
    }
    proof {
        assert(state@.players.subrange(0, state@.players.len() as int) =~= state@.players);
    }
    bound
}

/// Drives a position to completion with one controller: while the game is
/// on and the position is not the known cycle, asks for a move and plays
/// it; after each move every surviving player's rank becomes the roster
/// size, so an eliminated player keeps the roster size at the moment of
/// its removal. A position already decided, or already the known cycle,
/// is left untouched with every rank at the sentinel `n_players`. The
/// loop gives up after `u64::MAX` moves.
fn run_rankings<C: Controller>(
    ctrl: &mut C,
    state: &mut ChopsticksState,
    history: &mut Vec<Action>,
    n_players: usize,
) -> (r: Vec<usize>)
    requires
        driver_wf(old(state)@, n_players),
    ensures
        driver_wf(final(state)@, n_players),
        r@.len() == n_players,
        forall|k: int| 0 <= k < r@.len() ==> 1 <= #[trigger] r@[k],
        // a decided or cycling start is left untouched, all ranks sentinel
        old(state)@.players.len() <= 1 || loop_fingerprint(old(state)@) ==> final(state)@
            == old(state)@ && final(history)@ == old(history)@ && (forall|k: int|
            0 <= k < r@.len() ==> #[trigger] r@[k] == n_players),
        // a live start advances: at least one action is recorded and
        // applied, and every player still present holds the final
        // survivor count as its rank
        old(state)@.players.len() >= 2 && !loop_fingerprint(old(state)@)
            ==> final(history)@.len() > old(history)@.len() && (forall|k: int|
            0 <= k < final(state)@.players.len()
                ==> r@[(#[trigger] final(state)@.players[k]).id as int]
                == final(state)@.players.len()),
        // the run stops only at a verdict, the known cycle, or the step cap
        final(state)@.players.len() > 1 ==> loop_fingerprint(final(state)@)
            || final(history)@.len() == old(history)@.len() + u64::MAX,
        // in particular the winner of a resolved game is ranked first
        old(state)@.players.len() >= 2 && final(state)@.players.len() == 1
            ==> r@[final(state)@.players[0].id as int] == 1,
        // the final position is exactly the recorded actions applied in order
        final(history)@.len() >= old(history)@.len() && final(history)@.subrange(
            0,
            old(history)@.len() as int,
        ) == old(history)@ && final(state)@ == replay(
            old(state)@,
            final(history)@.subrange(
                old(history)@.len() as int,
                final(history)@.len() as int,
            ).map_values(|x: Action| x@),
        ),
        // and the rank table is exactly the one the recorded run yields:
        // each id holds the survivor count just after the last recorded
        // action at which it was present, or the sentinel if never present
        r@ == ranks_after(
            old(state)@,
            final(history)@.subrange(
                old(history)@.len() as int,
                final(history)@.len() as int,
            ).map_values(|x: Action| x@),
            Seq::new(n_players as nat, |id: int| n_players),
        ),
{
    let mut ranks: Vec<usize> = Vec::new();
    let mut t: usize = 0;
    while t < n_players
        invariant
            0 <= t <= n_players,
            n_players >= 1,
            ranks@.len() == t,
            forall|k: int| 0 <= k < t ==> #[trigger] ranks@[k] == n_players,
        decreases n_players - t,
    {
        ranks.push(n_players);
        t = t + 1;
    }
    let mut fuel: u64 = u64::MAX;
    let ghost s_init = state@;
    let ghost h_init = history@;
    let ghost table0 = Seq::new(n_players as nat, |id: int| n_players);
    proof {
        assert(ranks@ =~= table0);
        assert(history@.subrange(h_init.len() as int, history@.len() as int) =~= Seq::<
            Action,
        >::empty());
        assert(Seq::<Action>::empty().map_values(|x: Action| x@) =~= Seq::<
            crate::chopsticks_state::ActionV,
        >::empty());
    }
    let mut go = state.players.len() > 1 && !state.is_loop_state();
    while go && fuel > 0
        invariant
            driver_wf(state@, n_players),
            ranks@.len() == n_players,
            forall|k: int| 0 <= k < ranks@.len() ==> 1 <= #[trigger] ranks@[k],
            go == (state@.players.len() > 1 && !loop_fingerprint(state@)),
            history@.len() == h_init.len() + (u64::MAX - fuel),
            history@.len() == h_init.len() ==> state@ == s_init,
            history@.subrange(0, h_init.len() as int) == h_init,
            state@ == replay(
                s_init,
                history@.subrange(h_init.len() as int, history@.len() as int).map_values(
                    |x: Action| x@,
                ),
            ),
            table0 == Seq::new(n_players as nat, |id: int| n_players),
            ranks@ == ranks_after(
                s_init,
                history@.subrange(h_init.len() as int, history@.len() as int).map_values(
                    |x: Action| x@,
                ),
                table0,
            ),
            (s_init.players.len() <= 1 || loop_fingerprint(s_init)) ==> state@ == s_init
                && history@ == h_init && (forall|k: int|
                0 <= k < ranks@.len() ==> #[trigger] ranks@[k] == n_players),
            history@.len() > h_init.len() ==> forall|k: int|
                0 <= k < state@.players.len() ==> ranks@[(#[trigger] state@.players[k]).id as int]
                    == state@.players.len(),
        decreases fuel,
    {
        proof {
            assert forall|k: int| 0 <= k < state@.players.len() implies (
            #[trigger] state@.players[k]).id < usize::MAX by {
                assert(state@.players[k].id < n_players);
            }
        }
        let action = ctrl.get_action(state);
        let ghost h_prev = history@;
        history.push(action.clone());
        let ghost sv = state@;
        let ghost av = action@;
        let res = state.apply_action(action);
        match res {
            Ok(()) => {},
            Err(_) => {
                proof {
                    assert(false);
                }
            },
        }
        proof {
            lemma_action_preserves_ids(sv, av, n_players as int);
            assert(history@.subrange(0, h_init.len() as int) =~= h_init);
            let suff = history@.subrange(h_init.len() as int, history@.len() as int);
            assert(suff.drop_last() =~= h_prev.subrange(
                h_init.len() as int,
                h_prev.len() as int,
            ));
            assert(suff.map_values(|x: Action| x@).drop_last() =~= suff.drop_last().map_values(
                |x: Action| x@,
            ));
            assert(suff.map_values(|x: Action| x@).last() == av);
            assert(state@ == replay(s_init, suff.map_values(|x: Action| x@)));
        }
        let ghost ranks_pre = ranks@;
        proof {
            assert(state@.players.subrange(0, 0) =~= Seq::<
                crate::chopsticks_state::PlayerV,
            >::empty());
        }
        let m = state.players.len();
        let mut k: usize = 0;
        while k < m
            invariant
                driver_wf(state@, n_players),
                m == state@.players.len(),
                m >= 1,
                0 <= k <= m,
                ranks@.len() == n_players,
                ranks_pre.len() == n_players,
                forall|t2: int| 0 <= t2 < ranks_pre.len() ==> 1 <= #[trigger] ranks_pre[t2],
                forall|t2: int| 0 <= t2 < ranks@.len() ==> 1 <= #[trigger] ranks@[t2],
                forall|k2: int|
                    0 <= k2 < k ==> ranks@[(#[trigger] state@.players[k2]).id as int] == m,
                forall|id: int|
                    0 <= id < ranks@.len() ==> #[trigger] ranks@[id] == (if roster_has_id(
                        state@.players.subrange(0, k as int),
                        id,
                    ) {
                        m
                    } else {
                        ranks_pre[id]
                    }),
            decreases m - k,
        {
            proof {
                assert(state@.players[k as int].id < n_players);
            }
            let id = state.players[k].id;
            ranks.set(id, m);
            proof {
                let pre1 = state@.players.subrange(0, k + 1);
                let pre0 = state@.players.subrange(0, k as int);
                assert(pre1.drop_last() =~= pre0);
                assert(pre1.last() == state@.players[k as int]);
                assert forall|id2: int| 0 <= id2 < ranks@.len() implies #[trigger] ranks@[id2] == (
                if roster_has_id(pre1, id2) {
                    m
                } else {
                    ranks_pre[id2]
                }) by {
                    if id2 == state@.players[k as int].id {
                        assert(pre1[k as int] == state@.players[k as int]);
                        assert(roster_has_id(pre1, id2));
                    } else {
                        if roster_has_id(pre1, id2) {
                            let w = choose|w: int| 0 <= w < pre1.len() && pre1[w].id == id2;
                            assert(pre0[w] == pre1[w]);
                            assert(roster_has_id(pre0, id2));
                        }
                        if roster_has_id(pre0, id2) {
                            let w = choose|w: int| 0 <= w < pre0.len() && pre0[w].id == id2;
                            assert(pre1[w] == pre0[w]);
                            assert(roster_has_id(pre1, id2));
                        }
                    }
                }
            }
            k = k + 1;
        }
        proof {
            assert(state@.players.subrange(0, m as int) =~= state@.players);
            let suff = history@.subrange(h_init.len() as int, history@.len() as int).map_values(
                |x: Action| x@,
            );
            assert(suff.len() > 0);
            let hsuff = history@.subrange(h_init.len() as int, history@.len() as int);
            assert(hsuff.drop_last() =~= h_prev.subrange(h_init.len() as int, h_prev.len() as int));
            assert(suff.drop_last() =~= hsuff.drop_last().map_values(|x: Action| x@));
            assert(ranks_pre == ranks_after(s_init, suff.drop_last(), table0));
            assert(replay(s_init, suff) == state@);
            assert(ranks@ =~= ranks_after(s_init, suff, table0));
        }
        fuel = fuel - 1;
        go = state.players.len() > 1 && !state.is_loop_state();
    }
    proof {
        if s_init.players.len() >= 2 && !loop_fingerprint(s_init) {
            assert(history@.len() > h_init.len());
        }
    }
    ranks
}

/// Drives a position to completion with one controller per player id,
/// asking the mover's own controller each turn; the ranking semantics are
/// those of `run_rankings`.
fn run_rankings_each<C: Controller>(
    ctrls: &mut Vec<C>,
    state: &mut ChopsticksState,
    history: &mut Vec<Action>,
) -> (r: Vec<usize>)
    requires
        driver_wf(old(state)@, old(ctrls).len()),
    ensures
        final(ctrls)@.len() == old(ctrls)@.len(),
        driver_wf(final(state)@, old(ctrls).len()),
        r@.len() == old(ctrls)@.len(),
        forall|k: int| 0 <= k < r@.len() ==> 1 <= #[trigger] r@[k],
        old(state)@.players.len() <= 1 || loop_fingerprint(old(state)@) ==> final(state)@
            == old(state)@ && final(history)@ == old(history)@ && (forall|k: int|
            0 <= k < r@.len() ==> #[trigger] r@[k] == old(ctrls)@.len()),
        old(state)@.players.len() >= 2 && !loop_fingerprint(old(state)@)
            ==> final(history)@.len() > old(history)@.len() && (forall|k: int|
            0 <= k < final(state)@.players.len()
                ==> r@[(#[trigger] final(state)@.players[k]).id as int]
                == final(state)@.players.len()),
        final(state)@.players.len() > 1 ==> loop_fingerprint(final(state)@)
            || final(history)@.len() == old(history)@.len() + u64::MAX,
        old(state)@.players.len() >= 2 && final(state)@.players.len() == 1
            ==> r@[final(state)@.players[0].id as int] == 1,
        // the final position is exactly the recorded actions applied in order
        final(history)@.len() >= old(history)@.len() && final(history)@.subrange(
            0,
            old(history)@.len() as int,
        ) == old(history)@ && final(state)@ == replay(
            old(state)@,
            final(history)@.subrange(
                old(history)@.len() as int,
                final(history)@.len() as int,
            ).map_values(|x: Action| x@),
        ),
        // and the rank table is exactly the one the recorded run yields:
        // each id holds the survivor count just after the last recorded
        // action at which it was present, or the sentinel if never present
        r@ == ranks_after(
            old(state)@,
            final(history)@.subrange(
                old(history)@.len() as int,
                final(history)@.len() as int,
            ).map_values(|x: Action| x@),
            Seq::new(old(ctrls)@.len(), |id: int| old(ctrls).len()),
        ),
{
    let n_players = ctrls.len();
    let mut ranks: Vec<usize> = Vec::new();
    let mut t: usize = 0;
    while t < n_players
        invariant
            0 <= t <= n_players,
            n_players >= 1,
            ranks@.len() == t,
            forall|k: int| 0 <= k < t ==> #[trigger] ranks@[k] == n_players,
        decreases n_players - t,
    {
        ranks.push(n_players);
        t = t + 1;
    }
    let mut fuel: u64 = u64::MAX;
    let ghost s_init = state@;
    let ghost h_init = history@;
    let ghost table0 = Seq::new(n_players as nat, |id: int| n_players);
    proof {
        assert(ranks@ =~= table0);
        assert(history@.subrange(h_init.len() as int, history@.len() as int) =~= Seq::<
            Action,
        >::empty());
        assert(Seq::<Action>::empty().map_values(|x: Action| x@) =~= Seq::<
            crate::chopsticks_state::ActionV,
        >::empty());
    }
    let mut go = state.players.len() > 1 && !state.is_loop_state();
    while go && fuel > 0
        invariant
            driver_wf(state@, n_players),
            ctrls@.len() == n_players,
            ranks@.len() == n_players,
            forall|k: int| 0 <= k < ranks@.len() ==> 1 <= #[trigger] ranks@[k],
            go == (state@.players.len() > 1 && !loop_fingerprint(state@)),
            history@.len() == h_init.len() + (u64::MAX - fuel),
            history@.len() == h_init.len() ==> state@ == s_init,
            history@.subrange(0, h_init.len() as int) == h_init,
            state@ == replay(
                s_init,
                history@.subrange(h_init.len() as int, history@.len() as int).map_values(
                    |x: Action| x@,
                ),
            ),
            table0 == Seq::new(n_players as nat, |id: int| n_players),
            ranks@ == ranks_after(
                s_init,
                history@.subrange(h_init.len() as int, history@.len() as int).map_values(
                    |x: Action| x@,
                ),
                table0,
            ),
            (s_init.players.len() <= 1 || loop_fingerprint(s_init)) ==> state@ == s_init
                && history@ == h_init && (forall|k: int|
                0 <= k < ranks@.len() ==> #[trigger] ranks@[k] == n_players),
            history@.len() > h_init.len() ==> forall|k: int|
                0 <= k < state@.players.len() ==> ranks@[(#[trigger] state@.players[k]).id as int]
                    == state@.players.len(),
        decreases fuel,
    {
        proof {
            assert(ctrls.len() == ctrls@.len());
            assert forall|k: int| 0 <= k < state@.players.len() implies (
            #[trigger] state@.players[k]).id < usize::MAX by {
                assert(state@.players[k].id < n_players);
            }
        }
        let id = state.get_turn();
        let mut c = ctrls.remove(id);
        let action = c.get_action(state);
        ctrls.insert(id, c);
        proof {
            assert(ctrls@.len() == n_players);
        }
        let ghost h_prev = history@;
        history.push(action.clone());
        let ghost sv = state@;
        let ghost av = action@;
        let res = state.apply_action(action);
        match res {
            Ok(()) => {},
            Err(_) => {
                proof {
                    assert(false);
                }
            },
        }
        proof {
            lemma_action_preserves_ids(sv, av, n_players as int);
            assert(history@.subrange(0, h_init.len() as int) =~= h_init);
            let suff = history@.subrange(h_init.len() as int, history@.len() as int);
            assert(suff.drop_last() =~= h_prev.subrange(
                h_init.len() as int,
                h_prev.len() as int,
            ));
            assert(suff.map_values(|x: Action| x@).drop_last() =~= suff.drop_last().map_values(
                |x: Action| x@,
            ));
            assert(suff.map_values(|x: Action| x@).last() == av);
            assert(state@ == replay(s_init, suff.map_values(|x: Action| x@)));
        }
        let ghost ranks_pre = ranks@;
        proof {
            assert(state@.players.subrange(0, 0) =~= Seq::<
                crate::chopsticks_state::PlayerV,
            >::empty());
        }
        let m = state.players.len();
        let mut k: usize = 0;
        while k < m
            invariant
                driver_wf(state@, n_players),
                m == state@.players.len(),
                m >= 1,
                0 <= k <= m,
                ranks@.len() == n_players,
                ranks_pre.len() == n_players,
                forall|t2: int| 0 <= t2 < ranks_pre.len() ==> 1 <= #[trigger] ranks_pre[t2],
                forall|t2: int| 0 <= t2 < ranks@.len() ==> 1 <= #[trigger] ranks@[t2],
                forall|k2: int|
                    0 <= k2 < k ==> ranks@[(#[trigger] state@.players[k2]).id as int] == m,
                forall|id: int|
                    0 <= id < ranks@.len() ==> #[trigger] ranks@[id] == (if roster_has_id(
                        state@.players.subrange(0, k as int),
                        id,
                    ) {
                        m
                    } else {
                        ranks_pre[id]
                    }),
            decreases m - k,
        {
            proof {
                assert(state@.players[k as int].id < n_players);
            }
            let pid = state.players[k].id;
            ranks.set(pid, m);
            proof {
                let pre1 = state@.players.subrange(0, k + 1);
                let pre0 = state@.players.subrange(0, k as int);
                assert(pre1.drop_last() =~= pre0);
                assert(pre1.last() == state@.players[k as int]);
                assert forall|id2: int| 0 <= id2 < ranks@.len() implies #[trigger] ranks@[id2] == (
                if roster_has_id(pre1, id2) {
                    m
                } else {
                    ranks_pre[id2]
                }) by {
                    if id2 == state@.players[k as int].id {
                        assert(pre1[k as int] == state@.players[k as int]);
                        assert(roster_has_id(pre1, id2));
                    } else {
                        if roster_has_id(pre1, id2) {
                            let w = choose|w: int| 0 <= w < pre1.len() && pre1[w].id == id2;
                            assert(pre0[w] == pre1[w]);
                            assert(roster_has_id(pre0, id2));
                        }
                        if roster_has_id(pre0, id2) {
                            let w = choose|w: int| 0 <= w < pre0.len() && pre0[w].id == id2;
                            assert(pre1[w] == pre0[w]);
                            assert(roster_has_id(pre1, id2));
                        }
                    }
                }
            }
            k = k + 1;
        }
        proof {
            assert(state@.players.subrange(0, m as int) =~= state@.players);
            let suff = history@.subrange(h_init.len() as int, history@.len() as int).map_values(
                |x: Action| x@,
            );
            assert(suff.len() > 0);
            let hsuff = history@.subrange(h_init.len() as int, history@.len() as int);
            assert(hsuff.drop_last() =~= h_prev.subrange(h_init.len() as int, h_prev.len() as int));
            assert(suff.drop_last() =~= hsuff.drop_last().map_values(|x: Action| x@));
            assert(ranks_pre == ranks_after(s_init, suff.drop_last(), table0));
            assert(replay(s_init, suff) == state@);
            assert(ranks@ =~= ranks_after(s_init, suff, table0));
        }
        fuel = fuel - 1;
        go = state.players.len() > 1 && !state.is_loop_state();
    }
    proof {
        if s_init.players.len() >= 2 && !loop_fingerprint(s_init) {
            assert(history@.len() > h_init.len());
        }
    }
    ranks
}

/// One controller determines every move of the game.
pub struct SinglePlayer<C: Controller> {
    pub player: C,
    pub state: ChopsticksState,
    pub history: Vec<Action>,
    pub n_players: usize,
}

impl<C: Controller> SinglePlayer<C> {
    /// Wraps a position and the controller that will play it out.
    pub fn new(state: ChopsticksState, player: C) -> (r: SinglePlayer<C>)
        requires
            state.wf(),
            state@.n_hands == 2,
            ids_in_range(state@.players),
        ensures
            r.wf(),
            r.state@ == state@,
            r.history@.len() == 0,
            r.n_players as int == (if id_bound(state@.players) >= 1 {
                id_bound(state@.players)
            } else {
                1int
            }),
    {
        let n_players = roster_id_bound(&state);
        SinglePlayer { player, state, history: Vec::new(), n_players }
    }

    /// Plays the game out and reports, per player id, the roster size at
    /// the moment that player was eliminated; the winner ends at one and
    /// ranks untouched by the run keep the sentinel `n_players`.
    pub fn get_rankings(&mut self) -> (r: Vec<usize>)
        requires
            old(self).wf(),
        ensures
            final(self).wf(),
            final(self).n_players == old(self).n_players,
            r@.len() == old(self).n_players,
            forall|k: int| 0 <= k < r@.len() ==> 1 <= #[trigger] r@[k],
            old(self).state@.players.len() <= 1 || loop_fingerprint(old(self).state@) ==> final(self).state@ == old(self).state@ && final(self).history@ == old(self).history@ && (forall|k: int|
                0 <= k < r@.len() ==> #[trigger] r@[k] == old(self).n_players),
            old(self).state@.players.len() >= 2 && !loop_fingerprint(old(self).state@) ==> final(self).history@.len() > old(self).history@.len() && (forall|k: int|
                0 <= k < final(self).state@.players.len()
                    ==> r@[(#[trigger] final(self).state@.players[k]).id as int] == final(self).state@.players.len()),
            final(self).state@.players.len() > 1 ==> loop_fingerprint(final(self).state@) || final(self).history@.len() == old(self).history@.len() + u64::MAX,
            old(self).state@.players.len() >= 2 && final(self).state@.players.len() == 1 ==> r@[
                final(self).state@.players[0].id as int
            ] == 1,
            final(self).history@.len() >= old(self).history@.len() && final(self).history@.subrange(0, old(self).history@.len() as int) == old(self).history@ && final(self).state@ == replay(
                old(self).state@,
                final(self).history@.subrange(
                    old(self).history@.len() as int,
                    final(self).history@.len() as int,
                ).map_values(|x: Action| x@),
            ),
            r@ == ranks_after(
                old(self).state@,
                final(self).history@.subrange(
                    old(self).history@.len() as int,
                    final(self).history@.len() as int,
                ).map_values(|x: Action| x@),
                Seq::new(old(self).n_players as nat, |id: int| old(self).n_players),
            ),
    {
        let n = self.n_players;
        run_rankings(&mut self.player, &mut self.state, &mut self.history, n)
    }
}

impl<C: Controller> Game for SinglePlayer<C> {
    open spec fn wf(&self) -> bool {
        driver_wf(self.state@, self.n_players)
    }

    open spec fn pos(&self) -> StateV {
        self.state@
    }

    fn get_action(&mut self) -> (r: Option<Action>) {
        if self.state.players.len() <= 1 {
            None
        } else {
            proof {
                assert forall|k: int| 0 <= k < self.state@.players.len() implies (
                #[trigger] self.state@.players[k]).id < usize::MAX by {
                    assert(self.state@.players[k].id < self.n_players);
                }
            }
            Some(self.player.get_action(&self.state))
        }
    }

    fn play_action(&mut self, action: &Action) -> (r: Result<(), ActionError>) {
        self.history.push(action.clone());
        let ghost sv = self.state@;
        let a = action.clone();
        let res = self.state.apply_action(a);
        proof {
            if res is Ok {
                lemma_action_preserves_ids(sv, action@, self.n_players as int);
            }
        }
        res
    }

    fn get_state(&self) -> (r: &ChopsticksState) {
        &self.state
    }
}

/// One strategy determines every move of the game.
pub struct SingleStrategy<C: Controller> {
    pub strategy: C,
    pub state: ChopsticksState,
    pub history: Vec<Action>,
    pub n_players: usize,
}

impl<C: Controller> SingleStrategy<C> {
    /// Wraps a position and the strategy that will play it out.
    pub fn new(state: ChopsticksState, strategy: C) -> (r: SingleStrategy<C>)
        requires
            state.wf(),
            state@.n_hands == 2,
            ids_in_range(state@.players),
        ensures
            r.wf(),
            r.state@ == state@,
            r.history@.len() == 0,
            r.n_players as int == (if id_bound(state@.players) >= 1 {
                id_bound(state@.players)
            } else {
                1int
            }),
    {
        let n_players = roster_id_bound(&state);
        SingleStrategy { strategy, state, history: Vec::new(), n_players }
    }

    /// Plays the game out and reports, per player id, the roster size at
    /// the moment that player was eliminated; the winner ends at one and
    /// ranks untouched by the run keep the sentinel `n_players`.
    pub fn get_rankings(&mut self) -> (r: Vec<usize>)
        requires
            old(self).wf(),
        ensures
            final(self).wf(),
            final(self).n_players == old(self).n_players,
            r@.len() == old(self).n_players,
            forall|k: int| 0 <= k < r@.len() ==> 1 <= #[trigger] r@[k],
            old(self).state@.players.len() <= 1 || loop_fingerprint(old(self).state@) ==> final(self).state@ == old(self).state@ && final(self).history@ == old(self).history@ && (forall|k: int|
                0 <= k < r@.len() ==> #[trigger] r@[k] == old(self).n_players),
            old(self).state@.players.len() >= 2 && !loop_fingerprint(old(self).state@) ==> final(self).history@.len() > old(self).history@.len() && (forall|k: int|
                0 <= k < final(self).state@.players.len()
                    ==> r@[(#[trigger] final(self).state@.players[k]).id as int] == final(self).state@.players.len()),
            final(self).state@.players.len() > 1 ==> loop_fingerprint(final(self).state@) || final(self).history@.len() == old(self).history@.len() + u64::MAX,
            old(self).state@.players.len() >= 2 && final(self).state@.players.len() == 1 ==> r@[
                final(self).state@.players[0].id as int
            ] == 1,
            final(self).history@.len() >= old(self).history@.len() && final(self).history@.subrange(0, old(self).history@.len() as int) == old(self).history@ && final(self).state@ == replay(
                old(self).state@,
                final(self).history@.subrange(
                    old(self).history@.len() as int,
                    final(self).history@.len() as int,
                ).map_values(|x: Action| x@),
            ),
            r@ == ranks_after(
                old(self).state@,
                final(self).history@.subrange(
                    old(self).history@.len() as int,
                    final(self).history@.len() as int,
                ).map_values(|x: Action| x@),
                Seq::new(old(self).n_players as nat, |id: int| old(self).n_players),
            ),
    {
        let n = self.n_players;
        run_rankings(&mut self.strategy, &mut self.state, &mut self.history, n)
    }
}

impl<C: Controller> Game for SingleStrategy<C> {
    open spec fn wf(&self) -> bool {
        driver_wf(self.state@, self.n_players)
    }

    open spec fn pos(&self) -> StateV {
        self.state@
    }

    fn get_action(&mut self) -> (r: Option<Action>) {
        if self.state.players.len() <= 1 {
            None
        } else {
            proof {
                assert forall|k: int| 0 <= k < self.state@.players.len() implies (
                #[trigger] self.state@.players[k]).id < usize::MAX by {
                    assert(self.state@.players[k].id < self.n_players);
                }
            }
            Some(self.strategy.get_action(&self.state))
        }
    }

    fn play_action(&mut self, action: &Action) -> (r: Result<(), ActionError>) {
        self.history.push(action.clone());
        let ghost sv = self.state@;
        let a = action.clone();
        let res = self.state.apply_action(a);
        proof {
            if res is Ok {
                lemma_action_preserves_ids(sv, action@, self.n_players as int);
            }
        }
        res
    }

    fn get_state(&self) -> (r: &ChopsticksState) {
        &self.state
    }
}

/// Each player's moves come from its own controller, indexed by player id.
pub struct MultiPlayer<C: Controller> {
    pub players: Vec<C>,
    pub state: ChopsticksState,
    pub history: Vec<Action>,
}

impl<C: Controller> MultiPlayer<C> {
    /// Wraps a position and one controller per player id.
    pub fn new(state: ChopsticksState, players: Vec<C>) -> (r: MultiPlayer<C>)
        requires
            state.wf(),
            state@.n_hands == 2,
            players@.len() >= 1,
            forall|k: int|
                0 <= k < state@.players.len() ==> (#[trigger] state@.players[k]).id
                    < players@.len(),
        ensures
            r.wf(),
            r.state@ == state@,
            r.history@.len() == 0,
            r.players@.len() == players@.len(),
    {
        MultiPlayer { players, state, history: Vec::new() }
    }

    /// Plays the game out, asking each mover's own controller, and reports
    /// per player id the roster size at the moment that player was
    /// eliminated; the winner ends at one and ranks untouched by the run
    /// keep the sentinel (the controller count).
    pub fn get_rankings(&mut self) -> (r: Vec<usize>)
        requires
            old(self).wf(),
        ensures
            final(self).wf(),
            final(self).players@.len() == old(self).players@.len(),
            r@.len() == old(self).players@.len(),
            forall|k: int| 0 <= k < r@.len() ==> 1 <= #[trigger] r@[k],
            old(self).state@.players.len() <= 1 || loop_fingerprint(old(self).state@)
                ==> final(self).state@ == old(self).state@ && final(self).history@ == old(self).history@ && (forall|k: int|
                0 <= k < r@.len() ==> #[trigger] r@[k] == old(self).players@.len()),
            old(self).state@.players.len() >= 2 && !loop_fingerprint(old(self).state@)
                ==> final(self).history@.len() > old(self).history@.len() && (forall|k: int|
                0 <= k < final(self).state@.players.len()
                    ==> r@[(#[trigger] final(self).state@.players[k]).id as int] == final(self).state@.players.len()),
            final(self).state@.players.len() > 1 ==> loop_fingerprint(final(self).state@)
                || final(self).history@.len() == old(self).history@.len() + u64::MAX,
            old(self).state@.players.len() >= 2 && final(self).state@.players.len() == 1 ==> r@[
                final(self).state@.players[0].id as int
            ] == 1,
            final(self).history@.len() >= old(self).history@.len() && final(self).history@.subrange(0, old(self).history@.len() as int) == old(self).history@ && final(self).state@ == replay(
                old(self).state@,
                final(self).history@.subrange(
                    old(self).history@.len() as int,
                    final(self).history@.len() as int,
                ).map_values(|x: Action| x@),
            ),
            r@ == ranks_after(
                old(self).state@,
                final(self).history@.subrange(
                    old(self).history@.len() as int,
                    final(self).history@.len() as int,
                ).map_values(|x: Action| x@),
                Seq::new(old(self).players@.len(), |id: int| old(self).players.len()),
            ),
    {
        run_rankings_each(&mut self.players, &mut self.state, &mut self.history)
    }
}

impl<C: Controller> Game for MultiPlayer<C> {
    open spec fn wf(&self) -> bool {
        &&& crate::chopsticks_state::state_wf(self.state@)
        &&& self.state@.n_hands == 2
        &&& self.players@.len() >= 1
        &&& forall|k: int|
            0 <= k < self.state@.players.len() ==> (#[trigger] self.state@.players[k]).id
                < self.players@.len()
    }

    open spec fn pos(&self) -> StateV {
        self.state@
    }

    fn get_action(&mut self) -> (r: Option<Action>) {
        if self.state.players.len() <= 1 {
            None
        } else {
            let id = self.state.get_turn();
            proof {
                assert(self.players.len() == self.players@.len());
                assert forall|k: int| 0 <= k < self.state@.players.len() implies (
                #[trigger] self.state@.players[k]).id < usize::MAX by {
                    assert(self.state@.players[k].id < self.players@.len());
                }
            }
            let mut c = self.players.remove(id);
            let a = c.get_action(&self.state);
            self.players.insert(id, c);
            proof {
                assert(self.players@.len() == old(self).players@.len());
            }
            Some(a)
        }
    }

    fn play_action(&mut self, action: &Action) -> (r: Result<(), ActionError>) {
        self.history.push(action.clone());
        let ghost sv = self.state@;
        let a = action.clone();
        let res = self.state.apply_action(a);
        proof {
            if res is Ok {
                lemma_action_preserves_ids(sv, action@, self.players@.len() as int);
            }
        }
        res
    }

    fn get_state(&self) -> (r: &ChopsticksState) {
        &self.state
    }
}

/// Each player's moves come from its own strategy, indexed by player id.
pub struct MultiStrategy<C: Controller> {
    pub strategies: Vec<C>,
    pub state: ChopsticksState,
    pub history: Vec<Action>,
}

impl<C: Controller> MultiStrategy<C> {
    /// Wraps a position and one strategy per player id.
    pub fn new(state: ChopsticksState, strategies: Vec<C>) -> (r: MultiStrategy<C>)
        requires
            state.wf(),
            state@.n_hands == 2,
            strategies@.len() >= 1,
            forall|k: int|
                0 <= k < state@.players.len() ==> (#[trigger] state@.players[k]).id
                    < strategies@.len(),
        ensures
            r.wf(),
            r.state@ == state@,
            r.history@.len() == 0,
            r.strategies@.len() == strategies@.len(),
    {
        MultiStrategy { strategies, state, history: Vec::new() }
    }

    /// Plays the game out, asking each mover's own strategy, and reports
    /// per player id the roster size at the moment that player was
    /// eliminated; the winner ends at one and ranks untouched by the run
    /// keep the sentinel (the strategy count).
    pub fn get_rankings(&mut self) -> (r: Vec<usize>)
        requires
            old(self).wf(),
        ensures
            final(self).wf(),
            final(self).strategies@.len() == old(self).strategies@.len(),
            r@.len() == old(self).strategies@.len(),
            forall|k: int| 0 <= k < r@.len() ==> 1 <= #[trigger] r@[k],
            old(self).state@.players.len() <= 1 || loop_fingerprint(old(self).state@)
                ==> final(self).state@ == old(self).state@ && final(self).history@ == old(self).history@ && (forall|k: int|
                0 <= k < r@.len() ==> #[trigger] r@[k] == old(self).strategies@.len()),
            old(self).state@.players.len() >= 2 && !loop_fingerprint(old(self).state@)
                ==> final(self).history@.len() > old(self).history@.len() && (forall|k: int|
                0 <= k < final(self).state@.players.len()
                    ==> r@[(#[trigger] final(self).state@.players[k]).id as int] == final(self).state@.players.len()),
            final(self).state@.players.len() > 1 ==> loop_fingerprint(final(self).state@)
                || final(self).history@.len() == old(self).history@.len() + u64::MAX,
            old(self).state@.players.len() >= 2 && final(self).state@.players.len() == 1 ==> r@[
                final(self).state@.players[0].id as int
            ] == 1,
            final(self).history@.len() >= old(self).history@.len() && final(self).history@.subrange(0, old(self).history@.len() as int) == old(self).history@ && final(self).state@ == replay(
                old(self).state@,
                final(self).history@.subrange(
                    old(self).history@.len() as int,
                    final(self).history@.len() as int,
                ).map_values(|x: Action| x@),
            ),
            r@ == ranks_after(
                old(self).state@,
                final(self).history@.subrange(
                    old(self).history@.len() as int,
                    final(self).history@.len() as int,
                ).map_values(|x: Action| x@),
                Seq::new(old(self).strategies@.len(), |id: int| old(self).strategies.len()),
            ),
    {
        run_rankings_each(&mut self.strategies, &mut self.state, &mut self.history)
    }
}

impl<C: Controller> Game for MultiStrategy<C> {
    open spec fn wf(&self) -> bool {
        &&& crate::chopsticks_state::state_wf(self.state@)
        &&& self.state@.n_hands == 2
        &&& self.strategies@.len() >= 1
        &&& forall|k: int|
            0 <= k < self.state@.players.len() ==> (#[trigger] self.state@.players[k]).id
                < self.strategies@.len()
    }

    open spec fn pos(&self) -> StateV {
        self.state@
    }

    fn get_action(&mut self) -> (r: Option<Action>) {
        if self.state.players.len() <= 1 {
            None
        } else {
            let id = self.state.get_turn();
            proof {
                assert(self.strategies.len() == self.strategies@.len());
                assert forall|k: int| 0 <= k < self.state@.players.len() implies (
                #[trigger] self.state@.players[k]).id < usize::MAX by {
                    assert(self.state@.players[k].id < self.strategies@.len());
                }
            }
            let mut c = self.strategies.remove(id);
            let a = c.get_action(&self.state);
            self.strategies.insert(id, c);
            proof {
                assert(self.strategies@.len() == old(self).strategies@.len());
            }
            Some(a)
        }
    }

    fn play_action(&mut self, action: &Action) -> (r: Result<(), ActionError>) {
        self.history.push(action.clone());
        let ghost sv = self.state@;
        let a = action.clone();
        let res = self.state.apply_action(a);
        proof {
            if res is Ok {
                lemma_action_preserves_ids(sv, action@, self.strategies@.len() as int);
            }
        }
        res
    }

    fn get_state(&self) -> (r: &ChopsticksState) {
        &self.state
    }
}

} // verus!
