//! The rule engine: a rotating roster of players, where the player at the
//! front of the roster is the one to move. Eliminated players leave the
//! roster immediately and the roster rotates one step after every move.

use crate::hands::{
    all_zero, alive_indexes, cartesian_pairs, fingers_total, hands_below, hands_sorted,
    lemma_fingers_total_push, lemma_sorted_version_ensures, lemma_two_hand_total, sort_hands,
    sorted_version, total_fingers,
};
use vstd::pervasive::VecAdditionalExecFns;
use vstd::prelude::*;

verus! {

/// The position of an individual player.
#[derive(Debug)]
pub struct Player {
    /// Uniquely identifies the player within a `ChopsticksState`; stable
    /// while the roster rotates and shrinks.
    pub id: usize,
    /// The player's hands, kept sorted in ascending order.
    pub hands: Vec<u32>,
}

/// The abstract value of a `Player`.
#[verifier::ext_equal]
pub struct PlayerV {
    pub id: usize,
    pub hands: Seq<u32>,
}

impl View for Player {
    type V = PlayerV;

    open spec fn view(&self) -> PlayerV {
        PlayerV { id: self.id, hands: self.hands@ }
    }
}

/// Game state: the roster of surviving players in rotation order, with the
/// mover at the front, plus the rule configuration.
#[derive(Debug)]
pub struct ChopsticksState {
    pub players: Vec<Player>,
    pub n_hands: usize,
    pub rollover: u32,
}

/// The abstract value of a `ChopsticksState`.
#[verifier::ext_equal]
pub struct StateV {
    pub players: Seq<PlayerV>,
    pub n_hands: usize,
    pub rollover: u32,
}

/// The abstract roster corresponding to a vector of players.
pub open spec fn players_view(ps: Seq<Player>) -> Seq<PlayerV> {
    ps.map_values(|p: Player| p@)
}

impl View for ChopsticksState {
    type V = StateV;

    open spec fn view(&self) -> StateV {
        StateV {
            players: players_view(self.players@),
            n_hands: self.n_hands,
            rollover: self.rollover,
        }
    }
}

#[derive(Clone, Copy, Debug, PartialEq, Eq, Structural)]
pub enum AttackError {
    PlayerIndexOutOfBounds,
    HandIndexOutOfBounds,
    HandIsNotAlive,
}

#[derive(Clone, Copy, Debug, PartialEq, Eq, Structural)]
pub enum SplitError {
    MoveWithoutChange,
    InvalidHandLen,
    InvalidTotalRollover,
    InvalidFingerValue,
}

#[derive(Clone, Copy, Debug, PartialEq, Eq, Structural)]
pub enum ActionError {
    GameIsOver,
    AttackError(AttackError),
    SplitError(SplitError),
}

/// A move: either attack an opponent's hand or redistribute one's own.
#[derive(Debug)]
pub enum Action {
    /// `i` is the rotation offset of the defender (1 is the next player),
    /// `a` the mover's attacking hand, `b` the defender's attacked hand.
    Attack { i: usize, a: usize, b: usize },
    /// The complete replacement hand array for the mover.
    Split { new_hands: Vec<u32> },
}

/// The abstract value of an `Action`.
#[verifier::ext_equal]
pub enum ActionV {
    Attack { i: usize, a: usize, b: usize },
    Split { new_hands: Seq<u32> },
}

impl View for Action {
    type V = ActionV;

    open spec fn view(&self) -> ActionV {
        match self {
            Action::Attack { i, a, b } => ActionV::Attack { i: *i, a: *a, b: *b },
            Action::Split { new_hands } => ActionV::Split { new_hands: new_hands@ },
        }
    }
}

impl Clone for Action {
    fn clone(&self) -> (r: Action)
        ensures
            r@ == self@,
    {
        match self {
            Action::Attack { i, a, b } => Action::Attack { i: *i, a: *a, b: *b },
            Action::Split { new_hands } => {
                let h = new_hands.clone();
                assert(h@ =~= new_hands@);
                Action::Split { new_hands: h }
            },
        }
    }
}

impl Clone for Player {
    fn clone(&self) -> (r: Player)
        ensures
            r@ == self@,
    {
        let h = self.hands.clone();
        assert(h@ =~= self.hands@);
        Player { id: self.id, hands: h }
    }
}

impl PartialEq for Player {
    fn eq(&self, other: &Player) -> (r: bool) {
        let hands_eq = self.hands == other.hands;
        proof {
            if hands_eq {
                assert(self.hands@ =~= other.hands@);
            } else if self.hands@ == other.hands@ {
                assert(false);
            }
        }
        self.id == other.id && hands_eq
    }
}

impl vstd::std_specs::cmp::PartialEqSpecImpl for Player {
    open spec fn obeys_eq_spec() -> bool {
        true
    }

    open spec fn eq_spec(&self, other: &Player) -> bool {
        self@ == other@
    }
}

impl Clone for ChopsticksState {
    fn clone(&self) -> (r: ChopsticksState)
        ensures
            r@ == self@,
    {
        let mut ps: Vec<Player> = Vec::new();
        let mut k: usize = 0;
        while k < self.players.len()
            invariant
                0 <= k <= self.players@.len(),
                ps@.len() == k,
                forall|j: int| 0 <= j < k ==> ps@[j]@ == #[trigger] self.players@[j]@,
            decreases self.players@.len() - k,
        {
            let p = self.players[k].clone();
            ps.push(p);
            k = k + 1;
        }
        let r = ChopsticksState { players: ps, n_hands: self.n_hands, rollover: self.rollover };
        proof {
            assert(r@.players =~= self@.players);
            assert(r@ =~= self@);
        }
        r
    }
}

impl PartialEq for ChopsticksState {
    fn eq(&self, other: &ChopsticksState) -> (r: bool) {
        if self.n_hands != other.n_hands || self.rollover != other.rollover {
            proof {
                assert(self@ != other@);
            }
            return false;
        }
        if self.players.len() != other.players.len() {
            proof {
                assert(self@.players.len() != other@.players.len());
            }
            return false;
        }
        let mut k: usize = 0;
        while k < self.players.len()
            invariant
                0 <= k <= self.players@.len(),
                self.players@.len() == other.players@.len(),
                forall|j: int| 0 <= j < k ==> #[trigger] self@.players[j] == other@.players[j],
            decreases self.players@.len() - k,
        {
            let same = self.players[k] == other.players[k];
            if !same {
                proof {
                    assert(self@.players[k as int] != other@.players[k as int]);
                    assert(self@ != other@);
                }
                return false;
            }
            k = k + 1;
        }
        proof {
            assert(self@.players =~= other@.players);
            assert(self@ =~= other@);
        }
        true
    }
}

impl vstd::std_specs::cmp::PartialEqSpecImpl for ChopsticksState {
    open spec fn obeys_eq_spec() -> bool {
        true
    }

    open spec fn eq_spec(&self, other: &ChopsticksState) -> bool {
        self@ == other@
    }
}

/// A well-formed player: the right number of hands, sorted, every value
/// below the rollover, and at least one live hand.
pub open spec fn player_wf(p: PlayerV, n_hands: usize, rollover: u32) -> bool {
    &&& p.hands.len() == n_hands
    &&& hands_sorted(p.hands)
    &&& hands_below(p.hands, rollover)
    &&& !all_zero(p.hands)
}

/// A well-formed state: a sane configuration and a non-empty roster of
/// well-formed, surviving players.
pub open spec fn state_wf(s: StateV) -> bool {
    &&& s.n_hands >= 1
    &&& s.rollover >= 2
    &&& s.players.len() >= 1
    &&& forall|k: int|
        0 <= k < s.players.len() ==> player_wf(#[trigger] s.players[k], s.n_hands, s.rollover)
}

/// The roster after the front player moves to the back.
pub open spec fn rotate_left(ps: Seq<PlayerV>) -> Seq<PlayerV> {
    ps.subrange(1, ps.len() as int).push(ps[0])
}

/// The first failing check of an attack, if any, in the order the checks
/// are made.
pub open spec fn attack_err(s: StateV, i: usize, a: usize, b: usize) -> Option<AttackError> {
    if i == 0 || i >= s.players.len() {
        Some(AttackError::PlayerIndexOutOfBounds)
    } else if a >= s.n_hands || b >= s.n_hands {
        Some(AttackError::HandIndexOutOfBounds)
    } else if s.players[0].hands[a as int] == 0 || s.players[i as int].hands[b as int] == 0 {
        Some(AttackError::HandIsNotAlive)
    } else {
        None
    }
}

/// The defender's hand array after the attacked hand wraps, before re-sorting.
pub open spec fn updated_defender(s: StateV, i: usize, a: usize, b: usize) -> Seq<u32> {
    let atk = s.players[0].hands[a as int];
    let def = s.players[i as int].hands[b as int];
    s.players[i as int].hands.update(b as int, (((def + atk) % (s.rollover as int)) as u32))
}

/// The first failing check of a split, if any, in the order the checks are
/// made.
pub open spec fn split_err(s: StateV, new_hands: Seq<u32>) -> Option<SplitError> {
    let srt = sorted_version(new_hands);
    if new_hands.len() != s.n_hands {
        Some(SplitError::InvalidHandLen)
    } else if srt == s.players[0].hands {
        Some(SplitError::MoveWithoutChange)
    } else if fingers_total(new_hands) != fingers_total(s.players[0].hands) {
        Some(SplitError::InvalidTotalRollover)
    } else if exists|k: int| 0 <= k < srt.len() && !(1 <= #[trigger] srt[k] < s.rollover) {
        Some(SplitError::InvalidFingerValue)
    } else {
        None
    }
}

/// The state after a successful split: the mover holds the sorted
/// replacement hands and the roster rotates one step.
pub open spec fn split_next(s: StateV, new_hands: Seq<u32>) -> StateV {
    let np = PlayerV { id: s.players[0].id, hands: sorted_version(new_hands) };
    StateV {
        players: rotate_left(s.players.update(0, np)),
        n_hands: s.n_hands,
        rollover: s.rollover,
    }
}

/// The state after a successful attack: the defender's hands are updated and
/// re-sorted, the defender leaves the roster if eliminated, and the roster
/// rotates one step.
pub open spec fn attack_next(s: StateV, i: usize, a: usize, b: usize) -> StateV {
    let upd = updated_defender(s, i, a, b);
    let np = PlayerV { id: s.players[i as int].id, hands: sorted_version(upd) };
    let mid = s.players.update(i as int, np);
    let after = if all_zero(upd) {
        mid.remove(i as int)
    } else {
        mid
    };
    StateV { players: rotate_left(after), n_hands: s.n_hands, rollover: s.rollover }
}

impl ChopsticksState {
    /// The state is well formed.
    pub open spec fn wf(&self) -> bool {
        state_wf(self@)
    }

    /// The current player uses hand `a` to attack the player `i` seats ahead
    /// in rotation order at hand `b`.
    ///
    /// On success the attacked hand becomes `(defender + attacker) % rollover`,
    /// the defender's hands are re-sorted, an eliminated defender leaves the
    /// roster, and the roster rotates one step.
    pub fn attack(&mut self, i: usize, a: usize, b: usize) -> (res: Result<(), AttackError>)
        requires
            old(self).wf(),
        ensures
            final(self).wf(),
            match res {
                Err(e) => attack_err(old(self)@, i, a, b) == Some(e) && final(self)@ == old(
                    self,
                )@,
                Ok(()) => attack_err(old(self)@, i, a, b) is None && final(self)@ == attack_next(
                    old(self)@,
                    i,
                    a,
                    b,
                ),
            },
            res is Ok ==> ({
                let upd = updated_defender(old(self)@, i, a, b);
                let ops = old(self)@.players;
                let nps = final(self)@.players;
                // the mover keeps its hands and moves to the back
                &&& nps.last() == ops[0]
                // the defender is removed exactly when all its hands are dead
                &&& nps.len() == (if all_zero(upd) {
                    ops.len() - 1
                } else {
                    ops.len() as int
                })
                // a surviving defender holds the wrapped hand array, re-sorted
                &&& !all_zero(upd) ==> nps[i - 1].hands.to_multiset() == upd.to_multiset()
                    && nps[i - 1].id == ops[i as int].id
            }),
    {
        if i == 0 || i >= self.players.len() {
            Err(AttackError::PlayerIndexOutOfBounds)
        } else if a >= self.n_hands || b >= self.n_hands {
            Err(AttackError::HandIndexOutOfBounds)
        } else {
            let attacker = self.players[0].hands[a];
            let defender = self.players[i].hands[b];
            if attacker == 0 || defender == 0 {
                Err(AttackError::HandIsNotAlive)
            } else {
                let ghost s0 = self@;
                let ghost pvec = self.players@;
                let ghost upd = updated_defender(s0, i, a, b);
                let new_val = ((defender as u64 + attacker as u64) % (self.rollover as u64))
                    as u32;
                let mut dp = self.players.remove(i);
                proof {
                    assert(dp.hands@.len() == s0.n_hands);
                    assert(new_val == (((s0.players[0].hands[a as int]
                        + s0.players[i as int].hands[b as int]) % (s0.rollover as int)) as u32));
                }
                dp.hands.set(b, new_val);
                proof {
                    assert(dp.hands@ =~= upd);
                    lemma_sorted_version_ensures(upd);
                }
                let sorted = sort_hands(&dp.hands);
                dp.hands = sorted;
                let eliminated = dp.hands[self.n_hands - 1] == 0;
                let ghost dpe = dp;
                proof {
                    lemma_sorted_multiset_facts(upd, dpe.hands@, s0.rollover);
                    assert(eliminated <==> all_zero(upd));
                    assert(dpe@ == (PlayerV {
                        id: s0.players[i as int].id,
                        hands: sorted_version(upd),
                    }));
                }
                if !eliminated {
                    self.players.insert(i, dp);
                    proof {
                        assert(self.players@ =~= pvec.update(i as int, dpe));
                    }
                } else {
                    proof {
                        assert(self.players@ =~= pvec.update(i as int, dpe).remove(i as int));
                    }
                }
                let ghost qvec = self.players@;
                let front = self.players.remove(0);
                self.players.push(front);
                proof {
                    assert(self.players@ =~= qvec.subrange(1, qvec.len() as int).push(qvec[0]));
                    let np = PlayerV { id: s0.players[i as int].id, hands: sorted_version(upd) };
                    let mid = s0.players.update(i as int, np);
                    assert(players_view(pvec.update(i as int, dpe)) =~= mid);
                    if all_zero(upd) {
                        assert(players_view(qvec) =~= mid.remove(i as int));
                    } else {
                        assert(players_view(qvec) =~= mid);
                    }
                    assert(self@.players =~= rotate_left(players_view(qvec)));
                    assert(self@ =~= attack_next(s0, i, a, b));
                    lemma_attack_shape(s0, i, a, b, self@);
                }
                Ok(())
            }
        }
    }

    /// The mover redistributes its total finger count across its own hands.
    ///
    /// A replacement array of the wrong length is rejected first; after
    /// that `new_hands` is sorted before any comparison. Conservation
    /// holds on success: the total of `new_hands` equals the mover's
    /// previous total.
    pub fn split(&mut self, new_hands: Vec<u32>) -> (res: Result<(), SplitError>)
        requires
            old(self).wf(),
        ensures
            final(self).wf(),
            match res {
                Err(e) => split_err(old(self)@, new_hands@) == Some(e) && final(self)@ == old(
                    self,
                )@,
                Ok(()) => split_err(old(self)@, new_hands@) is None && final(self)@ == split_next(
                    old(self)@,
                    new_hands@,
                ),
            },
            res is Ok ==> fingers_total(new_hands@) == fingers_total(
                old(self)@.players[0].hands,
            ),
            res is Ok && old(self)@.players.len() >= 2 ==> final(self)@.players[0] == old(
                self,
            )@.players[1],
    {
        let ghost s0 = self@;
        if new_hands.len() != self.n_hands {
            return Err(SplitError::InvalidHandLen);
        }
        let total_new = total_fingers(&new_hands);
        let srt = sort_hands(&new_hands);
        if srt == self.players[0].hands {
            proof {
                assert(srt@ =~= s0.players[0].hands);
            }
            return Err(SplitError::MoveWithoutChange);
        }
        proof {
            if srt@ == s0.players[0].hands {
                assert(srt@ =~= self.players[0].hands@);
                assert(false);
            }
        }
        let total_cur = total_fingers(&self.players[0].hands);
        if total_new != total_cur {
            return Err(SplitError::InvalidTotalRollover);
        }
        if srt[0] == 0 || srt[new_hands.len() - 1] >= self.rollover {
            proof {
                let sv = sorted_version(new_hands@);
                if srt@[0] == 0 {
                    assert(0 <= 0 < sv.len() && !(1 <= sv[0] < s0.rollover));
                } else {
                    assert(!(1 <= sv[sv.len() - 1] < s0.rollover));
                }
            }
            return Err(SplitError::InvalidFingerValue);
        }
        proof {
            assert(forall|k: int| 0 <= k < srt@.len() ==> srt@[0] <= #[trigger] srt@[k]);
            assert(forall|k: int|
                0 <= k < srt@.len() ==> #[trigger] srt@[k] <= srt@[srt@.len() - 1]);
        }
        let ghost pvec = self.players@;
        let mut mover = self.players.remove(0);
        mover.hands = srt;
        let ghost me = mover;
        self.players.push(mover);
        proof {
            assert(self.players@ =~= pvec.remove(0).push(me));
            let np = PlayerV { id: s0.players[0].id, hands: sorted_version(new_hands@) };
            assert(me@ == np);
            assert(self@.players =~= rotate_left(s0.players.update(0, np)));
            assert(self@ =~= split_next(s0, new_hands@));
            assert forall|k: int| 0 <= k < self@.players.len() implies player_wf(
                #[trigger] self@.players[k],
                self@.n_hands,
                self@.rollover,
            ) by {
                if k < self@.players.len() - 1 {
                    assert(self@.players[k] == s0.players[k + 1]);
                } else {
                    assert(self@.players[k] == np);
                    assert(!all_zero(np.hands)) by {
                        assert(np.hands[0] >= 1);
                    }
                }
            }
            if s0.players.len() >= 2 {
                assert(self@.players[0] == s0.players[1]);
            }
        }
        Ok(())
    }

    /// Dispatches an action, first rejecting any move when the game is
    /// already over (one survivor or fewer).
    pub fn apply_action(&mut self, action: Action) -> (res: Result<(), ActionError>)
        requires
            old(self).wf(),
        ensures
            final(self).wf(),
            match res {
                Err(e) => action_err(old(self)@, action@) == Some(e) && final(self)@ == old(
                    self,
                )@,
                Ok(()) => action_err(old(self)@, action@) is None && final(self)@ == action_next(
                    old(self)@,
                    action@,
                ),
            },
            res is Ok <==> old(self)@.players.len() > 1 && action_ok(old(self)@, action@),
    {
        if self.players.len() <= 1 {
            return Err(ActionError::GameIsOver);
        }
        match action {
            Action::Attack { i, a, b } => match self.attack(i, a, b) {
                Ok(()) => Ok(()),
                Err(e) => Err(ActionError::AttackError(e)),
            },
            Action::Split { new_hands } => match self.split(new_hands) {
                Ok(()) => Ok(()),
                Err(e) => Err(ActionError::SplitError(e)),
            },
        }
    }

    /// The position fingerprint: every player's hand values in roster
    /// order, rendered as decimal digits.
    pub fn abbreviation(&self) -> (r: String)
        ensures
            r@ == abbreviation_chars(self@.players),
    {
        let mut s = String::new();
        let mut k: usize = 0;
        proof {
            assert(self@.players.subrange(0, 0) =~= Seq::<PlayerV>::empty());
        }
        while k < self.players.len()
            invariant
                0 <= k <= self@.players.len(),
                s@ == abbreviation_chars(self@.players.subrange(0, k as int)),
            decreases self@.players.len() - k,
        {
            let ghost before = s@;
            let mut j: usize = 0;
            proof {
                let h = self@.players[k as int].hands;
                assert(h.subrange(0, 0) =~= Seq::<u32>::empty());
                assert(before + hands_chars(h.subrange(0, 0)) =~= before);
            }
            while j < self.players[k].hands.len()
                invariant
                    0 <= k < self@.players.len(),
                    0 <= j <= self@.players[k as int].hands.len(),
                    s@ == before + hands_chars(self@.players[k as int].hands.subrange(
                        0,
                        j as int,
                    )),
                decreases self@.players[k as int].hands.len() - j,
            {
                let d = crate::digits::u32_decimal(self.players[k].hands[j]);
                s.append(d.as_str());
                proof {
                    let h = self@.players[k as int].hands;
                    assert(h.subrange(0, j + 1).drop_last() =~= h.subrange(0, j as int));
                    assert(h.subrange(0, j + 1).last() == h[j as int]);
                }
                j = j + 1;
            }
            proof {
                let h = self@.players[k as int].hands;
                assert(h.subrange(0, h.len() as int) =~= h);
                let ps = self@.players;
                assert(ps.subrange(0, k + 1).drop_last() =~= ps.subrange(0, k as int));
                assert(ps.subrange(0, k + 1).last() == ps[k as int]);
            }
            k = k + 1;
        }
        proof {
            assert(self@.players.subrange(0, self@.players.len() as int) =~= self@.players);
        }
        s
    }

    /// Whether the position is the known non-terminating configuration for
    /// two players with two hands, rollover five: hands {0,1} and {0,2}
    /// split across the two players, in either order.
    pub fn is_loop_state(&self) -> (r: bool)
        requires
            self.wf(),
        ensures
            r == loop_fingerprint(self@),
    {
        if self.players.len() != 2 || self.n_hands != 2 || self.rollover != 5 {
            return false;
        }
        proof {
            assert(player_wf(self@.players[0], self@.n_hands, self@.rollover));
            assert(player_wf(self@.players[1], self@.n_hands, self@.rollover));
            assert(self.players@[0].hands@.len() == 2);
            assert(self.players@[1].hands@.len() == 2);
        }
        let a0 = self.players[0].hands[0];
        let a1 = self.players[0].hands[1];
        let b0 = self.players[1].hands[0];
        let b1 = self.players[1].hands[1];
        let r = (a0 == 0 && a1 == 1 && b0 == 0 && b1 == 2) || (a0 == 0 && a1 == 2 && b0 == 0
            && b1 == 1);
        proof {
            let h0 = self@.players[0].hands;
            let h1 = self@.players[1].hands;
            if a0 == 0 && a1 == 1 && b0 == 0 && b1 == 2 {
                assert(h0 =~= seq![0u32, 1u32]);
                assert(h1 =~= seq![0u32, 2u32]);
            }
            if a0 == 0 && a1 == 2 && b0 == 0 && b1 == 1 {
                assert(h0 =~= seq![0u32, 2u32]);
                assert(h1 =~= seq![0u32, 1u32]);
            }
            if h0 == seq![0u32, 1u32] {
                assert(a0 == 0 && a1 == 1);
            }
            if h0 == seq![0u32, 2u32] {
                assert(a0 == 0 && a1 == 2);
            }
            if h1 == seq![0u32, 1u32] {
                assert(b0 == 0 && b1 == 1);
            }
            if h1 == seq![0u32, 2u32] {
                assert(b0 == 0 && b1 == 2);
            }
        }
        r
    }

    /// The id of the player whose turn it is.
    pub fn get_turn(&self) -> (r: usize)
        requires
            self.wf(),
        ensures
            r == self@.players[0].id,
    {
        self.players[0].id
    }

    /// All legal attack actions from the current state: for every opponent,
    /// the cartesian product of the mover's live hands with the opponent's.
    pub fn iter_attack_actions(&self) -> (r: Vec<Action>)
        requires
            self.wf(),
        ensures
            forall|t: int|
                0 <= t < r@.len() ==> action_ok(self@, #[trigger] r@[t]@) && r@[t]@ is Attack,
            forall|i: usize, a: usize, b: usize|
                #[trigger] attack_err(self@, i, a, b) is None ==> contains_attack(r@, i, a, b),
            forall|t1: int, t2: int|
                0 <= t1 < t2 < r@.len() ==> attack_lex_before(
                    #[trigger] r@[t1]@,
                    #[trigger] r@[t2]@,
                ),
            self@.players.len() >= 2 ==> r@.len() > 0,
    {
        let mut r: Vec<Action> = Vec::new();
        let a_idx = alive_indexes(&self.players[0].hands);
        proof {
            assert(!all_zero(self@.players[0].hands));
        }
        let mut i: usize = 1;
        while i < self.players.len()
            invariant
                self.wf(),
                1 <= i,
                forall|t: int|
                    0 <= t < r@.len() ==> action_ok(self@, #[trigger] r@[t]@) && r@[t]@ is Attack,
                forall|i2: usize, a2: usize, b2: usize|
                    i2 < i && #[trigger] attack_err(self@, i2, a2, b2) is None ==> contains_attack(
                        r@,
                        i2,
                        a2,
                        b2,
                    ),
                forall|j: int|
                    0 <= j < a_idx@.len() ==> a_idx@[j] < self@.players[0].hands.len()
                        && self@.players[0].hands[a_idx@[j] as int] != 0,
                forall|k: usize|
                    k < self@.players[0].hands.len() && self@.players[0].hands[k as int] != 0
                        ==> a_idx@.contains(k),
                forall|j1: int, j2: int| 0 <= j1 < j2 < a_idx@.len() ==> a_idx@[j1] < a_idx@[j2],
                a_idx@.len() > 0,
                i > 1 ==> r@.len() > 0,
                forall|t: int|
                    0 <= t < r@.len() ==> attack_lex_before(
                        #[trigger] r@[t]@,
                        ActionV::Attack { i, a: 0, b: 0 },
                    ),
                forall|t1: int, t2: int|
                    0 <= t1 < t2 < r@.len() ==> attack_lex_before(
                        #[trigger] r@[t1]@,
                        #[trigger] r@[t2]@,
                    ),
            decreases self@.players.len() - i,
        {
            let b_idx = alive_indexes(&self.players[i].hands);
            proof {
                assert(!all_zero(self@.players[i as int].hands));
            }
            let pairs = cartesian_pairs(&a_idx, &b_idx);
            proof {
                assert(pairs@.len() > 0) by (nonlinear_arith)
                    requires
                        pairs@.len() == a_idx@.len() * b_idx@.len(),
                        a_idx@.len() > 0,
                        b_idx@.len() > 0,
                ;
            }
            let ghost base = r@.len();
            let mut t: usize = 0;
            while t < pairs.len()
                invariant
                    self.wf(),
                    1 <= i < self@.players.len(),
                    0 <= t <= pairs@.len(),
                    pairs@.len() > 0,
                    pairs@.len() == a_idx@.len() * b_idx@.len(),
                    b_idx@.len() > 0,
                    r@.len() == base + t,
                    forall|j1: int, j2: int|
                        0 <= j1 < j2 < a_idx@.len() ==> a_idx@[j1] < a_idx@[j2],
                    forall|j1: int, j2: int|
                        0 <= j1 < j2 < b_idx@.len() ==> b_idx@[j1] < b_idx@[j2],
                    forall|u: int|
                        0 <= u < base ==> attack_lex_before(
                            #[trigger] r@[u]@,
                            ActionV::Attack { i, a: 0, b: 0 },
                        ),
                    forall|u: int|
                        0 <= u < t ==> r@[base + u]@ == (ActionV::Attack {
                            i,
                            a: (#[trigger] pairs@[u]).0,
                            b: pairs@[u].1,
                        }),
                    forall|t1: int, t2: int|
                        0 <= t1 < t2 < r@.len() ==> attack_lex_before(
                            #[trigger] r@[t1]@,
                            #[trigger] r@[t2]@,
                        ),
                    forall|x: int, y: int|
                        0 <= x < a_idx@.len() && 0 <= y < b_idx@.len() ==> pairs@[x * b_idx@.len()
                            + y] == ((a_idx@[x], b_idx@[y])),
                    forall|j: int|
                        0 <= j < a_idx@.len() ==> a_idx@[j] < self@.players[0].hands.len()
                            && self@.players[0].hands[a_idx@[j] as int] != 0,
                    forall|k: usize|
                        k < self@.players[0].hands.len() && self@.players[0].hands[k as int] != 0
                            ==> a_idx@.contains(k),
                    forall|j: int|
                        0 <= j < b_idx@.len() ==> b_idx@[j] < self@.players[i as int].hands.len()
                            && self@.players[i as int].hands[b_idx@[j] as int] != 0,
                    forall|k: usize|
                        k < self@.players[i as int].hands.len() && self@.players[i as int].hands[
                            k as int
                        ] != 0 ==> b_idx@.contains(k),
                    forall|u: int|
                        0 <= u < r@.len() ==> action_ok(self@, #[trigger] r@[u]@) && r@[u]@ is Attack,
                    forall|i2: usize, a2: usize, b2: usize|
                        i2 < i && #[trigger] attack_err(self@, i2, a2, b2) is None
                            ==> contains_attack(r@, i2, a2, b2),
                    forall|u: int|
                        0 <= u < t ==> contains_attack(
                            r@,
                            i,
                            (#[trigger] pairs@[u]).0,
                            pairs@[u].1,
                        ),
                    t > 0 ==> r@.len() > 0,
                decreases pairs@.len() - t,
            {
                let a = pairs[t].0;
                let b = pairs[t].1;
                proof {
                    let blen = b_idx@.len() as int;
                    let q = t as int / blen;
                    let w = t as int % blen;
                    vstd::arithmetic::div_mod::lemma_fundamental_div_mod(t as int, blen);
                    assert(0 <= w < blen) by (nonlinear_arith)
                        requires
                            blen > 0,
                            w == t as int % blen,
                    ;
                    assert(0 <= q < a_idx@.len()) by (nonlinear_arith)
                        requires
                            blen > 0,
                            q == t as int / blen,
                            0 <= (t as int) < a_idx@.len() * blen,
                    ;
                    assert(t as int == q * blen + w) by (nonlinear_arith)
                        requires
                            t as int == blen * q + w,
                    ;
                    assert(pairs@[q * blen + w] == ((a_idx@[q], b_idx@[w])));
                    assert(a == a_idx@[q] && b == b_idx@[w]);
                }
                let ghost prev = r@;
                r.push(Action::Attack { i, a, b });
                proof {
                    assert(r@[r@.len() - 1]@ == (ActionV::Attack { i, a, b }));
                    assert forall|t1: int, t2: int|
                        0 <= t1 < t2 < r@.len() implies attack_lex_before(
                        #[trigger] r@[t1]@,
                        #[trigger] r@[t2]@,
                    ) by {
                        if t2 == r@.len() - 1 {
                            if t1 < base {
                                assert(attack_lex_before(
                                    r@[t1]@,
                                    ActionV::Attack { i, a: 0, b: 0 },
                                ));
                            } else {
                                let u1 = t1 - base;
                                assert(r@[t1]@ == (ActionV::Attack {
                                    i,
                                    a: pairs@[u1].0,
                                    b: pairs@[u1].1,
                                }));
                                crate::hands::lemma_pairs_lex(
                                    a_idx@,
                                    b_idx@,
                                    pairs@,
                                    u1,
                                    t as int,
                                );
                            }
                        } else {
                            assert(r@[t1]@ == prev[t1]@ && r@[t2]@ == prev[t2]@);
                        }
                    }
                    assert forall|i2: usize, a2: usize, b2: usize|
                        i2 < i && #[trigger] attack_err(self@, i2, a2, b2)
                            is None implies contains_attack(r@, i2, a2, b2) by {
                        let t2 = choose|t2: int|
                            0 <= t2 < prev.len() && (#[trigger] prev[t2])@ == (ActionV::Attack {
                                i: i2,
                                a: a2,
                                b: b2,
                            });
                        assert(r@[t2]@ == (ActionV::Attack { i: i2, a: a2, b: b2 }));
                    }
                    assert forall|u: int| 0 <= u < t + 1 implies contains_attack(
                        r@,
                        i,
                        (#[trigger] pairs@[u]).0,
                        pairs@[u].1,
                    ) by {
                        if u < t {
                            let t2 = choose|t2: int|
                                0 <= t2 < prev.len() && (#[trigger] prev[t2])@ == (
                                ActionV::Attack { i, a: pairs@[u].0, b: pairs@[u].1 });
                            assert(r@[t2]@ == (ActionV::Attack {
                                i,
                                a: pairs@[u].0,
                                b: pairs@[u].1,
                            }));
                        } else {
                            assert(pairs@[u] == ((a, b)));
                            assert(r@[r@.len() - 1]@ == (ActionV::Attack {
                                i,
                                a: pairs@[u].0,
                                b: pairs@[u].1,
                            }));
                        }
                    }
                }
                t = t + 1;
            }
            proof {
                assert forall|a2: usize, b2: usize|
                    #[trigger] attack_err(self@, i, a2, b2) is None implies contains_attack(
                    r@,
                    i,
                    a2,
                    b2,
                ) by {
                    let blen = b_idx@.len() as int;
                    assert(a_idx@.contains(a2));
                    assert(b_idx@.contains(b2));
                    let x = choose|x: int| 0 <= x < a_idx@.len() && a_idx@[x] == a2;
                    let y = choose|y: int| 0 <= y < b_idx@.len() && b_idx@[y] == b2;
                    assert(0 <= x * blen + y < pairs@.len()) by (nonlinear_arith)
                        requires
                            0 <= x < a_idx@.len(),
                            0 <= y < blen,
                            blen == b_idx@.len(),
                            pairs@.len() == a_idx@.len() * blen,
                    ;
                    assert(pairs@[x * blen + y] == ((a_idx@[x], b_idx@[y])));
                    assert(contains_attack(
                        r@,
                        i,
                        pairs@[x * blen + y].0,
                        pairs@[x * blen + y].1,
                    ));
                }
                assert forall|t: int| 0 <= t < r@.len() implies attack_lex_before(
                    #[trigger] r@[t]@,
                    ActionV::Attack { i: (i + 1) as usize, a: 0, b: 0 },
                ) by {
                    if t < base {
                        assert(attack_lex_before(r@[t]@, ActionV::Attack { i, a: 0, b: 0 }));
                    } else {
                        assert(r@[t]@ == (ActionV::Attack {
                            i,
                            a: pairs@[t - base].0,
                            b: pairs@[t - base].1,
                        }));
                    }
                }
            }
            i = i + 1;
        }
        r
    }

    /// All legal split actions from the current state. The enumeration
    /// formula covers exactly two hands per player.
    pub fn iter_split_actions(&self) -> (r: Vec<Action>)
        requires
            self.wf(),
            self@.n_hands == 2,
        ensures
            forall|t: int|
                0 <= t < r@.len() ==> action_ok(self@, #[trigger] r@[t]@) && r@[t]@ is Split
                    && in_enumeration(self@, r@[t]@),
            forall|av: int|
                #[trigger] split_candidate(self@, av) ==> contains_split(
                    r@,
                    seq![
                        (av as u32),
                        ((fingers_total(self@.players[0].hands) - av) as u32),
                    ],
                ),
            forall|t1: int, t2: int|
                0 <= t1 < t2 < r@.len() ==> split_left(#[trigger] r@[t1]@) < split_left(
                    #[trigger] r@[t2]@,
                ),
    {
        let mut r: Vec<Action> = Vec::new();
        let total128 = total_fingers(&self.players[0].hands);
        proof {
            lemma_two_hand_total(self@.players[0].hands, self@.rollover);
        }
        let total = total128 as u64;
        let rollover64 = self.rollover as u64;
        let start0 = total % rollover64 + 1;
        let start = if start0 > 1 {
            start0
        } else {
            1
        };
        let stop = total / 2;
        let mut a = start;
        proof {
            if total >= rollover64 {
                assert(total % rollover64 == total - rollover64) by (nonlinear_arith)
                    requires
                        rollover64 > 0,
                        rollover64 <= total < 2 * rollover64,
                ;
            } else {
                assert(total % rollover64 == total) by (nonlinear_arith)
                    requires
                        0 <= total < rollover64,
                ;
            }
        }
        while a <= stop
            invariant
                self.wf(),
                self@.n_hands == 2,
                total == fingers_total(self@.players[0].hands),
                total <= 2 * (self@.rollover - 1),
                rollover64 == self@.rollover,
                stop == total / 2,
                a >= 1,
                start as int == split_lo(self@),
                a >= start,
                total >= rollover64 ==> a >= total - rollover64 + 1,
                total < rollover64 ==> a > stop,
                forall|av: int| #[trigger] split_candidate(self@, av) ==> av >= a || contains_split(
                    r@,
                    seq![(av as u32), ((total - av) as u32)],
                ),
                forall|t: int|
                    0 <= t < r@.len() ==> action_ok(self@, #[trigger] r@[t]@) && r@[t]@ is Split
                        && in_enumeration(self@, r@[t]@),
                forall|t: int| 0 <= t < r@.len() ==> split_left(#[trigger] r@[t]@) < a,
                forall|t1: int, t2: int|
                    0 <= t1 < t2 < r@.len() ==> split_left(#[trigger] r@[t1]@) < split_left(
                        #[trigger] r@[t2]@,
                    ),
            decreases stop - a + 1,
        {
            let lo = a as u32;
            let hi = (total - a) as u32;
            let mut cand: Vec<u32> = Vec::new();
            cand.push(lo);
            cand.push(hi);
            proof {
                assert(hands_sorted(cand@));
                crate::hands::lemma_sorted_version_unique(cand@, cand@);
                lemma_fingers_total_push(seq![lo], hi);
                lemma_fingers_total_push(Seq::<u32>::empty(), lo);
                assert(seq![lo].push(hi) =~= cand@);
                assert(seq![lo] =~= Seq::<u32>::empty().push(lo));
                assert(fingers_total(cand@) == total);
            }
            let same = cand == self.players[0].hands;
            proof {
                if same {
                    assert(cand@ =~= self@.players[0].hands);
                } else {
                    if cand@ == self@.players[0].hands {
                        assert(false);
                    }
                }
            }
            let ghost prev = r@;
            let ghost candv = cand@;
            if !same {
                r.push(Action::Split { new_hands: cand });
            }
            proof {
                assert(candv =~= seq![(a as u32), ((total - a) as u32)]);
                if !same {
                    assert(split_candidate(self@, a as int));
                    assert(in_enumeration(self@, ActionV::Split { new_hands: candv }));
                }
                assert forall|av: int| #[trigger] split_candidate(self@, av) implies av >= a + 1
                    || contains_split(r@, seq![(av as u32), ((total - av) as u32)]) by {
                    if av < a {
                        if !(av >= a as int) {
                            let t2 = choose|t2: int|
                                0 <= t2 < prev.len() && (#[trigger] prev[t2])@ == (ActionV::Split {
                                    new_hands: seq![(av as u32), ((total - av) as u32)],
                                });
                            assert(r@[t2]@ == (ActionV::Split {
                                new_hands: seq![(av as u32), ((total - av) as u32)],
                            }));
                        }
                    } else if av == a {
                        assert(!same);
                        assert(r@[r@.len() - 1]@ == (ActionV::Split { new_hands: candv }));
                    }
                }
            }
            a = a + 1;
        }
        proof {
            assert forall|av: int| #[trigger] split_candidate(self@, av) implies contains_split(
                r@,
                seq![(av as u32), ((total - av) as u32)],
            ) by {
                assert(av < a);
            }
        }
        r
    }

    /// All legal actions: attacks first, then splits. This fixed order is
    /// the tie-break that the decision strategies rely on.
    pub fn iter_actions(&self) -> (r: Vec<Action>)
        requires
            self.wf(),
            self@.n_hands == 2,
        ensures
            forall|t: int|
                0 <= t < r@.len() ==> action_ok(self@, #[trigger] r@[t]@) && in_enumeration(
                    self@,
                    r@[t]@,
                ),
            forall|t1: int, t2: int|
                0 <= t1 <= t2 < r@.len() && (#[trigger] r@[t2]@) is Attack ==> (
                #[trigger] r@[t1]@) is Attack,
            forall|t1: int, t2: int|
                0 <= t1 < t2 < r@.len() && (#[trigger] r@[t2]@) is Attack ==> attack_lex_before(
                    #[trigger] r@[t1]@,
                    r@[t2]@,
                ),
            forall|t1: int, t2: int|
                0 <= t1 < t2 < r@.len() && (#[trigger] r@[t1]@) is Split ==> split_left(r@[t1]@)
                    < split_left(#[trigger] r@[t2]@),
            forall|i: usize, a: usize, b: usize|
                #[trigger] attack_err(self@, i, a, b) is None ==> contains_attack(r@, i, a, b),
            forall|av: int|
                #[trigger] split_candidate(self@, av) ==> contains_split(
                    r@,
                    seq![
                        (av as u32),
                        ((fingers_total(self@.players[0].hands) - av) as u32),
                    ],
                ),
            self@.players.len() >= 2 ==> r@.len() > 0,
    {
        let mut r = self.iter_attack_actions();
        let mut splits = self.iter_split_actions();
        let ghost ra = r@;
        let ghost sv = splits@;
        r.append(&mut splits);
        proof {
            assert(forall|t: int| 0 <= t < r@.len() ==> action_ok(self@, #[trigger] r@[t]@));
            assert forall|t: int| 0 <= t < r@.len() implies in_enumeration(
                self@,
                #[trigger] r@[t]@,
            ) by {
                if t < ra.len() {
                    assert(r@[t] == ra[t]);
                } else {
                    assert(r@[t] == sv[t - ra.len()]);
                }
            }
            assert forall|t1: int, t2: int|
                0 <= t1 <= t2 < r@.len() && (#[trigger] r@[t2]@) is Attack implies (
            #[trigger] r@[t1]@) is Attack by {
                if t2 >= ra.len() {
                    assert(r@[t2] == sv[t2 - ra.len()]);
                    assert(r@[t2]@ is Split);
                } else {
                    assert(r@[t1] == ra[t1]);
                }
            }
            assert forall|t1: int, t2: int|
                0 <= t1 < t2 < r@.len() && (#[trigger] r@[t2]@) is Attack implies attack_lex_before(
                #[trigger] r@[t1]@,
                r@[t2]@,
            ) by {
                if t2 >= ra.len() {
                    assert(r@[t2] == sv[t2 - ra.len()]);
                    assert(r@[t2]@ is Split);
                } else {
                    assert(r@[t1] == ra[t1] && r@[t2] == ra[t2]);
                }
            }
            assert forall|t1: int, t2: int|
                0 <= t1 < t2 < r@.len() && (#[trigger] r@[t1]@) is Split implies split_left(
                r@[t1]@,
            ) < split_left(#[trigger] r@[t2]@) by {
                if t1 < ra.len() {
                    assert(r@[t1] == ra[t1]);
                    assert(r@[t1]@ is Attack);
                } else {
                    assert(r@[t1] == sv[t1 - ra.len()] && r@[t2] == sv[t2 - ra.len()]);
                }
            }
            assert forall|i: usize, a: usize, b: usize|
                #[trigger] attack_err(self@, i, a, b) is None implies contains_attack(
                r@,
                i,
                a,
                b,
            ) by {
                let t2 = choose|t2: int|
                    0 <= t2 < ra.len() && (#[trigger] ra[t2])@ == (ActionV::Attack { i, a, b });
                assert(r@[t2]@ == (ActionV::Attack { i, a, b }));
            }
            let total = fingers_total(self@.players[0].hands);
            assert forall|av: int| #[trigger] split_candidate(self@, av) implies contains_split(
                r@,
                seq![(av as u32), ((total - av) as u32)],
            ) by {
                let t2 = choose|t2: int|
                    0 <= t2 < sv.len() && (#[trigger] sv[t2])@ == (ActionV::Split {
                        new_hands: seq![(av as u32), ((total - av) as u32)],
                    });
                assert(r@[ra.len() + t2]@ == (ActionV::Split {
                    new_hands: seq![(av as u32), ((total - av) as u32)],
                }));
            }
        }
        r
    }

    /// The id of the sole surviving player, if the game is over.
    pub fn winner_id(&self) -> (r: Option<usize>)
        requires
            self.wf(),
        ensures
            r == (if self@.players.len() == 1 {
                Some(self@.players[0].id)
            } else {
                None::<usize>
            }),
    {
        if self.players.len() == 1 {
            Some(self.players[0].id)
        } else {
            None
        }
    }
}

/// The decimal digits of a hand array, in order.
pub open spec fn hands_chars(h: Seq<u32>) -> Seq<char>
    decreases h.len(),
{
    if h.len() == 0 {
        Seq::<char>::empty()
    } else {
        hands_chars(h.drop_last()) + crate::digits::dec_chars(h.last() as int)
    }
}

/// The position fingerprint of a roster: every player's hand values in
/// roster order, as decimal digits.
pub open spec fn abbreviation_chars(ps: Seq<PlayerV>) -> Seq<char>
    decreases ps.len(),
{
    if ps.len() == 0 {
        Seq::<char>::empty()
    } else {
        abbreviation_chars(ps.drop_last()) + hands_chars(ps.last().hands)
    }
}

/// The known non-terminating configuration for two players with two hands
/// and rollover five: hands {0,1} and {0,2} split across the two players.
pub open spec fn loop_fingerprint(s: StateV) -> bool {
    &&& s.players.len() == 2
    &&& s.n_hands == 2
    &&& s.rollover == 5
    &&& ((s.players[0].hands == seq![0u32, 1u32] && s.players[1].hands == seq![0u32, 2u32]) || (
    s.players[0].hands == seq![0u32, 2u32] && s.players[1].hands == seq![0u32, 1u32]))
}

/// The position after a recorded sequence of actions is applied in order.
pub open spec fn replay(s: StateV, acts: Seq<ActionV>) -> StateV
    decreases acts.len(),
{
    if acts.len() == 0 {
        s
    } else {
        action_next(replay(s, acts.drop_last()), acts.last())
    }
}

/// The strict enumeration order of attacks: defender offset first, then
/// the attacking hand, then the attacked hand.
pub open spec fn attack_lex_before(x: ActionV, y: ActionV) -> bool {
    match x {
        ActionV::Attack { i: i1, a: a1, b: b1 } => match y {
            ActionV::Attack { i: i2, a: a2, b: b2 } => i1 < i2 || (i1 == i2 && a1 < a2) || (i1
                == i2 && a1 == a2 && b1 < b2),
            ActionV::Split { .. } => false,
        },
        ActionV::Split { .. } => false,
    }
}

/// The left value of a split's replacement pair, used to state the
/// enumeration order; attacks sit below every real value.
pub open spec fn split_left(act: ActionV) -> int {
    match act {
        ActionV::Split { new_hands } => new_hands[0] as int,
        ActionV::Attack { .. } => -1,
    }
}

/// The enumeration holds the attack with these coordinates.
pub open spec fn contains_attack(rs: Seq<Action>, i: usize, a: usize, b: usize) -> bool {
    exists|t: int| 0 <= t < rs.len() && (#[trigger] rs[t])@ == (ActionV::Attack { i, a, b })
}

/// The lower bound of the split enumeration's candidate range: one past
/// the total's remainder modulo the rollover, and at least one.
pub open spec fn split_lo(s: StateV) -> int {
    let total = fingers_total(s.players[0].hands);
    let wrapped = total % (s.rollover as int);
    if wrapped + 1 > 1 {
        wrapped + 1
    } else {
        1
    }
}

/// The left values the split enumeration must cover: within the pruned
/// candidate range and not recreating the mover's current hands.
pub open spec fn split_candidate(s: StateV, av: int) -> bool {
    let total = fingers_total(s.players[0].hands);
    &&& split_lo(s) <= av <= total / 2
    &&& seq![av as u32, (total - av) as u32] != s.players[0].hands
}

/// Whether an action is one the enumeration yields: a legal attack, or a
/// split drawn from the pruned candidate range.
pub open spec fn in_enumeration(s: StateV, act: ActionV) -> bool {
    match act {
        ActionV::Attack { i, a, b } => attack_err(s, i, a, b) is None,
        ActionV::Split { new_hands } => exists|av: int|
            #[trigger] split_candidate(s, av) && new_hands == seq![
                (av as u32),
                ((fingers_total(s.players[0].hands) - av) as u32),
            ],
    }
}

/// The enumeration holds the split with this replacement hand array.
pub open spec fn contains_split(rs: Seq<Action>, h: Seq<u32>) -> bool {
    exists|t: int| 0 <= t < rs.len() && (#[trigger] rs[t])@ == (ActionV::Split { new_hands: h })
}

/// Whether an action passes every rule check against the given state (the
/// game-over check aside).
pub open spec fn action_ok(s: StateV, act: ActionV) -> bool {
    match act {
        ActionV::Attack { i, a, b } => attack_err(s, i, a, b) is None,
        ActionV::Split { new_hands } => split_err(s, new_hands) is None,
    }
}

/// The first failing check of an action, if any: the game being over is
/// detected first, then the checks of the dispatched move.
pub open spec fn action_err(s: StateV, act: ActionV) -> Option<ActionError> {
    if s.players.len() <= 1 {
        Some(ActionError::GameIsOver)
    } else {
        match act {
            ActionV::Attack { i, a, b } => match attack_err(s, i, a, b) {
                Some(e) => Some(ActionError::AttackError(e)),
                None => None,
            },
            ActionV::Split { new_hands } => match split_err(s, new_hands) {
                Some(e) => Some(ActionError::SplitError(e)),
                None => None,
            },
        }
    }
}

/// The state after a successful action.
pub open spec fn action_next(s: StateV, act: ActionV) -> StateV {
    match act {
        ActionV::Attack { i, a, b } => attack_next(s, i, a, b),
        ActionV::Split { new_hands } => split_next(s, new_hands),
    }
}

/// One more than the largest player id in a roster.
pub open spec fn id_bound(ps: Seq<PlayerV>) -> int
    decreases ps.len(),
{
    if ps.len() == 0 {
        0
    } else if id_bound(ps.drop_last()) >= ps.last().id + 1 {
        id_bound(ps.drop_last())
    } else {
        ps.last().id + 1
    }
}

/// Every player id leaves room for a bound above it in the machine word.
pub open spec fn ids_in_range(ps: Seq<PlayerV>) -> bool {
    forall|k: int| 0 <= k < ps.len() ==> (#[trigger] ps[k]).id < usize::MAX
}

/// Every id in a roster lies below the roster's id bound.
pub proof fn lemma_id_bound(ps: Seq<PlayerV>)
    ensures
        forall|k: int| 0 <= k < ps.len() ==> (#[trigger] ps[k]).id < id_bound(ps),
        id_bound(ps) >= 0,
    decreases ps.len(),
{
    if ps.len() > 0 {
        lemma_id_bound(ps.drop_last());
        assert(forall|k: int| 0 <= k < ps.len() - 1 ==> ps[k] == ps.drop_last()[k]);
    }
}

/// A successful action never invents a player: every id in the new roster
/// stays below any bound that held of the old one.
pub proof fn lemma_action_preserves_ids(s: StateV, act: ActionV, bound: int)
    requires
        state_wf(s),
        action_ok(s, act),
        forall|k: int| 0 <= k < s.players.len() ==> (#[trigger] s.players[k]).id < bound,
    ensures
        forall|k: int|
            0 <= k < action_next(s, act).players.len() ==> (#[trigger] action_next(
                s,
                act,
            ).players[k]).id < bound,
{
    match act {
        ActionV::Attack { i, a, b } => {
            let upd = updated_defender(s, i, a, b);
            let np = PlayerV { id: s.players[i as int].id, hands: sorted_version(upd) };
            let mid = s.players.update(i as int, np);
            let after = if all_zero(upd) {
                mid.remove(i as int)
            } else {
                mid
            };
            let nxt = action_next(s, act);
            assert(nxt.players == rotate_left(after));
            assert forall|k: int| 0 <= k < nxt.players.len() implies (#[trigger] nxt.players[k]).id
                < bound by {
                let q = if k < nxt.players.len() - 1 {
                    k + 1
                } else {
                    0int
                };
                assert(nxt.players[k] == after[q]);
                if all_zero(upd) {
                    assert(after[q] == if q < i {
                        mid[q]
                    } else {
                        mid[q + 1]
                    });
                }
            }
        },
        ActionV::Split { new_hands } => {
            let np = PlayerV { id: s.players[0].id, hands: sorted_version(new_hands) };
            let mid = s.players.update(0, np);
            let nxt = action_next(s, act);
            assert(nxt.players == rotate_left(mid));
            assert forall|k: int| 0 <= k < nxt.players.len() implies (#[trigger] nxt.players[k]).id
                < bound by {
                let q = if k < nxt.players.len() - 1 {
                    k + 1
                } else {
                    0int
                };
                assert(nxt.players[k] == mid[q]);
            }
        },
    }
}

/// Rotation: after a successful attack the new mover is the next player
/// of the previous rotation order that survived the move — the old second
/// player, unless it was the defender and was eliminated, in which case
/// the old third player moves (wrapping to the old mover in a two-player
/// game). After a successful split the same holds with nobody eliminated,
/// which `split` states directly in its contract.
pub proof fn lemma_attack_rotation(s: StateV, i: usize, a: usize, b: usize)
    requires
        state_wf(s),
        attack_err(s, i, a, b) is None,
    ensures
        attack_next(s, i, a, b).players.len() >= 1,
        ({
            let nxt = attack_next(s, i, a, b);
            let upd = updated_defender(s, i, a, b);
            if all_zero(upd) && i == 1 {
                nxt.players[0].id == (if s.players.len() >= 3 {
                    s.players[2].id
                } else {
                    s.players[0].id
                })
            } else {
                nxt.players[0].id == s.players[1].id
            }
        }),
{
    let upd = updated_defender(s, i, a, b);
    let np = PlayerV { id: s.players[i as int].id, hands: sorted_version(upd) };
    let mid = s.players.update(i as int, np);
    if all_zero(upd) {
        let after = mid.remove(i as int);
        assert(attack_next(s, i, a, b).players == rotate_left(after));
        if after.len() >= 2 {
            assert(rotate_left(after)[0] == after[1]);
            if i == 1 {
                assert(after[1] == mid[2]);
            } else {
                assert(after[1] == mid[1]);
            }
        } else {
            assert(rotate_left(after)[0] == after[0]);
            assert(after[0] == mid[0]);
        }
    } else {
        assert(attack_next(s, i, a, b).players == rotate_left(mid));
        assert(rotate_left(mid)[0] == mid[1]);
    }
}

/// A successful move never eliminates the mover: it ends up at the back
/// of the roster with its id intact.
pub proof fn lemma_action_keeps_mover(s: StateV, act: ActionV)
    requires
        state_wf(s),
        action_ok(s, act),
    ensures
        action_next(s, act).players.len() >= 1,
        action_next(s, act).players.last().id == s.players[0].id,
{
    match act {
        ActionV::Attack { i, a, b } => {
            lemma_attack_shape(s, i, a, b, attack_next(s, i, a, b));
        },
        ActionV::Split { new_hands } => {
            let np = PlayerV { id: s.players[0].id, hands: sorted_version(new_hands) };
            let mid = s.players.update(0, np);
            assert(action_next(s, act).players == rotate_left(mid));
            assert(rotate_left(mid).last() == mid[0]);
        },
    }
}

/// For a sorted hand array, the last entry is zero exactly when every entry
/// is; and re-sorting keeps the value bound and liveness.
proof fn lemma_sorted_multiset_facts(upd: Seq<u32>, srt: Seq<u32>, rollover: u32)
    requires
        srt == sorted_version(upd),
        upd.len() >= 1,
    ensures
        (srt[srt.len() - 1] == 0 <==> all_zero(srt)),
        (all_zero(srt) <==> all_zero(upd)),
        hands_below(upd, rollover) ==> hands_below(srt, rollover),
{
    broadcast use vstd::seq_lib::group_to_multiset_ensures;

    lemma_sorted_version_ensures(upd);
    upd.to_multiset_ensures();
    srt.to_multiset_ensures();
    assert forall|k: int| 0 <= k < srt.len() implies upd.contains(srt[k]) by {
        assert(srt.to_multiset().count(srt[k]) > 0);
    }
    assert forall|k: int| 0 <= k < upd.len() implies srt.contains(upd[k]) by {
        assert(upd.to_multiset().count(upd[k]) > 0);
    }
    if srt[srt.len() - 1] == 0 {
        assert forall|k: int| 0 <= k < srt.len() implies srt[k] == 0 by {
            assert(srt[k] <= srt[srt.len() - 1]);
        }
    }
    if all_zero(srt) {
        assert forall|k: int| 0 <= k < upd.len() implies upd[k] == 0 by {
            let j = choose|j: int| 0 <= j < srt.len() && srt[j] == upd[k];
        }
    }
    if all_zero(upd) {
        assert forall|k: int| 0 <= k < srt.len() implies srt[k] == 0 by {
            let j = choose|j: int| 0 <= j < upd.len() && upd[j] == srt[k];
        }
    }
    if hands_below(upd, rollover) {
        assert forall|k: int| 0 <= k < srt.len() implies srt[k] < rollover by {
            let j = choose|j: int| 0 <= j < upd.len() && upd[j] == srt[k];
        }
    }
}

/// Connects the executable roster surgery in `attack` to `attack_next`, and
/// shows the new state is well formed.
proof fn lemma_attack_shape(s0: StateV, i: usize, a: usize, b: usize, s1: StateV)
    requires
        state_wf(s0),
        attack_err(s0, i, a, b) is None,
        s1 == attack_next(s0, i, a, b),
    ensures
        state_wf(s1),
        s1.players.last() == s0.players[0],
        s1.players.len() == (if all_zero(updated_defender(s0, i, a, b)) {
            s0.players.len() - 1
        } else {
            s0.players.len() as int
        }),
        !all_zero(updated_defender(s0, i, a, b)) ==> s1.players[i - 1].hands.to_multiset()
            == updated_defender(s0, i, a, b).to_multiset() && s1.players[i - 1].id
            == s0.players[i as int].id,
{
    let upd = updated_defender(s0, i, a, b);
    let np = PlayerV { id: s0.players[i as int].id, hands: sorted_version(upd) };
    let mid = s0.players.update(i as int, np);
    lemma_sorted_version_ensures(upd);
    lemma_sorted_multiset_facts(upd, sorted_version(upd), s0.rollover);
    assert(hands_below(upd, s0.rollover)) by {
        assert(forall|k: int|
            0 <= k < upd.len() ==> upd[k] == s0.players[i as int].hands[k] || upd[k]
                == upd[b as int]);
    }
    if all_zero(upd) {
        let after = mid.remove(i as int);
        assert(s1.players == rotate_left(after));
        assert forall|k: int| 0 <= k < s1.players.len() implies player_wf(
            #[trigger] s1.players[k],
            s1.n_hands,
            s1.rollover,
        ) by {
            if k < s1.players.len() - 1 {
                assert(s1.players[k] == after[k + 1]);
            } else {
                assert(s1.players[k] == after[0]);
            }
        }
        assert(s1.players.last() == after[0]);
        assert(after[0] == s0.players[0]);
    } else {
        assert(s1.players == rotate_left(mid));
        assert forall|k: int| 0 <= k < s1.players.len() implies player_wf(
            #[trigger] s1.players[k],
            s1.n_hands,
            s1.rollover,
        ) by {
            if k < s1.players.len() - 1 {
                assert(s1.players[k] == mid[k + 1]);
            } else {
                assert(s1.players[k] == mid[0]);
            }
        }
        assert(s1.players[i - 1] == mid[i as int]);
    }
}

} // verus!
