//! An alternative rule engine over a fixed roster: players keep their seat
//! for the whole game and eliminated players stay with dead hands, while an
//! explicit index tracks the mover. Every move can be undone exactly,
//! which suits search without cloning.

use crate::hands::{
    all_zero, fingers_total, hands_all_zero, hands_below, sort_hands, sorted_version,
    total_fingers,
};
use crate::status::Status;
use vstd::prelude::*;

verus! {

/// Number of hands per player.
pub const N_HANDS: usize = 2;

/// The position of an individual player: hands in seat order, not sorted.
#[derive(Debug)]
pub struct Player {
    pub hands: Vec<u32>,
}

/// The abstract value of a `Player`.
#[verifier::ext_equal]
pub struct PlayerV {
    pub hands: Seq<u32>,
}

impl View for Player {
    type V = PlayerV;

    open spec fn view(&self) -> PlayerV {
        PlayerV { hands: self.hands@ }
    }
}

/// Game state: a fixed roster, the mover's index, and the configuration.
#[derive(Debug)]
pub struct State {
    /// The index of the player whose turn it is.
    pub i: usize,
    /// All players, in seat order; eliminated players keep their seat.
    pub players: Vec<Player>,
    pub rollover: u32,
    pub initial_fingers: u32,
}

/// The abstract value of a `State`.
#[verifier::ext_equal]
pub struct StateV {
    pub i: usize,
    pub players: Seq<PlayerV>,
    pub rollover: u32,
    pub initial_fingers: u32,
}

/// The abstract roster corresponding to a vector of players.
pub open spec fn players_view(ps: Seq<Player>) -> Seq<PlayerV> {
    ps.map_values(|p: Player| p@)
}

impl View for State {
    type V = StateV;

    open spec fn view(&self) -> StateV {
        StateV {
            i: self.i,
            players: players_view(self.players@),
            rollover: self.rollover,
            initial_fingers: self.initial_fingers,
        }
    }
}

#[derive(Clone, Copy, Debug, PartialEq, Eq, Structural)]
pub enum AttackError {
    PlayerIndexOutOfBounds,
    HandIndexOutOfBounds,
    HandIsNotAlive,
    PlayerAttackSelf,
}

#[derive(Clone, Copy, Debug, PartialEq, Eq, Structural)]
pub enum SplitError {
    ImproperContext,
    MoveWithoutChange,
    InvalidHandLen,
    InvalidTotalFingers,
    InvalidFingerValue,
}

#[derive(Clone, Copy, Debug, PartialEq, Eq, Structural)]
pub enum ActionError {
    GameIsOver,
    WrongTurn,
    AttackError(AttackError),
    SplitError(SplitError),
}

/// A move: player `i` attacks, or redistributes its own hands.
#[derive(Debug)]
pub enum Action {
    /// Player `i` uses hand `a` to attack player `j` at hand `b`.
    Attack { i: usize, j: usize, a: usize, b: usize },
    /// Player `i` replaces hands `hands_0` with `hands_1`.
    Split { i: usize, hands_0: Vec<u32>, hands_1: Vec<u32> },
}

/// The abstract value of an `Action`.
#[verifier::ext_equal]
pub enum ActionV {
    Attack { i: usize, j: usize, a: usize, b: usize },
    Split { i: usize, hands_0: Seq<u32>, hands_1: Seq<u32> },
}

impl View for Action {
    type V = ActionV;

    open spec fn view(&self) -> ActionV {
        match self {
            Action::Attack { i, j, a, b } => ActionV::Attack { i: *i, j: *j, a: *a, b: *b },
            Action::Split { i, hands_0, hands_1 } => ActionV::Split {
                i: *i,
                hands_0: hands_0@,
                hands_1: hands_1@,
            },
        }
    }
}

impl Clone for Action {
    fn clone(&self) -> (r: Action)
        ensures
            r@ == self@,
    {
        match self {
            Action::Attack { i, j, a, b } => Action::Attack { i: *i, j: *j, a: *a, b: *b },
            Action::Split { i, hands_0, hands_1 } => {
                let h0 = hands_0.clone();
                let h1 = hands_1.clone();
                assert(h0@ =~= hands_0@);
                assert(h1@ =~= hands_1@);
                Action::Split { i: *i, hands_0: h0, hands_1: h1 }
            },
        }
    }
}

impl Action {
    /// The index of the player making the move.
    pub fn get_i(&self) -> (r: usize)
        ensures
            r == action_mover(self@),
    {
        match self {
            Action::Split { i, .. } => *i,
            Action::Attack { i, .. } => *i,
        }
    }
}

/// The index of the player a move belongs to.
pub open spec fn action_mover(act: ActionV) -> usize {
    match act {
        ActionV::Attack { i, .. } => i,
        ActionV::Split { i, .. } => i,
    }
}

/// Hand vectors carried by an action have the fixed hand count.
pub open spec fn action_lens_ok(act: ActionV) -> bool {
    match act {
        ActionV::Attack { .. } => true,
        ActionV::Split { i, hands_0, hands_1 } => hands_0.len() == N_HANDS && hands_1.len()
            == N_HANDS,
    }
}

/// The number of players that still have a live hand.
pub open spec fn alive_count(ps: Seq<PlayerV>) -> int
    decreases ps.len(),
{
    if ps.len() == 0 {
        0
    } else {
        alive_count(ps.drop_last()) + if all_zero(ps.last().hands) {
            0int
        } else {
            1int
        }
    }
}

/// A well-formed state: sane configuration, every player with the fixed
/// hand count and values below the rollover, the mover in range, and at
/// least one survivor.
pub open spec fn state_wf(s: StateV) -> bool {
    &&& s.rollover >= 2
    &&& 0 < s.initial_fingers < s.rollover
    &&& s.players.len() >= 1
    &&& s.i < s.players.len()
    &&& forall|k: int|
        0 <= k < s.players.len() ==> (#[trigger] s.players[k]).hands.len() == N_HANDS
            && hands_below(s.players[k].hands, s.rollover)
    &&& alive_count(s.players) >= 1
}

/// The seat after `j`, wrapping.
pub open spec fn wrap_next(j: int, len: int) -> int {
    if j + 1 == len {
        0
    } else {
        j + 1
    }
}

/// The seat before `j`, wrapping.
pub open spec fn wrap_prev(j: int, len: int) -> int {
    if j == 0 {
        len - 1
    } else {
        j - 1
    }
}

/// Scans forward from seat `j` for at most `fuel` steps, stopping at the
/// first surviving player.
pub open spec fn scan_alive(ps: Seq<PlayerV>, j: int, fuel: nat, back: bool) -> int
    decreases fuel,
{
    if fuel == 0 {
        j
    } else if !all_zero(ps[j].hands) {
        j
    } else if back {
        scan_alive(ps, wrap_prev(j, ps.len() as int), (fuel - 1) as nat, back)
    } else {
        scan_alive(ps, wrap_next(j, ps.len() as int), (fuel - 1) as nat, back)
    }
}

/// The next surviving seat after `i` in rotation order, wrapping.
pub open spec fn next_mover(ps: Seq<PlayerV>, i: int) -> int {
    scan_alive(ps, wrap_next(i, ps.len() as int), ps.len() as nat, false)
}

/// The previous surviving seat before `i` in rotation order, wrapping.
pub open spec fn prev_mover(ps: Seq<PlayerV>, i: int) -> int {
    scan_alive(ps, wrap_prev(i, ps.len() as int), ps.len() as nat, true)
}

/// The mover after a move: rotation happens only while the game is still
/// going (at least two survivors).
pub open spec fn post_move_i(ps: Seq<PlayerV>, i: usize, back: bool) -> usize {
    if alive_count(ps) >= 2 {
        if back {
            (prev_mover(ps, i as int)) as usize
        } else {
            (next_mover(ps, i as int)) as usize
        }
    } else {
        i
    }
}

/// The scan stays within the seat range.
pub proof fn lemma_scan_alive_range(ps: Seq<PlayerV>, j: int, fuel: nat, back: bool)
    requires
        0 <= j < ps.len(),
    ensures
        0 <= scan_alive(ps, j, fuel, back) < ps.len(),
    decreases fuel,
{
    if fuel > 0 && all_zero(ps[j].hands) {
        if back {
            lemma_scan_alive_range(ps, wrap_prev(j, ps.len() as int), (fuel - 1) as nat, back);
        } else {
            lemma_scan_alive_range(ps, wrap_next(j, ps.len() as int), (fuel - 1) as nat, back);
        }
    }
}

/// A player with a live hand witnesses a positive survivor count.
pub proof fn lemma_alive_witness(ps: Seq<PlayerV>, k: int)
    requires
        0 <= k < ps.len(),
        !all_zero(ps[k].hands),
    ensures
        alive_count(ps) >= 1,
    decreases ps.len(),
{
    lemma_alive_count_bounds(ps.drop_last());
    if k < ps.len() - 1 {
        lemma_alive_witness(ps.drop_last(), k);
    }
}

/// The survivor count lies between zero and the roster size.
pub proof fn lemma_alive_count_bounds(ps: Seq<PlayerV>)
    ensures
        0 <= alive_count(ps) <= ps.len(),
    decreases ps.len(),
{
    if ps.len() > 0 {
        lemma_alive_count_bounds(ps.drop_last());
    }
}

/// The survivor count ignores seats whose hands are untouched.
pub proof fn lemma_alive_count_same(ps1: Seq<PlayerV>, ps2: Seq<PlayerV>)
    requires
        ps1.len() == ps2.len(),
        forall|k: int| 0 <= k < ps1.len() ==> all_zero(ps1[k].hands) == all_zero(ps2[k].hands),
    ensures
        alive_count(ps1) == alive_count(ps2),
    decreases ps1.len(),
{
    if ps1.len() > 0 {
        assert forall|k: int| 0 <= k < ps1.len() - 1 implies all_zero(
            #[trigger] ps1.drop_last()[k].hands,
        ) == all_zero(ps2.drop_last()[k].hands) by {
            assert(ps1.drop_last()[k] == ps1[k] && ps2.drop_last()[k] == ps2[k]);
        }
        lemma_alive_count_same(ps1.drop_last(), ps2.drop_last());
    }
}

impl Clone for Player {
    fn clone(&self) -> (r: Player)
        ensures
            r@ == self@,
    {
        let h = self.hands.clone();
        assert(h@ =~= self.hands@);
        Player { hands: h }
    }
}

impl PartialEq for Player {
    fn eq(&self, other: &Player) -> (r: bool) {
        let hands_eq = self.hands == other.hands;
        proof {
            if hands_eq {
                assert(self.hands@ =~= other.hands@);
            } else if self.hands@ == other.hands@ {
                assert(false);
            }
        }
        hands_eq
    }
}

impl vstd::std_specs::cmp::PartialEqSpecImpl for Player {
    open spec fn obeys_eq_spec() -> bool {
        true
    }

    open spec fn eq_spec(&self, other: &Player) -> bool {
        self@ == other@
    }
}

impl Player {
    /// Whether the player has been eliminated: every hand is dead.
    pub fn is_eliminated(&self) -> (r: bool)
        ensures
            r == all_zero(self@.hands),
    {
        hands_all_zero(&self.hands)
    }

    /// The indices of the player's live hands, in ascending order.
    pub fn iter_alive_fingers_indexes(&self) -> (r: Vec<usize>)
        ensures
            forall|t: int|
                0 <= t < r@.len() ==> r@[t] < self@.hands.len() && self@.hands[r@[t] as int] != 0,
            forall|t1: int, t2: int| 0 <= t1 < t2 < r@.len() ==> r@[t1] < r@[t2],
            forall|k: usize| k < self@.hands.len() && self@.hands[k as int] != 0 ==> r@.contains(k),
    {
        crate::hands::alive_indexes(&self.hands)
    }
}

impl Clone for State {
    fn clone(&self) -> (r: State)
        ensures
            r@ == self@,
    {
        let mut ps: Vec<Player> = Vec::new();
        let mut k: usize = 0;
        while k < self.players.len()
            invariant
                0 <= k <= self.players@.len(),
                ps@.len() == k,
                forall|t: int| 0 <= t < k ==> ps@[t]@ == #[trigger] self.players@[t]@,
            decreases self.players@.len() - k,
        {
            let p = self.players[k].clone();
            ps.push(p);
            k = k + 1;
        }
        let r = State {
            i: self.i,
            players: ps,
            rollover: self.rollover,
            initial_fingers: self.initial_fingers,
        };
        proof {
            assert(r@.players =~= self@.players);
            assert(r@ =~= self@);
        }
        r
    }
}

impl PartialEq for State {
    fn eq(&self, other: &State) -> (r: bool) {
        if self.i != other.i || self.rollover != other.rollover || self.initial_fingers
            != other.initial_fingers {
            proof {
                assert(self@ != other@);
            }
            return false;
        }
        if self.players.len() != other.players.len() {
            proof {
                assert(self@.players.len() != other@.players.len());
            }
            return false;
        }
        let mut k: usize = 0;
        while k < self.players.len()
            invariant
                0 <= k <= self.players@.len(),
                self.players@.len() == other.players@.len(),
                forall|t: int| 0 <= t < k ==> #[trigger] self@.players[t] == other@.players[t],
            decreases self.players@.len() - k,
        {
            let same = self.players[k] == other.players[k];
            if !same {
                proof {
                    assert(self@.players[k as int] != other@.players[k as int]);
                    assert(self@ != other@);
                }
                return false;
            }
            k = k + 1;
        }
        proof {
            assert(self@.players =~= other@.players);
            assert(self@ =~= other@);
        }
        true
    }
}

impl vstd::std_specs::cmp::PartialEqSpecImpl for State {
    open spec fn obeys_eq_spec() -> bool {
        true
    }

    open spec fn eq_spec(&self, other: &State) -> bool {
        self@ == other@
    }
}

impl State {
    /// The state is well formed.
    pub open spec fn wf(&self) -> bool {
        state_wf(self@)
    }

    /// A fresh game: every player holds the initial finger count on every
    /// hand and the first player moves.
    pub fn new(n_players: usize, rollover: u32, initial_fingers: u32) -> (r: State)
        requires
            n_players >= 1,
            0 < initial_fingers < rollover,
        ensures
            r@ == (StateV {
                i: 0,
                players: Seq::new(
                    n_players as nat,
                    |k: int| PlayerV { hands: Seq::new(N_HANDS as nat, |j: int| initial_fingers) },
                ),
                rollover,
                initial_fingers,
            }),
            r.wf(),
    {
        let mut ps: Vec<Player> = Vec::new();
        let mut k: usize = 0;
        while k < n_players
            invariant
                0 <= k <= n_players,
                ps@.len() == k,
                forall|t: int|
                    0 <= t < k ==> #[trigger] ps@[t]@ == (PlayerV {
                        hands: Seq::new(N_HANDS as nat, |j: int| initial_fingers),
                    }),
            decreases n_players - k,
        {
            let mut hands: Vec<u32> = Vec::new();
            hands.push(initial_fingers);
            hands.push(initial_fingers);
            proof {
                assert(hands@ =~= Seq::new(N_HANDS as nat, |j: int| initial_fingers));
            }
            ps.push(Player { hands });
            k = k + 1;
        }
        let r = State { i: 0, players: ps, rollover, initial_fingers };
        proof {
            assert(r@.players =~~= Seq::new(
                n_players as nat,
                |t: int| PlayerV { hands: Seq::new(N_HANDS as nat, |j: int| initial_fingers) },
            ));
            assert(!all_zero(r@.players[0].hands)) by {
                assert(r@.players[0].hands[0] == initial_fingers);
            }
            lemma_alive_witness(r@.players, 0);
        }
        r
    }

    /// Counts the players that still have a live hand.
    fn count_alive(&self) -> (r: usize)
        ensures
            r == alive_count(self@.players),
    {
        proof {
            assert(self@.players.subrange(0, 0) =~= Seq::<PlayerV>::empty());
        }
        let mut cnt: usize = 0;
        let mut k: usize = 0;
        while k < self.players.len()
            invariant
                0 <= k <= self@.players.len(),
                cnt == alive_count(self@.players.subrange(0, k as int)),
                cnt <= k,
            decreases self@.players.len() - k,
        {
            proof {
                lemma_alive_count_bounds(self@.players.subrange(0, k as int));
                assert(self@.players.subrange(0, k + 1).drop_last() =~= self@.players.subrange(
                    0,
                    k as int,
                ));
                assert(self@.players.subrange(0, k + 1).last() == self@.players[k as int]);
            }
            if !hands_all_zero(&self.players[k].hands) {
                cnt = cnt + 1;
            }
            k = k + 1;
        }
        proof {
            assert(self@.players.subrange(0, self@.players.len() as int) =~= self@.players);
        }
        cnt
    }

    /// Advances the mover to the next surviving seat, if the game is still
    /// going; otherwise leaves it unchanged.
    fn play_iterate_turn(&mut self)
        requires
            old(self)@.players.len() >= 1,
            old(self)@.i < old(self)@.players.len(),
        ensures
            final(self)@ == (StateV {
                i: post_move_i(old(self)@.players, old(self)@.i, false),
                ..old(self)@
            }),
    {
        self.iterate_turn_dir(false);
    }

    /// Moves the mover back to the previous surviving seat, if the game is
    /// still going; otherwise leaves it unchanged.
    fn undo_iterate_turn(&mut self)
        requires
            old(self)@.players.len() >= 1,
            old(self)@.i < old(self)@.players.len(),
        ensures
            final(self)@ == (StateV {
                i: post_move_i(old(self)@.players, old(self)@.i, true),
                ..old(self)@
            }),
    {
        self.iterate_turn_dir(true);
    }

    /// Walks the roster in the given direction to the first surviving seat.
    fn iterate_turn_dir(&mut self, back: bool)
        requires
            old(self)@.players.len() >= 1,
            old(self)@.i < old(self)@.players.len(),
        ensures
            final(self)@ == (StateV {
                i: post_move_i(old(self)@.players, old(self)@.i, back),
                ..old(self)@
            }),
    {
        let ghost s0 = self@;
        let cnt = self.count_alive();
        if cnt < 2 {
            proof {
                assert(self@ =~= (StateV { i: post_move_i(s0.players, s0.i, back), ..s0 }));
            }
            return ;
        }
        let len = self.players.len();
        let mut j: usize = if back {
            if self.i == 0 {
                len - 1
            } else {
                self.i - 1
            }
        } else {
            if self.i + 1 == len {
                0
            } else {
                self.i + 1
            }
        };
        let mut fuel: usize = len;
        proof {
            lemma_scan_alive_range(s0.players, j as int, fuel as nat, back);
        }
        loop
            invariant_except_break
                self@ == s0,
                0 < fuel <= len,
                len == s0.players.len(),
                0 <= j < len,
                scan_alive(s0.players, j as int, fuel as nat, back) == (if back {
                    prev_mover(s0.players, s0.i as int)
                } else {
                    next_mover(s0.players, s0.i as int)
                }),
                alive_count(s0.players) >= 2,
            ensures
                self@ == (StateV { i: post_move_i(s0.players, s0.i, back), ..s0 }),
            decreases fuel,
        {
            if !hands_all_zero(&self.players[j].hands) {
                self.i = j;
                proof {
                    assert(scan_alive(s0.players, j as int, fuel as nat, back) == j);
                    assert(self@ =~= (StateV { i: post_move_i(s0.players, s0.i, back), ..s0 }));
                }
                break ;
            }
            let ghost old_j = j as int;
            let ghost old_fuel = fuel as nat;
            fuel = fuel - 1;
            j = if back {
                if j == 0 {
                    len - 1
                } else {
                    j - 1
                }
            } else {
                if j + 1 == len {
                    0
                } else {
                    j + 1
                }
            };
            proof {
                assert(scan_alive(s0.players, old_j, old_fuel, back) == scan_alive(
                    s0.players,
                    j as int,
                    fuel as nat,
                    back,
                ));
            }
            if fuel == 0 {
                self.i = j;
                proof {
                    assert(scan_alive(s0.players, j as int, 0, back) == j);
                    assert(self@ =~= (StateV { i: post_move_i(s0.players, s0.i, back), ..s0 }));
                }
                break ;
            }
        }
    }
}

/// The first failing check of an attack, if any, in the order the checks
/// are made.
pub open spec fn attack_err(s: StateV, i: usize, j: usize, a: usize, b: usize) -> Option<
    AttackError,
> {
    if i >= s.players.len() || j >= s.players.len() {
        Some(AttackError::PlayerIndexOutOfBounds)
    } else if a >= N_HANDS || b >= N_HANDS {
        Some(AttackError::HandIndexOutOfBounds)
    } else if i == j {
        Some(AttackError::PlayerAttackSelf)
    } else if s.players[i as int].hands[a as int] == 0 || s.players[j as int].hands[b as int]
        == 0 {
        Some(AttackError::HandIsNotAlive)
    } else {
        None
    }
}

/// The roster after player `j`'s hand `b` absorbs the attack.
pub open spec fn attack_players(s: StateV, i: usize, j: usize, a: usize, b: usize) -> Seq<
    PlayerV,
> {
    let atk = s.players[i as int].hands[a as int];
    let def = s.players[j as int].hands[b as int];
    s.players.update(
        j as int,
        PlayerV {
            hands: s.players[j as int].hands.update(
                b as int,
                (((def + atk) % (s.rollover as int)) as u32),
            ),
        },
    )
}

/// The state after a successful attack: the attacked hand wraps and the
/// turn passes to the next surviving seat.
pub open spec fn attack_next(s: StateV, i: usize, j: usize, a: usize, b: usize) -> StateV {
    let ps = attack_players(s, i, j, a, b);
    StateV { i: post_move_i(ps, s.i, false), players: ps, ..s }
}

/// The first failing check when undoing an attack.
pub open spec fn undo_attack_err(s: StateV, i: usize, j: usize, a: usize, b: usize) -> Option<
    AttackError,
> {
    if i >= s.players.len() || j >= s.players.len() {
        Some(AttackError::PlayerIndexOutOfBounds)
    } else if a >= N_HANDS || b >= N_HANDS {
        Some(AttackError::HandIndexOutOfBounds)
    } else if i == j {
        Some(AttackError::PlayerAttackSelf)
    } else if (s.players[j as int].hands[b as int] + s.rollover
        - s.players[i as int].hands[a as int]) % (s.rollover as int) == 0 {
        Some(AttackError::HandIsNotAlive)
    } else {
        None
    }
}

/// The roster after the attack on player `j`'s hand `b` is taken back.
pub open spec fn undo_attack_players(s: StateV, i: usize, j: usize, a: usize, b: usize) -> Seq<
    PlayerV,
> {
    let atk = s.players[i as int].hands[a as int];
    let def = s.players[j as int].hands[b as int];
    s.players.update(
        j as int,
        PlayerV {
            hands: s.players[j as int].hands.update(
                b as int,
                (((def + s.rollover - atk) % (s.rollover as int)) as u32),
            ),
        },
    )
}

/// The state after an attack is undone: the attacked hand unwraps and the
/// turn passes back to the previous surviving seat.
pub open spec fn undo_attack_next(s: StateV, i: usize, j: usize, a: usize, b: usize) -> StateV {
    let ps = undo_attack_players(s, i, j, a, b);
    StateV { i: post_move_i(ps, s.i, true), players: ps, ..s }
}

/// The first failing check of a split, if any, in the order the checks
/// are made.
pub open spec fn split_err(s: StateV, i: usize, hands_0: Seq<u32>, hands_1: Seq<u32>) -> Option<
    SplitError,
> {
    if hands_0 != s.players[i as int].hands {
        Some(SplitError::ImproperContext)
    } else if sorted_version(hands_0) == sorted_version(hands_1) {
        Some(SplitError::MoveWithoutChange)
    } else if fingers_total(hands_0) != fingers_total(hands_1) {
        Some(SplitError::InvalidTotalFingers)
    } else if exists|k: int| 0 <= k < hands_1.len() && !(1 <= #[trigger] hands_1[k] < s.rollover) {
        Some(SplitError::InvalidFingerValue)
    } else {
        None
    }
}

/// The state after a successful split: player `i` holds the replacement
/// hands and the turn passes to the next surviving seat.
pub open spec fn split_next(s: StateV, i: usize, hands_1: Seq<u32>) -> StateV {
    let ps = s.players.update(i as int, PlayerV { hands: hands_1 });
    StateV { i: post_move_i(ps, s.i, false), players: ps, ..s }
}

/// The first failing check when undoing a split.
pub open spec fn undo_split_err(
    s: StateV,
    i: usize,
    hands_0: Seq<u32>,
    hands_1: Seq<u32>,
) -> Option<SplitError> {
    if hands_1 != s.players[i as int].hands {
        Some(SplitError::ImproperContext)
    } else if sorted_version(hands_0) == sorted_version(hands_1) {
        Some(SplitError::MoveWithoutChange)
    } else if fingers_total(hands_0) != fingers_total(hands_1) {
        Some(SplitError::InvalidTotalFingers)
    } else if exists|k: int| 0 <= k < hands_0.len() && !(1 <= #[trigger] hands_0[k] < s.rollover) {
        Some(SplitError::InvalidFingerValue)
    } else {
        None
    }
}

/// The state after a split is undone: player `i` holds its previous hands
/// and the turn passes back to the previous surviving seat.
pub open spec fn undo_split_next(s: StateV, i: usize, hands_0: Seq<u32>) -> StateV {
    let ps = s.players.update(i as int, PlayerV { hands: hands_0 });
    StateV { i: post_move_i(ps, s.i, true), players: ps, ..s }
}

/// Whether an action passes every rule check against the given state (the
/// game-over check aside): it belongs to the mover and its move succeeds.
pub open spec fn action_ok(s: StateV, act: ActionV) -> bool {
    &&& action_mover(act) == s.i
    &&& match act {
        ActionV::Attack { i, j, a, b } => attack_err(s, i, j, a, b) is None,
        ActionV::Split { i, hands_0, hands_1 } => i < s.players.len() && hands_0.len() == N_HANDS
            && hands_1.len() == N_HANDS && split_err(s, i, hands_0, hands_1) is None,
    }
}

/// The first failing check of a played action: the game being over is
/// detected first, then acting out of turn, then the move's own checks.
pub open spec fn action_err(s: StateV, act: ActionV) -> Option<ActionError> {
    if alive_count(s.players) <= 1 {
        Some(ActionError::GameIsOver)
    } else if action_mover(act) != s.i {
        Some(ActionError::WrongTurn)
    } else {
        match act {
            ActionV::Attack { i, j, a, b } => match attack_err(s, i, j, a, b) {
                Some(e) => Some(ActionError::AttackError(e)),
                None => None,
            },
            ActionV::Split { i, hands_0, hands_1 } => match split_err(s, i, hands_0, hands_1) {
                Some(e) => Some(ActionError::SplitError(e)),
                None => None,
            },
        }
    }
}

/// The state after a successfully played action.
pub open spec fn action_next(s: StateV, act: ActionV) -> StateV {
    match act {
        ActionV::Attack { i, j, a, b } => attack_next(s, i, j, a, b),
        ActionV::Split { i, hands_0, hands_1 } => split_next(s, i, hands_1),
    }
}

impl State {
    /// Player `i` uses hand `a` to attack player `j` at hand `b`. On
    /// success the attacked hand becomes `(defender + attacker) %
    /// rollover`, the attacker's hands are untouched, and the turn passes
    /// to the next surviving seat.
    pub fn play_attack(&mut self, i: usize, j: usize, a: usize, b: usize) -> (res: Result<
        (),
        AttackError,
    >)
        requires
            old(self).wf(),
        ensures
            final(self).wf(),
            match res {
                Err(e) => attack_err(old(self)@, i, j, a, b) == Some(e) && final(self)@ == old(
                    self,
                )@,
                Ok(()) => attack_err(old(self)@, i, j, a, b) is None && final(self)@
                    == attack_next(old(self)@, i, j, a, b),
            },
    {
        if i >= self.players.len() || j >= self.players.len() {
            return Err(AttackError::PlayerIndexOutOfBounds);
        }
        if a >= N_HANDS || b >= N_HANDS {
            return Err(AttackError::HandIndexOutOfBounds);
        }
        if i == j {
            return Err(AttackError::PlayerAttackSelf);
        }
        let attacker = self.players[i].hands[a];
        let defender = self.players[j].hands[b];
        if attacker == 0 || defender == 0 {
            return Err(AttackError::HandIsNotAlive);
        }
        let ghost s0 = self@;
        let ghost pvec = self.players@;
        let new_val = ((defender as u64 + attacker as u64) % (self.rollover as u64)) as u32;
        let mut dp = self.players.remove(j);
        dp.hands.set(b, new_val);
        let ghost dpe = dp;
        self.players.insert(j, dp);
        proof {
            assert(self.players@ =~= pvec.update(j as int, dpe));
            assert(self@.players =~= attack_players(s0, i, j, a, b));
            assert(!all_zero(self@.players[i as int].hands)) by {
                assert(self@.players[i as int].hands[a as int] != 0);
            }
            lemma_alive_witness(self@.players, i as int);
        }
        self.play_iterate_turn();
        proof {
            assert(self@ =~= attack_next(s0, i, j, a, b));
            lemma_post_move_in_range(attack_players(s0, i, j, a, b), s0.i, false);
        }
        Ok(())
    }

    /// Takes back an attack by player `i`'s hand `a` on player `j`'s hand
    /// `b`: the attacked hand unwraps and the turn passes back to the
    /// previous surviving seat. Fails if the restored hand would have been
    /// dead when the attack was made.
    pub fn undo_attack(&mut self, i: usize, j: usize, a: usize, b: usize) -> (res: Result<
        (),
        AttackError,
    >)
        requires
            old(self).wf(),
        ensures
            final(self).wf(),
            match res {
                Err(e) => undo_attack_err(old(self)@, i, j, a, b) == Some(e) && final(self)@
                    == old(self)@,
                Ok(()) => undo_attack_err(old(self)@, i, j, a, b) is None && final(self)@
                    == undo_attack_next(old(self)@, i, j, a, b),
            },
    {
        if i >= self.players.len() || j >= self.players.len() {
            return Err(AttackError::PlayerIndexOutOfBounds);
        }
        if a >= N_HANDS || b >= N_HANDS {
            return Err(AttackError::HandIndexOutOfBounds);
        }
        if i == j {
            return Err(AttackError::PlayerAttackSelf);
        }
        let attacker = self.players[i].hands[a];
        let defender = self.players[j].hands[b];
        let updated = ((defender as u64 + (self.rollover as u64 - attacker as u64)) % (
        self.rollover as u64)) as u32;
        proof {
            assert(updated == (((self@.players[j as int].hands[b as int] + self@.rollover
                - self@.players[i as int].hands[a as int]) % (self@.rollover as int)) as u32));
        }
        if updated == 0 {
            return Err(AttackError::HandIsNotAlive);
        }
        let ghost s0 = self@;
        let ghost pvec = self.players@;
        let mut dp = self.players.remove(j);
        dp.hands.set(b, updated);
        let ghost dpe = dp;
        self.players.insert(j, dp);
        proof {
            assert(self.players@ =~= pvec.update(j as int, dpe));
            assert(self@.players =~= undo_attack_players(s0, i, j, a, b));
            assert(!all_zero(self@.players[j as int].hands)) by {
                assert(self@.players[j as int].hands[b as int] != 0);
            }
            lemma_alive_witness(self@.players, j as int);
        }
        self.undo_iterate_turn();
        proof {
            assert(self@ =~= undo_attack_next(s0, i, j, a, b));
            lemma_post_move_in_range(undo_attack_players(s0, i, j, a, b), s0.i, true);
        }
        Ok(())
    }

    /// Player `i` replaces hands `hands_0` with `hands_1`, conserving the
    /// total finger count. On success the turn passes to the next
    /// surviving seat.
    pub fn play_split(&mut self, i: usize, hands_0: Vec<u32>, hands_1: Vec<u32>) -> (res: Result<
        (),
        SplitError,
    >)
        requires
            old(self).wf(),
            i < old(self)@.players.len(),
            hands_0@.len() == N_HANDS,
            hands_1@.len() == N_HANDS,
        ensures
            final(self).wf(),
            match res {
                Err(e) => split_err(old(self)@, i, hands_0@, hands_1@) == Some(e) && final(self)@
                    == old(self)@,
                Ok(()) => split_err(old(self)@, i, hands_0@, hands_1@) is None && final(self)@
                    == split_next(old(self)@, i, hands_1@),
            },
            res is Ok ==> fingers_total(hands_1@) == fingers_total(
                old(self)@.players[i as int].hands,
            ),
    {
        let ghost s0 = self@;
        let ctx = hands_0 == self.players[i].hands;
        proof {
            if ctx {
                assert(hands_0@ =~= s0.players[i as int].hands);
            } else if hands_0@ == s0.players[i as int].hands {
                assert(hands_0@ =~= self.players@[i as int].hands@);
                assert(false);
            }
        }
        if !ctx {
            return Err(SplitError::ImproperContext);
        }
        let srt0 = sort_hands(&hands_0);
        let srt1 = sort_hands(&hands_1);
        let same = srt0 == srt1;
        proof {
            if same {
                assert(srt0@ =~= srt1@);
            } else if sorted_version(hands_0@) == sorted_version(hands_1@) {
                assert(srt0@ =~= srt1@);
                assert(false);
            }
        }
        if same {
            return Err(SplitError::MoveWithoutChange);
        }
        let t0 = total_fingers(&hands_0);
        let t1 = total_fingers(&hands_1);
        if t0 != t1 {
            return Err(SplitError::InvalidTotalFingers);
        }
        let mut k: usize = 0;
        while k < hands_1.len()
            invariant
                0 <= k <= hands_1@.len(),
                forall|t: int| 0 <= t < k ==> 1 <= #[trigger] hands_1@[t] < self@.rollover,
                self@ == s0,
                state_wf(s0),
                i < s0.players.len(),
                hands_0@ == s0.players[i as int].hands,
                sorted_version(hands_0@) != sorted_version(hands_1@),
                fingers_total(hands_0@) == fingers_total(hands_1@),
            decreases hands_1@.len() - k,
        {
            if hands_1[k] == 0 || hands_1[k] >= self.rollover {
                proof {
                    assert(!(1 <= hands_1@[k as int] < s0.rollover));
                }
                return Err(SplitError::InvalidFingerValue);
            }
            k = k + 1;
        }
        let ghost pvec = self.players@;
        let mut mover = self.players.remove(i);
        mover.hands = hands_1;
        let ghost me = mover;
        self.players.insert(i, mover);
        proof {
            assert(self.players@ =~= pvec.update(i as int, me));
            assert(self@.players =~= s0.players.update(i as int, PlayerV { hands: me.hands@ }));
            assert(!all_zero(self@.players[i as int].hands)) by {
                assert(self@.players[i as int].hands[0] >= 1);
            }
            lemma_alive_witness(self@.players, i as int);
        }
        self.play_iterate_turn();
        proof {
            assert(self@ =~= split_next(s0, i, me.hands@));
            lemma_post_move_in_range(
                s0.players.update(i as int, PlayerV { hands: me.hands@ }),
                s0.i,
                false,
            );
        }
        Ok(())
    }

    /// Takes back a split by player `i`: restores `hands_0` and passes the
    /// turn back to the previous surviving seat.
    pub fn undo_split(&mut self, i: usize, hands_0: Vec<u32>, hands_1: Vec<u32>) -> (res: Result<
        (),
        SplitError,
    >)
        requires
            old(self).wf(),
            i < old(self)@.players.len(),
            hands_0@.len() == N_HANDS,
            hands_1@.len() == N_HANDS,
        ensures
            final(self).wf(),
            match res {
                Err(e) => undo_split_err(old(self)@, i, hands_0@, hands_1@) == Some(e)
                    && final(self)@ == old(self)@,
                Ok(()) => undo_split_err(old(self)@, i, hands_0@, hands_1@) is None
                    && final(self)@ == undo_split_next(old(self)@, i, hands_0@),
            },
    {
        let ghost s0 = self@;
        let ctx = hands_1 == self.players[i].hands;
        proof {
            if ctx {
                assert(hands_1@ =~= s0.players[i as int].hands);
            } else if hands_1@ == s0.players[i as int].hands {
                assert(hands_1@ =~= self.players@[i as int].hands@);
                assert(false);
            }
        }
        if !ctx {
            return Err(SplitError::ImproperContext);
        }
        let srt0 = sort_hands(&hands_0);
        let srt1 = sort_hands(&hands_1);
        let same = srt0 == srt1;
        proof {
            if same {
                assert(srt0@ =~= srt1@);
            } else if sorted_version(hands_0@) == sorted_version(hands_1@) {
                assert(srt0@ =~= srt1@);
                assert(false);
            }
        }
        if same {
            return Err(SplitError::MoveWithoutChange);
        }
        let t0 = total_fingers(&hands_0);
        let t1 = total_fingers(&hands_1);
        if t0 != t1 {
            return Err(SplitError::InvalidTotalFingers);
        }
        let mut k: usize = 0;
        while k < hands_0.len()
            invariant
                0 <= k <= hands_0@.len(),
                forall|t: int| 0 <= t < k ==> 1 <= #[trigger] hands_0@[t] < self@.rollover,
                self@ == s0,
                state_wf(s0),
                i < s0.players.len(),
                hands_1@ == s0.players[i as int].hands,
                sorted_version(hands_0@) != sorted_version(hands_1@),
                fingers_total(hands_0@) == fingers_total(hands_1@),
            decreases hands_0@.len() - k,
        {
            if hands_0[k] == 0 || hands_0[k] >= self.rollover {
                proof {
                    assert(!(1 <= hands_0@[k as int] < s0.rollover));
                }
                return Err(SplitError::InvalidFingerValue);
            }
            k = k + 1;
        }
        let ghost pvec = self.players@;
        let mut mover = self.players.remove(i);
        mover.hands = hands_0;
        let ghost me = mover;
        self.players.insert(i, mover);
        proof {
            assert(self.players@ =~= pvec.update(i as int, me));
            assert(self@.players =~= s0.players.update(i as int, PlayerV { hands: me.hands@ }));
            assert(!all_zero(self@.players[i as int].hands)) by {
                assert(self@.players[i as int].hands[0] >= 1);
            }
            lemma_alive_witness(self@.players, i as int);
        }
        self.undo_iterate_turn();
        proof {
            assert(self@ =~= undo_split_next(s0, i, me.hands@));
            lemma_post_move_in_range(
                s0.players.update(i as int, PlayerV { hands: me.hands@ }),
                s0.i,
                true,
            );
        }
        Ok(())
    }
}

impl State {
    /// Plays an action: rejects a finished game and a move out of turn,
    /// then dispatches to the attack or split rules.
    pub fn play_action(&mut self, action: &Action) -> (res: Result<(), ActionError>)
        requires
            old(self).wf(),
            action_lens_ok(action@),
        ensures
            final(self).wf(),
            match res {
                Err(e) => action_err(old(self)@, action@) == Some(e) && final(self)@ == old(
                    self,
                )@,
                Ok(()) => action_err(old(self)@, action@) is None && final(self)@ == action_next(
                    old(self)@,
                    action@,
                ),
            },
            res is Ok <==> alive_count(old(self)@.players) >= 2 && action_ok(old(self)@, action@),
    {
        let alive = self.count_alive();
        if alive <= 1 {
            return Err(ActionError::GameIsOver);
        }
        if action.get_i() != self.i {
            return Err(ActionError::WrongTurn);
        }
        match action {
            Action::Attack { i, j, a, b } => match self.play_attack(*i, *j, *a, *b) {
                Ok(()) => Ok(()),
                Err(e) => Err(ActionError::AttackError(e)),
            },
            Action::Split { i, hands_0, hands_1 } => {
                let h0 = hands_0.clone();
                let h1 = hands_1.clone();
                proof {
                    assert(h0@ =~= hands_0@);
                    assert(h1@ =~= hands_1@);
                }
                match self.play_split(*i, h0, h1) {
                    Ok(()) => Ok(()),
                    Err(e) => Err(ActionError::SplitError(e)),
                }
            },
        }
    }

    /// Takes back an action, dispatching to the attack or split undo
    /// rules.
    pub fn undo_action(&mut self, action: &Action) -> (res: Result<(), ActionError>)
        requires
            old(self).wf(),
            action_lens_ok(action@),
            action_mover(action@) < old(self)@.players.len(),
        ensures
            final(self).wf(),
            match res {
                Err(e) => final(self)@ == old(self)@ && match action@ {
                    ActionV::Attack { i, j, a, b } => e matches ActionError::AttackError(ae)
                        && undo_attack_err(old(self)@, i, j, a, b) == Some(ae),
                    ActionV::Split { i, hands_0, hands_1 } => e matches ActionError::SplitError(
                        se,
                    ) && undo_split_err(old(self)@, i, hands_0, hands_1) == Some(se),
                },
                Ok(()) => match action@ {
                    ActionV::Attack { i, j, a, b } => undo_attack_err(old(self)@, i, j, a, b)
                        is None && final(self)@ == undo_attack_next(old(self)@, i, j, a, b),
                    ActionV::Split { i, hands_0, hands_1 } => undo_split_err(
                        old(self)@,
                        i,
                        hands_0,
                        hands_1,
                    ) is None && final(self)@ == undo_split_next(old(self)@, i, hands_0),
                },
            },
    {
        match action {
            Action::Attack { i, j, a, b } => match self.undo_attack(*i, *j, *a, *b) {
                Ok(()) => Ok(()),
                Err(e) => Err(ActionError::AttackError(e)),
            },
            Action::Split { i, hands_0, hands_1 } => {
                let h0 = hands_0.clone();
                let h1 = hands_1.clone();
                proof {
                    assert(h0@ =~= hands_0@);
                    assert(h1@ =~= hands_1@);
                }
                match self.undo_split(*i, h0, h1) {
                    Ok(()) => Ok(()),
                    Err(e) => Err(ActionError::SplitError(e)),
                }
            },
        }
    }

    /// The indices of the players that still have a live hand, in
    /// ascending order.
    pub fn iter_player_indexes(&self) -> (r: Vec<usize>)
        ensures
            forall|t: int|
                0 <= t < r@.len() ==> r@[t] < self@.players.len() && !all_zero(
                    self@.players[r@[t] as int].hands,
                ),
            forall|t1: int, t2: int| 0 <= t1 < t2 < r@.len() ==> r@[t1] < r@[t2],
            forall|k: usize|
                k < self@.players.len() && !all_zero(self@.players[k as int].hands)
                    ==> r@.contains(k),
            r@.len() == alive_count(self@.players),
    {
        proof {
            assert(self@.players.subrange(0, 0) =~= Seq::<PlayerV>::empty());
        }
        let mut r: Vec<usize> = Vec::new();
        let mut k: usize = 0;
        while k < self.players.len()
            invariant
                0 <= k <= self@.players.len(),
                forall|t: int|
                    0 <= t < r@.len() ==> r@[t] < k && !all_zero(self@.players[r@[t] as int].hands),
                forall|t1: int, t2: int| 0 <= t1 < t2 < r@.len() ==> r@[t1] < r@[t2],
                forall|t: usize|
                    t < k && !all_zero(self@.players[t as int].hands) ==> r@.contains(t),
                r@.len() == alive_count(self@.players.subrange(0, k as int)),
            decreases self@.players.len() - k,
        {
            proof {
                assert(self@.players.subrange(0, k + 1).drop_last() =~= self@.players.subrange(
                    0,
                    k as int,
                ));
                assert(self@.players.subrange(0, k + 1).last() == self@.players[k as int]);
            }
            if !hands_all_zero(&self.players[k].hands) {
                let ghost prev = r@;
                r.push(k);
                assert forall|t: usize|
                    t < k + 1 && !all_zero(self@.players[t as int].hands) implies r@.contains(
                    t,
                ) by {
                    if t < k {
                        assert(prev.contains(t));
                        let w = choose|w: int| 0 <= w < prev.len() && prev[w] == t;
                        assert(r@[w] == t);
                    } else {
                        assert(r@[r@.len() - 1] == t);
                    }
                }
            }
            k = k + 1;
        }
        proof {
            assert(self@.players.subrange(0, self@.players.len() as int) =~= self@.players);
        }
        r
    }

    /// The current game stage: `Over` with the mover's seat once a single
    /// player survives, otherwise `Turn`.
    pub fn get_status(&self) -> (r: Status)
        requires
            self.wf(),
        ensures
            r == (if alive_count(self@.players) == 1 {
                Status::Over { i: self@.i }
            } else {
                Status::Turn { i: self@.i }
            }),
    {
        let alive = self.iter_player_indexes();
        if alive.len() == 1 {
            Status::Over { i: self.i }
        } else {
            Status::Turn { i: self.i }
        }
    }

    /// The position fingerprint: every player's hand values in seat order,
    /// rendered as decimal digits.
    pub fn get_abbreviation(&self) -> (r: String)
        ensures
            r@ == abbreviation_chars(self@.players),
    {
        let mut s = String::new();
        let mut k: usize = 0;
        proof {
            assert(self@.players.subrange(0, 0) =~= Seq::<PlayerV>::empty());
        }
        while k < self.players.len()
            invariant
                0 <= k <= self@.players.len(),
                s@ == abbreviation_chars(self@.players.subrange(0, k as int)),
            decreases self@.players.len() - k,
        {
            let ghost before = s@;
            let mut j: usize = 0;
            proof {
                let h = self@.players[k as int].hands;
                assert(h.subrange(0, 0) =~= Seq::<u32>::empty());
                assert(before + crate::chopsticks_state::hands_chars(h.subrange(0, 0))
                    =~= before);
            }
            while j < self.players[k].hands.len()
                invariant
                    0 <= k < self@.players.len(),
                    0 <= j <= self@.players[k as int].hands.len(),
                    s@ == before + crate::chopsticks_state::hands_chars(
                        self@.players[k as int].hands.subrange(0, j as int),
                    ),
                decreases self@.players[k as int].hands.len() - j,
            {
                let d = crate::digits::u32_decimal(self.players[k].hands[j]);
                s.append(d.as_str());
                proof {
                    let h = self@.players[k as int].hands;
                    assert(h.subrange(0, j + 1).drop_last() =~= h.subrange(0, j as int));
                    assert(h.subrange(0, j + 1).last() == h[j as int]);
                }
                j = j + 1;
            }
            proof {
                let h = self@.players[k as int].hands;
                assert(h.subrange(0, h.len() as int) =~= h);
                let ps = self@.players;
                assert(ps.subrange(0, k + 1).drop_last() =~= ps.subrange(0, k as int));
                assert(ps.subrange(0, k + 1).last() == ps[k as int]);
            }
            k = k + 1;
        }
        proof {
            assert(self@.players.subrange(0, self@.players.len() as int) =~= self@.players);
        }
        s
    }

    /// Whether the position is the known non-terminating configuration for
    /// two players with rollover five and one initial finger: hands {0,1}
    /// and {0,2} split across the two players, in either order.
    pub fn is_loop_state(&self) -> (r: bool)
        requires
            self.wf(),
            self@.players.len() == 2,
            self@.initial_fingers == 1,
            self@.rollover == 5,
        ensures
            r == loop_fingerprint(self@),
    {
        proof {
            assert(self@.players[0].hands.len() == N_HANDS);
            assert(self@.players[1].hands.len() == N_HANDS);
            assert(self.players@[0].hands@.len() == 2);
            assert(self.players@[1].hands@.len() == 2);
        }
        let s0 = sort_hands(&self.players[0].hands);
        let s1 = sort_hands(&self.players[1].hands);
        let r = (s0[0] == 0 && s0[1] == 1 && s1[0] == 0 && s1[1] == 2) || (s0[0] == 0 && s0[1]
            == 2 && s1[0] == 0 && s1[1] == 1);
        proof {
            let v0 = sorted_version(self@.players[0].hands);
            let v1 = sorted_version(self@.players[1].hands);
            if s0@[0] == 0 && s0@[1] == 1 {
                assert(v0 =~= seq![0u32, 1u32]);
            }
            if s0@[0] == 0 && s0@[1] == 2 {
                assert(v0 =~= seq![0u32, 2u32]);
            }
            if s1@[0] == 0 && s1@[1] == 1 {
                assert(v1 =~= seq![0u32, 1u32]);
            }
            if s1@[0] == 0 && s1@[1] == 2 {
                assert(v1 =~= seq![0u32, 2u32]);
            }
            if v0 == seq![0u32, 1u32] {
                assert(s0@[0] == 0 && s0@[1] == 1);
            }
            if v0 == seq![0u32, 2u32] {
                assert(s0@[0] == 0 && s0@[1] == 2);
            }
            if v1 == seq![0u32, 1u32] {
                assert(s1@[0] == 0 && s1@[1] == 1);
            }
            if v1 == seq![0u32, 2u32] {
                assert(s1@[0] == 0 && s1@[1] == 2);
            }
        }
        r
    }

    /// All legal attack actions for the mover: for every other seat, the
    /// cartesian product of the mover's live hands with that seat's. Every
    /// legal attack appears in the result.
    pub fn iter_attack_actions(&self) -> (r: Vec<Action>)
        requires
            self.wf(),
        ensures
            forall|t: int|
                0 <= t < r@.len() ==> action_ok(self@, #[trigger] r@[t]@) && r@[t]@ is Attack
                    && in_enumeration(self@, r@[t]@),
            forall|j: usize, a: usize, b: usize|
                #[trigger] attack_err(self@, self@.i, j, a, b) is None ==> contains_attack(
                    r@,
                    self@.i,
                    j,
                    a,
                    b,
                ),
            forall|t1: int, t2: int|
                0 <= t1 < t2 < r@.len() ==> attack_lex_before(
                    #[trigger] r@[t1]@,
                    #[trigger] r@[t2]@,
                ),
    {
        let mut r: Vec<Action> = Vec::new();
        let mover = self.i;
        let a_idx = crate::hands::alive_indexes(&self.players[mover].hands);
        let mut j: usize = 0;
        while j < self.players.len()
            invariant
                self.wf(),
                mover == self@.i,
                mover < self@.players.len(),
                forall|t: int|
                    0 <= t < r@.len() ==> action_ok(self@, #[trigger] r@[t]@) && r@[t]@ is Attack
                        && in_enumeration(self@, r@[t]@),
                forall|j2: usize, a2: usize, b2: usize|
                    j2 < j && #[trigger] attack_err(self@, mover, j2, a2, b2) is None
                        ==> contains_attack(r@, mover, j2, a2, b2),
                forall|t: int|
                    0 <= t < a_idx@.len() ==> a_idx@[t] < self@.players[mover as int].hands.len()
                        && self@.players[mover as int].hands[a_idx@[t] as int] != 0,
                forall|k: usize|
                    k < self@.players[mover as int].hands.len() && self@.players[
                        mover as int
                    ].hands[k as int] != 0 ==> a_idx@.contains(k),
                forall|j1: int, j2: int| 0 <= j1 < j2 < a_idx@.len() ==> a_idx@[j1] < a_idx@[j2],
                forall|t: int|
                    0 <= t < r@.len() ==> attack_lex_before(
                        #[trigger] r@[t]@,
                        ActionV::Attack { i: mover, j, a: 0, b: 0 },
                    ),
                forall|t1: int, t2: int|
                    0 <= t1 < t2 < r@.len() ==> attack_lex_before(
                        #[trigger] r@[t1]@,
                        #[trigger] r@[t2]@,
                    ),
            decreases self@.players.len() - j,
        {
            if j != mover {
                let b_idx = crate::hands::alive_indexes(&self.players[j].hands);
                let pairs = crate::hands::cartesian_pairs(&a_idx, &b_idx);
                let ghost base = r@.len();
                let mut t: usize = 0;
                while t < pairs.len()
                    invariant
                        self.wf(),
                        mover == self@.i,
                        mover < self@.players.len(),
                        0 <= j < self@.players.len(),
                        j != mover,
                        0 <= t <= pairs@.len(),
                        r@.len() == base + t,
                        forall|j1: int, j2: int|
                            0 <= j1 < j2 < a_idx@.len() ==> a_idx@[j1] < a_idx@[j2],
                        forall|j1: int, j2: int|
                            0 <= j1 < j2 < b_idx@.len() ==> b_idx@[j1] < b_idx@[j2],
                        forall|u: int|
                            0 <= u < base ==> attack_lex_before(
                                #[trigger] r@[u]@,
                                ActionV::Attack { i: mover, j, a: 0, b: 0 },
                            ),
                        forall|u: int|
                            0 <= u < t ==> r@[base + u]@ == (ActionV::Attack {
                                i: mover,
                                j,
                                a: (#[trigger] pairs@[u]).0,
                                b: pairs@[u].1,
                            }),
                        forall|t1: int, t2: int|
                            0 <= t1 < t2 < r@.len() ==> attack_lex_before(
                                #[trigger] r@[t1]@,
                                #[trigger] r@[t2]@,
                            ),
                        pairs@.len() == a_idx@.len() * b_idx@.len(),
                        forall|x: int, y: int|
                            0 <= x < a_idx@.len() && 0 <= y < b_idx@.len() ==> pairs@[x
                                * b_idx@.len() + y] == ((a_idx@[x], b_idx@[y])),
                        forall|u: int|
                            0 <= u < a_idx@.len() ==> a_idx@[u] < self@.players[
                                mover as int
                            ].hands.len() && self@.players[mover as int].hands[a_idx@[u] as int]
                                != 0,
                        forall|k: usize|
                            k < self@.players[mover as int].hands.len() && self@.players[
                                mover as int
                            ].hands[k as int] != 0 ==> a_idx@.contains(k),
                        forall|u: int|
                            0 <= u < b_idx@.len() ==> b_idx@[u] < self@.players[
                                j as int
                            ].hands.len() && self@.players[j as int].hands[b_idx@[u] as int] != 0,
                        forall|k: usize|
                            k < self@.players[j as int].hands.len() && self@.players[
                                j as int
                            ].hands[k as int] != 0 ==> b_idx@.contains(k),
                        forall|u: int|
                            0 <= u < r@.len() ==> action_ok(self@, #[trigger] r@[u]@) && r@[u]@
                                is Attack && in_enumeration(self@, r@[u]@),
                        forall|j2: usize, a2: usize, b2: usize|
                            j2 < j && #[trigger] attack_err(self@, mover, j2, a2, b2) is None
                                ==> contains_attack(r@, mover, j2, a2, b2),
                        forall|u: int|
                            0 <= u < t ==> contains_attack(
                                r@,
                                mover,
                                j,
                                (#[trigger] pairs@[u]).0,
                                pairs@[u].1,
                            ),
                    decreases pairs@.len() - t,
                {
                    let a = pairs[t].0;
                    let b = pairs[t].1;
                    proof {
                        let blen = b_idx@.len() as int;
                        let q = t as int / blen;
                        let w = t as int % blen;
                        vstd::arithmetic::div_mod::lemma_fundamental_div_mod(t as int, blen);
                        assert(0 <= w < blen) by (nonlinear_arith)
                            requires
                                blen > 0,
                                w == t as int % blen,
                        ;
                        assert(0 <= q < a_idx@.len()) by (nonlinear_arith)
                            requires
                                blen > 0,
                                q == t as int / blen,
                                0 <= (t as int) < a_idx@.len() * blen,
                        ;
                        assert(t as int == q * blen + w) by (nonlinear_arith)
                            requires
                                t as int == blen * q + w,
                        ;
                        assert(pairs@[q * blen + w] == ((a_idx@[q], b_idx@[w])));
                        assert(a == a_idx@[q] && b == b_idx@[w]);
                    }
                    let ghost prev = r@;
                    r.push(Action::Attack { i: mover, j, a, b });
                    proof {
                        assert(r@[r@.len() - 1]@ == (ActionV::Attack { i: mover, j, a, b }));
                        assert forall|t1: int, t2: int|
                            0 <= t1 < t2 < r@.len() implies attack_lex_before(
                            #[trigger] r@[t1]@,
                            #[trigger] r@[t2]@,
                        ) by {
                            if t2 == r@.len() - 1 {
                                if t1 < base {
                                    assert(attack_lex_before(
                                        r@[t1]@,
                                        ActionV::Attack { i: mover, j, a: 0, b: 0 },
                                    ));
                                } else {
                                    let u1 = t1 - base;
                                    assert(r@[t1]@ == (ActionV::Attack {
                                        i: mover,
                                        j,
                                        a: pairs@[u1].0,
                                        b: pairs@[u1].1,
                                    }));
                                    crate::hands::lemma_pairs_lex(
                                        a_idx@,
                                        b_idx@,
                                        pairs@,
                                        u1,
                                        t as int,
                                    );
                                }
                            } else {
                                assert(r@[t1]@ == prev[t1]@ && r@[t2]@ == prev[t2]@);
                            }
                        }
                        assert forall|j2: usize, a2: usize, b2: usize|
                            j2 < j && #[trigger] attack_err(self@, mover, j2, a2, b2)
                                is None implies contains_attack(r@, mover, j2, a2, b2) by {
                            let t2 = choose|t2: int|
                                0 <= t2 < prev.len() && (#[trigger] prev[t2])@ == (
                                ActionV::Attack { i: mover, j: j2, a: a2, b: b2 });
                            assert(r@[t2]@ == (ActionV::Attack { i: mover, j: j2, a: a2, b: b2 }));
                        }
                        assert forall|u: int| 0 <= u < t + 1 implies contains_attack(
                            r@,
                            mover,
                            j,
                            (#[trigger] pairs@[u]).0,
                            pairs@[u].1,
                        ) by {
                            if u < t {
                                let t2 = choose|t2: int|
                                    0 <= t2 < prev.len() && (#[trigger] prev[t2])@ == (
                                    ActionV::Attack {
                                        i: mover,
                                        j,
                                        a: pairs@[u].0,
                                        b: pairs@[u].1,
                                    });
                                assert(r@[t2]@ == (ActionV::Attack {
                                    i: mover,
                                    j,
                                    a: pairs@[u].0,
                                    b: pairs@[u].1,
                                }));
                            } else {
                                assert(pairs@[u] == ((a, b)));
                                assert(r@[r@.len() - 1]@ == (ActionV::Attack {
                                    i: mover,
                                    j,
                                    a: pairs@[u].0,
                                    b: pairs@[u].1,
                                }));
                            }
                        }
                    }
                    t = t + 1;
                }
                proof {
                    assert forall|a2: usize, b2: usize|
                        #[trigger] attack_err(self@, mover, j, a2, b2)
                            is None implies contains_attack(r@, mover, j, a2, b2) by {
                        let blen = b_idx@.len() as int;
                        assert(a_idx@.contains(a2));
                        assert(b_idx@.contains(b2));
                        let x = choose|x: int| 0 <= x < a_idx@.len() && a_idx@[x] == a2;
                        let y = choose|y: int| 0 <= y < b_idx@.len() && b_idx@[y] == b2;
                        assert(0 <= x * blen + y < pairs@.len()) by (nonlinear_arith)
                            requires
                                0 <= x < a_idx@.len(),
                                0 <= y < blen,
                                blen == b_idx@.len(),
                                pairs@.len() == a_idx@.len() * blen,
                        ;
                        assert(pairs@[x * blen + y] == ((a_idx@[x], b_idx@[y])));
                        assert(contains_attack(
                            r@,
                            mover,
                            j,
                            pairs@[x * blen + y].0,
                            pairs@[x * blen + y].1,
                        ));
                    }
                    assert forall|t: int| 0 <= t < r@.len() implies attack_lex_before(
                        #[trigger] r@[t]@,
                        ActionV::Attack { i: mover, j: (j + 1) as usize, a: 0, b: 0 },
                    ) by {
                        if t < base {
                            assert(attack_lex_before(
                                r@[t]@,
                                ActionV::Attack { i: mover, j, a: 0, b: 0 },
                            ));
                        } else {
                            assert(r@[t]@ == (ActionV::Attack {
                                i: mover,
                                j,
                                a: pairs@[t - base].0,
                                b: pairs@[t - base].1,
                            }));
                        }
                    }
                }
            }
            j = j + 1;
        }
        r
    }

    /// All legal split actions for the mover. The enumeration formula
    /// covers exactly two hands per player.
    pub fn iter_split_actions(&self) -> (r: Vec<Action>)
        requires
            self.wf(),
        ensures
            forall|t: int|
                0 <= t < r@.len() ==> action_ok(self@, #[trigger] r@[t]@) && r@[t]@ is Split
                    && in_enumeration(self@, r@[t]@),
            forall|av: int|
                #[trigger] split_candidate(self@, av) ==> contains_split(
                    r@,
                    self@,
                    seq![
                        (av as u32),
                        ((fingers_total(self@.players[self@.i as int].hands) - av) as u32),
                    ],
                ),
            forall|t1: int, t2: int|
                0 <= t1 < t2 < r@.len() ==> split_left(#[trigger] r@[t1]@) < split_left(
                    #[trigger] r@[t2]@,
                ),
    {
        let mut r: Vec<Action> = Vec::new();
        let mover = self.i;
        proof {
            crate::hands::lemma_two_hand_total(self@.players[mover as int].hands, self@.rollover);
        }
        let total128 = total_fingers(&self.players[mover].hands);
        let total = total128 as u64;
        let rollover64 = self.rollover as u64;
        let start0 = total % rollover64 + 1;
        let start = if start0 > 1 {
            start0
        } else {
            1
        };
        let stop = total / 2;
        let mut a = start;
        proof {
            if total >= rollover64 {
                assert(total % rollover64 == total - rollover64) by (nonlinear_arith)
                    requires
                        rollover64 > 0,
                        rollover64 <= total < 2 * rollover64,
                ;
            } else {
                assert(total % rollover64 == total) by (nonlinear_arith)
                    requires
                        0 <= total < rollover64,
                ;
            }
        }
        while a <= stop
            invariant
                self.wf(),
                mover == self@.i,
                mover < self@.players.len(),
                total == fingers_total(self@.players[mover as int].hands),
                total <= 2 * (self@.rollover - 1),
                rollover64 == self@.rollover,
                stop == total / 2,
                a >= 1,
                start as int == split_lo(self@),
                a >= start,
                total >= rollover64 ==> a >= total - rollover64 + 1,
                total < rollover64 ==> a > stop,
                forall|av: int| #[trigger] split_candidate(self@, av) ==> av >= a || contains_split(
                    r@,
                    self@,
                    seq![(av as u32), ((total - av) as u32)],
                ),
                forall|t: int|
                    0 <= t < r@.len() ==> action_ok(self@, #[trigger] r@[t]@) && r@[t]@ is Split
                        && in_enumeration(self@, r@[t]@),
                forall|t: int| 0 <= t < r@.len() ==> split_left(#[trigger] r@[t]@) < a,
                forall|t1: int, t2: int|
                    0 <= t1 < t2 < r@.len() ==> split_left(#[trigger] r@[t1]@) < split_left(
                        #[trigger] r@[t2]@,
                    ),
            decreases stop - a + 1,
        {
            let lo = a as u32;
            let hi = (total - a) as u32;
            let mut cand: Vec<u32> = Vec::new();
            cand.push(lo);
            cand.push(hi);
            proof {
                assert(crate::hands::hands_sorted(cand@));
                crate::hands::lemma_sorted_version_unique(cand@, cand@);
                crate::hands::lemma_fingers_total_push(seq![lo], hi);
                crate::hands::lemma_fingers_total_push(Seq::<u32>::empty(), lo);
                assert(seq![lo].push(hi) =~= cand@);
                assert(seq![lo] =~= Seq::<u32>::empty().push(lo));
                assert(fingers_total(cand@) == total);
            }
            let cur = self.players[mover].hands.clone();
            proof {
                assert(cur@ =~= self@.players[mover as int].hands);
            }
            let srt_cur = sort_hands(&cur);
            let same = cand == srt_cur;
            proof {
                if same {
                    assert(cand@ =~= sorted_version(self@.players[mover as int].hands));
                } else if cand@ == sorted_version(self@.players[mover as int].hands) {
                    assert(cand@ =~= srt_cur@);
                    assert(false);
                }
            }
            let ghost prev = r@;
            let ghost candv = cand@;
            let ghost curv = cur@;
            if !same {
                r.push(Action::Split { i: mover, hands_0: cur, hands_1: cand });
            }
            proof {
                assert(candv =~= seq![(a as u32), ((total - a) as u32)]);
                if !same {
                    assert(split_candidate(self@, a as int));
                    assert(in_enumeration(
                        self@,
                        ActionV::Split { i: mover, hands_0: curv, hands_1: candv },
                    ));
                }
                assert forall|av: int| #[trigger] split_candidate(self@, av) implies av >= a + 1
                    || contains_split(r@, self@, seq![(av as u32), ((total - av) as u32)]) by {
                    if av < a {
                        if !(av >= a as int) {
                            let t2 = choose|t2: int|
                                0 <= t2 < prev.len() && (#[trigger] prev[t2])@ == (ActionV::Split {
                                    i: self@.i,
                                    hands_0: self@.players[self@.i as int].hands,
                                    hands_1: seq![(av as u32), ((total - av) as u32)],
                                });
                            assert(r@[t2]@ == (ActionV::Split {
                                i: self@.i,
                                hands_0: self@.players[self@.i as int].hands,
                                hands_1: seq![(av as u32), ((total - av) as u32)],
                            }));
                        }
                    } else if av == a {
                        assert(!same);
                        assert(r@[r@.len() - 1]@ == (ActionV::Split {
                            i: self@.i,
                            hands_0: curv,
                            hands_1: candv,
                        }));
                    }
                }
            }
            a = a + 1;
        }
        proof {
            assert forall|av: int| #[trigger] split_candidate(self@, av) implies contains_split(
                r@,
                self@,
                seq![(av as u32), ((total - av) as u32)],
            ) by {
                assert(av < a);
            }
        }
        r
    }

    /// All legal actions for the mover: attacks first, then splits. The
    /// fixed order is the tie-break that decision strategies rely on.
    pub fn iter_actions(&self) -> (r: Vec<Action>)
        requires
            self.wf(),
        ensures
            forall|t: int|
                0 <= t < r@.len() ==> action_ok(self@, #[trigger] r@[t]@) && in_enumeration(
                    self@,
                    r@[t]@,
                ),
            forall|t1: int, t2: int|
                0 <= t1 <= t2 < r@.len() && (#[trigger] r@[t2]@) is Attack ==> (
                #[trigger] r@[t1]@) is Attack,
            forall|t1: int, t2: int|
                0 <= t1 < t2 < r@.len() && (#[trigger] r@[t2]@) is Attack ==> attack_lex_before(
                    #[trigger] r@[t1]@,
                    r@[t2]@,
                ),
            forall|t1: int, t2: int|
                0 <= t1 < t2 < r@.len() && (#[trigger] r@[t1]@) is Split ==> split_left(r@[t1]@)
                    < split_left(#[trigger] r@[t2]@),
            forall|j: usize, a: usize, b: usize|
                #[trigger] attack_err(self@, self@.i, j, a, b) is None ==> contains_attack(
                    r@,
                    self@.i,
                    j,
                    a,
                    b,
                ),
            forall|av: int|
                #[trigger] split_candidate(self@, av) ==> contains_split(
                    r@,
                    self@,
                    seq![
                        (av as u32),
                        ((fingers_total(self@.players[self@.i as int].hands) - av) as u32),
                    ],
                ),
    {
        let mut r = self.iter_attack_actions();
        let mut splits = self.iter_split_actions();
        let ghost ra = r@;
        let ghost sv = splits@;
        r.append(&mut splits);
        proof {
            assert(forall|t: int| 0 <= t < r@.len() ==> action_ok(self@, #[trigger] r@[t]@));
            assert forall|t: int| 0 <= t < r@.len() implies in_enumeration(
                self@,
                #[trigger] r@[t]@,
            ) by {
                if t < ra.len() {
                    assert(r@[t] == ra[t]);
                } else {
                    assert(r@[t] == sv[t - ra.len()]);
                }
            }
            assert forall|t1: int, t2: int|
                0 <= t1 <= t2 < r@.len() && (#[trigger] r@[t2]@) is Attack implies (
            #[trigger] r@[t1]@) is Attack by {
                if t2 >= ra.len() {
                    assert(r@[t2] == sv[t2 - ra.len()]);
                    assert(r@[t2]@ is Split);
                } else {
                    assert(r@[t1] == ra[t1]);
                }
            }
            assert forall|t1: int, t2: int|
                0 <= t1 < t2 < r@.len() && (#[trigger] r@[t2]@) is Attack implies attack_lex_before(
                #[trigger] r@[t1]@,
                r@[t2]@,
            ) by {
                if t2 >= ra.len() {
                    assert(r@[t2] == sv[t2 - ra.len()]);
                    assert(r@[t2]@ is Split);
                } else {
                    assert(r@[t1] == ra[t1] && r@[t2] == ra[t2]);
                }
            }
            assert forall|t1: int, t2: int|
                0 <= t1 < t2 < r@.len() && (#[trigger] r@[t1]@) is Split implies split_left(
                r@[t1]@,
            ) < split_left(#[trigger] r@[t2]@) by {
                if t1 < ra.len() {
                    assert(r@[t1] == ra[t1]);
                    assert(r@[t1]@ is Attack);
                } else {
                    assert(r@[t1] == sv[t1 - ra.len()] && r@[t2] == sv[t2 - ra.len()]);
                }
            }
            assert forall|j: usize, a: usize, b: usize|
                #[trigger] attack_err(self@, self@.i, j, a, b) is None implies contains_attack(
                r@,
                self@.i,
                j,
                a,
                b,
            ) by {
                let t2 = choose|t2: int|
                    0 <= t2 < ra.len() && (#[trigger] ra[t2])@ == (ActionV::Attack {
                        i: self@.i,
                        j,
                        a,
                        b,
                    });
                assert(r@[t2]@ == (ActionV::Attack { i: self@.i, j, a, b }));
            }
            let total = fingers_total(self@.players[self@.i as int].hands);
            assert forall|av: int| #[trigger] split_candidate(self@, av) implies contains_split(
                r@,
                self@,
                seq![(av as u32), ((total - av) as u32)],
            ) by {
                let t2 = choose|t2: int|
                    0 <= t2 < sv.len() && (#[trigger] sv[t2])@ == (ActionV::Split {
                        i: self@.i,
                        hands_0: self@.players[self@.i as int].hands,
                        hands_1: seq![(av as u32), ((total - av) as u32)],
                    });
                assert(r@[ra.len() + t2]@ == (ActionV::Split {
                    i: self@.i,
                    hands_0: self@.players[self@.i as int].hands,
                    hands_1: seq![(av as u32), ((total - av) as u32)],
                }));
            }
        }
        r
    }
}

/// The strict enumeration order of attacks: defending seat first, then
/// the attacking hand, then the attacked hand.
pub open spec fn attack_lex_before(x: ActionV, y: ActionV) -> bool {
    match x {
        ActionV::Attack { i: i1, j: j1, a: a1, b: b1 } => match y {
            ActionV::Attack { i: i2, j: j2, a: a2, b: b2 } => j1 < j2 || (j1 == j2 && a1 < a2)
                || (j1 == j2 && a1 == a2 && b1 < b2),
            ActionV::Split { .. } => false,
        },
        ActionV::Split { .. } => false,
    }
}

/// The left value of a split's replacement pair, used to state the
/// enumeration order; attacks sit below every real value.
pub open spec fn split_left(act: ActionV) -> int {
    match act {
        ActionV::Split { i, hands_0, hands_1 } => hands_1[0] as int,
        ActionV::Attack { .. } => -1,
    }
}

/// The lower bound of the split enumeration's candidate range: one past
/// the total's remainder modulo the rollover, and at least one.
pub open spec fn split_lo(s: StateV) -> int {
    let total = fingers_total(s.players[s.i as int].hands);
    let wrapped = total % (s.rollover as int);
    if wrapped + 1 > 1 {
        wrapped + 1
    } else {
        1
    }
}

/// Whether an action is one the enumeration yields: a legal attack by the
/// mover, or a split of the mover's current hands drawn from the pruned
/// candidate range.
pub open spec fn in_enumeration(s: StateV, act: ActionV) -> bool {
    match act {
        ActionV::Attack { i, j, a, b } => i == s.i && attack_err(s, i, j, a, b) is None,
        ActionV::Split { i, hands_0, hands_1 } => i == s.i && hands_0 == s.players[
            s.i as int
        ].hands && exists|av: int|
            #[trigger] split_candidate(s, av) && hands_1 == seq![
                (av as u32),
                ((fingers_total(s.players[s.i as int].hands) - av) as u32),
            ],
    }
}

/// The enumeration holds the attack with these coordinates.
pub open spec fn contains_attack(rs: Seq<Action>, i: usize, j: usize, a: usize, b: usize) -> bool {
    exists|t: int| 0 <= t < rs.len() && (#[trigger] rs[t])@ == (ActionV::Attack { i, j, a, b })
}

/// The left values the split enumeration must cover: within the pruned
/// candidate range and not recreating the mover's current hands.
pub open spec fn split_candidate(s: StateV, av: int) -> bool {
    let total = fingers_total(s.players[s.i as int].hands);
    &&& split_lo(s) <= av <= total / 2
    &&& seq![av as u32, (total - av) as u32] != sorted_version(s.players[s.i as int].hands)
}

/// The enumeration holds the split that replaces the mover's current hands
/// with this array.
pub open spec fn contains_split(rs: Seq<Action>, s: StateV, h: Seq<u32>) -> bool {
    exists|t: int|
        0 <= t < rs.len() && (#[trigger] rs[t])@ == (ActionV::Split {
            i: s.i,
            hands_0: s.players[s.i as int].hands,
            hands_1: h,
        })
}

/// The known non-terminating configuration for two players with rollover
/// five: hands {0,1} and {0,2} split across the two players.
pub open spec fn loop_fingerprint(s: StateV) -> bool {
    ||| (sorted_version(s.players[0].hands) == seq![0u32, 1u32] && sorted_version(
        s.players[1].hands,
    ) == seq![0u32, 2u32])
    ||| (sorted_version(s.players[0].hands) == seq![0u32, 2u32] && sorted_version(
        s.players[1].hands,
    ) == seq![0u32, 1u32])
}

/// The decimal digits of a seat-ordered roster, every hand of every
/// player.
pub open spec fn abbreviation_chars(ps: Seq<PlayerV>) -> Seq<char>
    decreases ps.len(),
{
    if ps.len() == 0 {
        Seq::<char>::empty()
    } else {
        abbreviation_chars(ps.drop_last()) + crate::chopsticks_state::hands_chars(
            ps.last().hands,
        )
    }
}

/// The mover index after a move stays within the seat range.
proof fn lemma_post_move_in_range(ps: Seq<PlayerV>, i: usize, back: bool)
    requires
        0 <= (i as int) < ps.len(),
    ensures
        (post_move_i(ps, i, back) as int) < ps.len(),
{
    if alive_count(ps) >= 2 {
        if back {
            lemma_scan_alive_range(ps, wrap_prev(i as int, ps.len() as int), ps.len() as nat, true);
        } else {
            lemma_scan_alive_range(
                ps,
                wrap_next(i as int, ps.len() as int),
                ps.len() as nat,
                false,
            );
        }
    }
}

} // verus!
