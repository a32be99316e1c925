//! Configuration for building a `ChopsticksState`, and the dense integer
//! numbering of hand arrays, actions and positions.

use crate::chopsticks_state::{Action, ActionV, ChopsticksState, Player, PlayerV, StateV};
use crate::hands::hands_below;
use vstd::arithmetic::power::{
    lemma_pow0, lemma_pow1, lemma_pow_adds, lemma_pow_increases, lemma_pow_positive, pow,
};
use vstd::prelude::*;

verus! {

/// A configuration value was rejected.
#[derive(Debug)]
pub struct ValueError;

/// Configuration for generating a `ChopsticksState`, with the derived
/// offsets of the numbering scheme.
pub struct Chopsticks {
    n_players: usize,
    n_hands: usize,
    rollover: u32,
    initial_rollover: u32,
    split_offset: u128,
    hands_offset: u128,
}

/// The abstract value of a `Chopsticks` configuration.
#[verifier::ext_equal]
pub struct ConfigV {
    pub n_players: usize,
    pub n_hands: usize,
    pub rollover: u32,
    pub initial_rollover: u32,
    pub split_offset: u128,
    pub hands_offset: u128,
}

impl View for Chopsticks {
    type V = ConfigV;

    closed spec fn view(&self) -> ConfigV {
        ConfigV {
            n_players: self.n_players,
            n_hands: self.n_hands,
            rollover: self.rollover,
            initial_rollover: self.initial_rollover,
            split_offset: self.split_offset,
            hands_offset: self.hands_offset,
        }
    }
}

/// The base of the attack range: one code for every combination of
/// defender seat and hand pair.
pub open spec fn derived_split_offset(n_players: usize, n_hands: usize) -> int {
    n_players * n_hands * n_hands
}

/// The base of one player's hand-array range.
pub open spec fn derived_hands_offset(rollover: u32, n_hands: usize) -> int {
    pow(rollover as int, n_hands as nat)
}

/// Whether a configuration is valid and its numbering fits in the serial
/// width: position codes times the action-space size must not overflow.
pub open spec fn config_fits(
    n_players: usize,
    n_hands: usize,
    rollover: u32,
    initial_rollover: u32,
) -> bool {
    &&& n_players >= 1
    &&& n_hands >= 1
    &&& 0 < initial_rollover < rollover
    &&& pow(derived_hands_offset(rollover, n_hands), n_players as nat) * (derived_split_offset(
        n_players,
        n_hands,
    ) + derived_hands_offset(rollover, n_hands)) <= u128::MAX
}

/// A well-formed configuration: valid bounds and correctly derived offsets.
pub open spec fn config_wf(c: ConfigV) -> bool {
    &&& config_fits(c.n_players, c.n_hands, c.rollover, c.initial_rollover)
    &&& c.split_offset == derived_split_offset(c.n_players, c.n_hands)
    &&& c.hands_offset == derived_hands_offset(c.rollover, c.n_hands)
}

/// Raises `base` to the power `e`, detecting overflow.
fn checked_pow(base: u128, e: usize) -> (r: Option<u128>)
    requires
        base >= 1,
    ensures
        match r {
            Some(v) => v == pow(base as int, e as nat),
            None => pow(base as int, e as nat) > u128::MAX,
        },
{
    let mut acc: u128 = 1;
    let mut k: usize = 0;
    proof {
        lemma_pow0(base as int);
    }
    while k < e
        invariant
            base >= 1,
            0 <= k <= e,
            acc == pow(base as int, k as nat),
            acc >= 1,
        decreases e - k,
    {
        proof {
            lemma_pow_adds(base as int, k as nat, 1);
            lemma_pow1(base as int);
        }
        match acc.checked_mul(base) {
            Some(v) => {
                proof {
                    assert(v >= 1) by (nonlinear_arith)
                        requires
                            v == acc * base,
                            acc >= 1,
                            base >= 1,
                    ;
                }
                acc = v;
                k = k + 1;
            },
            None => {
                proof {
                    lemma_pow_positive(base as int, (k + 1) as nat);
                    lemma_pow_increases(base as nat, (k + 1) as nat, e as nat);
                }
                return None;
            },
        }
    }
    Some(acc)
}

impl Chopsticks {
    /// Validates a configuration, computing the derived offsets and
    /// rejecting any combination whose numbering would overflow the
    /// serial width.
    fn new(n_players: usize, n_hands: usize, rollover: u32, initial_rollover: u32) -> (r: Result<
        Chopsticks,
        ValueError,
    >)
        ensures
            match r {
                Ok(c) => config_fits(n_players, n_hands, rollover, initial_rollover) && c@ == (
                ConfigV {
                    n_players,
                    n_hands,
                    rollover,
                    initial_rollover,
                    split_offset: (derived_split_offset(n_players, n_hands) as u128),
                    hands_offset: (derived_hands_offset(rollover, n_hands) as u128),
                }) && config_wf(c@),
                Err(_) => !config_fits(n_players, n_hands, rollover, initial_rollover),
            },
    {
        if n_players == 0 || n_hands == 0 || initial_rollover == 0 || initial_rollover >= rollover
        {
            return Err(ValueError);
        }
        let ghost so = derived_split_offset(n_players, n_hands);
        let ghost ho = derived_hands_offset(rollover, n_hands);
        let ghost fits_bound = pow(ho, n_players as nat) * (so + ho);
        proof {
            lemma_pow_positive(rollover as int, n_hands as nat);
            lemma_pow_positive(ho, n_players as nat);
            assert(so >= 1) by (nonlinear_arith)
                requires
                    so == n_players * n_hands * n_hands,
                    n_players >= 1,
                    n_hands >= 1,
            ;
        }
        let so1 = match (n_players as u128).checked_mul(n_hands as u128) {
            Some(v) => v,
            None => {
                proof {
                    assert(so >= n_players * n_hands) by (nonlinear_arith)
                        requires
                            so == n_players * n_hands * n_hands,
                            n_hands >= 1,
                            n_players >= 1,
                    ;
                    assert(fits_bound >= so + ho) by (nonlinear_arith)
                        requires
                            fits_bound == pow(ho, n_players as nat) * (so + ho),
                            pow(ho, n_players as nat) >= 1,
                            so + ho >= 0,
                    ;
                }
                return Err(ValueError);
            },
        };
        let split_offset = match so1.checked_mul(n_hands as u128) {
            Some(v) => v,
            None => {
                proof {
                    assert(fits_bound >= so + ho) by (nonlinear_arith)
                        requires
                            fits_bound == pow(ho, n_players as nat) * (so + ho),
                            pow(ho, n_players as nat) >= 1,
                            so + ho >= 0,
                    ;
                }
                return Err(ValueError);
            },
        };
        let hands_offset = match checked_pow(rollover as u128, n_hands) {
            Some(v) => v,
            None => {
                proof {
                    assert(fits_bound >= pow(ho, n_players as nat)) by (nonlinear_arith)
                        requires
                            fits_bound == pow(ho, n_players as nat) * (so + ho),
                            pow(ho, n_players as nat) >= 1,
                            so >= 1,
                            ho >= 1,
                    ;
                    lemma_pow_increases(ho as nat, 1, n_players as nat);
                    lemma_pow1(ho);
                }
                return Err(ValueError);
            },
        };
        let sum = match split_offset.checked_add(hands_offset) {
            Some(v) => v,
            None => {
                proof {
                    assert(fits_bound >= so + ho) by (nonlinear_arith)
                        requires
                            fits_bound == pow(ho, n_players as nat) * (so + ho),
                            pow(ho, n_players as nat) >= 1,
                            so + ho >= 0,
                    ;
                }
                return Err(ValueError);
            },
        };
        let ppow = match checked_pow(hands_offset, n_players) {
            Some(v) => v,
            None => {
                proof {
                    assert(fits_bound >= pow(ho, n_players as nat)) by (nonlinear_arith)
                        requires
                            fits_bound == pow(ho, n_players as nat) * (so + ho),
                            pow(ho, n_players as nat) >= 0,
                            so >= 1,
                            ho >= 1,
                    ;
                }
                return Err(ValueError);
            },
        };
        match ppow.checked_mul(sum) {
            Some(_) => {},
            None => {
                return Err(ValueError);
            },
        }
        Ok(
            Chopsticks {
                n_players,
                n_hands,
                rollover,
                initial_rollover,
                split_offset,
                hands_offset,
            },
        )
    }

    /// Sets the number of players; errors if zero or if the numbering would
    /// no longer fit. On error the configuration is unchanged.
    pub fn with_n_players(&mut self, n_players: usize) -> (res: Result<(), ValueError>)
        requires
            config_wf(old(self)@),
        ensures
            config_wf(final(self)@),
            match res {
                Ok(()) => config_fits(
                    n_players,
                    old(self)@.n_hands,
                    old(self)@.rollover,
                    old(self)@.initial_rollover,
                ) && final(self)@ == (ConfigV {
                    n_players,
                    split_offset: (derived_split_offset(n_players, old(self)@.n_hands) as u128),
                    hands_offset: old(self)@.hands_offset,
                    ..old(self)@
                }),
                Err(_) => !config_fits(
                    n_players,
                    old(self)@.n_hands,
                    old(self)@.rollover,
                    old(self)@.initial_rollover,
                ) && final(self)@ == old(self)@,
            },
    {
        match Self::new(n_players, self.n_hands, self.rollover, self.initial_rollover) {
            Ok(c) => {
                *self = c;
                Ok(())
            },
            Err(e) => Err(e),
        }
    }

    /// Sets the number of hands per player; errors if zero or if the
    /// numbering would no longer fit. On error the configuration is
    /// unchanged.
    pub fn with_n_hands(&mut self, n_hands: usize) -> (res: Result<(), ValueError>)
        requires
            config_wf(old(self)@),
        ensures
            config_wf(final(self)@),
            match res {
                Ok(()) => config_fits(
                    old(self)@.n_players,
                    n_hands,
                    old(self)@.rollover,
                    old(self)@.initial_rollover,
                ) && final(self)@ == (ConfigV {
                    n_hands,
                    split_offset: (derived_split_offset(old(self)@.n_players, n_hands) as u128),
                    hands_offset: (derived_hands_offset(old(self)@.rollover, n_hands) as u128),
                    ..old(self)@
                }),
                Err(_) => !config_fits(
                    old(self)@.n_players,
                    n_hands,
                    old(self)@.rollover,
                    old(self)@.initial_rollover,
                ) && final(self)@ == old(self)@,
            },
    {
        match Self::new(self.n_players, n_hands, self.rollover, self.initial_rollover) {
            Ok(c) => {
                *self = c;
                Ok(())
            },
            Err(e) => Err(e),
        }
    }

    /// Sets the rollover; errors if it is not above the initial finger
    /// count or if the numbering would no longer fit. On error the
    /// configuration is unchanged.
    pub fn with_rollover(&mut self, rollover: u32) -> (res: Result<(), ValueError>)
        requires
            config_wf(old(self)@),
        ensures
            config_wf(final(self)@),
            match res {
                Ok(()) => config_fits(
                    old(self)@.n_players,
                    old(self)@.n_hands,
                    rollover,
                    old(self)@.initial_rollover,
                ) && final(self)@ == (ConfigV {
                    rollover,
                    hands_offset: (derived_hands_offset(rollover, old(self)@.n_hands) as u128),
                    ..old(self)@
                }),
                Err(_) => !config_fits(
                    old(self)@.n_players,
                    old(self)@.n_hands,
                    rollover,
                    old(self)@.initial_rollover,
                ) && final(self)@ == old(self)@,
            },
    {
        match Self::new(self.n_players, self.n_hands, rollover, self.initial_rollover) {
            Ok(c) => {
                *self = c;
                Ok(())
            },
            Err(e) => Err(e),
        }
    }

    /// Sets the initial finger count; errors if zero, if it is not below
    /// the rollover, or if the numbering would no longer fit. On error the
    /// configuration is unchanged.
    pub fn with_initial_rollover(&mut self, initial_rollover: u32) -> (res: Result<
        (),
        ValueError,
    >)
        requires
            config_wf(old(self)@),
        ensures
            config_wf(final(self)@),
            match res {
                Ok(()) => config_fits(
                    old(self)@.n_players,
                    old(self)@.n_hands,
                    old(self)@.rollover,
                    initial_rollover,
                ) && final(self)@ == (ConfigV { initial_rollover, ..old(self)@ }),
                Err(_) => !config_fits(
                    old(self)@.n_players,
                    old(self)@.n_hands,
                    old(self)@.rollover,
                    initial_rollover,
                ) && final(self)@ == old(self)@,
            },
    {
        match Self::new(self.n_players, self.n_hands, self.rollover, initial_rollover) {
            Ok(c) => {
                *self = c;
                Ok(())
            },
            Err(e) => Err(e),
        }
    }

    /// Initializes a `ChopsticksState` for this configuration: every player
    /// starts with every hand at the initial finger count.
    pub fn build(&self) -> (r: ChopsticksState)
        requires
            config_wf(self@),
        ensures
            r@ == (StateV {
                players: initial_roster(self@),
                n_hands: self@.n_hands,
                rollover: self@.rollover,
            }),
            r.wf(),
    {
        let mut ps: Vec<Player> = Vec::new();
        let mut id: usize = 0;
        while id < self.n_players
            invariant
                0 <= id <= self@.n_players,
                ps@.len() == id,
                forall|k: int|
                    0 <= k < id ==> #[trigger] ps@[k]@ == (PlayerV {
                        id: k as usize,
                        hands: Seq::new(self@.n_hands as nat, |j: int| self@.initial_rollover),
                    }),
            decreases self@.n_players - id,
        {
            let mut hands: Vec<u32> = Vec::new();
            let mut j: usize = 0;
            while j < self.n_hands
                invariant
                    0 <= j <= self@.n_hands,
                    hands@.len() == j,
                    forall|t: int| 0 <= t < j ==> hands@[t] == self@.initial_rollover,
                decreases self@.n_hands - j,
            {
                hands.push(self.initial_rollover);
                j = j + 1;
            }
            proof {
                assert(hands@ =~= Seq::new(self@.n_hands as nat, |t: int| self@.initial_rollover));
            }
            ps.push(Player { id, hands });
            id = id + 1;
        }
        let r = ChopsticksState { players: ps, n_hands: self.n_hands, rollover: self.rollover };
        proof {
            assert(r@.players =~~= initial_roster(self@));
            assert forall|k: int| 0 <= k < r@.players.len() implies crate::chopsticks_state::player_wf(
                #[trigger] r@.players[k],
                r@.n_hands,
                r@.rollover,
            ) by {
                assert(r@.players[k].hands[0] == self@.initial_rollover);
            }
        }
        r
    }

    /// Encodes a hand array as a base-`rollover` numeral, most significant
    /// hand first.
    fn serialize_hands(&self, hands: &Vec<u32>) -> (r: u128)
        requires
            config_wf(self@),
            hands@.len() == self@.n_hands,
            hands_below(hands@, self@.rollover),
        ensures
            r == hands_code(hands@, self@.rollover),
            r < self@.hands_offset,
    {
        proof {
            lemma_config_bounds(self@);
            lemma_pow0(self@.rollover as int);
            assert(hands@.subrange(0, 0) =~= Seq::<u32>::empty());
        }
        let mut acc: u128 = 0;
        let mut k: usize = 0;
        while k < hands.len()
            invariant
                config_wf(self@),
                hands@.len() == self@.n_hands,
                hands_below(hands@, self@.rollover),
                0 <= k <= hands@.len(),
                acc == hands_code(hands@.subrange(0, k as int), self@.rollover),
                acc < pow(self@.rollover as int, k as nat),
            decreases hands@.len() - k,
        {
            proof {
                lemma_pow_adds(self@.rollover as int, k as nat, 1);
                lemma_pow1(self@.rollover as int);
                lemma_pow_positive(self@.rollover as int, k as nat);
                lemma_pow_increases(self@.rollover as nat, (k + 1) as nat, self@.n_hands as nat);
                assert(0 <= acc * self@.rollover + hands@[k as int] < pow(
                    self@.rollover as int,
                    (k + 1) as nat,
                )) by (nonlinear_arith)
                    requires
                        0 <= acc <= pow(self@.rollover as int, k as nat) - 1,
                        0 <= (hands@[k as int] as int) < self@.rollover,
                        self@.rollover >= 1,
                        pow(self@.rollover as int, k as nat) >= 1,
                        pow(self@.rollover as int, (k + 1) as nat) == pow(
                            self@.rollover as int,
                            k as nat,
                        ) * self@.rollover,
                ;
                assert(hands@.subrange(0, k + 1).drop_last() =~= hands@.subrange(0, k as int));
                assert(hands@.subrange(0, k + 1).last() == hands@[k as int]);
            }
            acc = acc * (self.rollover as u128) + (hands[k] as u128);
            k = k + 1;
        }
        proof {
            assert(hands@.subrange(0, hands@.len() as int) =~= hands@);
        }
        acc
    }

    /// Encodes an action as a dense serial: attacks occupy
    /// `[0, split_offset)` and splits `[split_offset, split_offset +
    /// hands_offset)`.
    pub fn serialize_action(&self, action: &Action) -> (r: u128)
        requires
            config_wf(self@),
            action_in_range(self@, action@),
        ensures
            r == action_code(self@, action@),
    {
        proof {
            lemma_config_bounds(self@);
        }
        match action {
            Action::Attack { i, a, b } => {
                proof {
                    let np = self@.n_players as int;
                    let nh = self@.n_hands as int;
                    let ii = *i as int;
                    let aa = *a as int;
                    let bb = *b as int;
                    assert(0 <= ii * nh && ii * nh + aa < np * nh && 0 <= (ii * nh + aa) * nh && (
                    ii * nh + aa) * nh + bb < np * nh * nh && np * nh <= np * nh * nh)
                        by (nonlinear_arith)
                        requires
                            0 <= ii < np,
                            0 <= aa < nh,
                            0 <= bb < nh,
                            nh >= 1,
                            np >= 1,
                    ;
                }
                let nh = self.n_hands as u128;
                ((*i as u128) * nh + (*a as u128)) * nh + (*b as u128)
            },
            Action::Split { new_hands } => {
                let hc = self.serialize_hands(new_hands);
                self.split_offset + hc
            },
        }
    }

    /// Decodes a hand array: `n` digits in base `rollover`.
    fn deserialize_hands(&self, serial: u128, n: usize) -> (r: Vec<u32>)
        requires
            config_wf(self@),
        ensures
            r@ == hands_decode(serial as int, self@.rollover, n as nat),
        decreases n,
    {
        if n == 0 {
            let r: Vec<u32> = Vec::new();
            proof {
                assert(r@ =~= hands_decode(serial as int, self@.rollover, 0));
            }
            r
        } else {
            let mut v = self.deserialize_hands(serial / (self.rollover as u128), n - 1);
            v.push((serial % (self.rollover as u128)) as u32);
            v
        }
    }

    /// Decodes an action serial, reversing `serialize_action` exactly.
    pub fn deserialize_action(&self, serial: u128) -> (r: Action)
        requires
            config_wf(self@),
            serial < self@.split_offset + self@.hands_offset,
        ensures
            r@ == action_decode(self@, serial as int),
    {
        proof {
            lemma_config_bounds(self@);
        }
        if serial < self.split_offset {
            let nh = self.n_hands as u128;
            proof {
                let np = self@.n_players as int;
                let nhi = self@.n_hands as int;
                assert(nhi * nhi <= np * nhi * nhi && nhi <= np * nhi * nhi && 0 <= nhi * nhi)
                    by (nonlinear_arith)
                    requires
                        np >= 1,
                        nhi >= 1,
                ;
                vstd::arithmetic::div_mod::lemma_mod_division_less_than_divisor(
                    serial as int,
                    nhi,
                );
                vstd::arithmetic::div_mod::lemma_mod_division_less_than_divisor(
                    (serial as int) / nhi,
                    nhi,
                );
                assert((serial as int) < (nhi * nhi) * np) by (nonlinear_arith)
                    requires
                        (serial as int) < np * nhi * nhi,
                ;
                vstd::arithmetic::div_mod::lemma_multiply_divide_lt(serial as int, nhi * nhi, np);
                vstd::arithmetic::div_mod::lemma_div_pos_is_pos(serial as int, nhi);
                vstd::arithmetic::div_mod::lemma_div_pos_is_pos(serial as int, nhi * nhi);
            }
            let b = (serial % nh) as usize;
            let a = ((serial / nh) % nh) as usize;
            let i = (serial / (nh * nh)) as usize;
            Action::Attack { i, a, b }
        } else {
            let hv = self.deserialize_hands(serial - self.split_offset, self.n_hands);
            Action::Split { new_hands: hv }
        }
    }

    /// Encodes a position: each player's hand-array code folded through the
    /// per-player base, shifted past the action space.
    pub fn serialize_state(&self, state: &ChopsticksState) -> (r: u128)
        requires
            config_wf(self@),
            crate::chopsticks_state::state_wf(state@),
            state@.n_hands == self@.n_hands,
            state@.rollover == self@.rollover,
            state@.players.len() <= self@.n_players,
        ensures
            r == state_code(self@, state@),
    {
        proof {
            lemma_config_bounds(self@);
            lemma_pow0(self@.hands_offset as int);
            assert(roster_hands(state@.players.subrange(0, 0)) =~= Seq::<Seq<u32>>::empty());
        }
        let mut acc: u128 = 0;
        let mut k: usize = 0;
        while k < state.players.len()
            invariant
                config_wf(self@),
                crate::chopsticks_state::state_wf(state@),
                state@.n_hands == self@.n_hands,
                state@.rollover == self@.rollover,
                state@.players.len() <= self@.n_players,
                0 <= k <= state@.players.len(),
                acc == roster_code(roster_hands(state@.players.subrange(0, k as int)), self@),
                acc < pow(self@.hands_offset as int, k as nat),
            decreases state@.players.len() - k,
        {
            proof {
                assert(crate::chopsticks_state::player_wf(
                    state@.players[k as int],
                    state@.n_hands,
                    state@.rollover,
                ));
            }
            let hc = self.serialize_hands(&state.players[k].hands);
            proof {
                lemma_config_bounds(self@);
                lemma_pow_adds(self@.hands_offset as int, k as nat, 1);
                lemma_pow1(self@.hands_offset as int);
                lemma_pow_positive(self@.hands_offset as int, k as nat);
                lemma_pow_increases(
                    self@.hands_offset as nat,
                    (k + 1) as nat,
                    self@.n_players as nat,
                );
                assert(pow(self@.hands_offset as int, self@.n_players as nat)
                    <= u128::MAX) by (nonlinear_arith)
                    requires
                        pow(self@.hands_offset as int, self@.n_players as nat) * (
                        self@.split_offset + self@.hands_offset) <= u128::MAX,
                        self@.split_offset + self@.hands_offset >= 1,
                        pow(self@.hands_offset as int, self@.n_players as nat) >= 1,
                ;
                assert(0 <= acc * self@.hands_offset + hc < pow(
                    self@.hands_offset as int,
                    (k + 1) as nat,
                )) by (nonlinear_arith)
                    requires
                        0 <= acc <= pow(self@.hands_offset as int, k as nat) - 1,
                        0 <= (hc as int) < self@.hands_offset,
                        self@.hands_offset >= 1,
                        pow(self@.hands_offset as int, k as nat) >= 1,
                        pow(self@.hands_offset as int, (k + 1) as nat) == pow(
                            self@.hands_offset as int,
                            k as nat,
                        ) * self@.hands_offset,
                ;
                let pre = state@.players.subrange(0, k + 1);
                assert(pre.drop_last() =~= state@.players.subrange(0, k as int));
                assert(roster_hands(pre).drop_last() =~= roster_hands(pre.drop_last()));
                assert(roster_hands(pre).last() == pre.last().hands);
            }
            acc = acc * self.hands_offset + hc;
            k = k + 1;
        }
        proof {
            assert(state@.players.subrange(0, state@.players.len() as int) =~= state@.players);
            lemma_pow_increases(
                self@.hands_offset as nat,
                state@.players.len() as nat,
                self@.n_players as nat,
            );
            assert(acc * (self@.split_offset + self@.hands_offset) <= u128::MAX)
                by (nonlinear_arith)
                requires
                    0 <= acc <= pow(self@.hands_offset as int, self@.n_players as nat) - 1,
                    pow(self@.hands_offset as int, self@.n_players as nat) * (self@.split_offset
                        + self@.hands_offset) <= u128::MAX,
                    self@.split_offset + self@.hands_offset >= 1,
            ;
        }
        acc * (self.split_offset + self.hands_offset)
    }

    /// Decodes a position serial into `count` hand arrays, reversing
    /// `serialize_state`.
    pub fn deserialize_state(&self, serial: u128, count: usize) -> (r: Vec<Vec<u32>>)
        requires
            config_wf(self@),
        ensures
            r@.map_values(|v: Vec<u32>| v@) == state_decode(self@, serial as int, count as nat),
    {
        proof {
            lemma_config_bounds(self@);
        }
        let folded = serial / (self.split_offset + self.hands_offset);
        let r = self.deserialize_roster(folded, count);
        proof {
            assert(r@.map_values(|v: Vec<u32>| v@) == state_decode(
                self@,
                serial as int,
                count as nat,
            ));
        }
        r
    }

    /// Decodes `n` hand arrays from a folded roster serial.
    fn deserialize_roster(&self, serial: u128, n: usize) -> (r: Vec<Vec<u32>>)
        requires
            config_wf(self@),
        ensures
            r@.map_values(|v: Vec<u32>| v@) == roster_decode(serial as int, self@, n as nat),
        decreases n,
    {
        proof {
            lemma_config_bounds(self@);
        }
        if n == 0 {
            let r: Vec<Vec<u32>> = Vec::new();
            proof {
                assert(r@.map_values(|v: Vec<u32>| v@) =~= roster_decode(serial as int, self@, 0));
            }
            r
        } else {
            let mut v = self.deserialize_roster(serial / self.hands_offset, n - 1);
            let h = self.deserialize_hands(serial % self.hands_offset, self.n_hands);
            v.push(h);
            proof {
                assert(v@.map_values(|w: Vec<u32>| w@) =~= roster_decode(
                    serial as int,
                    self@,
                    n as nat,
                ));
            }
            v
        }
    }
}

/// The starting roster: players numbered from zero, every hand at the
/// initial finger count.
pub open spec fn initial_roster(c: ConfigV) -> Seq<PlayerV> {
    Seq::new(
        c.n_players as nat,
        |k: int|
            PlayerV {
                id: k as usize,
                hands: Seq::new(c.n_hands as nat, |j: int| c.initial_rollover),
            },
    )
}

impl Default for Chopsticks {
    /// The standard configuration: two players, two hands, rollover five,
    /// one initial finger.
    fn default() -> (r: Chopsticks)
        ensures
            r@ == (ConfigV {
                n_players: 2,
                n_hands: 2,
                rollover: 5,
                initial_rollover: 1,
                split_offset: 8,
                hands_offset: 25,
            }),
            config_wf(r@),
    {
        let r = Chopsticks {
            n_players: 2,
            n_hands: 2,
            rollover: 5,
            initial_rollover: 1,
            split_offset: 8,
            hands_offset: 25,
        };
        proof {
            lemma_default_config_fits();
        }
        r
    }
}

/// The standard configuration fits comfortably in the serial width.
proof fn lemma_default_config_fits()
    ensures
        config_wf(
            ConfigV {
                n_players: 2,
                n_hands: 2,
                rollover: 5,
                initial_rollover: 1,
                split_offset: 8,
                hands_offset: 25,
            },
        ),
{
    lemma_pow_adds(5, 1, 1);
    lemma_pow1(5);
    assert(pow(5, 2) == 25);
    lemma_pow_adds(25, 1, 1);
    lemma_pow1(25);
    assert(pow(25, 2) == 625);
    assert(derived_hands_offset(5, 2) == 25);
    assert(derived_split_offset(2, 2) == 8);
    assert(pow(derived_hands_offset(5, 2), 2) == 625);
    assert(config_fits(2, 2, 5, 1));
}

/// Bounds that every well-formed configuration provides.
pub proof fn lemma_config_bounds(c: ConfigV)
    requires
        config_wf(c),
    ensures
        c.hands_offset >= 1,
        c.split_offset >= 1,
        pow(c.hands_offset as int, c.n_players as nat) >= 1,
        c.split_offset + c.hands_offset <= u128::MAX,
        pow(c.hands_offset as int, c.n_players as nat) * (c.split_offset + c.hands_offset)
            <= u128::MAX,
{
    lemma_pow_positive(c.rollover as int, c.n_hands as nat);
    lemma_pow_positive(c.hands_offset as int, c.n_players as nat);
    assert(c.split_offset >= 1) by (nonlinear_arith)
        requires
            c.split_offset == c.n_players * c.n_hands * c.n_hands,
            c.n_players >= 1,
            c.n_hands >= 1,
    ;
    assert(pow(c.hands_offset as int, c.n_players as nat) * (c.split_offset + c.hands_offset)
        >= c.split_offset + c.hands_offset) by (nonlinear_arith)
        requires
            pow(c.hands_offset as int, c.n_players as nat) >= 1,
            c.split_offset + c.hands_offset >= 0,
    ;
}

/// The base-`rollover` numeral of a hand array, most significant hand
/// first.
pub open spec fn hands_code(h: Seq<u32>, rollover: u32) -> int
    decreases h.len(),
{
    if h.len() == 0 {
        0
    } else {
        hands_code(h.drop_last(), rollover) * rollover + h.last()
    }
}

/// The hand array encoded by a serial: `n` digits in base `rollover`.
pub open spec fn hands_decode(s: int, rollover: u32, n: nat) -> Seq<u32>
    decreases n,
{
    if n == 0 {
        Seq::<u32>::empty()
    } else {
        hands_decode(s / (rollover as int), rollover, (n - 1) as nat).push(
            ((s % (rollover as int)) as u32),
        )
    }
}

/// A hand array's code lies below `rollover` to the power of its length.
pub proof fn lemma_hands_code_bound(h: Seq<u32>, rollover: u32)
    requires
        hands_below(h, rollover),
        rollover >= 1,
    ensures
        0 <= hands_code(h, rollover) < pow(rollover as int, h.len() as nat),
    decreases h.len(),
{
    if h.len() == 0 {
        lemma_pow0(rollover as int);
    } else {
        let hd = h.drop_last();
        lemma_hands_code_bound(hd, rollover);
        lemma_pow_adds(rollover as int, (h.len() - 1) as nat, 1);
        lemma_pow1(rollover as int);
        lemma_pow_positive(rollover as int, (h.len() - 1) as nat);
        let p1 = pow(rollover as int, (h.len() - 1) as nat);
        assert(0 <= hands_code(hd, rollover) * rollover + h.last() < p1 * rollover)
            by (nonlinear_arith)
            requires
                0 <= hands_code(hd, rollover) <= p1 - 1,
                0 <= (h.last() as int) < rollover,
                rollover >= 1,
                p1 >= 1,
        ;
    }
}

/// Bijection over hand arrays: decoding inverts encoding for every hand
/// array whose values lie in `[0, rollover)`.
pub proof fn lemma_hands_round_trip(h: Seq<u32>, rollover: u32)
    requires
        hands_below(h, rollover),
        rollover >= 1,
    ensures
        hands_decode(hands_code(h, rollover), rollover, h.len() as nat) == h,
    decreases h.len(),
{
    if h.len() == 0 {
        assert(hands_decode(hands_code(h, rollover), rollover, 0) =~= h);
    } else {
        let hd = h.drop_last();
        let c0 = hands_code(hd, rollover);
        let code = c0 * rollover + h.last();
        lemma_hands_code_bound(hd, rollover);
        vstd::arithmetic::div_mod::lemma_fundamental_div_mod_converse(
            code,
            rollover as int,
            c0,
            h.last() as int,
        );
        lemma_hands_round_trip(hd, rollover);
        assert(hands_decode(code, rollover, h.len() as nat) =~= hd.push(h.last()));
        assert(hd.push(h.last()) =~= h);
    }
}

/// Every serial below `rollover` to the power `n` decodes to an `n`-length
/// hand array that encodes back to the same serial.
pub proof fn lemma_hands_decode_props(s: int, rollover: u32, n: nat)
    requires
        0 <= s < pow(rollover as int, n),
        rollover >= 1,
    ensures
        hands_decode(s, rollover, n).len() == n,
        hands_below(hands_decode(s, rollover, n), rollover),
        hands_code(hands_decode(s, rollover, n), rollover) == s,
    decreases n,
{
    if n == 0 {
        lemma_pow0(rollover as int);
    } else {
        let r = rollover as int;
        let q = s / r;
        let m = s % r;
        vstd::arithmetic::div_mod::lemma_fundamental_div_mod(s, r);
        vstd::arithmetic::div_mod::lemma_mod_division_less_than_divisor(s, r);
        vstd::arithmetic::div_mod::lemma_div_pos_is_pos(s, r);
        lemma_pow_adds(r, (n - 1) as nat, 1);
        lemma_pow1(r);
        vstd::arithmetic::div_mod::lemma_multiply_divide_lt(s, r, pow(r, (n - 1) as nat));
        assert(s < r * pow(r, (n - 1) as nat)) by (nonlinear_arith)
            requires
                s < pow(r, n),
                pow(r, n) == pow(r, (n - 1) as nat) * r,
        ;
        lemma_hands_decode_props(q, rollover, (n - 1) as nat);
        let h = hands_decode(s, rollover, n);
        assert(h == hands_decode(q, rollover, (n - 1) as nat).push((m as u32)));
        assert(h.drop_last() =~= hands_decode(q, rollover, (n - 1) as nat));
        assert(hands_code(h, rollover) == q * r + m);
        assert(q * r + m == s) by (nonlinear_arith)
            requires
                s == r * q + m,
        ;
    }
}

/// Whether an action lies in the encodable domain of a configuration.
pub open spec fn action_in_range(c: ConfigV, act: ActionV) -> bool {
    match act {
        ActionV::Attack { i, a, b } => i < c.n_players && a < c.n_hands
            && b < c.n_hands,
        ActionV::Split { new_hands } => new_hands.len() == c.n_hands
            && hands_below(new_hands, c.rollover),
    }
}

/// The serial of an action: attacks occupy `[0, split_offset)`, splits
/// occupy `[split_offset, split_offset + hands_offset)`.
pub open spec fn action_code(c: ConfigV, act: ActionV) -> int {
    match act {
        ActionV::Attack { i, a, b } => (i * c.n_hands + a) * c.n_hands
            + b,
        ActionV::Split { new_hands } => c.split_offset + hands_code(
            new_hands,
            c.rollover,
        ),
    }
}

/// The action encoded by a serial: the variant is chosen by comparing the
/// serial against the attack base, then the arithmetic is reversed exactly.
pub open spec fn action_decode(c: ConfigV, s: int) -> crate::chopsticks_state::ActionV {
    if s < c.split_offset {
        ActionV::Attack {
            i: ((s / ((c.n_hands * c.n_hands) as int)) as usize),
            a: (((s / (c.n_hands as int)) % (c.n_hands as int)) as usize),
            b: ((s % (c.n_hands as int)) as usize),
        }
    } else {
        ActionV::Split {
            new_hands: hands_decode((s - c.split_offset) as int, c.rollover, c.n_hands as nat),
        }
    }
}

/// Bijection over actions: decoding inverts encoding for every action in
/// the encodable domain.
pub proof fn lemma_action_round_trip(c: ConfigV, act: ActionV)
    requires
        config_wf(c),
        action_in_range(c, act),
    ensures
        action_decode(c, action_code(c, act)) == act,
{
    lemma_config_bounds(c);
    match act {
        ActionV::Attack { i, a, b } => {
            let np = c.n_players as int;
            let nh = c.n_hands as int;
            let ii = i as int;
            let aa = a as int;
            let bb = b as int;
            let code = (ii * nh + aa) * nh + bb;
            assert(code == ii * (nh * nh) + (aa * nh + bb) && 0 <= aa * nh + bb < nh * nh && 0
                <= code < np * nh * nh && 0 <= ii * nh + aa) by (nonlinear_arith)
                requires
                    0 <= ii < np,
                    0 <= aa < nh,
                    0 <= bb < nh,
                    nh >= 1,
                    code == (ii * nh + aa) * nh + bb,
            ;
            vstd::arithmetic::div_mod::lemma_fundamental_div_mod_converse(
                code,
                nh * nh,
                ii,
                aa * nh + bb,
            );
            vstd::arithmetic::div_mod::lemma_fundamental_div_mod_converse(
                code,
                nh,
                ii * nh + aa,
                bb,
            );
            vstd::arithmetic::div_mod::lemma_fundamental_div_mod_converse(
                ii * nh + aa,
                nh,
                ii,
                aa,
            );
            assert(code < c.split_offset);
            assert(action_decode(c, code) == act);
        },
        ActionV::Split { new_hands } => {
            lemma_hands_code_bound(new_hands, c.rollover);
            lemma_hands_round_trip(new_hands, c.rollover);
            let code = c.split_offset + hands_code(new_hands, c.rollover);
            assert(!(code < c.split_offset));
            assert(code - c.split_offset == hands_code(new_hands, c.rollover));
        },
    }
}

/// The position serial of a roster of hand arrays: each array's code is
/// folded through the per-player base, then the whole is shifted past the
/// action space.
pub open spec fn roster_code(hs: Seq<Seq<u32>>, c: ConfigV) -> int
    decreases hs.len(),
{
    if hs.len() == 0 {
        0
    } else {
        roster_code(hs.drop_last(), c) * c.hands_offset + hands_code(hs.last(), c.rollover)
    }
}

/// The hand arrays of a roster, in rotation order.
pub open spec fn roster_hands(ps: Seq<PlayerV>) -> Seq<Seq<u32>> {
    ps.map_values(|p: PlayerV| p.hands)
}

/// The position serial of a state.
pub open spec fn state_code(c: ConfigV, s: StateV) -> int {
    roster_code(roster_hands(s.players), c) * (c.split_offset + c.hands_offset)
}

/// The `n` hand arrays encoded by a folded roster serial.
pub open spec fn roster_decode(s: int, c: ConfigV, n: nat) -> Seq<Seq<u32>>
    decreases n,
{
    if n == 0 {
        Seq::<Seq<u32>>::empty()
    } else {
        roster_decode(s / (c.hands_offset as int), c, (n - 1) as nat).push(
            hands_decode(s % (c.hands_offset as int), c.rollover, c.n_hands as nat),
        )
    }
}

/// The `count` hand arrays encoded by a position serial.
pub open spec fn state_decode(c: ConfigV, s: int, count: nat) -> Seq<Seq<u32>> {
    roster_decode(s / ((c.split_offset + c.hands_offset) as int), c, count)
}

/// A roster code is non-negative and bounded by the per-player base to the
/// power of the roster size.
pub proof fn lemma_roster_code_bound(hs: Seq<Seq<u32>>, c: ConfigV)
    requires
        config_wf(c),
        forall|k: int|
            0 <= k < hs.len() ==> (#[trigger] hs[k]).len() == c.n_hands && hands_below(
                hs[k],
                c.rollover,
            ),
    ensures
        0 <= roster_code(hs, c) < pow(c.hands_offset as int, hs.len() as nat),
    decreases hs.len(),
{
    lemma_config_bounds(c);
    if hs.len() == 0 {
        lemma_pow0(c.hands_offset as int);
    } else {
        let hd = hs.drop_last();
        lemma_roster_code_bound(hd, c);
        lemma_hands_code_bound(hs.last(), c.rollover);
        lemma_pow_adds(c.hands_offset as int, (hs.len() - 1) as nat, 1);
        lemma_pow1(c.hands_offset as int);
        lemma_pow_positive(c.hands_offset as int, (hs.len() - 1) as nat);
        let p1 = pow(c.hands_offset as int, (hs.len() - 1) as nat);
        assert(0 <= roster_code(hd, c) * c.hands_offset + hands_code(hs.last(), c.rollover) < p1
            * c.hands_offset) by (nonlinear_arith)
            requires
                0 <= roster_code(hd, c) <= p1 - 1,
                0 <= hands_code(hs.last(), c.rollover) < c.hands_offset,
                c.hands_offset >= 1,
                p1 >= 1,
        ;
    }
}

/// Bijection over folded rosters: decoding inverts encoding for every
/// roster of well-formed hand arrays.
proof fn lemma_roster_round_trip(hs: Seq<Seq<u32>>, c: ConfigV)
    requires
        config_wf(c),
        forall|k: int|
            0 <= k < hs.len() ==> (#[trigger] hs[k]).len() == c.n_hands && hands_below(
                hs[k],
                c.rollover,
            ),
    ensures
        roster_decode(roster_code(hs, c), c, hs.len() as nat) == hs,
    decreases hs.len(),
{
    lemma_config_bounds(c);
    if hs.len() == 0 {
        assert(roster_decode(roster_code(hs, c), c, 0) =~= hs);
    } else {
        let hd = hs.drop_last();
        let rc0 = roster_code(hd, c);
        let hc = hands_code(hs.last(), c.rollover);
        lemma_roster_code_bound(hd, c);
        lemma_hands_code_bound(hs.last(), c.rollover);
        let code = rc0 * c.hands_offset + hc;
        vstd::arithmetic::div_mod::lemma_fundamental_div_mod_converse(
            code,
            c.hands_offset as int,
            rc0,
            hc,
        );
        lemma_roster_round_trip(hd, c);
        lemma_hands_round_trip(hs.last(), c.rollover);
        assert(roster_decode(code, c, hs.len() as nat) =~= hd.push(hs.last()));
        assert(hd.push(hs.last()) =~= hs);
    }
}

/// Bijection over positions: decoding a position serial recovers every
/// player's hand array, in roster order.
pub proof fn lemma_state_round_trip(c: ConfigV, s: StateV)
    requires
        config_wf(c),
        forall|k: int|
            0 <= k < s.players.len() ==> (#[trigger] s.players[k]).hands.len() == c.n_hands
                && hands_below(s.players[k].hands, c.rollover),
    ensures
        state_decode(c, state_code(c, s), s.players.len() as nat) == roster_hands(s.players),
{
    lemma_config_bounds(c);
    let hs = roster_hands(s.players);
    assert(forall|k: int|
        0 <= k < hs.len() ==> (#[trigger] hs[k]).len() == c.n_hands && hands_below(
            hs[k],
            c.rollover,
        ));
    let rc = roster_code(hs, c);
    lemma_roster_code_bound(hs, c);
    vstd::arithmetic::div_mod::lemma_fundamental_div_mod_converse(
        rc * ((c.split_offset + c.hands_offset) as int),
        (c.split_offset + c.hands_offset) as int,
        rc,
        0,
    );
    lemma_roster_round_trip(hs, c);
}

} // verus!
