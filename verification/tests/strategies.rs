use chopsticks::chopsticks::Chopsticks;
use chopsticks::controller::Controller;
use chopsticks::game::{Game, MultiPlayer, MultiStrategy, SinglePlayer, SingleStrategy};
use chopsticks::pure_monte_carlo::PureMonteCarlo;
use chopsticks::random::Random;

#[test]
fn attack_enumeration_covers_every_pair() {
    let state = Chopsticks::default().build();
    let attacks = state.iter_attack_actions();
    // one opponent, two live hands each way
    assert_eq!(attacks.len(), 4);
    for action in &attacks {
        match action {
            chopsticks::chopsticks_state::Action::Attack { i, a, b } => {
                assert_eq!(*i, 1);
                assert!(*a < 2 && *b < 2);
            }
            chopsticks::chopsticks_state::Action::Split { .. } => {
                panic!("expected only attacks")
            }
        }
    }
}

#[test]
fn split_enumeration_prunes_degenerate_moves() {
    let mut state = Chopsticks::default().build();
    // total below the rollover: the pruning lower bound leaves nothing
    assert!(state.iter_split_actions().is_empty());
    state.players[0].hands = vec![3, 4];
    // total 7: candidates 3..=3, so one split [3, 4] equal to the current
    // hands is pruned away
    assert!(state.iter_split_actions().is_empty());
    state.players[0].hands = vec![2, 4];
    // total 6: candidates 2..=3, [2, 4] pruned, [3, 3] kept
    let splits = state.iter_split_actions();
    assert_eq!(splits.len(), 1);
}

#[test]
fn every_enumerated_action_succeeds() {
    let mut state = Chopsticks::default().build();
    state.players[0].hands = vec![2, 4];
    let actions = state.iter_actions();
    assert!(!actions.is_empty());
    for action in actions {
        let mut probe = state.clone();
        assert!(probe.apply_action(action).is_ok());
    }
}

#[test]
fn random_actions_are_legal() {
    let state = Chopsticks::default().build();
    let mut random = Random;
    for _ in 0..25 {
        let action = random.get_action(&state);
        let mut probe = state.clone();
        assert!(probe.apply_action(action).is_ok());
    }
}

#[test]
fn monte_carlo_actions_are_legal() {
    let state = Chopsticks::default().build();
    let mut mc = PureMonteCarlo::new(4);
    let action = mc.get_action(&state);
    let mut probe = state.clone();
    assert!(probe.apply_action(action).is_ok());
}

#[test]
fn random_games_terminate_or_cycle() {
    // the uniform-random policy always reaches a verdict for the standard
    // configuration: a winner or the known cycle
    for _ in 0..10 {
        let mut game = SinglePlayer::new(Chopsticks::default().build(), Random);
        let ranks = game.get_rankings();
        assert_eq!(ranks.len(), 2);
        assert!(ranks.iter().all(|&r| r == 1 || r == 2));
    }
}

#[test]
fn rankings_of_decided_game() {
    let mut state = Chopsticks::default().build();
    // leave player 1 with a single live finger and give player 0 four, so
    // any legal move by player 0 includes a winning attack; drive with the
    // rollout strategy until the game resolves
    state.players[0].hands = vec![1, 4];
    state.players[1].hands = vec![0, 1];
    let mut game = SingleStrategy::new(state, Random);
    let ranks = game.get_rankings();
    assert_eq!(ranks.len(), 2);
    if game.state.players.len() == 1 {
        let winner = game.state.players[0].id;
        assert_eq!(ranks[winner], 1);
    }
}

#[test]
fn multi_strategy_plays_a_turn() {
    let state = Chopsticks::default().build();
    let mut game = MultiStrategy::new(state, vec![Random, Random]);
    let action = game.get_action().expect("game is on");
    assert!(game.play_action(&action).is_ok());
    assert_eq!(game.history.len(), 1);
}

#[test]
fn multi_player_plays_a_turn() {
    let state = Chopsticks::default().build();
    let mut game = MultiPlayer::new(state, vec![PureMonteCarlo::new(2), PureMonteCarlo::new(2)]);
    let action = game.get_action().expect("game is on");
    assert!(game.play_action(&action).is_ok());
    assert_eq!(game.get_state().players.len(), 2);
}

#[test]
fn multi_strategy_rankings() {
    let state = Chopsticks::default().build();
    let mut game = MultiStrategy::new(state, vec![Random, Random]);
    let ranks = game.get_rankings();
    assert_eq!(ranks.len(), 2);
    assert!(ranks.iter().all(|&r| r == 1 || r == 2));
    assert!(!game.history.is_empty());
}

#[test]
fn multi_player_rankings() {
    let state = Chopsticks::default().build();
    let mut game = MultiPlayer::new(state, vec![Random, Random]);
    let ranks = game.get_rankings();
    assert_eq!(ranks.len(), 2);
    if game.state.players.len() == 1 {
        assert_eq!(ranks[game.state.players[0].id], 1);
    }
}

#[test]
fn rankings_leave_decided_games_untouched() {
    let mut state = Chopsticks::default().build();
    state.players.remove(1);
    let mut game = SinglePlayer::new(state, Random);
    let ranks = game.get_rankings();
    // a game already over is left untouched: no action recorded, every
    // rank at the sentinel
    assert!(game.history.is_empty());
    assert_eq!(game.state.players.len(), 1);
    assert_eq!(ranks, vec![1]);
}

#[test]
fn enumeration_order_is_fixed() {
    let mut config = Chopsticks::default();
    assert!(config.with_rollover(6).is_ok());
    let mut state = config.build();
    state.players[0].hands = vec![2, 4];
    let actions = state.iter_actions();
    // attacks come first; the splits that follow have increasing left
    // values ([1, 5] before [3, 3] here)
    let mut seen_split = false;
    let mut split_count = 0;
    let mut last_left = 0u32;
    for action in &actions {
        match action {
            chopsticks::chopsticks_state::Action::Attack { .. } => assert!(!seen_split),
            chopsticks::chopsticks_state::Action::Split { new_hands } => {
                if seen_split {
                    assert!(new_hands[0] > last_left);
                }
                seen_split = true;
                split_count += 1;
                last_left = new_hands[0];
            }
        }
    }
    assert_eq!(split_count, 2);
}

#[test]
fn game_over_yields_no_action() {
    let mut state = Chopsticks::default().build();
    state.players.remove(1);
    let mut game = SinglePlayer::new(state, Random);
    assert!(game.get_action().is_none());
}
