use chopsticks::chopsticks::Chopsticks;
use chopsticks::chopsticks_state::{
    ActionError, AttackError, ChopsticksState, Player, SplitError,
};

#[test]
fn opening_attack() {
    let mut state = Chopsticks::default().build();
    assert_eq!(state.abbreviation(), "1111");
    assert!(state.attack(1, 0, 0).is_ok());
    assert_eq!(state.get_turn(), 1);
    assert_eq!(state.players[0].hands, vec![1, 2]);
}

#[test]
fn split_rejects_dead_hand() {
    let mut state = Chopsticks::default().build();
    assert!(matches!(
        state.split(vec![0, 2]),
        Err(SplitError::InvalidFingerValue)
    ));
    assert!(matches!(
        state.split(vec![2, 0]),
        Err(SplitError::InvalidFingerValue)
    ));
}

#[test]
fn split_rejects_changed_total() {
    let mut state = Chopsticks::default().build();
    assert!(matches!(
        state.split(vec![1, 2]),
        Err(SplitError::InvalidTotalRollover)
    ));
}

#[test]
fn attack_chain_to_win() {
    let mut state = Chopsticks::default().build();
    assert!(state.attack(1, 0, 1).is_ok());
    assert_eq!(state.abbreviation(), "1211");
    assert!(state.attack(1, 1, 1).is_ok());
    assert_eq!(state.abbreviation(), "1312");
    assert!(state.attack(1, 1, 1).is_ok());
    assert_eq!(state.abbreviation(), "0113");
    assert!(state.attack(1, 1, 1).is_ok());
    assert_eq!(state.abbreviation(), "1401");
    assert!(state.attack(1, 1, 1).is_ok());
    // the defender is eliminated the instant every hand dies, so only the
    // winner's hands remain in the fingerprint
    assert_eq!(state.abbreviation(), "14");
    assert_eq!(state.winner_id(), Some(0));
}

#[test]
fn attack_errors() {
    let mut state = Chopsticks::default().build();
    assert!(matches!(
        state.attack(0, 0, 0),
        Err(AttackError::PlayerIndexOutOfBounds)
    ));
    assert!(matches!(
        state.attack(2, 0, 0),
        Err(AttackError::PlayerIndexOutOfBounds)
    ));
    assert!(matches!(
        state.attack(1, 2, 0),
        Err(AttackError::HandIndexOutOfBounds)
    ));
    state.players[0].hands = vec![0, 1];
    assert!(matches!(
        state.attack(1, 0, 0),
        Err(AttackError::HandIsNotAlive)
    ));
}

#[test]
fn split_rejects_wrong_hand_count() {
    let mut state = Chopsticks::default().build();
    assert!(matches!(
        state.split(vec![1, 1, 1]),
        Err(SplitError::InvalidHandLen)
    ));
}

#[test]
fn split_rejects_no_change() {
    let mut state = Chopsticks::default().build();
    state.players[0].hands = vec![1, 2];
    assert!(matches!(
        state.split(vec![2, 1]),
        Err(SplitError::MoveWithoutChange)
    ));
}

#[test]
fn finished_game_rejects_actions() {
    let mut state = ChopsticksState {
        players: vec![Player {
            id: 0,
            hands: vec![1, 1],
        }],
        n_hands: 2,
        rollover: 5,
    };
    let res = state.apply_action(chopsticks::chopsticks_state::Action::Attack {
        i: 1,
        a: 0,
        b: 0,
    });
    assert!(matches!(res, Err(ActionError::GameIsOver)));
}

#[test]
fn loop_state_detection() {
    let state = ChopsticksState {
        players: vec![
            Player {
                id: 0,
                hands: vec![0, 1],
            },
            Player {
                id: 1,
                hands: vec![0, 2],
            },
        ],
        n_hands: 2,
        rollover: 5,
    };
    assert!(state.is_loop_state());
    let other = ChopsticksState {
        players: vec![
            Player {
                id: 1,
                hands: vec![0, 2],
            },
            Player {
                id: 0,
                hands: vec![0, 1],
            },
        ],
        n_hands: 2,
        rollover: 5,
    };
    assert!(other.is_loop_state());
    assert!(!Chopsticks::default().build().is_loop_state());
}

#[test]
fn multi_digit_abbreviation() {
    let state = ChopsticksState {
        players: vec![Player {
            id: 0,
            hands: vec![10, 11],
        }],
        n_hands: 2,
        rollover: 12,
    };
    assert_eq!(state.abbreviation(), "1011");
}
