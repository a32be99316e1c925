use chopsticks::state::{ActionError, SplitError, State};

#[test]
fn undo_attack_restores_position() {
    let mut game_state = State::new(2, 5, 1);
    assert!(game_state.play_attack(0, 1, 0, 0).is_ok());
    assert_eq!(game_state.i, 1);
    assert!(game_state.undo_attack(0, 1, 0, 0).is_ok());
    assert_eq!(game_state, State::new(2, 5, 1));
}

#[test]
fn undo_split_restores_position() {
    let mut game_state = State::new(2, 5, 1);
    game_state.players[0].hands = vec![1, 3];
    assert!(game_state.play_split(0, vec![1, 3], vec![2, 2]).is_ok());
    assert_eq!(game_state.players[0].hands, vec![2, 2]);
    assert!(game_state.undo_split(0, vec![1, 3], vec![2, 2]).is_ok());
    assert_eq!(game_state.players[0].hands, vec![1, 3]);
    assert_eq!(game_state.i, 0);
}

#[test]
fn undo_rejects_impossible_attack() {
    let mut game_state = State::new(2, 5, 1);
    // undoing an attack of one finger on a hand holding one would restore
    // a dead hand, which cannot have attacked
    assert!(game_state.undo_attack(0, 1, 0, 0).is_err());
}

#[test]
fn wrong_turn_is_rejected() {
    let mut game_state = State::new(2, 5, 1);
    let action = chopsticks::state::Action::Attack { i: 1, j: 0, a: 0, b: 0 };
    assert!(matches!(
        game_state.play_action(&action),
        Err(ActionError::WrongTurn)
    ));
}

#[test]
fn improper_context_is_rejected() {
    let mut game_state = State::new(2, 5, 1);
    assert!(matches!(
        game_state.play_split(0, vec![2, 2], vec![1, 3]),
        Err(SplitError::ImproperContext)
    ));
}

#[test]
fn fixed_roster_enumeration_succeeds() {
    let mut game_state = State::new(3, 5, 1);
    game_state.players[0].hands = vec![2, 4];
    let actions = game_state.iter_actions();
    assert!(!actions.is_empty());
    for action in actions {
        let mut probe = game_state.clone();
        assert!(probe.play_action(&action).is_ok());
    }
}

#[test]
fn fixed_roster_loop_state() {
    let mut game_state = State::new(2, 5, 1);
    game_state.players[0].hands = vec![1, 0];
    game_state.players[1].hands = vec![2, 0];
    assert!(game_state.is_loop_state());
    assert!(!State::new(2, 5, 1).is_loop_state());
}

#[test]
fn fixed_roster_abbreviation() {
    let game_state = State::new(3, 5, 1);
    assert_eq!(game_state.get_abbreviation(), "111111");
}

#[test]
fn eliminated_players_keep_their_seat() {
    let mut game_state = State::new(2, 5, 1);
    game_state.players[0].hands = vec![1, 4];
    game_state.players[1].hands = vec![0, 1];
    assert!(game_state.play_attack(0, 1, 1, 1).is_ok());
    assert_eq!(game_state.players[1].hands, vec![0, 0]);
    assert_eq!(game_state.iter_player_indexes(), vec![0]);
    assert!(matches!(
        game_state.get_status(),
        chopsticks::status::Status::Over { i: 0 }
    ));
}
