use chopsticks::state::{Action, Player, State};
use chopsticks::status::Status;

#[test]
fn mod_two_players() {
    assert_eq!(
        State::new(2, 5, 1),
        State {
            i: 0,
            players: vec![
                Player {
                    hands: vec![1, 1],
                },
                Player {
                    hands: vec![1, 1],
                },
            ],
            rollover: 5,
            initial_fingers: 1,
        }
    );
}

#[test]
fn mod_attack_invalid_index() {
    let mut game_state = State::new(2, 5, 1);
    assert!(game_state.play_attack(0, 0, 0, 0).is_err());
    assert!(game_state.play_attack(0, 1, 2, 0).is_err());
    assert!(game_state.play_attack(0, 1, 0, 2).is_err());
    assert!(game_state.play_attack(0, 2, 0, 0).is_err());
}

#[test]
fn mod_attacker_is_zero() {
    let mut game_state = State::new(2, 5, 1);
    game_state.players[0].hands[0] = 0;
    assert!(game_state.play_attack(0, 1, 0, 0).is_err());
}

#[test]
fn mod_defender_is_zero() {
    let mut game_state = State::new(2, 5, 1);
    game_state.players[1].hands[0] = 0;
    assert!(game_state.play_attack(0, 1, 0, 0).is_err());
}

#[test]
fn mod_attack_with_one() {
    let mut game_state = State::new(2, 5, 1);
    assert!(game_state.play_attack(0, 1, 0, 0).is_ok());
    assert_eq!(game_state.i, 1);
    assert_eq!(game_state.players[1].hands[0], 2);
}

#[test]
fn mod_attack_with_four() {
    let mut game_state = State::new(2, 5, 1);
    game_state.players[0].hands[1] = 4;
    assert!(game_state.play_attack(0, 1, 1, 1).is_ok());
    assert_eq!(game_state.i, 1);
    assert_eq!(game_state.players[1].hands[1], 0);
}

#[test]
fn mod_split_with_zero() {
    let mut game_state = State::new(2, 5, 1);
    assert!(game_state.play_split(0, vec![1, 1], vec![0, 2]).is_err());
    assert!(game_state.play_split(0, vec![1, 1], vec![2, 0]).is_err());
}

#[test]
fn mod_split_with_five() {
    let mut game_state = State::new(2, 5, 1);
    game_state.players[0].hands = vec![4, 4];
    assert!(game_state.play_split(0, vec![4, 4], vec![5, 3]).is_err());
    assert!(game_state.play_split(0, vec![4, 4], vec![3, 5]).is_err());
}

#[test]
fn mod_split_invalid_total() {
    let mut game_state = State::new(2, 5, 1);
    assert!(game_state.play_split(0, vec![1, 1], vec![1, 2]).is_err());
}

#[test]
fn mod_split_no_update() {
    let mut game_state = State::new(2, 5, 1);
    game_state.players[0].hands[1] = 2;
    assert!(game_state.play_split(0, vec![1, 2], vec![1, 2]).is_err());
    assert!(game_state.play_split(0, vec![1, 2], vec![2, 1]).is_err());
}

#[test]
fn mod_valid_splits() {
    let mut game_state = State::new(2, 5, 1);
    for (a, b, c, d) in [
        // Divisions
        (0, 2, 1, 1),
        (0, 3, 1, 2),
        (0, 4, 1, 3),
        (0, 4, 2, 2),
        // Transfers
        (1, 3, 2, 2),
        (2, 2, 1, 3),
        (1, 4, 2, 3),
        (2, 3, 1, 4),
        (2, 4, 3, 3),
        (3, 3, 2, 4),
    ] {
        game_state.players[0].hands[0] = a;
        game_state.players[0].hands[1] = b;
        assert!(game_state.play_split(0, vec![a, b], vec![c, d]).is_ok());
        assert_eq!(game_state.players[0].hands[0], c);
        assert_eq!(game_state.players[0].hands[1], d);
    }
}

#[test]
fn mod_no_winner_id() {
    let game_state = State::new(2, 5, 1);
    assert!(matches!(game_state.get_status(), Status::Turn { i: 0 }));
}

#[test]
fn mod_short_game() {
    let mut game_state = State::new(2, 5, 1); // 1111
    assert!(game_state.play_attack(0, 1, 0, 1).is_ok()); // 1112
    assert!(game_state.play_attack(1, 0, 1, 1).is_ok()); // 1312
    assert!(game_state.play_attack(0, 1, 1, 1).is_ok()); // 1310
    assert!(game_state.play_attack(1, 0, 0, 1).is_ok()); // 1410
    assert!(game_state.play_attack(0, 1, 1, 0).is_ok()); // 1400
    assert!(matches!(game_state.get_status(), Status::Over { i: 0 }));
}

#[test]
fn get_split_i() {
    let i = 0;
    let action = Action::Split {
        i,
        hands_0: vec![0, 0],
        hands_1: vec![0, 0],
    };
    assert_eq!(action.get_i(), i);
}

#[test]
fn get_attack_i() {
    let i = 0;
    let action = Action::Attack { i, j: 0, a: 0, b: 0 };
    assert_eq!(action.get_i(), i);
}
