use chopsticks::chopsticks::Chopsticks;
use chopsticks::chopsticks_state::{ChopsticksState, Player};

#[test]
fn chopsticks_state_two_players() {
    assert_eq!(
        Chopsticks::default().build(),
        ChopsticksState {
            players: vec![
                Player {
                    id: 0,
                    hands: vec![1; 2],
                },
                Player {
                    id: 1,
                    hands: vec![1; 2],
                },
            ],
            n_hands: 2,
            rollover: 5,
        }
    );
}

#[test]
fn chopsticks_state_attack_invalid_index() {
    let mut game_state = Chopsticks::default().build();
    assert!(game_state.attack(0, 0, 0).is_err());
    assert!(game_state.attack(1, 2, 0).is_err());
    assert!(game_state.attack(1, 0, 2).is_err());
    assert!(game_state.attack(2, 0, 0).is_err());
}

#[test]
fn chopsticks_state_attacker_is_zero() {
    let mut game_state = Chopsticks::default().build();
    game_state.players[0].hands[0] = 0;
    assert!(game_state.attack(1, 0, 0).is_err());
}

#[test]
fn chopsticks_state_defender_is_zero() {
    let mut game_state = Chopsticks::default().build();
    game_state.players[1].hands[0] = 0;
    assert!(game_state.attack(1, 0, 0).is_err());
}

#[test]
fn chopsticks_state_attack_with_one() {
    let mut game_state = Chopsticks::default().build();
    assert!(game_state.attack(1, 0, 0).is_ok());
    assert_eq!(game_state.players[0].id, 1);
    assert_eq!(game_state.players[0].hands[1], 2);
}

#[test]
fn chopsticks_state_attack_with_four() {
    let mut game_state = Chopsticks::default().build();
    game_state.players[0].hands[1] = 4;
    assert!(game_state.attack(1, 1, 1).is_ok());
    assert_eq!(game_state.players[0].id, 1);
    assert_eq!(game_state.players[0].hands[0], 0);
}

#[test]
fn chopsticks_state_split_with_zero() {
    let mut game_state = Chopsticks::default().build();
    assert!(game_state.split(vec![0, 2]).is_err());
    assert!(game_state.split(vec![2, 0]).is_err());
}

#[test]
fn chopsticks_state_split_with_five() {
    let mut game_state = Chopsticks::default().build();
    game_state.players[0].hands = vec![4; 2];
    assert!(game_state.split(vec![5, 3]).is_err());
    assert!(game_state.split(vec![3, 5]).is_err());
}

#[test]
fn chopsticks_state_split_invalid_total() {
    let mut game_state = Chopsticks::default().build();
    assert!(game_state.split(vec![1, 2]).is_err());
}

#[test]
fn chopsticks_state_split_no_update() {
    let mut game_state = Chopsticks::default().build();
    game_state.players[0].hands[1] = 1;
    assert!(game_state.split(vec![1, 2]).is_err());
    assert!(game_state.split(vec![2, 1]).is_err());
}

#[test]
fn chopsticks_state_valid_splits() {
    let mut game_state = Chopsticks::default().build();
    for (a, b, c, d) in [
        // Divisions
        (0, 2, 1, 1),
        (0, 3, 1, 2),
        (0, 4, 1, 3),
        (0, 4, 2, 2),
        // Transfers
        (1, 3, 2, 2),
        (2, 2, 1, 3),
        (1, 4, 2, 3),
        (2, 3, 1, 4),
        (2, 4, 3, 3),
        (3, 3, 2, 4),
    ] {
        game_state.players[0].hands[0] = a;
        game_state.players[0].hands[1] = b;
        assert!(game_state.split(vec![c, d]).is_ok());
        assert_eq!(game_state.players[1].hands[0], c);
        assert_eq!(game_state.players[1].hands[1], d);
    }
}

#[test]
fn chopsticks_state_no_winner_id() {
    let game_state = Chopsticks::default().build();
    assert_eq!(game_state.winner_id(), None);
}

#[test]
fn chopsticks_state_short_game() {
    let mut game_state = Chopsticks::default().build(); // 1111
    assert!(game_state.attack(1, 0, 1).is_ok()); // 1211
    assert!(game_state.attack(1, 1, 1).is_ok()); // 1312
    assert!(game_state.attack(1, 1, 1).is_ok()); // 0113
    assert!(game_state.attack(1, 1, 1).is_ok()); // 1401
    assert!(game_state.attack(1, 1, 1).is_ok()); // one player left
    assert_eq!(game_state.winner_id(), Some(0));
}
