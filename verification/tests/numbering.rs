use chopsticks::chopsticks::Chopsticks;
use chopsticks::chopsticks_state::Action;

#[test]
fn attack_serial_value() {
    let config = Chopsticks::default();
    // ((i * n_hands) + a) * n_hands + b with n_hands = 2
    let serial = config.serialize_action(&Action::Attack { i: 1, a: 0, b: 1 });
    assert_eq!(serial, 5);
}

#[test]
fn split_serial_value() {
    let config = Chopsticks::default();
    // split codes start past the attack base 2 * 2 * 2 = 8; [1, 1] encodes
    // as 1 * 5 + 1 = 6 in base five
    let serial = config.serialize_action(&Action::Split {
        new_hands: vec![1, 1],
    });
    assert_eq!(serial, 14);
}

#[test]
fn attack_serial_round_trip() {
    let config = Chopsticks::default();
    let serial = config.serialize_action(&Action::Attack { i: 1, a: 1, b: 0 });
    let back = config.deserialize_action(serial);
    assert!(matches!(back, Action::Attack { i: 1, a: 1, b: 0 }));
}

#[test]
fn split_serial_round_trip() {
    let config = Chopsticks::default();
    let serial = config.serialize_action(&Action::Split {
        new_hands: vec![2, 3],
    });
    let back = config.deserialize_action(serial);
    match back {
        Action::Split { new_hands } => assert_eq!(new_hands, vec![2, 3]),
        Action::Attack { .. } => panic!("expected a split"),
    }
}

#[test]
fn state_serial_round_trip() {
    let config = Chopsticks::default();
    let mut state = config.build();
    assert!(state.attack(1, 0, 0).is_ok());
    let serial = config.serialize_state(&state);
    let hands = config.deserialize_state(serial, 2);
    assert_eq!(hands, vec![vec![1, 2], vec![1, 1]]);
}

#[test]
fn initial_state_serial() {
    let config = Chopsticks::default();
    let state = config.build();
    // hands [1,1] encode as 6; fold: 6 * 25 + 6 = 156; shift by the action
    // space 8 + 25 = 33
    assert_eq!(config.serialize_state(&state), 156 * 33);
}

#[test]
fn builder_rejects_bad_values() {
    let mut config = Chopsticks::default();
    assert!(config.with_n_players(0).is_err());
    assert!(config.with_n_hands(0).is_err());
    assert!(config.with_rollover(0).is_err());
    assert!(config.with_rollover(1).is_err());
    assert!(config.with_initial_rollover(0).is_err());
    assert!(config.with_initial_rollover(5).is_err());
    // an untouched configuration still builds the standard game
    assert_eq!(config.build().abbreviation(), "1111");
}

#[test]
fn builder_rejects_overflowing_numbering() {
    let mut config = Chopsticks::default();
    // 5^200 does not fit the serial width
    assert!(config.with_n_hands(200).is_err());
}

#[test]
fn builder_reconfigures() {
    let mut config = Chopsticks::default();
    assert!(config.with_n_players(3).is_ok());
    assert!(config.with_rollover(7).is_ok());
    assert!(config.with_initial_rollover(2).is_ok());
    let state = config.build();
    assert_eq!(state.abbreviation(), "222222");
    assert_eq!(state.players.len(), 3);
    assert_eq!(state.rollover, 7);
}
