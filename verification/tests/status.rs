use chopsticks::status::Status;

#[test]
fn get_turn_i() {
    let i = 0;
    let status = Status::Turn { i };
    assert_eq!(status.get_i(), i);
}

#[test]
fn get_over_i() {
    let i = 0;
    let status = Status::Over { i };
    assert_eq!(status.get_i(), i);
}
