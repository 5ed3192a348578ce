use game_of_life::Vector;

#[test]
fn should_add() {
    let a = Vector::new(1, 2);
    let b = Vector::new(3, 4);
    assert_eq!(Vector::new(4, 6), a + b);
}

#[test]
fn should_add_with_reference() {
    let a = Vector::new(1, 2);
    let b = &Vector::new(3, 4);
    assert_eq!(Vector::new(4, 6), a + b);
}

#[test]
fn should_add_with_both_references() {
    let a = &Vector::new(1, 2);
    let b = &Vector::new(3, 4);
    assert_eq!(Vector::new(4, 6), a + b);
}

#[test]
fn should_add_negative_components() {
    let a = Vector::new(-3, 7);
    let b = Vector::new(2, -10);
    assert_eq!(Vector::new(-1, -3), a + b);
}
