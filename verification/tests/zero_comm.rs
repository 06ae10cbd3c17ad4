use piece_hasher::zero_comm::from_level;

#[test]
fn test_from_level_0() {
    let node = from_level(0);
    assert_eq!(node.unwrap().0, [0u8; 32]);
}

#[test]
fn test_too_large() {
    let node = from_level(64);
    assert_eq!(node.is_err(), true);
}
