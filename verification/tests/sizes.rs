use piece_hasher::fr32;
use piece_hasher::util::{required_width, required_zero_padding, varint_estimate};

#[test]
fn test_to_zero_padded_size() {
    assert_eq!(fr32::to_zero_padded_size(0), 127);
    assert_eq!(fr32::to_zero_padded_size(64), 127);
    assert_eq!(fr32::to_zero_padded_size(127), 127);
    assert_eq!(fr32::to_zero_padded_size(128), 254);
}

#[test]
fn test_varint_estimate() {
    assert_eq!(varint_estimate(0_u64), 1);
    assert_eq!(varint_estimate(1_u64), 1);
    assert_eq!(varint_estimate(2_u64.pow(7) - 1), 1);
    assert_eq!(varint_estimate(2_u64.pow(7)), 2);
    assert_eq!(varint_estimate(2_u64.pow(8)), 2);
    assert_eq!(varint_estimate(2_u64.pow(13)), 2);
    assert_eq!(varint_estimate(2_u64.pow(14)), 3);
    assert_eq!(varint_estimate(2_u64.pow(21) - 1), 3);
    assert_eq!(varint_estimate(2_u64.pow(21)), 4);
    assert_eq!(varint_estimate(2_u64.pow(28)) - 1, 4);
    assert_eq!(varint_estimate(2_u64.pow(28)), 5);
    assert_eq!(varint_estimate(2_u64.pow(35)) - 1, 5);
    assert_eq!(varint_estimate(2_u64.pow(35)), 6);
    assert_eq!(varint_estimate(2_u64.pow(42)) - 1, 6);
    assert_eq!(varint_estimate(2_u64.pow(42)), 7);
    assert_eq!(varint_estimate(2_u64.pow(49)) - 1, 7);
    assert_eq!(varint_estimate(2_u64.pow(49)), 8);

    assert_eq!(varint_estimate(2_u64.pow(56)) - 1, 8);
    assert_eq!(varint_estimate(2_u64.pow(56)), 9);

    assert_eq!(varint_estimate(2_u64.pow(63)) - 1, 9);
    assert_eq!(varint_estimate(2_u64.pow(63)), 10);
}

#[test]
fn test_padding() {
    assert_eq!(required_width(128), 8);
    assert_eq!(required_width(127 * 4 + 1), 8 * 4);
    assert_eq!(required_zero_padding(0), 127);
    assert_eq!(required_zero_padding(1), 126);
    assert_eq!(required_zero_padding(5), 122);
    assert_eq!(required_zero_padding(11), 116);
    assert_eq!(required_zero_padding(127), 0);
    assert_eq!(required_zero_padding(128), 127 - 1);
    assert_eq!(required_zero_padding(127 * 2 - 1), 1);
    assert_eq!(required_zero_padding(127 * 2), 0);
    assert_eq!(required_zero_padding(127 * 2 + 1), 127 * 2 - 1);
    assert_eq!(required_zero_padding(127 * 3), 127);
    assert_eq!(required_zero_padding(127 * 4), 0);
    assert_eq!(required_zero_padding(127 * 4 + 10), 127 * 8 - 127 * 4 - 10);
    assert_eq!(required_zero_padding(128 * 4), 504);
}
