use piece_hasher::error::Error;
use piece_hasher::fr32::{from_piece_size, pad, pad_quad, to_piece_size, to_zero_padded_size, unpad};
use piece_hasher::hasher::{PieceHasher, CODE, MAX_PAYLOAD_SIZE};
use piece_hasher::link::Cid;
use piece_hasher::multihash::Multihash;
use piece_hasher::piece::Piece;
use piece_hasher::tree::{compute_node, empty_node, truncate, truncated_hash, MerkleTreeNode};
use piece_hasher::util::{ceil_power_of_two, from_height, required_width, required_zero_padding};
use piece_hasher::zero_comm::from_level;

const SHA256_OF_64_ZEROS: [u8; 32] = [
    245, 165, 253, 66, 209, 106, 32, 48, 39, 152, 239, 110, 211, 9, 151, 155, 67, 0, 61, 35, 32,
    217, 240, 232, 234, 152, 49, 169, 39, 89, 251, 75,
];

#[test]
fn truncated_hash_is_sha256_without_its_top_two_bits() {
    let mut expected = SHA256_OF_64_ZEROS;
    expected[31] = 75 & 0x3f;
    assert_eq!(truncated_hash(&[0u8; 64]), expected);
    assert_eq!(MerkleTreeNode::new(&[0u8; 64]).0, expected);
    assert_eq!(compute_node(&empty_node(), &MerkleTreeNode::empty()).0, expected);
    assert_eq!(from_level(1).unwrap().0, expected);
}

#[test]
fn truncate_clears_the_top_two_bits_of_the_last_byte() {
    let mut node = [0xffu8; 32];
    truncate(&mut node);
    let mut expected = [0xffu8; 32];
    expected[31] = 0x3f;
    assert_eq!(node, expected);
    assert_eq!(MerkleTreeNode::from(node), MerkleTreeNode(expected));
}

#[test]
fn pad_quad_shifts_each_slot_two_bits_further() {
    let mut quad = [0u8; 127];
    for (i, byte) in quad.iter_mut().enumerate() {
        *byte = 0xff - i as u8;
    }
    let padded = pad_quad(&quad, 0);
    assert_eq!(padded[0], 0xff);
    assert_eq!(padded[30], quad[30]);
    assert_eq!(padded[31], quad[31] & 0x3f);
    assert_eq!(padded[32], (quad[32] << 2) | (quad[31] >> 6));
    assert_eq!(padded[63], ((quad[63] << 2) | (quad[62] >> 6)) & 0x3f);
    assert_eq!(padded[64], (quad[64] << 4) | (quad[63] >> 4));
    assert_eq!(padded[95], ((quad[95] << 4) | (quad[94] >> 4)) & 0x3f);
    assert_eq!(padded[96], (quad[96] << 6) | (quad[95] >> 2));
    assert_eq!(padded[126], (quad[126] << 6) | (quad[125] >> 2));
    assert_eq!(padded[127], quad[126] >> 2);
    assert_eq!(padded[32], 0x7f);
    assert_eq!(padded[127], 0x20);
}

#[test]
fn pad_of_ones_is_ones_but_for_the_two_bits_of_each_slot() {
    let source = [0xffu8; 127];
    let mut output = [0xaau8; 130];
    assert_eq!(pad(&source, &mut output), Ok(127));
    for (i, byte) in output.iter().enumerate() {
        let expected = if i >= 128 {
            0xaa
        } else if i % 32 == 31 {
            0x3f
        } else {
            0xff
        };
        assert_eq!(*byte, expected);
    }
}

#[test]
fn unpad_takes_whole_quads_and_counts_all_bytes() {
    let padded = [0u8; 200];
    let mut out = [7u8; 130];
    assert_eq!(unpad(&padded, &mut out), Ok(200 * 254 / 256));
    assert_eq!(out[..127], [0u8; 127]);
    assert_eq!(out[127..], [7u8; 3]);

    let mut untouched = [7u8; 4];
    assert_eq!(unpad(&padded[..100], &mut untouched), Ok(99));
    assert_eq!(untouched, [7u8; 4]);
}

#[test]
fn sizes_follow_the_ratio_of_254_to_256() {
    assert_eq!(to_zero_padded_size(65), 127);
    assert_eq!(to_zero_padded_size(255), 508);
    assert_eq!(to_zero_padded_size(127 * 8), 127 * 8);
    assert_eq!(to_zero_padded_size(127 * 8 + 1), 127 * 16);
    assert_eq!(to_piece_size(0), 128);
    assert_eq!(to_piece_size(127), 128);
    assert_eq!(to_piece_size(128), 256);
    assert_eq!(to_piece_size(127 * 4), 512);
    assert_eq!(from_piece_size(128), 127);
    assert_eq!(from_piece_size(256), 254);
    assert_eq!(from_piece_size(100), 99);
    assert_eq!(from_piece_size(u64::MAX), u64::MAX / 128 * 127 + 126);
}

#[test]
fn widths_and_heights_are_powers_of_two() {
    assert_eq!(ceil_power_of_two(0), 1);
    assert_eq!(ceil_power_of_two(1), 1);
    assert_eq!(ceil_power_of_two(3), 4);
    assert_eq!(ceil_power_of_two(4), 4);
    assert_eq!(ceil_power_of_two(5), 8);
    assert_eq!(ceil_power_of_two(1 << 63), 1 << 63);
    assert_eq!(from_height(0), 32);
    assert_eq!(from_height(2), 128);
    assert_eq!(from_height(30), 1 << 35);
    assert_eq!(from_height(58), 1 << 63);
    assert_eq!(required_width(0), 4);
    assert_eq!(required_width(127), 4);
    assert_eq!(required_width(127 * 2), 8);
    assert_eq!(required_width(127 * 2 + 1), 16);
    assert_eq!(required_width(u64::MAX), 1 << 60);
    assert_eq!(required_zero_padding(127 * (1 << 57)), 0);
    assert_eq!(required_zero_padding(127 * (1 << 56) + 1), 127 * (1 << 56) - 1);
}

#[test]
fn piece_holds_what_it_was_given() {
    let mut piece = Piece::new(30);
    assert_eq!(piece.height(), 30);
    assert_eq!(piece.root(), from_level(30).unwrap());
    assert_eq!(piece.padding_size(), 0);
    assert_eq!(piece.size(), 1 << 35);
    assert_eq!(piece.payload_size(), (1 << 28) * 127);

    let root = MerkleTreeNode([9u8; 32]);
    piece.with_root(root).with_padding_size(100);
    assert_eq!(piece.root(), root);
    assert_eq!(piece.padding_size(), 100);
    assert_eq!(piece.payload_size(), (1 << 28) * 127 - 100);
    assert_eq!(piece.height(), 30);
}

#[test]
fn seeded_hasher_counts_payload_and_padding() {
    let mut piece = Piece::new(4);
    piece.with_root(MerkleTreeNode([1u8; 32])).with_padding_size(27);
    let mut hasher = PieceHasher::from_piece(&piece);
    assert_eq!(hasher.count(), 508);
    let digest = hasher.finalize().to_vec();
    assert_eq!(digest[0], 0);
    assert_eq!(digest[1], 4);
    assert_eq!(digest[2..], [1u8; 32]);

    hasher.write(&[0u8; 127]).unwrap();
    assert_eq!(hasher.count(), 635);
    let digest = hasher.finalize().to_vec();
    assert_eq!(digest[..2], [253, 2]);
    assert_eq!(digest[2], 5);
    let sibling = from_level(2)
        .unwrap()
        .join(&from_level(2).unwrap())
        .join(&from_level(3).unwrap());
    assert_eq!(
        digest[3..],
        MerkleTreeNode([1u8; 32]).join(&sibling).0
    );
}

#[test]
fn write_past_the_largest_payload_is_refused() {
    let mut hasher = PieceHasher::from_piece(&Piece::new(52));
    assert!(hasher.count() > MAX_PAYLOAD_SIZE);
    let before = hasher.finalize().to_vec();
    assert_eq!(hasher.write(&[1]), Err(Error::PayloadTooLarge));
    assert_eq!(hasher.try_update(&[1, 2, 3]), Err(Error::PayloadTooLarge));
    assert_eq!(hasher.write(&[]), Ok(()));
    assert_eq!(hasher.count(), (1 << 50) * 127);
    assert_eq!(hasher.finalize(), &before[..]);

    let mut full = PieceHasher::from_piece(&Piece::new(50));
    assert_eq!(full.count(), MAX_PAYLOAD_SIZE);
    assert_eq!(full.write(&[1]), Err(Error::PayloadTooLarge));

    let mut room = PieceHasher::from_piece(&Piece::new(49));
    assert_eq!(room.write(&[1]), Ok(()));
}

#[test]
fn errors_say_what_went_wrong() {
    assert_eq!(from_level(64), Err(Error::ZeroCommitmentLevelOutOfRange));
    assert_eq!(from_level(usize::MAX), Err(Error::ZeroCommitmentLevelOutOfRange));
    assert!(from_level(63).is_ok());
    assert_eq!(Error::PayloadTooLarge.message(), "Payload size exceeded");
    assert_eq!(
        Error::ZeroCommitmentLevelOutOfRange.message(),
        "Only levels between 0 and 63 inclusive are available"
    );
}

#[test]
fn reset_forgets_everything() {
    let mut hasher = PieceHasher::from_bytes(&[5u8; 300]);
    assert_eq!(hasher.count(), 300);
    hasher.reset();
    assert_eq!(hasher.count(), 0);
    let mut fresh = PieceHasher::default();
    assert_eq!(hasher.finalize(), fresh.finalize());
    assert_eq!(PieceHasher::create().count(), 0);
}

#[test]
fn read_writes_at_the_offset_and_nowhere_else() {
    let mut hasher = PieceHasher::from_bytes(&[0u8; 128]);
    let digest = hasher.finalize().to_vec();

    let mut target = [0xeeu8; 50];
    let written = hasher.read(&mut target, Some(3), Some(false));
    assert_eq!(written, 34);
    assert_eq!(written, hasher.digest_size());
    assert_eq!(target[..3], [0xee; 3]);
    assert_eq!(target[3..37], digest[..]);
    assert_eq!(target[37..], [0xee; 13]);

    let mut target = [0xeeu8; 50];
    let written = hasher.read(&mut target, Some(10), Some(true));
    assert_eq!(written, 37);
    assert_eq!(written, hasher.multihash_size());
    assert_eq!(target[..10], [0xee; 10]);
    assert_eq!(target[10..13], [0x91, 0x20, 34]);
    assert_eq!(target[13..47], digest[..]);
    assert_eq!(target[47..], [0xee; 3]);
}

#[test]
fn padding_of_two_bytes_makes_the_digest_longer() {
    let mut hasher = PieceHasher::from_bytes(&[0u8; 127 * 2 + 1]);
    assert_eq!(hasher.digest_size(), 35);
    assert_eq!(hasher.multihash_size(), 38);
    let digest = hasher.finalize().to_vec();
    assert_eq!(digest[..3], [253, 1, 4]);
    assert_eq!(hasher.multihash().to_bytes()[..3], [0x91, 0x20, 35]);
}

#[test]
fn multihash_and_link_hold_what_they_wrap() {
    let hash = Multihash::wrap(0x12, &[1, 2, 3]);
    assert_eq!(hash.code(), 0x12);
    assert_eq!(hash.size(), 3);
    assert_eq!(hash.digest(), [1, 2, 3]);
    assert_eq!(hash.to_bytes(), [0x12, 3, 1, 2, 3]);
    assert_eq!(Multihash::wrap(CODE, &[]).to_bytes(), [0x91, 0x20, 0]);

    let link = Cid::new_v1(0x55, hash);
    assert_eq!(link.codec(), 0x55);
    assert_eq!(link.hash().digest(), [1, 2, 3]);
    assert_eq!(link.to_string(), "bafkreaybaibq");
}

#[test]
fn unpad_merges_the_bits_that_padding_left_clear() {
    let padded = [0xffu8; 128];
    let mut out = [0u8; 127];
    assert_eq!(unpad(&padded, &mut out), Ok(127));
    for (i, byte) in out.iter().enumerate() {
        let expected = match i {
            63 => 0xcf,
            95 => 0xf3,
            _ => 0xff,
        };
        assert_eq!(*byte, expected);
    }
}

#[test]
fn varint_of_the_padding_has_its_low_bits_first() {
    let mut hasher = PieceHasher::from_bytes(&[0u8; 128 * 4]);
    assert_eq!(required_zero_padding(hasher.count()), 504);
    assert_eq!(hasher.finalize()[..2], [0x80 | (504 % 128) as u8, (504 / 128) as u8]);
}
