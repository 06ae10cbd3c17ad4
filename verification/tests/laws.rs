use piece_hasher::fr32::{pad, unpad};
use piece_hasher::hasher::PieceHasher;
use piece_hasher::piece::Piece;
use piece_hasher::util::required_width;
use piece_hasher::zero_comm::{from_level, ZeroComm};

fn sample(size: usize) -> Vec<u8> {
    let mut bytes = Vec::with_capacity(size);
    let mut state: u32 = 0x2545_f491;
    for _ in 0..size {
        state = state.wrapping_mul(1_664_525).wrapping_add(1_013_904_223);
        bytes.push((state >> 24) as u8);
    }
    bytes
}

fn digest_of(chunks: &[&[u8]]) -> Vec<u8> {
    let mut hasher = PieceHasher::new();
    for chunk in chunks {
        hasher.write(chunk).unwrap();
    }
    hasher.finalize().to_vec()
}

#[test]
fn unpad_undoes_pad() {
    for quads in [1usize, 2, 4, 8] {
        let source = sample(127 * quads);
        let mut padded = vec![0xffu8; 128 * quads];
        assert_eq!(pad(&source, &mut padded), Ok(127 * quads));
        let mut back = vec![0u8; 127 * quads];
        assert_eq!(unpad(&padded, &mut back), Ok(127 * quads));
        assert_eq!(back, source);
    }
}

#[test]
fn pad_undoes_unpad() {
    let mut padded = sample(256);
    for slot in 0..8 {
        padded[32 * slot + 31] &= 0x3f;
    }
    let mut payload = vec![0u8; 254];
    assert_eq!(unpad(&padded, &mut payload), Ok(254));
    let mut again = vec![0u8; 256];
    assert_eq!(pad(&payload, &mut again), Ok(254));
    assert_eq!(again, padded);
}

#[test]
fn padded_slots_are_field_elements() {
    let source = vec![0xffu8; 254];
    let mut padded = vec![0u8; 256];
    pad(&source, &mut padded).unwrap();
    for slot in 0..8 {
        assert_eq!(padded[32 * slot + 31] & 0xc0, 0);
    }
}

#[test]
fn zero_commitment_does_not_depend_on_what_was_asked_before() {
    let mut fresh = ZeroComm::new();
    let third = fresh.slice(3 * 32, 4 * 32).to_vec();

    let mut filled = ZeroComm::new();
    let fifth = filled.slice(5 * 32, 6 * 32).to_vec();
    let third_after = filled.slice(3 * 32, 4 * 32).to_vec();
    let fifth_again = filled.slice(5 * 32, 6 * 32).to_vec();

    assert_eq!(third, third_after);
    assert_eq!(fifth, fifth_again);
    assert_ne!(third, fifth);
    assert_eq!(from_level(3).unwrap().0.to_vec(), third);
    assert_eq!(from_level(5), from_level(5));
}

#[test]
fn zero_commitment_is_the_parent_of_the_level_below() {
    for level in 1..20 {
        let below = from_level(level - 1).unwrap();
        assert_eq!(from_level(level).unwrap(), below.join(&below));
    }
}

#[test]
fn chunks_do_not_matter() {
    let payload = sample(127 * 5 + 40);
    let whole = digest_of(&[&payload]);

    let mut bytewise = PieceHasher::new();
    for byte in payload.iter() {
        bytewise.write(&[*byte]).unwrap();
    }
    assert_eq!(bytewise.finalize(), &whole[..]);

    for cut in [0usize, 1, 126, 127, 128, 253, 254, 255, 381, 635, 674, 675] {
        let (first, second) = payload.split_at(cut);
        assert_eq!(digest_of(&[first, second]), whole);
    }

    let quads: Vec<&[u8]> = payload.chunks(127).collect();
    assert_eq!(digest_of(&quads), whole);
}

#[test]
fn a_full_buffer_is_hashed_with_what_comes_next() {
    let payload = sample(254);
    let whole = digest_of(&[&payload]);
    assert_eq!(digest_of(&[&payload[..127], &payload[127..]]), whole);
    assert_eq!(digest_of(&[&payload[..1], &payload[1..]]), whole);
    assert_eq!(whole[0], 0);
    assert_eq!(whole[1], 3);
}

#[test]
fn height_never_falls_and_is_the_logarithm_of_the_width() {
    let mut hasher = PieceHasher::new();
    let mut last = 0u8;
    let chunk = sample(50);
    for _ in 0..200 {
        let digest = hasher.finalize().to_vec();
        let height = digest[digest.len() - 33];
        assert!(height >= last);
        assert_eq!(1u64 << height, required_width(hasher.count()));
        last = height;
        hasher.write(&chunk).unwrap();
    }
    assert_eq!(last, 9);
}

#[test]
fn height_of_a_seeded_hasher_is_the_logarithm_of_the_width() {
    let mut hasher = PieceHasher::from_piece(&Piece::new(6));
    let chunk = sample(127);
    let mut last = 0u8;
    for _ in 0..40 {
        let digest = hasher.finalize().to_vec();
        let height = digest[digest.len() - 33];
        assert!(height >= last);
        assert_eq!(1u64 << height, required_width(hasher.count()));
        last = height;
        hasher.write(&chunk).unwrap();
    }
    assert_eq!(last, 8);
}

#[test]
fn zero_piece_agrees_with_zero_payload() {
    for height in 2..12usize {
        let mut seeded = PieceHasher::from_piece(&Piece::new(height));
        let zeros = vec![0u8; (1usize << height) * 32 / 128 * 127];
        let mut written = PieceHasher::from_bytes(&zeros);
        assert_eq!(seeded.count(), zeros.len() as u64);
        assert_eq!(seeded.finalize(), written.finalize());
        let digest = seeded.finalize().to_vec();
        assert_eq!(digest[0], 0);
        assert_eq!(digest[1] as usize, height);
        assert_eq!(digest[2..], from_level(height).unwrap().0);
    }
}

#[test]
fn finalize_leaves_the_hasher_as_it_was() {
    let payload = sample(1000);
    let mut hasher = PieceHasher::new();
    hasher.write(&payload[..300]).unwrap();
    let first = hasher.finalize().to_vec();
    assert_eq!(hasher.finalize(), &first[..]);
    assert_eq!(first, digest_of(&[&payload[..300]]));
    hasher.write(&payload[300..]).unwrap();
    assert_eq!(hasher.finalize(), &digest_of(&[&payload])[..]);
    assert_eq!(hasher.count(), 1000);
}
