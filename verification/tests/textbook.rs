use piece_hasher::fr32::pad_quad;
use piece_hasher::hasher::PieceHasher;
use sha2::{Digest, Sha256};

fn sample(size: usize, seed: u32) -> Vec<u8> {
    let mut bytes = Vec::with_capacity(size);
    let mut state: u32 = seed;
    for _ in 0..size {
        state = state.wrapping_mul(1_664_525).wrapping_add(1_013_904_223);
        bytes.push((state >> 24) as u8);
    }
    bytes
}

fn parent(left: &[u8], right: &[u8]) -> Vec<u8> {
    let mut sha256 = Sha256::new();
    sha256.update(left);
    sha256.update(right);
    let mut node = sha256.finalize().to_vec();
    node[31] &= 0x3f;
    node
}

/// The digest worked out the long way: the payload is zero padded to a
/// power of two of quads, Fr32 padded, cut into field elements, and the
/// whole tree over them is built layer by layer.
fn by_the_book(payload: &[u8]) -> Vec<u8> {
    let mut quads = std::cmp::max(1, (payload.len() + 126) / 127);
    quads = quads.next_power_of_two();
    let mut padded = payload.to_vec();
    padded.resize(quads * 127, 0);

    let mut layer: Vec<Vec<u8>> = Vec::new();
    for quad in 0..quads {
        let block = pad_quad(&padded, quad * 127);
        for element in block.chunks(32) {
            layer.push(element.to_vec());
        }
    }
    let mut height = 0u8;
    while layer.len() > 1 {
        layer = layer.chunks(2).map(|pair| parent(&pair[0], &pair[1])).collect();
        height += 1;
    }

    let mut digest = Vec::new();
    let mut padding = (quads * 127 - payload.len()) as u64;
    while padding >= 128 {
        digest.push((padding % 128) as u8 | 0x80);
        padding /= 128;
    }
    digest.push(padding as u8);
    digest.push(height);
    digest.extend_from_slice(&layer[0]);
    digest
}

#[test]
fn digest_is_that_of_the_whole_padded_tree() {
    for size in [
        0usize, 1, 64, 65, 126, 127, 128, 253, 254, 255, 380, 381, 382, 507, 508, 509, 1000, 1016,
        1017, 2000, 4064, 4065, 10_000,
    ] {
        let payload = sample(size, 0x9e37_79b9 ^ size as u32);
        let mut hasher = PieceHasher::from_bytes(&payload);
        assert_eq!(hasher.finalize(), &by_the_book(&payload)[..], "size {}", size);
    }
}

#[test]
fn digest_does_not_depend_on_the_chunks() {
    let payload = sample(5000, 7);
    let expected = by_the_book(&payload);
    for chunk in [1usize, 2, 3, 63, 126, 127, 128, 129, 254, 255, 1000, 4999, 5000] {
        let mut hasher = PieceHasher::new();
        for part in payload.chunks(chunk) {
            hasher.write(part).unwrap();
            hasher.finalize();
        }
        assert_eq!(hasher.finalize(), &expected[..], "chunks of {}", chunk);
    }
}
