//! The fixed parameters of Fr32 padding and of the tree.

use vstd::prelude::*;

verus! {

pub const BITS_PER_BYTE: usize = 8;

/// Field elements in one quad.
pub const FRS_PER_QUAD: usize = 4;

/// Payload bits carried by one field element.
pub const IN_BITS_FR: usize = 254;

/// Bits one field element occupies once padded.
pub const OUT_BITS_FR: usize = 256;

/// Bytes of payload in one quad.
pub const IN_BYTES_PER_QUAD: usize = (FRS_PER_QUAD * IN_BITS_FR) / BITS_PER_BYTE;

/// Bytes of one padded quad.
pub const OUT_BYTES_PER_QUAD: usize = (FRS_PER_QUAD * OUT_BITS_FR) / BITS_PER_BYTE;

pub const BYTES_PER_FR: usize = OUT_BYTES_PER_QUAD / FRS_PER_QUAD;

/// Bytes in one tree node.
pub const NODE_SIZE: usize = OUT_BYTES_PER_QUAD / FRS_PER_QUAD;

/// Smallest payload for which a piece is defined.
pub const MIN_PAYLOAD_SIZE: u64 = (2 * NODE_SIZE + 1) as u64;

/// The tree height is stored in one byte of the digest, so it cannot exceed 255.
pub const MAX_HEIGHT: u8 = u8::MAX;

} // verus!
