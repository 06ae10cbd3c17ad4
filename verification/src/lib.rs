//! Streaming piece commitments: Fr32 bit padding, a bounded-memory binary
//! Merkle accumulator over truncated SHA-256, and the digest encoding that
//! carries padding, tree height and root.

pub mod constant;
pub mod digest;
pub mod error;
pub mod forest;
pub mod fr32;
pub mod hasher;
pub mod link;
pub mod multihash;
pub mod piece;
pub mod tree;
pub mod util;
pub mod zero_comm;

use crate::digest::HasherView;
use crate::hasher::PieceHasher;
use vstd::prelude::*;

verus! {

/// A hasher that has taken in nothing.
pub fn create() -> (hasher: PieceHasher)
    ensures
        hasher.wf(),
        hasher@ == (HasherView { seed: None, payload: Seq::empty() }),
{
    PieceHasher::new()
}

} // verus!
