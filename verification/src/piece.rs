//! Pieces: summaries of committed subtrees, from which a hasher can go on.

use crate::constant::{IN_BYTES_PER_QUAD, OUT_BYTES_PER_QUAD};
use crate::tree::MerkleTreeNode;
use crate::util::from_height;
use crate::zero_comm::{from_level, zero_commitment, MAX_LEVEL};
use vstd::arithmetic::power2::pow2;
use vstd::prelude::*;

verus! {

/// The tallest piece whose size in bytes still fits in 64 bits.
pub const MAX_PIECE_HEIGHT: usize = 58;

/// The summary of a committed subtree: its height, its root, and the
/// number of zero bytes that its payload was padded with.
pub struct Piece {
    root: MerkleTreeNode,
    height: usize,
    padding_size: u64,
}

/// What a piece is, as plain values.
pub struct PieceView {
    pub root: Seq<u8>,
    pub height: nat,
    pub padding_size: nat,
}

/// The size in bytes of a piece of the given height: 32 bytes for each of
/// its `2^height` leaves.
pub open spec fn piece_size_of(height: nat) -> nat {
    pow2(height) * 32
}

/// The number of bytes, payload and zero padding together, that a piece of
/// the given height holds before Fr32 padding: 127 of each 128.
pub open spec fn padded_size_of(height: nat) -> nat {
    piece_size_of(height) / 128 * 127
}

impl View for Piece {
    type V = PieceView;

    closed spec fn view(&self) -> PieceView {
        PieceView {
            root: self.root@,
            height: self.height as nat,
            padding_size: self.padding_size as nat,
        }
    }
}

impl Piece {
    /// A piece of the given height that holds nothing but zeros. For a piece
    /// with other data, follow it with `with_root`.
    pub fn new(height: usize) -> (piece: Self)
        requires
            height < MAX_LEVEL,
        ensures
            piece@ == (PieceView {
                root: zero_commitment(height as nat),
                height: height as nat,
                padding_size: 0,
            }),
    {
        Piece { height, root: from_level(height).unwrap(), padding_size: 0 }
    }

    /// Replaces the root, as in `Piece::new(29).with_root(root)`.
    pub fn with_root(&mut self, root: MerkleTreeNode) -> (piece: &mut Self)
        ensures
            piece@ == (PieceView { root: root@, ..old(self)@ }),
            *final(self) == *final(piece),
    {
        self.root = root;
        self
    }

    /// Records the number of zero bytes that the payload was padded with.
    pub fn with_padding_size(&mut self, padding_size: u64) -> (piece: &mut Self)
        ensures
            piece@ == (PieceView { padding_size: padding_size as nat, ..old(self)@ }),
            *final(self) == *final(piece),
    {
        self.padding_size = padding_size;
        self
    }

    pub fn root(&self) -> (root: MerkleTreeNode)
        ensures
            root@ == self@.root,
    {
        self.root
    }

    pub fn height(&self) -> (height: usize)
        ensures
            height == self@.height,
    {
        self.height
    }

    /// Piece size in bytes.
    pub fn size(&self) -> (size: u64)
        requires
            self@.height <= MAX_PIECE_HEIGHT,
        ensures
            size == piece_size_of(self@.height),
    {
        from_height(self.height as u32)
    }

    /// The number of zero bytes that the payload was padded with.
    pub fn padding_size(&self) -> (padding_size: u64)
        ensures
            padding_size == self@.padding_size,
    {
        self.padding_size
    }

    /// Payload size in bytes: what the piece holds, less the zero padding.
    pub fn payload_size(&self) -> (payload_size: u64)
        requires
            self@.height <= MAX_PIECE_HEIGHT,
            self@.padding_size <= padded_size_of(self@.height),
        ensures
            payload_size == padded_size_of(self@.height) - self@.padding_size,
    {
        assert(IN_BYTES_PER_QUAD == 127 && OUT_BYTES_PER_QUAD == 128);
        let padded_size = self.size() / OUT_BYTES_PER_QUAD as u64 * IN_BYTES_PER_QUAD as u64;
        padded_size - self.padding_size()
    }
}

} // verus!
