//! The nodes of the tree, and the truncated SHA-256 that joins them.

use crate::constant::NODE_SIZE;
use sha2::{Digest, Sha256};
use vstd::prelude::*;

verus! {

/// The SHA-256 digest of a byte string.
pub uninterp spec fn sha256(data: Seq<u8>) -> Seq<u8>;

/// The first 32 bytes of a digest with the two highest bits of the last of
/// them cleared, so that they fit a 254-bit field element.
pub open spec fn truncated(digest: Seq<u8>) -> Seq<u8> {
    Seq::new(
        32,
        |i: int|
            if i == 31 {
                digest[31] & 0x3f
            } else {
                digest[i]
            },
    )
}

/// The hash every tree node is made with: SHA-256, truncated to 254 bits.
pub open spec fn node_hash(data: Seq<u8>) -> Seq<u8> {
    truncated(sha256(data))
}

/// The parent of two sibling nodes.
pub open spec fn join_nodes(left: Seq<u8>, right: Seq<u8>) -> Seq<u8> {
    node_hash(left + right)
}

/// Whether `node` is a valid field element: 32 bytes, the top two bits zero.
pub open spec fn is_field_element(node: Seq<u8>) -> bool {
    node.len() == 32 && node[31] & 0xc0 == 0
}

/// Whatever is hashed, the node that comes out is a field element.
pub proof fn lemma_node_hash_is_field_element(data: Seq<u8>)
    ensures
        is_field_element(node_hash(data)),
{
    let last = sha256(data)[31];
    assert((last & 0x3f) & 0xc0 == 0) by (bit_vector);
}

/// A node of the Merkle tree.
#[derive(Clone, Copy, Debug, Eq, Hash, PartialEq)]
pub struct MerkleTreeNode(pub [u8; NODE_SIZE]);

impl View for MerkleTreeNode {
    type V = Seq<u8>;

    open spec fn view(&self) -> Seq<u8> {
        self.0@
    }
}

impl MerkleTreeNode {
    /// The node that commits to `payload`.
    pub fn new(payload: &[u8]) -> (node: Self)
        ensures
            node@ == node_hash(payload@),
            is_field_element(node@),
    {
        MerkleTreeNode(truncated_hash(payload))
    }

    /// The parent of `self` (left) and `right`.
    pub fn join(self: &Self, right: &MerkleTreeNode) -> (node: Self)
        ensures
            node@ == join_nodes(self@, right@),
            is_field_element(node@),
    {
        compute_node(self, right)
    }

    /// The all-zero node.
    pub fn empty() -> (node: Self)
        ensures
            node@ == Seq::new(32, |i: int| 0u8),
    {
        MerkleTreeNode([0u8; NODE_SIZE])
    }
}

impl From<[u8; NODE_SIZE]> for MerkleTreeNode {
    fn from(bytes: [u8; NODE_SIZE]) -> (node: Self) {
        MerkleTreeNode(bytes)
    }
}

impl vstd::std_specs::convert::FromSpecImpl<[u8; NODE_SIZE]> for MerkleTreeNode {
    open spec fn obeys_from_spec() -> bool {
        true
    }

    open spec fn from_spec(bytes: [u8; NODE_SIZE]) -> Self {
        MerkleTreeNode(bytes)
    }
}

/// Calls `Sha256::new`, `update` and `finalize` of the sha2 crate: the result
/// is the SHA-256 digest of `payload`, which is 32 bytes long.
#[verifier::external_body]
fn sha256_digest(payload: &[u8]) -> (digest: [u8; 32])
    ensures
        digest@ == sha256(payload@),
{
    let mut hasher = Sha256::new();
    hasher.update(payload);
    hasher.finalize().into()
}

/// SHA-256 of `payload`, truncated to 254 bits.
pub fn truncated_hash(payload: &[u8]) -> (digest: [u8; NODE_SIZE])
    ensures
        digest@ == node_hash(payload@),
        is_field_element(digest@),
{
    let mut digest = sha256_digest(payload);
    truncate(&mut digest);
    digest
}

/// The parent node of `left` and `right`: the truncated hash of their bytes
/// laid side by side.
pub fn compute_node(left: &MerkleTreeNode, right: &MerkleTreeNode) -> (node: MerkleTreeNode)
    ensures
        node@ == join_nodes(left@, right@),
        is_field_element(node@),
{
    let mut payload: Vec<u8> = Vec::with_capacity(2 * NODE_SIZE);
    let mut i: usize = 0;
    while i < NODE_SIZE
        invariant
            i <= NODE_SIZE,
            payload@ == left@.subrange(0, i as int),
        decreases NODE_SIZE - i,
    {
        payload.push(left.0[i]);
        i += 1;
    }
    let mut j: usize = 0;
    while j < NODE_SIZE
        invariant
            j <= NODE_SIZE,
            payload@ == left@ + right@.subrange(0, j as int),
        decreases NODE_SIZE - j,
    {
        payload.push(right.0[j]);
        j += 1;
    }
    assert(payload@ == left@ + right@);
    MerkleTreeNode(truncated_hash(payload.as_slice()))
}

pub fn empty_node() -> (node: MerkleTreeNode)
    ensures
        node@ == Seq::new(32, |i: int| 0u8),
{
    MerkleTreeNode([0u8; NODE_SIZE])
}

/// Clears the two highest bits of the last byte.
#[inline]
pub fn truncate(node: &mut [u8; NODE_SIZE])
    ensures
        final(node)@ == truncated(old(node)@),
        is_field_element(final(node)@),
{
    let last: u8 = node[NODE_SIZE - 1];
    let cleared: u8 = last & 0b00111111;
    assert(cleared & 0xc0 == 0) by (bit_vector)
        requires
            cleared == last & 0b00111111,
    ;
    node[NODE_SIZE - 1] = cleared;
    assert(node@ =~= truncated(old(node)@));
}

} // verus!
