//! Zero commitments: the roots of the subtrees that hold nothing but zeros.

use crate::constant::NODE_SIZE;
use crate::error::Error;
use crate::tree::{join_nodes, MerkleTreeNode};
use vstd::prelude::*;

verus! {

/// The number of levels the table has room for.
pub const MAX_LEVEL: usize = 64;

/// The root of a subtree of the given level whose payload is all zeros:
/// the zero node at level 0, and one level up the parent of two equal
/// children.
pub open spec fn zero_commitment(level: nat) -> Seq<u8>
    decreases level,
{
    if level == 0 {
        Seq::new(32, |i: int| 0u8)
    } else {
        join_nodes(zero_commitment((level - 1) as nat), zero_commitment((level - 1) as nat))
    }
}

/// The zero commitments of all levels, laid end to end.
pub open spec fn zero_commitment_table() -> Seq<u8> {
    Seq::new((MAX_LEVEL * NODE_SIZE) as nat, |i: int| zero_commitment((i / 32) as nat)[i % 32])
}

/// A table of zero commitments that fills up on demand, lowest level first.
pub struct ZeroComm {
    bytes: Vec<u8>,
    node: MerkleTreeNode,
    length: usize,
}

impl ZeroComm {
    /// The table holds the commitments of the levels it has reached, and its
    /// last node is the commitment of the highest of them.
    pub closed spec fn wf(&self) -> bool {
        &&& self.bytes@.len() == MAX_LEVEL * NODE_SIZE
        &&& NODE_SIZE <= self.length <= MAX_LEVEL * NODE_SIZE
        &&& self.length % NODE_SIZE == 0
        &&& self.node@ == zero_commitment((self.length / NODE_SIZE - 1) as nat)
        &&& forall|i: int|
            0 <= i < self.length ==> self.bytes@[i] == #[trigger] zero_commitment_table()[i]
    }

    /// The number of levels that the table has computed so far.
    pub closed spec fn levels(&self) -> nat {
        (self.length / NODE_SIZE) as nat
    }

    /// A table that holds level 0 alone.
    pub fn new() -> (table: Self)
        ensures
            table.wf(),
            table.levels() == 1,
    {
        let mut bytes: Vec<u8> = Vec::with_capacity(MAX_LEVEL * NODE_SIZE);
        let mut i: usize = 0;
        while i < MAX_LEVEL * NODE_SIZE
            invariant
                i <= MAX_LEVEL * NODE_SIZE,
                bytes@.len() == i,
                forall|j: int| 0 <= j < i ==> bytes@[j] == 0u8,
            decreases MAX_LEVEL * NODE_SIZE - i,
        {
            bytes.push(0u8);
            i += 1;
        }
        ZeroComm { bytes, node: MerkleTreeNode::empty(), length: NODE_SIZE }
    }

    /// The bytes of the table from `start` to `end`, once the table has been
    /// filled up to `end`. What comes back does not depend on how far the
    /// table had been filled before.
    pub fn slice(&mut self, start: usize, end: usize) -> (bytes: &[u8])
        requires
            old(self).wf(),
            start <= end <= MAX_LEVEL * NODE_SIZE,
        ensures
            final(self).wf(),
            bytes@ == zero_commitment_table().subrange(start as int, end as int),
            final(self).levels() == if old(self).levels() * 32 >= end {
                old(self).levels()
            } else {
                ((end + 31) / 32) as nat
            },
    {
        assert(NODE_SIZE == 32 && MAX_LEVEL == 64);
        while self.length < end
            invariant
                self.wf(),
                start <= end <= MAX_LEVEL * NODE_SIZE,
                self.length >= old(self).length,
                self.length == old(self).length || self.length - 32 < end,
            decreases MAX_LEVEL * NODE_SIZE - self.length,
        {
            let ghost level = (self.length / NODE_SIZE) as nat;
            let node = self.node.join(&self.node);
            assert(node@ == zero_commitment(level));
            let mut i: usize = 0;
            while i < NODE_SIZE
                invariant
                    i <= NODE_SIZE,
                    self.length + NODE_SIZE <= MAX_LEVEL * NODE_SIZE,
                    self.length >= old(self).length,
                    self.length < end,
                    self.length % NODE_SIZE == 0,
                    self.bytes@.len() == MAX_LEVEL * NODE_SIZE,
                    level == self.length / NODE_SIZE,
                    node@ == zero_commitment(level),
                    forall|j: int|
                        0 <= j < self.length + i ==> self.bytes@[j]
                            == #[trigger] zero_commitment_table()[j],
                decreases NODE_SIZE - i,
            {
                self.bytes[self.length + i] = node.0[i];
                assert((self.length + i) / 32 == level && (self.length + i) % 32 == i);
                i += 1;
            }
            self.node = node;
            self.length += NODE_SIZE;
        }
        vstd::slice::slice_subrange(self.bytes.as_slice(), start, end)
    }
}

/// The zero commitment of the given level, if the table has that level.
pub fn from_level(level: usize) -> (result: Result<MerkleTreeNode, Error>)
    ensures
        level < MAX_LEVEL ==> result is Ok && result->Ok_0@ == zero_commitment(level as nat),
        level >= MAX_LEVEL ==> result == Err::<MerkleTreeNode, Error>(
            Error::ZeroCommitmentLevelOutOfRange,
        ),
{
    if level >= MAX_LEVEL {
        return Err(Error::ZeroCommitmentLevelOutOfRange);
    }
    assert(NODE_SIZE == 32 && MAX_LEVEL == 64);
    let start: usize = NODE_SIZE * level;
    let end: usize = NODE_SIZE * (level + 1);
    let mut zero_comm = ZeroComm::new();
    let bytes = zero_comm.slice(start, end);
    let mut node = [0u8; NODE_SIZE];
    let mut i: usize = 0;
    while i < NODE_SIZE
        invariant
            i <= NODE_SIZE,
            start == NODE_SIZE * level,
            bytes@ == zero_commitment_table().subrange(start as int, start + NODE_SIZE),
            level < MAX_LEVEL,
            forall|j: int| 0 <= j < i ==> node@[j] == zero_commitment(level as nat)[j],
        decreases NODE_SIZE - i,
    {
        node[i] = bytes[i];
        assert(bytes@[i as int] == zero_commitment_table()[start + i]);
        assert((start + i) / 32 == level && (start + i) % 32 == i);
        i += 1;
    }
    assert(node@ =~= zero_commitment(level as nat));
    Ok(MerkleTreeNode(node))
}

} // verus!
