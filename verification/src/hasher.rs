//! The streaming hasher: it takes a payload in chunks, hashes whole quads
//! into leaves, and folds the leaves into a forest of one node a layer.

use crate::constant::NODE_SIZE;
use crate::digest::{
    leaves_of, lemma_digest_len, lemma_leaves_append, lemma_leaves_concat, lemma_leaves_extend,
    lemma_leaves_of_quad, lemma_seed_size, quad_leaves, seed_fits, zero_filled, HasherView,
    MAX_COUNT,
};
use crate::error::Error;
use crate::forest::{
    building, carry, evened, flushing, folded, forest_holds, forest_view, lemma_build_done,
    lemma_build_step, lemma_depth_bound, lemma_flush_start, lemma_prune_done, lemma_prune_step,
    lemma_seed_alone, level_nodes, nodes_view, pairs, prune_steps, pruning, seed_weight,
    tree_height, tree_root, Seed,
};
use crate::fr32::pad_quad;
use crate::link::{Cid, CidView};
use crate::multihash::{multihash_bytes_of, Multihash, MultihashView};
use crate::piece::{padded_size_of, Piece, MAX_PIECE_HEIGHT};
use crate::tree::{compute_node, truncated_hash, MerkleTreeNode};
use crate::util::{lemma_varint_len, required_zero_padding, varint, varint_estimate, zero_padding_of};
use crate::zero_comm::from_level;
use vstd::arithmetic::power2::{
    lemma2_to64, lemma2_to64_rest, lemma_pow2_strictly_increases, pow2,
};
use vstd::prelude::*;

verus! {

/// The tallest tree that a payload may fill: enough for 32 PiB of data.
pub const MAX_HEIGHT: u8 = 50;

/// The multihash code of the piece hasher.
pub const CODE: u64 = 0x1011;

/// The most bytes that the padding takes as a varint.
pub const MAX_PADDING_SIZE: usize = 10;

/// The height takes one byte of the digest.
pub const HEIGHT_SIZE: usize = 1;

/// The root takes as many bytes as a node has.
pub const ROOT_SIZE: usize = NODE_SIZE;

/// The multihash code takes two bytes as a varint.
pub const CODE_SIZE: usize = 2;

/// The codec of raw bytes.
pub const RAW: u64 = 0x55;

/// The most bytes that a digest has.
pub const MAX_MULTIHASH_SIZE: usize = HEIGHT_SIZE + MAX_PADDING_SIZE + NODE_SIZE;

/// The largest payload that the hasher takes: what fills a piece of the
/// greatest height once it is Fr32 padded, `2^48 * 127` bytes.
pub const MAX_PAYLOAD_SIZE: u64 = 0x7f_0000_0000_0000;

/// The largest payload is what fills a piece of the greatest height:
/// 254 of each 256 bits of its `2^50` nodes.
pub proof fn lemma_max_payload()
    ensures
        MAX_PAYLOAD_SIZE == pow2(MAX_HEIGHT as nat) * 32 * 254 / 256,
{
    lemma2_to64_rest();
}

/// Where a read starts in its target.
pub open spec fn read_start(offset: Option<usize>) -> int {
    match offset {
        Some(at) => at as int,
        None => 0,
    }
}

/// The bytes that a read writes: the multihash on the wire, unless the
/// prefix is not wanted, and then the digest alone.
pub open spec fn read_bytes(view: HasherView, use_prefix: Option<bool>) -> Seq<u8> {
    if use_prefix == Some(false) {
        view.digest()
    } else {
        multihash_bytes_of(CODE, view.digest())
    }
}

/// Calls `encode::u64_buffer` and `encode::u64` of the unsigned-varint
/// crate: the result is `value` as an unsigned varint, seven bits a byte,
/// lowest first, the high bit set on every byte but the last.
#[verifier::external_body]
fn encode_varint(value: u64) -> (bytes: Vec<u8>)
    ensures
        bytes@ == varint(value as nat),
{
    let mut buffer = unsigned_varint::encode::u64_buffer();
    unsigned_varint::encode::u64(value, &mut buffer).to_vec()
}

/// Hashes the quad that starts at `offset` in `source` into its two leaves
/// and puts them at the end of `output`.
fn read_quad(source: &[u8], offset: usize, output: &mut Vec<MerkleTreeNode>)
    requires
        offset + 127 <= source@.len(),
    ensures
        nodes_view(final(output)@) == nodes_view(old(output)@) + quad_leaves(
            source@.subrange(offset as int, offset + 127),
        ),
{
    let buffer = pad_quad(source, offset);
    let left = truncated_hash(vstd::slice::slice_subrange(buffer.as_slice(), 0, NODE_SIZE * 2));
    let right = truncated_hash(
        vstd::slice::slice_subrange(buffer.as_slice(), NODE_SIZE * 2, NODE_SIZE * 4),
    );
    output.push(MerkleTreeNode(left));
    output.push(MerkleTreeNode(right));
    assert(nodes_view(output@) =~= nodes_view(old(output)@) + quad_leaves(
        source@.subrange(offset as int, offset + 127),
    ));
}

/// Folds one layer into the one above it: its nodes, made even in number by
/// the zero commitment of its level where `pad` asks for it, are joined two
/// by two, the parents go to the end of the next layer (a new top layer
/// where there is none), and only a node without a partner stays behind.
fn fold_layer(layers: &mut Vec<Vec<MerkleTreeNode>>, level: usize, pad: bool)
    requires
        level < old(layers)@.len(),
        pad ==> level + 1 < 64,
    ensures
        folded(forest_view(old(layers)@), forest_view(final(layers)@), level as int, pad),
{
    let height = layers.len();
    let ghost ready = evened(nodes_view(layers@[level as int]@), pad, level as nat);
    if pad && layers[level].len() % 2 == 1 {
        let zero = from_level(level + 1).unwrap();
        layers[level].push(zero);
    }
    assert(nodes_view(layers@[level as int]@) =~= ready);
    let ghost padded = layers@;
    let count = layers[level].len();
    let mut index: usize = 0;
    while index + 1 < count
        invariant
            level < height == padded.len(),
            index <= count == padded[level as int]@.len(),
            index % 2 == 0,
            layers@.len() == height || (layers@.len() == height + 1 && height == level + 1 && index
                > 0),
            forall|l: int|
                0 <= l < height && l != level + 1 ==> #[trigger] layers@[l]@ == padded[l]@,
            level + 1 < height ==> nodes_view(layers@[level + 1]@) == nodes_view(
                padded[level + 1]@,
            ) + pairs(nodes_view(padded[level as int]@)).subrange(0, index as int / 2),
            level + 1 >= height && index > 0 ==> layers@.len() == height + 1 && nodes_view(
                layers@[level + 1]@,
            ) == pairs(nodes_view(padded[level as int]@)).subrange(0, index as int / 2),
            level + 1 >= height && index == 0 ==> layers@.len() == height,
        decreases count - index,
    {
        let left = layers[level][index];
        let right = layers[level][index + 1];
        let node = compute_node(&left, &right);
        let ghost upper = if level + 1 < layers@.len() {
            nodes_view(layers@[level + 1]@)
        } else {
            Seq::empty()
        };
        if level + 1 < layers.len() {
            layers[level + 1].push(node);
        } else {
            let mut top: Vec<MerkleTreeNode> = Vec::new();
            top.push(node);
            layers.push(top);
        }
        proof {
            let all = pairs(nodes_view(padded[level as int]@));
            assert(all[index as int / 2] == node@);
            assert(nodes_view(layers@[level + 1]@) =~= upper.push(node@));
            assert(all.subrange(0, index as int / 2 + 1) =~= all.subrange(0, index as int / 2).push(
                node@,
            ));
        }
        index += 2;
    }
    assert(pairs(ready).subrange(0, index as int / 2) =~= pairs(ready));
    let mut keep: Vec<MerkleTreeNode> = Vec::new();
    if index < count {
        keep.push(layers[level][index]);
    }
    assert(nodes_view(keep@) =~= carry(ready));
    layers[level] = keep;
    proof {
        let after = forest_view(layers@);
        let before = forest_view(old(layers)@);
        assert forall|l: int|
            0 <= l < before.len() && l != level && l != level + 1 implies #[trigger] after[l]
            == before[l] by {
            assert(layers@[l]@ == padded[l]@);
        }
    }
}

/// Folds every layer of the forest into the one above it, lowest first:
/// the nodes of a layer are joined two by two, the parents go to the end of
/// the next layer (a new top layer where there is none), and only a node
/// without a partner stays behind.
///
/// When pruning, that settles the nodes `fresh` into the tree over
/// `leaves`. When building, a layer of odd count below the top is first made
/// even by the zero commitment of its level, and what is left at the top is
/// the root of the zero-padded tree over `leaves + fresh`.
fn flush(
    layers: &mut Vec<Vec<MerkleTreeNode>>,
    build: bool,
    Ghost(seed): Ghost<Option<Seed>>,
    Ghost(leaves): Ghost<Seq<Seq<u8>>>,
    Ghost(fresh): Ghost<Seq<Seq<u8>>>,
)
    requires
        forest_holds(forest_view(old(layers)@), seed, leaves, fresh),
        build ==> old(layers)@.len() <= 62,
        build ==> old(layers)@[0]@.len() <= 2,
        build ==> old(layers)@.len() > 1 || fresh.len() >= 1,
    ensures
        !build ==> forest_holds(forest_view(final(layers)@), seed, leaves + fresh, Seq::empty()),
        build ==> ({
            let top = final(layers)@.len() - 1;
            &&& 1 <= final(layers)@.len() <= old(layers)@.len() + 1
            &&& final(layers)@.len() == tree_height(seed, leaves + fresh)
            &&& final(layers)@[top]@.len() == 1
            &&& final(layers)@[top]@[0]@ == tree_root(seed, leaves + fresh)
        }),
{
    let ghost depth = layers@.len();
    let ghost total = leaves + fresh;
    let ghost mut incoming = fresh;
    proof {
        lemma_flush_start(forest_view(layers@), seed, leaves, fresh);
    }
    let mut level: usize = 0;
    while level < layers.len()
        invariant
            depth == old(layers)@.len(),
            total == leaves + fresh,
            flushing(forest_view(layers@), level as nat, incoming, seed, leaves, depth),
            build ==> depth <= 62 && building(
                forest_view(layers@),
                level as nat,
                incoming,
                seed,
                leaves,
                total,
                depth,
                fresh.len() >= 1,
            ),
            !build ==> pruning(forest_view(layers@), level as nat, incoming, seed, leaves, total),
        decreases
                (if build {
                    depth + 2 - level
                } else {
                    prune_steps(forest_view(layers@), level as nat, seed, total, depth)
                }),
    {
        let ghost before = forest_view(layers@);
        let pad = build && level + 1 < layers.len();
        fold_layer(layers, level, pad);
        proof {
            let after = forest_view(layers@);
            if build {
                lemma_build_step(before, after, level as nat, incoming, seed, leaves, fresh, depth);
            } else {
                lemma_prune_step(before, after, level as nat, incoming, seed, leaves, fresh, depth);
            }
            incoming = pairs(evened(before[level as int], pad, level as nat));
        }
        level += 1;
    }
    proof {
        let forest = forest_view(layers@);
        if build {
            lemma_build_done(forest, incoming, seed, leaves, fresh, depth);
            assert(forest[forest.len() - 1][0] == layers@[layers@.len() - 1]@[0]@);
        } else {
            lemma_prune_done(forest, incoming, seed, leaves, fresh, depth);
        }
    }
}

/// Settles the nodes `fresh` of the bottom layer into the forest: pairs of
/// nodes are joined into the layer above and taken out of their own, so
/// that each layer is left with one node at most. New layers come to be
/// where nodes of the top layer are joined.
fn prune(
    layers: &mut Vec<Vec<MerkleTreeNode>>,
    Ghost(seed): Ghost<Option<Seed>>,
    Ghost(leaves): Ghost<Seq<Seq<u8>>>,
    Ghost(fresh): Ghost<Seq<Seq<u8>>>,
)
    requires
        forest_holds(forest_view(old(layers)@), seed, leaves, fresh),
    ensures
        forest_holds(forest_view(final(layers)@), seed, leaves + fresh, Seq::empty()),
{
    flush(layers, false, Ghost(seed), Ghost(leaves), Ghost(fresh));
}

/// Folds the forest up to the root of the zero-padded tree: a layer below
/// the top that is left with a single node has it joined with the zero
/// commitment of its level.
fn build(
    layers: &mut Vec<Vec<MerkleTreeNode>>,
    Ghost(seed): Ghost<Option<Seed>>,
    Ghost(leaves): Ghost<Seq<Seq<u8>>>,
    Ghost(fresh): Ghost<Seq<Seq<u8>>>,
)
    requires
        forest_holds(forest_view(old(layers)@), seed, leaves, fresh),
        old(layers)@.len() <= 62,
        old(layers)@[0]@.len() <= 2,
        old(layers)@.len() > 1 || fresh.len() >= 1,
    ensures
        1 <= final(layers)@.len() <= old(layers)@.len() + 1,
        final(layers)@.len() == tree_height(seed, leaves + fresh),
        final(layers)@[final(layers)@.len() - 1]@.len() == 1,
        final(layers)@[final(layers)@.len() - 1]@[0]@ == tree_root(seed, leaves + fresh),
{
    flush(layers, true, Ghost(seed), Ghost(leaves), Ghost(fresh));
}

/// Copies `count` bytes of `bytes`, from `from` on, into the buffer at `offset`.
fn fill(buffer: &mut [u8; 127], offset: usize, bytes: &[u8], from: usize, count: usize)
    requires
        offset + count <= 127,
        from + count <= bytes@.len(),
    ensures
        forall|i: int|
            offset <= i < offset + count ==> final(buffer)@[i] == bytes@[from + i - offset],
        forall|i: int|
            0 <= i < 127 && !(offset <= i < offset + count) ==> final(buffer)@[i] == old(
                buffer,
            )@[i],
{
    let length = bytes.len();
    let mut i: usize = 0;
    while i < count
        invariant
            i <= count,
            offset + count <= 127,
            from + count <= length == bytes@.len(),
            forall|k: int| offset <= k < offset + i ==> buffer@[k] == bytes@[from + k - offset],
            forall|k: int|
                0 <= k < 127 && !(offset <= k < offset + i) ==> buffer@[k] == old(buffer)@[k],
        decreases count - i,
    {
        buffer[offset + i] = bytes[from + i];
        i += 1;
    }
}

/// Hashes the whole quads of `bytes` from `from` on into leaves at the end
/// of `output`, but for a last quad, whole or not, and returns where that
/// one starts.
fn read_quads(bytes: &[u8], from: usize, output: &mut Vec<MerkleTreeNode>) -> (end: usize)
    requires
        from <= bytes@.len(),
    ensures
        from <= end <= bytes@.len(),
        (end - from) % 127 == 0,
        bytes@.len() - end <= 127,
        bytes@.len() - from <= 127 ==> end == from,
        nodes_view(final(output)@) == nodes_view(old(output)@) + leaves_of(
            bytes@.subrange(from as int, end as int),
        ),
{
    let length = bytes.len();
    let mut read_offset: usize = from;
    proof {
        assert(leaves_of(bytes@.subrange(from as int, from as int)) =~= Seq::<Seq<u8>>::empty());
        assert(nodes_view(output@) =~= nodes_view(old(output)@) + Seq::<Seq<u8>>::empty());
    }
    while length - read_offset > 127
        invariant
            from <= read_offset <= length == bytes@.len(),
            (read_offset - from) % 127 == 0,
            length - from <= 127 ==> read_offset == from,
            nodes_view(output@) == nodes_view(old(output)@) + leaves_of(
                bytes@.subrange(from as int, read_offset as int),
            ),
        decreases length - read_offset,
    {
        let ghost taken = bytes@.subrange(from as int, read_offset as int);
        let ghost quad = bytes@.subrange(read_offset as int, read_offset + 127);
        read_quad(bytes, read_offset, output);
        proof {
            lemma_leaves_append(taken, quad);
            assert(taken + quad =~= bytes@.subrange(from as int, read_offset + 127));
            assert((nodes_view(old(output)@) + leaves_of(taken)) + quad_leaves(quad) =~= nodes_view(
                old(output)@,
            ) + (leaves_of(taken) + quad_leaves(quad)));
        }
        read_offset += 127;
    }
    read_offset
}

/// What waits in the buffer once `count` bytes of `bytes` have been put
/// behind the `offset` bytes that waited there: the end of the payload
/// with those bytes behind it.
proof fn lemma_waiting(
    before: Seq<u8>,
    after: Seq<u8>,
    offset: int,
    bytes: Seq<u8>,
    count: int,
    payload: Seq<u8>,
)
    requires
        before.len() == 127,
        after.len() == 127,
        0 <= offset <= payload.len(),
        0 <= count <= bytes.len(),
        offset + count <= 127,
        before.subrange(0, offset) == payload.subrange(payload.len() - offset, payload.len() as int),
        forall|i: int| offset <= i < offset + count ==> after[i] == bytes[i - offset],
        forall|i: int| 0 <= i < 127 && !(offset <= i < offset + count) ==> after[i] == before[i],
    ensures
        after.subrange(0, offset + count) == payload.subrange(
            payload.len() - offset,
            payload.len() as int,
        ) + bytes.subrange(0, count),
        count == bytes.len() ==> after.subrange(0, offset + count) == (payload + bytes).subrange(
            payload.len() - offset,
            payload.len() + count,
        ),
{
    let waiting = payload.subrange(payload.len() - offset, payload.len() as int);
    assert forall|i: int| 0 <= i < offset + count implies after[i] == (waiting + bytes.subrange(
        0,
        count,
    ))[i] by {
        if i < offset {
            assert(before.subrange(0, offset)[i] == waiting[i]);
        }
    }
    assert(after.subrange(0, offset + count) =~= waiting + bytes.subrange(0, count));
    if count == bytes.len() {
        assert((payload + bytes).subrange(payload.len() - offset, payload.len() + count)
            =~= waiting + bytes.subrange(0, count));
    }
}

/// Puts zeros into the buffer from `offset` on.
fn zero_fill(buffer: &mut [u8; 127], offset: usize)
    requires
        offset <= 127,
    ensures
        forall|i: int| offset <= i < 127 ==> final(buffer)@[i] == 0u8,
        forall|i: int| 0 <= i < offset ==> final(buffer)@[i] == old(buffer)@[i],
{
    let mut i: usize = offset;
    while i < 127
        invariant
            offset <= i <= 127,
            forall|k: int| offset <= k < i ==> buffer@[k] == 0u8,
            forall|k: int| 0 <= k < offset ==> buffer@[k] == old(buffer)@[k],
        decreases 127 - i,
    {
        buffer[i] = 0;
        i += 1;
    }
}

/// A copy of the forest, which can be built upon while the forest itself
/// stays as it is.
fn copy_of(layers: &Vec<Vec<MerkleTreeNode>>) -> (copy: Vec<Vec<MerkleTreeNode>>)
    ensures
        copy@.len() == layers@.len(),
        forest_view(copy@) == forest_view(layers@),
{
    let copy = layers.clone();
    proof {
        assert forall|l: int| 0 <= l < copy@.len() implies nodes_view(copy@[l]@) == nodes_view(
            layers@[l]@,
        ) by {
            assert(cloned::<Vec<MerkleTreeNode>>(layers@[l], copy@[l]));
            assert forall|i: int| 0 <= i < copy@[l]@.len() implies copy@[l]@[i] == layers@[l]@[i] by {
                assert(cloned::<MerkleTreeNode>(layers@[l]@[i], copy@[l]@[i]));
            }
            assert(copy@[l]@ =~= layers@[l]@);
        }
        assert(forest_view(copy@) =~= forest_view(layers@));
    }
    copy
}

/// The leaves of the tree over a payload of which `offset` bytes wait to be
/// hashed, a quad at most: where bytes wait, or nothing was taken in, they
/// are the leaves that have settled and the leaves of one last quad, zero
/// filled; else they are the leaves that have settled, of which there are
/// two at least where there is no seed.
proof fn lemma_last_quad(view: HasherView, offset: int)
    requires
        0 <= offset <= 127,
        offset <= view.payload.len(),
        (view.payload.len() - offset) % 127 == 0,
        seed_fits(view.seed),
    ensures
        ({
            let start = view.payload.len() - offset;
            let settled = leaves_of(view.payload.subrange(0, start));
            let filled = zero_filled(view.payload, view.seed is Some);
            &&& settled.len() % 2 == 0
            &&& settled.len() <= 2 * (view.payload.len() / 127)
            &&& offset > 0 || view.count() == 0 ==> {
                &&& filled.len() == start + 127
                &&& forall|j: int| start <= j < start + offset ==> filled[j] == view.payload[j]
                &&& forall|j: int| start + offset <= j < start + 127 ==> filled[j] == 0u8
                &&& view.leaves() == settled + quad_leaves(filled.subrange(start, start + 127))
            }
            &&& offset == 0 && view.count() > 0 ==> {
                &&& view.leaves() == settled
                &&& view.seed is None ==> settled.len() >= 2
            }
        }),
{
    let start = view.payload.len() - offset;
    let settled = leaves_of(view.payload.subrange(0, start));
    let filled = zero_filled(view.payload, view.seed is Some);
    if view.seed is Some {
        lemma_seed_size(view.seed->Some_0.level);
    }
    if offset > 0 || view.count() == 0 {
        assert(filled.subrange(0, start) =~= view.payload.subrange(0, start));
        assert(filled.subrange(0, start + 127) =~= filled);
        lemma_leaves_extend(filled, start);
    } else {
        assert(view.payload.subrange(0, start) =~= view.payload);
    }
}

/// A forest that holds a tree holds it still, with more fresh nodes, when
/// nodes are put at the end of its bottom layer.
proof fn lemma_more_fresh(
    before: Seq<Seq<Seq<u8>>>,
    after: Seq<Seq<Seq<u8>>>,
    seed: Option<Seed>,
    leaves: Seq<Seq<u8>>,
    fresh: Seq<Seq<u8>>,
    more: Seq<Seq<u8>>,
)
    requires
        forest_holds(before, seed, leaves, fresh),
        after.len() == before.len(),
        after[0] == before[0] + more,
        forall|l: int| 1 <= l < before.len() ==> #[trigger] after[l] == before[l],
    ensures
        forest_holds(after, seed, leaves, fresh + more),
{
    let base = carry(level_nodes(seed, leaves, false, 0));
    assert((base + fresh) + more =~= base + (fresh + more));
}

/// A forest that holds the tree over a seed that fits and no more than
/// `2^57` leaves has fewer than sixty layers.
proof fn lemma_forest_height(forest: Seq<Seq<Seq<u8>>>, seed: Option<Seed>, leaves: Seq<Seq<u8>>)
    requires
        forest_holds(forest, seed, leaves, Seq::empty()),
        seed_fits(seed),
        leaves.len() <= 0x200_0000_0000_0000,
    ensures
        forest.len() <= 59,
{
    lemma2_to64();
    lemma2_to64_rest();
    if forest.len() > 1 {
        let top = (forest.len() - 1) as nat;
        if seed is Some && seed->Some_0.level < 57 {
            lemma_pow2_strictly_increases(seed->Some_0.level, 57);
        }
        assert(seed_weight(seed, top) <= 0x200_0000_0000_0000);
        lemma_depth_bound(seed, leaves, top, 59);
    }
}

/// The streaming hasher of pieces: it takes a payload in chunks of any size
/// and keeps of the tree over it no more than a node for each layer.
pub struct PieceHasher {
    pub(crate) bytes_written: u64,
    buffer: [u8; 127],
    offset: usize,
    layers: Vec<Vec<MerkleTreeNode>>,
    digest: [u8; MAX_MULTIHASH_SIZE],
    model: Ghost<HasherView>,
}

impl View for PieceHasher {
    type V = HasherView;

    closed spec fn view(&self) -> HasherView {
        self.model@
    }
}

impl PieceHasher {
    /// The number of payload bytes that have been hashed into leaves.
    spec fn consumed(&self) -> int {
        self.model@.payload.len() - self.offset
    }

    /// The hasher's state stands for what it has taken in: the bytes not
    /// yet hashed wait in the buffer, the count is that of the seed and the
    /// payload, and the forest holds the tree over the seed and the leaves of
    /// the quads hashed so far.
    pub closed spec fn wf(&self) -> bool {
        let payload = self.model@.payload;
        &&& self.offset <= 127
        &&& self.offset <= payload.len()
        &&& self.consumed() % 127 == 0
        &&& self.buffer@.subrange(0, self.offset as int) == payload.subrange(
            self.consumed(),
            payload.len() as int,
        )
        &&& self.bytes_written == self.model@.count()
        &&& self.model@.count() <= MAX_COUNT
        &&& seed_fits(self.model@.seed)
        &&& forest_holds(
            forest_view(self.layers@),
            self.model@.seed,
            leaves_of(payload.subrange(0, self.consumed())),
            Seq::empty(),
        )
    }

    /// The layers of the forest, as plain values.
    pub closed spec fn forest(&self) -> Seq<Seq<Seq<u8>>> {
        forest_view(self.layers@)
    }

    /// The number of bytes that wait in the buffer.
    pub closed spec fn buffered(&self) -> nat {
        self.offset as nat
    }

    /// What a hasher has taken in is within its limits.
    pub proof fn lemma_view_fits(&self)
        requires
            self.wf(),
        ensures
            seed_fits(self@.seed),
            self@.count() <= MAX_COUNT,
    {
    }

    /// The hasher keeps little, however much it has taken in: less than a
    /// quad of bytes in its buffer, or a quad that is hashed with the next
    /// write, fewer than sixty layers, and in each layer one node at most.
    pub proof fn lemma_bounded_memory(&self)
        requires
            self.wf(),
        ensures
            self.buffered() <= 127,
            1 <= self.forest().len() <= 59,
            forall|l: int| 0 <= l < self.forest().len() ==> (#[trigger] self.forest()[l]).len() <= 1,
    {
        let view = self.model@;
        let settled = leaves_of(view.payload.subrange(0, self.consumed()));
        lemma_forest_height(self.forest(), view.seed, settled);
    }

    /// A hasher that has taken in nothing.
    pub fn new() -> (hasher: Self)
        ensures
            hasher.wf(),
            hasher@ == (HasherView { seed: None, payload: Seq::empty() }),
    {
        PieceHasher::blank()
    }

    /// A hasher with an empty buffer and one empty layer.
    fn blank() -> (hasher: Self)
        ensures
            hasher.wf(),
            hasher@ == (HasherView { seed: None, payload: Seq::empty() }),
            hasher.offset == 0,
            hasher.layers@.len() == 1,
            hasher.layers@[0]@.len() == 0,
    {
        let mut layers: Vec<Vec<MerkleTreeNode>> = Vec::new();
        layers.push(Vec::new());
        let hasher = PieceHasher {
            bytes_written: 0,
            buffer: [0; 127],
            offset: 0,
            layers,
            digest: [0; MAX_MULTIHASH_SIZE],
            model: Ghost(HasherView { seed: None, payload: Seq::empty() }),
        };
        proof {
            let forest = forest_view(hasher.layers@);
            let leaves = leaves_of(Seq::<u8>::empty().subrange(0, 0));
            assert(leaves =~= Seq::<Seq<u8>>::empty());
            assert(forest[0] =~= carry(level_nodes(None, leaves, false, 0))
                + Seq::<Seq<u8>>::empty());
            assert(hasher.buffer@.subrange(0, 0) =~= Seq::<u8>::empty().subrange(0, 0));
        }
        hasher
    }

    /// Takes in `bytes`, unless that would take the count past the largest
    /// payload: then nothing changes, and the write is refused. Whole quads
    /// are hashed into leaves and settled into the forest; what is left over
    /// waits in the buffer.
    pub fn try_update(&mut self, bytes: &[u8]) -> (result: Result<(), Error>)
        requires
            old(self).wf(),
        ensures
            final(self).wf(),
            result is Err <==> bytes@.len() > 0 && old(self)@.count() + bytes@.len()
                > MAX_PAYLOAD_SIZE,
            result is Err ==> result == Err::<(), Error>(Error::PayloadTooLarge) && final(self)@
                == old(self)@,
            result is Ok ==> final(self)@ == old(self)@.write(bytes@),
    {
        let length = bytes.len();
        if length == 0 {
            // If we got no bytes there is nothing to do here
            assert(self@.payload + bytes@ =~= self@.payload);
            Ok(())
        } else if self.bytes_written > MAX_PAYLOAD_SIZE || length as u64 > MAX_PAYLOAD_SIZE
            - self.bytes_written {
            Err(Error::PayloadTooLarge)
        } else if length < 127 - self.offset {
            // If we do not have enough bytes to form a quad, just put the new
            // bytes behind those in the buffer.
            self.stash(bytes);
            Ok(())
        } else {
            self.absorb(bytes);
            Ok(())
        }
    }

    /// Puts `bytes`, which do not fill the buffer, behind what waits in it.
    fn stash(&mut self, bytes: &[u8])
        requires
            old(self).wf(),
            bytes@.len() < 127 - old(self).offset,
            old(self)@.count() + bytes@.len() <= MAX_PAYLOAD_SIZE,
        ensures
            final(self).wf(),
            final(self)@ == old(self)@.write(bytes@),
    {
        let length = bytes.len();
        let ghost before = self.model@;
        let ghost after = before.write(bytes@);
        let ghost start = self.consumed();
        fill(&mut self.buffer, self.offset, bytes, 0, length);
        self.offset += length;
        self.bytes_written += length as u64;
        self.model = Ghost(after);
        proof {
            assert(after.payload.subrange(0, start) =~= before.payload.subrange(0, start));
            lemma_waiting(
                old(self).buffer@,
                self.buffer@,
                old(self).offset as int,
                bytes@,
                length as int,
                before.payload,
            );
        }
    }

    /// Takes in `bytes`, which fill the buffer: the quad in the buffer and
    /// the whole quads behind it are hashed into leaves, but for a last
    /// quad, whole or not, which waits in the buffer; then the leaves are
    /// settled into the forest.
    fn absorb(&mut self, bytes: &[u8])
        requires
            old(self).wf(),
            bytes@.len() >= 127 - old(self).offset,
            old(self)@.count() + bytes@.len() <= MAX_PAYLOAD_SIZE,
        ensures
            final(self).wf(),
            final(self)@ == old(self)@.write(bytes@),
    {
        let length = bytes.len();
        let ghost before = self.model@;
        let ghost after = before.write(bytes@);
        let ghost start = self.consumed();
        let ghost settled = leaves_of(before.payload.subrange(0, start));
        let ghost forest = forest_view(self.layers@);
        let bytes_required = 127 - self.offset;
        fill(&mut self.buffer, self.offset, bytes, 0, bytes_required);
        proof {
            lemma_waiting(
                old(self).buffer@,
                self.buffer@,
                self.offset as int,
                bytes@,
                bytes_required as int,
                before.payload,
            );
            assert(self.buffer@.subrange(0, 127) =~= self.buffer@);
            assert(after.payload.subrange(start, start + 127) =~= before.payload.subrange(
                start,
                before.payload.len() as int,
            ) + bytes@.subrange(0, bytes_required as int));
        }
        let quad = self.buffer;
        read_quad(quad.as_slice(), 0, &mut self.layers[0]);
        let read_offset = read_quads(bytes, bytes_required, &mut self.layers[0]);
        let rest: usize = length - read_offset;
        fill(&mut self.buffer, 0, bytes, read_offset, rest);
        let ghost end = start + self.offset + read_offset;
        let ghost fresh = leaves_of(after.payload.subrange(start, end));
        proof {
            let first = after.payload.subrange(start, start + 127);
            let others = bytes@.subrange(bytes_required as int, read_offset as int);
            assert(self.buffer@.subrange(0, 127) =~= self.buffer@);
            assert(after.payload.subrange(start, end) =~= first + others);
            lemma_leaves_of_quad(first);
            lemma_leaves_concat(first, others);
            assert(nodes_view(self.layers@[0]@) =~= forest[0] + fresh);
            lemma_more_fresh(
                forest,
                forest_view(self.layers@),
                before.seed,
                settled,
                Seq::empty(),
                fresh,
            );
            assert(Seq::<Seq<u8>>::empty() + fresh =~= fresh);
            assert(after.payload.subrange(0, start) =~= before.payload.subrange(0, start));
            assert(after.payload.subrange(0, end) =~= after.payload.subrange(0, start)
                + after.payload.subrange(start, end));
            lemma_leaves_concat(after.payload.subrange(0, start), after.payload.subrange(start, end));
        }
        self.offset = rest;
        self.bytes_written += length as u64;
        prune(&mut self.layers, Ghost(before.seed), Ghost(settled), Ghost(fresh));
        self.model = Ghost(after);
        proof {
            assert(self.buffer@.subrange(0, rest as int) =~= after.payload.subrange(
                end,
                after.payload.len() as int,
            ));
        }
    }

    /// Closes the tree over what has been taken in, on a copy of the
    /// forest: a quad that waits in the buffer is zero filled and hashed (so
    /// is a quad of zeros where nothing was taken in at all), and the copy is
    /// built up to its root. Returns the height of the tree and its root.
    fn summit(&mut self) -> (top: (usize, MerkleTreeNode))
        requires
            old(self).wf(),
        ensures
            final(self).wf(),
            final(self)@ == old(self)@,
            top.0 == old(self)@.height(),
            top.0 <= 60,
            top.1@ == old(self)@.root(),
    {
        let ghost view = self.model@;
        let ghost start = self.consumed();
        let ghost settled = leaves_of(view.payload.subrange(0, start));
        let ghost mut fresh: Seq<Seq<u8>> = Seq::empty();
        let mut layers = copy_of(&self.layers);
        let ghost forest = forest_view(layers@);
        proof {
            lemma_forest_height(forest, view.seed, settled);
            lemma_last_quad(view, self.offset as int);
            assert(level_nodes(view.seed, settled, false, 0) =~= settled);
        }
        if self.offset > 0 || self.bytes_written == 0 {
            zero_fill(&mut self.buffer, self.offset);
            let quad = self.buffer;
            read_quad(quad.as_slice(), 0, &mut layers[0]);
            proof {
                let filled = zero_filled(view.payload, view.seed is Some);
                assert(quad@.subrange(0, 127) =~= quad@);
                assert(quad@ =~= filled.subrange(start, start + 127)) by {
                    assert forall|j: int| 0 <= j < 127 implies quad@[j] == filled[start + j] by {
                        if j < self.offset {
                            assert(old(self).buffer@.subrange(0, self.offset as int)[j]
                                == view.payload.subrange(start, view.payload.len() as int)[j]);
                        }
                    }
                }
                fresh = quad_leaves(quad@);
                lemma_more_fresh(
                    forest,
                    forest_view(layers@),
                    view.seed,
                    settled,
                    Seq::empty(),
                    fresh,
                );
                assert(Seq::<Seq<u8>>::empty() + fresh =~= fresh);
                assert(self.buffer@.subrange(0, self.offset as int) =~= old(self).buffer@.subrange(
                    0,
                    self.offset as int,
                ));
            }
        } else {
            proof {
                assert(settled + fresh =~= settled);
                if layers@.len() == 1 {
                    // something was written, so two leaves or more have settled
                    assert(level_nodes(view.seed, settled, false, 1).len() >= 1);
                }
            }
        }
        build(&mut layers, Ghost(view.seed), Ghost(settled), Ghost(fresh));
        let height = layers.len();
        let root = layers[height - 1][0];
        (height, root)
    }

    /// The digest of what has been taken in so far: the zero padding as a
    /// varint, the height of the tree in one byte, and its root. No payload
    /// is too small for one: where nothing was taken in, the digest is that
    /// of a quad of zeros, with a padding of 127. The hasher can be written
    /// to afterwards as if nothing had happened.
    pub fn finalize(&mut self) -> (digest: &[u8])
        requires
            old(self).wf(),
        ensures
            final(self).wf(),
            final(self)@ == old(self)@,
            digest@ == old(self)@.digest(),
            digest@.len() <= MAX_MULTIHASH_SIZE,
    {
        let (height, root) = self.summit();
        let ghost view = self.model@;
        let padding = encode_varint(required_zero_padding(self.bytes_written));
        proof {
            lemma_varint_len(zero_padding_of(view.count()) as nat);
        }
        let size = padding.len();
        let mut i: usize = 0;
        while i < size
            invariant
                i <= size == padding@.len() <= 10,
                self.wf(),
                self.model@ == view,
                forall|j: int| 0 <= j < i ==> self.digest@[j] == padding@[j],
            decreases size - i,
        {
            self.digest[i] = padding[i];
            i += 1;
        }
        self.digest[size] = height as u8;
        let mut k: usize = 0;
        while k < NODE_SIZE
            invariant
                k <= NODE_SIZE == 32,
                size == padding@.len() <= 10,
                self.wf(),
                self.model@ == view,
                forall|j: int| 0 <= j < size ==> self.digest@[j] == padding@[j],
                self.digest@[size as int] == height as u8,
                forall|j: int| 0 <= j < k ==> self.digest@[size + 1 + j] == root@[j],
            decreases NODE_SIZE - k,
        {
            self.digest[size + 1 + k] = root.0[k];
            k += 1;
        }
        let digest = vstd::slice::slice_subrange(self.digest.as_slice(), 0, size + 1 + NODE_SIZE);
        assert(digest@ =~= view.digest());
        digest
    }

    /// Takes in `bytes`.
    pub fn update(&mut self, bytes: &[u8])
        requires
            old(self).wf(),
            bytes@.len() == 0 || old(self)@.count() + bytes@.len() <= MAX_PAYLOAD_SIZE,
        ensures
            final(self).wf(),
            final(self)@ == old(self)@.write(bytes@),
    {
        self.try_update(bytes).unwrap();
    }

    /// Forgets all that was taken in.
    pub fn reset(&mut self)
        ensures
            final(self).wf(),
            final(self)@ == (HasherView { seed: None, payload: Seq::empty() }),
    {
        let fresh = PieceHasher::new();
        self.offset = 0;
        self.bytes_written = 0;
        self.layers = fresh.layers;
        self.model = fresh.model;
        assert(self.buffer@.subrange(0, 0) =~= fresh.buffer@.subrange(0, 0));
    }

    /// A hasher that has taken in nothing.
    pub fn create() -> (hasher: Self)
        ensures
            hasher.wf(),
            hasher@ == (HasherView { seed: None, payload: Seq::empty() }),
    {
        PieceHasher::new()
    }

    /// The number of bytes counted so far.
    pub fn count(&self) -> (count: u64)
        requires
            self.wf(),
        ensures
            count == self@.count(),
    {
        self.bytes_written
    }

    /// Takes in `bytes`, or refuses them where they would take the count
    /// past the largest payload.
    pub fn write(&mut self, bytes: &[u8]) -> (result: Result<(), Error>)
        requires
            old(self).wf(),
        ensures
            final(self).wf(),
            result is Err <==> bytes@.len() > 0 && old(self)@.count() + bytes@.len()
                > MAX_PAYLOAD_SIZE,
            result is Err ==> result == Err::<(), Error>(Error::PayloadTooLarge) && final(self)@
                == old(self)@,
            result is Ok ==> final(self)@ == old(self)@.write(bytes@),
    {
        self.try_update(bytes)
    }

    /// The digest so far, as a multihash.
    pub fn multihash(&mut self) -> (hash: Multihash)
        requires
            old(self).wf(),
        ensures
            final(self).wf(),
            final(self)@ == old(self)@,
            hash.wf(),
            hash@ == (MultihashView { code: CODE, digest: old(self)@.digest() }),
    {
        let bytes = self.finalize();
        Multihash::wrap(CODE, bytes)
    }

    /// The content identifier of what was taken in so far: version 1, the
    /// codec of raw bytes, and the multihash.
    pub fn link(&mut self) -> (cid: Cid)
        requires
            old(self).wf(),
        ensures
            final(self).wf(),
            final(self)@ == old(self)@,
            cid.wf(),
            cid@ == (CidView {
                codec: RAW,
                hash: MultihashView { code: CODE, digest: old(self)@.digest() },
            }),
    {
        Cid::new_v1(RAW, self.multihash())
    }

    /// A hasher that continues from `piece`: what is written next comes to
    /// stand beside the piece in the tree. The count starts at what the
    /// piece holds, payload and zero padding together, since the tree inside
    /// the piece is not known and nothing can be hashed into it.
    pub fn from_piece(piece: &Piece) -> (hasher: Self)
        requires
            2 <= piece@.height <= MAX_PIECE_HEIGHT,
            piece@.padding_size <= padded_size_of(piece@.height),
        ensures
            hasher.wf(),
            hasher@ == (HasherView {
                seed: Some(Seed { level: (piece@.height - 1) as nat, node: piece@.root }),
                payload: Seq::empty(),
            }),
    {
        let mut hasher = PieceHasher::blank();
        let ghost seed = Seed { level: (piece@.height - 1) as nat, node: piece@.root };
        proof {
            lemma_seed_size(seed.level);
        }
        // All but the top layer are empty: what was in them has gone into the root.
        let top = piece.height() - 1;
        let mut level: usize = 0;
        while level < top
            invariant
                level <= top,
                hasher.layers@.len() == level + 1,
                hasher.offset == 0,
                forall|l: int| 0 <= l <= level ==> (#[trigger] hasher.layers@[l])@.len() == 0,
            decreases top - level,
        {
            hasher.layers.push(Vec::new());
            level += 1;
        }
        let mut summit: Vec<MerkleTreeNode> = Vec::new();
        summit.push(piece.root());
        hasher.layers[top] = summit;
        hasher.bytes_written = piece.payload_size() + piece.padding_size();
        hasher.model = Ghost(HasherView { seed: Some(seed), payload: Seq::empty() });
        proof {
            let forest = forest_view(hasher.layers@);
            let leaves = leaves_of(Seq::<u8>::empty().subrange(0, 0));
            assert(leaves =~= Seq::<Seq<u8>>::empty());
            assert forall|l: int| 0 <= l < forest.len() implies #[trigger] forest[l] == carry(
                level_nodes(Some(seed), leaves, false, l as nat),
            ) by {
                lemma_seed_alone(seed, false, l as nat);
                if l == top {
                    assert(forest[l] =~= seq![seed.node]);
                } else {
                    assert(forest[l] =~= Seq::<Seq<u8>>::empty());
                }
            }
            lemma_seed_alone(seed, false, forest.len());
            lemma_seed_alone(seed, false, top as nat);
            assert(forest[0] =~= forest[0] + Seq::<Seq<u8>>::empty());
            assert(hasher.buffer@.subrange(0, 0) =~= Seq::<u8>::empty().subrange(0, 0));
            lemma_seed_size(seed.level);
        }
        hasher
    }

    /// A hasher that has taken in `bytes`.
    pub fn from_bytes(bytes: &[u8]) -> (hasher: Self)
        requires
            bytes@.len() <= MAX_PAYLOAD_SIZE,
        ensures
            hasher.wf(),
            hasher@ == (HasherView { seed: None, payload: bytes@ }),
    {
        let mut hasher = PieceHasher::new();
        hasher.update(bytes);
        assert(Seq::<u8>::empty() + bytes@ =~= bytes@);
        hasher
    }

    /// The number of bytes that the digest takes.
    pub fn digest_size(&self) -> (size: usize)
        requires
            self.wf(),
        ensures
            size == self@.digest().len(),
            size <= MAX_MULTIHASH_SIZE,
    {
        let padding = required_zero_padding(self.bytes_written);
        proof {
            lemma_digest_len(self@);
        }
        varint_estimate(padding) + HEIGHT_SIZE + ROOT_SIZE
    }

    /// The number of bytes that the multihash takes on the wire.
    pub fn multihash_size(&self) -> (size: usize)
        requires
            self.wf(),
        ensures
            size == multihash_bytes_of(CODE, self@.digest()).len(),
    {
        let hash_size = self.digest_size();
        proof {
            reveal_with_fuel(varint, 3);
        }
        CODE_SIZE + varint_estimate(hash_size as u64) + hash_size
    }

    /// Writes the multihash of what was taken in so far into `target`,
    /// from `offset` on (from the start, where none is given): its wire form,
    /// or the digest alone where `use_prefix` is false. Returns the number of
    /// bytes written.
    pub fn read(
        &mut self,
        target: &mut [u8],
        offset: Option<usize>,
        use_prefix: Option<bool>,
    ) -> (written: usize)
        requires
            old(self).wf(),
            read_start(offset) + read_bytes(old(self)@, use_prefix).len() <= old(target)@.len(),
        ensures
            final(self).wf(),
            final(self)@ == old(self)@,
            written == read_bytes(old(self)@, use_prefix).len(),
            final(target)@.len() == old(target)@.len(),
            final(target)@.subrange(read_start(offset), read_start(offset) + written)
                == read_bytes(old(self)@, use_prefix),
            forall|i: int|
                0 <= i < old(target)@.len() && !(read_start(offset) <= i < read_start(offset)
                    + written) ==> final(target)@[i] == old(target)@[i],
    {
        let hash = self.multihash();
        let byte_offset: usize = match offset {
            Some(at) => at,
            None => 0,
        };
        let prefix: bool = match use_prefix {
            Some(wanted) => wanted,
            None => true,
        };
        let bytes: Vec<u8> = if prefix {
            hash.to_bytes()
        } else {
            vstd::slice::slice_to_vec(hash.digest())
        };
        let size = bytes.len();
        let capacity = target.len();
        let mut i: usize = 0;
        while i < size
            invariant
                i <= size == bytes@.len(),
                byte_offset + size <= capacity == target@.len() == old(target)@.len(),
                forall|k: int| 0 <= k < i ==> target@[byte_offset + k] == bytes@[k],
                forall|k: int|
                    0 <= k < capacity && !(byte_offset <= k < byte_offset + i) ==> target@[k]
                        == old(target)@[k],
            decreases size - i,
        {
            target[byte_offset + i] = bytes[i];
            i += 1;
        }
        assert(target@.subrange(byte_offset as int, byte_offset + size) =~= bytes@);
        size
    }
}

impl Default for PieceHasher {
    fn default() -> (hasher: Self)
        ensures
            hasher.wf(),
            hasher@ == (HasherView { seed: None, payload: Seq::empty() }),
    {
        PieceHasher::new()
    }
}

} // verus!
