//! What a digest is: the tree over a seed and a payload, as a function of
//! the two alone, and the laws that hold of it.

use crate::forest::{
    all_nodes, lemma_root_is_node, lemma_seed_is_root, lemma_tree_height, lemma_zero_tree,
    tree_height, tree_root, Seed,
};
use crate::fr32::{pad_byte, pad_quad_of, quad_at};
use crate::hasher::MAX_MULTIHASH_SIZE;
use crate::piece::padded_size_of;
use crate::tree::node_hash;
use crate::util::{
    ceil_pow2, lemma_ceil_pow2_monotone, lemma_padding_fits, lemma_varint_len, quad_count, varint,
    width_of, zero_padding_of,
};
use crate::zero_comm::zero_commitment;
use vstd::arithmetic::power2::{
    lemma2_to64, lemma2_to64_rest, lemma_pow2_pos, lemma_pow2_strictly_increases,
    lemma_pow2_unfold, pow2,
};
use vstd::prelude::*;

verus! {

/// The most bytes that a hasher ever counts: what a piece of the greatest
/// height that has a size holds, `2^56 * 127` bytes.
pub const MAX_COUNT: u64 = 0x7f00_0000_0000_0000;

/// The two leaves that a 127-byte quad gives: the hashes of the two halves
/// of the quad once it is Fr32 padded.
pub open spec fn quad_leaves(quad: Seq<u8>) -> Seq<Seq<u8>> {
    let padded = pad_quad_of(quad);
    seq![node_hash(padded.subrange(0, 64)), node_hash(padded.subrange(64, 128))]
}

/// The leaves of the whole quads of `payload`, in order.
pub open spec fn leaves_of(payload: Seq<u8>) -> Seq<Seq<u8>> {
    Seq::new(
        (payload.len() / 127 * 2) as nat,
        |i: int| quad_leaves(quad_at(payload, i / 2, 127))[i % 2],
    )
}

/// The payload with zeros behind it up to a whole number of quads. No
/// payload is too small for a digest: one of no bytes that follows no seed
/// gets one quad of zeros.
pub open spec fn zero_filled(payload: Seq<u8>, seeded: bool) -> Seq<u8> {
    let rest = payload.len() % 127;
    if rest > 0 {
        payload + Seq::new((127 - rest) as nat, |i: int| 0u8)
    } else if payload.len() == 0 && !seeded {
        Seq::new(127, |i: int| 0u8)
    } else {
        payload
    }
}

/// What a hasher has taken in: the subtree it was seeded with, if any, and
/// all the bytes written to it since.
pub struct HasherView {
    pub seed: Option<Seed>,
    pub payload: Seq<u8>,
}

impl HasherView {
    /// The number of payload bytes that the seed stands for.
    pub open spec fn seed_size(self) -> nat {
        match self.seed {
            Some(s) => padded_size_of(s.level + 1),
            None => 0,
        }
    }

    /// The number of bytes counted so far: those of the seed and those written.
    pub open spec fn count(self) -> nat {
        self.seed_size() + self.payload.len()
    }

    /// The leaves of the tree: those of the payload, zero filled.
    pub open spec fn leaves(self) -> Seq<Seq<u8>> {
        leaves_of(zero_filled(self.payload, self.seed is Some))
    }

    /// The height of the tree over the seed and the payload.
    pub open spec fn height(self) -> nat {
        tree_height(self.seed, self.leaves())
    }

    /// The root of the tree over the seed and the payload.
    pub open spec fn root(self) -> Seq<u8> {
        tree_root(self.seed, self.leaves())
    }

    /// The digest: the zero padding as a varint, the height in one byte,
    /// and the root.
    pub open spec fn digest(self) -> Seq<u8> {
        varint(zero_padding_of(self.count()) as nat) + seq![self.height() as u8] + self.root()
    }

    /// What the hasher has taken in once `bytes` are written to it.
    pub open spec fn write(self, bytes: Seq<u8>) -> HasherView {
        HasherView { seed: self.seed, payload: self.payload + bytes }
    }
}

/// A seed stands in a layer above the bottom one, and for a piece that has
/// a size.
pub open spec fn seed_fits(seed: Option<Seed>) -> bool {
    match seed {
        Some(s) => 1 <= s.level <= 57 && s.node.len() == 32,
        None => true,
    }
}

/// The leaves of one quad are its two leaves.
pub proof fn lemma_leaves_of_quad(quad: Seq<u8>)
    requires
        quad.len() == 127,
    ensures
        leaves_of(quad) == quad_leaves(quad),
{
    assert(quad_at(quad, 0, 127) =~= quad);
    assert(leaves_of(quad) =~= quad_leaves(quad));
}

/// The leaves of whole quads followed by one more quad are the leaves of
/// the former followed by the two leaves of the latter.
pub proof fn lemma_leaves_append(front: Seq<u8>, quad: Seq<u8>)
    requires
        front.len() % 127 == 0,
        quad.len() == 127,
    ensures
        leaves_of(front + quad) == leaves_of(front) + quad_leaves(quad),
{
    let whole = front + quad;
    let n = front.len() / 127;
    assert(whole.len() / 127 == n + 1);
    assert forall|i: int| 0 <= i < leaves_of(whole).len() implies leaves_of(whole)[i] == (leaves_of(
        front,
    ) + quad_leaves(quad))[i] by {
        let k = i / 2;
        if k < n {
            assert(k * 127 + 127 <= front.len()) by (nonlinear_arith)
                requires
                    k < n,
                    n == front.len() / 127,
                    k >= 0,
            ;
            assert(quad_at(whole, k, 127) =~= quad_at(front, k, 127));
        } else {
            assert(k == n);
            assert(n * 127 == front.len());
            assert(quad_at(whole, k, 127) =~= quad);
        }
    }
    assert(leaves_of(whole) =~= leaves_of(front) + quad_leaves(quad));
}

/// The leaves of whole quads followed by more bytes are the leaves of the
/// former followed by the leaves of the latter.
pub proof fn lemma_leaves_concat(front: Seq<u8>, rest: Seq<u8>)
    requires
        front.len() % 127 == 0,
    ensures
        leaves_of(front + rest) == leaves_of(front) + leaves_of(rest),
{
    let whole = front + rest;
    let n = front.len() / 127;
    let m = rest.len() / 127;
    assert(whole.len() / 127 == n + m);
    assert forall|i: int| 0 <= i < leaves_of(whole).len() implies leaves_of(whole)[i] == (leaves_of(
        front,
    ) + leaves_of(rest))[i] by {
        let k = i / 2;
        if k < n {
            assert(k * 127 + 127 <= front.len()) by (nonlinear_arith)
                requires
                    0 <= k < n,
                    n * 127 == front.len(),
            ;
            assert(quad_at(whole, k, 127) =~= quad_at(front, k, 127));
        } else {
            let j = k - n;
            assert(j * 127 + 127 <= rest.len()) by (nonlinear_arith)
                requires
                    0 <= j < m,
                    m == rest.len() / 127,
            ;
            assert(k * 127 == front.len() + j * 127) by (nonlinear_arith)
                requires
                    k == n + j,
                    n * 127 == front.len(),
            ;
            assert(quad_at(whole, k, 127) =~= quad_at(rest, j, 127));
            assert((i - 2 * n) / 2 == j && (i - 2 * n) % 2 == i % 2);
        }
    }
    assert(leaves_of(whole) =~= leaves_of(front) + leaves_of(rest));
}

/// The leaves of the first `end + 127` bytes of a payload are those of its
/// first `end` bytes followed by the leaves of the quad that starts there.
pub proof fn lemma_leaves_extend(payload: Seq<u8>, end: int)
    requires
        0 <= end,
        end % 127 == 0,
        end + 127 <= payload.len(),
    ensures
        leaves_of(payload.subrange(0, end + 127)) == leaves_of(payload.subrange(0, end))
            + quad_leaves(payload.subrange(end, end + 127)),
{
    let front = payload.subrange(0, end);
    let quad = payload.subrange(end, end + 127);
    lemma_leaves_append(front, quad);
    assert(front + quad =~= payload.subrange(0, end + 127));
}

/// A piece of height two or more holds a quad at least.
pub proof fn lemma_seed_size(level: nat)
    requires
        level >= 1,
    ensures
        padded_size_of(level + 1) >= 127,
        level <= 57 ==> padded_size_of(level + 1) <= MAX_COUNT,
{
    lemma2_to64();
    lemma2_to64_rest();
    if level + 1 > 2 {
        lemma_pow2_strictly_increases(2, level + 1);
    }
    if level + 1 < 58 {
        lemma_pow2_strictly_increases(level + 1, 58);
    }
}

/// A digest is as long as its padding takes as a varint, and 33 bytes more.
pub proof fn lemma_digest_len(view: HasherView)
    requires
        seed_fits(view.seed),
        view.count() <= MAX_COUNT,
    ensures
        view.digest().len() == varint(zero_padding_of(view.count()) as nat).len() + 33,
        view.digest().len() <= MAX_MULTIHASH_SIZE,
{
    let leaves = view.leaves();
    assert(all_nodes(leaves));
    lemma_root_is_node(view.seed, leaves);
    lemma_varint_len(zero_padding_of(view.count()) as nat);
    lemma_padding_fits(view.count());
}

/// Chunks do not matter: writing `first` and then `second` leaves the
/// hasher with what writing the two as one leaves it with, and so with the
/// same digest.
pub proof fn lemma_chunks_do_not_matter(view: HasherView, first: Seq<u8>, second: Seq<u8>)
    ensures
        view.write(first).write(second) == view.write(first + second),
        view.write(first).write(second).digest() == view.write(first + second).digest(),
{
    assert((view.payload + first) + second =~= view.payload + (first + second));
}

/// The number of whole quads that a payload comes to once it is zero filled.
proof fn lemma_filled_quads(view: HasherView)
    ensures
        view.leaves().len() == 2 * (zero_filled(view.payload, view.seed is Some).len() / 127),
        view.seed is None ==> zero_filled(view.payload, false).len() / 127 == quad_count(
            view.payload.len(),
        ),
        view.seed is Some ==> zero_filled(view.payload, true).len() / 127 == (view.payload.len()
            + 126) / 127,
{
}

/// The height of the tree is the logarithm of its width: `2^height` is the
/// number of field elements that the count of bytes needs at the base of
/// the tree.
pub proof fn lemma_height_is_log_width(view: HasherView)
    requires
        seed_fits(view.seed),
    ensures
        pow2(view.height()) == width_of(view.count()),
{
    lemma_filled_quads(view);
    lemma_tree_height(view.seed, view.leaves());
    let quads = zero_filled(view.payload, view.seed is Some).len() / 127;
    match view.seed {
        Some(s) => {
            let half = pow2((s.level - 1) as nat);
            lemma_pow2_unfold(s.level);
            lemma_pow2_unfold(s.level + 1);
            lemma_pow2_pos((s.level - 1) as nat);
            assert(padded_size_of(s.level + 1) == half * 127) by {
                assert(pow2(s.level + 1) * 32 == (half * 128)) by (nonlinear_arith)
                    requires
                        pow2(s.level + 1) == 4 * half,
                ;
                assert((half * 128) / 128 == half);
            }
            assert(quad_count(view.count()) == half + quads) by {
                assert((half * 127 + view.payload.len() + 126) / 127 == half + (view.payload.len()
                    + 126) / 127) by (nonlinear_arith);
            }
            let all = (pow2(s.level) + 2 * quads) as nat;
            assert((all + 1) / 2 == half + quads);
            assert(ceil_pow2(all) == 2 * ceil_pow2((half + quads) as nat));
        },
        None => {
            let all = (2 * quads) as nat;
            assert((all + 1) / 2 == quads);
            assert(ceil_pow2(all) == 2 * ceil_pow2(quads as nat));
        },
    }
}

/// The tree never gets lower: after more bytes are written the height is
/// what it was, or more.
pub proof fn lemma_height_monotone(view: HasherView, bytes: Seq<u8>)
    requires
        seed_fits(view.seed),
    ensures
        view.height() <= view.write(bytes).height(),
{
    let more = view.write(bytes);
    lemma_height_is_log_width(view);
    lemma_height_is_log_width(more);
    lemma_ceil_pow2_monotone(quad_count(view.count()), quad_count(more.count()));
    if more.height() < view.height() {
        lemma_pow2_strictly_increases(more.height(), view.height());
    }
}

/// Both leaves of a quad of zeros are the zero commitment of level 1.
pub proof fn lemma_zero_quad_leaves()
    ensures
        quad_leaves(Seq::new(127, |i: int| 0u8)) == seq![zero_commitment(1), zero_commitment(1)],
{
    let quad = Seq::new(127, |i: int| 0u8);
    let padded = pad_quad_of(quad);
    let zero: u8 = 0;
    assert(((zero << 2) | (zero >> 6)) == 0 && ((zero << 4) | (zero >> 4)) == 0 && ((zero << 6) | (
    zero >> 2)) == 0 && zero >> 2 == 0 && zero & 0x3f == 0) by (bit_vector)
        requires
            zero == 0,
    ;
    assert forall|j: int| 0 <= j < 128 implies padded[j] == 0u8 by {
        assert(padded[j] == pad_byte(quad, j));
    }
    let half = zero_commitment(0) + zero_commitment(0);
    assert(padded.subrange(0, 64) =~= half);
    assert(padded.subrange(64, 128) =~= half);
    assert(zero_commitment(1) == node_hash(half));
}

/// Zero pieces and zero commitments agree: the tree of a hasher seeded
/// with the all-zero piece of a height, and the tree over as many zero
/// bytes as that piece holds, both have the zero commitment of that height
/// for their root, and both are that high.
pub proof fn lemma_zero_piece_agrees(height: nat)
    requires
        height >= 2,
    ensures
        ({
            let seeded = HasherView {
                seed: Some(Seed { level: (height - 1) as nat, node: zero_commitment(height) }),
                payload: Seq::empty(),
            };
            let written = HasherView {
                seed: None,
                payload: Seq::new(padded_size_of(height), |i: int| 0u8),
            };
            &&& seeded.root() == zero_commitment(height)
            &&& written.root() == zero_commitment(height)
            &&& seeded.height() == height
            &&& written.height() == height
        }),
{
    let seed = Seed { level: (height - 1) as nat, node: zero_commitment(height) };
    let seeded = HasherView { seed: Some(seed), payload: Seq::empty() };
    let zeros = Seq::new(padded_size_of(height), |i: int| 0u8);
    let written = HasherView { seed: None, payload: zeros };
    assert(zero_filled(seeded.payload, true) =~= Seq::<u8>::empty());
    assert(seeded.leaves() =~= Seq::<Seq<u8>>::empty());
    lemma_seed_is_root(seed);

    let quads = pow2((height - 2) as nat);
    lemma_pow2_unfold(height);
    lemma_pow2_unfold((height - 1) as nat);
    lemma_pow2_pos((height - 2) as nat);
    assert(padded_size_of(height) == quads * 127) by {
        assert(pow2(height) * 32 == quads * 128) by (nonlinear_arith)
            requires
                pow2(height) == 4 * quads,
        ;
        assert((quads * 128) / 128 == quads);
    }
    assert((quads * 127) % 127 == 0) by (nonlinear_arith);
    assert((quads * 127) / 127 == quads) by (nonlinear_arith);
    assert(zero_filled(zeros, false) == zeros);
    let leaves = written.leaves();
    let wanted = Seq::new(pow2((height - 1) as nat), |i: int| zero_commitment(1));
    lemma_zero_quad_leaves();
    assert forall|i: int| 0 <= i < leaves.len() implies leaves[i] == zero_commitment(1) by {
        let k = i / 2;
        assert(k * 127 + 127 <= zeros.len()) by (nonlinear_arith)
            requires
                0 <= k < quads,
                zeros.len() == quads * 127,
        ;
        assert(quad_at(zeros, k, 127) =~= Seq::new(127, |i: int| 0u8));
    }
    assert(leaves =~= wanted);
    lemma_zero_tree(leaves, (height - 1) as nat);
}

} // verus!
