//! The tree as a forest of layers: what each layer of the tree over some
//! leaves holds, what is left of it in a forest that keeps one node a layer,
//! and why folding such a forest gives the root of the zero-padded tree.

use crate::tree::{join_nodes, MerkleTreeNode};
use crate::zero_comm::zero_commitment;
use crate::util::ceil_pow2;
use vstd::arithmetic::power2::{
    lemma2_to64, lemma_pow2_adds, lemma_pow2_pos, lemma_pow2_strictly_increases,
    lemma_pow2_unfold, pow2,
};
use vstd::prelude::*;

verus! {

/// A subtree that an accumulator starts from: its root, and the layer of
/// the forest that the root stands in.
pub struct Seed {
    pub level: nat,
    pub node: Seq<u8>,
}

/// The parents of the nodes taken two by two, in order; a last node without
/// a partner has none.
pub open spec fn pairs(nodes: Seq<Seq<u8>>) -> Seq<Seq<u8>> {
    Seq::new(nodes.len() / 2, |i: int| join_nodes(nodes[2 * i], nodes[2 * i + 1]))
}

/// The node that is left without a partner, if the count is odd.
pub open spec fn carry(nodes: Seq<Seq<u8>>) -> Seq<Seq<u8>> {
    if nodes.len() % 2 == 1 {
        seq![nodes[nodes.len() - 1]]
    } else {
        Seq::empty()
    }
}

/// The nodes of layer `level` made even in number by a zero commitment.
pub open spec fn filled(nodes: Seq<Seq<u8>>, level: nat) -> Seq<Seq<u8>> {
    if nodes.len() % 2 == 1 {
        nodes.push(zero_commitment(level + 1))
    } else {
        nodes
    }
}

/// The nodes of layer `level`, made even in number where `pad` asks for it.
pub open spec fn evened(nodes: Seq<Seq<u8>>, pad: bool, level: nat) -> Seq<Seq<u8>> {
    if pad {
        filled(nodes, level)
    } else {
        nodes
    }
}

/// The seed's root, if it stands in layer `level`.
pub open spec fn seeded_at(seed: Option<Seed>, level: nat) -> Seq<Seq<u8>> {
    match seed {
        Some(s) => if s.level == level {
            seq![s.node]
        } else {
            Seq::empty()
        },
        None => Seq::empty(),
    }
}

/// The number of layers between `level` and the seed's layer, where the
/// seed is above.
pub open spec fn seed_gap(seed: Option<Seed>, level: nat) -> nat {
    match seed {
        Some(s) => if level < s.level {
            (s.level - level) as nat
        } else {
            0
        },
        None => 0,
    }
}

/// The number of leaves that the seed stands for, once `level` has
/// reached its layer.
pub open spec fn seed_weight(seed: Option<Seed>, level: nat) -> nat {
    match seed {
        Some(s) => if s.level <= level {
            pow2(s.level)
        } else {
            0
        },
        None => 0,
    }
}

/// The number of leaves that the seed stands for.
pub open spec fn seed_leaves(seed: Option<Seed>) -> nat {
    match seed {
        Some(s) => pow2(s.level),
        None => 0,
    }
}

/// All the nodes that layer `level` of the tree over `leaves` ever holds,
/// in order: the seed's root first, if it stands there, then the parents
/// of the layer below. With `pad`, a layer of odd count is first made even
/// by the zero commitment of its level.
pub open spec fn level_nodes(
    seed: Option<Seed>,
    leaves: Seq<Seq<u8>>,
    pad: bool,
    level: nat,
) -> Seq<Seq<u8>>
    decreases level,
{
    if level == 0 {
        seeded_at(seed, 0) + leaves
    } else {
        let below = level_nodes(seed, leaves, pad, (level - 1) as nat);
        seeded_at(seed, level) + pairs(
            if pad {
                filled(below, (level - 1) as nat)
            } else {
                below
            },
        )
    }
}

/// The first layer at or above `level`, and not below the seed, in which
/// the zero-padded tree has come down to a single node.
pub open spec fn root_level_from(seed: Option<Seed>, leaves: Seq<Seq<u8>>, level: nat) -> nat
    decreases seed_gap(seed, level), level_nodes(seed, leaves, true, level).len(),
{
    if seed_gap(seed, level) == 0 && level_nodes(seed, leaves, true, level).len() <= 1 {
        level
    } else {
        root_level_from(seed, leaves, level + 1)
    }
}

/// The height of the zero-padded tree over `leaves`: the number of its layers.
pub open spec fn tree_height(seed: Option<Seed>, leaves: Seq<Seq<u8>>) -> nat {
    root_level_from(seed, leaves, 0) + 1
}

/// The root of the zero-padded tree over `leaves`.
pub open spec fn tree_root(seed: Option<Seed>, leaves: Seq<Seq<u8>>) -> Seq<u8> {
    level_nodes(seed, leaves, true, root_level_from(seed, leaves, 0))[0]
}

/// Whether every node is 32 bytes long.
pub open spec fn all_nodes(nodes: Seq<Seq<u8>>) -> bool {
    forall|i: int| 0 <= i < nodes.len() ==> (#[trigger] nodes[i]).len() == 32
}

/// The nodes of a layer, as plain values.
pub open spec fn nodes_view(layer: Seq<MerkleTreeNode>) -> Seq<Seq<u8>> {
    Seq::new(layer.len(), |i: int| layer[i]@)
}

/// The layers of a forest, as plain values.
pub open spec fn forest_view(layers: Seq<Vec<MerkleTreeNode>>) -> Seq<Seq<Seq<u8>>> {
    Seq::new(layers.len(), |l: int| nodes_view(layers[l]@))
}

/// What a forest has to hold to stand for the tree over `leaves` with the
/// nodes `fresh` newly put into its bottom layer: of all the nodes a layer
/// ever held only the carry is left, there are as many layers as ever held
/// a node (but one at least, and as many as reach the seed), and `fresh`
/// waits behind the carry of the bottom layer.
pub open spec fn forest_holds(
    forest: Seq<Seq<Seq<u8>>>,
    seed: Option<Seed>,
    leaves: Seq<Seq<u8>>,
    fresh: Seq<Seq<u8>>,
) -> bool {
    &&& forest.len() >= 1
    &&& forest[0] == carry(level_nodes(seed, leaves, false, 0)) + fresh
    &&& forall|l: int|
        1 <= l < forest.len() ==> #[trigger] forest[l] == carry(
            level_nodes(seed, leaves, false, l as nat),
        )
    &&& level_nodes(seed, leaves, false, forest.len()).len() == 0
    &&& forest.len() > 1 ==> level_nodes(seed, leaves, false, (forest.len() - 1) as nat).len() >= 1
    &&& seed_gap(seed, (forest.len() - 1) as nat) == 0
}

/// How a forest looks after layer `level` of `before` was folded into the
/// layer above it.
pub open spec fn folded(
    before: Seq<Seq<Seq<u8>>>,
    after: Seq<Seq<Seq<u8>>>,
    level: int,
    pad: bool,
) -> bool {
    let ready = evened(before[level], pad, level as nat);
    let up = pairs(ready);
    &&& after.len() >= before.len()
    &&& after[level] == carry(ready)
    &&& forall|l: int|
        0 <= l < before.len() && l != level && l != level + 1 ==> #[trigger] after[l] == before[l]
    &&& level + 1 < before.len() ==> after.len() == before.len() && after[level + 1] == before[level
        + 1] + up
    &&& level + 1 == before.len() ==> if up.len() == 0 {
        after.len() == before.len()
    } else {
        after.len() == before.len() + 1 && after[level + 1] == up
    }
}

/// What holds of a forest in either kind of flush when the layers below
/// `level` have been folded: the layers above `level` are as they were, and
/// in layer `level` the nodes `incoming` wait behind the carry.
pub open spec fn flushing(
    forest: Seq<Seq<Seq<u8>>>,
    level: nat,
    incoming: Seq<Seq<u8>>,
    seed: Option<Seed>,
    leaves: Seq<Seq<u8>>,
    depth: nat,
) -> bool {
    &&& 1 <= depth <= forest.len()
    &&& level <= forest.len()
    &&& forest.len() == depth || forest.len() == level + 1 || forest.len() == level
    &&& level_nodes(seed, leaves, false, depth).len() == 0
    &&& depth > 1 ==> level_nodes(seed, leaves, false, (depth - 1) as nat).len() >= 1
    &&& seed_gap(seed, (depth - 1) as nat) == 0
    &&& forall|l: int|
        level < l < forest.len() ==> #[trigger] forest[l] == carry(
            level_nodes(seed, leaves, false, l as nat),
        )
    &&& level < forest.len() ==> forest[level as int] == carry(
        level_nodes(seed, leaves, false, level),
    ) + incoming
    &&& depth <= level < forest.len() ==> incoming.len() >= 1
}

/// What holds besides when the flush prunes: the layers below `level` hold
/// the carries of the tree over all the leaves.
pub open spec fn pruning(
    forest: Seq<Seq<Seq<u8>>>,
    level: nat,
    incoming: Seq<Seq<u8>>,
    seed: Option<Seed>,
    leaves: Seq<Seq<u8>>,
    total: Seq<Seq<u8>>,
) -> bool {
    &&& level < forest.len() ==> level_nodes(seed, total, false, level) == level_nodes(
        seed,
        leaves,
        false,
        level,
    ) + incoming
    &&& forall|l: int|
        0 <= l < level ==> #[trigger] forest[l] == carry(level_nodes(seed, total, false, l as nat))
    &&& level == forest.len() ==> level_nodes(seed, total, false, level).len() == 0
    &&& level == forest.len() && level > 1 ==> level_nodes(seed, total, false, (level - 1) as nat).len()
        >= 1
}

/// What holds besides when the flush builds: no layer holds more than two
/// nodes when its turn comes, and no layer below `level` that is not below
/// the seed held the root.
pub open spec fn building(
    forest: Seq<Seq<Seq<u8>>>,
    level: nat,
    incoming: Seq<Seq<u8>>,
    seed: Option<Seed>,
    leaves: Seq<Seq<u8>>,
    total: Seq<Seq<u8>>,
    depth: nat,
    waiting: bool,
) -> bool {
    &&& level < forest.len() ==> level_nodes(seed, total, true, level) == level_nodes(
        seed,
        leaves,
        false,
        level,
    ) + incoming
    &&& forest.len() <= depth + 1
    &&& level < forest.len() ==> forest[level as int].len() <= 2
    &&& level >= 1 ==> incoming.len() <= 1
    &&& level < forest.len() ==> depth > 1 || level > 0 || waiting
    &&& forall|l: nat|
        l < level && l + 1 < forest.len() ==> seed_gap(seed, l) > 0 || #[trigger] level_nodes(
            seed,
            total,
            true,
            l,
        ).len() >= 2
    &&& level == forest.len() ==> level >= 1 && level_nodes(seed, total, true, (level - 1) as nat)
        == forest[level - 1] && forest[level - 1].len() == 1
}

/// The number of folds that a pruning flush has still to make, at most.
pub open spec fn prune_steps(
    forest: Seq<Seq<Seq<u8>>>,
    level: nat,
    seed: Option<Seed>,
    total: Seq<Seq<u8>>,
    depth: nat,
) -> int {
    (if level < depth {
        2 * (depth - level)
    } else {
        0
    }) + (if level < forest.len() {
        level_nodes(seed, total, false, level).len() as int
    } else {
        0
    }) + 2 * seed_gap(seed, level)
}

/// The parents of an even run of nodes followed by more nodes are the
/// parents of the run followed by the parents of the rest.
pub proof fn lemma_pairs_append(front: Seq<Seq<u8>>, rest: Seq<Seq<u8>>)
    requires
        front.len() % 2 == 0,
    ensures
        pairs(front + rest) == pairs(front) + pairs(rest),
{
    let whole = front + rest;
    let half = front.len() / 2;
    assert forall|i: int| 0 <= i < pairs(whole).len() implies pairs(whole)[i] == (pairs(front)
        + pairs(rest))[i] by {
        if i < half {
            assert(whole[2 * i] == front[2 * i]);
            assert(whole[2 * i + 1] == front[2 * i + 1]);
        } else {
            assert(whole[2 * i] == rest[2 * (i - half)]);
            assert(whole[2 * i + 1] == rest[2 * (i - half) + 1]);
        }
    }
    assert(pairs(whole) =~= pairs(front) + pairs(rest));
}

/// Folding a layer that has been folded before: of all the nodes `settled`
/// that came earlier only the carry is still there, and with the nodes
/// `incoming` behind it the carry gives the same new parents, and leaves the same
/// carry, as all the nodes together would.
pub proof fn lemma_fold_step(
    settled: Seq<Seq<u8>>,
    incoming: Seq<Seq<u8>>,
    pad: bool,
    level: nat,
)
    ensures
        pairs(evened(settled + incoming, pad, level)) == pairs(settled) + pairs(
            evened(carry(settled) + incoming, pad, level),
        ),
        carry(evened(settled + incoming, pad, level)) == carry(
            evened(carry(settled) + incoming, pad, level),
        ),
{
    let even = settled.subrange(0, settled.len() - settled.len() % 2);
    let kept = carry(settled) + incoming;
    assert(settled =~= even + carry(settled));
    assert(settled + incoming =~= even + kept);
    assert(evened(settled + incoming, pad, level) =~= even + evened(kept, pad, level));
    lemma_pairs_append(even, evened(kept, pad, level));
    lemma_pairs_append(even, carry(settled));
    assert(pairs(carry(settled)) =~= Seq::<Seq<u8>>::empty());
    assert(pairs(settled) =~= pairs(even));
    let all = evened(settled + incoming, pad, level);
    let part = evened(kept, pad, level);
    if all.len() % 2 == 1 {
        assert(all[all.len() - 1] == part[part.len() - 1]);
    }
    assert(carry(all) =~= carry(part));
}

/// One layer up: if layer `level` of the tree over `leaves + fresh` is that
/// of the unpadded tree over `leaves` with `incoming` behind it, then in the
/// layer above the parents of the carry and `incoming` stand behind what
/// the unpadded tree over `leaves` has there.
pub proof fn lemma_level_step(
    seed: Option<Seed>,
    leaves: Seq<Seq<u8>>,
    fresh: Seq<Seq<u8>>,
    pad: bool,
    level: nat,
    incoming: Seq<Seq<u8>>,
)
    requires
        level_nodes(seed, leaves + fresh, pad, level) == level_nodes(seed, leaves, false, level)
            + incoming,
    ensures
        level_nodes(seed, leaves + fresh, pad, level + 1) == level_nodes(
            seed,
            leaves,
            false,
            level + 1,
        ) + pairs(evened(carry(level_nodes(seed, leaves, false, level)) + incoming, pad, level)),
{
    let settled = level_nodes(seed, leaves, false, level);
    lemma_fold_step(settled, incoming, pad, level);
    let up = pairs(evened(carry(settled) + incoming, pad, level));
    assert(level_nodes(seed, leaves + fresh, pad, level + 1) == seeded_at(seed, level + 1) + pairs(
        evened(settled + incoming, pad, level),
    ));
    assert(level_nodes(seed, leaves, false, level + 1) == seeded_at(seed, level + 1) + pairs(
        settled,
    ));
    assert(seeded_at(seed, level + 1) + (pairs(settled) + up) =~= (seeded_at(seed, level + 1)
        + pairs(settled)) + up);
}

/// The bottom layer of the tree over `leaves + fresh` is that of the tree
/// over `leaves` with `fresh` behind it.
pub proof fn lemma_level_zero(
    seed: Option<Seed>,
    leaves: Seq<Seq<u8>>,
    fresh: Seq<Seq<u8>>,
    pad: bool,
)
    ensures
        level_nodes(seed, leaves + fresh, pad, 0) == level_nodes(seed, leaves, false, 0) + fresh,
{
    assert(seeded_at(seed, 0) + (leaves + fresh) =~= (seeded_at(seed, 0) + leaves) + fresh);
}

/// Above the seed, a layer that stays empty has only empty layers above it.
pub proof fn lemma_empty_above(seed: Option<Seed>, leaves: Seq<Seq<u8>>, level: nat, above: nat)
    requires
        seed_gap(seed, level) == 0,
        seeded_at(seed, level).len() == 0,
        level_nodes(seed, leaves, false, level).len() == 0,
        level <= above,
    ensures
        level_nodes(seed, leaves, false, above).len() == 0,
    decreases above - level,
{
    if level < above {
        lemma_empty_above(seed, leaves, level, (above - 1) as nat);
    }
}

/// At or above the seed, a layer below a layer that holds a node holds at
/// least two.
pub proof fn lemma_two_below(seed: Option<Seed>, leaves: Seq<Seq<u8>>, level: nat, above: nat)
    requires
        seed_gap(seed, level) == 0,
        level < above,
        level_nodes(seed, leaves, false, above).len() >= 1,
    ensures
        level_nodes(seed, leaves, false, level).len() >= 2,
    decreases above - level,
{
    if level + 1 < above {
        lemma_two_below(seed, leaves, level + 1, above);
    }
    assert(seeded_at(seed, level + 1).len() == 0);
}

/// The root is in layer `top` if that layer is not below the seed and
/// holds a single node, and no layer from `level` up to it does.
pub proof fn lemma_root_level(seed: Option<Seed>, leaves: Seq<Seq<u8>>, level: nat, top: nat)
    requires
        level <= top,
        seed_gap(seed, top) == 0,
        level_nodes(seed, leaves, true, top).len() <= 1,
        forall|l: nat|
            level <= l < top ==> seed_gap(seed, l) > 0 || #[trigger] level_nodes(
                seed,
                leaves,
                true,
                l,
            ).len() >= 2,
    ensures
        root_level_from(seed, leaves, level) == top,
    decreases top - level,
{
    if level < top {
        lemma_root_level(seed, leaves, level + 1, top);
    }
}

/// Once at or above the seed, always at or above the seed.
pub proof fn lemma_gap_stays(seed: Option<Seed>, level: nat, above: nat)
    requires
        seed_gap(seed, level) == 0,
        level <= above,
    ensures
        seed_gap(seed, above) == 0,
{
}

/// The search for the root passes over the layers below the seed.
pub proof fn lemma_root_skips_gap(seed: Option<Seed>, leaves: Seq<Seq<u8>>, level: nat)
    requires
        seed is Some,
        level <= seed->Some_0.level,
    ensures
        root_level_from(seed, leaves, level) == root_level_from(seed, leaves, seed->Some_0.level),
    decreases seed->Some_0.level - level,
{
    if level < seed->Some_0.level {
        lemma_root_skips_gap(seed, leaves, level + 1);
    }
}

/// A forest that holds a tree with fresh nodes in its bottom layer is
/// ready to be flushed from the bottom.
pub proof fn lemma_flush_start(
    forest: Seq<Seq<Seq<u8>>>,
    seed: Option<Seed>,
    leaves: Seq<Seq<u8>>,
    fresh: Seq<Seq<u8>>,
)
    requires
        forest_holds(forest, seed, leaves, fresh),
    ensures
        flushing(forest, 0, fresh, seed, leaves, forest.len()),
        pruning(forest, 0, fresh, seed, leaves, leaves + fresh),
        forest[0].len() <= 2 && (forest.len() > 1 || fresh.len() >= 1) ==> building(
            forest,
            0,
            fresh,
            seed,
            leaves,
            leaves + fresh,
            forest.len(),
            fresh.len() >= 1,
        ),
{
    lemma_level_zero(seed, leaves, fresh, false);
    lemma_level_zero(seed, leaves, fresh, true);
}

/// At or above the old top of the forest nothing has settled but a carry.
proof fn lemma_settled_at_top(seed: Option<Seed>, leaves: Seq<Seq<u8>>, depth: nat, level: nat)
    requires
        depth >= 1,
        level + 1 >= depth,
        level_nodes(seed, leaves, false, depth).len() == 0,
        seed_gap(seed, (depth - 1) as nat) == 0,
    ensures
        level_nodes(seed, leaves, false, level).len() <= 1,
        level_nodes(seed, leaves, false, level) == carry(level_nodes(seed, leaves, false, level)),
        level_nodes(seed, leaves, false, level + 1).len() == 0,
        level >= depth ==> level_nodes(seed, leaves, false, level).len() == 0,
{
    if level + 1 > depth {
        lemma_empty_above(seed, leaves, depth, level);
    }
    lemma_empty_above(seed, leaves, depth, level + 1);
    let settled = level_nodes(seed, leaves, false, level);
    assert(level_nodes(seed, leaves, false, level + 1).len() == seeded_at(seed, level + 1).len()
        + settled.len() / 2);
    assert(settled =~= carry(settled));
}

/// One fold of a pruning flush keeps what holds of the forest, and brings
/// the flush nearer to its end.
pub proof fn lemma_prune_step(
    before: Seq<Seq<Seq<u8>>>,
    after: Seq<Seq<Seq<u8>>>,
    level: nat,
    incoming: Seq<Seq<u8>>,
    seed: Option<Seed>,
    leaves: Seq<Seq<u8>>,
    fresh: Seq<Seq<u8>>,
    depth: nat,
)
    requires
        flushing(before, level, incoming, seed, leaves, depth),
        pruning(before, level, incoming, seed, leaves, leaves + fresh),
        level < before.len(),
        folded(before, after, level as int, false),
    ensures
        flushing(after, level + 1, pairs(before[level as int]), seed, leaves, depth),
        pruning(after, level + 1, pairs(before[level as int]), seed, leaves, leaves + fresh),
        0 <= prune_steps(after, level + 1, seed, leaves + fresh, depth) < prune_steps(
            before,
            level,
            seed,
            leaves + fresh,
            depth,
        ),
{
    let total = leaves + fresh;
    let settled = level_nodes(seed, leaves, false, level);
    let settled_above = level_nodes(seed, leaves, false, level + 1);
    let here = before[level as int];
    let up = pairs(here);
    assert(evened(here, false, level) == here);
    lemma_level_step(seed, leaves, fresh, false, level, incoming);
    lemma_fold_step(settled, incoming, false, level);
    if level + 1 >= depth {
        lemma_settled_at_top(seed, leaves, depth, level);
    }
    assert(settled_above.len() == seeded_at(seed, level + 1).len() + settled.len() / 2);
    if level + 1 < after.len() {
        if level + 1 < before.len() {
            assert(after[level as int + 1] == carry(settled_above) + up);
        } else {
            assert(after[level as int + 1] =~= carry(settled_above) + up);
        }
    }
    assert forall|l: int| 0 <= l < level + 1 implies #[trigger] after[l] == carry(
        level_nodes(seed, total, false, l as nat),
    ) by {
        if l < level {
            assert(after[l] == before[l]);
        }
    }
    assert forall|l: int| level + 1 < l < after.len() implies #[trigger] after[l] == carry(
        level_nodes(seed, leaves, false, l as nat),
    ) by {
        assert(after[l] == before[l]);
    }
    let total_above = level_nodes(seed, total, false, level + 1);
    assert(total_above == settled_above + up);
    assert(total_above.len() == seeded_at(seed, level + 1).len() + level_nodes(
        seed,
        total,
        false,
        level,
    ).len() / 2);
}

/// One fold of a building flush keeps what holds of the forest.
pub proof fn lemma_build_step(
    before: Seq<Seq<Seq<u8>>>,
    after: Seq<Seq<Seq<u8>>>,
    level: nat,
    incoming: Seq<Seq<u8>>,
    seed: Option<Seed>,
    leaves: Seq<Seq<u8>>,
    fresh: Seq<Seq<u8>>,
    depth: nat,
)
    requires
        flushing(before, level, incoming, seed, leaves, depth),
        building(before, level, incoming, seed, leaves, leaves + fresh, depth, fresh.len() >= 1),
        level < before.len(),
        folded(before, after, level as int, level + 1 < before.len()),
    ensures
        flushing(
            after,
            level + 1,
            pairs(evened(before[level as int], level + 1 < before.len(), level)),
            seed,
            leaves,
            depth,
        ),
        building(
            after,
            level + 1,
            pairs(evened(before[level as int], level + 1 < before.len(), level)),
            seed,
            leaves,
            leaves + fresh,
            depth,
            fresh.len() >= 1,
        ),
{
    let total = leaves + fresh;
    let settled = level_nodes(seed, leaves, false, level);
    let settled_above = level_nodes(seed, leaves, false, level + 1);
    let here = before[level as int];
    let topmost = level + 1 >= before.len();
    let ready = evened(here, !topmost, level);
    let up = pairs(ready);
    lemma_level_step(seed, leaves, fresh, true, level, incoming);
    lemma_fold_step(settled, incoming, true, level);
    assert(settled_above.len() == seeded_at(seed, level + 1).len() + settled.len() / 2);
    if level + 1 >= depth {
        lemma_settled_at_top(seed, leaves, depth, level);
    }
    if !topmost {
        // below the old top, where the seed is not above, two nodes have settled
        if seed_gap(seed, level) == 0 {
            lemma_two_below(seed, leaves, level, (depth - 1) as nat);
        }
    } else {
        assert(here.len() >= 1);
        assert(ready == here);
        if here.len() == 2 {
            assert(evened(here, true, level) == here);
        } else {
            assert(level_nodes(seed, total, true, level) =~= here);
            assert(carry(here) =~= here);
        }
    }
    if level + 1 < after.len() {
        if level + 1 < before.len() {
            assert(after[level as int + 1] == carry(settled_above) + up);
        } else {
            assert(after[level as int + 1] =~= carry(settled_above) + up);
        }
    }
    assert forall|l: int| level + 1 < l < after.len() implies #[trigger] after[l] == carry(
        level_nodes(seed, leaves, false, l as nat),
    ) by {
        assert(after[l] == before[l]);
    }
}

/// When a pruning flush has folded every layer, the forest holds the tree
/// over all the leaves.
pub proof fn lemma_prune_done(
    forest: Seq<Seq<Seq<u8>>>,
    incoming: Seq<Seq<u8>>,
    seed: Option<Seed>,
    leaves: Seq<Seq<u8>>,
    fresh: Seq<Seq<u8>>,
    depth: nat,
)
    requires
        flushing(forest, forest.len(), incoming, seed, leaves, depth),
        pruning(forest, forest.len(), incoming, seed, leaves, leaves + fresh),
    ensures
        forest_holds(forest, seed, leaves + fresh, Seq::empty()),
{
    let total = leaves + fresh;
    assert(forest[0] =~= carry(level_nodes(seed, total, false, 0)) + Seq::<Seq<u8>>::empty());
    if forest.len() > depth {
        lemma_gap_stays(seed, (depth - 1) as nat, (forest.len() - 1) as nat);
    }
}

/// When a building flush has folded every layer, the top of the forest
/// holds the root of the zero-padded tree over all the leaves, and the
/// forest is as high as that tree.
pub proof fn lemma_build_done(
    forest: Seq<Seq<Seq<u8>>>,
    incoming: Seq<Seq<u8>>,
    seed: Option<Seed>,
    leaves: Seq<Seq<u8>>,
    fresh: Seq<Seq<u8>>,
    depth: nat,
)
    requires
        flushing(forest, forest.len(), incoming, seed, leaves, depth),
        building(
            forest,
            forest.len(),
            incoming,
            seed,
            leaves,
            leaves + fresh,
            depth,
            fresh.len() >= 1,
        ),
    ensures
        forest.len() == tree_height(seed, leaves + fresh),
        forest[forest.len() - 1] == seq![tree_root(seed, leaves + fresh)],
{
    let top = (forest.len() - 1) as nat;
    lemma_gap_stays(seed, (depth - 1) as nat, top);
    lemma_root_level(seed, leaves + fresh, 0, top);
    assert(forest[forest.len() - 1] =~= seq![tree_root(seed, leaves + fresh)]);
}

/// Each node of layer `level` stands for `2^level` leaves of its own, so a
/// layer cannot hold more nodes than the leaves and the seed allow.
pub proof fn lemma_level_weight(seed: Option<Seed>, leaves: Seq<Seq<u8>>, level: nat)
    ensures
        level_nodes(seed, leaves, false, level).len() * pow2(level) <= leaves.len() + seed_weight(
            seed,
            level,
        ),
    decreases level,
{
    lemma2_to64();
    let here = level_nodes(seed, leaves, false, level);
    if level > 0 {
        let below = level_nodes(seed, leaves, false, (level - 1) as nat);
        lemma_level_weight(seed, leaves, (level - 1) as nat);
        lemma_pow2_unfold(level);
        let half = pow2((level - 1) as nat);
        let whole = pow2(level);
        let count = below.len();
        let extra = seeded_at(seed, level).len();
        assert(here.len() == extra + count / 2);
        assert(whole == 2 * half);
        assert((extra + count / 2) * whole <= extra * whole + count * half) by (nonlinear_arith)
            requires
                whole == 2 * half,
        ;
        assert(extra * whole + seed_weight(seed, (level - 1) as nat) <= seed_weight(seed, level))
            by (nonlinear_arith)
            requires
                extra == 0 || extra == 1,
                extra == 1 ==> seed_weight(seed, (level - 1) as nat) == 0 && seed_weight(seed, level)
                    == whole,
                extra == 0 ==> seed_weight(seed, (level - 1) as nat) == seed_weight(seed, level),
        ;
    } else {
        assert(here.len() * pow2(0) == here.len()) by (nonlinear_arith)
            requires
                pow2(0) == 1,
        ;
    }
}

/// A forest whose top layer holds a node is no higher than the leaves and
/// the seed allow: with fewer than `2^limit` of them, the top layer is below
/// `limit`.
pub proof fn lemma_depth_bound(seed: Option<Seed>, leaves: Seq<Seq<u8>>, top: nat, limit: nat)
    requires
        level_nodes(seed, leaves, false, top).len() >= 1,
        leaves.len() + seed_weight(seed, top) < pow2(limit),
    ensures
        top < limit,
{
    lemma_level_weight(seed, leaves, top);
    let count = level_nodes(seed, leaves, false, top).len();
    assert(pow2(top) <= count * pow2(top)) by (nonlinear_arith)
        requires
            count >= 1,
    ;
    if top > limit {
        lemma_pow2_strictly_increases(limit, top);
    }
}

/// A seed of 32 bytes over leaves of 32 bytes gives layers of nodes of 32 bytes.
pub proof fn lemma_level_of_nodes(seed: Option<Seed>, leaves: Seq<Seq<u8>>, pad: bool, level: nat)
    requires
        all_nodes(leaves),
        seed is Some ==> seed->Some_0.node.len() == 32,
    ensures
        all_nodes(level_nodes(seed, leaves, pad, level)),
    decreases level,
{
    if level > 0 {
        lemma_level_of_nodes(seed, leaves, pad, (level - 1) as nat);
    }
}

/// From the seed's layer up, or from the bottom where there are leaves,
/// no layer of the padded tree is empty.
pub proof fn lemma_level_populated(seed: Option<Seed>, leaves: Seq<Seq<u8>>, level: nat)
    requires
        seed_gap(seed, level) == 0,
        seed is Some || leaves.len() >= 1,
    ensures
        level_nodes(seed, leaves, true, level).len() >= 1,
    decreases level,
{
    if level > 0 && seeded_at(seed, level).len() == 0 {
        lemma_level_populated(seed, leaves, (level - 1) as nat);
    }
}

/// The root's layer is not below where the search for it starts, nor below
/// the seed, and holds no more than one node.
pub proof fn lemma_root_level_found(seed: Option<Seed>, leaves: Seq<Seq<u8>>, level: nat)
    ensures
        root_level_from(seed, leaves, level) >= level,
        seed_gap(seed, root_level_from(seed, leaves, level)) == 0,
        level_nodes(seed, leaves, true, root_level_from(seed, leaves, level)).len() <= 1,
    decreases seed_gap(seed, level), level_nodes(seed, leaves, true, level).len(),
{
    if seed_gap(seed, level) == 0 && level_nodes(seed, leaves, true, level).len() <= 1 {
    } else {
        lemma_root_level_found(seed, leaves, level + 1);
    }
}

/// The root of the tree over a seed of 32 bytes, or over leaves of 32
/// bytes of which there is one at least, is 32 bytes long.
pub proof fn lemma_root_is_node(seed: Option<Seed>, leaves: Seq<Seq<u8>>)
    requires
        all_nodes(leaves),
        seed is Some ==> seed->Some_0.node.len() == 32,
        seed is Some || leaves.len() >= 1,
    ensures
        tree_root(seed, leaves).len() == 32,
{
    let top = root_level_from(seed, leaves, 0);
    lemma_root_level_found(seed, leaves, 0);
    lemma_level_populated(seed, leaves, top);
    lemma_level_of_nodes(seed, leaves, true, top);
}

/// With no leaves, the seed's layer holds the seed's root and every other
/// layer up to it is empty; without padding, so is every layer above.
pub proof fn lemma_seed_alone(seed: Seed, pad: bool, level: nat)
    requires
        !pad || level <= seed.level,
    ensures
        level_nodes(Some(seed), Seq::empty(), pad, level) == seeded_at(Some(seed), level),
    decreases level,
{
    let here = level_nodes(Some(seed), Seq::empty(), pad, level);
    if level > 0 {
        lemma_seed_alone(seed, pad, (level - 1) as nat);
    }
    assert(here =~= seeded_at(Some(seed), level));
}

/// The tree over a seed alone is the seed: its root is the seed's root, and
/// it is as high as the seed's layer is.
pub proof fn lemma_seed_is_root(seed: Seed)
    ensures
        tree_root(Some(seed), Seq::empty()) == seed.node,
        tree_height(Some(seed), Seq::empty()) == seed.level + 1,
{
    lemma_seed_alone(seed, true, seed.level);
    lemma_root_level(Some(seed), Seq::empty(), 0, seed.level);
}

/// Layer `level` of the tree over `2^top` leaves that all are the zero
/// commitment of level 1 holds `2^(top - level)` nodes that all are the
/// zero commitment of the level above it.
pub proof fn lemma_zero_levels(leaves: Seq<Seq<u8>>, top: nat, level: nat)
    requires
        leaves == Seq::new(pow2(top), |i: int| zero_commitment(1)),
        level <= top,
    ensures
        level_nodes(None, leaves, true, level) == Seq::new(
            pow2((top - level) as nat),
            |i: int| zero_commitment(level + 1),
        ),
    decreases level,
{
    let here = level_nodes(None, leaves, true, level);
    let wanted = Seq::new(pow2((top - level) as nat), |i: int| zero_commitment(level + 1));
    if level == 0 {
        assert(here =~= wanted);
    } else {
        let below = level_nodes(None, leaves, true, (level - 1) as nat);
        lemma_zero_levels(leaves, top, (level - 1) as nat);
        lemma_pow2_unfold((top - level + 1) as nat);
        assert(below.len() == 2 * pow2((top - level) as nat));
        assert(filled(below, (level - 1) as nat) == below);
        assert forall|i: int| 0 <= i < wanted.len() implies here[i] == wanted[i] by {
            assert(below[2 * i] == zero_commitment(level));
            assert(below[2 * i + 1] == zero_commitment(level));
        }
        assert(here =~= wanted);
    }
}

/// The tree over `2^top` leaves that all are the zero commitment of level 1
/// has the zero commitment of level `top + 1` for its root, and is that high.
pub proof fn lemma_zero_tree(leaves: Seq<Seq<u8>>, top: nat)
    requires
        leaves == Seq::new(pow2(top), |i: int| zero_commitment(1)),
    ensures
        tree_root(None, leaves) == zero_commitment(top + 1),
        tree_height(None, leaves) == top + 1,
{
    lemma2_to64();
    lemma_zero_levels(leaves, top, top);
    assert forall|l: nat| l < top implies #[trigger] level_nodes(None, leaves, true, l).len()
        >= 2 by {
        lemma_zero_levels(leaves, top, l);
        lemma_pow2_unfold((top - l) as nat);
        lemma_pow2_pos((top - l - 1) as nat);
    }
    lemma_root_level(None, leaves, 0, top);
}

/// A layer of the padded tree holds the seed's root, if that stands there,
/// and half as many nodes as the layer below, rounded up.
pub proof fn lemma_padded_count(seed: Option<Seed>, leaves: Seq<Seq<u8>>, level: nat)
    ensures
        level_nodes(seed, leaves, true, level + 1).len() == seeded_at(seed, level + 1).len() + (
        level_nodes(seed, leaves, true, level).len() + 1) / 2,
{
}

/// From a layer that is not below the seed, the root is as many layers up
/// as it takes to halve the nodes of that layer down to one.
pub proof fn lemma_root_above(seed: Option<Seed>, leaves: Seq<Seq<u8>>, level: nat)
    requires
        seed_gap(seed, level) == 0,
        level_nodes(seed, leaves, true, level).len() >= 1,
    ensures
        root_level_from(seed, leaves, level) >= level,
        pow2((root_level_from(seed, leaves, level) - level) as nat) == ceil_pow2(
            level_nodes(seed, leaves, true, level).len(),
        ),
    decreases level_nodes(seed, leaves, true, level).len(),
{
    lemma2_to64();
    let count = level_nodes(seed, leaves, true, level).len();
    if count > 1 {
        lemma_padded_count(seed, leaves, level);
        lemma_root_above(seed, leaves, level + 1);
        let top = root_level_from(seed, leaves, level + 1);
        lemma_pow2_unfold((top - level) as nat);
    }
}

/// Below the seed, each layer up halves what the leaves and the seed
/// together come to.
proof fn lemma_count_below_seed(seed: Seed, leaves: Seq<Seq<u8>>, level: nat)
    requires
        level <= seed.level,
    ensures
        ceil_pow2(pow2(seed.level) + leaves.len()) == pow2(level) * ceil_pow2(
            (pow2((seed.level - level) as nat) + level_nodes(Some(seed), leaves, true, level).len()
                - seeded_at(Some(seed), level).len()) as nat,
        ),
    decreases level,
{
    lemma2_to64();
    let whole = ceil_pow2(pow2(seed.level) + leaves.len());
    if level == 0 {
        assert(1 * whole == whole);
        assert(level_nodes(Some(seed), leaves, true, 0).len() == seeded_at(Some(seed), 0).len()
            + leaves.len());
    } else {
        let below = (level - 1) as nat;
        lemma_count_below_seed(seed, leaves, below);
        lemma_padded_count(Some(seed), leaves, below);
        lemma_pow2_unfold(level);
        lemma_pow2_unfold((seed.level - below) as nat);
        lemma_pow2_pos((seed.level - level) as nat);
        let count = level_nodes(Some(seed), leaves, true, below).len();
        let span = pow2((seed.level - level) as nat);
        assert(seeded_at(Some(seed), below).len() == 0);
        assert(pow2((seed.level - below) as nat) == 2 * span);
        let lower = (2 * span + count) as nat;
        let upper = (span + (count + 1) / 2) as nat;
        assert(ceil_pow2(lower) == 2 * ceil_pow2(upper)) by {
            assert((lower + 1) / 2 == upper);
        }
        assert(pow2(below) * (2 * ceil_pow2(upper)) == (2 * pow2(below)) * ceil_pow2(upper))
            by (nonlinear_arith);
    }
}

/// The padded tree is as high as it takes to halve its leaves, and those
/// that the seed stands for, down to one: `2^height` is twice the smallest
/// power of two that holds them all.
pub proof fn lemma_tree_height(seed: Option<Seed>, leaves: Seq<Seq<u8>>)
    requires
        seed is Some || leaves.len() >= 1,
    ensures
        pow2(tree_height(seed, leaves)) == 2 * ceil_pow2(seed_leaves(seed) + leaves.len()),
{
    let top = root_level_from(seed, leaves, 0);
    lemma_pow2_unfold(top + 1);
    match seed {
        Some(s) => {
            lemma_root_skips_gap(seed, leaves, 0);
            lemma_level_populated(seed, leaves, s.level);
            lemma_root_above(seed, leaves, s.level);
            lemma_count_below_seed(s, leaves, s.level);
            lemma2_to64();
            lemma_pow2_adds(s.level, (top - s.level) as nat);
            let count = level_nodes(seed, leaves, true, s.level).len();
            assert((1 + count - 1) as nat == count);
        },
        None => {
            lemma_root_above(seed, leaves, 0);
            assert(level_nodes(seed, leaves, true, 0) =~= leaves);
        },
    }
}

} // verus!
