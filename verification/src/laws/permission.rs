//! The permission tree, place by place.

use vstd::arithmetic::div_mod::lemma_div_denominator;
use vstd::arithmetic::power2::{lemma2_to64, lemma_pow2_pos, lemma_pow2_unfold, pow2};
use vstd::prelude::*;

use crate::bytes::le_bytes;
use crate::hashing::{Hasher, Sha256};
use crate::permission_tree::{
    branch_hash, empty_place_hash, exit_leaf_hash, is_required_depth, ExitLeaf, StandardSpk,
};
use crate::permission_tree_view::{
    folded, has_siblings, is_view_of, lemma_level_width, level_hashes, parents,
    place_above, sibling_hashes, sibling_place,
};

verus! {

/// What is hashed: for an exit, a zero byte, the key and the amount in eight bytes, least
/// significant first; for a branch, a one byte and both children; for a place without an exit, a
/// byte two.
pub proof fn lemma_permission_hashes(
    key: [u8; 32],
    amount: u64,
    left: [u8; 32],
    right: [u8; 32],
)
    ensures
        exit_leaf_hash(StandardSpk::PubKey(&key), amount) == Sha256::digest(
            seq![0u8] + key@ + le_bytes(amount as nat, 8),
        ),
        branch_hash(left, right) == Sha256::digest(seq![1u8] + left@ + right@),
        empty_place_hash() == Sha256::digest(seq![2u8]),
{
}

/// The required depth is the least at which there is a place for every exit.
pub proof fn lemma_required_depth_is_least(count: nat, depth: nat)
    ensures
        is_required_depth(count, depth) <==> count <= pow2(depth) && (depth == 0 || pow2(
            (depth - 1) as nat,
        ) < count),
{
}

/// The levels of a view are the lists that it holds, place by place.
pub proof fn lemma_levels_by_place(levels: Seq<Vec<[u8; 32]>>)
    ensures
        level_hashes(levels).len() == levels.len(),
        forall|l: int| 0 <= l < levels.len() ==> #[trigger] level_hashes(levels)[l] == levels[l]@,
{
}

/// The tree over a list of exits, place by place. Level 0 has the least power of two of places
/// that has room for the exits; place `i` holds the hash of exit `i`, and every place beyond the
/// last exit holds the hash of a place without one. Each level above has half as many places, and
/// each of its places holds the hash over the two below it.
pub proof fn lemma_view_by_place(levels: Seq<Seq<[u8; 32]>>, leaves: Seq<ExitLeaf>)
    requires
        is_view_of(levels, leaves),
    ensures
        levels.len() > 0,
        levels[0].len() == pow2((levels.len() - 1) as nat),
        leaves.len() <= levels[0].len(),
        levels.len() == 1 || levels[0].len() < 2 * leaves.len(),
        forall|i: int|
            0 <= i < leaves.len() ==> #[trigger] levels[0][i] == Sha256::digest(
                seq![0u8] + leaves[i].pub_key@ + le_bytes(leaves[i].amount as nat, 8),
            ),
        forall|i: int|
            leaves.len() <= i < levels[0].len() ==> #[trigger] levels[0][i] == Sha256::digest(
                seq![2u8],
            ),
        forall|l: int| 0 <= l < levels.len() - 1 ==> levels[l + 1].len() * 2 == (
        #[trigger] levels[l]).len(),
        forall|l: int, i: int|
            0 <= l < levels.len() - 1 && 0 <= i < levels[l + 1].len()
                ==> #[trigger] levels[l + 1][i] == Sha256::digest(
                seq![1u8] + levels[l][2 * i]@ + levels[l][2 * i + 1]@,
            ),
{
    let depth = (levels.len() - 1) as nat;
    if depth > 0 {
        lemma_pow2_unfold(depth);
    }
    assert forall|l: int| 0 <= l < levels.len() - 1 implies levels[l + 1].len() * 2 == (
    #[trigger] levels[l]).len() by {
        lemma_level_width(levels, depth, l);
        lemma_level_width(levels, depth, l + 1);
        lemma_pow2_unfold((depth - l) as nat);
    }
    assert forall|l: int, i: int|
        0 <= l < levels.len() - 1 && 0 <= i < levels[l + 1].len() implies #[trigger] levels[l
        + 1][i] == Sha256::digest(seq![1u8] + levels[l][2 * i]@ + levels[l][2 * i + 1]@) by {
        assert(levels[l + 1] == parents(levels[l]));
    }
}

proof fn lemma_place_above(index: int, level: nat)
    requires
        index >= 0,
    ensures
        place_above(index, level as int) == index / pow2(level) as int,
    decreases level,
{
    if level == 0 {
        lemma2_to64();
    } else {
        lemma_place_above(index, (level - 1) as nat);
        lemma_pow2_unfold(level);
        lemma_pow2_pos((level - 1) as nat);
        lemma_div_denominator(index, pow2((level - 1) as nat) as int, 2);
        assert(2 * pow2((level - 1) as nat) == pow2((level - 1) as nat) * 2);
    }
}

/// The siblings of a place: on each level below the root, the other child of the parent that the
/// place above the leaf has.
pub proof fn lemma_siblings_by_place(levels: Seq<Seq<[u8; 32]>>, index: int, l: int)
    requires
        index >= 0,
        0 <= l < levels.len() - 1,
    ensures
        sibling_hashes(levels, index).len() == levels.len() - 1,
        ({
            let above = index / pow2(l as nat) as int;
            sibling_hashes(levels, index)[l] == levels[l][if above % 2 == 0 {
                above + 1
            } else {
                above - 1
            }]
        }),
{
    lemma_place_above(index, l as nat);
}

/// There are siblings for a place where each level has the place beside the one above it.
pub proof fn lemma_has_siblings_by_place(levels: Seq<Seq<[u8; 32]>>, index: int)
    requires
        index >= 0,
        forall|l: int|
            0 <= l < levels.len() - 1 ==> ({
                let above = index / pow2(l as nat) as int;
                if above % 2 == 0 {
                    above + 1 < (#[trigger] levels[l]).len()
                } else {
                    above - 1 < levels[l].len()
                }
            }),
    ensures
        has_siblings(levels, index),
{
    assert forall|l: int|
        0 <= l < levels.len() - 1 implies sibling_place(
        place_above(index, l),
    ) < (#[trigger] levels[l]).len() by {
        lemma_place_above(index, l as nat);
    }
}

/// A fold without siblings is the leaf. With siblings it joins the leaf to the first of them, on
/// the left where the index is even and on the right where it is odd, and goes on with the rest
/// and half the index.
pub proof fn lemma_fold_by_step(leaf: [u8; 32], siblings: Seq<[u8; 32]>, index: int)
    ensures
        siblings.len() == 0 ==> folded(leaf, siblings, index) == leaf,
        siblings.len() > 0 && index % 2 == 0 ==> folded(leaf, siblings, index) == folded(
            Sha256::digest(seq![1u8] + leaf@ + siblings[0]@),
            siblings.skip(1),
            index / 2,
        ),
        siblings.len() > 0 && index % 2 == 1 ==> folded(leaf, siblings, index) == folded(
            Sha256::digest(seq![1u8] + siblings[0]@ + leaf@),
            siblings.skip(1),
            index / 2,
        ),
{
    if siblings.len() > 0 {
        assert(siblings.skip(1) =~= siblings.drop_first());
    }
}

} // verus!
