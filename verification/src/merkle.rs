//! The hash of a tree as a function of its leaves, and the folding of an
//! inclusion proof.

use crate::field::Felt;
use crate::utils::pedersen_spec;
use crate::utils::tree_utils::zero_hash;
use vstd::prelude::*;

verus! {

/// The numbers that a row of elements stands for.
pub open spec fn felt_values(row: Seq<Felt>) -> Seq<nat> {
    Seq::new(row.len(), |i: int| row[i]@)
}

/// The leaf at position `k`: what the row holds there, and the zero hash
/// beyond the row.
pub open spec fn padded_leaf(leaves: Seq<nat>, shift: nat, k: int) -> nat {
    if 0 <= k < leaves.len() {
        leaves[k]
    } else {
        zero_hash(0, shift)
    }
}

/// The hash of the subtree of height `level` whose leftmost leaf stands at
/// position `j` * 2^`level`.
pub open spec fn subtree_hash(leaves: Seq<nat>, shift: nat, level: nat, j: int) -> nat
    decreases level,
{
    if level == 0 {
        padded_leaf(leaves, shift, j)
    } else {
        pedersen_spec(
            subtree_hash(leaves, shift, (level - 1) as nat, 2 * j),
            subtree_hash(leaves, shift, (level - 1) as nat, 2 * j + 1),
        )
    }
}

/// The root of the tree of the given depth over the leaves.
pub open spec fn merkle_root(leaves: Seq<nat>, depth: nat, shift: nat) -> nat {
    subtree_hash(leaves, shift, depth, 0)
}

/// The number of nodes at `level` that have a held leaf below them.
pub open spec fn row_len(len: nat, level: nat) -> nat
    decreases level,
{
    if level == 0 {
        len
    } else {
        (row_len(len, (level - 1) as nat) + 1) / 2
    }
}

/// A subtree without a held leaf hashes to the zero hash of its height.
pub proof fn lemma_beyond_row(leaves: Seq<nat>, shift: nat, level: nat, j: int)
    requires
        j >= row_len(leaves.len(), level),
    ensures
        subtree_hash(leaves, shift, level, j) == zero_hash(level, shift),
    decreases level,
{
    if level > 0 {
        lemma_beyond_row(leaves, shift, (level - 1) as nat, 2 * j);
        lemma_beyond_row(leaves, shift, (level - 1) as nat, 2 * j + 1);
    }
}

/// The hash that an inclusion proof folds to: starting from the leaf, each
/// level hashes what was reached with the sibling of that level, on the side
/// that the direction gives (0: the sibling is on the right).
pub open spec fn fold_proof(leaf: nat, siblings: Seq<nat>, directions: Seq<i8>) -> nat
    decreases siblings.len(),
{
    if siblings.len() == 0 {
        leaf
    } else {
        let below = fold_proof(leaf, siblings.drop_last(), directions.drop_last());
        if directions.last() == 0 {
            pedersen_spec(below, siblings.last())
        } else {
            pedersen_spec(siblings.last(), below)
        }
    }
}

} // verus!
