//! The tree store: sparse rows of hashes, read with zero hashes where nothing
//! was written.

use crate::batch::{
    batch_applied, lemma_batch_records_empty, lemma_batch_records_none,
    lemma_batch_records_step, lemma_level_done, lemma_level_keys_empty, lemma_parents_in_range,
    lemma_row_kept, lemma_updated_node_empty, level_keys, level_records, levels_done,
    pair_touched, parents, path_records, row_grown, row_of, touched, updated_level_records,
    updated_node, updated_path_records,
};
use crate::field::Felt;
use crate::laws::lemma_updated_records_are_path_records;
use crate::merkle::{felt_values, fold_proof, merkle_root, subtree_hash};
use crate::preimage::{
    lemma_witnessed_none, lemma_witnessed_then, preimage_entries, witnessed, HashRecord,
};
use crate::utils::parallelization::{
    build_tree, collect_keys, split_and_run_first_row, split_and_run_next_row,
};
use crate::utils::pedersen_spec;
use crate::utils::tree_utils::{
    ancestor, idx_to_binary_pos, index_in_range, lemma_ancestor_in_range, lemma_zero_hash_shift,
    proof_pos, sibling, zero_hash, ZeroHashes,
};
use std::collections::HashMap;
use vstd::arithmetic::power2::{lemma2_to64, pow2};
use vstd::prelude::*;

verus! {

/// Why an operation on the tree was refused.
#[derive(Clone, Copy, Debug, PartialEq, Eq, Structural)]
pub enum TreeError {
    /// A leaf or node index is not below the capacity of its level.
    OutOfRange,
}

/// A binary hash tree of fixed depth. Rows hold what was written, up to the
/// highest index written; a position beyond a row reads as the zero hash of
/// its level.
#[derive(Debug, Clone)]
pub struct Tree {
    /// The leaves that are held.
    pub leaf_nodes: Vec<Felt>,
    /// The inner rows that are held: row `i - 1` is level `i`.
    pub inner_nodes: Vec<Vec<Felt>>,
    /// The number of levels above the leaves.
    pub depth: u32,
    /// The hash at the top.
    pub root: Felt,
    /// The height at which the leaves of this tree stand in a larger tree.
    pub shift: u32,
    /// The zero hashes of the levels of the tree.
    pub zero_hashes: ZeroHashes,
}

/// The length of a row of length `len` after position `n` was written: the
/// row grows up to the position, and not beyond.
pub open spec fn grown(len: nat, n: int) -> nat {
    if n < len {
        len
    } else {
        (n + 1) as nat
    }
}

impl Tree {
    /// The tree has a depth from 1 to 64 and one row for each inner level.
    pub open spec fn well_shaped(&self) -> bool {
        &&& 1 <= self.depth <= 64
        &&& self.inner_nodes@.len() == self.depth
    }

    /// The number of nodes that the row of a level holds.
    pub open spec fn row_len(&self, level: int) -> nat {
        if level == 0 {
            self.leaf_nodes@.len()
        } else if 1 <= level <= self.inner_nodes@.len() {
            self.inner_nodes@[level - 1]@.len()
        } else {
            0
        }
    }

    /// The number of positions at a level.
    pub open spec fn capacity(&self, level: int) -> nat {
        pow2((self.depth - level) as nat)
    }

    /// The leaf at position `n`.
    pub open spec fn leaf(&self, n: int) -> nat {
        if 0 <= n < self.leaf_nodes@.len() {
            self.leaf_nodes@[n]@
        } else {
            zero_hash(0, self.shift as nat)
        }
    }

    /// The inner node at level `i`, position `j`.
    pub open spec fn inner(&self, i: int, j: int) -> nat {
        if 1 <= i <= self.inner_nodes@.len() && 0 <= j < self.inner_nodes@[i - 1]@.len() {
            self.inner_nodes@[i - 1]@[j]@
        } else {
            zero_hash(i as nat, self.shift as nat)
        }
    }

    /// The node at level `i`, position `j`: a leaf at level 0.
    pub open spec fn node(&self, i: int, j: int) -> nat {
        if i == 0 {
            self.leaf(j)
        } else {
            self.inner(i, j)
        }
    }

    /// Every inner node is the hash of its two children, and the root is the
    /// node at the top.
    pub open spec fn consistent(&self) -> bool {
        &&& forall|i: int, j: int|
            1 <= i <= self.depth && 0 <= j < self.capacity(i) ==> #[trigger] self.node(i, j)
                == pedersen_spec(self.node(i - 1, 2 * j), self.node(i - 1, 2 * j + 1))
        &&& self.root@ == self.node(self.depth as int, 0)
    }

    /// Well shaped and consistent.
    pub open spec fn well_formed(&self) -> bool {
        self.well_shaped() && self.consistent()
    }

    /// The siblings along the path from leaf `n` to the root, from the leaf
    /// level up.
    pub open spec fn proof_siblings(&self, n: int) -> Seq<nat> {
        Seq::new(self.depth as nat, |i: int| self.node(i, sibling(ancestor(n, i as nat))))
    }

    /// For each level of the path from leaf `n` to the root, 0 where the
    /// node of the path is a left child and 1 where it is a right child.
    pub open spec fn proof_directions(&self, n: int) -> Seq<i8> {
        Seq::new(self.depth as nat, |i: int| (ancestor(n, i as nat) % 2) as i8)
    }

    /// The numbers that the leaves of the tree stand for.
    pub open spec fn leaf_values(&self) -> Seq<nat> {
        felt_values(self.leaf_nodes@)
    }

    /// In a consistent tree every node is the hash of the subtree below it.
    pub proof fn lemma_node_is_subtree(&self, i: nat, j: int)
        requires
            self.well_formed(),
            i <= self.depth,
            0 <= j < self.capacity(i as int),
        ensures
            self.node(i as int, j) == subtree_hash(self.leaf_values(), self.shift as nat, i, j),
        decreases i,
    {
        if i > 0 {
            vstd::arithmetic::power2::lemma_pow2_unfold((self.depth - i + 1) as nat);
            self.lemma_node_is_subtree((i - 1) as nat, 2 * j);
            self.lemma_node_is_subtree((i - 1) as nat, 2 * j + 1);
        }
    }

    /// The root of a well-formed tree is the root of the tree over its
    /// leaves.
    pub proof fn lemma_root_is_merkle_root(&self)
        requires
            self.well_formed(),
        ensures
            self.root@ == merkle_root(self.leaf_values(), self.depth as nat, self.shift as nat),
    {
        lemma2_to64();
        self.lemma_node_is_subtree(self.depth as nat, 0);
    }

    /// Folding the proof of a leaf up to a level reaches the node of the
    /// path at that level.
    pub proof fn lemma_fold_reaches(&self, n: int, m: nat)
        requires
            self.well_formed(),
            0 <= n < self.capacity(0),
            m <= self.depth,
        ensures
            fold_proof(
                self.leaf(n),
                self.proof_siblings(n).take(m as int),
                self.proof_directions(n).take(m as int),
            ) == self.node(m as int, ancestor(n, m)),
        decreases m,
    {
        let sibs = self.proof_siblings(n).take(m as int);
        let dirs = self.proof_directions(n).take(m as int);
        if m > 0 {
            self.lemma_fold_reaches(n, (m - 1) as nat);
            assert(sibs.drop_last() =~= self.proof_siblings(n).take(m - 1));
            assert(dirs.drop_last() =~= self.proof_directions(n).take(m - 1));
            lemma_ancestor_in_range(n, self.depth as nat, m);
            let below = ancestor(n, (m - 1) as nat);
            let p = ancestor(n, m);
            assert(p == below / 2);
            assert(self.node(m as int, p) == pedersen_spec(
                self.node(m - 1, 2 * p),
                self.node(m - 1, 2 * p + 1),
            ));
            assert(sibs.last() == self.node(m - 1, sibling(below)));
            assert(dirs.last() == (below % 2) as i8);
        }
    }

    /// Folding the proof of a leaf of a well-formed tree gives its root.
    pub proof fn lemma_proof_folds_to_root(&self, n: int)
        requires
            self.well_formed(),
            0 <= n < self.capacity(0),
        ensures
            fold_proof(self.leaf(n), self.proof_siblings(n), self.proof_directions(n))
                == self.root@,
    {
        self.lemma_fold_reaches(n, self.depth as nat);
        lemma_ancestor_in_range(n, self.depth as nat, self.depth as nat);
        lemma2_to64();
        assert(self.proof_siblings(n).take(self.depth as int) =~= self.proof_siblings(n));
        assert(self.proof_directions(n).take(self.depth as int) =~= self.proof_directions(n));
    }

    /// A batch keeps a well-formed tree well formed.
    pub proof fn lemma_batch_keeps_well_formed(pre: Tree, post: Tree, u: Map<u64, Felt>)
        requires
            pre.well_formed(),
            batch_applied(pre, post, u),
        ensures
            post.well_formed(),
    {
        assert forall|i: int, j: int|
            1 <= i <= post.depth && 0 <= j < post.capacity(i) implies #[trigger] post.node(i, j)
            == pedersen_spec(post.node(i - 1, 2 * j), post.node(i - 1, 2 * j + 1)) by {
            vstd::arithmetic::power2::lemma_pow2_strictly_increases((pre.depth - i) as nat, 64);
            lemma2_to64();
            assert(post.node(i, j) == updated_node(pre, u, i as nat, j));
            assert(post.node(i - 1, 2 * j) == updated_node(pre, u, (i - 1) as nat, 2 * j));
            assert(post.node(i - 1, 2 * j + 1) == updated_node(pre, u, (i - 1) as nat, 2 * j + 1));
            if !touched(u.dom(), i as nat, j) {
                assert(pre.node(i, j) == pedersen_spec(
                    pre.node(i - 1, 2 * j),
                    pre.node(i - 1, 2 * j + 1),
                ));
                assert(!pair_touched(level_keys(u.dom(), (i - 1) as nat), j));
            }
        }
        if u.dom().is_empty() {
            lemma_updated_node_empty(pre, u, pre.depth as nat, 0);
        }
    }

    /// An empty tree of the given depth.
    pub fn new(depth: u32, shift: u32) -> (tree: Tree)
        requires
            1 <= depth <= 64,
        ensures
            tree.well_formed(),
            tree.depth == depth,
            tree.shift == shift,
            tree.leaf_nodes@.len() == 0,
            forall|i: int| 0 <= i < depth ==> (#[trigger] tree.inner_nodes@[i])@.len() == 0,
            tree.root@ == zero_hash(depth as nat, shift as nat),
            tree.zero_hashes.spec_shift() == shift,
            tree.zero_hashes.spec_top() == depth,
            forall|i: int, j: int| #[trigger] tree.node(i, j) == zero_hash(i as nat, shift as nat),
    {
        let leaf_nodes: Vec<Felt> = Vec::new();
        let mut inner_nodes: Vec<Vec<Felt>> = Vec::new();
        let zero_hashes = ZeroHashes::new(depth, shift);
        let root = zero_hashes.get(depth);
        let mut i: u32 = 0;
        while i < depth
            invariant
                i <= depth,
                inner_nodes@.len() == i,
                forall|k: int| 0 <= k < i ==> (#[trigger] inner_nodes@[k])@.len() == 0,
            decreases depth - i,
        {
            let empty_vec: Vec<Felt> = Vec::new();
            inner_nodes.push(empty_vec);
            i = i + 1;
        }
        Tree { leaf_nodes, inner_nodes, depth, root, shift, zero_hashes }
    }

    /// Applies a batch of leaf updates: sets every leaf that the map names,
    /// recomputes every node on the paths from those leaves to the root,
    /// records each recomputed node in the preimage map with its children
    /// before and after, and sets the root. An empty batch changes nothing.
    /// Fails, and changes nothing, if a key is not below 2^depth.
    pub fn batch_transition_updates(
        &mut self,
        updated_hashes: &HashMap<u64, Felt>,
        preimage: &mut serde_json::Map<String, serde_json::Value>,
    ) -> (r: Result<(), TreeError>)
        requires
            old(self).well_shaped(),
            forall|k: u64| updated_hashes@.contains_key(k) ==> k < usize::MAX,
        ensures
            r is Err <==> exists|k: u64|
                updated_hashes@.contains_key(k) && k >= old(self).capacity(0),
            r is Err || updated_hashes@.dom().is_empty() ==> *final(self) == *old(self)
                && *final(preimage) == *old(preimage),
            r is Ok ==> batch_applied(*old(self), *final(self), updated_hashes@),
            r is Ok ==> witnessed(
                preimage_entries(*old(preimage)),
                preimage_entries(*final(preimage)),
                path_records(*old(self), updated_hashes@.dom(), old(self).depth as int),
                path_records(*final(self), updated_hashes@.dom(), old(self).depth as int),
            ),
            r is Ok && old(self).well_formed() ==> final(self).well_formed(),
    {
        let ghost pre = *self;
        let ghost u = updated_hashes@;
        let ghost m0 = preimage_entries(*preimage);
        if updated_hashes.is_empty() {
            proof {
                assert forall|l: int, k: int| 0 <= l <= pre.depth implies #[trigger] self.node(l, k)
                    == updated_node(pre, u, l as nat, k) by {
                    lemma_updated_node_empty(pre, u, l as nat, k);
                }
                assert forall|l: int| 0 <= l <= pre.depth implies row_grown(
                    pre.row_len(l),
                    #[trigger] self.row_len(l),
                    level_keys(u.dom(), l as nat),
                ) by {
                    lemma_level_keys_empty(l as nat);
                    lemma_row_kept(pre.row_len(l), level_keys(u.dom(), l as nat));
                }
                lemma_witnessed_none(m0);
                lemma_batch_records_empty(pre, u, pre.depth as int);
                if pre.well_formed() {
                    Tree::lemma_batch_keeps_well_formed(pre, *self, u);
                }
                lemma_updated_records_are_path_records(pre, *self, u);
            }
            return Ok(());
        }
        let keys = collect_keys(updated_hashes);
        if !all_in_range(&keys, self.depth) {
            proof {
                let j = choose|j: int| 0 <= j < keys@.len() && keys@[j] >= pow2(self.depth as nat);
                assert(keys@.to_set().contains(keys@[j]));
            }
            return Err(TreeError::OutOfRange);
        }
        proof {
            assert forall|k: u64| u.contains_key(k) implies k < pre.capacity(0) by {
                assert(keys@.to_set().contains(k));
            }
        }
        let tree_depth = self.depth;
        let mut next_row = split_and_run_first_row(self, preimage, updated_hashes);
        proof {
            lemma_level_done(pre, pre, *self, u, u, 0);
            lemma_batch_records_none(pre, u);
            lemma_batch_records_step(pre, u, 0);
            lemma_witnessed_none(m0);
            lemma_witnessed_then(
                m0,
                m0,
                preimage_entries(*preimage),
                Set::empty(),
                Set::empty(),
                level_records(pre, u.dom(), 1),
                updated_level_records(pre, u, 1),
            );
            assert(Set::<HashRecord>::empty() + level_records(
                pre,
                u.dom(),
                1,
            ) =~= level_records(pre, u.dom(), 1));
            assert(Set::<HashRecord>::empty() + updated_level_records(
                pre,
                u,
                1,
            ) =~= updated_level_records(pre, u, 1));
            lemma_parents_in_range(u.dom(), pre.depth as nat, usize::MAX as int);
            assert(level_keys(u.dom(), 0) == u.dom());
            assert(level_keys(u.dom(), 1) == parents(u.dom()));
        }
        let mut i: u32 = 1;
        while i < tree_depth
            invariant
                1 <= i <= tree_depth,
                tree_depth == pre.depth,
                pre.well_shaped(),
                self.well_shaped(),
                self.depth == pre.depth,
                self.shift == pre.shift,
                self.root == pre.root,
                self.zero_hashes == pre.zero_hashes,
                levels_done(pre, *self, u, i as int),
                row_of(pre, u, next_row@, i as int),
                forall|k: u64| #[trigger]
                    next_row@.contains_key(k) ==> k < pow2((pre.depth - i) as nat) && k
                        < usize::MAX,
                witnessed(
                    m0,
                    preimage_entries(*preimage),
                    path_records(pre, u.dom(), i as int),
                    updated_path_records(pre, u, i as int),
                ),
            decreases tree_depth - i,
        {
            let ghost before = *self;
            let ghost w = next_row@;
            let ghost entries_before = preimage_entries(*preimage);
            let row = split_and_run_next_row(self, preimage, &next_row, i as usize);
            proof {
                lemma_level_done(pre, before, *self, u, w, i as int);
                lemma_batch_records_step(pre, u, i as int);
                lemma_witnessed_then(
                    m0,
                    entries_before,
                    preimage_entries(*preimage),
                    path_records(pre, u.dom(), i as int),
                    updated_path_records(pre, u, i as int),
                    level_records(pre, u.dom(), i + 1),
                    updated_level_records(pre, u, i + 1),
                );
                lemma_parents_in_range(w.dom(), (pre.depth - i) as nat, usize::MAX as int);
                assert forall|k: u64| #[trigger] row@.contains_key(k) implies row@[k]@ == pre.node(
                    i + 1,
                    k as int,
                ) by {
                    assert(before.node(i + 1, k as int) == pre.node(i + 1, k as int));
                }
            }
            next_row = row;
            i = i + 1;
        }
        let ghost body = *self;
        let root = self.inner_value(tree_depth, 0);
        self.root = root;
        proof {
            assert forall|l: int, k: int| 0 <= l <= pre.depth implies #[trigger] self.node(l, k)
                == updated_node(pre, u, l as nat, k) by {
                assert(self.node(l, k) == body.node(l, k));
            }
            assert forall|l: int| 0 <= l <= pre.depth implies row_grown(
                pre.row_len(l),
                #[trigger] self.row_len(l),
                level_keys(u.dom(), l as nat),
            ) by {
                assert(self.row_len(l) == body.row_len(l));
            }
            if pre.well_formed() {
                Tree::lemma_batch_keeps_well_formed(pre, *self, u);
            }
            lemma_updated_records_are_path_records(pre, *self, u);
        }
        Ok(())
    }

    /// The inclusion proof of leaf `leaf_idx`: the sibling at each level of
    /// the path from the leaf to the root, and for each level whether the
    /// node of the path is a left child (0) or a right child (1).
    pub fn get_proof(&self, leaf_idx: u64) -> (r: (Vec<Felt>, Vec<i8>))
        requires
            self.well_shaped(),
            leaf_idx < self.capacity(0),
        ensures
            felt_values(r.0@) == self.proof_siblings(leaf_idx as int),
            r.1@ == self.proof_directions(leaf_idx as int),
            self.well_formed() ==> fold_proof(
                self.leaf(leaf_idx as int),
                felt_values(r.0@),
                r.1@,
            ) == self.root@,
    {
        let proof_binary_pos = idx_to_binary_pos(leaf_idx, self.depth as usize);
        let proof_pos = proof_pos(leaf_idx, self.depth as usize);
        let mut proof: Vec<Felt> = Vec::new();
        proof.push(self.leaf_value(proof_pos[0]));
        let mut i: u32 = 1;
        while i < self.depth
            invariant
                1 <= i <= self.depth,
                self.well_shaped(),
                proof@.len() == i,
                proof_pos@.len() == self.depth,
                forall|k: int|
                    0 <= k < self.depth ==> proof_pos@[k] == sibling(
                        ancestor(leaf_idx as int, k as nat),
                    ),
                forall|k: int|
                    0 <= k < i ==> (#[trigger] proof@[k])@ == self.node(
                        k,
                        sibling(ancestor(leaf_idx as int, k as nat)),
                    ),
            decreases self.depth - i,
        {
            let proof_val = self.inner_value(i, proof_pos[i as usize]);
            proof.push(proof_val);
            i = i + 1;
        }
        proof {
            assert(felt_values(proof@) =~= self.proof_siblings(leaf_idx as int));
            assert(proof_binary_pos@ =~= self.proof_directions(leaf_idx as int));
            if self.well_formed() {
                self.lemma_proof_folds_to_root(leaf_idx as int);
            }
        }
        (proof, proof_binary_pos)
    }

    /// Recomputes the root from the leaves alone and compares it with the
    /// root that the tree holds.
    pub fn verify_root(&self) -> (r: bool)
        requires
            self.well_shaped(),
        ensures
            r == (self.root@ == merkle_root(
                self.leaf_values(),
                self.depth as nat,
                self.shift as nat,
            )),
            self.well_formed() ==> r,
    {
        let root = build_tree(self.depth, &self.leaf_nodes, self.shift);
        proof {
            if self.well_formed() {
                self.lemma_root_is_merkle_root();
            }
        }
        self.root == root
    }

    /// Whether the tree is well shaped.
    pub fn is_well_shaped(&self) -> (r: bool)
        ensures
            r == self.well_shaped(),
    {
        1 <= self.depth && self.depth <= 64 && self.inner_nodes.len() == self.depth as usize
    }

    /// The zero hash of a level.
    fn zero_at(&self, level: u32) -> (z: Felt)
        ensures
            z@ == zero_hash(level as nat, self.shift as nat),
    {
        proof {
            lemma_zero_hash_shift(level as nat, self.zero_hashes.spec_shift(), self.shift as nat);
        }
        self.zero_hashes.get(level)
    }

    /// The leaf at `n`, or the zero hash where none is held.
    pub fn leaf_value(&self, n: u64) -> (v: Felt)
        ensures
            v@ == self.leaf(n as int),
    {
        if n < self.leaf_nodes.len() as u64 {
            self.leaf_nodes[n as usize]
        } else {
            self.zero_at(0)
        }
    }

    /// The inner node at level `i`, position `j`, or the zero hash of the
    /// level where none is held.
    pub fn inner_value(&self, i: u32, j: u64) -> (v: Felt)
        requires
            self.well_shaped(),
            1 <= i <= self.depth,
        ensures
            v@ == self.inner(i as int, j as int),
    {
        let row = &self.inner_nodes[(i - 1) as usize];
        if j < row.len() as u64 {
            row[j as usize]
        } else {
            self.zero_at(i)
        }
    }

    /// Writes the leaf at `n`, growing the row with zero hashes up to it.
    pub fn put_leaf(&mut self, n: u64, v: Felt)
        requires
            n < usize::MAX,
        ensures
            final(self).inner_nodes == old(self).inner_nodes,
            final(self).depth == old(self).depth,
            final(self).root == old(self).root,
            final(self).shift == old(self).shift,
            final(self).zero_hashes == old(self).zero_hashes,
            final(self).leaf_nodes@.len() == grown(old(self).leaf_nodes@.len(), n as int),
            forall|k: int|
                #[trigger] final(self).leaf(k) == if k == n {
                    v@
                } else {
                    old(self).leaf(k)
                },
    {
        let len = self.leaf_nodes.len();
        if n < len as u64 {
            self.leaf_nodes.set(n as usize, v);
        } else {
            let zero = self.zero_at(0);
            let target = n as usize;
            while self.leaf_nodes.len() < target
                invariant
                    len <= self.leaf_nodes@.len() <= target,
                    target == n,
                    len == old(self).leaf_nodes@.len(),
                    zero@ == zero_hash(0, self.shift as nat),
                    self.inner_nodes == old(self).inner_nodes,
                    self.depth == old(self).depth,
                    self.root == old(self).root,
                    self.shift == old(self).shift,
                    self.zero_hashes == old(self).zero_hashes,
                    forall|k: int| 0 <= k < len ==> self.leaf_nodes@[k] == old(self).leaf_nodes@[k],
                    forall|k: int|
                        len <= k < self.leaf_nodes@.len() ==> self.leaf_nodes@[k]@ == zero_hash(
                            0,
                            self.shift as nat,
                        ),
                decreases target - self.leaf_nodes@.len(),
            {
                self.leaf_nodes.push(zero);
            }
            self.leaf_nodes.push(v);
        }
    }

    /// Writes the inner node at level `i`, position `j`, growing the row with
    /// the zero hash of the level up to it.
    pub fn put_inner(&mut self, i: u32, j: u64, v: Felt)
        requires
            old(self).well_shaped(),
            1 <= i <= old(self).depth,
            j < usize::MAX,
        ensures
            final(self).well_shaped(),
            final(self).leaf_nodes == old(self).leaf_nodes,
            final(self).depth == old(self).depth,
            final(self).root == old(self).root,
            final(self).shift == old(self).shift,
            final(self).zero_hashes == old(self).zero_hashes,
            forall|l: int|
                #[trigger] final(self).row_len(l) == if l == i {
                    grown(old(self).row_len(l), j as int)
                } else {
                    old(self).row_len(l)
                },
            forall|l: int, k: int|
                #[trigger] final(self).inner(l, k) == if l == i && k == j {
                    v@
                } else {
                    old(self).inner(l, k)
                },
    {
        let zero = self.zero_at(i);
        let row = &mut self.inner_nodes[(i - 1) as usize];
        let len = row.len();
        if j < len as u64 {
            row.set(j as usize, v);
        } else {
            let target = j as usize;
            while row.len() < target
                invariant
                    len <= row@.len() <= target,
                    forall|k: int| 0 <= k < len ==> row@[k] == old(self).inner_nodes@[i - 1]@[k],
                    forall|k: int| len <= k < row@.len() ==> row@[k]@ == zero@,
                decreases target - row@.len(),
            {
                row.push(zero);
            }
            row.push(v);
        }
    }

    /// The leaf at position `n`. Fails if `n` is not below 2^depth.
    pub fn nth_leaf_node(&self, n: u64) -> (r: Result<Felt, TreeError>)
        requires
            self.well_shaped(),
        ensures
            r is Ok <==> n < self.capacity(0),
            r matches Ok(v) ==> v@ == self.leaf(n as int),
    {
        if index_in_range(n, self.depth) {
            Ok(self.leaf_value(n))
        } else {
            Err(TreeError::OutOfRange)
        }
    }

    /// The inner node at level `i`, position `j`. Fails unless `i` is a level
    /// from 1 to the depth and `j` is below 2^(depth - i).
    pub fn ith_inner_node(&self, i: u32, j: u64) -> (r: Result<Felt, TreeError>)
        requires
            self.well_shaped(),
        ensures
            r is Ok <==> 1 <= i <= self.depth && j < self.capacity(i as int),
            r matches Ok(v) ==> v@ == self.inner(i as int, j as int),
    {
        if 1 <= i && i <= self.depth && index_in_range(j, self.depth - i) {
            Ok(self.inner_value(i, j))
        } else {
            Err(TreeError::OutOfRange)
        }
    }

    /// Sets the leaf at position `idx`. Fails, and changes nothing, if `idx`
    /// is not below 2^depth.
    pub fn update_leaf_node(&mut self, leaf_hash: &Felt, idx: u64) -> (r: Result<(), TreeError>)
        requires
            old(self).well_shaped(),
            idx < usize::MAX,
        ensures
            r is Ok <==> idx < old(self).capacity(0),
            r is Err ==> *final(self) == *old(self),
            r is Ok ==> {
                &&& final(self).inner_nodes == old(self).inner_nodes
                &&& final(self).depth == old(self).depth
                &&& final(self).root == old(self).root
                &&& final(self).shift == old(self).shift
                &&& final(self).zero_hashes == old(self).zero_hashes
                &&& final(self).leaf_nodes@.len() == grown(old(self).leaf_nodes@.len(), idx as int)
                &&& forall|k: int|
                    #[trigger] final(self).leaf(k) == if k == idx {
                        leaf_hash@
                    } else {
                        old(self).leaf(k)
                    }
            },
    {
        if index_in_range(idx, self.depth) {
            self.put_leaf(idx, *leaf_hash);
            Ok(())
        } else {
            Err(TreeError::OutOfRange)
        }
    }

    /// Sets the inner node at level `i`, position `j`. Fails, and changes
    /// nothing, unless `i` is a level from 1 to the depth and `j` is below
    /// 2^(depth - i).
    pub fn update_inner_node(&mut self, i: u32, j: u64, value: Felt) -> (r: Result<(), TreeError>)
        requires
            old(self).well_shaped(),
            j < usize::MAX,
        ensures
            r is Ok <==> 1 <= i <= old(self).depth && j < old(self).capacity(i as int),
            r is Err ==> *final(self) == *old(self),
            r is Ok ==> {
                &&& final(self).well_shaped()
                &&& final(self).leaf_nodes == old(self).leaf_nodes
                &&& final(self).depth == old(self).depth
                &&& final(self).root == old(self).root
                &&& final(self).shift == old(self).shift
                &&& final(self).zero_hashes == old(self).zero_hashes
                &&& forall|l: int|
                    #[trigger] final(self).row_len(l) == if l == i {
                        grown(old(self).row_len(l), j as int)
                    } else {
                        old(self).row_len(l)
                    }
                &&& forall|l: int, k: int|
                    #[trigger] final(self).inner(l, k) == if l == i && k == j {
                        value@
                    } else {
                        old(self).inner(l, k)
                    }
            },
    {
        if 1 <= i && i <= self.depth && index_in_range(j, self.depth - i) {
            self.put_inner(i, j, value);
            Ok(())
        } else {
            Err(TreeError::OutOfRange)
        }
    }
}

/// Whether every key is below 2^`bits`.
fn all_in_range(keys: &Vec<u64>, bits: u32) -> (r: bool)
    requires
        bits <= 64,
    ensures
        r <==> forall|j: int| 0 <= j < keys@.len() ==> keys@[j] < pow2(bits as nat),
{
    let mut n: usize = 0;
    while n < keys.len()
        invariant
            n <= keys@.len(),
            bits <= 64,
            forall|j: int| 0 <= j < n ==> keys@[j] < pow2(bits as nat),
        decreases keys@.len() - n,
    {
        if !index_in_range(keys[n], bits) {
            return false;
        }
        n = n + 1;
    }
    true
}

} // verus!
