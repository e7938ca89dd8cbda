//! The batched update, one level at a time, and the reference computation of
//! a root from its leaves.
//!
//! A level is updated in two steps. First the parents to recompute are
//! planned from the tree as it stands: the entries are cut into strides, and
//! each stride is planned by a task of its own. Then the plan is written into
//! the tree and recorded in the preimage map, on one thread.

use crate::batch::{
    active_parents, is_active, leaf_len_after, lemma_listed_step, lemma_pair_written, lemma_plan_covers,
    lemma_records_empty, lemma_records_insert, lemma_row_kept, lemma_row_planned_concat, listed,
    listed_parents, pair_state, pair_written, parents, pass_applied, pass_post_records,
    pass_pre_records, plan_entry_ok, plan_parents, post_record, pre_record, row_planned, written_leaves,
    PairUpdate,
};
use crate::field::Felt;
use crate::merkle::{felt_values, lemma_beyond_row, merkle_root, row_len, subtree_hash};
use crate::preimage::{
    lemma_witnessed_none, lemma_witnessed_one, lemma_witnessed_then, preimage_entries,
    record_preimage, witnessed,
};
use crate::tree::{grown, Tree};
use crate::utils::tree_utils::{get_zero_hash, lemma_pair_in_range, zero_hash};
use crate::utils::{pedersen, pedersen_spec};
use std::collections::HashMap;
use vstd::prelude::*;
use vstd::std_specs::iter::IteratorSpec;

verus! {

broadcast use vstd::std_specs::hash::group_hash_axioms;

/// The number of entries that one task takes. It is even, so that no pair is
/// split between two tasks.
pub const STRIDE: usize = 250;

/// Where stride `n` starts in a row of the given length: at the end of the
/// row, if the row has no such stride.
pub open spec fn stride_start(n: nat, len: nat) -> nat {
    if n * STRIDE <= len {
        (n * STRIDE) as nat
    } else {
        len
    }
}

/// Specifies `rayon::join`, which runs both closures, possibly in parallel,
/// returns when both are done and hands back the pair of their results. It
/// panics only if a closure does.
pub assume_specification<A, B, RA, RB>[ rayon::join::<A, B, RA, RB> ](oper_a: A, oper_b: B) -> (r: (
    RA,
    RB,
))
    where A: FnOnce() -> RA + Send, B: FnOnce() -> RB + Send, RA: Send, RB: Send
    requires
        call_requires(oper_a, ()),
        call_requires(oper_b, ()),
    ensures
        call_ensures(oper_a, (), r.0),
        call_ensures(oper_b, (), r.1),
;

/// Where stride `n` of a row starts and ends.
fn stride_bounds(len: usize, n: usize) -> (r: (usize, usize))
    ensures
        r.0 == stride_start(n as nat, len as nat),
        r.1 == stride_start((n + 1) as nat, len as nat),
        r.0 <= r.1 <= len,
        r.1 - r.0 <= STRIDE,
{
    let start = match n.checked_mul(STRIDE) {
        Some(s) => if s <= len {
            s
        } else {
            len
        },
        None => len,
    };
    let end = if len - start > STRIDE {
        start + STRIDE
    } else {
        len
    };
    (start, end)
}

/// The elements of the row from `start` up to `end`.
fn copy_range<T: Copy>(row: &Vec<T>, start: usize, end: usize) -> (part: Vec<T>)
    requires
        start <= end <= row@.len(),
    ensures
        part@ == row@.subrange(start as int, end as int),
{
    let mut part: Vec<T> = Vec::new();
    let mut k: usize = start;
    while k < end
        invariant
            start <= k <= end <= row@.len(),
            part@ == row@.subrange(start as int, k as int),
        decreases end - k,
    {
        part.push(row[k]);
        assert(row@.subrange(start as int, k + 1) =~= row@.subrange(start as int, k as int).push(
            row@[k as int],
        ));
        k = k + 1;
    }
    part
}

/// The keys of the map, each once, in the order in which the map hands them
/// out.
pub fn collect_keys(m: &HashMap<u64, Felt>) -> (keys: Vec<u64>)
    ensures
        keys@.no_duplicates(),
        keys@.to_set() == m@.dom(),
{
    let mut keys: Vec<u64> = Vec::new();
    proof {
        vstd::std_specs::hash::axiom_spec_keys_iter(m);
    }
    for k in it: m.keys()
        invariant
            keys@.len() == it.index(),
            forall|j: int| 0 <= j < keys@.len() ==> keys@[j] == *it.seq()[j],
            it.seq() == m.keys().remaining(),
            it.seq().unref().to_set() == m@.dom(),
            it.seq().no_duplicates(),
    {
        keys.push(*k);
    }
    assert(keys@ =~= m.keys().remaining().unref());
    assert(keys@.no_duplicates()) by {
        let r = m.keys().remaining();
        assert forall|i: int, j: int|
            0 <= i < keys@.len() && 0 <= j < keys@.len() && i != j implies keys@[i] != keys@[j] by {
            assert(r[i] != r[j]);
        }
    }
    keys
}

/// Updates the leaves that the map names, recomputes the parents above them
/// and records each parent. Hands back, for each recomputed parent, what it
/// held before.
pub fn split_and_run_first_row(
    tree: &mut Tree,
    preimage: &mut serde_json::Map<String, serde_json::Value>,
    updated_hashes: &HashMap<u64, Felt>,
) -> (next_row: HashMap<u64, Felt>)
    requires
        old(tree).well_shaped(),
        forall|k: u64|
            updated_hashes@.contains_key(k) ==> k < old(tree).capacity(0) && k < usize::MAX,
    ensures
        pass_applied(*old(tree), *final(tree), 0, updated_hashes@, parents(updated_hashes@.dom())),
        next_row@.dom() == parents(updated_hashes@.dom()),
        forall|p: u64| #[trigger]
            next_row@.contains_key(p) ==> next_row@[p]@ == old(tree).node(1, p as int),
        witnessed(
            preimage_entries(*old(preimage)),
            preimage_entries(*final(preimage)),
            pass_pre_records(*old(tree), updated_hashes@, 0, parents(updated_hashes@.dom())),
            pass_post_records(*old(tree), updated_hashes@, 0, parents(updated_hashes@.dom())),
        ),
{
    let entries = collect_keys(updated_hashes);
    assert forall|j: int| 0 <= j < entries@.len() implies updated_hashes@.contains_key(
        #[trigger] entries@[j],
    ) by {
        assert(entries@.to_set().contains(entries@[j]));
    }
    let plan = split_and_run_first_row_inner(tree, updated_hashes, &entries, 0);
    proof {
        assert(entries@.skip(0) =~= entries@);
        assert forall|k: u64| updated_hashes@.dom().contains(k) implies entries@.contains(k) by {
            assert(entries@.to_set().contains(k));
        }
        lemma_plan_covers(updated_hashes@.dom(), entries@, plan@);
        assert forall|j: int| 0 <= j < plan@.len() implies (#[trigger] plan@[j]).parent
            < usize::MAX by {
            assert(plan_entry_ok(*tree, updated_hashes@, 0, plan@[j]));
        }
    }
    apply_updates(tree, preimage, &plan, 0, Ghost(updated_hashes@))
}

/// Plans the parents above the leaves for the entries from stride `n` on.
/// Each stride is planned by a task of its own, from the tree as it stands.
fn split_and_run_first_row_inner(
    tree: &Tree,
    updated_hashes: &HashMap<u64, Felt>,
    entries: &Vec<u64>,
    n: usize,
) -> (plan: Vec<PairUpdate>)
    requires
        tree.well_shaped(),
        forall|j: int|
            0 <= j < entries@.len() ==> updated_hashes@.contains_key(#[trigger] entries@[j])
                && entries@[j] < tree.capacity(0),
    ensures
        row_planned(
            *tree,
            updated_hashes@,
            0,
            entries@.skip(stride_start(n as nat, entries@.len()) as int),
            plan@,
        ),
    decreases entries@.len() - stride_start(n as nat, entries@.len()),
{
    let (start, end) = stride_bounds(entries.len(), n);
    let elems = copy_range(entries, start, end);
    // As long as there are entries left, take one stride and hand the rest on.
    if elems.len() > 0 {
        let ghost rest_entries = entries@.skip(end as int);
        let ghost t = *tree;
        let ghost w = updated_hashes@;
        let plan_stride = || -> (r: Vec<PairUpdate>)
            ensures
                row_planned(t, w, 0, elems@, r@),
            {
                build_first_row(tree, &elems, updated_hashes)
            };
        let plan_rest = || -> (r: Vec<PairUpdate>)
            ensures
                row_planned(t, w, 0, rest_entries, r@),
            {
                split_and_run_first_row_inner(tree, updated_hashes, entries, n + 1)
            };
        let (mut head, mut rest) = rayon::join(plan_stride, plan_rest);
        proof {
            assert(entries@.skip(start as int) =~= elems@ + rest_entries);
            lemma_row_planned_concat(t, w, 0, elems@, rest_entries, head@, rest@);
        }
        head.append(&mut rest);
        head
    } else {
        let plan: Vec<PairUpdate> = Vec::new();
        proof {
            assert(plan_parents(plan@) =~= Seq::<u64>::empty());
        }
        plan
    }
}

/// Recomputes the parents above the touched nodes of level `row_depth` and
/// records each parent. The map holds, for each touched node of that level,
/// what it held before the batch. Hands back the same for the level above.
pub fn split_and_run_next_row(
    tree: &mut Tree,
    preimage: &mut serde_json::Map<String, serde_json::Value>,
    updated_hashes: &HashMap<u64, Felt>,
    row_depth: usize,
) -> (next_row: HashMap<u64, Felt>)
    requires
        old(tree).well_shaped(),
        1 <= row_depth < old(tree).depth,
        forall|k: u64|
            updated_hashes@.contains_key(k) ==> k < old(tree).capacity(row_depth as int) && k
                < usize::MAX,
    ensures
        pass_applied(
            *old(tree),
            *final(tree),
            row_depth as int,
            updated_hashes@,
            parents(updated_hashes@.dom()),
        ),
        next_row@.dom() == parents(updated_hashes@.dom()),
        forall|p: u64| #[trigger]
            next_row@.contains_key(p) ==> next_row@[p]@ == old(tree).node(row_depth + 1, p as int),
        witnessed(
            preimage_entries(*old(preimage)),
            preimage_entries(*final(preimage)),
            pass_pre_records(
                *old(tree),
                updated_hashes@,
                row_depth as int,
                parents(updated_hashes@.dom()),
            ),
            pass_post_records(
                *old(tree),
                updated_hashes@,
                row_depth as int,
                parents(updated_hashes@.dom()),
            ),
        ),
{
    let entries = collect_keys(updated_hashes);
    assert forall|j: int| 0 <= j < entries@.len() implies updated_hashes@.contains_key(
        #[trigger] entries@[j],
    ) by {
        assert(entries@.to_set().contains(entries@[j]));
    }
    let plan = split_and_run_next_row_inner(tree, updated_hashes, &entries, row_depth, 0);
    proof {
        assert(entries@.skip(0) =~= entries@);
        assert forall|k: u64| updated_hashes@.dom().contains(k) implies entries@.contains(k) by {
            assert(entries@.to_set().contains(k));
        }
        lemma_plan_covers(updated_hashes@.dom(), entries@, plan@);
        assert forall|j: int| 0 <= j < plan@.len() implies (#[trigger] plan@[j]).parent
            < usize::MAX by {
            assert(plan_entry_ok(*tree, updated_hashes@, row_depth as int, plan@[j]));
        }
    }
    apply_updates(tree, preimage, &plan, row_depth as u32, Ghost(updated_hashes@))
}

/// Plans the parents above level `row_depth` for the entries from stride `n`
/// on. Each stride is planned by a task of its own, from the tree as it
/// stands.
fn split_and_run_next_row_inner(
    tree: &Tree,
    updated_hashes: &HashMap<u64, Felt>,
    entries: &Vec<u64>,
    row_depth: usize,
    n: usize,
) -> (plan: Vec<PairUpdate>)
    requires
        tree.well_shaped(),
        1 <= row_depth < tree.depth,
        forall|j: int|
            0 <= j < entries@.len() ==> updated_hashes@.contains_key(#[trigger] entries@[j])
                && entries@[j] < tree.capacity(row_depth as int),
    ensures
        row_planned(
            *tree,
            updated_hashes@,
            row_depth as int,
            entries@.skip(stride_start(n as nat, entries@.len()) as int),
            plan@,
        ),
    decreases entries@.len() - stride_start(n as nat, entries@.len()),
{
    let (start, end) = stride_bounds(entries.len(), n);
    let elems = copy_range(entries, start, end);
    // As long as there are entries left, take one stride and hand the rest on.
    if elems.len() > 0 {
        let ghost rest_entries = entries@.skip(end as int);
        let ghost t = *tree;
        let ghost w = updated_hashes@;
        let ghost level = row_depth as int;
        let plan_stride = || -> (r: Vec<PairUpdate>)
            ensures
                row_planned(t, w, level, elems@, r@),
            {
                build_next_row(tree, &elems, updated_hashes, row_depth)
            };
        let plan_rest = || -> (r: Vec<PairUpdate>)
            ensures
                row_planned(t, w, level, rest_entries, r@),
            {
                split_and_run_next_row_inner(tree, updated_hashes, entries, row_depth, n + 1)
            };
        let (mut head, mut rest) = rayon::join(plan_stride, plan_rest);
        proof {
            assert(entries@.skip(start as int) =~= elems@ + rest_entries);
            lemma_row_planned_concat(t, w, level, elems@, rest_entries, head@, rest@);
        }
        head.append(&mut rest);
        head
    } else {
        let plan: Vec<PairUpdate> = Vec::new();
        proof {
            assert(plan_parents(plan@) =~= Seq::<u64>::empty());
        }
        plan
    }
}

/// Plans the parents above the leaves: for every entry that is a right child,
/// or a left child whose right neighbour is not updated, the update of its
/// parent. A left child whose right neighbour is updated too is passed over:
/// the neighbour's entry recomputes the parent from both new leaves.
pub fn build_first_row(tree: &Tree, entries: &Vec<u64>, hashes: &HashMap<u64, Felt>) -> (plan: Vec<
    PairUpdate,
>)
    requires
        tree.well_shaped(),
        forall|j: int|
            0 <= j < entries@.len() ==> hashes@.contains_key(#[trigger] entries@[j]) && entries@[j]
                < tree.capacity(0),
    ensures
        row_planned(*tree, hashes@, 0, entries@, plan@),
{
    let mut next_row: Vec<PairUpdate> = Vec::new();
    let mut n: usize = 0;
    while n < entries.len()
        invariant
            n <= entries@.len(),
            tree.well_shaped(),
            forall|j: int|
                0 <= j < entries@.len() ==> hashes@.contains_key(#[trigger] entries@[j])
                    && entries@[j] < tree.capacity(0),
            forall|j: int|
                0 <= j < next_row@.len() ==> plan_entry_ok(*tree, hashes@, 0, #[trigger] next_row@[j]),
            plan_parents(next_row@) == active_parents(hashes@.dom(), entries@.take(n as int)),
        decreases entries@.len() - n,
    {
        let idx = entries[n];
        let ghost before = next_row@;
        proof {
            lemma_pair_in_range(idx as int, tree.depth as nat);
        }
        let hash = *hashes.get(&idx).unwrap();
        if idx % 2 == 0 {
            // Left child.
            if hashes.contains_key(&(idx + 1)) {
                // The right child is updated too: its entry hashes the pair.
            } else {
                // The right child keeps what the tree holds.
                let init_left_hash = tree.leaf_value(idx);
                let right_hash = tree.leaf_value(idx + 1);
                let new_hash = pedersen(&hash, &right_hash);
                let prev_res_hash = tree.inner_value(1, idx / 2);
                let update = PairUpdate {
                    parent: idx / 2,
                    prev_parent: prev_res_hash,
                    prev_left: init_left_hash,
                    prev_right: right_hash,
                    new_parent: new_hash,
                    left: hash,
                    right: right_hash,
                    write_left: true,
                    write_right: false,
                };
                assert(plan_entry_ok(*tree, hashes@, 0, update));
                next_row.push(update);
            }
        } else {
            // Right child.
            let left_hash: Felt;
            let write_left: bool;
            let prev_left_hash = tree.leaf_value(idx - 1);
            let prev_right_hash = tree.leaf_value(idx);
            match hashes.get(&(idx - 1)) {
                Some(left) => {
                    // The left child is updated too.
                    left_hash = *left;
                    write_left = true;
                },
                None => {
                    // The left child keeps what the tree holds.
                    left_hash = prev_left_hash;
                    write_left = false;
                },
            }
            let new_hash = pedersen(&left_hash, &hash);
            let prev_res_hash = tree.inner_value(1, idx / 2);
            let update = PairUpdate {
                parent: idx / 2,
                prev_parent: prev_res_hash,
                prev_left: prev_left_hash,
                prev_right: prev_right_hash,
                new_parent: new_hash,
                left: left_hash,
                right: hash,
                write_left,
                write_right: true,
            };
            assert(plan_entry_ok(*tree, hashes@, 0, update));
            next_row.push(update);
        }
        proof {
            assert(entries@.take(n + 1).drop_last() =~= entries@.take(n as int));
            if is_active(hashes@.dom(), idx) {
                assert(plan_parents(next_row@) =~= plan_parents(before).push((idx / 2) as u64));
            }
        }
        n = n + 1;
    }
    proof {
        assert(entries@.take(entries@.len() as int) =~= entries@);
    }
    next_row
}

/// Plans the parents above an inner level: for every entry that is a right
/// child, or a left child whose right neighbour was not touched, the update of
/// its parent. An entry holds the position of a touched node and what the node
/// held before the batch; the tree holds its new hash already.
pub fn build_next_row(
    tree: &Tree,
    entries: &Vec<u64>,
    hashes: &HashMap<u64, Felt>,
    row_depth: usize,
) -> (plan: Vec<PairUpdate>)
    requires
        tree.well_shaped(),
        1 <= row_depth < tree.depth,
        forall|j: int|
            0 <= j < entries@.len() ==> hashes@.contains_key(#[trigger] entries@[j]) && entries@[j]
                < tree.capacity(row_depth as int),
    ensures
        row_planned(*tree, hashes@, row_depth as int, entries@, plan@),
{
    let level = row_depth as u32;
    let mut next_row: Vec<PairUpdate> = Vec::new();
    let mut n: usize = 0;
    while n < entries.len()
        invariant
            n <= entries@.len(),
            tree.well_shaped(),
            1 <= row_depth < tree.depth,
            level == row_depth,
            forall|j: int|
                0 <= j < entries@.len() ==> hashes@.contains_key(#[trigger] entries@[j])
                    && entries@[j] < tree.capacity(row_depth as int),
            forall|j: int|
                0 <= j < next_row@.len() ==> plan_entry_ok(
                    *tree,
                    hashes@,
                    row_depth as int,
                    #[trigger] next_row@[j],
                ),
            plan_parents(next_row@) == active_parents(hashes@.dom(), entries@.take(n as int)),
        decreases entries@.len() - n,
    {
        let idx = entries[n];
        let ghost before = next_row@;
        proof {
            lemma_pair_in_range(idx as int, (tree.depth - row_depth) as nat);
        }
        let prev_res = *hashes.get(&idx).unwrap();
        if idx % 2 == 0 {
            // Left child.
            if hashes.contains_key(&(idx + 1)) {
                // The right child was touched too: its entry hashes the pair.
            } else {
                // The right child is what the tree held before the batch.
                let hash = tree.inner_value(level, idx);
                let right_hash = tree.inner_value(level, idx + 1);
                let new_hash = pedersen(&hash, &right_hash);
                let prev_res_hash = tree.inner_value(level + 1, idx / 2);
                let update = PairUpdate {
                    parent: idx / 2,
                    prev_parent: prev_res_hash,
                    prev_left: prev_res,
                    prev_right: right_hash,
                    new_parent: new_hash,
                    left: hash,
                    right: right_hash,
                    write_left: false,
                    write_right: false,
                };
                assert(plan_entry_ok(*tree, hashes@, row_depth as int, update));
                next_row.push(update);
            }
        } else {
            // Right child.
            let hash = tree.inner_value(level, idx);
            let left_hash = tree.inner_value(level, idx - 1);
            let prev_left_hash: Felt;
            match hashes.get(&(idx - 1)) {
                Some(prev_left) => {
                    prev_left_hash = *prev_left;
                },
                None => {
                    prev_left_hash = left_hash;
                },
            }
            let prev_right_hash = prev_res;
            let new_hash = pedersen(&left_hash, &hash);
            let prev_res_hash = tree.inner_value(level + 1, idx / 2);
            let update = PairUpdate {
                parent: idx / 2,
                prev_parent: prev_res_hash,
                prev_left: prev_left_hash,
                prev_right: prev_right_hash,
                new_parent: new_hash,
                left: left_hash,
                right: hash,
                write_left: false,
                write_right: false,
            };
            assert(plan_entry_ok(*tree, hashes@, row_depth as int, update));
            next_row.push(update);
        }
        proof {
            assert(entries@.take(n + 1).drop_last() =~= entries@.take(n as int));
            if is_active(hashes@.dom(), idx) {
                assert(plan_parents(next_row@) =~= plan_parents(before).push((idx / 2) as u64));
            }
        }
        n = n + 1;
    }
    proof {
        assert(entries@.take(entries@.len() as int) =~= entries@);
    }
    next_row
}

/// Writes the planned parents into the tree, and at the leaf level the new
/// leaves below them; records each parent in the preimage map; and hands back,
/// for each parent, what it held before.
pub(crate) fn apply_updates(
    tree: &mut Tree,
    preimage: &mut serde_json::Map<String, serde_json::Value>,
    plan: &Vec<PairUpdate>,
    level: u32,
    Ghost(w): Ghost<Map<u64, Felt>>,
) -> (next_row: HashMap<u64, Felt>)
    requires
        old(tree).well_shaped(),
        level < old(tree).depth,
        forall|k: u64| w.contains_key(k) ==> k < usize::MAX,
        forall|j: int|
            0 <= j < plan@.len() ==> plan_entry_ok(*old(tree), w, level as int, #[trigger] plan@[j])
                && plan@[j].parent < usize::MAX,
    ensures
        pass_applied(*old(tree), *final(tree), level as int, w, listed_parents(plan@)),
        next_row@.dom() == listed_parents(plan@),
        forall|p: u64| #[trigger]
            next_row@.contains_key(p) ==> next_row@[p]@ == old(tree).node(level + 1, p as int),
        witnessed(
            preimage_entries(*old(preimage)),
            preimage_entries(*final(preimage)),
            pass_pre_records(*old(tree), w, level as int, listed_parents(plan@)),
            pass_post_records(*old(tree), w, level as int, listed_parents(plan@)),
        ),
{
    let mut next_row: HashMap<u64, Felt> = HashMap::new();
    let mut j: usize = 0;
    proof {
        lemma_witnessed_none(preimage_entries(*preimage));
        lemma_records_empty(*tree, w, level as int);
        assert(listed_parents(plan@.take(0)) =~= Set::<u64>::empty());
        assert(next_row@.dom() =~= Set::<u64>::empty());
        assert forall|p: int| #[trigger]
            pair_state(*tree, *tree, level as int, w, listed_parents(plan@.take(0)), p) by {}
        let none = listed_parents(plan@.take(0));
        assert(written_leaves(w, none) =~= Set::<u64>::empty());
        lemma_row_kept(tree.row_len(level + 1), none);
        lemma_row_kept(tree.row_len(0), written_leaves(w, none));
    }
    while j < plan.len()
        invariant
            j <= plan@.len(),
            old(tree).well_shaped(),
            level < old(tree).depth,
            forall|k: u64| w.contains_key(k) ==> k < usize::MAX,
            forall|i: int|
                0 <= i < plan@.len() ==> plan_entry_ok(*old(tree), w, level as int, #[trigger] plan@[i])
                    && plan@[i].parent < usize::MAX,
            pass_applied(*old(tree), *tree, level as int, w, listed_parents(plan@.take(j as int))),
            next_row@.dom() == listed_parents(plan@.take(j as int)),
            forall|p: u64| #[trigger]
                next_row@.contains_key(p) ==> next_row@[p]@ == old(tree).node(level + 1, p as int),
            witnessed(
                preimage_entries(*old(preimage)),
                preimage_entries(*preimage),
                pass_pre_records(*old(tree), w, level as int, listed_parents(plan@.take(j as int))),
                pass_post_records(*old(tree), w, level as int, listed_parents(plan@.take(j as int))),
            ),
        decreases plan@.len() - j,
    {
        let update = plan[j];
        let p = update.parent;
        let ghost before = *tree;
        let ghost ps = listed_parents(plan@.take(j as int));
        let ghost entries_before = preimage_entries(*preimage);
        assert(plan_entry_ok(*old(tree), w, level as int, plan@[j as int]));
        write_pair(tree, level, &update);
        record_preimage(
            preimage,
            &update.prev_parent,
            &update.prev_left,
            &update.prev_right,
            &update.new_parent,
            &update.left,
            &update.right,
        );
        next_row.insert(p, update.prev_parent);
        proof {
            lemma_listed_step(plan@, j as int);
            lemma_records_insert(*old(tree), w, level as int, ps, p);
            let pre = pre_record(*old(tree), w, level as int, p as int);
            let post = post_record(*old(tree), w, level as int, p as int);
            lemma_witnessed_one(entries_before, pre, post);
            lemma_witnessed_then(
                preimage_entries(*old(preimage)),
                entries_before,
                preimage_entries(*preimage),
                pass_pre_records(*old(tree), w, level as int, ps),
                pass_post_records(*old(tree), w, level as int, ps),
                set![pre],
                set![post],
            );
            assert(next_row@.dom() =~= ps.insert(p));
            lemma_pair_written(*old(tree), before, *tree, level as int, w, ps, update);
        }
        j = j + 1;
    }
    proof {
        assert(plan@.take(plan@.len() as int) =~= plan@);
    }
    next_row
}

/// Writes the parent of one update, and the leaves below it that the update
/// asks for.
fn write_pair(tree: &mut Tree, level: u32, update: &PairUpdate)
    requires
        old(tree).well_shaped(),
        level < old(tree).depth,
        update.parent < usize::MAX,
        update.write_left ==> 2 * update.parent < usize::MAX,
        update.write_right ==> 2 * update.parent + 1 < usize::MAX,
    ensures
        pair_written(*old(tree), *final(tree), level as int, *update),
{
    let p = update.parent;
    let ghost t0 = *tree;
    tree.put_inner(level + 1, p, update.new_parent);
    let ghost t1 = *tree;
    if update.write_left {
        tree.put_leaf(2 * p, update.left);
    }
    let ghost t2 = *tree;
    if update.write_right {
        tree.put_leaf(2 * p + 1, update.right);
    }
    proof {
        assert forall|l: int|
            #[trigger] tree.row_len(l) == if l == level + 1 {
                grown(t0.row_len(l), p as int)
            } else if l == 0 {
                leaf_len_after(t0.row_len(0), *update)
            } else {
                t0.row_len(l)
            } by {
            assert(t1.row_len(l) == if l == level + 1 {
                grown(t0.row_len(l), p as int)
            } else {
                t0.row_len(l)
            });
            assert(t2.inner_nodes == t1.inner_nodes || t2 == t1);
            assert(tree.inner_nodes == t2.inner_nodes);
        }
        assert forall|l: int, k: int|
            #[trigger] tree.inner(l, k) == if l == level + 1 && k == p {
                update.new_parent@
            } else {
                t0.inner(l, k)
            } by {
            assert(t2.inner(l, k) == t1.inner(l, k));
            assert(tree.inner(l, k) == t2.inner(l, k));
        }
        assert forall|k: int|
            #[trigger] tree.leaf(k) == if update.write_left && k == 2 * p {
                update.left@
            } else if update.write_right && k == 2 * p + 1 {
                update.right@
            } else {
                t0.leaf(k)
            } by {
            assert(t1.leaf(k) == t0.leaf(k));
            assert(t2.leaf(k) == if update.write_left && k == 2 * p {
                update.left@
            } else {
                t1.leaf(k)
            });
        }
    }
}

/// The root of the tree of the given depth over the leaves: the zero hash of
/// the depth where no leaf is held.
pub fn build_tree(depth: u32, leaf_nodes: &Vec<Felt>, shift: u32) -> (root: Felt)
    requires
        depth >= 1,
    ensures
        root@ == merkle_root(felt_values(leaf_nodes@), depth as nat, shift as nat),
{
    let inner_nodes: Vec<Vec<Felt>> = inner_from_leaf_nodes(depth as usize, leaf_nodes, shift);
    let top = &inner_nodes[0];
    assert(rows_hold(felt_values(leaf_nodes@), shift as nat, depth as nat, inner_nodes@[0]@));
    if top.len() > 0 {
        top[0]
    } else {
        proof {
            lemma_beyond_row(felt_values(leaf_nodes@), shift as nat, depth as nat, 0);
        }
        get_zero_hash(depth, shift)
    }
}

/// The rows of the tree over the leaves, from the top row down to the row
/// above the leaves. A row holds the nodes that have a held leaf below them.
pub fn inner_from_leaf_nodes(depth: usize, leaf_nodes: &Vec<Felt>, shift: u32) -> (tree: Vec<
    Vec<Felt>,
>)
    requires
        1 <= depth <= u32::MAX,
    ensures
        tree@.len() == depth,
        forall|k: int|
            0 <= k < depth ==> rows_hold(
                felt_values(leaf_nodes@),
                shift as nat,
                (depth - k) as nat,
                (#[trigger] tree@[k])@,
            ),
{
    let ghost leaves = felt_values(leaf_nodes@);
    let mut rows: Vec<Vec<Felt>> = Vec::new();
    let first = hash_tree_level(leaf_nodes, 0, 0, shift);
    proof {
        assert(rows_hold(leaves, shift as nat, 0, leaf_nodes@));
        assert(leaf_nodes@.skip(0) =~= leaf_nodes@);
        lemma_row_above(leaves, shift as nat, 0, leaf_nodes@, first@);
    }
    rows.push(first);
    let mut i: usize = 1;
    while i < depth
        invariant
            1 <= i <= depth <= u32::MAX,
            leaves == felt_values(leaf_nodes@),
            rows@.len() == i,
            forall|k: int|
                0 <= k < i ==> rows_hold(leaves, shift as nat, (k + 1) as nat, (#[trigger] rows@[k])@),
        decreases depth - i,
    {
        let hashes = hash_tree_level(&rows[i - 1], i, 0, shift);
        let ghost held = rows@;
        proof {
            assert(rows_hold(leaves, shift as nat, i as nat, rows@[i - 1]@));
            assert(rows@[i - 1]@.skip(0) =~= rows@[i - 1]@);
            lemma_row_above(leaves, shift as nat, i as nat, rows@[i - 1]@, hashes@);
        }
        rows.push(hashes);
        proof {
            assert forall|k: int| 0 <= k < i + 1 implies rows_hold(
                leaves,
                shift as nat,
                (k + 1) as nat,
                (#[trigger] rows@[k])@,
            ) by {
                if k < i {
                    assert(rows@[k] == held[k]);
                }
            }
        }
        i = i + 1;
    }
    // Top row first.
    let mut tree: Vec<Vec<Felt>> = Vec::new();
    while rows.len() > 0
        invariant
            rows@.len() + tree@.len() == depth,
            forall|k: int|
                0 <= k < rows@.len() ==> rows_hold(
                    leaves,
                    shift as nat,
                    (k + 1) as nat,
                    (#[trigger] rows@[k])@,
                ),
            forall|k: int|
                0 <= k < tree@.len() ==> rows_hold(
                    leaves,
                    shift as nat,
                    (depth - k) as nat,
                    (#[trigger] tree@[k])@,
                ),
        decreases rows@.len(),
    {
        let ghost before = tree@;
        let ghost held = rows@;
        let row = rows.pop().unwrap();
        tree.push(row);
        proof {
            assert(rows_hold(leaves, shift as nat, held.len(), held[held.len() - 1]@));
            assert forall|k: int| 0 <= k < tree@.len() implies rows_hold(
                leaves,
                shift as nat,
                (depth - k) as nat,
                (#[trigger] tree@[k])@,
            ) by {
                if k < before.len() {
                    assert(tree@[k] == before[k]);
                }
            }
            assert forall|k: int| 0 <= k < rows@.len() implies rows_hold(
                leaves,
                shift as nat,
                (k + 1) as nat,
                (#[trigger] rows@[k])@,
            ) by {
                assert(rows@[k] == held[k]);
            }
        }
    }
    tree
}

/// Hashes a row of level `i` pairwise into the row above, from stride `n` on.
/// Each stride is hashed by a task of its own.
pub fn hash_tree_level(leaf_nodes: &Vec<Felt>, i: usize, n: usize, shift: u32) -> (next_row: Vec<
    Felt,
>)
    requires
        i <= u32::MAX,
    ensures
        row_above(
            leaf_nodes@.skip(stride_start(n as nat, leaf_nodes@.len()) as int),
            i as nat,
            shift as nat,
            next_row@,
        ),
    decreases leaf_nodes@.len() - stride_start(n as nat, leaf_nodes@.len()),
{
    let (start, end) = stride_bounds(leaf_nodes.len(), n);
    let inp_array = copy_range(leaf_nodes, start, end);
    if inp_array.len() > 0 {
        let ghost rest_row = leaf_nodes@.skip(end as int);
        let ghost level = i as nat;
        let ghost height = shift as nat;
        let hash_stride = || -> (r: Vec<Felt>)
            ensures
                row_above(inp_array@, level, height, r@),
            {
                pairwise_hash(&inp_array, i, shift)
            };
        let hash_rest = || -> (r: Vec<Felt>)
            ensures
                row_above(rest_row, level, height, r@),
            {
                hash_tree_level(leaf_nodes, i, n + 1, shift)
            };
        let (mut head, mut rest) = rayon::join(hash_stride, hash_rest);
        proof {
            assert(leaf_nodes@.skip(start as int) =~= inp_array@ + rest_row);
            lemma_row_above_concat(
                leaf_nodes@.skip(start as int),
                inp_array@,
                rest_row,
                i as nat,
                shift as nat,
                head@,
                rest@,
            );
        }
        head.append(&mut rest);
        head
    } else {
        Vec::new()
    }
}

/// Hashes the elements two by two. An element left over at the end is hashed
/// with the zero hash of level `i`.
pub fn pairwise_hash(array: &Vec<Felt>, i: usize, shift: u32) -> (hashes: Vec<Felt>)
    requires
        i <= u32::MAX,
    ensures
        row_above(array@, i as nat, shift as nat, hashes@),
{
    let mut hashes: Vec<Felt> = Vec::new();
    let len = array.len();
    let mut j: usize = 0;
    while j + 1 < len
        invariant
            j % 2 == 0,
            j <= len,
            len == array@.len(),
            hashes@.len() == j / 2,
            forall|k: int|
                0 <= k < hashes@.len() ==> (#[trigger] hashes@[k])@ == pedersen_spec(
                    array@[2 * k]@,
                    array@[2 * k + 1]@,
                ),
        decreases len - j,
    {
        let hash = pedersen(&array[j], &array[j + 1]);
        hashes.push(hash);
        j = j + 2;
    }
    if len % 2 == 1 {
        let zero = get_zero_hash(i as u32, shift);
        hashes.push(pedersen(&array[len - 1], &zero));
    }
    hashes
}

/// The rows above the held leaves.
pub open spec fn rows_hold(leaves: Seq<nat>, shift: nat, level: nat, row: Seq<Felt>) -> bool {
    &&& row.len() == row_len(leaves.len(), level)
    &&& forall|j: int| 0 <= j < row.len() ==> (#[trigger] row[j])@ == subtree_hash(leaves, shift, level, j)
}

/// The row above: each node the hash of its two children in `row`, the zero
/// hash of level `i` standing in for a missing right child.
pub open spec fn row_above(row: Seq<Felt>, i: nat, shift: nat, above: Seq<Felt>) -> bool {
    &&& above.len() == (row.len() + 1) / 2
    &&& forall|j: int|
        0 <= j < above.len() ==> (#[trigger] above[j])@ == pedersen_spec(
            row[2 * j]@,
            if 2 * j + 1 < row.len() {
                row[2 * j + 1]@
            } else {
                zero_hash(i, shift)
            },
        )
}

/// The row above a row of subtree hashes is the row of subtree hashes one
/// level up.
proof fn lemma_row_above(leaves: Seq<nat>, shift: nat, level: nat, row: Seq<Felt>, above: Seq<Felt>)
    requires
        rows_hold(leaves, shift, level, row),
        row_above(row, level, shift, above),
    ensures
        rows_hold(leaves, shift, level + 1, above),
{
    assert forall|j: int| 0 <= j < above.len() implies (#[trigger] above[j])@ == subtree_hash(
        leaves,
        shift,
        level + 1,
        j,
    ) by {
        if 2 * j + 1 >= row.len() {
            lemma_beyond_row(leaves, shift, level, 2 * j + 1);
        }
    }
}

/// The row above a row that is cut after an even number of elements, or not
/// at all, is the rows above the two parts, one after the other.
proof fn lemma_row_above_concat(
    row: Seq<Felt>,
    first: Seq<Felt>,
    second: Seq<Felt>,
    i: nat,
    shift: nat,
    head: Seq<Felt>,
    rest: Seq<Felt>,
)
    requires
        row == first + second,
        first.len() % 2 == 0 || second.len() == 0,
        row_above(first, i, shift, head),
        row_above(second, i, shift, rest),
    ensures
        row_above(row, i, shift, head + rest),
{
    let above = head + rest;
    assert forall|j: int| 0 <= j < above.len() implies (#[trigger] above[j])@ == pedersen_spec(
        row[2 * j]@,
        if 2 * j + 1 < row.len() {
            row[2 * j + 1]@
        } else {
            zero_hash(i, shift)
        },
    ) by {
        if j < head.len() {
            assert(above[j] == head[j]);
        } else {
            let k = j - head.len();
            assert(above[j] == rest[k]);
            assert(row[2 * j] == second[2 * k]);
        }
    }
}

} // verus!
