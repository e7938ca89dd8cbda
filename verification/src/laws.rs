//! What holds of batches, stated over the trees and maps before and after.

use crate::batch::{
    batch_applied, level_keys, node_record, on_path, pair_touched, parents,
    path_records, touched, updated_node, updated_path_records, updated_record,
};
use crate::field::{decimal_digits, Felt};
use crate::merkle::merkle_root;
use crate::preimage::{entry_of, has_key, witnessed, witnessed_at, HashRecord};
use crate::tree::Tree;
use vstd::prelude::*;

verus! {

/// The ancestors of the keys of two sets are the ancestors of the keys of
/// either.
pub proof fn lemma_level_keys_union(a: Set<u64>, b: Set<u64>, level: nat)
    ensures
        level_keys(a + b, level) == level_keys(a, level) + level_keys(b, level),
    decreases level,
{
    if level > 0 {
        lemma_level_keys_union(a, b, (level - 1) as nat);
        let x = level_keys(a, (level - 1) as nat);
        let y = level_keys(b, (level - 1) as nat);
        assert(parents(x + y) =~= parents(x) + parents(y));
    }
}

/// A node with a touched child is touched.
pub proof fn lemma_parent_touched(keys: Set<u64>, level: nat, k: int)
    requires
        level >= 1,
        k >= 0,
        touched(keys, (level - 1) as nat, 2 * k) || touched(keys, (level - 1) as nat, 2 * k + 1),
    ensures
        touched(keys, level, k),
{
    assert(pair_touched(level_keys(keys, (level - 1) as nat), k));
}

/// A batch applied to the outcome of another gives, at every node, what the
/// two batches give as one, the later update winning where both name a leaf.
pub proof fn lemma_updated_twice(
    t0: Tree,
    t1: Tree,
    u1: Map<u64, Felt>,
    u2: Map<u64, Felt>,
    level: nat,
    k: int,
)
    requires
        batch_applied(t0, t1, u1),
        level <= t0.depth,
    ensures
        updated_node(t1, u2, level, k) == updated_node(t0, u1.union_prefer_right(u2), level, k),
    decreases level,
{
    let u = u1.union_prefer_right(u2);
    assert(u.dom() =~= u1.dom() + u2.dom());
    assert(t1.node(level as int, k) == updated_node(t0, u1, level, k));
    if level > 0 {
        let below = (level - 1) as nat;
        lemma_updated_twice(t0, t1, u1, u2, below, 2 * k);
        lemma_updated_twice(t0, t1, u1, u2, below, 2 * k + 1);
        lemma_level_keys_union(u1.dom(), u2.dom(), level);
        assert(t1.node(below as int, 2 * k) == updated_node(t0, u1, below, 2 * k));
        assert(t1.node(below as int, 2 * k + 1) == updated_node(t0, u1, below, 2 * k + 1));
        if !touched(u2.dom(), level, k) && touched(u1.dom(), level, k) {
            if touched(u2.dom(), below, 2 * k) || touched(u2.dom(), below, 2 * k + 1) {
                lemma_parent_touched(u2.dom(), level, k);
            }
        }
    }
}

/// Commutativity. Two batches with disjoint keys, one after the other, give
/// the root, and every node, that the union of the two gives as one batch.
pub proof fn lemma_batches_commute(
    t0: Tree,
    t1: Tree,
    t2: Tree,
    t12: Tree,
    u1: Map<u64, Felt>,
    u2: Map<u64, Felt>,
)
    requires
        u1.dom().disjoint(u2.dom()),
        batch_applied(t0, t1, u1),
        batch_applied(t1, t2, u2),
        batch_applied(t0, t12, u1.union_prefer_right(u2)),
    ensures
        t2.root@ == t12.root@,
        forall|l: int, k: int| 0 <= l <= t0.depth ==> #[trigger] t2.node(l, k) == t12.node(l, k),
{
    let u = u1.union_prefer_right(u2);
    assert(u.dom() =~= u1.dom() + u2.dom());
    assert forall|l: int, k: int| 0 <= l <= t0.depth implies #[trigger] t2.node(l, k) == t12.node(
        l,
        k,
    ) by {
        lemma_updated_twice(t0, t1, u1, u2, l as nat, k);
        assert(t2.node(l, k) == updated_node(t1, u2, l as nat, k));
        assert(t12.node(l, k) == updated_node(t0, u, l as nat, k));
    }
    let top = t0.depth as int;
    assert(t2.node(top, 0) == t12.node(top, 0));
    assert(t1.node(top, 0) == updated_node(t0, u1, top as nat, 0));
    if u2.dom().is_empty() {
        assert(u =~= u1);
    } else {
        assert(!u.dom().is_empty());
    }
}

/// The root against the leaves. After a batch on a well-formed tree the root
/// is the root of the tree over the leaves, as it was before the batch.
pub proof fn lemma_root_after_batch(pre: Tree, post: Tree, u: Map<u64, Felt>)
    requires
        pre.well_formed(),
        batch_applied(pre, post, u),
    ensures
        post.well_formed(),
        post.root@ == merkle_root(post.leaf_values(), post.depth as nat, post.shift as nat),
{
    Tree::lemma_batch_keeps_well_formed(pre, post, u);
    post.lemma_root_is_merkle_root();
}

/// Idempotence of the tree. A batch applied a second time changes no node and
/// not the root.
pub proof fn lemma_batch_idempotent(t0: Tree, t1: Tree, t2: Tree, u: Map<u64, Felt>)
    requires
        batch_applied(t0, t1, u),
        batch_applied(t1, t2, u),
    ensures
        t2.root@ == t1.root@,
        forall|l: int, k: int| 0 <= l <= t0.depth ==> #[trigger] t2.node(l, k) == t1.node(l, k),
{
    assert(u.union_prefer_right(u) =~= u);
    assert forall|l: int, k: int| 0 <= l <= t0.depth implies #[trigger] t2.node(l, k) == t1.node(
        l,
        k,
    ) by {
        lemma_updated_twice(t0, t1, u, u, l as nat, k);
        assert(t2.node(l, k) == updated_node(t1, u, l as nat, k));
        assert(t1.node(l, k) == updated_node(t0, u, l as nat, k));
    }
    assert(t2.node(t0.depth as int, 0) == t1.node(t0.depth as int, 0));
}

/// The new states that a batch records are the nodes of the outcome on the
/// paths from the keys, each with its two children.
pub proof fn lemma_updated_records_are_path_records(pre: Tree, post: Tree, u: Map<u64, Felt>)
    requires
        batch_applied(pre, post, u),
    ensures
        updated_path_records(pre, u, pre.depth as int) == path_records(
            post,
            u.dom(),
            pre.depth as int,
        ),
{
    let top = pre.depth as int;
    let a = updated_path_records(pre, u, top);
    let b = path_records(post, u.dom(), top);
    assert forall|l: int, p: u64| on_path(u.dom(), top, l, p) implies updated_record(pre, u, l, p as int)
        == node_record(post, l, p as int) by {
        assert(post.node(l, p as int) == updated_node(pre, u, l as nat, p as int));
        assert(post.node(l - 1, 2 * p) == updated_node(pre, u, (l - 1) as nat, 2 * p));
        assert(post.node(l - 1, 2 * p + 1) == updated_node(pre, u, (l - 1) as nat, 2 * p + 1));
    }
    assert forall|r: HashRecord| a.contains(r) <==> b.contains(r) by {
        if a.contains(r) {
            let (l, p) = choose|l: int, p: u64| #[trigger]
                on_path(u.dom(), top, l, p) && r == updated_record(pre, u, l, p as int);
            assert(on_path(u.dom(), top, l, p) && r == node_record(post, l, p as int));
        }
        if b.contains(r) {
            let (l, p) = choose|l: int, p: u64| #[trigger]
                on_path(u.dom(), top, l, p) && r == node_record(post, l, p as int);
            assert(on_path(u.dom(), top, l, p) && r == updated_record(pre, u, l, p as int));
        }
    }
    assert(a =~= b);
}

/// Completeness of the new states. After a batch the preimage map holds, under
/// the hash of every inner node on a path from an updated leaf to the root, the
/// two children of a node of the new tree on such a path with that hash.
pub proof fn lemma_new_state_recorded(
    m0: Map<Seq<char>, (Seq<char>, Seq<char>)>,
    p: Map<Seq<char>, (Seq<char>, Seq<char>)>,
    pre: Tree,
    post: Tree,
    keys: Set<u64>,
    level: int,
    k: u64,
)
    requires
        witnessed(
            m0,
            p,
            path_records(pre, keys, pre.depth as int),
            path_records(post, keys, pre.depth as int),
        ),
        on_path(keys, pre.depth as int, level, k),
    ensures
        p.contains_key(decimal_digits(post.node(level, k as int))),
        entry_of(
            path_records(post, keys, pre.depth as int),
            decimal_digits(post.node(level, k as int)),
            p[decimal_digits(post.node(level, k as int))],
        ),
{
    let key = decimal_digits(post.node(level, k as int));
    let top = pre.depth as int;
    let r = node_record(post, level, k as int);
    assert(path_records(post, keys, top).contains(r));
    assert(has_key(path_records(post, keys, top), key));
    assert(witnessed_at(m0, p, path_records(pre, keys, top), path_records(post, keys, top), key));
}

/// Completeness of the former states. After a batch the preimage map has the
/// former hash of every inner node on a path from an updated leaf to the root
/// as a key. Under it stands a new state with that hash, if the batch made
/// one; else what the map held under it before the batch, if it held anything;
/// else the two children that a node on such a path with that hash had before
/// the batch.
pub proof fn lemma_former_state_recorded(
    m0: Map<Seq<char>, (Seq<char>, Seq<char>)>,
    p: Map<Seq<char>, (Seq<char>, Seq<char>)>,
    pre: Tree,
    post: Tree,
    keys: Set<u64>,
    level: int,
    k: u64,
)
    requires
        witnessed(
            m0,
            p,
            path_records(pre, keys, pre.depth as int),
            path_records(post, keys, pre.depth as int),
        ),
        on_path(keys, pre.depth as int, level, k),
    ensures
        p.contains_key(decimal_digits(pre.node(level, k as int))),
        ({
            let key = decimal_digits(pre.node(level, k as int));
            if has_key(path_records(post, keys, pre.depth as int), key) {
                entry_of(path_records(post, keys, pre.depth as int), key, p[key])
            } else if m0.contains_key(key) {
                p[key] == m0[key]
            } else {
                entry_of(path_records(pre, keys, pre.depth as int), key, p[key])
            }
        }),
{
    let key = decimal_digits(pre.node(level, k as int));
    let top = pre.depth as int;
    let r = node_record(pre, level, k as int);
    assert(path_records(pre, keys, top).contains(r));
    assert(has_key(path_records(pre, keys, top), key));
    assert(witnessed_at(m0, p, path_records(pre, keys, top), path_records(post, keys, top), key));
}

/// Idempotence of the preimage map. A batch applied a second time adds no key,
/// and what it writes under a key is again a new state of the first batch
/// with that hash.
pub proof fn lemma_batch_idempotent_preimage(
    m1: Map<Seq<char>, (Seq<char>, Seq<char>)>,
    m2: Map<Seq<char>, (Seq<char>, Seq<char>)>,
    m0: Map<Seq<char>, (Seq<char>, Seq<char>)>,
    t0: Tree,
    t1: Tree,
    t2: Tree,
    u: Map<u64, Felt>,
)
    requires
        batch_applied(t0, t1, u),
        batch_applied(t1, t2, u),
        witnessed(
            m0,
            m1,
            path_records(t0, u.dom(), t0.depth as int),
            path_records(t1, u.dom(), t0.depth as int),
        ),
        witnessed(
            m1,
            m2,
            path_records(t1, u.dom(), t0.depth as int),
            path_records(t2, u.dom(), t0.depth as int),
        ),
    ensures
        m2.dom() == m1.dom(),
        forall|key: Seq<char>| #[trigger]
            m2.contains_key(key) ==> m2[key] == m1[key] || entry_of(
                path_records(t1, u.dom(), t0.depth as int),
                key,
                m2[key],
            ),
{
    let top = t0.depth as int;
    let keys = u.dom();
    lemma_batch_idempotent(t0, t1, t2, u);
    let r1 = path_records(t1, keys, top);
    let r2 = path_records(t2, keys, top);
    assert forall|l: int, p: u64| on_path(keys, top, l, p) implies node_record(t2, l, p as int)
        == node_record(t1, l, p as int) by {
        assert(t2.node(l, p as int) == t1.node(l, p as int));
        assert(t2.node(l - 1, 2 * p) == t1.node(l - 1, 2 * p));
        assert(t2.node(l - 1, 2 * p + 1) == t1.node(l - 1, 2 * p + 1));
    }
    assert forall|r: HashRecord| r1.contains(r) <==> r2.contains(r) by {
        if r1.contains(r) {
            let (l, p) = choose|l: int, p: u64| #[trigger]
                on_path(keys, top, l, p) && r == node_record(t1, l, p as int);
            assert(on_path(keys, top, l, p) && r == node_record(t2, l, p as int));
        }
        if r2.contains(r) {
            let (l, p) = choose|l: int, p: u64| #[trigger]
                on_path(keys, top, l, p) && r == node_record(t2, l, p as int);
            assert(on_path(keys, top, l, p) && r == node_record(t1, l, p as int));
        }
    }
    assert(r1 =~= r2);
    assert forall|key: Seq<char>| m2.contains_key(key) <==> m1.contains_key(key) by {
        assert(witnessed_at(m0, m1, path_records(t0, keys, top), r1, key));
        assert(witnessed_at(m1, m2, r1, r2, key));
    }
    assert(m2.dom() =~= m1.dom());
    assert forall|key: Seq<char>| #[trigger] m2.contains_key(key) implies m2[key] == m1[key]
        || entry_of(r1, key, m2[key]) by {
        assert(witnessed_at(m1, m2, r1, r2, key));
    }
}

} // verus!
