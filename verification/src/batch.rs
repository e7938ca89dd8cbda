//! What a batch of leaf updates does to the tree, level by level.
//!
//! A batch touches the leaves it names and every node above them. Level by
//! level the pairs with a touched node get their parent recomputed. The
//! functions here say which pairs those are, what the nodes hold before and
//! after, and what is recorded of each recomputed parent.

use crate::field::Felt;
use crate::preimage::HashRecord;
use crate::tree::{grown, Tree};
use crate::utils::pedersen_spec;
use crate::utils::tree_utils::lemma_pair_in_range;
use vstd::arithmetic::power2::pow2;
use vstd::prelude::*;

verus! {

/// The largest index that has both children among the `u64` indices.
pub open spec fn max_parent() -> int {
    0x7fff_ffff_ffff_ffff
}

/// Whether one of the two children of `p` is a key.
pub open spec fn pair_touched(keys: Set<u64>, p: int) -> bool {
    &&& 0 <= p <= max_parent()
    &&& (keys.contains((2 * p) as u64) || keys.contains((2 * p + 1) as u64))
}

/// The parents of the keys.
pub open spec fn parents(keys: Set<u64>) -> Set<u64> {
    Set::new(|p: u64| pair_touched(keys, p as int))
}

/// The ancestors of the keys, `level` levels up.
pub open spec fn level_keys(keys: Set<u64>, level: nat) -> Set<u64>
    decreases level,
{
    if level == 0 {
        keys
    } else {
        parents(level_keys(keys, (level - 1) as nat))
    }
}

/// Whether the node at `level`, position `k`, lies on the path from a key to
/// the root.
pub open spec fn touched(keys: Set<u64>, level: nat, k: int) -> bool {
    0 <= k <= u64::MAX && level_keys(keys, level).contains(k as u64)
}

/// The key that recomputes the parent of its pair: the right child, or the
/// left child where the right one is no key.
pub open spec fn is_active(keys: Set<u64>, k: u64) -> bool {
    k % 2 == 1 || !keys.contains((k + 1) as u64)
}

/// Whether the map holds a value for the position.
pub open spec fn holds(w: Map<u64, Felt>, k: int) -> bool {
    0 <= k <= u64::MAX && w.contains_key(k as u64)
}

/// What the node at `level`, position `k`, holds once the level below the
/// parents has its new values. At the leaves the new values come from the
/// map; above them the tree holds them already.
pub open spec fn new_value(t: Tree, w: Map<u64, Felt>, level: int, k: int) -> nat {
    if level == 0 && holds(w, k) {
        w[k as u64]@
    } else {
        t.node(level, k)
    }
}

/// What the node at `level`, position `k`, held before the batch. At the
/// leaves the tree still holds it; above them the map holds it for a touched
/// node, and the tree for any other.
pub open spec fn old_value(t: Tree, w: Map<u64, Felt>, level: int, k: int) -> nat {
    if level != 0 && holds(w, k) {
        w[k as u64]@
    } else {
        t.node(level, k)
    }
}

/// The former state of the parent `p` of a pair at `level`.
pub open spec fn pre_record(t: Tree, w: Map<u64, Felt>, level: int, p: int) -> HashRecord {
    HashRecord {
        hash: t.node(level + 1, p),
        left: old_value(t, w, level, 2 * p),
        right: old_value(t, w, level, 2 * p + 1),
    }
}

/// The new state of the parent `p` of a pair at `level`.
pub open spec fn post_record(t: Tree, w: Map<u64, Felt>, level: int, p: int) -> HashRecord {
    HashRecord {
        hash: pedersen_spec(new_value(t, w, level, 2 * p), new_value(t, w, level, 2 * p + 1)),
        left: new_value(t, w, level, 2 * p),
        right: new_value(t, w, level, 2 * p + 1),
    }
}

/// The former states of the given parents.
pub open spec fn pass_pre_records(t: Tree, w: Map<u64, Felt>, level: int, ps: Set<u64>) -> Set<
    HashRecord,
> {
    Set::new(
        |r: HashRecord| exists|p: u64| #[trigger] ps.contains(p) && r == pre_record(t, w, level, p as int),
    )
}

/// The new states of the given parents.
pub open spec fn pass_post_records(t: Tree, w: Map<u64, Felt>, level: int, ps: Set<u64>) -> Set<
    HashRecord,
> {
    Set::new(
        |r: HashRecord| exists|p: u64| #[trigger] ps.contains(p) && r == post_record(t, w, level, p as int),
    )
}

/// What the node at `level`, position `k`, holds after the batch `u` was
/// applied to the tree `t`: a leaf that the batch names holds its new hash, a
/// node on a path from such a leaf to the root holds the hash of its two
/// children after the batch, and every other node holds what it held.
pub open spec fn updated_node(t: Tree, u: Map<u64, Felt>, level: nat, k: int) -> nat
    decreases level,
{
    if level == 0 {
        new_value(t, u, 0, k)
    } else if touched(u.dom(), level, k) {
        pedersen_spec(
            updated_node(t, u, (level - 1) as nat, 2 * k),
            updated_node(t, u, (level - 1) as nat, 2 * k + 1),
        )
    } else {
        t.node(level as int, k)
    }
}

/// The node at `level`, position `p`, of the tree, with its two children.
pub open spec fn node_record(t: Tree, level: int, p: int) -> HashRecord {
    HashRecord {
        hash: t.node(level, p),
        left: t.node(level - 1, 2 * p),
        right: t.node(level - 1, 2 * p + 1),
    }
}

/// The node at `level`, position `p`, after the batch, with its two children
/// after the batch.
pub open spec fn updated_record(t: Tree, u: Map<u64, Felt>, level: int, p: int) -> HashRecord {
    HashRecord {
        hash: updated_node(t, u, level as nat, p),
        left: updated_node(t, u, (level - 1) as nat, 2 * p),
        right: updated_node(t, u, (level - 1) as nat, 2 * p + 1),
    }
}

/// Whether the inner node at `level`, position `p`, lies on a path from a key
/// to the root, no higher than level `top`.
pub open spec fn on_path(keys: Set<u64>, top: int, level: int, p: u64) -> bool {
    1 <= level <= top && level_keys(keys, level as nat).contains(p)
}

/// The inner nodes of the tree that lie on the paths from the keys up to level
/// `top`, each with its two children.
pub open spec fn path_records(t: Tree, keys: Set<u64>, top: int) -> Set<HashRecord> {
    Set::new(
        |r: HashRecord|
            exists|l: int, p: u64| #[trigger] on_path(keys, top, l, p) && r == node_record(t, l, p as int),
    )
}

/// The same nodes after the batch, each with its two children after the
/// batch.
pub open spec fn updated_path_records(t: Tree, u: Map<u64, Felt>, top: int) -> Set<HashRecord> {
    Set::new(
        |r: HashRecord|
            exists|l: int, p: u64| #[trigger]
                on_path(u.dom(), top, l, p) && r == updated_record(t, u, l, p as int),
    )
}

/// The tree `post` is the tree `pre` after the batch `u`: every node up to
/// the root holds what `updated_node` says, and the root is the node at the
/// top.
pub open spec fn batch_applied(pre: Tree, post: Tree, u: Map<u64, Felt>) -> bool {
    &&& post.well_shaped()
    &&& post.depth == pre.depth
    &&& post.shift == pre.shift
    &&& post.zero_hashes == pre.zero_hashes
    &&& forall|l: int, k: int|
        0 <= l <= pre.depth ==> #[trigger] post.node(l, k) == updated_node(pre, u, l as nat, k)
    &&& forall|l: int|
        0 <= l <= pre.depth ==> row_grown(
            pre.row_len(l),
            #[trigger] post.row_len(l),
            level_keys(u.dom(), l as nat),
        )
    &&& post.root@ == if u.dom() =~= Set::<u64>::empty() {
        pre.root@
    } else {
        post.node(pre.depth as int, 0)
    }
}

/// Whether a written position lies at `n` or beyond it.
pub open spec fn reaches(written: Set<u64>, n: int) -> bool {
    exists|k: u64| #[trigger] written.contains(k) && n <= k
}

/// Whether position `n` lies in a row of the given length.
pub open spec fn below(len: nat, n: int) -> bool {
    n < len
}

/// A row of length `old_len` has the length `new_len` after the writes at the
/// given positions: it grew up to the highest of them, and not beyond.
pub open spec fn row_grown(old_len: nat, new_len: nat, written: Set<u64>) -> bool {
    forall|n: int|
        0 <= n ==> (#[trigger] below(new_len, n) == (n < old_len || reaches(written, n)))
}

/// Without a write a row keeps its length.
pub proof fn lemma_row_kept(len: nat, written: Set<u64>)
    requires
        written == Set::<u64>::empty(),
    ensures
        row_grown(len, len, written),
{
    assert forall|n: int| 0 <= n implies (#[trigger] below(len, n) == (n < len || reaches(
        written,
        n,
    ))) by {
        if reaches(written, n) {
            let k = choose|k: u64| #[trigger] written.contains(k) && n <= k;
        }
    }
}

/// The keys whose parent is among the given parents.
pub open spec fn written_leaves(w: Map<u64, Felt>, ps: Set<u64>) -> Set<u64> {
    Set::new(|k: u64| w.contains_key(k) && ps.contains((k / 2) as u64))
}

/// The length of the row of leaves after the leaves of one update were
/// written.
pub open spec fn leaf_len_after(len: nat, e: PairUpdate) -> nat {
    let a = if e.write_left {
        grown(len, 2 * e.parent)
    } else {
        len
    };
    if e.write_right {
        grown(a, 2 * e.parent + 1)
    } else {
        a
    }
}

/// One recomputed parent: what it and its children held, and what they hold
/// now.
#[derive(Clone, Copy, Debug)]
pub struct PairUpdate {
    /// The position of the parent, one level above the pair.
    pub parent: u64,
    /// What the parent held.
    pub prev_parent: Felt,
    /// What the left child held before the batch.
    pub prev_left: Felt,
    /// What the right child held before the batch.
    pub prev_right: Felt,
    /// The new hash of the parent.
    pub new_parent: Felt,
    /// The new left child.
    pub left: Felt,
    /// The new right child.
    pub right: Felt,
    /// Whether the left child is a leaf to be written.
    pub write_left: bool,
    /// Whether the right child is a leaf to be written.
    pub write_right: bool,
}

/// The update is the one that the tree `t` and the map `w` ask for at its
/// parent.
pub open spec fn plan_entry_ok(t: Tree, w: Map<u64, Felt>, level: int, e: PairUpdate) -> bool {
    let p = e.parent as int;
    &&& pair_touched(w.dom(), p)
    &&& e.prev_parent@ == t.node(level + 1, p)
    &&& e.prev_left@ == old_value(t, w, level, 2 * p)
    &&& e.prev_right@ == old_value(t, w, level, 2 * p + 1)
    &&& e.left@ == new_value(t, w, level, 2 * p)
    &&& e.right@ == new_value(t, w, level, 2 * p + 1)
    &&& e.new_parent@ == pedersen_spec(e.left@, e.right@)
    &&& e.write_left == (level == 0 && holds(w, 2 * p))
    &&& e.write_right == (level == 0 && holds(w, 2 * p + 1))
}

/// Whether the plan has an update for the parent.
pub open spec fn listed(plan: Seq<PairUpdate>, p: u64) -> bool {
    exists|j: int| 0 <= j < plan.len() && #[trigger] plan[j].parent == p
}

/// The parents that the plan has an update for.
pub open spec fn listed_parents(plan: Seq<PairUpdate>) -> Set<u64> {
    Set::new(|p: u64| listed(plan, p))
}

/// The parents of the entries that recompute their parent, in the order of
/// the entries.
pub open spec fn active_parents(keys: Set<u64>, entries: Seq<u64>) -> Seq<u64>
    decreases entries.len(),
{
    if entries.len() == 0 {
        Seq::empty()
    } else {
        let rest = active_parents(keys, entries.drop_last());
        if is_active(keys, entries.last()) {
            rest.push((entries.last() / 2) as u64)
        } else {
            rest
        }
    }
}

/// The parents of the updates of a plan, in the order of the plan.
pub open spec fn plan_parents(plan: Seq<PairUpdate>) -> Seq<u64> {
    Seq::new(plan.len(), |j: int| plan[j].parent)
}

/// The parents of two runs of entries are those of the first, then those of
/// the second.
pub proof fn lemma_active_parents_concat(keys: Set<u64>, first: Seq<u64>, second: Seq<u64>)
    ensures
        active_parents(keys, first + second) == active_parents(keys, first) + active_parents(
            keys,
            second,
        ),
    decreases second.len(),
{
    if second.len() == 0 {
        assert(first + second =~= first);
        assert(active_parents(keys, first) + active_parents(keys, second) =~= active_parents(
            keys,
            first,
        ));
    } else {
        lemma_active_parents_concat(keys, first, second.drop_last());
        assert((first + second).drop_last() =~= first + second.drop_last());
        assert((first + second).last() == second.last());
        let a = active_parents(keys, first);
        let b = active_parents(keys, second.drop_last());
        if is_active(keys, second.last()) {
            let p = (second.last() / 2) as u64;
            assert((a + b).push(p) =~= a + b.push(p));
        }
    }
}

/// The parent of an entry that recomputes its parent is among the parents of
/// the entries.
pub proof fn lemma_active_parent_listed(keys: Set<u64>, entries: Seq<u64>, j: int)
    requires
        0 <= j < entries.len(),
        is_active(keys, entries[j]),
    ensures
        active_parents(keys, entries).contains((entries[j] / 2) as u64),
    decreases entries.len(),
{
    let rest = active_parents(keys, entries.drop_last());
    if j == entries.len() - 1 {
        let all = rest.push((entries.last() / 2) as u64);
        assert(all[all.len() - 1] == (entries[j] / 2) as u64);
    } else {
        lemma_active_parent_listed(keys, entries.drop_last(), j);
        let p = (entries[j] / 2) as u64;
        let i = choose|i: int| 0 <= i < rest.len() && rest[i] == p;
        if is_active(keys, entries.last()) {
            assert(rest.push((entries.last() / 2) as u64)[i] == p);
        }
    }
}

/// The plan is made of the updates that the tree and the map ask for: one for
/// each entry that recomputes its parent, in the order of the entries.
pub open spec fn row_planned(
    t: Tree,
    w: Map<u64, Felt>,
    level: int,
    entries: Seq<u64>,
    plan: Seq<PairUpdate>,
) -> bool {
    &&& forall|j: int| 0 <= j < plan.len() ==> plan_entry_ok(t, w, level, #[trigger] plan[j])
    &&& plan_parents(plan) == active_parents(w.dom(), entries)
}

/// The plans of two runs of entries, one after the other, are a plan of the
/// two runs.
pub proof fn lemma_row_planned_concat(
    t: Tree,
    w: Map<u64, Felt>,
    level: int,
    first: Seq<u64>,
    second: Seq<u64>,
    head: Seq<PairUpdate>,
    rest: Seq<PairUpdate>,
)
    requires
        row_planned(t, w, level, first, head),
        row_planned(t, w, level, second, rest),
    ensures
        row_planned(t, w, level, first + second, head + rest),
{
    let plan = head + rest;
    assert forall|j: int| 0 <= j < plan.len() implies plan_entry_ok(t, w, level, #[trigger] plan[j]) by {
        if j < head.len() {
            assert(plan[j] == head[j]);
        } else {
            assert(plan[j] == rest[j - head.len()]);
        }
    }
    lemma_active_parents_concat(w.dom(), first, second);
    assert(plan_parents(plan) =~= plan_parents(head) + plan_parents(rest));
}

/// The key of a touched pair that recomputes the parent.
pub open spec fn active_key(keys: Set<u64>, p: u64) -> u64 {
    if keys.contains((2 * p + 1) as u64) {
        (2 * p + 1) as u64
    } else {
        (2 * p) as u64
    }
}

/// The key that recomputes the parent of a touched pair is a key, is the one
/// that is not passed over, and has the parent as its half.
pub proof fn lemma_active_key(keys: Set<u64>, p: u64)
    requires
        pair_touched(keys, p as int),
    ensures
        keys.contains(active_key(keys, p)),
        is_active(keys, active_key(keys, p)),
        (active_key(keys, p) / 2) as u64 == p,
{
    let k = active_key(keys, p);
    if keys.contains((2 * p + 1) as u64) {
        assert(k == 2 * p + 1);
        assert(k % 2 == 1);
    } else {
        assert(k == 2 * p);
        assert((k + 1) as u64 == (2 * p + 1) as u64);
    }
}

/// A plan made from all the keys lists the parents of the keys, and no others.
pub proof fn lemma_plan_covers(keys: Set<u64>, entries: Seq<u64>, plan: Seq<PairUpdate>)
    requires
        forall|k: u64| keys.contains(k) ==> entries.contains(k),
        forall|j: int| 0 <= j < plan.len() ==> pair_touched(keys, (#[trigger] plan[j]).parent as int),
        plan_parents(plan) == active_parents(keys, entries),
    ensures
        listed_parents(plan) == parents(keys),
{
    assert forall|p: u64| listed(plan, p) implies pair_touched(keys, p as int) by {
        let j = choose|j: int| 0 <= j < plan.len() && #[trigger] plan[j].parent == p;
        assert(pair_touched(keys, plan[j].parent as int));
    }
    assert forall|p: u64| pair_touched(keys, p as int) implies listed(plan, p) by {
        lemma_active_key(keys, p);
        let k = active_key(keys, p);
        assert(entries.contains(k));
        let j = choose|j: int| 0 <= j < entries.len() && entries[j] == k;
        lemma_active_parent_listed(keys, entries, j);
        let i = choose|i: int| 0 <= i < plan_parents(plan).len() && plan_parents(plan)[i] == p;
        assert(plan[i].parent == p);
    }
    assert(listed_parents(plan) =~= parents(keys));
}

/// What one pair and its parent hold in `cur`, when the parents in `ps`
/// were recomputed from `pre` and the others were left alone.
pub open spec fn pair_state(
    pre: Tree,
    cur: Tree,
    level: int,
    w: Map<u64, Felt>,
    ps: Set<u64>,
    p: int,
) -> bool {
    if 0 <= p <= u64::MAX && ps.contains(p as u64) {
        &&& cur.node(level + 1, p) == post_record(pre, w, level, p).hash
        &&& cur.node(level, 2 * p) == new_value(pre, w, level, 2 * p)
        &&& cur.node(level, 2 * p + 1) == new_value(pre, w, level, 2 * p + 1)
    } else {
        &&& cur.node(level + 1, p) == pre.node(level + 1, p)
        &&& cur.node(level, 2 * p) == pre.node(level, 2 * p)
        &&& cur.node(level, 2 * p + 1) == pre.node(level, 2 * p + 1)
    }
}

/// The tree `cur` is the tree `pre` with the parents in `ps`, one level
/// above `level`, recomputed, and at the leaf level their children written.
pub open spec fn pass_applied(pre: Tree, cur: Tree, level: int, w: Map<u64, Felt>, ps: Set<u64>) -> bool {
    &&& cur.well_shaped()
    &&& cur.depth == pre.depth
    &&& cur.shift == pre.shift
    &&& cur.root == pre.root
    &&& cur.zero_hashes == pre.zero_hashes
    &&& forall|l: int, k: int| l != level && l != level + 1 ==> #[trigger] cur.node(l, k) == pre.node(l, k)
    &&& forall|p: int| #[trigger] pair_state(pre, cur, level, w, ps, p)
    &&& forall|l: int| l != 0 && l != level + 1 ==> #[trigger] cur.row_len(l) == pre.row_len(l)
    &&& row_grown(pre.row_len(level + 1), cur.row_len(level + 1), ps)
    &&& if level == 0 {
        row_grown(pre.row_len(0), cur.row_len(0), written_leaves(w, ps))
    } else {
        cur.row_len(0) == pre.row_len(0)
    }
}

/// The tree `after` is the tree `before` with the parent of one update
/// written, and the leaves below it that the update asks for.
pub open spec fn pair_written(before: Tree, after: Tree, level: int, e: PairUpdate) -> bool {
    &&& after.well_shaped()
    &&& after.depth == before.depth
    &&& after.shift == before.shift
    &&& after.root == before.root
    &&& after.zero_hashes == before.zero_hashes
    &&& forall|l: int|
        #[trigger] after.row_len(l) == if l == level + 1 {
            grown(before.row_len(l), e.parent as int)
        } else if l == 0 {
            leaf_len_after(before.row_len(0), e)
        } else {
            before.row_len(l)
        }
    &&& forall|l: int, k: int|
        #[trigger] after.inner(l, k) == if l == level + 1 && k == e.parent {
            e.new_parent@
        } else {
            before.inner(l, k)
        }
    &&& forall|k: int|
        #[trigger] after.leaf(k) == if e.write_left && k == 2 * e.parent {
            e.left@
        } else if e.write_right && k == 2 * e.parent + 1 {
            e.right@
        } else {
            before.leaf(k)
        }
}

/// One more parent written is one more parent applied.
pub proof fn lemma_pair_written(
    pre: Tree,
    before: Tree,
    after: Tree,
    level: int,
    w: Map<u64, Felt>,
    ps: Set<u64>,
    e: PairUpdate,
)
    requires
        level >= 0,
        plan_entry_ok(pre, w, level, e),
        pass_applied(pre, before, level, w, ps),
        pair_written(before, after, level, e),
    ensures
        pass_applied(pre, after, level, w, ps.insert(e.parent)),
{
    let p = e.parent as int;
    assert forall|l: int, k: int| l != level && l != level + 1 implies #[trigger] after.node(l, k)
        == pre.node(l, k) by {
        assert(before.node(l, k) == pre.node(l, k));
        if l == 0 {
            assert(after.leaf(k) == before.leaf(k));
        } else {
            assert(after.inner(l, k) == before.inner(l, k));
        }
    }
    assert forall|q: int| #[trigger] pair_state(pre, after, level, w, ps.insert(e.parent), q) by {
        assert(pair_state(pre, before, level, w, ps, q));
        assert(after.inner(level + 1, q) == if q == p {
            e.new_parent@
        } else {
            before.inner(level + 1, q)
        });
        if level == 0 {
            assert(after.leaf(2 * q) == if e.write_left && q == p {
                e.left@
            } else {
                before.leaf(2 * q)
            });
            assert(after.leaf(2 * q + 1) == if e.write_right && q == p {
                e.right@
            } else {
                before.leaf(2 * q + 1)
            });
        } else {
            assert(after.inner(level, 2 * q) == before.inner(level, 2 * q));
            assert(after.inner(level, 2 * q + 1) == before.inner(level, 2 * q + 1));
        }
    }
    let ps2 = ps.insert(e.parent);
    assert forall|l: int| l != 0 && l != level + 1 implies #[trigger] after.row_len(l) == pre.row_len(
        l,
    ) by {
        assert(before.row_len(l) == pre.row_len(l));
    }
    let above = level + 1;
    assert(after.row_len(above) == grown(before.row_len(above), p));
    assert(row_grown(pre.row_len(above), before.row_len(above), ps));
    assert forall|n: int| 0 <= n implies (#[trigger] below(after.row_len(above), n) == (n
        < pre.row_len(above) || reaches(ps2, n))) by {
        assert(below(before.row_len(above), n) == (n < pre.row_len(above) || reaches(ps, n)));
        if reaches(ps, n) {
            let k = choose|k: u64| #[trigger] ps.contains(k) && n <= k;
            assert(ps2.contains(k));
        }
        if n <= p {
            assert(ps2.contains(e.parent));
        }
        if reaches(ps2, n) {
            let k = choose|k: u64| #[trigger] ps2.contains(k) && n <= k;
            if k != e.parent {
                assert(ps.contains(k));
            }
        }
    }
    assert(after.row_len(0) == leaf_len_after(before.row_len(0), e));
    if level == 0 {
        let wl = written_leaves(w, ps);
        let wl2 = written_leaves(w, ps2);
        assert forall|n: int| 0 <= n implies (#[trigger] below(after.row_len(0), n) == (n
            < pre.row_len(0) || reaches(wl2, n))) by {
            assert(below(before.row_len(0), n) == (n < pre.row_len(0) || reaches(wl, n)));
            if reaches(wl, n) {
                let k = choose|k: u64| #[trigger] wl.contains(k) && n <= k;
                assert(wl2.contains(k));
            }
            if e.write_left && n <= 2 * p {
                assert(wl2.contains((2 * p) as u64));
            }
            if e.write_right && n <= 2 * p + 1 {
                assert(wl2.contains((2 * p + 1) as u64));
            }
            if reaches(wl2, n) {
                let k = choose|k: u64| #[trigger] wl2.contains(k) && n <= k;
                if (k / 2) as u64 != e.parent {
                    assert(wl.contains(k));
                } else {
                    assert(k == 2 * p || k == 2 * p + 1);
                }
            }
        }
    } else {
        assert(!e.write_left && !e.write_right);
    }
}

/// The parents listed by one more update.
pub proof fn lemma_listed_step(plan: Seq<PairUpdate>, j: int)
    requires
        0 <= j < plan.len(),
    ensures
        listed_parents(plan.take(j + 1)) == listed_parents(plan.take(j)).insert(plan[j].parent),
{
    let a = listed_parents(plan.take(j + 1));
    let b = listed_parents(plan.take(j)).insert(plan[j].parent);
    assert forall|p: u64| a.contains(p) <==> b.contains(p) by {
        if a.contains(p) {
            let i = choose|i: int|
                0 <= i < plan.take(j + 1).len() && #[trigger] plan.take(j + 1)[i].parent == p;
            if i < j {
                assert(plan.take(j)[i].parent == p);
            }
        }
        if listed(plan.take(j), p) {
            let i = choose|i: int| 0 <= i < plan.take(j).len() && #[trigger] plan.take(j)[i].parent == p;
            assert(plan.take(j + 1)[i].parent == p);
        }
        if p == plan[j].parent {
            assert(plan.take(j + 1)[j].parent == p);
        }
    }
    assert(a =~= b);
}

/// The records of one more parent.
pub proof fn lemma_records_insert(t: Tree, w: Map<u64, Felt>, level: int, ps: Set<u64>, p: u64)
    ensures
        pass_pre_records(t, w, level, ps.insert(p)) == pass_pre_records(t, w, level, ps) + set![
            pre_record(t, w, level, p as int),
        ],
        pass_post_records(t, w, level, ps.insert(p)) == pass_post_records(t, w, level, ps) + set![
            post_record(t, w, level, p as int),
        ],
{
    let a = pass_pre_records(t, w, level, ps.insert(p));
    let b = pass_pre_records(t, w, level, ps) + set![pre_record(t, w, level, p as int)];
    assert forall|r: HashRecord| a.contains(r) <==> b.contains(r) by {
        if a.contains(r) {
            let q = choose|q: u64| #[trigger]
                ps.insert(p).contains(q) && r == pre_record(t, w, level, q as int);
            if q != p {
                assert(ps.contains(q));
            }
        }
        if pass_pre_records(t, w, level, ps).contains(r) {
            let q = choose|q: u64| #[trigger] ps.contains(q) && r == pre_record(t, w, level, q as int);
            assert(ps.insert(p).contains(q));
        }
        if r == pre_record(t, w, level, p as int) {
            assert(ps.insert(p).contains(p));
        }
    }
    assert(a =~= b);
    let c = pass_post_records(t, w, level, ps.insert(p));
    let d = pass_post_records(t, w, level, ps) + set![post_record(t, w, level, p as int)];
    assert forall|r: HashRecord| c.contains(r) <==> d.contains(r) by {
        if c.contains(r) {
            let q = choose|q: u64| #[trigger]
                ps.insert(p).contains(q) && r == post_record(t, w, level, q as int);
            if q != p {
                assert(ps.contains(q));
            }
        }
        if pass_post_records(t, w, level, ps).contains(r) {
            let q = choose|q: u64| #[trigger] ps.contains(q) && r == post_record(t, w, level, q as int);
            assert(ps.insert(p).contains(q));
        }
        if r == post_record(t, w, level, p as int) {
            assert(ps.insert(p).contains(p));
        }
    }
    assert(c =~= d);
}

/// No parent has no record.
pub proof fn lemma_records_empty(t: Tree, w: Map<u64, Felt>, level: int)
    ensures
        pass_pre_records(t, w, level, Set::empty()) == Set::<HashRecord>::empty(),
        pass_post_records(t, w, level, Set::empty()) == Set::<HashRecord>::empty(),
{
    assert(pass_pre_records(t, w, level, Set::empty()) =~= Set::<HashRecord>::empty());
    assert(pass_post_records(t, w, level, Set::empty()) =~= Set::<HashRecord>::empty());
}

/// No keys touch no node.
pub proof fn lemma_level_keys_empty(level: nat)
    ensures
        level_keys(Set::<u64>::empty(), level) == Set::<u64>::empty(),
    decreases level,
{
    if level > 0 {
        lemma_level_keys_empty((level - 1) as nat);
        assert(parents(Set::<u64>::empty()) =~= Set::<u64>::empty());
    }
}

/// A batch without updates leaves every node as it was.
pub proof fn lemma_updated_node_empty(t: Tree, u: Map<u64, Felt>, level: nat, k: int)
    requires
        u.dom() == Set::<u64>::empty(),
    ensures
        updated_node(t, u, level, k) == t.node(level as int, k),
    decreases level,
{
    lemma_level_keys_empty(level);
}

/// A batch without updates has nothing to record.
pub proof fn lemma_batch_records_empty(t: Tree, u: Map<u64, Felt>, top: int)
    requires
        u.dom() == Set::<u64>::empty(),
    ensures
        path_records(t, u.dom(), top) == Set::<HashRecord>::empty(),
        updated_path_records(t, u, top) == Set::<HashRecord>::empty(),
{
    assert forall|r: HashRecord| !path_records(t, u.dom(), top).contains(r) by {
        if path_records(t, u.dom(), top).contains(r) {
            let (l, p) = choose|l: int, p: u64| #[trigger]
                on_path(u.dom(), top, l, p) && r == node_record(t, l, p as int);
            lemma_level_keys_empty(l as nat);
        }
    }
    assert forall|r: HashRecord| !updated_path_records(t, u, top).contains(r) by {
        if updated_path_records(t, u, top).contains(r) {
            let (l, p) = choose|l: int, p: u64| #[trigger]
                on_path(u.dom(), top, l, p) && r == updated_record(t, u, l, p as int);
            lemma_level_keys_empty(l as nat);
        }
    }
    assert(path_records(t, u.dom(), top) =~= Set::<HashRecord>::empty());
    assert(updated_path_records(t, u, top) =~= Set::<HashRecord>::empty());
}

/// Keys below the capacity of their level have parents below the capacity of
/// the level above.
pub proof fn lemma_parents_in_range(keys: Set<u64>, bits: nat, limit: int)
    requires
        bits >= 1,
        forall|k: u64| keys.contains(k) ==> k < pow2(bits) && k < limit,
    ensures
        forall|p: u64| #[trigger] parents(keys).contains(p) ==> p < pow2((bits - 1) as nat) && p < limit,
{
    assert forall|p: u64| #[trigger] parents(keys).contains(p) implies p < pow2((bits - 1) as nat) && p
        < limit by {
        if keys.contains((2 * p) as u64) {
            lemma_pair_in_range(2 * p, bits);
        } else {
            lemma_pair_in_range(2 * p + 1, bits);
        }
    }
}

/// The nodes of one level that lie on the paths from the keys, each with its
/// two children in the tree.
pub open spec fn level_records(t: Tree, keys: Set<u64>, level: int) -> Set<HashRecord> {
    Set::new(
        |r: HashRecord|
            exists|p: u64| #[trigger]
                level_keys(keys, level as nat).contains(p) && r == node_record(t, level, p as int),
    )
}

/// The same nodes after the batch.
pub open spec fn updated_level_records(t: Tree, u: Map<u64, Felt>, level: int) -> Set<HashRecord> {
    Set::new(
        |r: HashRecord|
            exists|p: u64| #[trigger]
                level_keys(u.dom(), level as nat).contains(p) && r == updated_record(
                    t,
                    u,
                    level,
                    p as int,
                ),
    )
}

/// The records up to one level more are those up to the level and those of
/// the level above.
pub proof fn lemma_batch_records_step(t: Tree, u: Map<u64, Felt>, top: int)
    requires
        top >= 0,
    ensures
        path_records(t, u.dom(), top + 1) == path_records(t, u.dom(), top)
            + level_records(t, u.dom(), top + 1),
        updated_path_records(t, u, top + 1) == updated_path_records(t, u, top) + updated_level_records(
            t,
            u,
            top + 1,
        ),
{
    let keys = u.dom();
    let a = path_records(t, keys, top + 1);
    let b = path_records(t, keys, top) + level_records(t, keys, top + 1);
    assert forall|r: HashRecord| a.contains(r) <==> b.contains(r) by {
        if a.contains(r) {
            let (l, p) = choose|l: int, p: u64| #[trigger]
                on_path(keys, top + 1, l, p) && r == node_record(t, l, p as int);
            if l <= top {
                assert(on_path(keys, top, l, p));
            } else {
                assert(level_keys(keys, (top + 1) as nat).contains(p));
            }
        }
        if path_records(t, keys, top).contains(r) {
            let (l, p) = choose|l: int, p: u64| #[trigger]
                on_path(keys, top, l, p) && r == node_record(t, l, p as int);
            assert(on_path(keys, top + 1, l, p));
        }
        if level_records(t, keys, top + 1).contains(r) {
            let p = choose|p: u64| #[trigger]
                level_keys(keys, (top + 1) as nat).contains(p) && r == node_record(
                    t,
                    top + 1,
                    p as int,
                );
            assert(on_path(keys, top + 1, top + 1, p));
        }
    }
    assert(a =~= b);
    let c = updated_path_records(t, u, top + 1);
    let d = updated_path_records(t, u, top) + updated_level_records(t, u, top + 1);
    assert forall|r: HashRecord| c.contains(r) <==> d.contains(r) by {
        if c.contains(r) {
            let (l, p) = choose|l: int, p: u64| #[trigger]
                on_path(keys, top + 1, l, p) && r == updated_record(t, u, l, p as int);
            if l <= top {
                assert(on_path(keys, top, l, p));
            } else {
                assert(level_keys(keys, (top + 1) as nat).contains(p));
            }
        }
        if updated_path_records(t, u, top).contains(r) {
            let (l, p) = choose|l: int, p: u64| #[trigger]
                on_path(keys, top, l, p) && r == updated_record(t, u, l, p as int);
            assert(on_path(keys, top + 1, l, p));
        }
        if updated_level_records(t, u, top + 1).contains(r) {
            let p = choose|p: u64| #[trigger]
                level_keys(keys, (top + 1) as nat).contains(p) && r == updated_record(
                    t,
                    u,
                    top + 1,
                    p as int,
                );
            assert(on_path(keys, top + 1, top + 1, p));
        }
    }
    assert(c =~= d);
}

/// Below the first inner level there is nothing to record.
pub proof fn lemma_batch_records_none(t: Tree, u: Map<u64, Felt>)
    ensures
        path_records(t, u.dom(), 0) == Set::<HashRecord>::empty(),
        updated_path_records(t, u, 0) == Set::<HashRecord>::empty(),
{
    assert(path_records(t, u.dom(), 0) =~= Set::<HashRecord>::empty());
    assert(updated_path_records(t, u, 0) =~= Set::<HashRecord>::empty());
}

/// What the tree `cur` holds in the middle of the batch `u` on the tree
/// `pre`, when the levels up to `level` are done: those hold their new
/// hashes, the levels above hold what they held.
pub open spec fn levels_done(pre: Tree, cur: Tree, u: Map<u64, Felt>, level: int) -> bool {
    &&& forall|l: int, k: int|
        0 <= l <= level ==> #[trigger] cur.node(l, k) == updated_node(pre, u, l as nat, k)
    &&& forall|l: int, k: int| l > level ==> #[trigger] cur.node(l, k) == pre.node(l, k)
    &&& forall|l: int|
        0 <= l <= level ==> row_grown(
            pre.row_len(l),
            #[trigger] cur.row_len(l),
            level_keys(u.dom(), l as nat),
        )
    &&& forall|l: int| l > level ==> #[trigger] cur.row_len(l) == pre.row_len(l)
}

/// The map `w` holds, for each touched node of `level`, what the node held
/// before the batch.
pub open spec fn row_of(pre: Tree, u: Map<u64, Felt>, w: Map<u64, Felt>, level: int) -> bool {
    &&& w.dom() == level_keys(u.dom(), level as nat)
    &&& forall|k: u64| #[trigger] w.contains_key(k) ==> w[k]@ == pre.node(level, k as int)
}

/// One pass over a level brings the batch one level up. The tree `before`
/// has the levels below `level` done, and `level` too unless it is the leaf
/// level; the pass recomputes the parents of the touched nodes of `level`.
pub proof fn lemma_level_done(
    pre: Tree,
    before: Tree,
    after: Tree,
    u: Map<u64, Felt>,
    w: Map<u64, Felt>,
    level: int,
)
    requires
        level >= 0,
        if level == 0 {
            before == pre && w == u
        } else {
            levels_done(pre, before, u, level) && row_of(pre, u, w, level)
        },
        pass_applied(before, after, level, w, parents(w.dom())),
    ensures
        levels_done(pre, after, u, level + 1),
        pass_pre_records(before, w, level, parents(w.dom())) == level_records(
            pre,
            u.dom(),
            level + 1,
        ),
        pass_post_records(before, w, level, parents(w.dom())) == updated_level_records(pre, u, level + 1),
{
    let keys = u.dom();
    let ps = parents(w.dom());
    assert(w.dom() == level_keys(keys, level as nat));
    assert(ps == level_keys(keys, (level + 1) as nat));
    // What the pass reads is what the batch says of the level.
    assert forall|k: int| new_value(before, w, level, k) == updated_node(pre, u, level as nat, k) by {
        if level > 0 {
            assert(before.node(level, k) == updated_node(pre, u, level as nat, k));
        }
    }
    assert forall|k: int| old_value(before, w, level, k) == pre.node(level, k) by {
        if level > 0 {
            if holds(w, k) {
                assert(w.contains_key(k as u64));
            } else {
                assert(before.node(level, k) == updated_node(pre, u, level as nat, k));
            }
        }
    }
    let above = level + 1;
    assert forall|p: int| #[trigger] before.node(above, p) == pre.node(above, p) by {
        if level > 0 {
            assert(before.node(above, p) == pre.node(above, p));
        }
    }
    assert forall|l: int, k: int| 0 <= l <= level + 1 implies #[trigger] after.node(l, k)
        == updated_node(pre, u, l as nat, k) by {
        if l == level + 1 {
            assert(pair_state(before, after, level, w, ps, k));
            assert(new_value(before, w, level, 2 * k) == updated_node(pre, u, level as nat, 2 * k));
            assert(new_value(before, w, level, 2 * k + 1) == updated_node(
                pre,
                u,
                level as nat,
                2 * k + 1,
            ));
        } else if l == level {
            let p = k / 2;
            assert(k == 2 * p || k == 2 * p + 1);
            assert(pair_state(before, after, level, w, ps, p));
            assert(new_value(before, w, level, k) == updated_node(pre, u, level as nat, k));
            if !(0 <= p <= u64::MAX && ps.contains(p as u64)) {
                if holds(w, k) {
                    assert(pair_touched(w.dom(), p));
                    assert(ps.contains(p as u64));
                }
            }
        } else {
            assert(after.node(l, k) == before.node(l, k));
            assert(before.node(l, k) == updated_node(pre, u, l as nat, k));
        }
    }
    assert forall|l: int, k: int| l > level + 1 implies #[trigger] after.node(l, k) == pre.node(
        l,
        k,
    ) by {
        assert(after.node(l, k) == before.node(l, k));
        if level > 0 {
            assert(before.node(l, k) == pre.node(l, k));
        }
    }
    // The rows grew up to the touched nodes.
    assert forall|l: int| l > level + 1 implies #[trigger] after.row_len(l) == pre.row_len(l) by {
        assert(after.row_len(l) == before.row_len(l));
        if level > 0 {
            assert(before.row_len(l) == pre.row_len(l));
        }
    }
    assert forall|l: int| 0 <= l <= level + 1 implies row_grown(
        pre.row_len(l),
        #[trigger] after.row_len(l),
        level_keys(keys, l as nat),
    ) by {
        if l == level + 1 {
            if level > 0 {
                assert(before.row_len(l) == pre.row_len(l));
            }
        } else if l == 0 {
            if level == 0 {
                assert(written_leaves(w, ps) =~= keys) by {
                    assert forall|k: u64| keys.contains(k) implies ps.contains((k / 2) as u64) by {
                        assert(pair_touched(keys, (k / 2) as int));
                    }
                }
            } else {
                assert(row_grown(pre.row_len(0), before.row_len(0), level_keys(keys, 0)));
            }
        } else {
            assert(after.row_len(l) == before.row_len(l));
            assert(row_grown(pre.row_len(l), before.row_len(l), level_keys(keys, l as nat)));
        }
    }
    // The records of the pass are the records of the level above.
    assert forall|p: u64| pre_record(before, w, level, p as int) == node_record(
        pre,
        level + 1,
        p as int,
    ) by {
        assert(old_value(before, w, level, 2 * p) == pre.node(level, 2 * p));
        assert(old_value(before, w, level, 2 * p + 1) == pre.node(level, 2 * p + 1));
        assert(before.node(level + 1, p as int) == pre.node(level + 1, p as int));
    }
    assert forall|p: u64| ps.contains(p) implies post_record(before, w, level, p as int)
        == updated_record(pre, u, level + 1, p as int) by {
        assert(new_value(before, w, level, 2 * p) == updated_node(pre, u, level as nat, 2 * p));
        assert(new_value(before, w, level, 2 * p + 1) == updated_node(
            pre,
            u,
            level as nat,
            2 * p + 1,
        ));
        assert(touched(keys, (level + 1) as nat, p as int));
    }
    let a = pass_pre_records(before, w, level, ps);
    let b = level_records(pre, keys, level + 1);
    assert forall|r: HashRecord| a.contains(r) <==> b.contains(r) by {
        if a.contains(r) {
            let p = choose|p: u64| #[trigger] ps.contains(p) && r == pre_record(before, w, level, p as int);
            assert(level_keys(keys, (level + 1) as nat).contains(p));
        }
        if b.contains(r) {
            let p = choose|p: u64| #[trigger]
                level_keys(keys, (level + 1) as nat).contains(p) && r == node_record(
                    pre,
                    level + 1,
                    p as int,
                );
            assert(ps.contains(p));
        }
    }
    assert(a =~= b);
    let c = pass_post_records(before, w, level, ps);
    let d = updated_level_records(pre, u, level + 1);
    assert forall|r: HashRecord| c.contains(r) <==> d.contains(r) by {
        if c.contains(r) {
            let p = choose|p: u64| #[trigger] ps.contains(p) && r == post_record(before, w, level, p as int);
            assert(level_keys(keys, (level + 1) as nat).contains(p));
        }
        if d.contains(r) {
            let p = choose|p: u64| #[trigger]
                level_keys(keys, (level + 1) as nat).contains(p) && r == updated_record(
                    pre,
                    u,
                    level + 1,
                    p as int,
                );
            assert(ps.contains(p));
        }
    }
    assert(c =~= d);
}

} // verus!
