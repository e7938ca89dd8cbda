//! The preimage map: for a hash, the two children that it was made from.
//!
//! The map is a `serde_json::Map` from the decimal form of a hash to a JSON
//! array of the decimal forms of its two children.

use crate::field::{decimal_digits, Felt};
use vstd::prelude::*;

verus! {

/// Declares `serde_json::Map`, the map that holds the preimages. Nothing is
/// seen of a value of it but what `preimage_entries` names.
#[verifier::external_type_specification]
#[verifier::external_body]
#[verifier::reject_recursive_types(K)]
#[verifier::reject_recursive_types(V)]
pub struct ExJsonMap<K, V>(serde_json::Map<K, V>);

/// Declares `serde_json::Value`, the type of the values of the map. Nothing
/// is seen of a value of it.
#[verifier::external_type_specification]
#[verifier::external_body]
pub struct ExJsonValue(serde_json::Value);

/// What a preimage map holds: for each key the pair of strings in the array
/// stored under it. Of an entry that is no array of two strings only the key
/// is told.
pub uninterp spec fn preimage_entries(m: serde_json::Map<String, serde_json::Value>) -> Map<
    Seq<char>,
    (Seq<char>, Seq<char>),
>;

/// Calls `serde_json::Map::contains_key`, which says whether the map holds a
/// value under the key.
#[verifier::external_body]
fn contains_key(m: &serde_json::Map<String, serde_json::Value>, key: &String) -> (r: bool)
    ensures
        r == preimage_entries(*m).contains_key(key@),
{
    m.contains_key(key)
}

/// Calls `serde_json::Map::insert` with the array of the two strings as the
/// value. The map then holds that array under the key, in place of what it
/// held there before, and every other entry as before.
#[verifier::external_body]
fn insert_pair(
    m: &mut serde_json::Map<String, serde_json::Value>,
    key: String,
    left: String,
    right: String,
)
    ensures
        preimage_entries(*final(m)) == preimage_entries(*old(m)).insert(key@, (left@, right@)),
{
    let pair = vec![serde_json::Value::String(left), serde_json::Value::String(right)];
    m.insert(key, serde_json::Value::Array(pair));
}

/// The decimal forms of two children.
pub open spec fn dec_pair(left: nat, right: nat) -> (Seq<char>, Seq<char>) {
    (decimal_digits(left), decimal_digits(right))
}

/// The entries after one parent was recomputed: the children of its former
/// hash are added unless that hash was a key already, then the children of its
/// new hash are written under the new hash.
pub open spec fn record_spec(
    p: Map<Seq<char>, (Seq<char>, Seq<char>)>,
    prev_parent: nat,
    prev_left: nat,
    prev_right: nat,
    new_parent: nat,
    left: nat,
    right: nat,
) -> Map<Seq<char>, (Seq<char>, Seq<char>)> {
    let m1 = if p.contains_key(decimal_digits(prev_parent)) {
        p
    } else {
        p.insert(decimal_digits(prev_parent), dec_pair(prev_left, prev_right))
    };
    m1.insert(decimal_digits(new_parent), dec_pair(left, right))
}

/// Records one recomputed parent: its former hash with its former children,
/// first write wins, and its new hash with its new children.
pub fn record_preimage(
    preimage: &mut serde_json::Map<String, serde_json::Value>,
    prev_parent: &Felt,
    prev_left: &Felt,
    prev_right: &Felt,
    new_parent: &Felt,
    left: &Felt,
    right: &Felt,
)
    ensures
        preimage_entries(*final(preimage)) == record_spec(
            preimage_entries(*old(preimage)),
            prev_parent@,
            prev_left@,
            prev_right@,
            new_parent@,
            left@,
            right@,
        ),
{
    let prev_key = prev_parent.to_string();
    if !contains_key(preimage, &prev_key) {
        insert_pair(preimage, prev_key, prev_left.to_string(), prev_right.to_string());
    }
    insert_pair(preimage, new_parent.to_string(), left.to_string(), right.to_string());
}

/// A hash with the two children it was made from.
pub struct HashRecord {
    pub hash: nat,
    pub left: nat,
    pub right: nat,
}

/// Whether one of the records has the key as the decimal form of its hash.
pub open spec fn has_key(recs: Set<HashRecord>, key: Seq<char>) -> bool {
    exists|r: HashRecord| #[trigger] recs.contains(r) && decimal_digits(r.hash) == key
}

/// Whether the entry under the key is that of one of the records.
pub open spec fn entry_of(recs: Set<HashRecord>, key: Seq<char>, entry: (Seq<char>, Seq<char>)) -> bool {
    exists|r: HashRecord| #[trigger]
        recs.contains(r) && decimal_digits(r.hash) == key && entry == dec_pair(r.left, r.right)
}

/// What the map `p` holds under one key, when it came from `m0` by
/// recording the former states `pre` and the new states `post` in some order.
pub open spec fn witnessed_at(
    m0: Map<Seq<char>, (Seq<char>, Seq<char>)>,
    p: Map<Seq<char>, (Seq<char>, Seq<char>)>,
    pre: Set<HashRecord>,
    post: Set<HashRecord>,
    key: Seq<char>,
) -> bool {
    &&& p.contains_key(key) <==> m0.contains_key(key) || has_key(pre, key) || has_key(post, key)
    &&& p.contains_key(key) ==> if has_key(post, key) {
        entry_of(post, key, p[key])
    } else if m0.contains_key(key) {
        p[key] == m0[key]
    } else {
        entry_of(pre, key, p[key])
    }
}

/// The map `p` came from `m0` by recording the former states `pre` and the new
/// states `post`, whatever the order. Its keys are those of `m0` and the hashes
/// of the records. Under the hash of a new state stands a new state with that
/// hash; under another key of `m0` what `m0` held; under any other key a
/// former state with that hash.
pub open spec fn witnessed(
    m0: Map<Seq<char>, (Seq<char>, Seq<char>)>,
    p: Map<Seq<char>, (Seq<char>, Seq<char>)>,
    pre: Set<HashRecord>,
    post: Set<HashRecord>,
) -> bool {
    forall|key: Seq<char>| #[trigger] witnessed_at(m0, p, pre, post, key)
}

/// Nothing recorded leaves the map as it was.
pub proof fn lemma_witnessed_none(p: Map<Seq<char>, (Seq<char>, Seq<char>)>)
    ensures
        witnessed(p, p, Set::empty(), Set::empty()),
{
    assert forall|key: Seq<char>| #[trigger]
        witnessed_at(p, p, Set::<HashRecord>::empty(), Set::<HashRecord>::empty(), key) by {}
}

/// One recomputed parent, recorded.
pub proof fn lemma_witnessed_one(
    p: Map<Seq<char>, (Seq<char>, Seq<char>)>,
    pre: HashRecord,
    post: HashRecord,
)
    ensures
        witnessed(
            p,
            record_spec(p, pre.hash, pre.left, pre.right, post.hash, post.left, post.right),
            set![pre],
            set![post],
        ),
{
    let q = record_spec(p, pre.hash, pre.left, pre.right, post.hash, post.left, post.right);
    assert forall|key: Seq<char>| #[trigger] witnessed_at(p, q, set![pre], set![post], key) by {
        assert(set![pre].contains(pre));
        assert(set![post].contains(post));
    }
}

/// Recording in two rounds is recording the records of both.
pub proof fn lemma_witnessed_then(
    m0: Map<Seq<char>, (Seq<char>, Seq<char>)>,
    m1: Map<Seq<char>, (Seq<char>, Seq<char>)>,
    m2: Map<Seq<char>, (Seq<char>, Seq<char>)>,
    pre1: Set<HashRecord>,
    post1: Set<HashRecord>,
    pre2: Set<HashRecord>,
    post2: Set<HashRecord>,
)
    requires
        witnessed(m0, m1, pre1, post1),
        witnessed(m1, m2, pre2, post2),
    ensures
        witnessed(m0, m2, pre1 + pre2, post1 + post2),
{
    assert forall|key: Seq<char>| #[trigger]
        witnessed_at(m0, m2, pre1 + pre2, post1 + post2, key) by {
        assert(witnessed_at(m0, m1, pre1, post1, key));
        assert(witnessed_at(m1, m2, pre2, post2, key));
        lemma_has_key_union(pre1, pre2, key);
        lemma_has_key_union(post1, post2, key);
        if m2.contains_key(key) {
            lemma_entry_of_union(pre1, pre2, key, m2[key]);
            lemma_entry_of_union(post1, post2, key, m2[key]);
        }
    }
}

proof fn lemma_has_key_union(a: Set<HashRecord>, b: Set<HashRecord>, key: Seq<char>)
    ensures
        has_key(a + b, key) <==> has_key(a, key) || has_key(b, key),
{
    if has_key(a + b, key) {
        let r = choose|r: HashRecord| #[trigger]
            (a + b).contains(r) && decimal_digits(r.hash) == key;
        assert(a.contains(r) || b.contains(r));
    }
    if has_key(a, key) {
        let r = choose|r: HashRecord| #[trigger] a.contains(r) && decimal_digits(r.hash) == key;
        assert((a + b).contains(r));
    }
    if has_key(b, key) {
        let r = choose|r: HashRecord| #[trigger] b.contains(r) && decimal_digits(r.hash) == key;
        assert((a + b).contains(r));
    }
}

proof fn lemma_entry_of_union(
    a: Set<HashRecord>,
    b: Set<HashRecord>,
    key: Seq<char>,
    entry: (Seq<char>, Seq<char>),
)
    ensures
        entry_of(a + b, key, entry) <==> entry_of(a, key, entry) || entry_of(b, key, entry),
{
    if entry_of(a + b, key, entry) {
        let r = choose|r: HashRecord| #[trigger]
            (a + b).contains(r) && decimal_digits(r.hash) == key && entry == dec_pair(
                r.left,
                r.right,
            );
        assert(a.contains(r) || b.contains(r));
    }
    if entry_of(a, key, entry) {
        let r = choose|r: HashRecord| #[trigger]
            a.contains(r) && decimal_digits(r.hash) == key && entry == dec_pair(r.left, r.right);
        assert((a + b).contains(r));
    }
    if entry_of(b, key, entry) {
        let r = choose|r: HashRecord| #[trigger]
            b.contains(r) && decimal_digits(r.hash) == key && entry == dec_pair(r.left, r.right);
        assert((a + b).contains(r));
    }
}

} // verus!
