use invisible_backend::field::Felt;
use invisible_backend::preimage::record_preimage;
use invisible_backend::utils::parallelization::{
    build_first_row, build_next_row, build_tree, collect_keys, hash_tree_level,
    inner_from_leaf_nodes, pairwise_hash, split_and_run_first_row, split_and_run_next_row,
};
use invisible_backend::utils::pedersen;
use invisible_backend::utils::tree_utils::{
    get_zero_hash, idx_to_binary_pos, index_in_range, proof_pos, ZeroHashes,
};
use invisible_backend::{Tree, TreeError};
use std::collections::HashMap;

fn felt(x: u64) -> Felt {
    Felt::from_u64(x)
}

fn hex_digit(c: u8) -> u8 {
    match c {
        b'0'..=b'9' => c - b'0',
        b'a'..=b'f' => c - b'a' + 10,
        _ => panic!("not a hex digit"),
    }
}

fn felt_from_hex(hex: &str) -> Felt {
    let digits = hex.as_bytes();
    assert_eq!(digits.len(), 64);
    let mut bytes = [0u8; 32];
    for i in 0..32 {
        bytes[i] = hex_digit(digits[2 * i]) * 16 + hex_digit(digits[2 * i + 1]);
    }
    Felt::from_bytes_be(&bytes).unwrap()
}

fn zero(level: u32) -> Felt {
    get_zero_hash(level, 0)
}

fn batch(pairs: &[(u64, u64)]) -> HashMap<u64, Felt> {
    let mut updates = HashMap::new();
    for (idx, value) in pairs {
        updates.insert(*idx, felt(*value));
    }
    updates
}

fn entry(preimage: &serde_json::Map<String, serde_json::Value>, key: &Felt) -> (String, String) {
    let value = preimage.get(&key.to_string()).unwrap();
    let pair = value.as_array().unwrap();
    assert_eq!(pair.len(), 2);
    (pair[0].as_str().unwrap().to_string(), pair[1].as_str().unwrap().to_string())
}

fn strings(left: &Felt, right: &Felt) -> (String, String) {
    (left.to_string(), right.to_string())
}

fn fold(leaf: Felt, siblings: &[Felt], directions: &[i8]) -> Felt {
    let mut acc = leaf;
    for i in 0..siblings.len() {
        acc = if directions[i] == 0 {
            pedersen(&acc, &siblings[i])
        } else {
            pedersen(&siblings[i], &acc)
        };
    }
    acc
}

#[test]
fn test1() -> Result<(), Box<dyn std::error::Error>> {
    let mut tree = Tree::new(32, 0);
    let mut updated_hashes = HashMap::new();
    for i in (0..100u64).step_by(4) {
        updated_hashes.insert(i, Felt::from_u64(i));
    }
    let mut preimage = serde_json::Map::new();
    tree.batch_transition_updates(&updated_hashes, &mut preimage).unwrap();
    assert!(tree.verify_root());
    Ok(())
}

#[test]
fn pedersen_matches_known_vectors() {
    let a = felt_from_hex("03d937c035c878245caf64531a5756109c53068da139362728feb561405371cb");
    let b = felt_from_hex("0208a0a10250e382e1e4bbe2880906c2791bf6275695e02fbbc6aeff9cd8b31a");
    let h = felt_from_hex("030e480bed5fe53fa909cc0f8c4d99b8f9f2c016be4c41e13a4848797979c662");
    assert_eq!(pedersen(&a, &b), h);
    let c = felt_from_hex("058f580910a6ca59b28927c08fe6c43e2e303ca384badc365795fc645d479d45");
    let d = felt_from_hex("078734f65a067be9bdb39de18434d71e79f7b6466a4b66bbd979ab9e7515fe0b");
    let g = felt_from_hex("068cc0b76cddd1dd4ed2301ada9b7c872b23875d5ff837b3a87993e0d9996b87");
    assert_eq!(pedersen(&c, &d), g);
    assert_ne!(pedersen(&a, &b), a);
    assert_ne!(pedersen(&a, &b), pedersen(&b, &a));
}

#[test]
fn felt_from_u64_has_big_endian_bytes() {
    let f = Felt::from_u64(0x0102030405060708);
    let bytes = f.to_bytes_be();
    for i in 0..24 {
        assert_eq!(bytes[i], 0);
    }
    assert_eq!(&bytes[24..], &[1, 2, 3, 4, 5, 6, 7, 8]);
    assert_eq!(Felt::from_u64(0), Felt::zero());
    assert_eq!(Felt::zero().to_bytes_be(), [0u8; 32]);
    assert_eq!(Felt::from_u64(u64::MAX).to_string(), "18446744073709551615");
}

#[test]
fn felt_to_string_is_canonical_decimal() {
    assert_eq!(Felt::zero().to_string(), "0");
    assert_eq!(felt(7).to_string(), "7");
    assert_eq!(felt(10).to_string(), "10");
    assert_eq!(felt(12345).to_string(), "12345");
    let mut bytes = [0u8; 32];
    bytes[23] = 1;
    assert_eq!(Felt::from_bytes_be(&bytes).unwrap().to_string(), "18446744073709551616");
}

#[test]
fn felt_from_bytes_rejects_the_modulus_and_above() {
    let mut modulus = [0u8; 32];
    modulus[0] = 0x08;
    modulus[7] = 0x11;
    modulus[31] = 0x01;
    assert!(Felt::from_bytes_be(&modulus).is_none());
    let mut largest = modulus;
    largest[31] = 0x00;
    let max = Felt::from_bytes_be(&largest).unwrap();
    assert_eq!(
        max.to_string(),
        "3618502788666131213697322783095070105623107215331596699973092056135872020480"
    );
    assert_eq!(max.to_bytes_be(), largest);
    let mut above = modulus;
    above[31] = 0x02;
    assert!(Felt::from_bytes_be(&above).is_none());
    assert!(Felt::from_bytes_be(&[0xff; 32]).is_none());
    let mut high = [0u8; 32];
    high[0] = 0x09;
    assert!(Felt::from_bytes_be(&high).is_none());
    let mut below_in_high_byte = [0xffu8; 32];
    below_in_high_byte[0] = 0x07;
    assert!(Felt::from_bytes_be(&below_in_high_byte).is_some());
}

#[test]
fn felt_equality_compares_values() {
    assert_eq!(felt(5), felt(5));
    assert_ne!(felt(5), felt(6));
    assert_ne!(felt(1), felt(256));
}

#[test]
fn zero_hashes_follow_the_recurrence() {
    assert_eq!(get_zero_hash(0, 0), Felt::zero());
    let z1 = pedersen(&Felt::zero(), &Felt::zero());
    assert_eq!(get_zero_hash(1, 0), z1);
    assert_eq!(get_zero_hash(2, 0), pedersen(&z1, &z1));
    assert_eq!(get_zero_hash(3, 5), get_zero_hash(3, 0));
    assert_eq!(
        get_zero_hash(1, 0),
        felt_from_hex("049ee3eba8c1600700ee1b87eb599f16716b0b1022947733551fde4050ca6804")
    );
}

#[test]
fn index_in_range_compares_with_a_power_of_two() {
    assert!(index_in_range(0, 0));
    assert!(!index_in_range(1, 0));
    assert!(index_in_range(15, 4));
    assert!(!index_in_range(16, 4));
    assert!(index_in_range(u64::MAX, 64));
    assert!(index_in_range((1 << 63) - 1, 63));
    assert!(!index_in_range(1 << 63, 63));
}

#[test]
fn binary_pos_and_proof_pos() {
    assert_eq!(idx_to_binary_pos(5, 4), vec![1, 0, 1, 0]);
    assert_eq!(proof_pos(5, 4), vec![4, 3, 0, 1]);
    assert_eq!(idx_to_binary_pos(0, 4), vec![0, 0, 0, 0]);
    assert_eq!(proof_pos(0, 4), vec![1, 1, 1, 1]);
    assert_eq!(idx_to_binary_pos(15, 4), vec![1, 1, 1, 1]);
    assert_eq!(proof_pos(15, 4), vec![14, 6, 2, 0]);
}

#[test]
fn new_tree_holds_zero_hashes() {
    let tree = Tree::new(4, 0);
    assert!(tree.is_well_shaped());
    assert_eq!(tree.depth, 4);
    assert_eq!(tree.shift, 0);
    assert!(tree.leaf_nodes.is_empty());
    assert_eq!(tree.inner_nodes.len(), 4);
    assert_eq!(tree.root, zero(4));
    for n in 0..16 {
        assert_eq!(tree.nth_leaf_node(n), Ok(zero(0)));
    }
    for i in 1..=4u32 {
        for j in 0..(1u64 << (4 - i)) {
            assert_eq!(tree.ith_inner_node(i, j), Ok(zero(i)));
        }
    }
    assert!(tree.verify_root());
}

#[test]
fn accessors_reject_out_of_range() {
    let mut tree = Tree::new(4, 0);
    assert_eq!(tree.nth_leaf_node(15), Ok(zero(0)));
    assert_eq!(tree.nth_leaf_node(16), Err(TreeError::OutOfRange));
    assert_eq!(tree.ith_inner_node(0, 0), Err(TreeError::OutOfRange));
    assert_eq!(tree.ith_inner_node(5, 0), Err(TreeError::OutOfRange));
    assert_eq!(tree.ith_inner_node(1, 8), Err(TreeError::OutOfRange));
    assert_eq!(tree.ith_inner_node(4, 1), Err(TreeError::OutOfRange));
    assert_eq!(tree.ith_inner_node(4, 0), Ok(zero(4)));
    assert_eq!(tree.update_leaf_node(&felt(1), 16), Err(TreeError::OutOfRange));
    assert_eq!(tree.update_inner_node(1, 8, felt(1)), Err(TreeError::OutOfRange));
    assert_eq!(tree.update_inner_node(0, 0, felt(1)), Err(TreeError::OutOfRange));
    assert!(tree.leaf_nodes.is_empty());
    assert!(tree.inner_nodes.iter().all(|row| row.is_empty()));
}

#[test]
fn set_leaf_and_inner_fill_gaps_with_zero_hashes() {
    let mut tree = Tree::new(4, 0);
    assert_eq!(tree.update_leaf_node(&felt(9), 3), Ok(()));
    assert_eq!(tree.leaf_nodes, vec![zero(0), zero(0), zero(0), felt(9)]);
    assert_eq!(tree.nth_leaf_node(3), Ok(felt(9)));
    assert_eq!(tree.nth_leaf_node(2), Ok(zero(0)));
    assert_eq!(tree.nth_leaf_node(4), Ok(zero(0)));
    assert_eq!(tree.update_leaf_node(&felt(8), 1), Ok(()));
    assert_eq!(tree.leaf_nodes, vec![zero(0), felt(8), zero(0), felt(9)]);
    assert_eq!(tree.update_inner_node(2, 2, felt(5)), Ok(()));
    assert_eq!(tree.inner_nodes[1], vec![zero(2), zero(2), felt(5)]);
    assert_eq!(tree.ith_inner_node(2, 2), Ok(felt(5)));
    assert_eq!(tree.ith_inner_node(2, 1), Ok(zero(2)));
    assert_eq!(tree.ith_inner_node(2, 3), Ok(zero(2)));
    assert_eq!(tree.ith_inner_node(1, 0), Ok(zero(1)));
    assert_eq!(tree.update_inner_node(2, 0, felt(6)), Ok(()));
    assert_eq!(tree.inner_nodes[1], vec![felt(6), zero(2), felt(5)]);
}

#[test]
fn empty_batch_on_a_new_tree() {
    let mut tree = Tree::new(4, 0);
    let mut preimage = serde_json::Map::new();
    assert_eq!(tree.batch_transition_updates(&HashMap::new(), &mut preimage), Ok(()));
    assert_eq!(tree.root, zero(4));
    assert!(preimage.is_empty());
    assert!(tree.leaf_nodes.is_empty());
    assert!(tree.inner_nodes.iter().all(|row| row.is_empty()));
}

#[test]
fn empty_batch_changes_nothing_after_updates() {
    let mut tree = Tree::new(4, 0);
    let mut preimage = serde_json::Map::new();
    tree.batch_transition_updates(&batch(&[(2, 5), (9, 6)]), &mut preimage).unwrap();
    let root = tree.root;
    let leaves = tree.leaf_nodes.clone();
    let inners = tree.inner_nodes.clone();
    let before = preimage.clone();
    assert_eq!(tree.batch_transition_updates(&HashMap::new(), &mut preimage), Ok(()));
    assert_eq!(tree.root, root);
    assert_eq!(tree.leaf_nodes, leaves);
    assert_eq!(tree.inner_nodes, inners);
    assert_eq!(preimage, before);
}

#[test]
fn single_leaf_update() {
    let mut tree = Tree::new(4, 0);
    let mut preimage = serde_json::Map::new();
    assert_eq!(tree.batch_transition_updates(&batch(&[(0, 7)]), &mut preimage), Ok(()));
    assert_eq!(tree.nth_leaf_node(0), Ok(felt(7)));
    assert_eq!(tree.nth_leaf_node(1), Ok(zero(0)));
    let h1 = pedersen(&felt(7), &zero(0));
    let h2 = pedersen(&h1, &zero(1));
    let h3 = pedersen(&h2, &zero(2));
    let h4 = pedersen(&h3, &zero(3));
    assert_eq!(tree.ith_inner_node(1, 0), Ok(h1));
    assert_eq!(tree.ith_inner_node(2, 0), Ok(h2));
    assert_eq!(tree.ith_inner_node(3, 0), Ok(h3));
    assert_eq!(tree.ith_inner_node(4, 0), Ok(h4));
    assert_eq!(tree.root, h4);
    // New states.
    assert_eq!(entry(&preimage, &h1), strings(&felt(7), &zero(0)));
    assert_eq!(entry(&preimage, &h2), strings(&h1, &zero(1)));
    assert_eq!(entry(&preimage, &h3), strings(&h2, &zero(2)));
    assert_eq!(entry(&preimage, &h4), strings(&h3, &zero(3)));
    // Former states.
    assert_eq!(entry(&preimage, &zero(1)), strings(&zero(0), &zero(0)));
    assert_eq!(entry(&preimage, &zero(2)), strings(&zero(1), &zero(1)));
    assert_eq!(entry(&preimage, &zero(3)), strings(&zero(2), &zero(2)));
    assert_eq!(entry(&preimage, &zero(4)), strings(&zero(3), &zero(3)));
    assert_eq!(preimage.len(), 8);
    assert_eq!(entry(&preimage, &h1), ("7".to_string(), "0".to_string()));
    assert!(tree.verify_root());
}

#[test]
fn both_children_in_one_batch() {
    let mut tree = Tree::new(4, 0);
    let mut preimage = serde_json::Map::new();
    let updates = batch(&[(0, 7), (1, 11)]);
    let next_row = split_and_run_first_row(&mut tree, &mut preimage, &updates);
    let h1 = pedersen(&felt(7), &felt(11));
    assert_eq!(tree.ith_inner_node(1, 0), Ok(h1));
    assert_eq!(next_row.len(), 1);
    assert_eq!(next_row.get(&0), Some(&zero(1)));
    assert_eq!(tree.inner_nodes[0], vec![h1]);
    assert_eq!(tree.leaf_nodes, vec![felt(7), felt(11)]);
    assert_eq!(entry(&preimage, &h1), strings(&felt(7), &felt(11)));
    assert_eq!(entry(&preimage, &zero(1)), strings(&zero(0), &zero(0)));
    assert_eq!(preimage.len(), 2);

    let mut whole = Tree::new(4, 0);
    let mut whole_preimage = serde_json::Map::new();
    assert_eq!(whole.batch_transition_updates(&updates, &mut whole_preimage), Ok(()));
    assert_eq!(whole.ith_inner_node(1, 0), Ok(h1));
    let h4 = pedersen(&pedersen(&pedersen(&h1, &zero(1)), &zero(2)), &zero(3));
    assert_eq!(whole.root, h4);
    assert!(whole.verify_root());
}

#[test]
fn first_row_plan_has_one_update_per_pair() {
    let tree = Tree::new(4, 0);
    let updates = batch(&[(0, 7), (1, 11), (4, 3), (7, 2)]);
    let keys = collect_keys(&updates);
    let mut sorted = keys.clone();
    sorted.sort();
    assert_eq!(sorted, vec![0, 1, 4, 7]);
    let plan = build_first_row(&tree, &keys, &updates);
    let mut parents: Vec<u64> = plan.iter().map(|update| update.parent).collect();
    parents.sort();
    assert_eq!(parents, vec![0, 2, 3]);
    for update in plan.iter() {
        assert_eq!(update.prev_parent, zero(1));
        assert_eq!(update.prev_left, zero(0));
        assert_eq!(update.prev_right, zero(0));
        assert_eq!(update.new_parent, pedersen(&update.left, &update.right));
        match update.parent {
            0 => {
                assert_eq!((update.left, update.right), (felt(7), felt(11)));
                assert!(update.write_left && update.write_right);
            }
            2 => {
                assert_eq!((update.left, update.right), (felt(3), zero(0)));
                assert!(update.write_left && !update.write_right);
            }
            3 => {
                assert_eq!((update.left, update.right), (zero(0), felt(2)));
                assert!(!update.write_left && update.write_right);
            }
            _ => panic!("no such parent"),
        }
    }
    // A left child alone in the entries, with its right neighbour among the
    // updates, is passed over.
    assert!(build_first_row(&tree, &vec![0], &updates).is_empty());
    assert_eq!(build_first_row(&tree, &vec![1], &updates).len(), 1);
}

#[test]
fn next_row_uses_former_values_of_touched_nodes() {
    let mut tree = Tree::new(4, 0);
    let mut preimage = serde_json::Map::new();
    let updates = batch(&[(0, 7), (2, 9), (5, 4)]);
    let row1 = split_and_run_first_row(&mut tree, &mut preimage, &updates);
    let mut keys1: Vec<u64> = row1.keys().copied().collect();
    keys1.sort();
    assert_eq!(keys1, vec![0, 1, 2]);
    let a = pedersen(&felt(7), &zero(0));
    let b = pedersen(&felt(9), &zero(0));
    let c = pedersen(&zero(0), &felt(4));
    assert_eq!(tree.inner_nodes[0], vec![a, b, c]);

    let plan = build_next_row(&tree, &collect_keys(&row1), &row1, 1);
    assert_eq!(plan.len(), 2);
    for update in plan.iter() {
        assert_eq!(update.prev_parent, zero(2));
        assert_eq!(update.prev_left, zero(1));
        assert_eq!(update.prev_right, zero(1));
        assert!(!update.write_left && !update.write_right);
        match update.parent {
            0 => assert_eq!((update.left, update.right), (a, b)),
            1 => assert_eq!((update.left, update.right), (c, zero(1))),
            _ => panic!("no such parent"),
        }
    }

    let row2 = split_and_run_next_row(&mut tree, &mut preimage, &row1, 1);
    let mut keys2: Vec<u64> = row2.keys().copied().collect();
    keys2.sort();
    assert_eq!(keys2, vec![0, 1]);
    assert_eq!(row2.get(&0), Some(&zero(2)));
    assert_eq!(row2.get(&1), Some(&zero(2)));
    let ab = pedersen(&a, &b);
    let c0 = pedersen(&c, &zero(1));
    assert_eq!(tree.inner_nodes[1], vec![ab, c0]);
    assert_eq!(entry(&preimage, &ab), strings(&a, &b));
    assert_eq!(entry(&preimage, &c0), strings(&c, &zero(1)));
    assert_eq!(entry(&preimage, &zero(2)), strings(&zero(1), &zero(1)));
    assert_eq!(tree.leaf_nodes.len(), 6);
    assert_eq!(tree.root, zero(4));
}

#[test]
fn same_batch_twice() {
    let mut tree = Tree::new(4, 0);
    let mut preimage = serde_json::Map::new();
    let updates = batch(&[(0, 7), (1, 11)]);
    tree.batch_transition_updates(&updates, &mut preimage).unwrap();
    let root = tree.root;
    let leaves = tree.leaf_nodes.clone();
    let inners = tree.inner_nodes.clone();
    let first = preimage.clone();
    tree.batch_transition_updates(&updates, &mut preimage).unwrap();
    assert_eq!(tree.root, root);
    assert_eq!(tree.leaf_nodes, leaves);
    assert_eq!(tree.inner_nodes, inners);
    assert_eq!(preimage, first);
    assert!(tree.verify_root());
}

#[test]
fn two_batches_or_one() {
    let (a, b) = (21u64, 34u64);
    let mut stepwise = Tree::new(4, 0);
    let mut preimage = serde_json::Map::new();
    stepwise.batch_transition_updates(&batch(&[(5, a)]), &mut preimage).unwrap();
    stepwise.batch_transition_updates(&batch(&[(4, b)]), &mut preimage).unwrap();
    let mut single = Tree::new(4, 0);
    let mut single_preimage = serde_json::Map::new();
    single.batch_transition_updates(&batch(&[(4, b), (5, a)]), &mut single_preimage).unwrap();
    assert_eq!(stepwise.root, single.root);
    let h1 = pedersen(&felt(b), &felt(a));
    let h2 = pedersen(&h1, &zero(1));
    let h3 = pedersen(&zero(2), &h2);
    let h4 = pedersen(&h3, &zero(3));
    assert_eq!(single.root, h4);
    assert_eq!(stepwise.leaf_nodes, single.leaf_nodes);
    assert_eq!(stepwise.inner_nodes, single.inner_nodes);
    // The second of the two batches records the state between them.
    let between = pedersen(&zero(0), &felt(a));
    assert_eq!(entry(&preimage, &between), strings(&zero(0), &felt(a)));
    assert!(single_preimage.get(&between.to_string()).is_none());
}

#[test]
fn proof_of_an_unset_leaf() {
    let x = felt(99);
    let mut tree = Tree::new(4, 0);
    let mut preimage = serde_json::Map::new();
    let mut updates = HashMap::new();
    updates.insert(3, x);
    tree.batch_transition_updates(&updates, &mut preimage).unwrap();
    let (siblings, directions) = tree.get_proof(0);
    assert_eq!(siblings, vec![zero(0), pedersen(&zero(0), &x), zero(2), zero(3)]);
    assert_eq!(directions, vec![0, 0, 0, 0]);
    assert_eq!(fold(zero(0), &siblings, &directions), tree.root);
}

#[test]
fn proofs_fold_to_the_root() {
    let mut tree = Tree::new(4, 0);
    let mut preimage = serde_json::Map::new();
    tree.batch_transition_updates(&batch(&[(1, 5), (6, 8), (7, 13), (12, 1)]), &mut preimage)
        .unwrap();
    tree.batch_transition_updates(&batch(&[(6, 2), (15, 3)]), &mut preimage).unwrap();
    for n in 0..16u64 {
        let (siblings, directions) = tree.get_proof(n);
        assert_eq!(siblings.len(), 4);
        assert_eq!(directions, idx_to_binary_pos(n, 4));
        let leaf = tree.nth_leaf_node(n).unwrap();
        assert_eq!(fold(leaf, &siblings, &directions), tree.root);
    }
    let (siblings, directions) = tree.get_proof(13);
    assert_eq!(directions, vec![1, 0, 1, 1]);
    assert_eq!(siblings[0], felt(1));
    assert_eq!(siblings[1], tree.ith_inner_node(1, 7).unwrap());
    assert_eq!(siblings[2], tree.ith_inner_node(2, 2).unwrap());
    assert_eq!(siblings[3], tree.ith_inner_node(3, 0).unwrap());
}

#[test]
fn root_matches_reference_after_batches() {
    let mut tree = Tree::new(5, 0);
    let mut preimage = serde_json::Map::new();
    assert!(tree.verify_root());
    tree.batch_transition_updates(&batch(&[(0, 1), (3, 2), (8, 3), (9, 4), (31, 5)]), &mut preimage)
        .unwrap();
    assert!(tree.verify_root());
    tree.batch_transition_updates(&batch(&[(3, 0), (16, 7), (30, 6)]), &mut preimage).unwrap();
    assert!(tree.verify_root());
    assert_eq!(tree.root, build_tree(5, &tree.leaf_nodes, 0));
    tree.root = felt(1);
    assert!(!tree.verify_root());
}

#[test]
fn batch_rejects_out_of_range_keys_and_changes_nothing() {
    let mut tree = Tree::new(4, 0);
    let mut preimage = serde_json::Map::new();
    tree.batch_transition_updates(&batch(&[(2, 5)]), &mut preimage).unwrap();
    let root = tree.root;
    let leaves = tree.leaf_nodes.clone();
    let inners = tree.inner_nodes.clone();
    let before = preimage.clone();
    assert_eq!(
        tree.batch_transition_updates(&batch(&[(1, 4), (16, 9)]), &mut preimage),
        Err(TreeError::OutOfRange)
    );
    assert_eq!(tree.root, root);
    assert_eq!(tree.leaf_nodes, leaves);
    assert_eq!(tree.inner_nodes, inners);
    assert_eq!(preimage, before);
    assert_eq!(tree.batch_transition_updates(&batch(&[(15, 9)]), &mut preimage), Ok(()));
}

#[test]
fn preimage_holds_both_states_of_every_touched_node() {
    let mut tree = Tree::new(4, 0);
    let mut preimage = serde_json::Map::new();
    tree.batch_transition_updates(&batch(&[(1, 5), (6, 8), (7, 13)]), &mut preimage).unwrap();
    let before = tree.clone();
    let updates = batch(&[(0, 3), (6, 2), (10, 4)]);
    tree.batch_transition_updates(&updates, &mut preimage).unwrap();
    for leaf in [0u64, 6, 10] {
        let mut idx = leaf;
        for level in 1..=4u32 {
            idx /= 2;
            let new_hash = tree.ith_inner_node(level, idx).unwrap();
            let old_hash = before.ith_inner_node(level, idx).unwrap();
            let child = |t: &Tree, j: u64| {
                if level == 1 {
                    t.nth_leaf_node(j).unwrap()
                } else {
                    t.ith_inner_node(level - 1, j).unwrap()
                }
            };
            assert_eq!(
                entry(&preimage, &new_hash),
                strings(&child(&tree, 2 * idx), &child(&tree, 2 * idx + 1))
            );
            assert_eq!(
                entry(&preimage, &old_hash),
                strings(&child(&before, 2 * idx), &child(&before, 2 * idx + 1))
            );
        }
    }
}

#[test]
fn record_preimage_keeps_the_first_former_state() {
    let mut preimage = serde_json::Map::new();
    record_preimage(&mut preimage, &felt(1), &felt(2), &felt(3), &felt(4), &felt(5), &felt(6));
    assert_eq!(preimage.len(), 2);
    assert_eq!(entry(&preimage, &felt(1)), ("2".to_string(), "3".to_string()));
    assert_eq!(entry(&preimage, &felt(4)), ("5".to_string(), "6".to_string()));
    // The former hash is a key already: its entry stays. The new hash is
    // written again.
    record_preimage(&mut preimage, &felt(1), &felt(7), &felt(8), &felt(4), &felt(9), &felt(10));
    assert_eq!(preimage.len(), 2);
    assert_eq!(entry(&preimage, &felt(1)), ("2".to_string(), "3".to_string()));
    assert_eq!(entry(&preimage, &felt(4)), ("9".to_string(), "10".to_string()));
    // A former hash that was written as a new hash keeps that entry.
    record_preimage(&mut preimage, &felt(4), &felt(0), &felt(0), &felt(11), &felt(4), &felt(0));
    assert_eq!(entry(&preimage, &felt(4)), ("9".to_string(), "10".to_string()));
    assert_eq!(entry(&preimage, &felt(11)), ("4".to_string(), "0".to_string()));
    assert_eq!(preimage.len(), 3);
}

#[test]
fn pairwise_hash_pads_an_odd_row() {
    let row = vec![felt(1), felt(2), felt(3)];
    assert_eq!(
        pairwise_hash(&row, 0, 0),
        vec![pedersen(&felt(1), &felt(2)), pedersen(&felt(3), &zero(0))]
    );
    assert_eq!(
        pairwise_hash(&row, 2, 0),
        vec![pedersen(&felt(1), &felt(2)), pedersen(&felt(3), &zero(2))]
    );
    assert_eq!(pairwise_hash(&vec![felt(1), felt(2)], 1, 0), vec![pedersen(&felt(1), &felt(2))]);
    assert_eq!(pairwise_hash(&vec![felt(4)], 1, 0), vec![pedersen(&felt(4), &zero(1))]);
    assert!(pairwise_hash(&Vec::new(), 0, 0).is_empty());
    assert_eq!(hash_tree_level(&row, 0, 0, 0), pairwise_hash(&row, 0, 0));
}

#[test]
fn build_tree_hashes_rows_up_to_the_root() {
    let leaves = vec![felt(1), felt(2), felt(3)];
    let a = pedersen(&felt(1), &felt(2));
    let b = pedersen(&felt(3), &zero(0));
    let ab = pedersen(&a, &b);
    let top = pedersen(&ab, &zero(2));
    assert_eq!(inner_from_leaf_nodes(3, &leaves, 0), vec![vec![top], vec![ab], vec![a, b]]);
    assert_eq!(build_tree(3, &leaves, 0), top);
    assert_eq!(build_tree(2, &leaves, 0), ab);
    assert_eq!(build_tree(1, &leaves, 0), a);
    assert_eq!(build_tree(4, &Vec::new(), 0), zero(4));
    assert_eq!(build_tree(1, &vec![felt(5)], 0), pedersen(&felt(5), &zero(0)));
}

#[test]
fn tree_of_depth_64_takes_large_indices() {
    let mut tree = Tree::new(64, 0);
    let mut preimage = serde_json::Map::new();
    assert_eq!(tree.nth_leaf_node(u64::MAX), Ok(zero(0)));
    tree.batch_transition_updates(&batch(&[(1, 5)]), &mut preimage).unwrap();
    assert_eq!(tree.root, tree.ith_inner_node(64, 0).unwrap());
    let (siblings, directions) = tree.get_proof(1);
    assert_eq!(siblings.len(), 64);
    assert_eq!(fold(felt(5), &siblings, &directions), tree.root);
}

#[test]
fn hash_tree_level_works_stride_by_stride() {
    let row: Vec<Felt> = (0..501u64).map(felt).collect();
    let whole = pairwise_hash(&row, 3, 0);
    assert_eq!(whole.len(), 251);
    assert_eq!(whole[250], pedersen(&felt(500), &zero(3)));
    assert_eq!(whole[125], pedersen(&felt(250), &felt(251)));
    assert_eq!(hash_tree_level(&row, 3, 0, 0), whole);
    assert_eq!(hash_tree_level(&row, 3, 1, 0), whole[125..].to_vec());
    assert_eq!(hash_tree_level(&row, 3, 2, 0), whole[250..].to_vec());
    assert!(hash_tree_level(&row, 3, 3, 0).is_empty());
    assert!(hash_tree_level(&row, 3, usize::MAX, 0).is_empty());
    let even: Vec<Felt> = (0..500u64).map(felt).collect();
    assert_eq!(hash_tree_level(&even, 0, 0, 0), pairwise_hash(&even, 0, 0));
    assert!(hash_tree_level(&even, 0, 2, 0).is_empty());
}

#[test]
fn batch_of_many_strides_matches_single_updates() {
    let pairs: Vec<(u64, u64)> = (0..700u64).map(|i| ((i * 37) % 1024, i + 1)).collect();
    let updates = batch(&pairs);
    assert!(updates.len() > 500);
    let mut tree = Tree::new(10, 0);
    let mut preimage = serde_json::Map::new();
    tree.batch_transition_updates(&updates, &mut preimage).unwrap();
    assert!(tree.verify_root());
    let mut stepwise = Tree::new(10, 0);
    let mut stepwise_preimage = serde_json::Map::new();
    for (idx, value) in updates.iter() {
        let mut one = HashMap::new();
        one.insert(*idx, *value);
        stepwise.batch_transition_updates(&one, &mut stepwise_preimage).unwrap();
    }
    assert_eq!(tree.root, stepwise.root);
    for (idx, value) in updates.iter() {
        assert_eq!(tree.nth_leaf_node(*idx), Ok(*value));
    }
    let root_key = tree.root.to_string();
    assert_eq!(
        entry(&preimage, &tree.root),
        strings(&tree.ith_inner_node(9, 0).unwrap(), &tree.ith_inner_node(9, 1).unwrap())
    );
    assert!(stepwise_preimage.contains_key(&root_key));
    assert_eq!(entry(&preimage, &zero(10)), strings(&zero(9), &zero(9)));
}

#[test]
fn zero_hash_table_agrees_with_direct_computation() {
    let zeros = ZeroHashes::new(3, 0);
    for level in 0..=3 {
        assert_eq!(zeros.get(level), get_zero_hash(level, 0));
    }
    // Above the table.
    assert_eq!(zeros.get(6), get_zero_hash(6, 0));
    assert_eq!(zeros.clone().get(2), get_zero_hash(2, 0));
    assert_eq!(ZeroHashes::new(0, 7).get(0), Felt::zero());
    assert_eq!(ZeroHashes::new(0, 7).get(2), get_zero_hash(2, 7));
}

#[test]
fn shift_does_not_change_zero_hashes() {
    let mut shifted = Tree::new(4, 3);
    let mut plain = Tree::new(4, 0);
    assert_eq!(shifted.shift, 3);
    assert_eq!(shifted.root, plain.root);
    assert_eq!(shifted.nth_leaf_node(5), Ok(Felt::zero()));
    let mut preimage = serde_json::Map::new();
    let updates = batch(&[(2, 9), (11, 4)]);
    shifted.batch_transition_updates(&updates, &mut preimage).unwrap();
    plain.batch_transition_updates(&updates, &mut serde_json::Map::new()).unwrap();
    assert_eq!(shifted.root, plain.root);
    assert!(shifted.verify_root());
}

#[test]
fn well_shaped_needs_a_row_for_each_level() {
    let mut tree = Tree::new(3, 0);
    assert!(tree.is_well_shaped());
    tree.inner_nodes.pop();
    assert!(!tree.is_well_shaped());
    tree.inner_nodes.push(Vec::new());
    assert!(tree.is_well_shaped());
    tree.depth = 0;
    assert!(!tree.is_well_shaped());
    tree.depth = 65;
    assert!(!tree.is_well_shaped());
}

#[test]
fn disjoint_batches_commute() {
    let first = batch(&[(0, 3), (5, 8), (6, 1), (13, 2)]);
    let second = batch(&[(1, 7), (4, 9), (12, 6), (15, 5)]);
    let mut both = first.clone();
    both.extend(second.iter().map(|(idx, value)| (*idx, *value)));

    let mut one_then_two = Tree::new(4, 0);
    let mut two_then_one = Tree::new(4, 0);
    let mut at_once = Tree::new(4, 0);
    let mut preimage = serde_json::Map::new();
    one_then_two.batch_transition_updates(&first, &mut preimage).unwrap();
    one_then_two.batch_transition_updates(&second, &mut preimage).unwrap();
    two_then_one.batch_transition_updates(&second, &mut preimage).unwrap();
    two_then_one.batch_transition_updates(&first, &mut preimage).unwrap();
    at_once.batch_transition_updates(&both, &mut preimage).unwrap();
    assert_eq!(one_then_two.root, at_once.root);
    assert_eq!(two_then_one.root, at_once.root);
    assert_eq!(one_then_two.leaf_nodes, at_once.leaf_nodes);
    assert_eq!(one_then_two.inner_nodes, at_once.inner_nodes);
    assert_eq!(at_once.root, build_tree(4, &at_once.leaf_nodes, 0));
}

#[test]
fn rows_grow_up_to_the_highest_written_index() {
    let mut tree = Tree::new(4, 0);
    let mut preimage = serde_json::Map::new();
    tree.batch_transition_updates(&batch(&[(2, 5), (9, 6)]), &mut preimage).unwrap();
    assert_eq!(tree.leaf_nodes.len(), 10);
    assert_eq!(tree.inner_nodes[0].len(), 5);
    assert_eq!(tree.inner_nodes[1].len(), 3);
    assert_eq!(tree.inner_nodes[2].len(), 2);
    assert_eq!(tree.inner_nodes[3].len(), 1);
    assert_eq!(tree.leaf_nodes[3], zero(0));
    assert_eq!(tree.inner_nodes[0][2], zero(1));
    assert_eq!(tree.inner_nodes[1][1], zero(2));
    tree.batch_transition_updates(&batch(&[(4, 1)]), &mut preimage).unwrap();
    assert_eq!(tree.leaf_nodes.len(), 10);
    assert_eq!(tree.inner_nodes[0].len(), 5);
    assert_eq!(tree.inner_nodes[0][2], pedersen(&felt(1), &zero(0)));
}

#[test]
fn tree_of_depth_one() {
    let mut tree = Tree::new(1, 0);
    let mut preimage = serde_json::Map::new();
    assert_eq!(tree.root, zero(1));
    tree.batch_transition_updates(&batch(&[(1, 4)]), &mut preimage).unwrap();
    assert_eq!(tree.root, pedersen(&zero(0), &felt(4)));
    assert_eq!(tree.get_proof(1), (vec![zero(0)], vec![1]));
    assert_eq!(tree.get_proof(0), (vec![felt(4)], vec![0]));
    assert_eq!(tree.nth_leaf_node(2), Err(TreeError::OutOfRange));
    assert_eq!(
        tree.batch_transition_updates(&batch(&[(2, 4)]), &mut preimage),
        Err(TreeError::OutOfRange)
    );
    assert!(tree.verify_root());
}
