use sha2::{Digest, Sha256};
use starrol::merkle::{width_and_height, MerkleTree};
use starrol::node::{greater, hash_node, node_eq, NodeHasher};

fn sha(a: &[u8; 32], b: &[u8; 32]) -> [u8; 32] {
    let mut h = Sha256::new();
    h.update(a);
    h.update(b);
    h.finalize().into()
}

fn parent(a: &[u8; 32], b: &[u8; 32]) -> [u8; 32] {
    if a == &[0u8; 32] && b == &[0u8; 32] {
        return [0u8; 32];
    }
    if a > b {
        sha(b, a)
    } else {
        sha(a, b)
    }
}

fn leaf(x: u8) -> [u8; 32] {
    let mut l = [0u8; 32];
    l[0] = x;
    l[31] = x.wrapping_mul(7);
    l
}

#[test]
fn empty_tree_has_zero_root() {
    let tree = MerkleTree::new(vec![]);
    assert_eq!(tree.root(), [0u8; 32]);
}

#[test]
fn single_leaf_is_its_own_root() {
    let tree = MerkleTree::new(vec![leaf(9)]);
    assert_eq!(tree.root(), leaf(9));
}

#[test]
fn two_leaf_root_hashes_the_smaller_first() {
    let a = [2u8; 32];
    let b = [1u8; 32];
    let tree = MerkleTree::new(vec![a, b]);
    assert_eq!(tree.root(), sha(&b, &a));
    assert_ne!(tree.root(), sha(&a, &b));
}

#[test]
fn parent_is_symmetric() {
    let a = leaf(3);
    let b = leaf(200);
    assert_eq!(hash_node(NodeHasher::Sha256, &a, &b), hash_node(NodeHasher::Sha256, &b, &a));
    assert_eq!(hash_node(NodeHasher::Risc0Compress, &a, &b), hash_node(NodeHasher::Risc0Compress, &b, &a));
}

#[test]
fn parent_of_two_zero_nodes_is_zero() {
    let z = [0u8; 32];
    assert_eq!(hash_node(NodeHasher::Sha256, &z, &z), z);
    assert_eq!(hash_node(NodeHasher::Risc0Compress, &z, &z), z);
    assert_ne!(hash_node(NodeHasher::Sha256, &z, &leaf(1)), z);
}

#[test]
fn three_leaves_are_padded_with_a_zero_node() {
    let l = vec![leaf(1), leaf(2), leaf(3)];
    let expected = parent(&parent(&l[0], &l[1]), &parent(&l[2], &[0u8; 32]));
    assert_eq!(MerkleTree::new(l).root(), expected);
}

#[test]
fn width_and_height_round_up_to_a_power_of_two() {
    assert_eq!(width_and_height(1), (1, 0));
    assert_eq!(width_and_height(2), (2, 1));
    assert_eq!(width_and_height(5), (8, 3));
    assert_eq!(width_and_height(8), (8, 3));
    assert_eq!(width_and_height(9), (16, 4));
}

#[test]
fn byte_order_and_equality() {
    let mut a = [0u8; 32];
    let mut b = [0u8; 32];
    a[5] = 2;
    b[5] = 1;
    b[6] = 255;
    assert!(greater(&a, &b));
    assert!(!greater(&b, &a));
    assert!(!greater(&a, &a));
    assert!(node_eq(&a, &a));
    assert!(!node_eq(&a, &b));
}

#[test]
fn multi_proof_round_trip() {
    let leaves: Vec<[u8; 32]> = (1u8..=5).map(leaf).collect();
    let tree = MerkleTree::new(leaves.clone());
    let targets = [1usize, 3, 4];
    let values: Vec<[u8; 32]> = targets.iter().map(|&i| leaves[i]).collect();
    let (old_root, new_root, height, proof, flags) = tree.build_multi_proof(&targets, &values);
    assert_eq!(old_root, tree.root());
    assert_eq!(new_root, tree.root());
    assert_eq!(height, 3);
    let (ok, computed, layer) = MerkleTree::verify_multi_proof(&old_root, &values, &proof, &flags, None);
    assert!(ok);
    assert_eq!(computed, old_root);
    assert!(layer.is_none());
}

#[test]
fn multi_proof_verifies_replacement_against_new_root() {
    let leaves: Vec<[u8; 32]> = (1u8..=6).map(leaf).collect();
    let tree = MerkleTree::new(leaves.clone());
    let targets = [0usize, 4];
    let values = vec![leaf(100), leaf(101)];
    let (old_root, new_root, _h, proof, flags) = tree.build_multi_proof(&targets, &values);
    let mut updated = leaves.clone();
    updated[0] = leaf(100);
    updated[4] = leaf(101);
    assert_eq!(new_root, MerkleTree::new(updated).root());
    assert_ne!(new_root, old_root);
    let (ok, computed, _) = MerkleTree::verify_multi_proof(&new_root, &values, &proof, &flags, None);
    assert!(ok);
    assert_eq!(computed, new_root);
    let (stale, _, _) = MerkleTree::verify_multi_proof(&old_root, &values, &proof, &flags, None);
    assert!(!stale);
}

#[test]
fn multi_proof_for_a_single_leaf_tree() {
    let tree = MerkleTree::new(vec![leaf(4)]);
    let (old_root, new_root, height, proof, flags) = tree.build_multi_proof(&[0], &[leaf(5)]);
    assert_eq!(old_root, leaf(4));
    assert_eq!(new_root, leaf(5));
    assert_eq!(height, 0);
    assert!(proof.is_empty() && flags.is_empty());
    let (ok, computed, layer) = MerkleTree::verify_multi_proof(&leaf(5), &[leaf(5)], &[], &[], Some(0));
    assert!(ok);
    assert_eq!(computed, leaf(5));
    assert_eq!(layer, Some(vec![leaf(5)]));
}

#[test]
fn multi_proof_flags_and_siblings() {
    let leaves: Vec<[u8; 32]> = (1u8..=4).map(leaf).collect();
    let tree = MerkleTree::new(leaves.clone());
    let (_, _, _, proof, flags) = tree.build_multi_proof(&[0, 1], &[leaves[0], leaves[1]]);
    assert_eq!(flags, vec![true, false]);
    assert_eq!(proof, vec![parent(&leaves[2], &leaves[3])]);
    let (_, _, _, proof, flags) = tree.build_multi_proof(&[3], &[leaves[3]]);
    assert_eq!(flags, vec![false, false]);
    assert_eq!(proof, vec![leaves[2], parent(&leaves[0], &leaves[1])]);
}

#[test]
fn verification_rejects_bad_input() {
    let leaves: Vec<[u8; 32]> = (1u8..=4).map(leaf).collect();
    let tree = MerkleTree::new(leaves.clone());
    let root = tree.root();
    let (_, _, _, proof, flags) = tree.build_multi_proof(&[2], &[leaves[2]]);
    assert_eq!(MerkleTree::verify_multi_proof(&root, &[], &proof, &flags, None), (false, [0u8; 32], None));
    let (ok, _, _) = MerkleTree::verify_multi_proof(&root, &[leaf(77)], &proof, &flags, None);
    assert!(!ok);
    let (ok, computed, _) = MerkleTree::verify_multi_proof(&root, &[leaves[2]], &proof[..1], &flags, None);
    assert!(!ok);
    assert_eq!(computed, [0u8; 32]);
    let (ok, _, _) = MerkleTree::verify_multi_proof(&root, &[leaves[2], leaves[3]], &proof, &flags, None);
    assert!(!ok);
}

#[test]
fn layer_collection_keeps_the_verdict() {
    let leaves: Vec<[u8; 32]> = (1u8..=4).map(leaf).collect();
    let tree = MerkleTree::new(leaves.clone());
    let root = tree.root();
    let (_, _, _, proof, flags) = tree.build_multi_proof(&[0, 3], &[leaves[0], leaves[3]]);
    let plain = MerkleTree::verify_multi_proof(&root, &[leaves[0], leaves[3]], &proof, &flags, None);
    let with_layer = MerkleTree::verify_multi_proof(&root, &[leaves[0], leaves[3]], &proof, &flags, Some(1));
    assert_eq!(plain.0, with_layer.0);
    assert_eq!(plain.1, with_layer.1);
    assert!(with_layer.0);
    let upper_left = parent(&leaves[0], &leaves[1]);
    let upper_right = parent(&leaves[2], &leaves[3]);
    assert_eq!(with_layer.2, Some(vec![upper_left, upper_right]));
    let top = MerkleTree::verify_multi_proof(&root, &[leaves[0], leaves[3]], &proof, &flags, Some(2));
    assert_eq!(top.2, Some(vec![root]));
}

#[test]
fn collected_layer_lists_each_target_before_its_sibling() {
    let leaves: Vec<[u8; 32]> = (1u8..=4).map(leaf).collect();
    let tree = MerkleTree::new(leaves.clone());
    let new_values = [leaf(20), leaf(30)];
    let (_, new_root, height, proof, flags) = tree.build_multi_proof(&[1, 2], &new_values);
    assert_eq!(height, 2);
    let bottom = MerkleTree::verify_multi_proof(&new_root, &new_values, &proof, &flags, Some(0));
    assert!(bottom.0);
    assert_eq!(bottom.2, Some(vec![new_values[0], leaves[0], new_values[1], leaves[3]]));
    let middle = MerkleTree::verify_multi_proof(&new_root, &new_values, &proof, &flags, Some(1));
    assert_eq!(
        middle.2,
        Some(vec![parent(&leaves[0], &new_values[0]), parent(&new_values[1], &leaves[3])])
    );
    let above_top = MerkleTree::verify_multi_proof(&new_root, &new_values, &proof, &flags, Some(3));
    assert!(above_top.0);
    assert_eq!(above_top.2, Some(vec![]));
    let single = MerkleTree::verify_multi_proof(&leaf(5), &[leaf(5)], &[], &[], Some(1));
    assert!(single.0);
    assert_eq!(single.2, None);
}

#[test]
fn verdict_compares_the_recomputed_root() {
    let leaves: Vec<[u8; 32]> = (1u8..=4).map(leaf).collect();
    let tree = MerkleTree::new(leaves.clone());
    let root = tree.root();
    let (_, _, _, proof, flags) = tree.build_multi_proof(&[2], &[leaves[2]]);
    let right = MerkleTree::verify_multi_proof(&root, &[leaves[2]], &proof, &flags, Some(1));
    let wrong = MerkleTree::verify_multi_proof(&leaf(9), &[leaves[2]], &proof, &flags, Some(1));
    assert!(right.0);
    assert!(!wrong.0);
    assert_eq!(right.1, wrong.1);
    assert_eq!(right.2, wrong.2);
}

#[test]
fn collected_nodes_are_roots_of_leaf_slices() {
    let leaves: Vec<[u8; 32]> = (1u8..=6).map(leaf).collect();
    let tree = MerkleTree::new(leaves.clone());
    let root = tree.root();
    let (_, _, height, proof, flags) = tree.build_multi_proof(&[5], &[leaves[5]]);
    assert_eq!(height, 3);
    let layer = MerkleTree::verify_multi_proof(&root, &[leaves[5]], &proof, &flags, Some(1)).2.unwrap();
    let mut padded = leaves.clone();
    padded.resize(8, [0u8; 32]);
    let slice_root = |j: usize| MerkleTree::new(padded[2 * j..2 * j + 2].to_vec()).root();
    assert_eq!(layer, vec![slice_root(2), slice_root(3)]);
    let top = MerkleTree::verify_multi_proof(&root, &[leaves[5]], &proof, &flags, Some(3)).2.unwrap();
    assert_eq!(top, vec![root]);
    let above = MerkleTree::verify_multi_proof(&root, &[leaves[5]], &proof, &flags, Some(4)).2.unwrap();
    assert_eq!(above, Vec::<[u8; 32]>::new());
}

#[test]
fn swapping_siblings_keeps_the_root() {
    let leaves: Vec<[u8; 32]> = (1u8..=5).map(leaf).collect();
    let mut swapped = leaves.clone();
    swapped.swap(0, 1);
    assert_eq!(MerkleTree::new(swapped).root(), MerkleTree::new(leaves).root());
}
