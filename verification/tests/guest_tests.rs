use k256::ecdsa::signature::hazmat::PrehashSigner;
use k256::ecdsa::{Signature, SigningKey, VerifyingKey};
use risc0_zkvm::sha::{Digest as ZkDigest, Impl, Sha256 as ZkSha256};
use sha2::{Digest, Sha256};
use starrol::guest::{
    check_insert_batch, check_update_batch, compute_merkle_root, decide_insert_batch, hash_sig_data,
    verify_multi_proof, GuestError,
};
use starrol::items::{InsertItem, StateTransitionProof, UpdateItem};
use starrol::merkle::MerkleTree;
use starrol::signature::SignatureCheck;

fn compress(a: &[u8; 32], b: &[u8; 32]) -> [u8; 32] {
    let d = Impl::hash_pair(&ZkDigest::from(*a), &ZkDigest::from(*b));
    d.as_bytes().try_into().unwrap()
}

fn key(seed: u8) -> SigningKey {
    let mut bytes = [0u8; 32];
    bytes[31] = seed;
    bytes[0] = 1;
    SigningKey::from_slice(&bytes).unwrap()
}

fn xy(sk: &SigningKey) -> [u8; 64] {
    let point = VerifyingKey::from(sk).to_encoded_point(false);
    point.as_bytes()[1..].try_into().unwrap()
}

fn sign(sk: &SigningKey, msg: &[u8; 32]) -> [u8; 64] {
    let sig: Signature = sk.sign_prehash(msg).unwrap();
    sig.to_vec().try_into().unwrap()
}

fn insert_item(seed: u8, root: [u8; 32]) -> InsertItem {
    let sk = key(seed);
    InsertItem { credential_root: root, signature: sign(&sk, &root), public_key: xy(&sk) }
}

#[test]
fn guest_root_uses_the_compression_function() {
    let a = [9u8; 32];
    let b = [3u8; 32];
    assert_eq!(compute_merkle_root(&[a, b]), compress(&b, &a));
    assert_ne!(compute_merkle_root(&[a, b]), MerkleTree::new(vec![a, b]).root());
    assert_eq!(compute_merkle_root(&[]), [0u8; 32]);
    assert_eq!(compute_merkle_root(&[a]), a);
}

#[test]
fn sig_data_is_the_sha256_of_both_roots() {
    let a = [1u8; 32];
    let b = [2u8; 32];
    let mut h = Sha256::new();
    h.update(a);
    h.update(b);
    let expected: [u8; 32] = h.finalize().into();
    assert_eq!(hash_sig_data(&a, &b), expected);
    assert_ne!(hash_sig_data(&b, &a), expected);
}

#[test]
fn guest_verification_of_a_single_leaf() {
    let a = [5u8; 32];
    assert_eq!(verify_multi_proof(&a, &[a], &[], &[], None), (true, a, None));
    assert_eq!(verify_multi_proof(&[6u8; 32], &[a], &[], &[], None).0, false);
}

#[test]
fn guest_verification_of_a_pair() {
    let a = [5u8; 32];
    let b = [6u8; 32];
    let root = compute_merkle_root(&[a, b]);
    assert_eq!(verify_multi_proof(&root, &[a], &[b], &[false], None), (true, root, None));
    assert_eq!(verify_multi_proof(&root, &[b, a], &[], &[true], None), (true, root, None));
}

#[test]
fn insert_batch_accepted() {
    let batch = vec![insert_item(1, [11u8; 32]), insert_item(2, [22u8; 32]), insert_item(3, [33u8; 32])];
    let roots: Vec<[u8; 32]> = batch.iter().map(|i| i.credential_root).collect();
    let root = compute_merkle_root(&roots);
    assert_eq!(check_insert_batch(&root, &batch), Ok(()));
}

#[test]
fn insert_batch_with_wrong_root() {
    let batch = vec![insert_item(1, [11u8; 32])];
    assert_eq!(check_insert_batch(&[0u8; 32], &batch), Err(GuestError::RootMismatch));
}

#[test]
fn insert_batch_with_forged_signature() {
    let mut batch = vec![insert_item(1, [11u8; 32]), insert_item(2, [22u8; 32])];
    batch[1].signature = insert_item(3, [22u8; 32]).signature;
    let roots: Vec<[u8; 32]> = batch.iter().map(|i| i.credential_root).collect();
    let root = compute_merkle_root(&roots);
    assert_eq!(check_insert_batch(&root, &batch), Err(GuestError::SignatureRejected(1)));
}

#[test]
fn insert_batch_with_bad_key_and_signature() {
    let mut batch = vec![insert_item(1, [11u8; 32]), insert_item(2, [22u8; 32])];
    batch[0].public_key = [0u8; 64];
    let root = compute_merkle_root(&[[11u8; 32], [22u8; 32]]);
    assert_eq!(check_insert_batch(&root, &batch), Err(GuestError::InvalidPublicKey(0)));
    let mut batch = vec![insert_item(1, [11u8; 32])];
    batch[0].signature = [0u8; 64];
    assert_eq!(check_insert_batch(&[11u8; 32], &batch), Err(GuestError::InvalidSignature(0)));
}

#[test]
fn insert_verdict_reports_the_first_failure() {
    let batch = vec![InsertItem::default(), InsertItem::default()];
    let checks = [SignatureCheck::Accepted, SignatureCheck::InvalidSignature];
    assert_eq!(decide_insert_batch(&[0u8; 32], &batch, &checks), Err(GuestError::InvalidSignature(1)));
    let checks = [SignatureCheck::Rejected, SignatureCheck::InvalidKey];
    assert_eq!(decide_insert_batch(&[0u8; 32], &batch, &checks), Err(GuestError::SignatureRejected(0)));
    let checks = [SignatureCheck::Accepted, SignatureCheck::Accepted];
    assert_eq!(decide_insert_batch(&[0u8; 32], &batch, &checks), Ok(()));
}

fn update_item(seed: u8, current: [u8; 32], updated: [u8; 32]) -> UpdateItem {
    let sk = key(seed);
    let digest = hash_sig_data(&current, &updated);
    UpdateItem {
        current_credential_root: current,
        updated_credential_root: updated,
        signature: sign(&sk, &digest),
        public_key: xy(&sk),
    }
}

#[test]
fn update_batch_of_a_single_root() {
    let item = update_item(4, [1u8; 32], [2u8; 32]);
    let proofs = [StateTransitionProof::default()];
    let res = check_update_batch(&[1u8; 32], &[2u8; 32], &[], &[], &proofs[..0], &[item]);
    assert_eq!(res, Ok(()));
    let res = check_update_batch(&[9u8; 32], &[2u8; 32], &[], &[], &proofs[..0], &[item]);
    assert_eq!(res, Err(GuestError::CurrentStateRejected));
    let res = check_update_batch(&[1u8; 32], &[9u8; 32], &[], &[], &proofs[..0], &[item]);
    assert_eq!(res, Err(GuestError::UpdatedStateRejected));
    let mut forged = item;
    forged.updated_credential_root = [3u8; 32];
    let res = check_update_batch(&[1u8; 32], &[3u8; 32], &[], &[], &proofs[..0], &[forged]);
    assert_eq!(res, Err(GuestError::SignatureRejected(0)));
}

#[test]
fn update_batch_with_proof_nodes() {
    let a = [1u8; 32];
    let b = [2u8; 32];
    let a2 = [7u8; 32];
    let current_root = compute_merkle_root(&[a, b]);
    let updated_root = compute_merkle_root(&[a2, b]);
    let item = update_item(5, a, a2);
    let proofs = [StateTransitionProof { updated_indices: 0, current_state_proof: b, next_state_proof: b }];
    let res = check_update_batch(&current_root, &updated_root, &[false], &[false], &proofs, &[item]);
    assert_eq!(res, Ok(()));
}

#[test]
fn default_items_are_zero() {
    let i = InsertItem::default();
    assert_eq!(i.credential_root, [0u8; 32]);
    assert_eq!(i.signature, [0u8; 64]);
    assert_eq!(i.public_key, [0u8; 64]);
    let u = UpdateItem::default();
    assert_eq!(u.current_credential_root, [0u8; 32]);
    assert_eq!(u.updated_credential_root, [0u8; 32]);
    let p = StateTransitionProof::default();
    assert_eq!(p.updated_indices, 0);
    assert_eq!(p.next_state_proof, [0u8; 32]);
}

#[test]
fn zero_leaves_up_to_the_width_keep_the_guest_root() {
    let leaves = vec![[1u8; 32], [2u8; 32], [3u8; 32], [4u8; 32], [5u8; 32]];
    let root = compute_merkle_root(&leaves);
    for k in 0..=3 {
        let mut padded = leaves.clone();
        padded.extend(std::iter::repeat([0u8; 32]).take(k));
        assert_eq!(compute_merkle_root(&padded), root);
    }
    let mut swapped = leaves.clone();
    swapped.swap(2, 3);
    assert_eq!(compute_merkle_root(&swapped), root);
}
