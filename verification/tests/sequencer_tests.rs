use starrol::merkle::MerkleTree;
use starrol::rpc::{
    node_from_bytes, prepare_submission_batch, process_submission_batch_merkle, screen_signature,
    screen_submission_root, submission_response, update_response, ResponseDetail, SequencerStatus,
    SubmissionBatchError, SubmissionPayload, UpdatePayload, WorkerReply,
};
use starrol::signature::SignatureError;
use starrol::updates::{
    find_last_index, leaves_for_sequence, plan_sequence_update, sort_targets, UpdatePlanError,
};
use starrol::utils::unique_elements;

fn leaf(x: u8) -> [u8; 32] {
    [x; 32]
}

fn submission(root: Vec<u8>) -> SubmissionPayload {
    SubmissionPayload { root, signature: vec![1; 64], public_key: vec![2; 33] }
}

fn update(seq: u64, old: Vec<u8>, new: Vec<u8>) -> UpdatePayload {
    UpdatePayload { old_root: old, new_root: new, signature: vec![], public_key: vec![], sequence_number: seq }
}

#[test]
fn unique_elements_keeps_first_occurrences() {
    assert_eq!(unique_elements(&[3, 1, 3, 2, 1]), vec![3, 1, 2]);
    assert_eq!(unique_elements(&[]), Vec::<u64>::new());
    assert_eq!(unique_elements(&[7, 7, 7]), vec![7]);
}

#[test]
fn submissions_become_leaves() {
    let batch = vec![submission(vec![1; 32]), submission(vec![2; 32])];
    let tree = process_submission_batch_merkle(&batch).unwrap();
    assert_eq!(tree.leaves, vec![leaf(1), leaf(2)]);
    let (root, leaves) = prepare_submission_batch(&batch).unwrap();
    assert_eq!(root, MerkleTree::new(vec![leaf(1), leaf(2)]).root());
    assert_eq!(leaves, vec![leaf(1), leaf(2)]);
}

#[test]
fn submission_with_short_root_is_refused() {
    let batch = vec![submission(vec![1; 32]), submission(vec![2; 31]), submission(vec![3; 33])];
    assert!(matches!(process_submission_batch_merkle(&batch), Err(SubmissionBatchError::RootLength(1))));
    assert!(matches!(prepare_submission_batch(&batch), Err(SubmissionBatchError::RootLength(1))));
}

#[test]
fn node_from_bytes_needs_32_bytes() {
    assert_eq!(node_from_bytes(&[4u8; 32]), Some(leaf(4)));
    assert_eq!(node_from_bytes(&[4u8; 31]), None);
    assert_eq!(node_from_bytes(&[]), None);
}

#[test]
fn screening_a_submission() {
    assert_eq!(screen_submission_root(&[5u8; 32]).unwrap(), leaf(5));
    let r = screen_submission_root(&[5u8; 3]).unwrap_err();
    assert_eq!(r.status, SequencerStatus::InvalidSignature);
    assert_eq!(r.sequence_number, 0);
    assert!(matches!(r.detail, ResponseDetail::InvalidRootLength));
    assert!(screen_signature(Ok(true)).is_none());
    let r = screen_signature(Ok(false)).unwrap();
    assert_eq!(r.status, SequencerStatus::InvalidSignature);
    assert!(matches!(r.detail, ResponseDetail::InvalidSignature));
    let r = screen_signature(Err(SignatureError::InvalidPublicKey)).unwrap();
    assert_eq!(r.status, SequencerStatus::InternalError);
    assert!(matches!(r.detail, ResponseDetail::SignerError(SignatureError::InvalidPublicKey)));
}

#[test]
fn worker_replies_become_responses() {
    let r = submission_response(WorkerReply::Sequenced(12));
    assert_eq!(r.status, SequencerStatus::Accepted);
    assert_eq!(r.sequence_number, 12);
    assert!(matches!(r.detail, ResponseDetail::NoDetail));
    let r = submission_response(WorkerReply::ChannelClosed);
    assert_eq!(r.status, SequencerStatus::InternalError);
    assert!(matches!(r.detail, ResponseDetail::SubmissionChannelClosed));
    let r = update_response(WorkerReply::ChannelClosed);
    assert!(matches!(r.detail, ResponseDetail::UpdateChannelClosed));
    let r = update_response(WorkerReply::Failed("disk".to_string()));
    assert_eq!(r.status, SequencerStatus::InternalError);
    assert!(matches!(r.detail, ResponseDetail::DbError(ref m) if m == "disk"));
    let r = submission_response(WorkerReply::Dropped);
    assert!(matches!(r.detail, ResponseDetail::WorkerDropped));
}

#[test]
fn last_index_of_a_repeated_leaf() {
    let leaves = [leaf(1), leaf(2), leaf(1), leaf(3)];
    assert_eq!(find_last_index(&leaves, &leaf(1)), Some(2));
    assert_eq!(find_last_index(&leaves, &leaf(3)), Some(3));
    assert_eq!(find_last_index(&leaves, &leaf(9)), None);
}

#[test]
fn sorting_targets() {
    let ts = vec![(4usize, leaf(1), leaf(2)), (1, leaf(3), leaf(4)), (2, leaf(5), leaf(6))];
    let sorted = sort_targets(&ts).unwrap();
    assert_eq!(sorted.iter().map(|t| t.0).collect::<Vec<_>>(), vec![1, 2, 4]);
    assert_eq!(sorted[2], ts[0]);
    let dup = vec![(4usize, leaf(1), leaf(2)), (4, leaf(3), leaf(4))];
    assert!(sort_targets(&dup).is_none());
}

#[test]
fn planning_updates_of_one_tree() {
    let leaves = vec![leaf(1), leaf(2), leaf(3), leaf(4)];
    let batch = vec![
        update(7, vec![3; 32], vec![30; 32]),
        update(8, vec![9; 32], vec![90; 32]),
        update(7, vec![1; 32], vec![10; 32]),
    ];
    let plan = plan_sequence_update(7, Some(&leaves), &batch).unwrap();
    assert_eq!(plan.sequence_number, 7);
    assert_eq!(plan.indices, vec![0, 2]);
    assert_eq!(plan.old_leaves, vec![leaf(1), leaf(3)]);
    assert_eq!(plan.new_leaves, vec![leaf(10), leaf(30)]);
    let root = MerkleTree::new(leaves.clone()).root();
    assert_eq!(plan.old_root, root);
    let mut updated = leaves.clone();
    updated[0] = leaf(10);
    updated[2] = leaf(30);
    assert_eq!(plan.new_root, MerkleTree::new(updated).root());
    assert_ne!(plan.new_root, root);
}

#[test]
fn planning_errors() {
    let leaves = vec![leaf(1), leaf(2)];
    let batch = vec![update(7, vec![1; 32], vec![10; 32])];
    assert!(matches!(plan_sequence_update(7, None, &batch), Err(UpdatePlanError::NoLeaves(7))));
    let batch = vec![update(7, vec![5; 32], vec![10; 32])];
    assert!(matches!(plan_sequence_update(7, Some(&leaves), &batch), Err(UpdatePlanError::OldRootNotFound(7))));
    let batch = vec![update(7, vec![1; 31], vec![10; 32])];
    assert!(matches!(plan_sequence_update(7, Some(&leaves), &batch), Err(UpdatePlanError::OldRootLength(7))));
    let batch = vec![update(7, vec![1; 32], vec![10; 2])];
    assert!(matches!(plan_sequence_update(7, Some(&leaves), &batch), Err(UpdatePlanError::NewRootLength(7))));
    let batch = vec![update(7, vec![2; 32], vec![10; 32]), update(7, vec![2; 32], vec![11; 32])];
    assert!(matches!(plan_sequence_update(7, Some(&leaves), &batch), Err(UpdatePlanError::DuplicateTarget(7))));
}

#[test]
fn the_last_fetched_leaves_win() {
    let fetched = vec![(3u64, vec![leaf(1)]), (4, vec![leaf(2)]), (3, vec![leaf(3)])];
    assert_eq!(leaves_for_sequence(&fetched, 3), Some(2));
    assert_eq!(leaves_for_sequence(&fetched, 4), Some(1));
    assert_eq!(leaves_for_sequence(&fetched, 5), None);
}

#[test]
fn the_planned_root_is_the_root_after_the_update() {
    let leaves = vec![[1u8; 32]];
    let batch = vec![update(3, vec![1; 32], vec![2; 32])];
    let plan = plan_sequence_update(3, Some(&leaves), &batch).unwrap();
    assert_eq!(plan.old_root, [1u8; 32]);
    assert_eq!(plan.new_root, MerkleTree::new(vec![[2u8; 32]]).root());
    assert_eq!(plan.new_root, [2u8; 32]);
}
