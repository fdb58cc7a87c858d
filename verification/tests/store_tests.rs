use starrol::batcher::{Batcher, BatcherConfig};
use starrol::config::Config;
use starrol::store::{
    decode_leaves, decode_root, decode_sequence, flatten_leaves, latest_key_of, latest_sequence, leaf_index_key_of,
    leaves_from_rows, leaves_key_of, plan_insert, plan_leaf_updates, root_key_of, sequence_bytes, WriteOp,
};

fn leaf(x: u8) -> [u8; 32] {
    [x; 32]
}

fn put(op: &WriteOp) -> (Vec<u8>, Vec<u8>) {
    match op {
        WriteOp::Put(k, v) => (k.clone(), v.clone()),
        WriteOp::Delete(_) => panic!("expected a put"),
    }
}

#[test]
fn keys_and_sequence_numbers() {
    assert_eq!(sequence_bytes(0x0102_0304), vec![1, 2, 3, 4]);
    assert_eq!(decode_sequence(&[1, 2, 3, 4, 9]), 0x0102_0304);
    assert_eq!(decode_sequence(&sequence_bytes(u32::MAX)), u32::MAX);
    assert_eq!(root_key_of(5), vec![b'r', 0, 0, 0, 5]);
    assert_eq!(leaves_key_of(258), vec![b'l', 0, 0, 1, 2]);
    let mut idx = vec![b'i'];
    idx.extend_from_slice(&leaf(7));
    assert_eq!(leaf_index_key_of(&leaf(7)), idx);
    assert_eq!(latest_key_of(), b"meta:latest".to_vec());
}

#[test]
fn latest_sequence_defaults_to_zero() {
    assert_eq!(latest_sequence(None), 0);
    assert_eq!(latest_sequence(Some(&[0, 0, 0, 9])), 9);
}

#[test]
fn leaves_round_trip_through_bytes() {
    let leaves = vec![leaf(1), leaf(2), leaf(3)];
    let bytes = flatten_leaves(&leaves);
    assert_eq!(bytes.len(), 96);
    assert_eq!(decode_leaves(&bytes), leaves);
    let mut longer = bytes.clone();
    longer.extend_from_slice(&[9, 9]);
    assert_eq!(decode_leaves(&longer), leaves);
    assert_eq!(decode_root(&longer[32..]), leaf(2));
}

#[test]
fn storing_a_tree() {
    let leaves = vec![leaf(1), leaf(2)];
    let (next, ops) = plan_insert(4, &leaf(9), &leaves);
    assert_eq!(next, 5);
    assert_eq!(ops.len(), 5);
    assert_eq!(put(&ops[0]), (root_key_of(5), leaf(9).to_vec()));
    assert_eq!(put(&ops[1]), (leaves_key_of(5), flatten_leaves(&leaves)));
    assert_eq!(put(&ops[2]), (leaf_index_key_of(&leaf(1)), vec![0, 0, 0, 5]));
    assert_eq!(put(&ops[3]), (leaf_index_key_of(&leaf(2)), vec![0, 0, 0, 5]));
    assert_eq!(put(&ops[4]), (latest_key_of(), vec![0, 0, 0, 5]));
}

#[test]
fn updating_leaves() {
    let leaves = vec![leaf(1), leaf(2), leaf(3)];
    let (updated, ops) = plan_leaf_updates(6, &leaves, &[(2, leaf(30)), (0, leaf(10))]).unwrap();
    assert_eq!(updated, vec![leaf(10), leaf(2), leaf(30)]);
    assert_eq!(ops.len(), 5);
    assert!(matches!(&ops[0], WriteOp::Delete(k) if *k == leaf_index_key_of(&leaf(3))));
    assert_eq!(put(&ops[1]), (leaf_index_key_of(&leaf(30)), vec![0, 0, 0, 6]));
    assert!(matches!(&ops[2], WriteOp::Delete(k) if *k == leaf_index_key_of(&leaf(1))));
    assert_eq!(put(&ops[4]), (leaves_key_of(6), flatten_leaves(&updated)));
    let err = plan_leaf_updates(6, &leaves, &[(0, leaf(10)), (3, leaf(40))]).unwrap_err();
    assert_eq!((err.sequence_number, err.index, err.len), (6, 3, 3));
}

#[test]
fn rows_that_are_not_leaves_are_skipped() {
    let rows = vec![vec![1u8; 32], vec![2u8; 31], vec![3u8; 32]];
    assert_eq!(leaves_from_rows(&rows), vec![leaf(1), leaf(3)]);
}

#[test]
fn batches_fill_up_and_flush_on_close() {
    let mut b = Batcher::new(&BatcherConfig { max_batch_size: 2, max_wait_time: 10 });
    assert_eq!(b.on_item(1), (true, None));
    assert_eq!(b.on_item(2), (false, Some(vec![1, 2])));
    assert_eq!(b.on_item(3), (true, None));
    assert_eq!(b.on_close(), Some(vec![3]));
    assert_eq!(b.on_close(), None);
}

#[test]
fn a_zero_batch_size_hands_on_every_request() {
    let mut b = Batcher::new(&BatcherConfig { max_batch_size: 0, max_wait_time: 10 });
    assert_eq!(b.on_item('a'), (true, Some(vec!['a'])));
    assert_eq!(b.on_item('b'), (true, Some(vec!['b'])));
    assert_eq!(b.on_close(), None);
}

#[test]
fn max_wait_duration_is_in_milliseconds() {
    let c = Config { max_batch_size: 8, max_wait_ms: 250, rpc_address: "127.0.0.1:50051".to_string() };
    assert_eq!(c.max_wait_duration(), std::time::Duration::from_millis(250));
}

#[test]
fn a_timeout_hands_on_the_waiting_requests() {
    let mut b = Batcher::new(&BatcherConfig { max_batch_size: 3, max_wait_time: 10 });
    assert_eq!(b.on_timeout(), None);
    assert_eq!(b.on_item(1u32), (true, None));
    assert_eq!(b.on_item(2u32), (false, None));
    assert_eq!(b.on_timeout(), Some(vec![1, 2]));
    assert_eq!(b.on_timeout(), None);
    assert_eq!(b.on_item(3u32), (true, None));
    assert_eq!(b.on_close(), Some(vec![3]));
}
