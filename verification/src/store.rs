//! The key-value layout in which the sequencer stores anchored trees, and
//! the writes that storing and updating a tree amounts to.
//!
//! Keys: `'r' || seq` holds a tree's root, `'l' || seq` its leaves (32 bytes
//! each, concatenated), `'i' || leaf` the sequence number of the tree that
//! holds `leaf`, and `meta:latest` the latest sequence number; sequence
//! numbers are 4 bytes, big-endian.
use vstd::prelude::*;
use crate::node::Node;
use crate::rpc::{node_of, lemma_node_of};

verus! {

/// The big-endian bytes of `x`.
pub open spec fn be_bytes(x: u32) -> Seq<u8> {
    seq![
        (x / 0x100_0000) as u8,
        ((x / 0x1_0000) % 0x100) as u8,
        ((x / 0x100) % 0x100) as u8,
        (x % 0x100) as u8,
    ]
}

/// The number whose big-endian bytes are the first four of `b`.
pub open spec fn from_be(b: Seq<u8>) -> u32 {
    (b[0] * 0x100_0000 + b[1] * 0x1_0000 + b[2] * 0x100 + b[3]) as u32
}

/// Reading back the bytes of a sequence number gives the number.
pub proof fn lemma_be_roundtrip(x: u32)
    ensures
        from_be(be_bytes(x)) == x,
        be_bytes(x).len() == 4,
{
    let b = be_bytes(x);
    assert(b[0] * 0x100_0000 + b[1] * 0x1_0000 + b[2] * 0x100 + b[3] == x) by (nonlinear_arith)
        requires
            b[0] == x / 0x100_0000,
            b[1] == (x / 0x1_0000) % 0x100,
            b[2] == (x / 0x100) % 0x100,
            b[3] == x % 0x100,
            0 <= x < 0x1_0000_0000,
    ;
}

pub open spec fn root_key(seq: u32) -> Seq<u8> {
    seq![0x72u8] + be_bytes(seq)
}

pub open spec fn leaves_key(seq: u32) -> Seq<u8> {
    seq![0x6cu8] + be_bytes(seq)
}

pub open spec fn leaf_index_key(leaf: Node) -> Seq<u8> {
    seq![0x69u8] + leaf@
}

/// `meta:latest`.
pub open spec fn latest_key() -> Seq<u8> {
    seq![0x6du8, 0x65u8, 0x74u8, 0x61u8, 0x3au8, 0x6cu8, 0x61u8, 0x74u8, 0x65u8, 0x73u8, 0x74u8]
}

/// The concatenation of the leaves' bytes.
pub open spec fn flatten(leaves: Seq<Node>) -> Seq<u8>
    decreases leaves.len(),
{
    if leaves.len() == 0 {
        seq![]
    } else {
        flatten(leaves.drop_last()) + leaves.last()@
    }
}

/// The 32-byte chunks of `bytes`, any shorter remainder dropped.
pub open spec fn chunks(bytes: Seq<u8>) -> Seq<Node> {
    Seq::new(bytes.len() / 32, |i: int| node_of(bytes.subrange(32 * i, 32 * i + 32)))
}

proof fn lemma_flatten(leaves: Seq<Node>)
    ensures
        flatten(leaves).len() == 32 * leaves.len(),
        forall|i: int|
            0 <= i < leaves.len() ==> flatten(leaves).subrange(32 * i, 32 * i + 32) == (#[trigger] leaves[i])@,
    decreases leaves.len(),
{
    if leaves.len() > 0 {
        let init = leaves.drop_last();
        lemma_flatten(init);
        let f = flatten(leaves);
        assert forall|i: int| 0 <= i < leaves.len() implies f.subrange(32 * i, 32 * i + 32) == (
        #[trigger] leaves[i])@ by {
            if i < init.len() {
                assert(f.subrange(32 * i, 32 * i + 32) =~= flatten(init).subrange(32 * i, 32 * i + 32));
                assert(init[i] == leaves[i]);
            } else {
                assert(f.subrange(32 * i, 32 * i + 32) =~= leaves.last()@);
            }
        }
    }
}

/// Reading stored leaves back gives the leaves that were stored.
pub proof fn lemma_chunks_flatten(leaves: Seq<Node>)
    ensures
        chunks(flatten(leaves)) == leaves,
{
    lemma_flatten(leaves);
    let c = chunks(flatten(leaves));
    assert forall|i: int| 0 <= i < leaves.len() implies c[i] == leaves[i] by {
        lemma_node_of(leaves[i]);
    }
    assert(c =~= leaves);
}

/// The big-endian bytes of a sequence number.
pub fn sequence_bytes(x: u32) -> (res: Vec<u8>)
    ensures
        res@ == be_bytes(x),
{
    let mut v: Vec<u8> = Vec::with_capacity(4);
    v.push((x / 0x100_0000) as u8);
    v.push(((x / 0x1_0000) % 0x100) as u8);
    v.push(((x / 0x100) % 0x100) as u8);
    v.push((x % 0x100) as u8);
    assert(v@ =~= be_bytes(x));
    v
}

/// The sequence number in the first four bytes of `bytes`, big-endian.
pub fn decode_sequence(bytes: &[u8]) -> (res: u32)
    requires
        bytes@.len() >= 4,
    ensures
        res == from_be(bytes@),
{
    let b0 = bytes[0] as u32;
    let b1 = bytes[1] as u32;
    let b2 = bytes[2] as u32;
    let b3 = bytes[3] as u32;
    b0 * 0x100_0000 + b1 * 0x1_0000 + b2 * 0x100 + b3
}

fn prefixed(tag: u8, bytes: &[u8]) -> (res: Vec<u8>)
    ensures
        res@ == seq![tag] + bytes@,
{
    let mut v: Vec<u8> = Vec::new();
    v.push(tag);
    let mut i: usize = 0;
    while i < bytes.len()
        invariant
            i <= bytes.len(),
            v@ == seq![tag] + bytes@.take(i as int),
        decreases bytes.len() - i,
    {
        v.push(bytes[i]);
        i = i + 1;
        assert(v@ =~= seq![tag] + bytes@.take(i as int));
    }
    assert(bytes@.take(bytes.len() as int) =~= bytes@);
    v
}

/// The key of a tree's root.
pub fn root_key_of(seq: u32) -> (res: Vec<u8>)
    ensures
        res@ == root_key(seq),
{
    let b = sequence_bytes(seq);
    prefixed(0x72u8, b.as_slice())
}

/// The key of a tree's leaves.
pub fn leaves_key_of(seq: u32) -> (res: Vec<u8>)
    ensures
        res@ == leaves_key(seq),
{
    let b = sequence_bytes(seq);
    prefixed(0x6cu8, b.as_slice())
}

/// The key under which the tree that holds `leaf` is found.
pub fn leaf_index_key_of(leaf: &Node) -> (res: Vec<u8>)
    ensures
        res@ == leaf_index_key(*leaf),
{
    prefixed(0x69u8, leaf.as_slice())
}

/// The key of the latest sequence number.
pub fn latest_key_of() -> (res: Vec<u8>)
    ensures
        res@ == latest_key(),
{
    let mut v: Vec<u8> = Vec::with_capacity(11);
    v.push(0x6du8);
    v.push(0x65u8);
    v.push(0x74u8);
    v.push(0x61u8);
    v.push(0x3au8);
    v.push(0x6cu8);
    v.push(0x61u8);
    v.push(0x74u8);
    v.push(0x65u8);
    v.push(0x73u8);
    v.push(0x74u8);
    assert(v@ =~= latest_key());
    v
}

/// The leaves' bytes, concatenated.
pub fn flatten_leaves(leaves: &[Node]) -> (res: Vec<u8>)
    ensures
        res@ == flatten(leaves@),
{
    let mut v: Vec<u8> = Vec::new();
    let mut i: usize = 0;
    while i < leaves.len()
        invariant
            i <= leaves.len(),
            v@ == flatten(leaves@.take(i as int)),
        decreases leaves.len() - i,
    {
        let ghost before = v@;
        let mut j: usize = 0;
        while j < 32
            invariant
                j <= 32,
                i < leaves.len(),
                v@ == before + leaves@[i as int]@.take(j as int),
            decreases 32 - j,
        {
            v.push(leaves[i][j]);
            j = j + 1;
            assert(v@ =~= before + leaves@[i as int]@.take(j as int));
        }
        assert(leaves@.take(i + 1).drop_last() =~= leaves@.take(i as int));
        assert(leaves@[i as int]@.take(32) =~= leaves@[i as int]@);
        i = i + 1;
    }
    assert(leaves@.take(leaves.len() as int) =~= leaves@);
    v
}

/// The 32-byte chunks of `bytes` as leaves; a shorter remainder is dropped.
pub fn decode_leaves(bytes: &[u8]) -> (res: Vec<Node>)
    ensures
        res@ == chunks(bytes@),
{
    let n = bytes.len() / 32;
    let mut out: Vec<Node> = Vec::with_capacity(n);
    let mut i: usize = 0;
    while i < n
        invariant
            n == bytes@.len() / 32,
            i <= n,
            out@ == chunks(bytes@).take(i as int),
        decreases n - i,
    {
        let mut leaf: Node = [0u8; 32];
        let mut j: usize = 0;
        assert(32 * i + 32 <= bytes@.len()) by (nonlinear_arith)
            requires
                i < n,
                n == bytes@.len() / 32,
        ;
        while j < 32
            invariant
                j <= 32,
                i < n,
                32 * i + 32 <= bytes@.len(),
                bytes@.len() == bytes.len(),
                n == bytes@.len() / 32,
                forall|k: int| 0 <= k < j ==> leaf@[k] == bytes@[32 * i + k],
            decreases 32 - j,
        {
            leaf[j] = bytes[32 * i + j];
            j = j + 1;
        }
        assert(leaf@ =~= bytes@.subrange(32 * i, 32 * i + 32));
        proof {
            lemma_node_of(leaf);
        }
        out.push(leaf);
        i = i + 1;
        assert(out@ =~= chunks(bytes@).take(i as int));
    }
    assert(chunks(bytes@).take(n as int) =~= chunks(bytes@));
    out
}

/// The first 32 bytes of `bytes` as a root.
pub fn decode_root(bytes: &[u8]) -> (res: Node)
    requires
        bytes@.len() >= 32,
    ensures
        res == node_of(bytes@.take(32)),
{
    let mut root: Node = [0u8; 32];
    let mut j: usize = 0;
    while j < 32
        invariant
            j <= 32,
            bytes@.len() >= 32,
            forall|k: int| 0 <= k < j ==> root@[k] == bytes@[k],
        decreases 32 - j,
    {
        root[j] = bytes[j];
        j = j + 1;
    }
    assert(root@ =~= bytes@.take(32));
    proof {
        lemma_node_of(root);
    }
    root
}

/// The latest sequence number from what is stored under `meta:latest`:
/// zero when nothing is.
pub fn latest_sequence(stored: Option<&[u8]>) -> (res: u32)
    requires
        stored matches Some(b) ==> b@.len() >= 4,
    ensures
        res == match stored {
            Some(b) => from_be(b@),
            None => 0u32,
        },
{
    match stored {
        Some(b) => decode_sequence(b),
        None => 0,
    }
}

/// A write to the key-value store.
#[derive(Clone, Debug)]
pub enum WriteOp {
    Put(Vec<u8>, Vec<u8>),
    Delete(Vec<u8>),
}

/// A write, on byte sequences.
pub enum StoreOp {
    Put(Seq<u8>, Seq<u8>),
    Delete(Seq<u8>),
}

pub open spec fn op_view(op: WriteOp) -> StoreOp {
    match op {
        WriteOp::Put(k, v) => StoreOp::Put(k@, v@),
        WriteOp::Delete(k) => StoreOp::Delete(k@),
    }
}

pub open spec fn ops_view(ops: Seq<WriteOp>) -> Seq<StoreOp> {
    ops.map_values(|op: WriteOp| op_view(op))
}

/// The store after the writes, in order.
pub open spec fn apply_ops(store: Map<Seq<u8>, Seq<u8>>, ops: Seq<StoreOp>) -> Map<Seq<u8>, Seq<u8>>
    decreases ops.len(),
{
    if ops.len() == 0 {
        store
    } else {
        let before = apply_ops(store, ops.drop_last());
        match ops.last() {
            StoreOp::Put(k, v) => before.insert(k, v),
            StoreOp::Delete(k) => before.remove(k),
        }
    }
}

pub open spec fn touches(op: StoreOp, key: Seq<u8>) -> bool {
    match op {
        StoreOp::Put(k, _) => k == key,
        StoreOp::Delete(k) => k == key,
    }
}

/// When some write puts `value` under `key` and every later write to `key`
/// puts the same value, the store ends up holding `value` under `key`.
pub proof fn lemma_last_put(store: Map<Seq<u8>, Seq<u8>>, ops: Seq<StoreOp>, p: int, key: Seq<u8>, value: Seq<u8>)
    requires
        0 <= p < ops.len(),
        ops[p] == StoreOp::Put(key, value),
        forall|q: int| p < q < ops.len() && touches(#[trigger] ops[q], key) ==> ops[q] == StoreOp::Put(key, value),
    ensures
        apply_ops(store, ops).contains_key(key),
        apply_ops(store, ops)[key] == value,
    decreases ops.len(),
{
    let init = ops.drop_last();
    if touches(ops.last(), key) {
        if p < ops.len() - 1 {
            assert(ops[ops.len() - 1] == StoreOp::Put(key, value));
        }
    } else {
        assert(p < ops.len() - 1);
        assert forall|q: int| p < q < init.len() && touches(#[trigger] init[q], key) implies init[q] == StoreOp::Put(
            key,
            value,
        ) by {
            assert(init[q] == ops[q]);
        }
        lemma_last_put(store, init, p, key, value);
    }
}

/// The writes that store a new tree under `next`: its root, its leaves, the
/// index entry of each leaf, and `next` as the latest sequence number.
pub open spec fn insert_ops(next: u32, root: Node, leaves: Seq<Node>) -> Seq<StoreOp> {
    seq![StoreOp::Put(root_key(next), root@), StoreOp::Put(leaves_key(next), flatten(leaves))]
        + leaves.map_values(|l: Node| StoreOp::Put(leaf_index_key(l), be_bytes(next)))
        + seq![StoreOp::Put(latest_key(), be_bytes(next))]
}

/// The sequence number of the next tree and the writes that store it; the
/// latest sequence number so far is `latest`.
pub fn plan_insert(latest: u32, root: &Node, leaves: &[Node]) -> (res: (u32, Vec<WriteOp>))
    requires
        latest < u32::MAX,
    ensures
        res.0 == latest + 1,
        ops_view(res.1@) == insert_ops(res.0, *root, leaves@),
{
    let next = latest + 1;
    let next_bytes = sequence_bytes(next);
    let mut ops: Vec<WriteOp> = Vec::new();
    ops.push(WriteOp::Put(root_key_of(next), copy_bytes(root.as_slice())));
    ops.push(WriteOp::Put(leaves_key_of(next), flatten_leaves(leaves)));
    let ghost head = seq![StoreOp::Put(root_key(next), root@), StoreOp::Put(leaves_key(next), flatten(leaves@))];
    let ghost index_ops = leaves@.map_values(|l: Node| StoreOp::Put(leaf_index_key(l), be_bytes(next)));
    assert(ops_view(ops@) =~= head);
    let mut i: usize = 0;
    while i < leaves.len()
        invariant
            i <= leaves.len(),
            next_bytes@ == be_bytes(next),
            index_ops == leaves@.map_values(|l: Node| StoreOp::Put(leaf_index_key(l), be_bytes(next))),
            ops_view(ops@) == head + index_ops.take(i as int),
        decreases leaves.len() - i,
    {
        let ghost before = ops@;
        ops.push(WriteOp::Put(leaf_index_key_of(&leaves[i]), copy_bytes(next_bytes.as_slice())));
        i = i + 1;
        assert(ops_view(ops@) =~= head + index_ops.take(i as int)) by {
            assert(ops@ == before.push(ops@.last()));
            assert(ops_view(ops@) =~= ops_view(before).push(op_view(ops@.last())));
        }
    }
    let ghost before = ops@;
    ops.push(WriteOp::Put(latest_key_of(), copy_bytes(next_bytes.as_slice())));
    assert(index_ops.take(leaves.len() as int) =~= index_ops);
    assert(ops_view(ops@) =~= ops_view(before).push(op_view(ops@.last())));
    assert(ops_view(ops@) =~= insert_ops(next, *root, leaves@));
    (next, ops)
}

fn copy_bytes(bytes: &[u8]) -> (res: Vec<u8>)
    ensures
        res@ == bytes@,
{
    crate::merkle::copy_slice(bytes)
}

proof fn lemma_key_tags(seq: u32, leaf: Node)
    ensures
        root_key(seq)[0] == 0x72u8,
        leaves_key(seq)[0] == 0x6cu8,
        leaf_index_key(leaf)[0] == 0x69u8,
        latest_key()[0] == 0x6du8,
{
}

/// After the writes that store a tree, reading the store gives back the
/// tree: its leaves, its root, the latest sequence number, and for each
/// leaf the sequence number of its tree.
pub proof fn lemma_insert_read_back(store: Map<Seq<u8>, Seq<u8>>, next: u32, root: Node, leaves: Seq<Node>)
    ensures
        ({
            let after = apply_ops(store, insert_ops(next, root, leaves));
            &&& chunks(after[leaves_key(next)]) == leaves
            &&& node_of(after[root_key(next)].take(32)) == root
            &&& from_be(after[latest_key()]) == next
            &&& forall|j: int| 0 <= j < leaves.len() ==> from_be(after[leaf_index_key(#[trigger] leaves[j])]) == next
        }),
{
    let ops = insert_ops(next, root, leaves);
    let n = leaves.len();
    assert(ops.len() == n + 3);
    lemma_be_roundtrip(next);
    assert(ops[ops.len() - 1] == StoreOp::Put(latest_key(), be_bytes(next)));
    lemma_last_put(store, ops, ops.len() - 1, latest_key(), be_bytes(next));
    assert forall|q: int| 1 < q < ops.len() && touches(#[trigger] ops[q], leaves_key(next)) implies ops[q]
        == StoreOp::Put(leaves_key(next), flatten(leaves)) by {
        if q < n + 2 {
            lemma_key_tags(next, leaves[q - 2]);
            assert(ops[q] == StoreOp::Put(leaf_index_key(leaves[q - 2]), be_bytes(next)));
        } else {
            lemma_key_tags(next, root);
        }
    }
    lemma_last_put(store, ops, 1, leaves_key(next), flatten(leaves));
    lemma_chunks_flatten(leaves);
    assert forall|q: int| 0 < q < ops.len() && touches(#[trigger] ops[q], root_key(next)) implies ops[q]
        == StoreOp::Put(root_key(next), root@) by {
        lemma_key_tags(next, root);
        if 1 < q < n + 2 {
            lemma_key_tags(next, leaves[q - 2]);
            assert(ops[q] == StoreOp::Put(leaf_index_key(leaves[q - 2]), be_bytes(next)));
        }
    }
    lemma_last_put(store, ops, 0, root_key(next), root@);
    assert(root@.take(32) =~= root@);
    lemma_node_of(root);
    assert forall|j: int| 0 <= j < leaves.len() implies from_be(
        apply_ops(store, ops)[leaf_index_key(#[trigger] leaves[j])],
    ) == next by {
        let key = leaf_index_key(leaves[j]);
        assert(ops[j + 2] == StoreOp::Put(key, be_bytes(next)));
        assert forall|q: int| j + 2 < q < ops.len() && touches(#[trigger] ops[q], key) implies ops[q]
            == StoreOp::Put(key, be_bytes(next)) by {
            if q < n + 2 {
                assert(ops[q] == StoreOp::Put(leaf_index_key(leaves[q - 2]), be_bytes(next)));
            } else {
                lemma_key_tags(next, leaves[j]);
            }
        }
        lemma_last_put(store, ops, j + 2, key, be_bytes(next));
    }
}

/// An index outside the stored leaves of a tree.
#[derive(Clone, Copy, PartialEq, Eq, Debug, Structural)]
pub struct LeafIndexError {
    pub sequence_number: u32,
    pub index: usize,
    pub len: usize,
}

/// The leaves and the index writes after the first `updates` of one tree,
/// each update replacing a leaf; an update whose index is outside the leaves
/// is an error.
pub open spec fn apply_leaf_updates(seq: u32, leaves: Seq<Node>, updates: Seq<(usize, Node)>) -> Result<
    (Seq<Node>, Seq<StoreOp>),
    LeafIndexError,
>
    decreases updates.len(),
{
    if updates.len() == 0 {
        Ok((leaves, seq![]))
    } else {
        match apply_leaf_updates(seq, leaves, updates.drop_last()) {
            Err(e) => Err(e),
            Ok((current, ops)) => {
                let (idx, new_leaf) = updates.last();
                if idx >= current.len() {
                    Err(LeafIndexError { sequence_number: seq, index: idx, len: current.len() as usize })
                } else {
                    let old_leaf = current[idx as int];
                    Ok(
                        (
                            current.update(idx as int, new_leaf),
                            ops + seq![
                                StoreOp::Delete(leaf_index_key(old_leaf)),
                                StoreOp::Put(leaf_index_key(new_leaf), be_bytes(seq)),
                            ],
                        ),
                    )
                }
            },
        }
    }
}

/// The updated leaves and the writes that store them: the index writes of
/// each update, then the leaves.
pub open spec fn leaf_update_ops(seq: u32, leaves: Seq<Node>, updates: Seq<(usize, Node)>) -> Result<
    (Seq<Node>, Seq<StoreOp>),
    LeafIndexError,
> {
    match apply_leaf_updates(seq, leaves, updates) {
        Err(e) => Err(e),
        Ok((current, ops)) => Ok((current, ops.push(StoreOp::Put(leaves_key(seq), flatten(current))))),
    }
}

proof fn lemma_leaf_updates_len(seq: u32, leaves: Seq<Node>, updates: Seq<(usize, Node)>)
    ensures
        apply_leaf_updates(seq, leaves, updates) matches Ok((current, _)) ==> current.len() == leaves.len(),
    decreases updates.len(),
{
    if updates.len() > 0 {
        lemma_leaf_updates_len(seq, leaves, updates.drop_last());
    }
}

proof fn lemma_leaf_updates_failed(seq: u32, leaves: Seq<Node>, updates: Seq<(usize, Node)>, i: int)
    requires
        0 <= i <= updates.len(),
        apply_leaf_updates(seq, leaves, updates.take(i)) is Err,
    ensures
        apply_leaf_updates(seq, leaves, updates) == apply_leaf_updates(seq, leaves, updates.take(i)),
    decreases updates.len() - i,
{
    if i < updates.len() {
        assert(updates.take(i + 1).drop_last() =~= updates.take(i));
        lemma_leaf_updates_failed(seq, leaves, updates, i + 1);
    } else {
        assert(updates.take(i) =~= updates);
    }
}

/// The leaves of tree `seq` after `updates`, and the writes that store them,
/// as `leaf_update_ops` defines them.
pub fn plan_leaf_updates(seq: u32, leaves: &[Node], updates: &[(usize, Node)]) -> (res: Result<
    (Vec<Node>, Vec<WriteOp>),
    LeafIndexError,
>)
    ensures
        match leaf_update_ops(seq, leaves@, updates@) {
            Ok((l, ops)) => res matches Ok((v, w)) && v@ == l && ops_view(w@) == ops,
            Err(e) => res matches Err(x) && x == e,
        },
{
    let ghost original = leaves@;
    let mut current = crate::merkle::copy_slice(leaves);
    let seq_bytes = sequence_bytes(seq);
    let mut ops: Vec<WriteOp> = Vec::new();
    let mut i: usize = 0;
    assert(ops_view(ops@) =~= Seq::<StoreOp>::empty());
    assert(updates@.take(0) =~= Seq::<(usize, Node)>::empty());
    while i < updates.len()
        invariant
            i <= updates.len(),
            original == leaves@,
            seq_bytes@ == be_bytes(seq),
            apply_leaf_updates(seq, original, updates@.take(i as int)) == Ok::<
                (Seq<Node>, Seq<StoreOp>),
                LeafIndexError,
            >((current@, ops_view(ops@))),
        decreases updates.len() - i,
    {
        assert(updates@.take(i + 1).drop_last() =~= updates@.take(i as int));
        assert(updates@.take(i + 1).last() == updates@[i as int]);
        let (idx, new_leaf) = updates[i];
        if idx >= current.len() {
            let err = LeafIndexError { sequence_number: seq, index: idx, len: current.len() };
            proof {
                lemma_leaf_updates_failed(seq, original, updates@, i + 1);
            }
            return Err(err);
        }
        let old_leaf = current[idx];
        let ghost before = ops@;
        ops.push(WriteOp::Delete(leaf_index_key_of(&old_leaf)));
        ops.push(WriteOp::Put(leaf_index_key_of(&new_leaf), copy_bytes(seq_bytes.as_slice())));
        current.set(idx, new_leaf);
        proof {
            assert(ops_view(ops@) =~= ops_view(before) + seq![
                StoreOp::Delete(leaf_index_key(old_leaf)),
                StoreOp::Put(leaf_index_key(new_leaf), be_bytes(seq)),
            ]);
        }
        i = i + 1;
    }
    assert(updates@.take(updates.len() as int) =~= updates@);
    let ghost before = ops@;
    let flat = flatten_leaves(current.as_slice());
    ops.push(WriteOp::Put(leaves_key_of(seq), flat));
    assert(ops_view(ops@) =~= ops_view(before).push(StoreOp::Put(leaves_key(seq), flatten(current@))));
    Ok((current, ops))
}

/// After the writes that update a tree's leaves, reading the tree's leaves
/// gives back the updated leaves.
pub proof fn lemma_leaf_update_read_back(
    store: Map<Seq<u8>, Seq<u8>>,
    seq: u32,
    leaves: Seq<Node>,
    updates: Seq<(usize, Node)>,
)
    requires
        leaf_update_ops(seq, leaves, updates) is Ok,
    ensures
        ({
            let (current, ops) = leaf_update_ops(seq, leaves, updates).unwrap();
            chunks(apply_ops(store, ops)[leaves_key(seq)]) == current
        }),
{
    let (current, ops) = leaf_update_ops(seq, leaves, updates).unwrap();
    lemma_last_put(store, ops, ops.len() - 1, leaves_key(seq), flatten(current));
    lemma_chunks_flatten(current);
}

/// The rows that hold exactly 32 bytes, as leaves; other rows are skipped.
pub open spec fn well_sized_rows(rows: Seq<Vec<u8>>) -> Seq<Node>
    decreases rows.len(),
{
    if rows.len() == 0 {
        seq![]
    } else if rows.last()@.len() == 32 {
        well_sized_rows(rows.drop_last()).push(node_of(rows.last()@))
    } else {
        well_sized_rows(rows.drop_last())
    }
}

/// The leaves among the stored rows: those that hold exactly 32 bytes.
pub fn leaves_from_rows(rows: &[Vec<u8>]) -> (res: Vec<Node>)
    ensures
        res@ == well_sized_rows(rows@),
{
    let mut out: Vec<Node> = Vec::new();
    let mut i: usize = 0;
    while i < rows.len()
        invariant
            i <= rows.len(),
            out@ == well_sized_rows(rows@.take(i as int)),
        decreases rows.len() - i,
    {
        assert(rows@.take(i + 1).drop_last() =~= rows@.take(i as int));
        assert(rows@.take(i + 1).last() == rows@[i as int]);
        match crate::rpc::node_from_bytes(rows[i].as_slice()) {
            Some(n) => out.push(n),
            None => {},
        }
        i = i + 1;
    }
    assert(rows@.take(rows.len() as int) =~= rows@);
    out
}

} // verus!
