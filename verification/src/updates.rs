//! Planning the leaf replacements of a batch of issuer updates for one
//! anchored tree.
use vstd::prelude::*;
use crate::node::{Node, NodeHasher, node_eq};
use crate::merkle::{MerkleTree, merkle_root, strictly_increasing, replaced_leaves, copy_slice};
use crate::rpc::{UpdatePayload, node_of, node_from_bytes};

verus! {

/// A replacement: the leaf index, the leaf there now, and its new value.
pub type Target = (usize, Node, Node);

/// The index of the last occurrence of `leaf` in `leaves`.
pub open spec fn last_index_of(leaves: Seq<Node>, leaf: Node) -> Option<int>
    decreases leaves.len(),
{
    if leaves.len() == 0 {
        None
    } else if leaves.last() == leaf {
        Some(leaves.len() - 1)
    } else {
        last_index_of(leaves.drop_last(), leaf)
    }
}

proof fn lemma_last_index_of(leaves: Seq<Node>, leaf: Node)
    ensures
        last_index_of(leaves, leaf) matches Some(i) ==> 0 <= i < leaves.len() && leaves[i] == leaf,
        last_index_of(leaves, leaf) is None ==> !leaves.contains(leaf),
    decreases leaves.len(),
{
    if leaves.len() > 0 {
        lemma_last_index_of(leaves.drop_last(), leaf);
        if last_index_of(leaves, leaf) is None && leaves.contains(leaf) {
            let k = choose|k: int| 0 <= k < leaves.len() && leaves[k] == leaf;
            assert(leaves.drop_last()[k] == leaf);
        }
    }
}

/// The index of the last occurrence of `leaf` in `leaves`.
pub fn find_last_index(leaves: &[Node], leaf: &Node) -> (res: Option<usize>)
    ensures
        match res {
            Some(i) => last_index_of(leaves@, *leaf) == Some(i as int),
            None => last_index_of(leaves@, *leaf) is None,
        },
{
    let mut j: usize = leaves.len();
    assert(leaves@.take(j as int) =~= leaves@);
    while j > 0
        invariant
            j <= leaves.len(),
            last_index_of(leaves@, *leaf) == last_index_of(leaves@.take(j as int), *leaf),
        decreases j,
    {
        let ghost prefix = leaves@.take(j as int);
        assert(prefix.drop_last() =~= leaves@.take(j - 1));
        j = j - 1;
        if node_eq(&leaves[j], leaf) {
            return Some(j);
        }
    }
    None
}

/// Why the updates of one anchored tree cannot be applied.
#[derive(Clone, Copy, PartialEq, Eq, Debug, Structural)]
pub enum UpdatePlanError {
    /// No leaves are stored under this sequence number.
    NoLeaves(u64),
    /// An update's old root is not 32 bytes long.
    OldRootLength(u64),
    /// An update's new root is not 32 bytes long.
    NewRootLength(u64),
    /// An update's old root is not a leaf of the tree.
    OldRootNotFound(u64),
    /// Two updates replace the same leaf.
    DuplicateTarget(u64),
}

/// The replacements that the updates for `seq` ask for, in the order of the
/// updates, or the error of the first update that cannot be placed. An old
/// root that occurs several times among the leaves names its last
/// occurrence.
pub open spec fn collect_targets(leaves: Seq<Node>, batch: Seq<UpdatePayload>, seq: u64) -> Result<
    Seq<Target>,
    UpdatePlanError,
>
    decreases batch.len(),
{
    if batch.len() == 0 {
        Ok(seq![])
    } else {
        match collect_targets(leaves, batch.drop_last(), seq) {
            Err(e) => Err(e),
            Ok(ts) => {
                let p = batch.last();
                if p.sequence_number != seq {
                    Ok(ts)
                } else if p.old_root@.len() != 32 {
                    Err(UpdatePlanError::OldRootLength(seq))
                } else if p.new_root@.len() != 32 {
                    Err(UpdatePlanError::NewRootLength(seq))
                } else {
                    match last_index_of(leaves, node_of(p.old_root@)) {
                        None => Err(UpdatePlanError::OldRootNotFound(seq)),
                        Some(i) => Ok(ts.push((i as usize, node_of(p.old_root@), node_of(p.new_root@)))),
                    }
                }
            },
        }
    }
}

pub open spec fn targets_placed(leaves: Seq<Node>, ts: Seq<Target>) -> bool {
    forall|k: int| 0 <= k < ts.len() ==> (#[trigger] ts[k]).0 < leaves.len() && leaves[ts[k].0 as int] == ts[k].1
}

pub open spec fn has_matching_update(batch: Seq<UpdatePayload>, seq: u64) -> bool {
    exists|k: int| 0 <= k < batch.len() && (#[trigger] batch[k]).sequence_number == seq
}

proof fn lemma_collect_targets(leaves: Seq<Node>, batch: Seq<UpdatePayload>, seq: u64)
    requires
        leaves.len() <= usize::MAX,
    ensures
        collect_targets(leaves, batch, seq) matches Ok(ts) ==> targets_placed(leaves, ts) && (
        has_matching_update(batch, seq) ==> ts.len() > 0),
    decreases batch.len(),
{
    if batch.len() > 0 {
        let init = batch.drop_last();
        lemma_collect_targets(leaves, init, seq);
        lemma_last_index_of(leaves, node_of(batch.last().old_root@));
        if let Ok(ts0) = collect_targets(leaves, init, seq) {
            let p = batch.last();
            if p.sequence_number == seq && p.old_root@.len() == 32 && p.new_root@.len() == 32 {
                if let Some(i) = last_index_of(leaves, node_of(p.old_root@)) {
                    let ts = ts0.push((i as usize, node_of(p.old_root@), node_of(p.new_root@)));
                    assert forall|k: int| 0 <= k < ts.len() implies (#[trigger] ts[k]).0 < leaves.len()
                        && leaves[ts[k].0 as int] == ts[k].1 by {
                        if k < ts0.len() {
                            assert(ts[k] == ts0[k]);
                        }
                    }
                }
            }
        }
        if has_matching_update(batch, seq) && !has_matching_update(init, seq) {
            let k = choose|k: int| 0 <= k < batch.len() && (#[trigger] batch[k]).sequence_number == seq;
            if k < init.len() {
                assert(init[k] == batch[k]);
            }
        }
    }
}

/// The updates of `batch` addressed to the tree anchored under `seq`.
pub open spec fn addressed_to(batch: Seq<UpdatePayload>, seq: u64) -> Seq<UpdatePayload> {
    batch.filter(|p: UpdatePayload| p.sequence_number == seq)
}

/// One target per update of `mine`, in order, each update addressed to
/// `seq`: a leaf holding the node of the update's 32-byte old root, that
/// node, and the node of its 32-byte new root.
pub open spec fn targets_from(leaves: Seq<Node>, mine: Seq<UpdatePayload>, seq: u64, ts: Seq<Target>) -> bool {
    &&& ts.len() == mine.len()
    &&& forall|k: int|
        0 <= k < ts.len() ==> {
            &&& mine[k].sequence_number == seq
            &&& mine[k].old_root@.len() == 32
            &&& mine[k].new_root@.len() == 32
            &&& (#[trigger] ts[k]).1 == node_of(mine[k].old_root@)
            &&& ts[k].2 == node_of(mine[k].new_root@)
            &&& ts[k].0 < leaves.len()
            &&& leaves[ts[k].0 as int] == ts[k].1
        }
}

/// Planning the tree anchored under `seq` depends only on the updates
/// addressed to it: the same targets, or the same error, come from those
/// updates alone; and when planning succeeds, the targets are one per update
/// addressed to the tree, in order, as `targets_from` says.
pub proof fn lemma_targets_come_from_updates_for_the_tree(leaves: Seq<Node>, batch: Seq<UpdatePayload>, seq: u64)
    ensures
        collect_targets(leaves, batch, seq) == collect_targets(leaves, addressed_to(batch, seq), seq),
        leaves.len() <= usize::MAX ==> (collect_targets(leaves, batch, seq) matches Ok(ts) ==> targets_from(
            leaves,
            addressed_to(batch, seq),
            seq,
            ts,
        )),
    decreases batch.len(),
{
    if batch.len() == 0 {
        assert(addressed_to(batch, seq) =~= batch) by {
            reveal(Seq::filter);
        }
    } else {
        let init = batch.drop_last();
        lemma_targets_come_from_updates_for_the_tree(leaves, init, seq);
        lemma_last_index_of(leaves, node_of(batch.last().old_root@));
        let mine_init = addressed_to(init, seq);
        assert(addressed_to(batch, seq) == if batch.last().sequence_number == seq {
            mine_init.push(batch.last())
        } else {
            mine_init
        }) by {
            reveal(Seq::filter);
        }
        if batch.last().sequence_number == seq {
            let mine = mine_init.push(batch.last());
            assert(mine.drop_last() =~= mine_init);
            if leaves.len() <= usize::MAX && collect_targets(leaves, batch, seq) is Ok {
                let ts = collect_targets(leaves, batch, seq)->Ok_0;
                let ts0 = collect_targets(leaves, init, seq)->Ok_0;
                assert(targets_from(leaves, mine_init, seq, ts0));
                let p = batch.last();
                let i = last_index_of(leaves, node_of(p.old_root@))->Some_0;
                assert(ts == ts0.push((i as usize, node_of(p.old_root@), node_of(p.new_root@))));
                assert forall|k: int| 0 <= k < ts.len() implies {
                    &&& mine[k].sequence_number == seq
                    &&& mine[k].old_root@.len() == 32
                    &&& mine[k].new_root@.len() == 32
                    &&& (#[trigger] ts[k]).1 == node_of(mine[k].old_root@)
                    &&& ts[k].2 == node_of(mine[k].new_root@)
                    &&& ts[k].0 < leaves.len()
                    &&& leaves[ts[k].0 as int] == ts[k].1
                } by {
                    if k < ts0.len() {
                        assert(ts[k] == ts0[k]);
                        assert(mine[k] == mine_init[k]);
                    }
                }
                assert(ts.len() == mine.len());
                assert(targets_from(leaves, mine, seq, ts));
            }
        } else {
            assert(collect_targets(leaves, batch, seq) == collect_targets(leaves, init, seq));
        }
    }
}

proof fn lemma_collect_failed(leaves: Seq<Node>, batch: Seq<UpdatePayload>, seq: u64, i: int)
    requires
        0 <= i <= batch.len(),
        collect_targets(leaves, batch.take(i), seq) is Err,
    ensures
        collect_targets(leaves, batch, seq) == collect_targets(leaves, batch.take(i), seq),
    decreases batch.len() - i,
{
    if i < batch.len() {
        assert(batch.take(i + 1).drop_last() =~= batch.take(i));
        lemma_collect_failed(leaves, batch, seq, i + 1);
    } else {
        assert(batch.take(i) =~= batch);
    }
}

/// The replacements asked for by the updates for `seq`, as
/// `collect_targets` defines them.
pub fn collect_update_targets(leaves: &[Node], batch: &[UpdatePayload], seq: u64) -> (res: Result<
    Vec<Target>,
    UpdatePlanError,
>)
    ensures
        match collect_targets(leaves@, batch@, seq) {
            Ok(ts) => res matches Ok(v) && v@ == ts,
            Err(e) => res == Err::<Vec<Target>, UpdatePlanError>(e),
        },
{
    let mut ts: Vec<Target> = Vec::new();
    let mut i: usize = 0;
    while i < batch.len()
        invariant
            i <= batch.len(),
            collect_targets(leaves@, batch@.take(i as int), seq) == Ok::<Seq<Target>, UpdatePlanError>(ts@),
        decreases batch.len() - i,
    {
        assert(batch@.take(i + 1).drop_last() =~= batch@.take(i as int));
        assert(batch@.take(i + 1).last() == batch@[i as int]);
        let p = &batch[i];
        if p.sequence_number == seq {
            let old_leaf = match node_from_bytes(p.old_root.as_slice()) {
                Some(n) => n,
                None => {
                    proof {
                        lemma_collect_failed(leaves@, batch@, seq, i + 1);
                    }
                    return Err(UpdatePlanError::OldRootLength(seq));
                },
            };
            let new_leaf = match node_from_bytes(p.new_root.as_slice()) {
                Some(n) => n,
                None => {
                    proof {
                        lemma_collect_failed(leaves@, batch@, seq, i + 1);
                    }
                    return Err(UpdatePlanError::NewRootLength(seq));
                },
            };
            match find_last_index(leaves, &old_leaf) {
                Some(idx) => {
                    ts.push((idx, old_leaf, new_leaf));
                },
                None => {
                    proof {
                        lemma_collect_failed(leaves@, batch@, seq, i + 1);
                    }
                    return Err(UpdatePlanError::OldRootNotFound(seq));
                },
            }
        }
        i = i + 1;
    }
    assert(batch@.take(batch.len() as int) =~= batch@);
    Ok(ts)
}

pub open spec fn has_duplicate_index(ts: Seq<Target>) -> bool {
    exists|a: int, b: int| 0 <= a < b < ts.len() && ts[a].0 == ts[b].0
}

/// `out` holds the replacements of `ts`, ordered by strictly increasing
/// index.
pub open spec fn sorted_arrangement(out: Seq<Target>, ts: Seq<Target>) -> bool {
    &&& out.len() == ts.len()
    &&& forall|a: int, b: int| 0 <= a < b < out.len() ==> out[a].0 < out[b].0
    &&& forall|k: int| 0 <= k < ts.len() ==> out.contains(#[trigger] ts[k])
    &&& forall|m: int| 0 <= m < out.len() ==> ts.contains(#[trigger] out[m])
}

/// The replacements ordered by index, or `None` when two of them replace
/// the same leaf.
pub fn sort_targets(ts: &Vec<Target>) -> (res: Option<Vec<Target>>)
    ensures
        res is None == has_duplicate_index(ts@),
        res matches Some(out) ==> sorted_arrangement(out@, ts@),
{
    let mut out: Vec<Target> = Vec::new();
    let mut i: usize = 0;
    while i < ts.len()
        invariant
            i <= ts.len(),
            out.len() == i,
            forall|a: int, b: int| 0 <= a < b < out.len() ==> out@[a].0 < out@[b].0,
            forall|k: int| 0 <= k < i ==> out@.contains(#[trigger] ts@[k]),
            forall|m: int| 0 <= m < out.len() ==> ts@.take(i as int).contains(#[trigger] out@[m]),
            !has_duplicate_index(ts@.take(i as int)),
        decreases ts.len() - i,
    {
        let x = ts[i];
        let mut p: usize = 0;
        while p < out.len() && out[p].0 < x.0
            invariant
                p <= out.len(),
                forall|a: int| 0 <= a < p ==> out@[a].0 < x.0,
            decreases out.len() - p,
        {
            p = p + 1;
        }
        if p < out.len() && out[p].0 == x.0 {
            proof {
                let m = p as int;
                assert(ts@.take(i as int).contains(out@[m]));
                let a = choose|a: int| 0 <= a < i && ts@.take(i as int)[a] == out@[m];
                assert(ts@[a].0 == ts@[i as int].0);
                assert(has_duplicate_index(ts@));
            }
            return None;
        }
        let ghost before = out@;
        out.insert(p, x);
        proof {
            let prev = ts@.take(i as int);
            let next = ts@.take(i + 1);
            assert(next =~= prev.push(x));
            assert forall|a: int| 0 <= a < before.len() implies before[a].0 != x.0 by {
                if a >= p {
                    if a > p {
                        assert(before[p as int].0 < before[a].0);
                    }
                }
            }
            assert(!has_duplicate_index(next)) by {
                if has_duplicate_index(next) {
                    let (a, b) = choose|a: int, b: int| 0 <= a < b < next.len() && next[a].0 == next[b].0;
                    if b < i {
                        assert(prev[a].0 == prev[b].0);
                    } else {
                        assert(before.contains(prev[a]));
                        let m = choose|m: int| 0 <= m < before.len() && before[m] == prev[a];
                        assert(before[m].0 != x.0);
                    }
                }
            }
            assert forall|m: int| 0 <= m < out.len() implies next.contains(#[trigger] out@[m]) by {
                if m < p {
                    assert(out@[m] == before[m]);
                    assert(prev.contains(before[m]));
                    let a = choose|a: int| 0 <= a < prev.len() && prev[a] == before[m];
                    assert(next[a] == before[m]);
                } else if m == p {
                    assert(next[i as int] == x);
                } else {
                    assert(out@[m] == before[m - 1]);
                    assert(prev.contains(before[m - 1]));
                    let a = choose|a: int| 0 <= a < prev.len() && prev[a] == before[m - 1];
                    assert(next[a] == before[m - 1]);
                }
            }
            assert forall|k: int| 0 <= k < i + 1 implies out@.contains(#[trigger] ts@[k]) by {
                if k < i {
                    assert(before.contains(ts@[k]));
                    let m = choose|m: int| 0 <= m < before.len() && before[m] == ts@[k];
                    if m < p {
                        assert(out@[m] == before[m]);
                    } else {
                        assert(out@[m + 1] == before[m]);
                    }
                } else {
                    assert(out@[p as int] == x);
                }
            }
            assert forall|a: int, b: int| 0 <= a < b < out.len() implies out@[a].0 < out@[b].0 by {
                if b < p {
                    assert(out@[a] == before[a] && out@[b] == before[b]);
                } else if b == p {
                    assert(out@[a] == before[a]);
                } else if a < p {
                    assert(out@[a] == before[a] && out@[b] == before[b - 1]);
                    if p < before.len() {
                        assert(before[p as int].0 >= x.0);
                        assert(before[p as int].0 != x.0);
                        if b - 1 > p {
                            assert(before[p as int].0 < before[b - 1].0);
                        }
                    }
                } else if a == p {
                    assert(out@[b] == before[b - 1]);
                    assert(before[p as int].0 >= x.0);
                    assert(before[p as int].0 != x.0);
                    if b - 1 > p {
                        assert(before[p as int].0 < before[b - 1].0);
                    }
                } else {
                    assert(out@[a] == before[a - 1] && out@[b] == before[b - 1]);
                }
            }
        }
        i = i + 1;
    }
    assert(ts@.take(ts.len() as int) =~= ts@);
    Some(out)
}

/// The replacements of one anchored tree, ordered by leaf index, with the
/// tree's root before and after.
pub struct SequenceUpdate {
    pub sequence_number: u64,
    pub indices: Vec<usize>,
    pub old_leaves: Vec<Node>,
    pub new_leaves: Vec<Node>,
    pub old_root: Node,
    pub new_root: Node,
}

pub open spec fn update_targets(u: SequenceUpdate) -> Seq<Target> {
    Seq::new(u.indices@.len(), |i: int| (u.indices@[i], u.old_leaves@[i], u.new_leaves@[i]))
}

fn split_targets(ts: &Vec<Target>) -> (res: (Vec<usize>, Vec<Node>, Vec<Node>))
    ensures
        res.0@.len() == ts@.len(),
        res.1@.len() == ts@.len(),
        res.2@.len() == ts@.len(),
        forall|i: int| 0 <= i < ts@.len() ==> (res.0@[i], res.1@[i], res.2@[i]) == #[trigger] ts@[i],
{
    let mut indices: Vec<usize> = Vec::with_capacity(ts.len());
    let mut olds: Vec<Node> = Vec::with_capacity(ts.len());
    let mut news: Vec<Node> = Vec::with_capacity(ts.len());
    let mut i: usize = 0;
    while i < ts.len()
        invariant
            i <= ts.len(),
            indices@.len() == i,
            olds@.len() == i,
            news@.len() == i,
            forall|j: int| 0 <= j < i ==> (indices@[j], olds@[j], news@[j]) == #[trigger] ts@[j],
        decreases ts.len() - i,
    {
        let t = ts[i];
        indices.push(t.0);
        olds.push(t.1);
        news.push(t.2);
        i = i + 1;
    }
    (indices, olds, news)
}

/// Plans the updates for the tree anchored under `seq`, given the leaves
/// stored there: the replacements the updates ask for, ordered by leaf
/// index, and the tree's root before and after the new leaves replace the
/// old ones.
pub fn plan_sequence_update(seq: u64, leaves: Option<&[Node]>, batch: &[UpdatePayload]) -> (res: Result<
    SequenceUpdate,
    UpdatePlanError,
>)
    requires
        has_matching_update(batch@, seq),
        leaves matches Some(l) ==> l@.len() <= usize::MAX / 2,
    ensures
        leaves is None ==> res == Err::<SequenceUpdate, UpdatePlanError>(UpdatePlanError::NoLeaves(seq)),
        leaves matches Some(l) ==> match collect_targets(l@, batch@, seq) {
            Err(e) => res == Err::<SequenceUpdate, UpdatePlanError>(e),
            Ok(ts) => if has_duplicate_index(ts) {
                res == Err::<SequenceUpdate, UpdatePlanError>(UpdatePlanError::DuplicateTarget(seq))
            } else {
                res matches Ok(u) && {
                    &&& u.sequence_number == seq
                    &&& u.indices@.len() == u.old_leaves@.len() == u.new_leaves@.len()
                    &&& sorted_arrangement(update_targets(u), ts)
                    &&& u.old_root == merkle_root(NodeHasher::Sha256, l@)
                    &&& u.new_root == merkle_root(
                        NodeHasher::Sha256,
                        replaced_leaves(l@, u.indices@, u.new_leaves@),
                    )
                }
            },
        },
{
    let leaves = match leaves {
        Some(l) => l,
        None => return Err(UpdatePlanError::NoLeaves(seq)),
    };
    let ts = match collect_update_targets(leaves, batch, seq) {
        Ok(ts) => ts,
        Err(e) => return Err(e),
    };
    proof {
        lemma_collect_targets(leaves@, batch@, seq);
    }
    let sorted = match sort_targets(&ts) {
        Some(s) => s,
        None => return Err(UpdatePlanError::DuplicateTarget(seq)),
    };
    let (indices, olds, news) = split_targets(&sorted);
    proof {
        assert(ts@.contains(sorted@[0]));
        assert forall|m: int| 0 <= m < sorted@.len() implies (#[trigger] sorted@[m]).0 < leaves@.len()
            && leaves@[sorted@[m].0 as int] == sorted@[m].1 by {
            assert(ts@.contains(sorted@[m]));
            let k = choose|k: int| 0 <= k < ts@.len() && ts@[k] == sorted@[m];
            assert(ts@[k].0 < leaves@.len());
        }
        assert(sorted@[0] == (indices@[0], olds@[0], news@[0]));
        assert(strictly_increasing(indices@)) by {
            assert forall|a: int, b: int| 0 <= a < b < indices@.len() implies indices@[a] < indices@[b] by {
                assert(sorted@[a] == (indices@[a], olds@[a], news@[a]));
                assert(sorted@[b] == (indices@[b], olds@[b], news@[b]));
            }
        }
    }
    let tree = MerkleTree::new(copy_slice(leaves));
    let (old_root, new_root, _height, _proof, _flags) = tree.build_multi_proof(indices.as_slice(), news.as_slice());
    let u = SequenceUpdate { sequence_number: seq, indices, old_leaves: olds, new_leaves: news, old_root, new_root };
    proof {
        let t = u.indices@;
        let v = u.old_leaves@;
        assert(update_targets(u) =~= sorted@) by {
            assert forall|i: int| 0 <= i < sorted@.len() implies update_targets(u)[i] == sorted@[i] by {
                assert(sorted@[i] == (t[i], v[i], u.new_leaves@[i]));
            }
        }
    }
    Ok(u)
}

/// The position in `fetched` of the leaves stored under `seq`: the last
/// entry for it.
pub fn leaves_for_sequence(fetched: &[(u64, Vec<Node>)], seq: u64) -> (res: Option<usize>)
    ensures
        res matches Some(i) ==> i < fetched@.len() && fetched@[i as int].0 == seq && forall|j: int|
            i < j < fetched@.len() ==> fetched@[j].0 != seq,
        res is None ==> forall|j: int| 0 <= j < fetched@.len() ==> fetched@[j].0 != seq,
{
    let mut j: usize = fetched.len();
    while j > 0
        invariant
            j <= fetched.len(),
            forall|k: int| j <= k < fetched@.len() ==> fetched@[k].0 != seq,
        decreases j,
    {
        j = j - 1;
        if fetched[j].0 == seq {
            return Some(j);
        }
    }
    None
}

} // verus!
