//! Laws of multi-proofs: a proof built for a tree verifies its target leaves
//! against the tree's root, the same proof verifies replaced values against
//! the root of the tree after the replacement, and a verification that is
//! asked for a layer collects that layer's nodes on the proof's paths.
use vstd::prelude::*;
use vstd::arithmetic::power2::{pow2, lemma_pow2_unfold, lemma2_to64, lemma_pow2_pos, lemma_pow2_strictly_increases};
use crate::node::{Node, NodeHasher, node_hash, lemma_node_hash_symmetric};
use crate::merkle::{lemma_width_bounds, VerifyState, next_operand, second_operand, verify_step, verify_run, initial_verify_state, level_up, scan_pairs, multi_proof, reduce, strictly_increasing, verify_outcome, merkle_root, pad, tree_width, replaced_leaves, apply_replacements, tree_height};

verus! {

/// The nodes of `layer` at `targets`, in order.
pub open spec fn values_at(layer: Seq<Node>, targets: Seq<usize>) -> Seq<Node> {
    targets.map_values(|t: usize| layer[t as int])
}

/// `lower` and `layer` hold the same node at every position that is not a
/// target.
pub open spec fn agree_off_targets(lower: Seq<Node>, layer: Seq<Node>, targets: Seq<usize>) -> bool {
    forall|k: int| 0 <= k < layer.len() && !holds_index(targets, k) ==> #[trigger] lower[k] == layer[k]
}

/// `k` is one of the indices in `s`.
pub open spec fn holds_index(s: Seq<usize>, k: int) -> bool {
    exists|a: int| 0 <= a < s.len() && s[a] == k
}

/// The operand queue of a verification: the target leaves followed by the
/// hashes computed so far.
pub open spec fn queue(leaves: Seq<Node>, st: VerifyState) -> Seq<Node> {
    leaves + st.hashes.map_values(|h: (Node, u32)| h.0)
}

/// The level of each operand in the queue: zero for the target leaves, then
/// the level of each hash computed so far.
pub open spec fn queue_levels(leaves: Seq<Node>, st: VerifyState) -> Seq<u32> {
    Seq::new(leaves.len(), |i: int| 0u32) + st.hashes.map_values(|h: (Node, u32)| h.1)
}

pub open spec fn cursor(st: VerifyState) -> int {
    st.leaf_pos + st.hash_pos
}

pub open spec fn state_wf(leaves: Seq<Node>, st: VerifyState) -> bool {
    &&& 0 <= st.leaf_pos <= leaves.len()
    &&& 0 <= st.hash_pos <= st.hashes.len()
    &&& st.hash_pos > 0 ==> st.leaf_pos == leaves.len()
    &&& 0 <= st.proof_pos
}

/// Verification steps for `flags`, from state `st` on.
pub open spec fn run_from(
    hasher: NodeHasher,
    leaves: Seq<Node>,
    proof: Seq<Node>,
    tl: Option<u32>,
    st: Option<VerifyState>,
    flags: Seq<bool>,
) -> Option<VerifyState>
    decreases flags.len(),
{
    if flags.len() == 0 {
        st
    } else {
        match st {
            None => None,
            Some(s) => run_from(
                hasher,
                leaves,
                proof,
                tl,
                verify_step(hasher, leaves, proof, tl, s, flags[0]),
                flags.drop_first(),
            ),
        }
    }
}

proof fn lemma_run_from_push(
    hasher: NodeHasher,
    leaves: Seq<Node>,
    proof: Seq<Node>,
    tl: Option<u32>,
    st: Option<VerifyState>,
    flags: Seq<bool>,
    x: bool,
)
    ensures
        run_from(hasher, leaves, proof, tl, st, flags.push(x)) == match run_from(
            hasher,
            leaves,
            proof,
            tl,
            st,
            flags,
        ) {
            None => None,
            Some(s) => verify_step(hasher, leaves, proof, tl, s, x),
        },
    decreases flags.len(),
{
    if flags.len() == 0 {
        assert(flags.push(x).drop_first() =~= Seq::<bool>::empty());
        assert(flags.push(x)[0] == x);
        match st {
            None => {},
            Some(s) => {
                let next = verify_step(hasher, leaves, proof, tl, s, x);
                assert(run_from(hasher, leaves, proof, tl, next, Seq::<bool>::empty()) == next);
            },
        }
    } else {
        match st {
            None => {},
            Some(s) => {
                assert(flags.push(x)[0] == flags[0]);
                assert(flags.push(x).drop_first() =~= flags.drop_first().push(x));
                lemma_run_from_push(
                    hasher,
                    leaves,
                    proof,
                    tl,
                    verify_step(hasher, leaves, proof, tl, s, flags[0]),
                    flags.drop_first(),
                    x,
                );
            },
        }
    }
}

proof fn lemma_verify_run_is_run_from(
    hasher: NodeHasher,
    leaves: Seq<Node>,
    proof: Seq<Node>,
    tl: Option<u32>,
    flags: Seq<bool>,
)
    ensures
        verify_run(hasher, leaves, proof, flags, tl) == run_from(
            hasher,
            leaves,
            proof,
            tl,
            Some(initial_verify_state()),
            flags,
        ),
    decreases flags.len(),
{
    if flags.len() > 0 {
        lemma_verify_run_is_run_from(hasher, leaves, proof, tl, flags.drop_last());
        lemma_run_from_push(
            hasher,
            leaves,
            proof,
            tl,
            Some(initial_verify_state()),
            flags.drop_last(),
            flags.last(),
        );
        assert(flags.drop_last().push(flags.last()) =~= flags);
    }
}

proof fn lemma_run_from_none(
    hasher: NodeHasher,
    leaves: Seq<Node>,
    proof: Seq<Node>,
    tl: Option<u32>,
    flags: Seq<bool>,
)
    ensures
        run_from(hasher, leaves, proof, tl, None, flags) is None,
{
}

proof fn lemma_run_from_append(
    hasher: NodeHasher,
    leaves: Seq<Node>,
    proof: Seq<Node>,
    tl: Option<u32>,
    st: Option<VerifyState>,
    f1: Seq<bool>,
    f2: Seq<bool>,
)
    ensures
        run_from(hasher, leaves, proof, tl, st, f1 + f2) == run_from(
            hasher,
            leaves,
            proof,
            tl,
            run_from(hasher, leaves, proof, tl, st, f1),
            f2,
        ),
    decreases f1.len(),
{
    if f1.len() == 0 {
        assert(f1 + f2 =~= f2);
    } else {
        match st {
            None => {
                lemma_run_from_none(hasher, leaves, proof, tl, f2);
            },
            Some(s) => {
                assert((f1 + f2).drop_first() =~= f1.drop_first() + f2);
                assert((f1 + f2)[0] == f1[0]);
                lemma_run_from_append(
                    hasher,
                    leaves,
                    proof,
                    tl,
                    verify_step(hasher, leaves, proof, tl, s, f1[0]),
                    f1.drop_first(),
                    f2,
                );
            },
        }
    }
}

proof fn lemma_next_operand(leaves: Seq<Node>, st: VerifyState)
    requires
        state_wf(leaves, st),
    ensures
        (next_operand(leaves, st) is Some) == (cursor(st) < queue(leaves, st).len()),
        next_operand(leaves, st) matches Some((a, s1)) ==> {
            &&& a.0 == queue(leaves, st)[cursor(st)]
            &&& a.1 == queue_levels(leaves, st)[cursor(st)]
            &&& state_wf(leaves, s1)
            &&& cursor(s1) == cursor(st) + 1
            &&& s1.hashes == st.hashes
            &&& s1.proof_pos == st.proof_pos
            &&& s1.layer == st.layer
        },
{
    let q = queue(leaves, st);
    assert(q.len() == leaves.len() + st.hashes.len());
    let lv = queue_levels(leaves, st);
    if st.leaf_pos < leaves.len() {
        assert(q[cursor(st)] == leaves[st.leaf_pos]);
        assert(lv[cursor(st)] == 0);
    } else if st.hash_pos < st.hashes.len() {
        assert(q[cursor(st)] == st.hashes[st.hash_pos].0);
        assert(lv[cursor(st)] == st.hashes[st.hash_pos].1);
    }
}

proof fn lemma_queue_push(leaves: Seq<Node>, st: VerifyState, h: (Node, u32))
    ensures
        queue(leaves, VerifyState { hashes: st.hashes.push(h), ..st }) == queue(leaves, st).push(h.0),
        queue_levels(leaves, VerifyState { hashes: st.hashes.push(h), ..st }) == queue_levels(
            leaves,
            st,
        ).push(h.1),
        queue_levels(leaves, st).len() == queue(leaves, st).len(),
{
    assert(st.hashes.push(h).map_values(|x: (Node, u32)| x.1) =~= st.hashes.map_values(
        |x: (Node, u32)| x.1,
    ).push(h.1));
    assert(queue_levels(leaves, VerifyState { hashes: st.hashes.push(h), ..st }) =~= queue_levels(
        leaves,
        st,
    ).push(h.1));
    assert(st.hashes.push(h).map_values(|x: (Node, u32)| x.0) =~= st.hashes.map_values(
        |x: (Node, u32)| x.0,
    ).push(h.0));
    assert(queue(leaves, VerifyState { hashes: st.hashes.push(h), ..st }) =~= queue(leaves, st).push(
        h.0,
    ));
}

pub open spec fn scan_preconditions(layer_len: int, targets: Seq<usize>, i: int, tp: int) -> bool {
    &&& layer_len % 2 == 0
    &&& 0 <= i <= layer_len
    &&& i % 2 == 0
    &&& 0 <= tp <= targets.len()
    &&& strictly_increasing(targets)
    &&& forall|j: int| 0 <= j < targets.len() ==> #[trigger] targets[j] < layer_len
    &&& forall|j: int| tp <= j < targets.len() ==> #[trigger] targets[j] >= i
    &&& forall|j: int| 0 <= j < tp ==> #[trigger] targets[j] < i
}

proof fn lemma_scan_targets(layer: Seq<Node>, targets: Seq<usize>, i: int, tp: int)
    requires
        scan_preconditions(layer.len() as int, targets, i, tp),
    ensures
        ({
            let n = scan_pairs(layer, targets, i, tp).2;
            &&& forall|a: int| 0 <= a < n.len() ==> i / 2 <= #[trigger] n[a] < layer.len() / 2
            &&& strictly_increasing(n)
            &&& (tp < targets.len() ==> n.len() > 0)
            &&& forall|j: int| tp <= j < targets.len() ==> holds_index(n, (#[trigger] targets[j] / 2) as int)
            &&& scan_pairs(layer, targets, i, tp).1.len() == n.len()
        }),
    decreases layer.len() - i,
{
    if i + 2 > layer.len() {
        if tp < targets.len() {
            assert(targets[tp] >= i);
            assert(targets[tp] < layer.len());
        }
    } else {
        let left_target = 0 <= tp < targets.len() && targets[tp] == i;
        let tp1 = if left_target { tp + 1 } else { tp };
        let right_target = 0 <= tp1 < targets.len() && targets[tp1] == i + 1;
        let tp2 = if right_target { tp1 + 1 } else { tp1 };
        assert forall|j: int| tp2 <= j < targets.len() implies #[trigger] targets[j] >= i + 2 by {
            assert(targets[j] >= i);
            if j > tp {
                assert(targets[tp] < targets[j]);
            }
            if tp1 < j {
                assert(targets[tp1] < targets[j]);
            }
        }
        assert forall|j: int| 0 <= j < tp2 implies #[trigger] targets[j] < i + 2 by {
            if j >= tp {
                if j == tp {
                } else {
                    assert(j == tp1);
                }
            }
        }
        lemma_scan_targets(layer, targets, i + 2, tp2);
        let rest = scan_pairs(layer, targets, i + 2, tp2).2;
        let n = scan_pairs(layer, targets, i, tp).2;
        if left_target || right_target {
            assert(n == seq![(i / 2) as usize] + rest);
            assert forall|j: int| tp <= j < targets.len() implies holds_index(
                n,
                (#[trigger] targets[j] / 2) as int,
            ) by {
                if j < tp2 {
                    assert(n[0] == targets[j] / 2);
                } else {
                    assert(holds_index(rest, (targets[j] / 2) as int));
                    let a = choose|a: int| 0 <= a < rest.len() && rest[a] == targets[j] / 2;
                    assert(n[a + 1] == rest[a]);
                }
            }
        } else {
            assert(n == rest);
            assert(tp2 == tp);
        }
    }
}

proof fn lemma_step_pair(leaves: Seq<Node>, proof: Seq<Node>, hasher: NodeHasher, tl: Option<u32>, st: VerifyState)
    requires
        state_wf(leaves, st),
        cursor(st) + 1 < queue(leaves, st).len(),
    ensures
        verify_step(hasher, leaves, proof, tl, st, true) matches Some(s2) && {
            &&& state_wf(leaves, s2)
            &&& queue(leaves, s2) == queue(leaves, st).push(
                node_hash(hasher, queue(leaves, st)[cursor(st)], queue(leaves, st)[cursor(st) + 1]),
            )
            &&& cursor(s2) == cursor(st) + 2
            &&& s2.proof_pos == st.proof_pos
            &&& queue_levels(leaves, s2) == queue_levels(leaves, st).push(
                (queue_levels(leaves, st)[cursor(st)] + 1) as u32,
            )
            &&& s2.layer == if tl == Some(queue_levels(leaves, st)[cursor(st)]) {
                st.layer.push(queue(leaves, st)[cursor(st)]).push(queue(leaves, st)[cursor(st) + 1])
            } else {
                st.layer
            }
        },
{
    lemma_next_operand(leaves, st);
    let (a, s1) = next_operand(leaves, st).unwrap();
    lemma_next_operand(leaves, s1);
    let (b, s2) = next_operand(leaves, s1).unwrap();
    let h = (node_hash(hasher, a.0, b.0), (a.1 + 1) as u32);
    lemma_queue_push(leaves, s2, h);
}

proof fn lemma_step_with_proof(leaves: Seq<Node>, proof: Seq<Node>, hasher: NodeHasher, tl: Option<u32>, st: VerifyState)
    requires
        state_wf(leaves, st),
        cursor(st) < queue(leaves, st).len(),
        st.proof_pos < proof.len(),
    ensures
        verify_step(hasher, leaves, proof, tl, st, false) matches Some(s2) && {
            &&& state_wf(leaves, s2)
            &&& queue(leaves, s2) == queue(leaves, st).push(
                node_hash(hasher, queue(leaves, st)[cursor(st)], proof[st.proof_pos]),
            )
            &&& cursor(s2) == cursor(st) + 1
            &&& s2.proof_pos == st.proof_pos + 1
            &&& queue_levels(leaves, s2) == queue_levels(leaves, st).push(
                (queue_levels(leaves, st)[cursor(st)] + 1) as u32,
            )
            &&& s2.layer == if tl == Some(queue_levels(leaves, st)[cursor(st)]) {
                st.layer.push(queue(leaves, st)[cursor(st)]).push(proof[st.proof_pos])
            } else {
                st.layer
            }
        },
{
    lemma_next_operand(leaves, st);
    let (a, s1) = next_operand(leaves, st).unwrap();
    let (b, s2) = second_operand(leaves, proof, a, s1, false).unwrap();
    let h = (node_hash(hasher, a.0, b.0), (a.1 + 1) as u32);
    lemma_queue_push(leaves, s2, h);
}

proof fn lemma_run_from_first(
    hasher: NodeHasher,
    leaves: Seq<Node>,
    proof: Seq<Node>,
    tl: Option<u32>,
    st: VerifyState,
    x: bool,
    rest: Seq<bool>,
)
    ensures
        run_from(hasher, leaves, proof, tl, Some(st), seq![x] + rest) == run_from(
            hasher,
            leaves,
            proof,
            tl,
            verify_step(hasher, leaves, proof, tl, st, x),
            rest,
        ),
{
    assert((seq![x] + rest).drop_first() =~= rest);
    assert((seq![x] + rest)[0] == x);
}

pub open spec fn left_is_target(targets: Seq<usize>, i: int, tp: int) -> bool {
    0 <= tp < targets.len() && targets[tp] == i
}

pub open spec fn after_left(targets: Seq<usize>, i: int, tp: int) -> int {
    if left_is_target(targets, i, tp) { tp + 1 } else { tp }
}

pub open spec fn right_is_target(targets: Seq<usize>, i: int, tp: int) -> bool {
    let tp1 = after_left(targets, i, tp);
    0 <= tp1 < targets.len() && targets[tp1] == i + 1
}

pub open spec fn after_pair(targets: Seq<usize>, i: int, tp: int) -> int {
    if right_is_target(targets, i, tp) { after_left(targets, i, tp) + 1 } else { after_left(targets, i, tp) }
}

proof fn lemma_scan_advance(layer_len: int, targets: Seq<usize>, i: int, tp: int)
    requires
        scan_preconditions(layer_len, targets, i, tp),
        i + 2 <= layer_len,
    ensures
        scan_preconditions(layer_len, targets, i + 2, after_pair(targets, i, tp)),
        left_is_target(targets, i, tp) || !holds_index(targets, i),
        right_is_target(targets, i, tp) || !holds_index(targets, i + 1),
{
    let tp1 = after_left(targets, i, tp);
    let tp2 = after_pair(targets, i, tp);
    assert forall|j: int| tp2 <= j < targets.len() implies #[trigger] targets[j] >= i + 2 by {
        assert(targets[j] >= i);
        if j > tp {
            assert(targets[tp] < targets[j]);
        }
        if tp1 < j {
            assert(targets[tp1] < targets[j]);
        }
    }
    assert forall|j: int| 0 <= j < tp2 implies #[trigger] targets[j] < i + 2 by {
        if j >= tp {
            if j == tp {
            } else {
                assert(j == tp1);
            }
        }
    }
    if !left_is_target(targets, i, tp) && holds_index(targets, i) {
        let a = choose|a: int| 0 <= a < targets.len() && targets[a] == i;
        if a < tp {
        } else if a == tp {
        } else {
            assert(targets[tp] < targets[a]);
        }
    }
    if !right_is_target(targets, i, tp) && holds_index(targets, i + 1) {
        let a = choose|a: int| 0 <= a < targets.len() && targets[a] == i + 1;
        if a < tp1 {
            assert(targets[a] < i + 2);
            if a < tp {
            } else {
                assert(a == tp);
            }
        } else if a == tp1 {
        } else {
            assert(targets[tp1] < targets[a]);
            assert(targets[tp1] >= i);
            if left_is_target(targets, i, tp) {
                assert(targets[tp] < targets[tp1]);
            }
        }
    }
}

/// The part of the level lemma's precondition that concerns the state.
pub open spec fn level_state_ready(
    leaves: Seq<Node>,
    proof: Seq<Node>,
    lower: Seq<Node>,
    layer: Seq<Node>,
    targets: Seq<usize>,
    i: int,
    tp: int,
    st: VerifyState,
) -> bool {
    &&& state_wf(leaves, st)
    &&& cursor(st) + (targets.len() - tp) <= queue(leaves, st).len()
    &&& forall|j: int|
        tp <= j < targets.len() ==> queue(leaves, st)[cursor(st) + j - tp] == layer[#[trigger] targets[j] as int]
    &&& st.proof_pos + scan_pairs(lower, targets, i, tp).0.len() <= proof.len()
    &&& proof.subrange(st.proof_pos, st.proof_pos + scan_pairs(lower, targets, i, tp).0.len())
        == scan_pairs(lower, targets, i, tp).0
}

/// The nodes that a verification collects from `layer`, from the pair at
/// `i` with target cursor `tp` on: for each pair that holds a target, the
/// target and then its sibling, or both nodes in order when both are
/// targets.
pub open spec fn layer_pairs(layer: Seq<Node>, targets: Seq<usize>, i: int, tp: int) -> Seq<Node>
    decreases layer.len() - i,
{
    if i < 0 || i + 2 > layer.len() {
        seq![]
    } else {
        let rest = layer_pairs(layer, targets, i + 2, after_pair(targets, i, tp));
        if left_is_target(targets, i, tp) {
            seq![layer[i], layer[i + 1]] + rest
        } else if right_is_target(targets, i, tp) {
            seq![layer[i + 1], layer[i]] + rest
        } else {
            rest
        }
    }
}

/// The next `n` operands in the queue all lie on level `lvl`.
pub open spec fn levels_ready(leaves: Seq<Node>, st: VerifyState, n: int, lvl: u32) -> bool {
    forall|j: int| 0 <= j < n ==> #[trigger] queue_levels(leaves, st)[cursor(st) + j] == lvl
}

/// What the verification steps of the pair at `i` do: they take the flags,
/// proof nodes and parent targets that the pair contributes, queue the
/// parent's value one level up, and collect the pair's nodes when its level
/// is the requested one.
proof fn lemma_pair_step(
    hasher: NodeHasher,
    leaves: Seq<Node>,
    proof: Seq<Node>,
    tl: Option<u32>,
    lower: Seq<Node>,
    layer: Seq<Node>,
    targets: Seq<usize>,
    i: int,
    tp: int,
    lvl: u32,
    st: VerifyState,
) -> (res: (VerifyState, Seq<bool>, Seq<Node>, Seq<usize>, Seq<Node>))
    requires
        scan_preconditions(layer.len() as int, targets, i, tp),
        i + 2 <= layer.len(),
        lower.len() == layer.len(),
        agree_off_targets(lower, layer, targets),
        level_state_ready(leaves, proof, lower, layer, targets, i, tp, st),
        levels_ready(leaves, st, targets.len() - tp, lvl),
    ensures
        ({
            let (s2, pf, pn, nn, pe) = res;
            let sc = scan_pairs(lower, targets, i, tp);
            let tp2 = after_pair(targets, i, tp);
            let rest = scan_pairs(lower, targets, i + 2, tp2);
            &&& sc.0 == pn + rest.0
            &&& sc.1 == pf + rest.1
            &&& sc.2 == nn + rest.2
            &&& layer_pairs(layer, targets, i, tp) == pe + layer_pairs(layer, targets, i + 2, tp2)
            &&& run_from(hasher, leaves, proof, tl, Some(st), pf) == Some(s2)
            &&& queue(leaves, s2) == queue(leaves, st) + values_at(level_up(hasher, layer), nn)
            &&& queue_levels(leaves, s2) == queue_levels(leaves, st) + Seq::new(
                nn.len(),
                |x: int| (lvl + 1) as u32,
            )
            &&& s2.layer == st.layer + if tl == Some(lvl) {
                pe
            } else {
                Seq::<Node>::empty()
            }
            &&& cursor(s2) == cursor(st) + tp2 - tp
            &&& s2.proof_pos == st.proof_pos + pn.len()
            &&& level_state_ready(leaves, proof, lower, layer, targets, i + 2, tp2, s2)
            &&& levels_ready(leaves, s2, targets.len() - tp2, lvl)
        }),
{
    lemma_scan_advance(layer.len() as int, targets, i, tp);
    let q = queue(leaves, st);
    let lv = queue_levels(leaves, st);
    let c = cursor(st);
    let pp = st.proof_pos;
    let sc = scan_pairs(lower, targets, i, tp);
    let tp2 = after_pair(targets, i, tp);
    let rest = scan_pairs(lower, targets, i + 2, tp2);
    let lrest = layer_pairs(layer, targets, i + 2, tp2);
    let up = level_up(hasher, layer);
    let parent = (i / 2) as usize;
    let left = left_is_target(targets, i, tp);
    let right = right_is_target(targets, i, tp);
    let above = (lvl + 1) as u32;
    assert(up[i / 2] == node_hash(hasher, layer[i], layer[i + 1]));
    assert(lv.len() == q.len());
    if !left && !right {
        assert(sc == rest);
        assert(Seq::<Node>::empty() + rest.0 =~= rest.0);
        assert(Seq::<bool>::empty() + rest.1 =~= rest.1);
        assert(Seq::<usize>::empty() + rest.2 =~= rest.2);
        assert(Seq::<Node>::empty() + lrest =~= lrest);
        assert(values_at(up, Seq::<usize>::empty()) =~= Seq::<Node>::empty());
        assert(q + Seq::<Node>::empty() =~= q);
        assert(lv + Seq::new(0, |x: int| above) =~= lv);
        assert(st.layer + Seq::<Node>::empty() =~= st.layer);
        (st, Seq::<bool>::empty(), Seq::<Node>::empty(), Seq::<usize>::empty(), Seq::<Node>::empty())
    } else {
        assert(values_at(up, seq![parent]) =~= seq![up[i / 2]]);
        assert(lv[c + 0] == lvl);
        assert(lv.push(above) =~= lv + Seq::new(1, |x: int| above));
        if left && right {
            let pe = seq![layer[i], layer[i + 1]];
            assert(sc.0 == rest.0);
            assert(Seq::<Node>::empty() + rest.0 =~= rest.0);
            assert(q[c] == layer[i]);
            assert(q[c + 1] == layer[i + 1]);
            lemma_step_pair(leaves, proof, hasher, tl, st);
            let s2 = verify_step(hasher, leaves, proof, tl, st, true).unwrap();
            lemma_run_from_first(hasher, leaves, proof, tl, st, true, Seq::<bool>::empty());
            assert(seq![true] + Seq::<bool>::empty() =~= seq![true]);
            assert(queue(leaves, s2) =~= q + values_at(up, seq![parent]));
            assert(st.layer.push(q[c]).push(q[c + 1]) =~= st.layer + pe);
            assert forall|j: int| tp2 <= j < targets.len() implies queue(leaves, s2)[cursor(s2) + j - tp2]
                == layer[#[trigger] targets[j] as int] by {
                assert(queue(leaves, s2)[cursor(s2) + j - tp2] == q[c + j - tp]);
            }
            assert forall|j: int| 0 <= j < targets.len() - tp2 implies #[trigger] queue_levels(
                leaves,
                s2,
            )[cursor(s2) + j] == lvl by {
                assert(lv[c + (j + 2)] == lvl);
            }
            (s2, seq![true], Seq::<Node>::empty(), seq![parent], pe)
        } else {
            let sib = if left { lower[i + 1] } else { lower[i] };
            let pe = if left { seq![layer[i], layer[i + 1]] } else { seq![layer[i + 1], layer[i]] };
            assert(sc.0 == seq![sib] + rest.0);
            assert(proof[pp] == sc.0[0]);
            if left {
                assert(q[c] == layer[i]);
                assert(lower[i + 1] == layer[i + 1]);
            } else {
                assert(q[c] == layer[i + 1]);
                assert(lower[i] == layer[i]);
                lemma_node_hash_symmetric(hasher, layer[i + 1], layer[i]);
            }
            lemma_step_with_proof(leaves, proof, hasher, tl, st);
            let s2 = verify_step(hasher, leaves, proof, tl, st, false).unwrap();
            lemma_run_from_first(hasher, leaves, proof, tl, st, false, Seq::<bool>::empty());
            assert(seq![false] + Seq::<bool>::empty() =~= seq![false]);
            assert(queue(leaves, s2) =~= q + values_at(up, seq![parent]));
            assert(st.layer.push(q[c]).push(proof[pp]) =~= st.layer + pe);
            assert forall|j: int| tp2 <= j < targets.len() implies queue(leaves, s2)[cursor(s2) + j - tp2]
                == layer[#[trigger] targets[j] as int] by {
                assert(queue(leaves, s2)[cursor(s2) + j - tp2] == q[c + j - tp]);
            }
            assert forall|j: int| 0 <= j < targets.len() - tp2 implies #[trigger] queue_levels(
                leaves,
                s2,
            )[cursor(s2) + j] == lvl by {
                assert(lv[c + (j + 1)] == lvl);
            }
            assert(proof.subrange(s2.proof_pos, s2.proof_pos + rest.0.len()) =~= rest.0) by {
                assert forall|x: int| 0 <= x < rest.0.len() implies proof[s2.proof_pos + x] == rest.0[x] by {
                    assert(proof.subrange(pp, pp + sc.0.len())[x + 1] == sc.0[x + 1]);
                }
            }
            (s2, seq![false], seq![sib], seq![parent], pe)
        }
    }
}

/// Verification steps for the flags one level contributes consume that
/// level's target values from the queue, and queue the values of the parent
/// targets one level up.
proof fn lemma_level_run(
    hasher: NodeHasher,
    leaves: Seq<Node>,
    proof: Seq<Node>,
    tl: Option<u32>,
    lower: Seq<Node>,
    layer: Seq<Node>,
    targets: Seq<usize>,
    i: int,
    tp: int,
    lvl: u32,
    st: VerifyState,
)
    requires
        scan_preconditions(layer.len() as int, targets, i, tp),
        lower.len() == layer.len(),
        agree_off_targets(lower, layer, targets),
        level_state_ready(leaves, proof, lower, layer, targets, i, tp, st),
        levels_ready(leaves, st, targets.len() - tp, lvl),
    ensures
        ({
            let sc = scan_pairs(lower, targets, i, tp);
            let r = run_from(hasher, leaves, proof, tl, Some(st), sc.1);
            &&& r is Some
            &&& state_wf(leaves, r.unwrap())
            &&& queue(leaves, r.unwrap()) == queue(leaves, st) + values_at(level_up(hasher, layer), sc.2)
            &&& queue_levels(leaves, r.unwrap()) == queue_levels(leaves, st) + Seq::new(
                sc.2.len(),
                |x: int| (lvl + 1) as u32,
            )
            &&& r.unwrap().layer == st.layer + if tl == Some(lvl) {
                layer_pairs(layer, targets, i, tp)
            } else {
                Seq::<Node>::empty()
            }
            &&& cursor(r.unwrap()) == cursor(st) + targets.len() - tp
            &&& r.unwrap().proof_pos == st.proof_pos + sc.0.len()
        }),
    decreases layer.len() - i,
{
    let q = queue(leaves, st);
    let lv = queue_levels(leaves, st);
    let sc = scan_pairs(lower, targets, i, tp);
    let up = level_up(hasher, layer);
    let above = (lvl + 1) as u32;
    if i + 2 > layer.len() {
        if tp < targets.len() {
            assert(targets[tp] >= i);
            assert(targets[tp] < layer.len());
        }
        assert(values_at(up, sc.2) =~= Seq::<Node>::empty());
        assert(q + values_at(up, sc.2) =~= q);
        assert(lv + Seq::new(sc.2.len(), |x: int| above) =~= lv);
        assert(st.layer + Seq::<Node>::empty() =~= st.layer);
    } else {
        let tp2 = after_pair(targets, i, tp);
        let rest = scan_pairs(lower, targets, i + 2, tp2);
        lemma_scan_advance(layer.len() as int, targets, i, tp);
        let (s2, pf, pn, nn, pe) = lemma_pair_step(hasher, leaves, proof, tl, lower, layer, targets, i, tp, lvl, st);
        lemma_level_run(hasher, leaves, proof, tl, lower, layer, targets, i + 2, tp2, lvl, s2);
        lemma_run_from_append(hasher, leaves, proof, tl, Some(st), pf, rest.1);
        assert(values_at(up, sc.2) =~= values_at(up, nn) + values_at(up, rest.2));
        let r = run_from(hasher, leaves, proof, tl, Some(s2), rest.1).unwrap();
        assert(queue(leaves, r) =~= q + values_at(up, sc.2));
        assert(queue_levels(leaves, r) =~= lv + Seq::new(sc.2.len(), |x: int| above));
        let lrest = layer_pairs(layer, targets, i + 2, tp2);
        if tl == Some(lvl) {
            assert(r.layer =~= st.layer + (pe + lrest));
        } else {
            assert(r.layer =~= st.layer + Seq::<Node>::empty());
        }
    }
}

pub open spec fn targets_in_range(targets: Seq<usize>, len: int) -> bool {
    forall|j: int| 0 <= j < targets.len() ==> #[trigger] targets[j] < len
}

/// The nodes that a verification of a multi-proof for `targets` in `layer`
/// collects from the layer `k` levels up: there, the pairs that hold a
/// target, each as the target and then its sibling (both nodes in order when
/// both are targets); at the top, the root alone; above the top, none.
pub open spec fn layer_nodes(hasher: NodeHasher, layer: Seq<Node>, targets: Seq<usize>, k: nat) -> Seq<Node>
    decreases k,
{
    if layer.len() <= 1 {
        if k == 0 {
            seq![layer[0]]
        } else {
            seq![]
        }
    } else if k == 0 {
        layer_pairs(layer, targets, 0, 0)
    } else {
        layer_nodes(hasher, level_up(hasher, layer), scan_pairs(layer, targets, 0, 0).2, (k - 1) as nat)
    }
}

/// The parent targets of a level depend on the targets and the width of the
/// level, not on its nodes.
proof fn lemma_parents_ignore_nodes(a: Seq<Node>, b: Seq<Node>, targets: Seq<usize>, i: int, tp: int)
    requires
        a.len() == b.len(),
    ensures
        scan_pairs(a, targets, i, tp).2 == scan_pairs(b, targets, i, tp).2,
    decreases a.len() - i,
{
    if !(i < 0 || i + 2 > a.len()) {
        lemma_parents_ignore_nodes(a, b, targets, i + 2, after_pair(targets, i, tp));
    }
}

/// Verification steps for all the flags of a multi-proof consume the target
/// values from the queue and leave exactly one value queued: the root.
proof fn lemma_tree_run(
    hasher: NodeHasher,
    leaves: Seq<Node>,
    proof: Seq<Node>,
    tl: Option<u32>,
    lower: Seq<Node>,
    layer: Seq<Node>,
    targets: Seq<usize>,
    k: nat,
    lvl: u32,
    st: VerifyState,
)
    requires
        lower.len() == layer.len(),
        layer.len() == pow2(k),
        targets.len() >= 1,
        strictly_increasing(targets),
        targets_in_range(targets, layer.len() as int),
        agree_off_targets(lower, layer, targets),
        state_wf(leaves, st),
        cursor(st) + targets.len() == queue(leaves, st).len(),
        forall|j: int|
            0 <= j < targets.len() ==> queue(leaves, st)[cursor(st) + j] == layer[#[trigger] targets[j] as int],
        st.proof_pos + multi_proof(hasher, lower, targets).0.len() <= proof.len(),
        proof.subrange(st.proof_pos, st.proof_pos + multi_proof(hasher, lower, targets).0.len())
            == multi_proof(hasher, lower, targets).0,
        tl is Some ==> lvl + k < u32::MAX,
        levels_ready(leaves, st, targets.len() as int, lvl),
    ensures
        ({
            let mp = multi_proof(hasher, lower, targets);
            let r = run_from(hasher, leaves, proof, tl, Some(st), mp.1);
            &&& r is Some
            &&& state_wf(leaves, r.unwrap())
            &&& cursor(r.unwrap()) + 1 == queue(leaves, r.unwrap()).len()
            &&& queue(leaves, r.unwrap()).last() == reduce(hasher, layer)
            &&& r.unwrap().proof_pos == st.proof_pos + mp.0.len()
            &&& (k > 0 ==> r.unwrap().hashes.len() > st.hashes.len() && mp.1.len() > 0)
            &&& (k == 0 ==> mp.1.len() == 0)
            &&& (tl is Some ==> queue_levels(leaves, r.unwrap()).last() == lvl + k)
            &&& r.unwrap().layer == st.layer + if tl matches Some(t) && lvl <= t < lvl + k {
                layer_nodes(hasher, layer, targets, (tl.unwrap() - lvl) as nat)
            } else {
                Seq::<Node>::empty()
            }
        }),
    decreases k,
{
    let q = queue(leaves, st);
    let c = cursor(st);
    let pp = st.proof_pos;
    let mp = multi_proof(hasher, lower, targets);
    if k == 0 {
        lemma2_to64();
        assert(targets[0] == 0);
        if targets.len() > 1 {
            assert(targets[0] < targets[1]);
        }
        assert(q[c + 0] == layer[0]);
        assert(queue_levels(leaves, st)[c + 0] == lvl);
        assert(queue_levels(leaves, st).len() == q.len());
        assert(st.layer + Seq::<Node>::empty() =~= st.layer);
    } else {
        lemma_pow2_unfold(k);
        lemma_pow2_pos((k - 1) as nat);
        let level = scan_pairs(lower, targets, 0, 0);
        let lower_up = level_up(hasher, lower);
        let up = level_up(hasher, layer);
        let next = level.2;
        let above = multi_proof(hasher, lower_up, next);
        assert(mp.0 == level.0 + above.0);
        assert(mp.1 == level.1 + above.1);
        assert(scan_preconditions(layer.len() as int, targets, 0, 0));
        lemma_scan_targets(lower, targets, 0, 0);
        assert(proof.subrange(pp, pp + level.0.len()) =~= level.0) by {
            assert forall|x: int| 0 <= x < level.0.len() implies proof[pp + x] == level.0[x] by {
                assert(proof.subrange(pp, pp + mp.0.len())[x] == mp.0[x]);
            }
        }
        assert forall|j: int| 0 <= j < targets.len() implies q[c + j - 0] == layer[#[trigger] targets[j] as int] by {
            assert(q[c + j] == layer[targets[j] as int]);
        }
        lemma_level_run(hasher, leaves, proof, tl, lower, layer, targets, 0, 0, lvl, st);
        let st1 = run_from(hasher, leaves, proof, tl, Some(st), level.1).unwrap();
        let q1 = queue(leaves, st1);
        assert(q1 == q + values_at(up, next));
        assert(agree_off_targets(lower_up, up, next)) by {
            assert forall|p: int| 0 <= p < up.len() && !holds_index(next, p) implies #[trigger] lower_up[p]
                == up[p] by {
                assert(!holds_index(targets, 2 * p)) by {
                    if holds_index(targets, 2 * p) {
                        let a = choose|a: int| 0 <= a < targets.len() && targets[a] == 2 * p;
                        assert(holds_index(next, (targets[a] / 2) as int));
                    }
                }
                assert(!holds_index(targets, 2 * p + 1)) by {
                    if holds_index(targets, 2 * p + 1) {
                        let a = choose|a: int| 0 <= a < targets.len() && targets[a] == 2 * p + 1;
                        assert(holds_index(next, (targets[a] / 2) as int));
                    }
                }
                assert(lower[2 * p] == layer[2 * p]);
                assert(lower[2 * p + 1] == layer[2 * p + 1]);
            }
        }
        assert forall|j: int| 0 <= j < next.len() implies q1[cursor(st1) + j] == up[#[trigger] next[j] as int] by {
            assert(q1[cursor(st1) + j] == values_at(up, next)[j]);
        }
        assert(proof.subrange(st1.proof_pos, st1.proof_pos + above.0.len()) =~= above.0) by {
            assert forall|x: int| 0 <= x < above.0.len() implies proof[st1.proof_pos + x] == above.0[x] by {
                assert(proof.subrange(pp, pp + mp.0.len())[level.0.len() + x] == mp.0[level.0.len() + x]);
            }
        }
        assert(queue_levels(leaves, st).len() == q.len());
        assert forall|j: int| 0 <= j < next.len() implies #[trigger] queue_levels(leaves, st1)[cursor(st1) + j]
            == (lvl + 1) as u32 by {
            assert(queue_levels(leaves, st1)[q.len() + j] == Seq::new(
                next.len(),
                |x: int| (lvl + 1) as u32,
            )[j]);
        }
        lemma_tree_run(hasher, leaves, proof, tl, lower_up, up, next, (k - 1) as nat, (lvl + 1) as u32, st1);
        lemma_parents_ignore_nodes(lower, layer, targets, 0, 0);
        let r = run_from(hasher, leaves, proof, tl, Some(st1), above.1).unwrap();
        match tl {
            Some(t) => {
                if t == lvl {
                    assert(r.layer =~= st.layer + layer_pairs(layer, targets, 0, 0));
                } else if lvl < t < lvl + k {
                    assert(st1.layer =~= st.layer + Seq::<Node>::empty());
                    assert(r.layer =~= st.layer + layer_nodes(hasher, up, next, (t - lvl - 1) as nat));
                } else {
                    assert(r.layer =~= st.layer + Seq::<Node>::empty());
                }
            },
            None => {
                assert(r.layer =~= st.layer + Seq::<Node>::empty());
            },
        }
        lemma_run_from_append(hasher, leaves, proof, tl, Some(st), level.1, above.1);
        assert(q1.len() == leaves.len() + st1.hashes.len());
        assert(q.len() == leaves.len() + st.hashes.len());
    }
}

pub proof fn lemma_replacements_effect(leaves: Seq<Node>, targets: Seq<usize>, values: Seq<Node>, n: int)
    requires
        0 <= n <= targets.len(),
        targets.len() == values.len(),
        strictly_increasing(targets),
        targets_in_range(targets, leaves.len() as int),
    ensures
        apply_replacements(leaves, targets, values, n).len() == leaves.len(),
        forall|j: int| 0 <= j < n ==> apply_replacements(leaves, targets, values, n)[#[trigger] targets[j] as int] == values[j],
        forall|k: int|
            0 <= k < leaves.len() && (forall|j: int| 0 <= j < n ==> targets[j] != k) ==> #[trigger] apply_replacements(
                leaves,
                targets,
                values,
                n,
            )[k] == leaves[k],
    decreases n,
{
    if n > 0 {
        lemma_replacements_effect(leaves, targets, values, n - 1);
        let before = apply_replacements(leaves, targets, values, n - 1);
        assert(targets[n - 1] < leaves.len());
        assert forall|j: int| 0 <= j < n implies apply_replacements(leaves, targets, values, n)[#[trigger] targets[j] as int]
            == values[j] by {
            if j < n - 1 {
                assert(targets[j] < targets[n - 1]);
            }
        }
    }
}

/// A multi-proof built from a tree verifies, against the root of the tree
/// after the target leaves are replaced by `values`, exactly those values;
/// the proof is built before the replacement, from the siblings that it does
/// not touch.
pub proof fn lemma_multi_proof_verifies_replacement(
    hasher: NodeHasher,
    leaves: Seq<Node>,
    targets: Seq<usize>,
    values: Seq<Node>,
)
    requires
        leaves.len() >= 1,
        targets.len() >= 1,
        targets.len() == values.len(),
        strictly_increasing(targets),
        targets_in_range(targets, leaves.len() as int),
    ensures
        ({
            let mp = multi_proof(hasher, pad(leaves, tree_width(leaves.len())), targets);
            let root = merkle_root(hasher, replaced_leaves(leaves, targets, values));
            verify_outcome(hasher, root, values, mp.0, mp.1, None) == (true, root, None::<Seq<Node>>)
        }),
{
    let n = leaves.len();
    let w = tree_width(n);
    lemma_width_bounds(n);
    let replaced = replaced_leaves(leaves, targets, values);
    lemma_replacements_effect(leaves, targets, values, targets.len() as int);
    let lower = pad(leaves, w);
    let layer = pad(replaced, w);
    let mp = multi_proof(hasher, lower, targets);
    let root = merkle_root(hasher, replaced);
    assert(root == reduce(hasher, layer));
    assert(agree_off_targets(lower, layer, targets)) by {
        assert forall|k: int| 0 <= k < layer.len() && !holds_index(targets, k) implies #[trigger] lower[k]
            == layer[k] by {
            if k < n {
                assert forall|j: int| 0 <= j < targets.len() implies targets[j] != k by {
                    if targets[j] == k {
                        assert(holds_index(targets, k));
                    }
                }
                assert(replaced[k] == leaves[k]);
            }
        }
    }
    let st0 = initial_verify_state();
    assert(queue(values, st0) =~= values);
    assert forall|j: int| 0 <= j < targets.len() implies queue(values, st0)[cursor(st0) + j]
        == layer[#[trigger] targets[j] as int] by {
        assert(replaced[targets[j] as int] == values[j]);
    }
    assert(mp.0.subrange(0, mp.0.len() as int) =~= mp.0);
    assert(targets_in_range(targets, layer.len() as int));
    assert(levels_ready(values, st0, targets.len() as int, 0u32));
    lemma_tree_run(hasher, values, mp.0, None, lower, layer, targets, tree_height(n), 0u32, st0);
    lemma_verify_run_is_run_from(hasher, values, mp.0, None, mp.1);
    let r = run_from(hasher, values, mp.0, None, Some(st0), mp.1).unwrap();
    if tree_height(n) == 0 {
        assert(mp.1.len() == 0);
        assert(values.len() == 1) by {
            if values.len() > 1 {
                assert(queue(values, r).len() == values.len());
            }
        }
        assert(mp.0.len() == 0);
    } else {
        assert(r.hashes.len() > 0);
        assert(queue(values, r).len() == values.len() + r.hashes.len());
        assert(queue(values, r).last() == r.hashes.last().0);
    }
}

/// A multi-proof built from a tree verifies its target leaves against the
/// tree's root.
pub proof fn lemma_multi_proof_verifies(hasher: NodeHasher, leaves: Seq<Node>, targets: Seq<usize>)
    requires
        leaves.len() >= 1,
        targets.len() >= 1,
        strictly_increasing(targets),
        targets_in_range(targets, leaves.len() as int),
    ensures
        ({
            let mp = multi_proof(hasher, pad(leaves, tree_width(leaves.len())), targets);
            let root = merkle_root(hasher, leaves);
            verify_outcome(hasher, root, values_at(leaves, targets), mp.0, mp.1, None) == (
                true,
                root,
                None::<Seq<Node>>,
            )
        }),
{
    let values = values_at(leaves, targets);
    lemma_replacements_effect(leaves, targets, values, targets.len() as int);
    let replaced = replaced_leaves(leaves, targets, values);
    assert(replaced =~= leaves) by {
        assert forall|k: int| 0 <= k < leaves.len() implies replaced[k] == leaves[k] by {
            if exists|j: int| 0 <= j < targets.len() && targets[j] == k {
                let j = choose|j: int| 0 <= j < targets.len() && targets[j] == k;
                assert(replaced[targets[j] as int] == values[j]);
            }
        }
    }
    lemma_multi_proof_verifies_replacement(hasher, leaves, targets, values);
}

proof fn lemma_layer_nodes_top(hasher: NodeHasher, layer: Seq<Node>, targets: Seq<usize>, h: nat, k: nat)
    requires
        layer.len() == pow2(h),
        h <= k,
    ensures
        layer_nodes(hasher, layer, targets, k) == if k == h {
            seq![reduce(hasher, layer)]
        } else {
            Seq::<Node>::empty()
        },
    decreases h,
{
    if h == 0 {
        lemma2_to64();
    } else {
        lemma_pow2_unfold(h);
        lemma_pow2_pos((h - 1) as nat);
        lemma_layer_nodes_top(
            hasher,
            level_up(hasher, layer),
            scan_pairs(layer, targets, 0, 0).2,
            (h - 1) as nat,
            (k - 1) as nat,
        );
    }
}

proof fn lemma_height_fits(n: nat)
    requires
        1 <= n <= usize::MAX,
    ensures
        tree_height(n) < 65,
{
    lemma_width_bounds(n);
    lemma2_to64();
    if tree_height(n) >= 65 {
        lemma_pow2_unfold(65);
        if tree_height(n) > 65 {
            lemma_pow2_strictly_increases(65, tree_height(n));
        }
    }
}

/// A multi-proof built from a tree, verified with the replaced values and a
/// request for layer `k`, collects from layer `k` of the tree after the
/// replacement the pairs that hold a target, each as the target and then its
/// sibling (both nodes in order when both are targets); at the top level it
/// collects the root alone, and above the top nothing. Over a single leaf,
/// a request for any layer but the leaves collects no layer at all.
pub proof fn lemma_multi_proof_collects_layer(
    hasher: NodeHasher,
    leaves: Seq<Node>,
    targets: Seq<usize>,
    values: Seq<Node>,
    k: u32,
)
    requires
        1 <= leaves.len() <= usize::MAX,
        targets.len() >= 1,
        targets.len() == values.len(),
        strictly_increasing(targets),
        targets_in_range(targets, leaves.len() as int),
    ensures
        ({
            let w = tree_width(leaves.len());
            let mp = multi_proof(hasher, pad(leaves, w), targets);
            let replaced = replaced_leaves(leaves, targets, values);
            let root = merkle_root(hasher, replaced);
            verify_outcome(hasher, root, values, mp.0, mp.1, Some(k)) == (
                true,
                root,
                if leaves.len() == 1 && k != 0 {
                    None
                } else {
                    Some(layer_nodes(hasher, pad(replaced, w), targets, k as nat))
                },
            )
        }),
        k >= tree_height(leaves.len()) ==> layer_nodes(
            hasher,
            pad(replaced_leaves(leaves, targets, values), tree_width(leaves.len())),
            targets,
            k as nat,
        ) == if k == tree_height(leaves.len()) {
            seq![merkle_root(hasher, replaced_leaves(leaves, targets, values))]
        } else {
            Seq::<Node>::empty()
        },
{
    let n = leaves.len();
    let w = tree_width(n);
    let h = tree_height(n);
    let tl = Some(k);
    lemma_width_bounds(n);
    lemma_height_fits(n);
    let replaced = replaced_leaves(leaves, targets, values);
    lemma_replacements_effect(leaves, targets, values, targets.len() as int);
    let lower = pad(leaves, w);
    let layer = pad(replaced, w);
    if k >= h {
        lemma_layer_nodes_top(hasher, layer, targets, h, k as nat);
    }
    let mp = multi_proof(hasher, lower, targets);
    let root = merkle_root(hasher, replaced);
    assert(root == reduce(hasher, layer));
    assert(agree_off_targets(lower, layer, targets)) by {
        assert forall|x: int| 0 <= x < layer.len() && !holds_index(targets, x) implies #[trigger] lower[x]
            == layer[x] by {
            if x < n {
                assert forall|j: int| 0 <= j < targets.len() implies targets[j] != x by {
                    if targets[j] == x {
                        assert(holds_index(targets, x));
                    }
                }
                assert(replaced[x] == leaves[x]);
            }
        }
    }
    let st0 = initial_verify_state();
    assert(queue(values, st0) =~= values);
    assert forall|j: int| 0 <= j < targets.len() implies queue(values, st0)[cursor(st0) + j]
        == layer[#[trigger] targets[j] as int] by {
        assert(replaced[targets[j] as int] == values[j]);
    }
    assert(mp.0.subrange(0, mp.0.len() as int) =~= mp.0);
    assert(targets_in_range(targets, layer.len() as int));
    assert(levels_ready(values, st0, targets.len() as int, 0u32));
    lemma_tree_run(hasher, values, mp.0, tl, lower, layer, targets, h, 0u32, st0);
    lemma_verify_run_is_run_from(hasher, values, mp.0, tl, mp.1);
    let r = run_from(hasher, values, mp.0, tl, Some(st0), mp.1).unwrap();
    if h == 0 {
        assert(mp.1.len() == 0);
        assert(values.len() == 1) by {
            if values.len() > 1 {
                assert(queue(values, r).len() == values.len());
            }
        }
        assert(mp.0.len() == 0);
        lemma2_to64();
        assert(values[0] == layer[0]);
    } else {
        assert(r.hashes.len() > 0);
        assert(queue(values, r).len() == values.len() + r.hashes.len());
        assert(queue(values, r).last() == r.hashes.last().0);
        assert(queue_levels(values, r).last() == r.hashes.last().1);
        assert(r.hashes.last().1 == h);
        if k >= h {
            lemma_layer_nodes_top(hasher, layer, targets, h, k as nat);
            assert(r.layer =~= Seq::<Node>::empty());
            if k == h {
                assert(r.layer.push(root) =~= seq![root]);
            }
        } else {
            assert(r.layer =~= layer_nodes(hasher, layer, targets, k as nat));
        }
    }
}

/// A multi-proof built from a tree, verified with its target leaves and a
/// request for layer `k`, collects `layer_nodes` of the tree itself: the
/// pairs of layer `k` that hold a target, the root alone at the top, and
/// nothing above; over a single leaf only the leaves' layer can be
/// requested.
pub proof fn lemma_multi_proof_collects_layer_of_tree(
    hasher: NodeHasher,
    leaves: Seq<Node>,
    targets: Seq<usize>,
    k: u32,
)
    requires
        1 <= leaves.len() <= usize::MAX,
        targets.len() >= 1,
        strictly_increasing(targets),
        targets_in_range(targets, leaves.len() as int),
    ensures
        ({
            let w = tree_width(leaves.len());
            let mp = multi_proof(hasher, pad(leaves, w), targets);
            let root = merkle_root(hasher, leaves);
            verify_outcome(hasher, root, values_at(leaves, targets), mp.0, mp.1, Some(k)) == (
                true,
                root,
                if leaves.len() == 1 && k != 0 {
                    None
                } else {
                    Some(layer_nodes(hasher, pad(leaves, w), targets, k as nat))
                },
            )
        }),
        k >= tree_height(leaves.len()) ==> layer_nodes(
            hasher,
            pad(leaves, tree_width(leaves.len())),
            targets,
            k as nat,
        ) == if k == tree_height(leaves.len()) {
            seq![merkle_root(hasher, leaves)]
        } else {
            Seq::<Node>::empty()
        },
{
    let values = values_at(leaves, targets);
    lemma_replacements_effect(leaves, targets, values, targets.len() as int);
    let replaced = replaced_leaves(leaves, targets, values);
    assert(replaced =~= leaves) by {
        assert forall|x: int| 0 <= x < leaves.len() implies replaced[x] == leaves[x] by {
            if exists|j: int| 0 <= j < targets.len() && targets[j] == x {
                let j = choose|j: int| 0 <= j < targets.len() && targets[j] == x;
                assert(replaced[targets[j] as int] == values[j]);
            }
        }
    }
    lemma_multi_proof_collects_layer(hasher, leaves, targets, values, k);
}

pub open spec fn same_but_layer(a: VerifyState, b: VerifyState) -> bool {
    &&& a.leaf_pos == b.leaf_pos
    &&& a.hash_pos == b.hash_pos
    &&& a.proof_pos == b.proof_pos
    &&& a.hashes == b.hashes
}

proof fn lemma_step_ignores_layer(
    hasher: NodeHasher,
    leaves: Seq<Node>,
    proof: Seq<Node>,
    target_layer: Option<u32>,
    a: VerifyState,
    b: VerifyState,
    flag: bool,
)
    requires
        same_but_layer(a, b),
    ensures
        (verify_step(hasher, leaves, proof, target_layer, a, flag) is Some) == (verify_step(
            hasher,
            leaves,
            proof,
            None,
            b,
            flag,
        ) is Some),
        verify_step(hasher, leaves, proof, target_layer, a, flag) is Some ==> same_but_layer(
            verify_step(hasher, leaves, proof, target_layer, a, flag).unwrap(),
            verify_step(hasher, leaves, proof, None, b, flag).unwrap(),
        ),
{
}

proof fn lemma_run_ignores_layer(
    hasher: NodeHasher,
    leaves: Seq<Node>,
    proof: Seq<Node>,
    flags: Seq<bool>,
    target_layer: Option<u32>,
)
    ensures
        (verify_run(hasher, leaves, proof, flags, target_layer) is Some) == (verify_run(
            hasher,
            leaves,
            proof,
            flags,
            None,
        ) is Some),
        verify_run(hasher, leaves, proof, flags, target_layer) is Some ==> same_but_layer(
            verify_run(hasher, leaves, proof, flags, target_layer).unwrap(),
            verify_run(hasher, leaves, proof, flags, None).unwrap(),
        ),
    decreases flags.len(),
{
    if flags.len() > 0 {
        lemma_run_ignores_layer(hasher, leaves, proof, flags.drop_last(), target_layer);
        let a = verify_run(hasher, leaves, proof, flags.drop_last(), target_layer);
        let b = verify_run(hasher, leaves, proof, flags.drop_last(), None);
        if a is Some {
            lemma_step_ignores_layer(hasher, leaves, proof, target_layer, a.unwrap(), b.unwrap(), flags.last());
        }
    }
}

/// Asking for a layer to be collected does not change the verdict of a
/// verification nor the root it computes.
pub proof fn lemma_layer_request_keeps_verdict(
    hasher: NodeHasher,
    expected_root: Node,
    leaves: Seq<Node>,
    proof: Seq<Node>,
    flags: Seq<bool>,
    target_layer: Option<u32>,
)
    ensures
        verify_outcome(hasher, expected_root, leaves, proof, flags, target_layer).0 == verify_outcome(
            hasher,
            expected_root,
            leaves,
            proof,
            flags,
            None,
        ).0,
        verify_outcome(hasher, expected_root, leaves, proof, flags, target_layer).1 == verify_outcome(
            hasher,
            expected_root,
            leaves,
            proof,
            flags,
            None,
        ).1,
{
    lemma_run_ignores_layer(hasher, leaves, proof, flags, target_layer);
}

} // verus!
