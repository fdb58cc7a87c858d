//! Merkle trees over 32-byte nodes: the root, multi-leaf proofs and their
//! verification.
use vstd::prelude::*;
use vstd::arithmetic::power2::{pow2, lemma_pow2_unfold, lemma_pow2_strictly_increases, lemma2_to64, lemma_pow2_pos};
use crate::node::{Node, NodeHasher, zero_node, node_hash, hash_node, zero};

verus! {

/// The number of levels above the leaves in a tree over `n` leaves: the
/// least `h` with `2^h >= n`.
pub open spec fn tree_height(n: nat) -> nat
    decreases n,
{
    if n <= 1 {
        0
    } else {
        1 + tree_height(((n + 1) / 2) as nat)
    }
}

/// The number of leaf slots of a tree over `n` leaves: `n` rounded up to a
/// power of two.
pub open spec fn tree_width(n: nat) -> nat {
    pow2(tree_height(n))
}

/// The leaves followed by zero nodes up to `width` slots.
pub open spec fn pad(leaves: Seq<Node>, width: nat) -> Seq<Node> {
    leaves + Seq::new((width - leaves.len()) as nat, |i: int| zero_node())
}

/// The layer above `layer`: the parent of each pair of neighbours.
pub open spec fn level_up(hasher: NodeHasher, layer: Seq<Node>) -> Seq<Node> {
    Seq::new(layer.len() / 2, |i: int| node_hash(hasher, layer[2 * i], layer[2 * i + 1]))
}

/// The node that `layer` reduces to when it is hashed level by level.
pub open spec fn reduce(hasher: NodeHasher, layer: Seq<Node>) -> Node
    decreases layer.len(),
{
    if layer.len() <= 1 {
        layer[0]
    } else {
        reduce(hasher, level_up(hasher, layer))
    }
}

/// The Merkle root of `leaves`: zero for no leaves, otherwise the reduction
/// of the leaves padded with zero nodes to a power-of-two width.
pub open spec fn merkle_root(hasher: NodeHasher, leaves: Seq<Node>) -> Node {
    if leaves.len() == 0 {
        zero_node()
    } else {
        reduce(hasher, pad(leaves, tree_width(leaves.len())))
    }
}

proof fn lemma_height_step(n: nat)
    requires
        n > 1,
    ensures
        tree_width(n) == 2 * tree_width(((n + 1) / 2) as nat),
        tree_height(n) == 1 + tree_height(((n + 1) / 2) as nat),
{
    lemma_pow2_unfold(tree_height(n));
}

/// `n <= tree_width(n) <= 2 * n` for every `n >= 1`.
pub proof fn lemma_width_bounds(n: nat)
    requires
        n >= 1,
    ensures
        n <= tree_width(n) <= 2 * n,
        n >= 2 ==> tree_width(n) <= 2 * n - 2,
    decreases n,
{
    if n > 1 {
        let c = ((n + 1) / 2) as nat;
        lemma_height_step(n);
        lemma_width_bounds(c);
        if c == 1 {
            lemma2_to64();
        }
    } else {
        assert(pow2(0) == 1) by {
            lemma2_to64();
        }
    }
}

/// `tree_width(n)` and `tree_height(n)` for `1 <= n`, computed by halving.
pub fn width_and_height(n: usize) -> (res: (usize, u32))
    requires
        1 <= n <= usize::MAX / 2,
    ensures
        res.0 == tree_width(n as nat),
        res.1 == tree_height(n as nat),
        res.0 as nat == pow2(res.1 as nat),
{
    let mut m: usize = n;
    let mut p: usize = 1;
    let mut h: u32 = 0;
    proof {
        lemma2_to64();
        lemma_width_bounds(n as nat);
    }
    while m > 1
        invariant
            1 <= m <= n <= usize::MAX / 2,
            p as nat == pow2(h as nat),
            p * tree_width(m as nat) == tree_width(n as nat),
            h + tree_height(m as nat) == tree_height(n as nat),
            tree_width(n as nat) <= 2 * n,
            h < 64,
        decreases m,
    {
        let ghost c = ((m + 1) / 2) as nat;
        proof {
            lemma_height_step(m as nat);
            lemma_width_bounds(c);
            assert(p * 2 <= tree_width(n as nat)) by (nonlinear_arith)
                requires
                    p * tree_width(m as nat) == tree_width(n as nat),
                    tree_width(m as nat) == 2 * tree_width(c),
                    tree_width(c) >= 1,
            ;
            assert(p * tree_width(m as nat) == (p * 2) * tree_width(c)) by (nonlinear_arith)
                requires
                    tree_width(m as nat) == 2 * tree_width(c),
            ;
            lemma_pow2_unfold((h + 1) as nat);
            lemma2_to64();
            if h + 1 >= 64 {
                if h + 1 > 64 {
                    lemma_pow2_strictly_increases(64, (h + 1) as nat);
                }
                assert(false);
            }
        }
        m = m - m / 2;
        p = p * 2;
        h = h + 1;
    }
    proof {
        assert(tree_height(1) == 0);
        lemma2_to64();
    }
    (p, h)
}

/// The leaves followed by zero nodes up to `width` slots.
pub fn padded(leaves: &[Node], width: usize) -> (res: Vec<Node>)
    requires
        leaves.len() <= width,
    ensures
        res@ == pad(leaves@, width as nat),
{
    let mut out: Vec<Node> = Vec::with_capacity(width);
    let mut i: usize = 0;
    while i < leaves.len()
        invariant
            i <= leaves.len(),
            out@ == leaves@.take(i as int),
        decreases leaves.len() - i,
    {
        out.push(leaves[i]);
        i = i + 1;
        assert(out@ =~= leaves@.take(i as int));
    }
    assert(out@ =~= pad(leaves@, out.len() as nat));
    while out.len() < width
        invariant
            leaves.len() <= out.len() <= width,
            out@ == pad(leaves@, out.len() as nat),
        decreases width - out.len(),
    {
        out.push(zero());
        assert(out@ =~= pad(leaves@, out.len() as nat));
    }
    out
}

/// The layer above `layer`, as `level_up` defines it.
pub fn next_level(hasher: NodeHasher, layer: &Vec<Node>) -> (res: Vec<Node>)
    requires
        layer.len() % 2 == 0,
    ensures
        res@ == level_up(hasher, layer@),
{
    let mut out: Vec<Node> = Vec::with_capacity(layer.len() / 2);
    let mut i: usize = 0;
    while i < layer.len()
        invariant
            i % 2 == 0,
            i <= layer.len(),
            layer.len() % 2 == 0,
            out@ == level_up(hasher, layer@).take((i / 2) as int),
        decreases layer.len() - i,
    {
        let parent = hash_node(hasher, &layer[i], &layer[i + 1]);
        out.push(parent);
        i = i + 2;
        assert(out@ =~= level_up(hasher, layer@).take((i / 2) as int));
    }
    assert(out@ =~= level_up(hasher, layer@));
    out
}

/// The node that a layer of `2^k` nodes reduces to.
fn reduce_layer(hasher: NodeHasher, layer: Vec<Node>, Ghost(k): Ghost<nat>) -> (res: Node)
    requires
        layer.len() == pow2(k),
    ensures
        res == reduce(hasher, layer@),
{
    let ghost target = reduce(hasher, layer@);
    let ghost mut k = k;
    let mut layer = layer;
    while layer.len() > 1
        invariant
            layer.len() == pow2(k),
            reduce(hasher, layer@) == target,
        decreases layer.len(),
    {
        proof {
            if k == 0 {
                lemma2_to64();
            }
            lemma_pow2_unfold(k);
        }
        let next = next_level(hasher, &layer);
        layer = next;
        proof {
            k = (k - 1) as nat;
        }
    }
    proof {
        lemma_pow2_pos(k);
    }
    layer[0]
}

/// The Merkle root of `leaves`, as `merkle_root` defines it.
pub fn root_of(hasher: NodeHasher, leaves: &[Node]) -> (res: Node)
    requires
        leaves.len() <= usize::MAX / 2,
    ensures
        res == merkle_root(hasher, leaves@),
{
    if leaves.len() == 0 {
        return zero();
    }
    let (width, height) = width_and_height(leaves.len());
    proof {
        lemma_width_bounds(leaves.len() as nat);
    }
    let layer = padded(leaves, width);
    reduce_layer(hasher, layer, Ghost(height as nat))
}

/// The state of a multi-proof verification after some flags: how many
/// target leaves, computed hashes and proof nodes have been consumed, the
/// hashes computed so far with their level, and the nodes collected from the
/// requested layer.
pub struct VerifyState {
    pub leaf_pos: int,
    pub hash_pos: int,
    pub proof_pos: int,
    pub hashes: Seq<(Node, u32)>,
    pub layer: Seq<Node>,
}

pub open spec fn initial_verify_state() -> VerifyState {
    VerifyState { leaf_pos: 0, hash_pos: 0, proof_pos: 0, hashes: seq![], layer: seq![] }
}

/// The next operand from the queue: the next target leaf (level 0) while any
/// is left, then the next computed hash.
pub open spec fn next_operand(leaves: Seq<Node>, st: VerifyState) -> Option<((Node, u32), VerifyState)> {
    if st.leaf_pos < leaves.len() {
        Some(((leaves[st.leaf_pos], 0u32), VerifyState { leaf_pos: st.leaf_pos + 1, ..st }))
    } else if st.hash_pos < st.hashes.len() {
        Some((st.hashes[st.hash_pos], VerifyState { hash_pos: st.hash_pos + 1, ..st }))
    } else {
        None
    }
}

/// The second operand of a step: from the queue when `flag` is set, else the
/// next proof node, at the first operand's level.
pub open spec fn second_operand(
    leaves: Seq<Node>,
    proof: Seq<Node>,
    a: (Node, u32),
    st: VerifyState,
    flag: bool,
) -> Option<((Node, u32), VerifyState)> {
    if flag {
        next_operand(leaves, st)
    } else if st.proof_pos < proof.len() {
        Some(((proof[st.proof_pos], a.1), VerifyState { proof_pos: st.proof_pos + 1, ..st }))
    } else {
        None
    }
}

/// One step of verification: hash two operands into a new queued hash one
/// level up, collecting both operands when they lie on the requested layer.
pub open spec fn verify_step(
    hasher: NodeHasher,
    leaves: Seq<Node>,
    proof: Seq<Node>,
    target_layer: Option<u32>,
    st: VerifyState,
    flag: bool,
) -> Option<VerifyState> {
    match next_operand(leaves, st) {
        None => None,
        Some((a, s1)) => match second_operand(leaves, proof, a, s1, flag) {
            None => None,
            Some((b, s2)) => {
                let layer = if target_layer == Some(a.1) {
                    s2.layer.push(a.0).push(b.0)
                } else {
                    s2.layer
                };
                Some(
                    VerifyState {
                        hashes: s2.hashes.push((node_hash(hasher, a.0, b.0), (a.1 + 1) as u32)),
                        layer,
                        ..s2
                    },
                )
            },
        },
    }
}

/// The state after all of `flags`, or `None` when an operand ran out.
pub open spec fn verify_run(
    hasher: NodeHasher,
    leaves: Seq<Node>,
    proof: Seq<Node>,
    flags: Seq<bool>,
    target_layer: Option<u32>,
) -> Option<VerifyState>
    decreases flags.len(),
{
    if flags.len() == 0 {
        Some(initial_verify_state())
    } else {
        match verify_run(hasher, leaves, proof, flags.drop_last(), target_layer) {
            None => None,
            Some(st) => verify_step(hasher, leaves, proof, target_layer, st, flags.last()),
        }
    }
}

/// The outcome of verifying a multi-proof: whether the computed root is the
/// expected one, the computed root, and (when a layer was requested) the
/// nodes collected from that layer.
pub open spec fn verify_outcome(
    hasher: NodeHasher,
    expected_root: Node,
    leaves: Seq<Node>,
    proof: Seq<Node>,
    flags: Seq<bool>,
    target_layer: Option<u32>,
) -> (bool, Node, Option<Seq<Node>>) {
    if leaves.len() == 1 && proof.len() == 0 && flags.len() == 0 {
        (
            leaves[0] == expected_root,
            leaves[0],
            if target_layer == Some(0u32) { Some(seq![leaves[0]]) } else { None },
        )
    } else if leaves.len() == 0 {
        (false, zero_node(), None)
    } else {
        match verify_run(hasher, leaves, proof, flags, target_layer) {
            None => (false, zero_node(), None),
            Some(st) => if st.leaf_pos != leaves.len() || st.proof_pos != proof.len() {
                (false, zero_node(), None)
            } else {
                let root = st.hashes.last().0;
                let level = st.hashes.last().1;
                let layer = if target_layer == Some(level) { st.layer.push(root) } else { st.layer };
                (root == expected_root, root, if target_layer is Some { Some(layer) } else { None })
            },
        }
    }
}

pub open spec fn layer_view(layer: Option<Vec<Node>>) -> Option<Seq<Node>> {
    match layer {
        Some(v) => Some(v@),
        None => None,
    }
}

proof fn lemma_verify_run_stays_failed(
    hasher: NodeHasher,
    leaves: Seq<Node>,
    proof: Seq<Node>,
    flags: Seq<bool>,
    target_layer: Option<u32>,
    i: int,
)
    requires
        0 <= i <= flags.len(),
        verify_run(hasher, leaves, proof, flags.take(i), target_layer) is None,
    ensures
        verify_run(hasher, leaves, proof, flags, target_layer) is None,
    decreases flags.len() - i,
{
    if i < flags.len() {
        assert(flags.take(i + 1).drop_last() =~= flags.take(i));
        lemma_verify_run_stays_failed(hasher, leaves, proof, flags, target_layer, i + 1);
    } else {
        assert(flags.take(i) =~= flags);
    }
}

fn layer_matches(target_layer: Option<u32>, level: u32) -> (res: bool)
    ensures
        res == (target_layer == Some(level)),
{
    match target_layer {
        Some(t) => t == level,
        None => false,
    }
}

/// Verifies a multi-leaf proof and optionally collects the nodes of one
/// layer, with `hasher` as the parent hash.
pub fn verify_multi_proof_with(
    hasher: NodeHasher,
    expected_root: &Node,
    target_leaves: &[Node],
    proof: &[Node],
    flags: &[bool],
    target_layer: Option<u32>,
) -> (res: (bool, Node, Option<Vec<Node>>))
    requires
        flags.len() < u32::MAX,
    ensures
        (res.0, res.1, layer_view(res.2)) == verify_outcome(
            hasher,
            *expected_root,
            target_leaves@,
            proof@,
            flags@,
            target_layer,
        ),
{
    if target_leaves.len() == 1 && proof.len() == 0 && flags.len() == 0 {
        let valid = crate::node::node_eq(&target_leaves[0], expected_root);
        let layer = if layer_matches(target_layer, 0) {
            let mut v: Vec<Node> = Vec::new();
            v.push(target_leaves[0]);
            assert(v@ =~= seq![target_leaves@[0]]);
            Some(v)
        } else {
            None
        };
        return (valid, target_leaves[0], layer);
    }
    if target_leaves.len() == 0 {
        return (false, zero(), None);
    }
    let ghost leaves = target_leaves@;
    let ghost pf = proof@;
    let mut hashes: Vec<(Node, u32)> = Vec::with_capacity(flags.len());
    let mut leaf_pos: usize = 0;
    let mut hash_pos: usize = 0;
    let mut proof_pos: usize = 0;
    let mut extracted_layer: Vec<Node> = Vec::new();
    let mut i: usize = 0;
    while i < flags.len()
        invariant
            leaves == target_leaves@,
            pf == proof@,
            flags.len() < u32::MAX,
            i <= flags.len(),
            leaf_pos <= target_leaves.len(),
            hash_pos <= hashes.len(),
            proof_pos <= proof.len(),
            hashes.len() == i,
            forall|k: int| 0 <= k < hashes.len() ==> #[trigger] hashes@[k].1 <= k + 1,
            verify_run(hasher, leaves, pf, flags@.take(i as int), target_layer) == Some(
                VerifyState {
                    leaf_pos: leaf_pos as int,
                    hash_pos: hash_pos as int,
                    proof_pos: proof_pos as int,
                    hashes: hashes@,
                    layer: extracted_layer@,
                },
            ),
        decreases flags.len() - i,
    {
        let flag = flags[i];
        let ghost st = VerifyState {
            leaf_pos: leaf_pos as int,
            hash_pos: hash_pos as int,
            proof_pos: proof_pos as int,
            hashes: hashes@,
            layer: extracted_layer@,
        };
        proof {
            assert(flags@.take(i + 1).drop_last() =~= flags@.take(i as int));
        }
        let a_item: (Node, u32) = if leaf_pos < target_leaves.len() {
            leaf_pos = leaf_pos + 1;
            (target_leaves[leaf_pos - 1], 0)
        } else if hash_pos < hashes.len() {
            hash_pos = hash_pos + 1;
            hashes[hash_pos - 1]
        } else {
            proof {
                lemma_verify_run_stays_failed(hasher, leaves, pf, flags@, target_layer, i + 1);
            }
            return (false, zero(), None);
        };
        let b_item: (Node, u32) = if flag {
            if leaf_pos < target_leaves.len() {
                leaf_pos = leaf_pos + 1;
                (target_leaves[leaf_pos - 1], 0)
            } else if hash_pos < hashes.len() {
                hash_pos = hash_pos + 1;
                hashes[hash_pos - 1]
            } else {
                proof {
                    lemma_verify_run_stays_failed(hasher, leaves, pf, flags@, target_layer, i + 1);
                }
                return (false, zero(), None);
            }
        } else {
            if proof_pos < proof.len() {
                proof_pos = proof_pos + 1;
                (proof[proof_pos - 1], a_item.1)
            } else {
                proof {
                    lemma_verify_run_stays_failed(hasher, leaves, pf, flags@, target_layer, i + 1);
                }
                return (false, zero(), None);
            }
        };
        if layer_matches(target_layer, a_item.1) {
            extracted_layer.push(a_item.0);
            extracted_layer.push(b_item.0);
        }
        let new_hash = hash_node(hasher, &a_item.0, &b_item.0);
        hashes.push((new_hash, a_item.1 + 1));
        i = i + 1;
    }
    proof {
        assert(flags@.take(flags.len() as int) =~= flags@);
    }
    if leaf_pos != target_leaves.len() || proof_pos != proof.len() {
        return (false, zero(), None);
    }
    let last = hashes[hashes.len() - 1];
    let computed_root = last.0;
    let root_level = last.1;
    if layer_matches(target_layer, root_level) {
        extracted_layer.push(computed_root);
    }
    let layer_result = if target_layer.is_some() { Some(extracted_layer) } else { None };
    let valid = crate::node::node_eq(&computed_root, expected_root);
    (valid, computed_root, layer_result)
}

/// Proof nodes, flags and parent targets that one level contributes, from
/// the pair starting at `i` with target cursor `tp` onwards. For each pair
/// holding a target: flag `true` when both nodes are targets; otherwise flag
/// `false` and the sibling of the target as a proof node. Each such pair's
/// parent is a target one level up.
pub open spec fn scan_pairs(layer: Seq<Node>, targets: Seq<usize>, i: int, tp: int) -> (
    Seq<Node>,
    Seq<bool>,
    Seq<usize>,
)
    decreases layer.len() - i,
{
    if i < 0 || i + 2 > layer.len() {
        (seq![], seq![], seq![])
    } else {
        let left_target = 0 <= tp < targets.len() && targets[tp] == i;
        let tp1 = if left_target { tp + 1 } else { tp };
        let right_target = 0 <= tp1 < targets.len() && targets[tp1] == i + 1;
        let tp2 = if right_target { tp1 + 1 } else { tp1 };
        let rest = scan_pairs(layer, targets, i + 2, tp2);
        let parent = (i / 2) as usize;
        if left_target && right_target {
            (rest.0, seq![true] + rest.1, seq![parent] + rest.2)
        } else if left_target {
            (seq![layer[i + 1]] + rest.0, seq![false] + rest.1, seq![parent] + rest.2)
        } else if right_target {
            (seq![layer[i]] + rest.0, seq![false] + rest.1, seq![parent] + rest.2)
        } else {
            rest
        }
    }
}

/// The proof nodes and flags of a multi-proof for `targets` in `layer`,
/// level by level from the bottom.
pub open spec fn multi_proof(hasher: NodeHasher, layer: Seq<Node>, targets: Seq<usize>) -> (
    Seq<Node>,
    Seq<bool>,
)
    decreases layer.len(),
{
    if layer.len() <= 1 {
        (seq![], seq![])
    } else {
        let level = scan_pairs(layer, targets, 0, 0);
        let above = multi_proof(hasher, level_up(hasher, layer), level.2);
        (level.0 + above.0, level.1 + above.1)
    }
}

proof fn lemma_scan_len(layer: Seq<Node>, targets: Seq<usize>, i: int, tp: int)
    requires
        0 <= i <= layer.len(),
    ensures
        scan_pairs(layer, targets, i, tp).1.len() <= (layer.len() - i) / 2,
        scan_pairs(layer, targets, i, tp).0.len() <= scan_pairs(layer, targets, i, tp).1.len(),
    decreases layer.len() - i,
{
    if i + 2 <= layer.len() {
        let left_target = 0 <= tp < targets.len() && targets[tp] == i;
        let tp1 = if left_target { tp + 1 } else { tp };
        let right_target = 0 <= tp1 < targets.len() && targets[tp1] == i + 1;
        let tp2 = if right_target { tp1 + 1 } else { tp1 };
        lemma_scan_len(layer, targets, i + 2, tp2);
    }
}

/// A multi-proof over a layer of `n >= 1` nodes has fewer than `n` flags,
/// and no more proof nodes than flags.
pub proof fn lemma_multi_proof_len(hasher: NodeHasher, layer: Seq<Node>, targets: Seq<usize>)
    requires
        layer.len() >= 1,
    ensures
        multi_proof(hasher, layer, targets).1.len() < layer.len(),
        multi_proof(hasher, layer, targets).0.len() <= multi_proof(hasher, layer, targets).1.len(),
    decreases layer.len(),
{
    if layer.len() > 1 {
        lemma_scan_len(layer, targets, 0, 0);
        lemma_multi_proof_len(hasher, level_up(hasher, layer), scan_pairs(layer, targets, 0, 0).2);
    }
}

/// `leaves` after the first `n` of the replacements `targets[j] := values[j]`,
/// skipping targets outside the leaves.
pub open spec fn apply_replacements(
    leaves: Seq<Node>,
    targets: Seq<usize>,
    values: Seq<Node>,
    n: int,
) -> Seq<Node>
    decreases n,
{
    if n <= 0 {
        leaves
    } else {
        let before = apply_replacements(leaves, targets, values, n - 1);
        if targets[n - 1] < leaves.len() {
            before.update(targets[n - 1] as int, values[n - 1])
        } else {
            before
        }
    }
}

pub open spec fn replaced_leaves(leaves: Seq<Node>, targets: Seq<usize>, values: Seq<Node>) -> Seq<Node> {
    apply_replacements(leaves, targets, values, targets.len() as int)
}

pub open spec fn strictly_increasing(s: Seq<usize>) -> bool {
    forall|a: int, b: int| 0 <= a < b < s.len() ==> s[a] < s[b]
}

proof fn lemma_replacements_len(leaves: Seq<Node>, targets: Seq<usize>, values: Seq<Node>, n: int)
    ensures
        apply_replacements(leaves, targets, values, n).len() == leaves.len(),
    decreases n,
{
    if n > 0 {
        lemma_replacements_len(leaves, targets, values, n - 1);
    }
}

/// The proof nodes, flags and parent targets of one level.
fn level_proof(layer: &Vec<Node>, targets: &Vec<usize>) -> (res: (Vec<Node>, Vec<bool>, Vec<usize>))
    requires
        layer.len() % 2 == 0,
        layer.len() < usize::MAX,
    ensures
        (res.0@, res.1@, res.2@) == scan_pairs(layer@, targets@, 0, 0),
{
    let ghost whole = scan_pairs(layer@, targets@, 0, 0);
    let mut proof: Vec<Node> = Vec::new();
    let mut flags: Vec<bool> = Vec::new();
    let mut next: Vec<usize> = Vec::new();
    let mut i: usize = 0;
    let mut tp: usize = 0;
    while i < layer.len()
        invariant
            layer.len() % 2 == 0,
            layer.len() < usize::MAX,
            i % 2 == 0,
            i <= layer.len(),
            tp <= targets.len(),
            proof@ + scan_pairs(layer@, targets@, i as int, tp as int).0 == whole.0,
            flags@ + scan_pairs(layer@, targets@, i as int, tp as int).1 == whole.1,
            next@ + scan_pairs(layer@, targets@, i as int, tp as int).2 == whole.2,
        decreases layer.len() - i,
    {
        let ghost rest_before = scan_pairs(layer@, targets@, i as int, tp as int);
        let left_target = tp < targets.len() && targets[tp] == i;
        if left_target {
            tp = tp + 1;
        }
        let right_target = tp < targets.len() && targets[tp] == i + 1;
        if right_target {
            tp = tp + 1;
        }
        let ghost rest_after = scan_pairs(layer@, targets@, i + 2, tp as int);
        let ghost p0 = proof@;
        let ghost f0 = flags@;
        let ghost n0 = next@;
        if left_target && right_target {
            flags.push(true);
            next.push(i / 2);
            assert(flags@ + rest_after.1 =~= f0 + rest_before.1);
            assert(next@ + rest_after.2 =~= n0 + rest_before.2);
            assert(proof@ + rest_after.0 =~= p0 + rest_before.0);
        } else if left_target {
            flags.push(false);
            proof.push(layer[i + 1]);
            next.push(i / 2);
            assert(flags@ + rest_after.1 =~= f0 + rest_before.1);
            assert(next@ + rest_after.2 =~= n0 + rest_before.2);
            assert(proof@ + rest_after.0 =~= p0 + rest_before.0);
        } else if right_target {
            flags.push(false);
            proof.push(layer[i]);
            next.push(i / 2);
            assert(flags@ + rest_after.1 =~= f0 + rest_before.1);
            assert(next@ + rest_after.2 =~= n0 + rest_before.2);
            assert(proof@ + rest_after.0 =~= p0 + rest_before.0);
        }
        i = i + 2;
    }
    assert(proof@ =~= whole.0);
    assert(flags@ =~= whole.1);
    assert(next@ =~= whole.2);
    (proof, flags, next)
}

pub(crate) fn copy_slice<T: Copy>(s: &[T]) -> (res: Vec<T>)
    ensures
        res@ == s@,
{
    let mut out: Vec<T> = Vec::with_capacity(s.len());
    let mut i: usize = 0;
    while i < s.len()
        invariant
            i <= s.len(),
            out@ == s@.take(i as int),
        decreases s.len() - i,
    {
        out.push(s[i]);
        i = i + 1;
        assert(out@ =~= s@.take(i as int));
    }
    assert(out@ =~= s@);
    out
}

/// `leaves` with `targets[j] := values[j]` for each `j`, skipping targets
/// outside the leaves.
fn replace_leaves(leaves: &[Node], targets: &[usize], values: &[Node]) -> (res: Vec<Node>)
    requires
        targets.len() == values.len(),
    ensures
        res@ == replaced_leaves(leaves@, targets@, values@),
{
    let mut out = copy_slice(leaves);
    let mut j: usize = 0;
    while j < targets.len()
        invariant
            targets.len() == values.len(),
            j <= targets.len(),
            out@ == apply_replacements(leaves@, targets@, values@, j as int),
            out.len() == leaves.len(),
        decreases targets.len() - j,
    {
        let idx = targets[j];
        if idx < out.len() {
            out.set(idx, values[j]);
        }
        j = j + 1;
    }
    out
}

/// A Merkle tree over 32-byte leaves, hashed with SHA-256.
pub struct MerkleTree {
    pub leaves: Vec<Node>,
}

impl MerkleTree {
    pub fn new(leaves: Vec<Node>) -> (res: Self)
        ensures
            res.leaves@ == leaves@,
    {
        MerkleTree { leaves }
    }

    /// The root of the tree: zero for no leaves, otherwise the reduction of
    /// the leaves padded with zero nodes to a power-of-two width.
    pub fn root(&self) -> (res: Node)
        requires
            self.leaves.len() <= usize::MAX / 2,
        ensures
            res == merkle_root(NodeHasher::Sha256, self.leaves@),
    {
        root_of(NodeHasher::Sha256, self.leaves.as_slice())
    }

    /// Builds the multi-proof for the sorted `target_indices`, and computes
    /// the root before and after the targets take `target_leaves_values`.
    /// Returns the current root, the updated root, the tree height, the
    /// proof nodes and the flags.
    pub fn build_multi_proof(&self, target_indices: &[usize], target_leaves_values: &[Node]) -> (res: (
        Node,
        Node,
        u32,
        Vec<Node>,
        Vec<bool>,
    ))
        requires
            self.leaves.len() > 0,
            self.leaves.len() <= usize::MAX / 2,
            target_indices.len() == target_leaves_values.len(),
            strictly_increasing(target_indices@),
        ensures
            res.0 == merkle_root(NodeHasher::Sha256, self.leaves@),
            res.1 == merkle_root(
                NodeHasher::Sha256,
                replaced_leaves(self.leaves@, target_indices@, target_leaves_values@),
            ),
            res.2 == tree_height(self.leaves.len() as nat),
            (res.3@, res.4@) == multi_proof(
                NodeHasher::Sha256,
                pad(self.leaves@, tree_width(self.leaves.len() as nat)),
                target_indices@,
            ),
            res.4@.len() < 2 * self.leaves.len(),
            res.3@.len() <= res.4@.len(),
    {
        let hasher = NodeHasher::Sha256;
        let replaced = replace_leaves(self.leaves.as_slice(), target_indices, target_leaves_values);
        proof {
            lemma_replacements_len(
                self.leaves@,
                target_indices@,
                target_leaves_values@,
                target_indices.len() as int,
            );
            lemma_width_bounds(self.leaves.len() as nat);
        }
        let (width, height) = width_and_height(self.leaves.len());
        let mut current = padded(self.leaves.as_slice(), width);
        let mut updated = padded(replaced.as_slice(), width);
        let ghost old_root = reduce(hasher, current@);
        let ghost new_root = reduce(hasher, updated@);
        let ghost whole = multi_proof(hasher, current@, target_indices@);
        proof {
            lemma_multi_proof_len(hasher, current@, target_indices@);
        }
        if current.len() == 1 {
            return (current[0], updated[0], height, Vec::new(), Vec::new());
        }
        let mut targets = copy_slice(target_indices);
        let mut proof: Vec<Node> = Vec::new();
        let mut flags: Vec<bool> = Vec::new();
        let ghost mut k = height as nat;
        while current.len() > 1
            invariant
                current.len() == pow2(k),
                updated.len() == current.len(),
                current.len() < usize::MAX,
                reduce(hasher, current@) == old_root,
                reduce(hasher, updated@) == new_root,
                proof@ + multi_proof(hasher, current@, targets@).0 == whole.0,
                flags@ + multi_proof(hasher, current@, targets@).1 == whole.1,
            decreases current.len(),
        {
            proof {
                if k == 0 {
                    lemma2_to64();
                }
                lemma_pow2_unfold(k);
            }
            let ghost above = multi_proof(hasher, level_up(hasher, current@), scan_pairs(current@, targets@, 0, 0).2);
            let ghost p0 = proof@;
            let ghost f0 = flags@;
            let ghost level = scan_pairs(current@, targets@, 0, 0);
            let (mut level_nodes, mut level_flags, next_targets) = level_proof(&current, &targets);
            proof.append(&mut level_nodes);
            flags.append(&mut level_flags);
            current = next_level(hasher, &current);
            updated = next_level(hasher, &updated);
            targets = next_targets;
            proof {
                k = (k - 1) as nat;
                assert(proof@ + above.0 =~= p0 + (level.0 + above.0));
                assert(flags@ + above.1 =~= f0 + (level.1 + above.1));
            }
        }
        proof {
            lemma_pow2_pos(k);
        }
        (current[0], updated[0], height, proof, flags)
    }

    /// Verifies a multi-proof against `expected_root`, optionally collecting
    /// the nodes of layer `target_layer`; see `verify_outcome`.
    pub fn verify_multi_proof(
        expected_root: &Node,
        target_leaves: &[Node],
        proof: &[Node],
        flags: &[bool],
        target_layer: Option<u32>,
    ) -> (res: (bool, Node, Option<Vec<Node>>))
        requires
            flags.len() < u32::MAX,
        ensures
            (res.0, res.1, layer_view(res.2)) == verify_outcome(
                NodeHasher::Sha256,
                *expected_root,
                target_leaves@,
                proof@,
                flags@,
                target_layer,
            ),
    {
        verify_multi_proof_with(NodeHasher::Sha256, expected_root, target_leaves, proof, flags, target_layer)
    }
}

} // verus!
