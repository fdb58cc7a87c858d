//! Laws of Merkle roots and of their verification: zero padding up to the
//! width and swapping two siblings leave the root unchanged, parent hashes
//! that agree give the same roots and the same verdicts, the verdict is the
//! comparison of the recomputed root with the expected one, and each node of
//! a layer is the root of the slice of leaves below it, so that the nodes
//! collected for a single target are the roots of its slice and of the
//! sibling slice.
use vstd::prelude::*;
use vstd::arithmetic::power2::{pow2, lemma_pow2_unfold, lemma2_to64, lemma_pow2_pos, lemma_pow2_adds};
use vstd::arithmetic::mul::lemma_mul_inequality;
use crate::node::{Node, NodeHasher, node_hash, zero_node, lemma_node_hash_symmetric};
use crate::merkle::{
    tree_height,
    tree_width,
    pad,
    level_up,
    reduce,
    merkle_root,
    lemma_width_bounds,
    verify_step,
    verify_run,
    verify_outcome,
    scan_pairs,
    next_operand,
    second_operand,
};
use crate::multiproof::{layer_nodes, layer_pairs, left_is_target, right_is_target, after_pair};
use vstd::arithmetic::div_mod::{lemma_div_denominator, lemma_multiply_divide_lt};

verus! {

proof fn lemma_height_is_least(n: nat)
    requires
        n >= 1,
    ensures
        tree_height(n) == 0 || pow2((tree_height(n) - 1) as nat) < n,
    decreases n,
{
    if n > 1 {
        let c = ((n + 1) / 2) as nat;
        lemma_height_is_least(c);
        let hc = tree_height(c);
        assert(tree_height(n) == 1 + hc);
        if hc == 0 {
            lemma2_to64();
        } else {
            lemma_pow2_unfold(hc);
        }
    }
}

proof fn lemma_height_of(m: nat, h: nat)
    requires
        m >= 1,
        m <= pow2(h),
        h == 0 || pow2((h - 1) as nat) < m,
    ensures
        tree_height(m) == h,
    decreases h,
{
    if h == 0 {
        lemma2_to64();
    } else {
        lemma_pow2_unfold(h);
        lemma_pow2_pos((h - 1) as nat);
        let c = ((m + 1) / 2) as nat;
        if h > 1 {
            lemma_pow2_unfold((h - 1) as nat);
        }
        lemma_height_of(c, (h - 1) as nat);
    }
}

/// Zero leaves appended up to the width of the tree leave its root
/// unchanged.
pub proof fn lemma_zero_padding_keeps_root(hasher: NodeHasher, leaves: Seq<Node>, k: nat)
    requires
        leaves.len() >= 1,
        leaves.len() + k <= tree_width(leaves.len()),
    ensures
        merkle_root(hasher, leaves + Seq::new(k, |i: int| zero_node())) == merkle_root(hasher, leaves),
{
    let n = leaves.len();
    let m = n + k;
    let longer = leaves + Seq::new(k, |i: int| zero_node());
    lemma_width_bounds(n);
    lemma_height_is_least(n);
    lemma_height_of(m, tree_height(n));
    let w = tree_width(n);
    assert(pad(longer, tree_width(m)) =~= pad(leaves, w));
}

/// Swapping the two leaves of a pair of siblings leaves the root unchanged.
pub proof fn lemma_sibling_swap_keeps_root(hasher: NodeHasher, leaves: Seq<Node>, i: int)
    requires
        0 <= i,
        2 * i + 1 < leaves.len(),
    ensures
        merkle_root(
            hasher,
            leaves.update(2 * i, leaves[2 * i + 1]).update(2 * i + 1, leaves[2 * i]),
        ) == merkle_root(hasher, leaves),
{
    let n = leaves.len();
    let swapped = leaves.update(2 * i, leaves[2 * i + 1]).update(2 * i + 1, leaves[2 * i]);
    lemma_width_bounds(n);
    let w = tree_width(n);
    let a = pad(leaves, w);
    let b = pad(swapped, w);
    assert(level_up(hasher, b) =~= level_up(hasher, a)) by {
        assert forall|x: int| 0 <= x < a.len() / 2 implies level_up(hasher, b)[x] == level_up(hasher, a)[x] by {
            if x == i {
                lemma_node_hash_symmetric(hasher, a[2 * i], a[2 * i + 1]);
            } else {
                assert(b[2 * x] == a[2 * x]);
                assert(b[2 * x + 1] == a[2 * x + 1]);
            }
        }
    }
    assert(reduce(hasher, a) == reduce(hasher, level_up(hasher, a)));
    assert(reduce(hasher, b) == reduce(hasher, level_up(hasher, b)));
}

/// `h1` and `h2` give every pair of nodes the same parent.
pub open spec fn hashers_agree(h1: NodeHasher, h2: NodeHasher) -> bool {
    forall|a: Node, b: Node|
        #![trigger node_hash(h1, a, b)]
        #![trigger node_hash(h2, a, b)]
        node_hash(h1, a, b) == node_hash(h2, a, b)
}

proof fn lemma_reduce_agrees(h1: NodeHasher, h2: NodeHasher, layer: Seq<Node>)
    requires
        hashers_agree(h1, h2),
    ensures
        reduce(h1, layer) == reduce(h2, layer),
    decreases layer.len(),
{
    if layer.len() > 1 {
        assert(level_up(h1, layer) =~= level_up(h2, layer));
        lemma_reduce_agrees(h1, h2, level_up(h1, layer));
    }
}

/// When two parent hashes agree on every pair, the roots they give agree.
pub proof fn lemma_agreeing_hashers_same_root(h1: NodeHasher, h2: NodeHasher, leaves: Seq<Node>)
    requires
        hashers_agree(h1, h2),
    ensures
        merkle_root(h1, leaves) == merkle_root(h2, leaves),
{
    if leaves.len() > 0 {
        lemma_reduce_agrees(h1, h2, pad(leaves, tree_width(leaves.len())));
    }
}

proof fn lemma_run_agrees(
    h1: NodeHasher,
    h2: NodeHasher,
    leaves: Seq<Node>,
    proof: Seq<Node>,
    flags: Seq<bool>,
    target_layer: Option<u32>,
)
    requires
        hashers_agree(h1, h2),
    ensures
        verify_run(h1, leaves, proof, flags, target_layer) == verify_run(h2, leaves, proof, flags, target_layer),
    decreases flags.len(),
{
    if flags.len() > 0 {
        lemma_run_agrees(h1, h2, leaves, proof, flags.drop_last(), target_layer);
        match verify_run(h1, leaves, proof, flags.drop_last(), target_layer) {
            None => {},
            Some(st) => {
                assert(verify_step(h1, leaves, proof, target_layer, st, flags.last()) == verify_step(
                    h2,
                    leaves,
                    proof,
                    target_layer,
                    st,
                    flags.last(),
                ));
            },
        }
    }
}

/// When two parent hashes agree on every pair, verifying a multi-proof with
/// either gives the same verdict, root and layer.
pub proof fn lemma_agreeing_hashers_same_outcome(
    h1: NodeHasher,
    h2: NodeHasher,
    expected_root: Node,
    leaves: Seq<Node>,
    proof: Seq<Node>,
    flags: Seq<bool>,
    target_layer: Option<u32>,
)
    requires
        hashers_agree(h1, h2),
    ensures
        verify_outcome(h1, expected_root, leaves, proof, flags, target_layer) == verify_outcome(
            h2,
            expected_root,
            leaves,
            proof,
            flags,
            target_layer,
        ),
{
    lemma_run_agrees(h1, h2, leaves, proof, flags, target_layer);
}

/// The recomputed root and the collected layer do not depend on the
/// expected root, and a proof that verifies against one root verifies
/// against another exactly when that one is the recomputed root.
pub proof fn lemma_verdict_is_root_match(
    hasher: NodeHasher,
    e1: Node,
    e2: Node,
    leaves: Seq<Node>,
    proof: Seq<Node>,
    flags: Seq<bool>,
    target_layer: Option<u32>,
)
    ensures
        ({
            let o1 = verify_outcome(hasher, e1, leaves, proof, flags, target_layer);
            let o2 = verify_outcome(hasher, e2, leaves, proof, flags, target_layer);
            &&& o1.1 == o2.1
            &&& o1.2 == o2.2
            &&& o1.0 ==> (o2.0 == (o1.1 == e2))
        }),
{
}

/// The layer `k` levels above `layer`.
pub open spec fn layer_at(hasher: NodeHasher, layer: Seq<Node>, k: nat) -> Seq<Node>
    decreases k,
{
    if k == 0 {
        layer
    } else {
        layer_at(hasher, level_up(hasher, layer), (k - 1) as nat)
    }
}

/// The targets that a multi-proof for `targets` in `layer` has `k` levels
/// up.
pub open spec fn targets_at(hasher: NodeHasher, layer: Seq<Node>, targets: Seq<usize>, k: nat) -> Seq<usize>
    decreases k,
{
    if k == 0 {
        targets
    } else {
        targets_at(hasher, level_up(hasher, layer), scan_pairs(layer, targets, 0, 0).2, (k - 1) as nat)
    }
}

/// Node `j` of the layer `k` levels above a layer of `2^h` nodes is the
/// root of the slice of `2^k` nodes below it.
pub proof fn lemma_layer_at_subtree_roots(hasher: NodeHasher, layer: Seq<Node>, h: nat, k: nat, j: int)
    requires
        layer.len() == pow2(h),
        k <= h,
        0 <= j < pow2((h - k) as nat),
    ensures
        layer_at(hasher, layer, k).len() == pow2((h - k) as nat),
        j * pow2(k) >= 0,
        (j + 1) * pow2(k) <= layer.len(),
        layer_at(hasher, layer, k)[j] == reduce(hasher, layer.subrange(j * pow2(k), (j + 1) * pow2(k))),
    decreases k,
{
    lemma_pow2_pos(k);
    lemma_pow2_adds((h - k) as nat, k);
    lemma_mul_inequality(j + 1, pow2((h - k) as nat) as int, pow2(k) as int);
    assert(j * pow2(k) >= 0) by (nonlinear_arith)
        requires
            j >= 0,
            pow2(k) > 0,
    ;
    if k == 0 {
        lemma2_to64();
        let s = layer.subrange(j, j + 1);
        assert(reduce(hasher, s) == s[0]);
    } else {
        lemma_pow2_unfold(h);
        lemma_pow2_unfold(k);
        let up = level_up(hasher, layer);
        let p = pow2((k - 1) as nat);
        lemma_pow2_pos((k - 1) as nat);
        lemma_layer_at_subtree_roots(hasher, up, (h - 1) as nat, (k - 1) as nat, j);
        let sub = layer.subrange(j * pow2(k), (j + 1) * pow2(k));
        assert(j * pow2(k) == 2 * (j * p)) by (nonlinear_arith)
            requires
                pow2(k) == 2 * p,
        ;
        assert((j + 1) * pow2(k) == 2 * ((j + 1) * p)) by (nonlinear_arith)
            requires
                pow2(k) == 2 * p,
        ;
        assert((j + 1) * p == j * p + p) by (nonlinear_arith);
        assert(up.subrange(j * p, (j + 1) * p) =~= level_up(hasher, sub)) by {
            assert forall|x: int| 0 <= x < p implies up.subrange(j * p, (j + 1) * p)[x] == level_up(
                hasher,
                sub,
            )[x] by {
                assert(sub[2 * x] == layer[2 * (j * p + x)]);
                assert(sub[2 * x + 1] == layer[2 * (j * p + x) + 1]);
            }
        }
        assert(sub.len() >= 2);
        assert(reduce(hasher, sub) == reduce(hasher, level_up(hasher, sub)));
    }
}

/// Below the top of a tree of `2^h` nodes, the nodes that a verification
/// collects from the layer `k` levels up are the pairs of that layer, as
/// `layer_at` gives it, that hold one of its targets.
pub proof fn lemma_layer_nodes_are_pairs_of_layer(
    hasher: NodeHasher,
    layer: Seq<Node>,
    targets: Seq<usize>,
    h: nat,
    k: nat,
)
    requires
        layer.len() == pow2(h),
        k < h,
    ensures
        layer_nodes(hasher, layer, targets, k) == layer_pairs(
            layer_at(hasher, layer, k),
            targets_at(hasher, layer, targets, k),
            0,
            0,
        ),
    decreases k,
{
    lemma_pow2_unfold(h);
    lemma_pow2_pos((h - 1) as nat);
    if k > 0 {
        lemma_layer_nodes_are_pairs_of_layer(
            hasher,
            level_up(hasher, layer),
            scan_pairs(layer, targets, 0, 0).2,
            (h - 1) as nat,
            (k - 1) as nat,
        );
    }
}


proof fn lemma_scan_past_targets(layer: Seq<Node>, targets: Seq<usize>, i: int, tp: int)
    requires
        tp >= targets.len(),
    ensures
        scan_pairs(layer, targets, i, tp).2 == Seq::<usize>::empty(),
        layer_pairs(layer, targets, i, tp) == Seq::<Node>::empty(),
    decreases layer.len() - i,
{
    if !(i < 0 || i + 2 > layer.len()) {
        lemma_scan_past_targets(layer, targets, i + 2, tp);
    }
}

/// For a single target `t` at or after the pair at `i`: its parent is the
/// one target one level up, and the nodes collected are `t` and then its
/// sibling.
proof fn lemma_scan_single(layer: Seq<Node>, t: usize, i: int)
    requires
        0 <= i <= t < layer.len(),
        i % 2 == 0,
        layer.len() % 2 == 0,
    ensures
        scan_pairs(layer, seq![t], i, 0).2 == seq![(t / 2) as usize],
        layer_pairs(layer, seq![t], i, 0) == if t % 2 == 0 {
            seq![layer[t as int], layer[t + 1]]
        } else {
            seq![layer[t as int], layer[t - 1]]
        },
    decreases layer.len() - i,
{
    let ts = seq![t];
    if t == i {
        assert(left_is_target(ts, i, 0));
        assert(!right_is_target(ts, i, 0));
        lemma_scan_past_targets(layer, ts, i + 2, 1);
        assert(seq![(i / 2) as usize] + Seq::<usize>::empty() =~= seq![(t / 2) as usize]);
        assert(seq![layer[i], layer[i + 1]] + Seq::<Node>::empty() =~= seq![layer[i], layer[i + 1]]);
    } else if t == i + 1 {
        assert(!left_is_target(ts, i, 0));
        assert(right_is_target(ts, i, 0));
        assert(after_pair(ts, i, 0) == 1);
        lemma_scan_past_targets(layer, ts, i + 2, 1);
        assert(seq![(i / 2) as usize] + Seq::<usize>::empty() =~= seq![(t / 2) as usize]);
        assert(seq![layer[i + 1], layer[i]] + Seq::<Node>::empty() =~= seq![layer[i + 1], layer[i]]);
    } else {
        assert(!left_is_target(ts, i, 0));
        assert(!right_is_target(ts, i, 0));
        lemma_scan_single(layer, t, i + 2);
    }
}

proof fn lemma_targets_at_single(hasher: NodeHasher, layer: Seq<Node>, h: nat, t: usize, k: nat)
    requires
        layer.len() == pow2(h),
        k <= h,
        t < layer.len(),
    ensures
        targets_at(hasher, layer, seq![t], k) == seq![((t as int) / (pow2(k) as int)) as usize],
    decreases k,
{
    if k == 0 {
        lemma2_to64();
        assert(pow2(0) == 1);
        assert((t as int) / 1 == t as int) by (nonlinear_arith);
    } else {
        lemma_pow2_unfold(h);
        lemma_pow2_unfold(k);
        lemma_pow2_pos((k - 1) as nat);
        lemma_scan_single(layer, t, 0);
        let up = level_up(hasher, layer);
        lemma_targets_at_single(hasher, up, (h - 1) as nat, (t / 2) as usize, (k - 1) as nat);
        lemma_div_denominator(t as int, 2, pow2((k - 1) as nat) as int);
        let pk = pow2((k - 1) as nat) as int;
        assert(((t / 2) as int) / pk == (t as int) / (2 * pk));
        assert((t as int) / (pow2(k) as int) == ((t / 2) as int) / pk);
        assert(targets_at(hasher, layer, seq![t], k) == targets_at(hasher, up, seq![(t / 2) as usize], (k - 1) as nat));
    }
}

/// For a single target leaf `t`, the nodes that a verification collects from
/// the layer `k` levels up, below the top, are the root of the slice of
/// leaves on `t`'s path and then the root of its sibling slice.
pub proof fn lemma_single_target_layer(hasher: NodeHasher, layer: Seq<Node>, h: nat, t: usize, k: nat)
    requires
        layer.len() == pow2(h),
        k < h,
        t < layer.len(),
    ensures
        ({
            let j = (t as int) / (pow2(k) as int);
            let s = if j % 2 == 0 { j + 1 } else { j - 1 };
            &&& 0 <= s * pow2(k)
            &&& (s + 1) * pow2(k) <= layer.len()
            &&& (j + 1) * pow2(k) <= layer.len()
            &&& layer_nodes(hasher, layer, seq![t], k) == seq![
                reduce(hasher, layer.subrange(j * pow2(k), (j + 1) * pow2(k))),
                reduce(hasher, layer.subrange(s * pow2(k), (s + 1) * pow2(k))),
            ]
        }),
{
    let p = pow2(k);
    let q = pow2((h - k) as nat);
    lemma_pow2_pos(k);
    lemma_pow2_adds(k, (h - k) as nat);
    lemma_multiply_divide_lt(t as int, p as int, q as int);
    let j = (t as int) / (p as int);
    lemma_pow2_unfold((h - k) as nat);
    let s: int = if j % 2 == 0 { j + 1 } else { j - 1 };
    assert(0 <= s < q);
    lemma_layer_nodes_are_pairs_of_layer(hasher, layer, seq![t], h, k);
    lemma_targets_at_single(hasher, layer, h, t, k);
    lemma_layer_at_subtree_roots(hasher, layer, h, k, j);
    lemma_layer_at_subtree_roots(hasher, layer, h, k, s);
    let lk = layer_at(hasher, layer, k);
    lemma_scan_single(lk, j as usize, 0);
}


/// The number of `true` flags.
pub open spec fn true_count(flags: Seq<bool>) -> nat
    decreases flags.len(),
{
    if flags.len() == 0 {
        0
    } else {
        true_count(flags.drop_last()) + if flags.last() {
            1nat
        } else {
            0nat
        }
    }
}

proof fn lemma_run_counts(
    hasher: NodeHasher,
    leaves: Seq<Node>,
    proof: Seq<Node>,
    flags: Seq<bool>,
    target_layer: Option<u32>,
)
    ensures
        verify_run(hasher, leaves, proof, flags, target_layer) matches Some(st) ==> {
            &&& st.leaf_pos + st.hash_pos == flags.len() + true_count(flags)
            &&& st.proof_pos + true_count(flags) == flags.len()
            &&& st.hashes.len() == flags.len()
            &&& 0 <= st.leaf_pos <= leaves.len()
            &&& 0 <= st.hash_pos
            &&& 0 <= st.proof_pos
            &&& (flags.len() > 0 ==> st.hash_pos < flags.len())
            &&& (flags.len() == 0 ==> st.hash_pos == 0)
        },
    decreases flags.len(),
{
    if flags.len() > 0 {
        let init = flags.drop_last();
        lemma_run_counts(hasher, leaves, proof, init, target_layer);
        match verify_run(hasher, leaves, proof, init, target_layer) {
            None => {},
            Some(st) => {
                match next_operand(leaves, st) {
                    None => {},
                    Some((a, s1)) => {
                        match second_operand(leaves, proof, a, s1, flags.last()) {
                            None => {},
                            Some((b, s2)) => {
                                assert(verify_run(hasher, leaves, proof, flags, target_layer) == verify_step(
                                    hasher,
                                    leaves,
                                    proof,
                                    target_layer,
                                    st,
                                    flags.last(),
                                ));
                            },
                        }
                    },
                }
            },
        }
    }
}

/// A multi-proof is accepted only when the flags account for every target
/// leaf and every proof node: each flag hashes two operands, a `true` flag
/// takes both from the target leaves and computed hashes, a `false` flag
/// takes one proof node; so the proof has one node per `false` flag, and the
/// target leaves number more than the `true` flags and at most the flags plus
/// the `true` flags. Without flags, only a single target leaf equal to the
/// expected root is accepted. An accepted proof's root is the expected one.
pub proof fn lemma_accepted_proof_uses_every_leaf(
    hasher: NodeHasher,
    expected_root: Node,
    leaves: Seq<Node>,
    proof: Seq<Node>,
    flags: Seq<bool>,
    target_layer: Option<u32>,
)
    ensures
        ({
            let o = verify_outcome(hasher, expected_root, leaves, proof, flags, target_layer);
            &&& o.0 ==> o.1 == expected_root
            &&& o.0 && flags.len() > 0 ==> {
                &&& proof.len() + true_count(flags) == flags.len()
                &&& true_count(flags) < leaves.len() <= flags.len() + true_count(flags)
            }
            &&& o.0 && flags.len() == 0 ==> leaves.len() == 1 && proof.len() == 0 && leaves[0] == expected_root
        }),
{
    lemma_run_counts(hasher, leaves, proof, flags, target_layer);
}

} // verus!
