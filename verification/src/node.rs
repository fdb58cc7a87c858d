//! Hashing two Merkle nodes into their parent.
use vstd::prelude::*;
use crate::hashing::{sha256, sha256_compress_pair, sha256_digest, risc0_hash_pair};

verus! {

/// Which hash primitive a tree is built with: the sequencer hashes with
/// standard SHA-256, the guest programs with the zkVM's SHA-256 compression.
#[derive(Clone, Copy, PartialEq, Eq, Debug, Structural)]
pub enum NodeHasher {
    Sha256,
    Risc0Compress,
}

/// A node value: 32 bytes.
pub type Node = [u8; 32];

/// The all-zero node, used for padding and for empty trees.
pub open spec fn zero_node() -> Node {
    choose|z: Node| is_zero_node(z)
}

pub open spec fn is_zero_node(a: Node) -> bool {
    forall|i: int| 0 <= i < 32 ==> #[trigger] a[i] == 0u8
}

/// `a` comes after `b` in lexicographic byte order.
pub open spec fn lex_greater(a: Node, b: Node) -> bool {
    exists|k: int|
        0 <= k < 32 && #[trigger] a[k] > b[k] && forall|j: int| 0 <= j < k ==> a[j] == b[j]
}

/// The parent of two nodes: zero when both are zero, otherwise the hash of
/// the smaller node followed by the larger one.
pub open spec fn node_hash(hasher: NodeHasher, a: Node, b: Node) -> Node {
    if is_zero_node(a) && is_zero_node(b) {
        zero_node()
    } else {
        let left = if lex_greater(a, b) { b } else { a };
        let right = if lex_greater(a, b) { a } else { b };
        match hasher {
            NodeHasher::Sha256 => sha256(left@ + right@),
            NodeHasher::Risc0Compress => sha256_compress_pair(left, right),
        }
    }
}

/// A node all of whose bytes are zero is the zero node.
pub proof fn lemma_zero_node(a: Node)
    requires
        is_zero_node(a),
    ensures
        is_zero_node(zero_node()),
        a == zero_node(),
{
    let zn = zero_node();
    assert(a =~= zn);
}

/// A fresh all-zero node.
pub fn zero() -> (res: Node)
    ensures
        res == zero_node(),
{
    let z = [0u8; 32];
    assert(is_zero_node(z));
    proof {
        lemma_zero_node(z);
    }
    z
}

proof fn lemma_lex_not_both(a: Node, b: Node)
    ensures
        !(lex_greater(a, b) && lex_greater(b, a)),
{
    if lex_greater(a, b) && lex_greater(b, a) {
        let k1 = choose|k: int|
            0 <= k < 32 && #[trigger] a[k] > b[k] && forall|j: int| 0 <= j < k ==> a[j] == b[j];
        let k2 = choose|k: int|
            0 <= k < 32 && #[trigger] b[k] > a[k] && forall|j: int| 0 <= j < k ==> b[j] == a[j];
        if k1 < k2 {
            assert(b[k1] == a[k1]);
        } else if k2 < k1 {
            assert(a[k2] == b[k2]);
        }
    }
}

proof fn lemma_lex_first_difference(a: Node, b: Node, k: int)
    requires
        0 <= k <= 32,
        forall|j: int| 0 <= j < k ==> a[j] == b[j],
        exists|i: int| k <= i < 32 && a[i] != b[i],
    ensures
        lex_greater(a, b) || lex_greater(b, a),
    decreases 32 - k,
{
    if a[k] > b[k] {
        assert(lex_greater(a, b));
    } else if b[k] > a[k] {
        assert(lex_greater(b, a));
    } else {
        lemma_lex_first_difference(a, b, k + 1);
    }
}

/// Two distinct nodes are ordered one way or the other.
pub proof fn lemma_lex_total(a: Node, b: Node)
    ensures
        a != b ==> (lex_greater(a, b) || lex_greater(b, a)),
        !(lex_greater(a, b) && lex_greater(b, a)),
{
    lemma_lex_not_both(a, b);
    if a != b {
        if forall|i: int| 0 <= i < 32 ==> a[i] == b[i] {
            assert(a =~= b);
        }
        lemma_lex_first_difference(a, b, 0);
    }
}

/// The parent does not depend on the order of its two children.
pub proof fn lemma_node_hash_symmetric(hasher: NodeHasher, a: Node, b: Node)
    ensures
        node_hash(hasher, a, b) == node_hash(hasher, b, a),
{
    lemma_lex_total(a, b);
}

fn is_zero(a: &Node) -> (res: bool)
    ensures
        res == is_zero_node(*a),
{
    let mut i: usize = 0;
    while i < 32
        invariant
            i <= 32,
            forall|j: int| 0 <= j < i ==> a[j] == 0u8,
        decreases 32 - i,
    {
        if a[i] != 0 {
            return false;
        }
        i = i + 1;
    }
    true
}

/// Lexicographic comparison of two nodes.
pub fn greater(a: &Node, b: &Node) -> (res: bool)
    ensures
        res == lex_greater(*a, *b),
{
    let mut i: usize = 0;
    while i < 32
        invariant
            i <= 32,
            forall|j: int| 0 <= j < i ==> a[j] == b[j],
        decreases 32 - i,
    {
        if a[i] != b[i] {
            let r = a[i] > b[i];
            proof {
                if !r {
                    assert(!lex_greater(*a, *b)) by {
                        if lex_greater(*a, *b) {
                            let k = choose|k: int|
                                0 <= k < 32 && #[trigger] a[k] > b[k] && forall|j: int|
                                    0 <= j < k ==> a[j] == b[j];
                            if k < i {
                            } else if k > i as int {
                                assert(a[i as int] == b[i as int]);
                            }
                        }
                    }
                }
            }
            return r;
        }
        i = i + 1;
    }
    false
}

/// Byte-wise equality of two nodes.
pub fn node_eq(a: &Node, b: &Node) -> (res: bool)
    ensures
        res == (*a == *b),
{
    let mut i: usize = 0;
    while i < 32
        invariant
            i <= 32,
            forall|j: int| 0 <= j < i ==> a[j] == b[j],
        decreases 32 - i,
    {
        if a[i] != b[i] {
            return false;
        }
        i = i + 1;
    }
    assert(*a =~= *b);
    true
}

pub(crate) fn concat_nodes(a: &Node, b: &Node) -> (res: Vec<u8>)
    ensures
        res@ == a@ + b@,
{
    let mut out: Vec<u8> = Vec::with_capacity(64);
    let mut i: usize = 0;
    while i < 32
        invariant
            i <= 32,
            out@ == a@.take(i as int),
        decreases 32 - i,
    {
        out.push(a[i]);
        i = i + 1;
    }
    let mut i: usize = 0;
    while i < 32
        invariant
            i <= 32,
            out@ == a@ + b@.take(i as int),
        decreases 32 - i,
    {
        out.push(b[i]);
        i = i + 1;
    }
    out
}

/// The parent of two nodes, as `node_hash` defines it.
pub fn hash_node(hasher: NodeHasher, a: &Node, b: &Node) -> (res: Node)
    ensures
        res == node_hash(hasher, *a, *b),
{
    if is_zero(a) && is_zero(b) {
        return zero();
    }
    let a_after_b = greater(a, b);
    let (left, right) = if a_after_b { (b, a) } else { (a, b) };
    match hasher {
        NodeHasher::Sha256 => {
            let data = concat_nodes(left, right);
            sha256_digest(data.as_slice())
        },
        NodeHasher::Risc0Compress => risc0_hash_pair(left, right),
    }
}

} // verus!
