//! Small helpers on sequences.
use vstd::prelude::*;
use std::collections::HashSet;

verus! {

/// `s` with every element after its first occurrence removed.
pub open spec fn first_occurrences(s: Seq<u64>) -> Seq<u64>
    decreases s.len(),
{
    if s.len() == 0 {
        seq![]
    } else {
        let before = first_occurrences(s.drop_last());
        if s.drop_last().contains(s.last()) {
            before
        } else {
            before.push(s.last())
        }
    }
}

/// `first_occurrences(s)` holds the elements of `s` and nothing else, each
/// exactly once.
pub proof fn lemma_first_occurrences(s: Seq<u64>)
    ensures
        forall|x: u64| first_occurrences(s).contains(x) <==> s.contains(x),
        first_occurrences(s).no_duplicates(),
        first_occurrences(s).len() <= s.len(),
    decreases s.len(),
{
    if s.len() > 0 {
        let init = s.drop_last();
        lemma_first_occurrences(init);
        assert forall|x: u64| s.contains(x) <==> (init.contains(x) || x == s.last()) by {
            if s.contains(x) {
                let k = choose|k: int| 0 <= k < s.len() && s[k] == x;
                if k < s.len() - 1 {
                    assert(init[k] == x);
                }
            }
            if init.contains(x) {
                let k = choose|k: int| 0 <= k < init.len() && init[k] == x;
                assert(s[k] == x);
            }
            if x == s.last() {
                assert(s[s.len() - 1] == x);
            }
        }
        let before = first_occurrences(init);
        if !init.contains(s.last()) {
            assert forall|x: u64| before.push(s.last()).contains(x) <==> (before.contains(x) || x == s.last()) by {
                if before.push(s.last()).contains(x) {
                    let k = choose|k: int| 0 <= k < before.len() + 1 && before.push(s.last())[k] == x;
                    if k < before.len() {
                        assert(before[k] == x);
                    }
                }
                if before.contains(x) {
                    let k = choose|k: int| 0 <= k < before.len() && before[k] == x;
                    assert(before.push(s.last())[k] == x);
                }
                if x == s.last() {
                    assert(before.push(s.last())[before.len() as int] == x);
                }
            }
        }
    }
}

/// The distinct elements of `elements`, each at its first occurrence, in
/// order.
pub fn unique_elements(elements: &[u64]) -> (res: Vec<u64>)
    ensures
        res@ == first_occurrences(elements@),
        res@.no_duplicates(),
        forall|x: u64| res@.contains(x) <==> elements@.contains(x),
{
    broadcast use vstd::std_specs::hash::group_hash_axioms;
    let mut seen: HashSet<u64> = HashSet::new();
    let mut result: Vec<u64> = Vec::new();
    let mut i: usize = 0;
    while i < elements.len()
        invariant
            i <= elements.len(),
            forall|x: u64| seen@.contains(x) <==> elements@.take(i as int).contains(x),
            result@ == first_occurrences(elements@.take(i as int)),
        decreases elements.len() - i,
    {
        let element = elements[i];
        let ghost prefix = elements@.take(i as int);
        let ghost next = elements@.take(i + 1);
        assert(next.drop_last() =~= prefix);
        assert(next.last() == element);
        proof {
            lemma_first_occurrences(next);
        }
        assert forall|x: u64| next.contains(x) <==> (prefix.contains(x) || x == element) by {
            if next.contains(x) {
                let k = choose|k: int| 0 <= k < next.len() && next[k] == x;
                if k < prefix.len() {
                    assert(prefix[k] == x);
                }
            }
            if prefix.contains(x) {
                let k = choose|k: int| 0 <= k < prefix.len() && prefix[k] == x;
                assert(next[k] == x);
            }
            if x == element {
                assert(next[i as int] == x);
            }
        }
        if seen.insert(element) {
            result.push(element);
        }
        i = i + 1;
    }
    assert(elements@.take(elements.len() as int) =~= elements@);
    proof {
        lemma_first_occurrences(elements@);
    }
    result
}

} // verus!
