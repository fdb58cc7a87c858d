//! What the prover guests compute: the Merkle root of a batch of issuer
//! roots, multi-proof verification, and the checks that decide whether a
//! batch of insertions or updates is accepted. The guests hash with the
//! zkVM's SHA-256 compression.
use vstd::prelude::*;
use crate::node::{Node, NodeHasher, concat_nodes};
use crate::hashing::{risc0_sha256, risc0_hash_bytes};
use crate::merkle::{merkle_root, root_of, verify_outcome, layer_view, verify_multi_proof_with};
use crate::items::{InsertItem, UpdateItem, StateTransitionProof};
use crate::signature::{SignatureCheck, signature_check, check_signature};

verus! {

/// The Merkle root of `leaves` with the guests' hash; zero for no leaves.
pub fn compute_merkle_root(leaves: &[Node]) -> (res: Node)
    requires
        leaves.len() <= usize::MAX / 2,
    ensures
        res == merkle_root(NodeHasher::Risc0Compress, leaves@),
{
    root_of(NodeHasher::Risc0Compress, leaves)
}

/// Verifies a multi-proof with the guests' hash; see `verify_outcome`.
pub fn verify_multi_proof(
    expected_root: &Node,
    target_leaves: &[Node],
    proof: &[Node],
    flags: &[bool],
    target_layer: Option<u32>,
) -> (res: (bool, Node, Option<Vec<Node>>))
    requires
        flags.len() < u32::MAX,
    ensures
        (res.0, res.1, layer_view(res.2)) == verify_outcome(
            NodeHasher::Risc0Compress,
            *expected_root,
            target_leaves@,
            proof@,
            flags@,
            target_layer,
        ),
{
    verify_multi_proof_with(NodeHasher::Risc0Compress, expected_root, target_leaves, proof, flags, target_layer)
}

/// The message an issuer signs for an update: the SHA-256 digest of the
/// current root followed by the updated root.
pub fn hash_sig_data(a: &Node, b: &Node) -> (res: Node)
    ensures
        res == risc0_sha256(a@ + b@),
{
    let concat = concat_nodes(a, b);
    risc0_hash_bytes(concat.as_slice())
}

/// Why a guest rejects a batch.
#[derive(Clone, Copy, PartialEq, Eq, Debug, Structural)]
pub enum GuestError {
    /// The public key of the item at this index is not a curve point.
    InvalidPublicKey(usize),
    /// The signature of the item at this index does not parse.
    InvalidSignature(usize),
    /// The signature of the item at this index does not verify.
    SignatureRejected(usize),
    /// The batch's Merkle root is not the expected root.
    RootMismatch,
    /// The current roots do not verify against the current state root.
    CurrentStateRejected,
    /// The updated roots do not verify against the updated state root.
    UpdatedStateRejected,
}

/// The uncompressed SEC1 encoding `0x04 || X || Y` of a public key given as
/// its two coordinates.
pub open spec fn uncompressed_point(xy: [u8; 64]) -> Seq<u8> {
    seq![4u8] + xy@
}

pub open spec fn check_error(check: SignatureCheck, index: int) -> GuestError {
    match check {
        SignatureCheck::InvalidKey => GuestError::InvalidPublicKey(index as usize),
        SignatureCheck::InvalidSignature => GuestError::InvalidSignature(index as usize),
        _ => GuestError::SignatureRejected(index as usize),
    }
}

/// The error of the first check that is not `Accepted`, if any.
pub open spec fn checks_verdict(checks: Seq<SignatureCheck>) -> Result<(), GuestError>
    decreases checks.len(),
{
    if checks.len() == 0 {
        Ok(())
    } else {
        match checks_verdict(checks.drop_last()) {
            Err(e) => Err(e),
            Ok(()) => if checks.last() == SignatureCheck::Accepted {
                Ok(())
            } else {
                Err(check_error(checks.last(), checks.len() - 1))
            },
        }
    }
}

pub open spec fn insert_roots(batch: Seq<InsertItem>) -> Seq<Node> {
    batch.map_values(|item: InsertItem| item.credential_root)
}

/// The signature check of each insertion: its credential root, signed with
/// its key.
pub open spec fn insert_checks(batch: Seq<InsertItem>) -> Seq<SignatureCheck> {
    batch.map_values(
        |item: InsertItem|
            signature_check(uncompressed_point(item.public_key), item.credential_root@, item.signature@),
    )
}

/// The guest's verdict on a batch of insertions: the first failing
/// signature, else whether the batch's root is the expected one.
pub open spec fn insert_verdict(expected_root: Node, batch: Seq<InsertItem>, checks: Seq<SignatureCheck>) -> Result<
    (),
    GuestError,
> {
    match checks_verdict(checks) {
        Err(e) => Err(e),
        Ok(()) => if merkle_root(NodeHasher::Risc0Compress, insert_roots(batch)) == expected_root {
            Ok(())
        } else {
            Err(GuestError::RootMismatch)
        },
    }
}

fn check_error_of(check: SignatureCheck, index: usize) -> (res: GuestError)
    ensures
        res == check_error(check, index as int),
{
    match check {
        SignatureCheck::InvalidKey => GuestError::InvalidPublicKey(index),
        SignatureCheck::InvalidSignature => GuestError::InvalidSignature(index),
        _ => GuestError::SignatureRejected(index),
    }
}

/// The first failing check, as `checks_verdict` defines it.
pub fn first_failed_check(checks: &[SignatureCheck]) -> (res: Result<(), GuestError>)
    ensures
        res == checks_verdict(checks@),
{
    let mut i: usize = 0;
    while i < checks.len()
        invariant
            i <= checks.len(),
            checks_verdict(checks@.take(i as int)) == Ok::<(), GuestError>(()),
        decreases checks.len() - i,
    {
        assert(checks@.take(i + 1).drop_last() =~= checks@.take(i as int));
        if checks[i] != SignatureCheck::Accepted {
            proof {
                lemma_verdict_stays_failed(checks@, i as int + 1);
            }
            return Err(check_error_of(checks[i], i));
        }
        i = i + 1;
    }
    assert(checks@.take(checks.len() as int) =~= checks@);
    Ok(())
}

proof fn lemma_verdict_stays_failed(checks: Seq<SignatureCheck>, i: int)
    requires
        0 <= i <= checks.len(),
        checks_verdict(checks.take(i)) is Err,
    ensures
        checks_verdict(checks) == checks_verdict(checks.take(i)),
    decreases checks.len() - i,
{
    if i < checks.len() {
        assert(checks.take(i + 1).drop_last() =~= checks.take(i));
        lemma_verdict_stays_failed(checks, i + 1);
    } else {
        assert(checks.take(i) =~= checks);
    }
}

fn uncompressed(xy: &[u8; 64]) -> (res: Vec<u8>)
    ensures
        res@ == uncompressed_point(*xy),
{
    let mut out: Vec<u8> = Vec::with_capacity(65);
    out.push(4u8);
    let mut i: usize = 0;
    while i < 64
        invariant
            i <= 64,
            out@ == seq![4u8] + xy@.take(i as int),
        decreases 64 - i,
    {
        out.push(xy[i]);
        i = i + 1;
        assert(out@ =~= seq![4u8] + xy@.take(i as int));
    }
    assert(xy@.take(64) =~= xy@);
    out
}

/// The signature check of each insertion, over its credential root.
pub fn insert_signature_checks(batch: &[InsertItem]) -> (res: Vec<SignatureCheck>)
    ensures
        res@ == insert_checks(batch@),
{
    let mut checks: Vec<SignatureCheck> = Vec::with_capacity(batch.len());
    let mut i: usize = 0;
    while i < batch.len()
        invariant
            i <= batch.len(),
            checks@ == insert_checks(batch@).take(i as int),
        decreases batch.len() - i,
    {
        let item = &batch[i];
        let key = uncompressed(&item.public_key);
        let check = check_signature(key.as_slice(), &item.credential_root, item.signature.as_slice());
        checks.push(check);
        i = i + 1;
        assert(checks@ =~= insert_checks(batch@).take(i as int));
    }
    assert(checks@ =~= insert_checks(batch@));
    checks
}

fn insert_roots_of(batch: &[InsertItem]) -> (res: Vec<Node>)
    ensures
        res@ == insert_roots(batch@),
{
    let mut roots: Vec<Node> = Vec::with_capacity(batch.len());
    let mut i: usize = 0;
    while i < batch.len()
        invariant
            i <= batch.len(),
            roots@ == insert_roots(batch@).take(i as int),
        decreases batch.len() - i,
    {
        roots.push(batch[i].credential_root);
        i = i + 1;
        assert(roots@ =~= insert_roots(batch@).take(i as int));
    }
    assert(roots@ =~= insert_roots(batch@));
    roots
}

/// The verdict on a batch of insertions, given the outcome of each
/// signature check.
pub fn decide_insert_batch(expected_root: &Node, batch: &[InsertItem], checks: &[SignatureCheck]) -> (res: Result<
    (),
    GuestError,
>)
    requires
        batch.len() <= usize::MAX / 2,
    ensures
        res == insert_verdict(*expected_root, batch@, checks@),
{
    match first_failed_check(checks) {
        Err(e) => Err(e),
        Ok(()) => {
            let roots = insert_roots_of(batch);
            let root = compute_merkle_root(roots.as_slice());
            if crate::node::node_eq(&root, expected_root) {
                Ok(())
            } else {
                Err(GuestError::RootMismatch)
            }
        },
    }
}

/// Checks a batch of insertions: every signature over its credential root
/// must verify, and the Merkle root of the credential roots must be
/// `expected_root`.
pub fn check_insert_batch(expected_root: &Node, batch: &[InsertItem]) -> (res: Result<(), GuestError>)
    requires
        batch.len() <= usize::MAX / 2,
    ensures
        res == insert_verdict(*expected_root, batch@, insert_checks(batch@)),
{
    let checks = insert_signature_checks(batch);
    decide_insert_batch(expected_root, batch, checks.as_slice())
}

pub open spec fn current_roots(batch: Seq<UpdateItem>) -> Seq<Node> {
    batch.map_values(|item: UpdateItem| item.current_credential_root)
}

pub open spec fn updated_roots(batch: Seq<UpdateItem>) -> Seq<Node> {
    batch.map_values(|item: UpdateItem| item.updated_credential_root)
}

pub open spec fn current_proof_nodes(proofs: Seq<StateTransitionProof>) -> Seq<Node> {
    proofs.map_values(|p: StateTransitionProof| p.current_state_proof)
}

pub open spec fn next_proof_nodes(proofs: Seq<StateTransitionProof>) -> Seq<Node> {
    proofs.map_values(|p: StateTransitionProof| p.next_state_proof)
}

/// The signature check of each update: the digest of its current root
/// followed by its updated root, signed with its key.
pub open spec fn update_checks(batch: Seq<UpdateItem>) -> Seq<SignatureCheck> {
    batch.map_values(
        |item: UpdateItem|
            signature_check(
                uncompressed_point(item.public_key),
                risc0_sha256(item.current_credential_root@ + item.updated_credential_root@)@,
                item.signature@,
            ),
    )
}

/// The guest's verdict on a batch of updates: the current roots must verify
/// against the current state root, the updated roots against the updated
/// state root, and then every signature must verify.
pub open spec fn update_verdict(
    expected_root: Node,
    updated_expected_root: Node,
    current_flags: Seq<bool>,
    updated_flags: Seq<bool>,
    proofs: Seq<StateTransitionProof>,
    batch: Seq<UpdateItem>,
    checks: Seq<SignatureCheck>,
) -> Result<(), GuestError> {
    if !verify_outcome(
        NodeHasher::Risc0Compress,
        expected_root,
        current_roots(batch),
        current_proof_nodes(proofs),
        current_flags,
        None,
    ).0 {
        Err(GuestError::CurrentStateRejected)
    } else if !verify_outcome(
        NodeHasher::Risc0Compress,
        updated_expected_root,
        updated_roots(batch),
        next_proof_nodes(proofs),
        updated_flags,
        None,
    ).0 {
        Err(GuestError::UpdatedStateRejected)
    } else {
        checks_verdict(checks)
    }
}

/// The signature check of each update, over the digest of its current root
/// followed by its updated root.
pub fn update_signature_checks(batch: &[UpdateItem]) -> (res: Vec<SignatureCheck>)
    ensures
        res@ == update_checks(batch@),
{
    let mut checks: Vec<SignatureCheck> = Vec::with_capacity(batch.len());
    let mut i: usize = 0;
    while i < batch.len()
        invariant
            i <= batch.len(),
            checks@ == update_checks(batch@).take(i as int),
        decreases batch.len() - i,
    {
        let item = &batch[i];
        let key = uncompressed(&item.public_key);
        let digest = hash_sig_data(&item.current_credential_root, &item.updated_credential_root);
        let check = check_signature(key.as_slice(), &digest, item.signature.as_slice());
        checks.push(check);
        i = i + 1;
        assert(checks@ =~= update_checks(batch@).take(i as int));
    }
    assert(checks@ =~= update_checks(batch@));
    checks
}

fn update_columns(batch: &[UpdateItem], proofs: &[StateTransitionProof]) -> (res: (
    Vec<Node>,
    Vec<Node>,
    Vec<Node>,
    Vec<Node>,
))
    ensures
        res.0@ == current_roots(batch@),
        res.1@ == updated_roots(batch@),
        res.2@ == current_proof_nodes(proofs@),
        res.3@ == next_proof_nodes(proofs@),
{
    let mut cur: Vec<Node> = Vec::with_capacity(batch.len());
    let mut upd: Vec<Node> = Vec::with_capacity(batch.len());
    let mut i: usize = 0;
    while i < batch.len()
        invariant
            i <= batch.len(),
            cur@ == current_roots(batch@).take(i as int),
            upd@ == updated_roots(batch@).take(i as int),
        decreases batch.len() - i,
    {
        cur.push(batch[i].current_credential_root);
        upd.push(batch[i].updated_credential_root);
        i = i + 1;
        assert(cur@ =~= current_roots(batch@).take(i as int));
        assert(upd@ =~= updated_roots(batch@).take(i as int));
    }
    let mut cp: Vec<Node> = Vec::with_capacity(proofs.len());
    let mut np: Vec<Node> = Vec::with_capacity(proofs.len());
    let mut i: usize = 0;
    while i < proofs.len()
        invariant
            i <= proofs.len(),
            cp@ == current_proof_nodes(proofs@).take(i as int),
            np@ == next_proof_nodes(proofs@).take(i as int),
        decreases proofs.len() - i,
    {
        cp.push(proofs[i].current_state_proof);
        np.push(proofs[i].next_state_proof);
        i = i + 1;
        assert(cp@ =~= current_proof_nodes(proofs@).take(i as int));
        assert(np@ =~= next_proof_nodes(proofs@).take(i as int));
    }
    assert(cur@ =~= current_roots(batch@));
    assert(upd@ =~= updated_roots(batch@));
    assert(cp@ =~= current_proof_nodes(proofs@));
    assert(np@ =~= next_proof_nodes(proofs@));
    (cur, upd, cp, np)
}

/// The verdict on a batch of updates, given the outcome of each signature
/// check.
pub fn decide_update_batch(
    expected_root: &Node,
    updated_expected_root: &Node,
    current_flags: &[bool],
    updated_flags: &[bool],
    proofs: &[StateTransitionProof],
    batch: &[UpdateItem],
    checks: &[SignatureCheck],
) -> (res: Result<(), GuestError>)
    requires
        current_flags.len() < u32::MAX,
        updated_flags.len() < u32::MAX,
    ensures
        res == update_verdict(
            *expected_root,
            *updated_expected_root,
            current_flags@,
            updated_flags@,
            proofs@,
            batch@,
            checks@,
        ),
{
    let (cur, upd, cp, np) = update_columns(batch, proofs);
    let (current_ok, _, _) = verify_multi_proof(expected_root, cur.as_slice(), cp.as_slice(), current_flags, None);
    if !current_ok {
        return Err(GuestError::CurrentStateRejected);
    }
    let (updated_ok, _, _) = verify_multi_proof(
        updated_expected_root,
        upd.as_slice(),
        np.as_slice(),
        updated_flags,
        None,
    );
    if !updated_ok {
        return Err(GuestError::UpdatedStateRejected);
    }
    first_failed_check(checks)
}

/// Checks a batch of updates: the current roots must verify against
/// `expected_root`, the updated roots against `updated_expected_root`, and
/// every signature over the digest of the two roots must verify.
pub fn check_update_batch(
    expected_root: &Node,
    updated_expected_root: &Node,
    current_flags: &[bool],
    updated_flags: &[bool],
    proofs: &[StateTransitionProof],
    batch: &[UpdateItem],
) -> (res: Result<(), GuestError>)
    requires
        current_flags.len() < u32::MAX,
        updated_flags.len() < u32::MAX,
    ensures
        res == update_verdict(
            *expected_root,
            *updated_expected_root,
            current_flags@,
            updated_flags@,
            proofs@,
            batch@,
            update_checks(batch@),
        ),
{
    let checks = update_signature_checks(batch);
    decide_update_batch(
        expected_root,
        updated_expected_root,
        current_flags,
        updated_flags,
        proofs,
        batch,
        checks.as_slice(),
    )
}


/// A sequence of signature checks passes exactly when every check is
/// `Accepted`; otherwise it fails with the error of its first failing
/// check.
pub proof fn lemma_checks_pass_iff_all_accepted(checks: Seq<SignatureCheck>)
    ensures
        checks_verdict(checks) is Ok <==> forall|i: int| 0 <= i < checks.len() ==> checks[i] == SignatureCheck::Accepted,
        checks_verdict(checks) matches Err(e) ==> exists|i: int|
            0 <= i < checks.len() && checks[i] != SignatureCheck::Accepted && e == check_error(checks[i], i) && forall|
                j: int,
            |
                0 <= j < i ==> checks[j] == SignatureCheck::Accepted,
    decreases checks.len(),
{
    if checks.len() > 0 {
        let init = checks.drop_last();
        lemma_checks_pass_iff_all_accepted(init);
        if checks_verdict(init) is Ok {
            if checks.last() != SignatureCheck::Accepted {
                let i = checks.len() - 1;
                assert forall|j: int| 0 <= j < i implies checks[j] == SignatureCheck::Accepted by {
                    assert(init[j] == checks[j]);
                }
            }
            assert forall|i: int| 0 <= i < checks.len() && checks_verdict(checks) is Ok implies checks[i]
                == SignatureCheck::Accepted by {
                if i < checks.len() - 1 {
                    assert(init[i] == checks[i]);
                }
            }
        } else {
            let e = checks_verdict(init)->Err_0;
            let i = choose|i: int|
                0 <= i < init.len() && init[i] != SignatureCheck::Accepted && e == check_error(init[i], i)
                    && forall|j: int| 0 <= j < i ==> init[j] == SignatureCheck::Accepted;
            assert(checks[i] == init[i]);
            assert forall|j: int| 0 <= j < i implies checks[j] == SignatureCheck::Accepted by {
                assert(init[j] == checks[j]);
            }
        }
    }
}

/// A batch of updates is accepted exactly when its current roots verify
/// against `expected_root` with the current-state proof nodes and
/// `current_flags`, its updated roots verify against `updated_expected_root`
/// with the next-state proof nodes and `updated_flags`, and every signature
/// check is accepted. A batch whose current state does not verify is
/// refused as `CurrentStateRejected`; one whose current state verifies and
/// whose updated state does not is refused as `UpdatedStateRejected`.
pub proof fn lemma_update_verdict(
    expected_root: Node,
    updated_expected_root: Node,
    current_flags: Seq<bool>,
    updated_flags: Seq<bool>,
    proofs: Seq<StateTransitionProof>,
    batch: Seq<UpdateItem>,
    checks: Seq<SignatureCheck>,
)
    ensures
        ({
            let current_ok = verify_outcome(
                NodeHasher::Risc0Compress,
                expected_root,
                batch.map_values(|item: UpdateItem| item.current_credential_root),
                proofs.map_values(|p: StateTransitionProof| p.current_state_proof),
                current_flags,
                None,
            ).0;
            let updated_ok = verify_outcome(
                NodeHasher::Risc0Compress,
                updated_expected_root,
                batch.map_values(|item: UpdateItem| item.updated_credential_root),
                proofs.map_values(|p: StateTransitionProof| p.next_state_proof),
                updated_flags,
                None,
            ).0;
            let verdict = update_verdict(
                expected_root,
                updated_expected_root,
                current_flags,
                updated_flags,
                proofs,
                batch,
                checks,
            );
            &&& verdict is Ok <==> (current_ok && updated_ok && forall|i: int|
                0 <= i < checks.len() ==> checks[i] == SignatureCheck::Accepted)
            &&& !current_ok ==> verdict == Err::<(), GuestError>(GuestError::CurrentStateRejected)
            &&& current_ok && !updated_ok ==> verdict == Err::<(), GuestError>(GuestError::UpdatedStateRejected)
        }),
{
    assert(current_roots(batch) =~= batch.map_values(|item: UpdateItem| item.current_credential_root));
    assert(updated_roots(batch) =~= batch.map_values(|item: UpdateItem| item.updated_credential_root));
    assert(current_proof_nodes(proofs) =~= proofs.map_values(|p: StateTransitionProof| p.current_state_proof));
    assert(next_proof_nodes(proofs) =~= proofs.map_values(|p: StateTransitionProof| p.next_state_proof));
    lemma_checks_pass_iff_all_accepted(checks);
}

/// A batch of insertions is accepted exactly when every signature check is
/// accepted and the Merkle root of the credential roots, in order, is
/// `expected_root`; with every check accepted and another root, it is
/// refused as `RootMismatch`.
pub proof fn lemma_insert_verdict(expected_root: Node, batch: Seq<InsertItem>, checks: Seq<SignatureCheck>)
    ensures
        ({
            let root = merkle_root(
                NodeHasher::Risc0Compress,
                batch.map_values(|item: InsertItem| item.credential_root),
            );
            let all_accepted = forall|i: int| 0 <= i < checks.len() ==> checks[i] == SignatureCheck::Accepted;
            &&& insert_verdict(expected_root, batch, checks) is Ok <==> (all_accepted && root == expected_root)
            &&& all_accepted && root != expected_root ==> insert_verdict(expected_root, batch, checks) == Err::<
                (),
                GuestError,
            >(GuestError::RootMismatch)
        }),
{
    assert(insert_roots(batch) =~= batch.map_values(|item: InsertItem| item.credential_root));
    lemma_checks_pass_iff_all_accepted(checks);
}

} // verus!
