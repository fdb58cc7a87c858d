//! The sequencer's request handling: turning a batch of issuer submissions
//! into a Merkle tree, planning the leaf replacements of a batch of updates,
//! and the answers sent back to issuers.
use vstd::prelude::*;
use crate::node::{Node, NodeHasher};
use crate::merkle::{MerkleTree, merkle_root, strictly_increasing, replaced_leaves};
use crate::signature::SignatureError;

verus! {

/// An issuer's request to anchor a credential root.
#[derive(Clone, Debug)]
pub struct SubmissionPayload {
    pub root: Vec<u8>,
    pub signature: Vec<u8>,
    pub public_key: Vec<u8>,
}

/// An issuer's request to replace a credential root in the tree anchored
/// under `sequence_number`.
#[derive(Clone, Debug)]
pub struct UpdatePayload {
    pub old_root: Vec<u8>,
    pub new_root: Vec<u8>,
    pub signature: Vec<u8>,
    pub public_key: Vec<u8>,
    pub sequence_number: u64,
}

/// The node whose bytes are `bytes` (meaningful when `bytes` has 32 bytes).
pub open spec fn node_of(bytes: Seq<u8>) -> Node {
    choose|n: Node| n@ == bytes
}

pub proof fn lemma_node_of(n: Node)
    ensures
        node_of(n@) == n,
{
    let m = node_of(n@);
    assert(m@ == n@);
    assert(m =~= n);
}

/// The 32 bytes of `bytes` as a node, or `None` when there are not exactly
/// 32 of them.
pub fn node_from_bytes(bytes: &[u8]) -> (res: Option<Node>)
    ensures
        res is Some == (bytes@.len() == 32),
        res matches Some(n) ==> n@ == bytes@ && n == node_of(bytes@),
{
    if bytes.len() != 32 {
        return None;
    }
    let mut n: Node = [0u8; 32];
    let mut i: usize = 0;
    while i < 32
        invariant
            i <= 32,
            bytes@.len() == 32,
            forall|j: int| 0 <= j < i ==> n@[j] == bytes@[j],
        decreases 32 - i,
    {
        n[i] = bytes[i];
        i = i + 1;
    }
    assert(n@ =~= bytes@);
    proof {
        lemma_node_of(n);
    }
    Some(n)
}

/// Why a batch of submissions cannot become a tree.
#[derive(Clone, Copy, PartialEq, Eq, Debug, Structural)]
pub enum SubmissionBatchError {
    /// The root of the submission at this index is not 32 bytes long.
    RootLength(usize),
}

pub open spec fn roots_well_sized(batch: Seq<SubmissionPayload>, n: int) -> bool {
    forall|i: int| 0 <= i < n ==> (#[trigger] batch[i]).root@.len() == 32
}

/// The submissions' roots as the leaves of a tree, in order; fails on the
/// first root that is not 32 bytes long.
pub fn process_submission_batch_merkle(batch: &[SubmissionPayload]) -> (res: Result<MerkleTree, SubmissionBatchError>)
    ensures
        res is Ok == roots_well_sized(batch@, batch@.len() as int),
        res matches Ok(tree) ==> tree.leaves@.len() == batch@.len() && forall|i: int|
            0 <= i < batch@.len() ==> (#[trigger] tree.leaves@[i])@ == batch@[i].root@,
        res matches Err(SubmissionBatchError::RootLength(i)) ==> i < batch@.len()
            && roots_well_sized(batch@, i as int) && batch@[i as int].root@.len() != 32,
{
    let mut leaves: Vec<Node> = Vec::with_capacity(batch.len());
    let mut i: usize = 0;
    while i < batch.len()
        invariant
            i <= batch.len(),
            leaves.len() == i,
            roots_well_sized(batch@, i as int),
            forall|j: int| 0 <= j < i ==> (#[trigger] leaves@[j])@ == batch@[j].root@,
        decreases batch.len() - i,
    {
        match node_from_bytes(batch[i].root.as_slice()) {
            Some(leaf) => leaves.push(leaf),
            None => {
                assert(!roots_well_sized(batch@, batch@.len() as int)) by {
                    assert(batch@[i as int].root@.len() != 32);
                }
                return Err(SubmissionBatchError::RootLength(i));
            },
        }
        i = i + 1;
    }
    Ok(MerkleTree::new(leaves))
}

/// The tree and the root to store for a batch of submissions.
pub fn prepare_submission_batch(batch: &[SubmissionPayload]) -> (res: Result<(Node, Vec<Node>), SubmissionBatchError>)
    requires
        batch.len() <= usize::MAX / 2,
    ensures
        res is Ok == roots_well_sized(batch@, batch@.len() as int),
        res matches Ok((root, leaves)) ==> {
            &&& leaves@.len() == batch@.len()
            &&& forall|i: int| 0 <= i < batch@.len() ==> (#[trigger] leaves@[i])@ == batch@[i].root@
            &&& root == merkle_root(NodeHasher::Sha256, leaves@)
        },
        res matches Err(SubmissionBatchError::RootLength(i)) ==> i < batch@.len()
            && roots_well_sized(batch@, i as int) && batch@[i as int].root@.len() != 32,
{
    match process_submission_batch_merkle(batch) {
        Ok(tree) => {
            let root = tree.root();
            Ok((root, tree.leaves))
        },
        Err(e) => Err(e),
    }
}

/// The status of an answer to an issuer.
#[derive(Clone, Copy, PartialEq, Eq, Debug, Structural)]
pub enum SequencerStatus {
    Unknown,
    Accepted,
    InvalidSignature,
    InternalError,
}

/// What an answer reports beyond its status.
#[derive(Clone, Debug)]
pub enum ResponseDetail {
    NoDetail,
    /// The certificate root is not 32 bytes long.
    InvalidRootLength,
    /// The signer failed while verifying.
    SignerError(SignatureError),
    /// The signature does not verify.
    InvalidSignature,
    /// The submission worker no longer takes requests.
    SubmissionChannelClosed,
    /// The update worker no longer takes requests.
    UpdateChannelClosed,
    /// The worker failed to store the batch, with its message.
    DbError(String),
    /// The worker went away without answering.
    WorkerDropped,
}

/// An answer to an issuer.
#[derive(Clone, Debug)]
pub struct RootResponse {
    pub status: SequencerStatus,
    pub sequence_number: u64,
    pub detail: ResponseDetail,
}

/// What came back from handing a request to a batch worker.
#[derive(Clone, Debug)]
pub enum WorkerReply {
    /// The request could not be handed over.
    ChannelClosed,
    /// The batch was stored under this sequence number.
    Sequenced(u64),
    /// The batch failed, with this message.
    Failed(String),
    /// The worker dropped the request without answering.
    Dropped,
}

pub open spec fn rejection(status: SequencerStatus, detail: ResponseDetail) -> RootResponse {
    RootResponse { status, sequence_number: 0, detail }
}

/// The certificate root of a submission as a node; a submission whose root
/// is not 32 bytes long is answered `InvalidSignature`.
pub fn screen_submission_root(certificate_root: &[u8]) -> (res: Result<Node, RootResponse>)
    ensures
        res is Ok == (certificate_root@.len() == 32),
        res matches Ok(n) ==> n@ == certificate_root@,
        res matches Err(r) ==> r == rejection(SequencerStatus::InvalidSignature, ResponseDetail::InvalidRootLength),
{
    match node_from_bytes(certificate_root) {
        Some(n) => Ok(n),
        None => Err(
            RootResponse {
                status: SequencerStatus::InvalidSignature,
                sequence_number: 0,
                detail: ResponseDetail::InvalidRootLength,
            },
        ),
    }
}

/// The answer to a submission whose signature check came out `verified`:
/// none when the signature verifies (the submission goes on to the batch).
pub fn screen_signature(verified: Result<bool, SignatureError>) -> (res: Option<RootResponse>)
    ensures
        verified == Ok::<bool, SignatureError>(true) ==> res is None,
        verified == Ok::<bool, SignatureError>(false) ==> res == Some(
            rejection(SequencerStatus::InvalidSignature, ResponseDetail::InvalidSignature),
        ),
        verified matches Err(e) ==> res == Some(
            rejection(SequencerStatus::InternalError, ResponseDetail::SignerError(e)),
        ),
{
    match verified {
        Ok(true) => None,
        Ok(false) => Some(
            RootResponse {
                status: SequencerStatus::InvalidSignature,
                sequence_number: 0,
                detail: ResponseDetail::InvalidSignature,
            },
        ),
        Err(e) => Some(
            RootResponse {
                status: SequencerStatus::InternalError,
                sequence_number: 0,
                detail: ResponseDetail::SignerError(e),
            },
        ),
    }
}

pub open spec fn reply_response(reply: WorkerReply, closed: ResponseDetail) -> RootResponse {
    match reply {
        WorkerReply::ChannelClosed => rejection(SequencerStatus::InternalError, closed),
        WorkerReply::Sequenced(n) => RootResponse {
            status: SequencerStatus::Accepted,
            sequence_number: n,
            detail: ResponseDetail::NoDetail,
        },
        WorkerReply::Failed(message) => rejection(SequencerStatus::InternalError, ResponseDetail::DbError(message)),
        WorkerReply::Dropped => rejection(SequencerStatus::InternalError, ResponseDetail::WorkerDropped),
    }
}

fn reply_to_response(reply: WorkerReply, closed: ResponseDetail) -> (res: RootResponse)
    ensures
        res == reply_response(reply, closed),
{
    match reply {
        WorkerReply::ChannelClosed => RootResponse {
            status: SequencerStatus::InternalError,
            sequence_number: 0,
            detail: closed,
        },
        WorkerReply::Sequenced(n) => RootResponse {
            status: SequencerStatus::Accepted,
            sequence_number: n,
            detail: ResponseDetail::NoDetail,
        },
        WorkerReply::Failed(message) => RootResponse {
            status: SequencerStatus::InternalError,
            sequence_number: 0,
            detail: ResponseDetail::DbError(message),
        },
        WorkerReply::Dropped => RootResponse {
            status: SequencerStatus::InternalError,
            sequence_number: 0,
            detail: ResponseDetail::WorkerDropped,
        },
    }
}

/// An answer is `Accepted` exactly when the worker sequenced the request,
/// and then it carries the sequence number the worker gave and no detail;
/// every other answer is an `InternalError` with sequence number zero: the
/// channel-closed detail when the request could not be handed over, the
/// worker's message when it failed, and `WorkerDropped` when it went away.
pub proof fn lemma_answers_follow_replies(reply: WorkerReply, closed: ResponseDetail)
    ensures
        ({
            let res = reply_response(reply, closed);
            &&& (res.status == SequencerStatus::Accepted) == (reply is Sequenced)
            &&& reply matches WorkerReply::Sequenced(n) ==> res.sequence_number == n && res.detail
                == ResponseDetail::NoDetail
            &&& !(reply is Sequenced) ==> res.status == SequencerStatus::InternalError && res.sequence_number == 0
            &&& reply is ChannelClosed ==> res.detail == closed
            &&& reply matches WorkerReply::Failed(m) ==> res.detail == ResponseDetail::DbError(m)
            &&& reply is Dropped ==> res.detail == ResponseDetail::WorkerDropped
        }),
{
}

/// The answer to a submission, from what the submission worker replied.
pub fn submission_response(reply: WorkerReply) -> (res: RootResponse)
    ensures
        res == reply_response(reply, ResponseDetail::SubmissionChannelClosed),
        (res.status == SequencerStatus::Accepted) == (reply is Sequenced),
        reply matches WorkerReply::Sequenced(n) ==> res.sequence_number == n && res.detail
            == ResponseDetail::NoDetail,
        !(reply is Sequenced) ==> res.status == SequencerStatus::InternalError && res.sequence_number == 0,
        reply is ChannelClosed ==> res.detail == ResponseDetail::SubmissionChannelClosed,
        reply matches WorkerReply::Failed(m) ==> res.detail == ResponseDetail::DbError(m),
        reply is Dropped ==> res.detail == ResponseDetail::WorkerDropped,
{
    reply_to_response(reply, ResponseDetail::SubmissionChannelClosed)
}

/// The answer to an update, from what the update worker replied.
pub fn update_response(reply: WorkerReply) -> (res: RootResponse)
    ensures
        res == reply_response(reply, ResponseDetail::UpdateChannelClosed),
        (res.status == SequencerStatus::Accepted) == (reply is Sequenced),
        reply matches WorkerReply::Sequenced(n) ==> res.sequence_number == n && res.detail
            == ResponseDetail::NoDetail,
        !(reply is Sequenced) ==> res.status == SequencerStatus::InternalError && res.sequence_number == 0,
        reply is ChannelClosed ==> res.detail == ResponseDetail::UpdateChannelClosed,
        reply matches WorkerReply::Failed(m) ==> res.detail == ResponseDetail::DbError(m),
        reply is Dropped ==> res.detail == ResponseDetail::WorkerDropped,
{
    reply_to_response(reply, ResponseDetail::UpdateChannelClosed)
}

} // verus!
