//! The fixed-layout records that the prover guests read: issuer submissions,
//! issuer updates and the proof nodes that accompany updates.
use vstd::prelude::*;

verus! {

pub open spec fn all_zero(bytes: Seq<u8>) -> bool {
    forall|i: int| 0 <= i < bytes.len() ==> #[trigger] bytes[i] == 0u8
}

/// An issuer's credential root with its signature `r || s` and its public
/// key `X || Y` (160 bytes in all).
#[derive(Clone, Copy, Debug, PartialEq, Eq)]
pub struct InsertItem {
    pub credential_root: [u8; 32],
    pub signature: [u8; 64],
    pub public_key: [u8; 64],
}

impl Default for InsertItem {
    fn default() -> (res: Self)
        ensures
            all_zero(res.credential_root@),
            all_zero(res.signature@),
            all_zero(res.public_key@),
    {
        InsertItem { credential_root: [0u8; 32], signature: [0u8; 64], public_key: [0u8; 64] }
    }
}

/// An issuer's change of credential root, signed over the hash of the
/// current root followed by the updated root (192 bytes in all).
#[derive(Clone, Copy, Debug, PartialEq, Eq)]
pub struct UpdateItem {
    pub current_credential_root: [u8; 32],
    pub updated_credential_root: [u8; 32],
    pub signature: [u8; 64],
    pub public_key: [u8; 64],
}

impl Default for UpdateItem {
    fn default() -> (res: Self)
        ensures
            all_zero(res.current_credential_root@),
            all_zero(res.updated_credential_root@),
            all_zero(res.signature@),
            all_zero(res.public_key@),
    {
        UpdateItem {
            current_credential_root: [0u8; 32],
            updated_credential_root: [0u8; 32],
            signature: [0u8; 64],
            public_key: [0u8; 64],
        }
    }
}

/// The proof nodes that accompany one update: one for the proof against the
/// current state and one for the proof against the next state.
#[derive(Clone, Copy, Debug, PartialEq, Eq)]
pub struct StateTransitionProof {
    pub updated_indices: u32,
    pub current_state_proof: [u8; 32],
    pub next_state_proof: [u8; 32],
}

impl Default for StateTransitionProof {
    fn default() -> (res: Self)
        ensures
            res.updated_indices == 0,
            all_zero(res.current_state_proof@),
            all_zero(res.next_state_proof@),
    {
        StateTransitionProof {
            updated_indices: 0,
            current_state_proof: [0u8; 32],
            next_state_proof: [0u8; 32],
        }
    }
}

} // verus!
