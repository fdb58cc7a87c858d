//! The hash primitives that the Merkle trees are built from.
use vstd::prelude::*;
use sha2::Digest;

verus! {

/// The SHA-256 digest of `data` (FIPS 180-4), as `sha2::Sha256` computes it.
pub uninterp spec fn sha256(data: Seq<u8>) -> [u8; 32];

/// The SHA-256 compression function applied once, from the standard initial
/// state, to the 64-byte block `a || b`, as `risc0_zkvm::sha::Impl::hash_pair`
/// computes it (no padding, no length trailer).
pub uninterp spec fn sha256_compress_pair(a: [u8; 32], b: [u8; 32]) -> [u8; 32];

/// The SHA-256 digest of `data` as `risc0_zkvm::sha::Impl::hash_bytes`
/// computes it.
pub uninterp spec fn risc0_sha256(data: Seq<u8>) -> [u8; 32];

/// Calls `sha2::Sha256::digest`; the contract claims only that the result is
/// the SHA-256 digest of the bytes handed over.
#[verifier::external_body]
pub(crate) fn sha256_digest(data: &[u8]) -> (res: [u8; 32])
    ensures
        res == sha256(data@),
{
    sha2::Sha256::digest(data).into()
}

/// Calls `risc0_zkvm::sha::Impl::hash_pair` on the two 32-byte halves; the
/// contract claims only that the result is that compression of `a || b`.
#[verifier::external_body]
pub(crate) fn risc0_hash_pair(a: &[u8; 32], b: &[u8; 32]) -> (res: [u8; 32])
    ensures
        res == sha256_compress_pair(*a, *b),
{
    let left = risc0_zkvm::sha::Digest::from(*a);
    let right = risc0_zkvm::sha::Digest::from(*b);
    let parent = <risc0_zkvm::sha::Impl as risc0_zkvm::sha::Sha256>::hash_pair(&left, &right);
    parent.as_bytes().try_into().unwrap()
}

/// Calls `risc0_zkvm::sha::Impl::hash_bytes`; the contract claims only that
/// the result is that digest of the bytes handed over.
#[verifier::external_body]
pub(crate) fn risc0_hash_bytes(data: &[u8]) -> (res: [u8; 32])
    ensures
        res == risc0_sha256(data@),
{
    let digest = <risc0_zkvm::sha::Impl as risc0_zkvm::sha::Sha256>::hash_bytes(data);
    digest.as_bytes().try_into().unwrap()
}

} // verus!
