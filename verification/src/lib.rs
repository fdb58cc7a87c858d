//! Verified core of a credential-root sequencer: Merkle aggregation of
//! issuer roots, multi-leaf inclusion proofs, and the batch checks that the
//! zero-knowledge guest programs perform.
pub mod hashing;
pub mod node;
pub mod merkle;
pub mod multiproof;
pub mod roots;
pub mod signature;
pub mod items;
pub mod guest;
pub mod utils;
pub mod rpc;
pub mod updates;
pub mod store;
pub mod batcher;
pub mod config;
