//! Commitment and verification core for batches of predicted state-update
//! deltas: a batch Merkle tree with deterministic padding and proof
//! extraction, an append-only incremental Merkle tree, integer-level delta
//! codecs, and a multi-stage state verifier.

pub mod codec;
pub mod digest;
pub mod error;
pub mod incremental;
pub mod merkle;
pub mod types;
pub mod verify;
pub mod words;

pub use codec::{CompressionMethod, DeltaEncoder};
pub use digest::Hash32;
pub use error::CantorError;
pub use incremental::IncrementalMerkleTree;
pub use merkle::MerkleDeltaTree;
pub use types::{CompressionResult, MerkleProof, StateDelta, StateVector, VerificationProof};
pub use verify::{ProofCheck, StateVerifier, VerificationResult, VerificationStatus};
