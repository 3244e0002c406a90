//! An append-only commitment log backed by a Merkle tree, with inclusion
//! proofs that can be checked without access to the log.
pub mod commitment;
pub mod digest;
pub mod dto;
pub mod encoding;
pub mod error;
pub mod inclusion;
pub mod merkle;
pub mod storage;

pub use commitment::Commitment;
pub use error::AppError;
pub use inclusion::{generate_proof, MerkleProof, ProofElement};
pub use merkle::{MerkleNode, MerkleTree};
pub use storage::{CommitmentStorage, MemoryStorage};
