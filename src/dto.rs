//! Requests and responses exchanged with a transport layer.
use crate::commitment::Commitment;
use crate::encoding::{hex_of, to_hex};
use crate::inclusion::MerkleProof;
use vstd::prelude::*;
use vstd::slice::slice_to_vec;

verus! {

/// Largest value accepted for a commitment, in bytes.
pub const MAX_VALUE_LEN: usize = 1_000_000;

/// A request to commit `value`.
#[derive(Debug)]
pub struct AddCommitmentRequest {
    /// The bytes to commit.
    pub value: Vec<u8>,
}

impl AddCommitmentRequest {
    /// Accepts a value of 1 to `MAX_VALUE_LEN` bytes.
    pub fn validate(&self) -> (r: Result<(), String>)
        ensures
            r is Ok <==> 0 < self.value@.len() <= MAX_VALUE_LEN,
            self.value@.len() == 0 ==> (r matches Err(s) && s@ == "Value cannot be empty"@),
            self.value@.len() > MAX_VALUE_LEN ==> (r matches Err(s) && s@
                == "Value too large (max 1MB)"@),
    {
        if self.value.len() == 0 {
            return Err("Value cannot be empty".to_string());
        }
        if self.value.len() > MAX_VALUE_LEN {
            return Err("Value too large (max 1MB)".to_string());
        }
        Ok(())
    }
}

/// The answer to a commit: the assigned index and the new root.
pub struct AddCommitmentResponse {
    pub index: usize,
    /// The root, hex encoded.
    pub merkle_root: String,
    /// The root's raw bytes.
    pub merkle_root_bytes: Option<Vec<u8>>,
}

impl AddCommitmentResponse {
    pub fn new(index: usize, merkle_root: Vec<u8>) -> (r: Self)
        ensures
            r.index == index,
            r.merkle_root@ == hex_of(merkle_root@),
            r.merkle_root_bytes matches Some(b) && b@ == merkle_root@,
    {
        let text = to_hex(merkle_root.as_slice());
        AddCommitmentResponse { index, merkle_root: text, merkle_root_bytes: Some(merkle_root) }
    }
}

/// A commitment with its value and root also in hex.
pub struct CommitmentResponse {
    pub commitment: Commitment,
    pub value_hex: String,
    pub root_hex: String,
}

impl CommitmentResponse {
    /// Wraps `commitment` with hex renderings of its value and root.
    pub fn from_commitment(commitment: Commitment) -> (r: Self)
        ensures
            r.commitment.same_as(commitment),
            r.value_hex@ == hex_of(commitment.value@),
            r.root_hex@ == hex_of(commitment.merkle_root@),
    {
        let value_hex = to_hex(commitment.value.as_slice());
        let root_hex = to_hex(commitment.merkle_root.as_slice());
        CommitmentResponse { commitment, value_hex, root_hex }
    }
}



/// A proof with its sibling digests and root also in hex.
pub struct ProofResponse {
    pub proof: MerkleProof,
    /// Hex of each sibling digest, leaf level first.
    pub proof_hex: Vec<String>,
    pub root_hex: String,
}

impl ProofResponse {
    /// Wraps `proof` with hex renderings of its sibling digests and root.
    pub fn from_proof(proof: MerkleProof) -> (r: Self)
        ensures
            r.proof == proof,
            r.proof_hex@.len() == proof.proof@.len(),
            forall|i: int|
                0 <= i < proof.proof@.len() ==> (#[trigger] r.proof_hex@[i])@ == hex_of(
                    proof.proof@[i].hash@,
                ),
            r.root_hex@ == hex_of(proof.root@),
    {
        let mut proof_hex: Vec<String> = Vec::new();
        let mut i: usize = 0;
        while i < proof.proof.len()
            invariant
                0 <= i <= proof.proof@.len(),
                proof_hex@.len() == i,
                forall|k: int|
                    0 <= k < i ==> (#[trigger] proof_hex@[k])@ == hex_of(proof.proof@[k].hash@),
            decreases proof.proof@.len() - i,
        {
            proof_hex.push(to_hex(proof.proof[i].hash.as_slice()));
            i = i + 1;
        }
        let root_hex = to_hex(proof.root.as_slice());
        ProofResponse { proof, proof_hex, root_hex }
    }
}

/// The current root, in hex and raw, with the number of commitments.
pub struct RootResponse {
    /// The root, hex encoded.
    pub root: String,
    pub root_bytes: Vec<u8>,
    pub commitment_count: usize,
}

impl RootResponse {
    pub fn new(root_bytes: Vec<u8>, commitment_count: usize) -> (r: Self)
        ensures
            r.root@ == hex_of(root_bytes@),
            r.root_bytes@ == root_bytes@,
            r.commitment_count == commitment_count,
    {
        let root = to_hex(root_bytes.as_slice());
        RootResponse { root, root_bytes, commitment_count }
    }
}

/// Liveness report.
pub struct HealthResponse {
    pub status: String,
    pub version: String,
    pub commitment_count: usize,
}

} // verus!
