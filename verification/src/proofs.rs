//! Range proofs over whole artifacts: proving that a run of blocks belongs
//! to an artifact's Merkle root, and checking such a proof against the
//! artifact.
use crate::chain::{compute_params_hash, spec_params_hash};
use crate::bootstrap::spec_params;
use crate::cli::{compute_padded_payloads, spec_padded_payloads};
use crate::decoder::{decode, lemma_decoded_segment, spec_decode, DecodedView};
use crate::error::{same_error, CbcError};
use crate::footer::vec_views;
use crate::merkle::{compute_leaf, spec_leaves, spec_levels, spec_root, MerkleTree};
use crate::range::{indexed_leaves, range_proof_ok, spec_decode_range_proof, spec_range_nodes, walk, RangeProof};
use vstd::prelude::*;

verus! {

/// The Merkle leaves over a decoded artifact's padded payloads.
pub open spec fn artifact_leaves(d: DecodedView) -> Seq<[u8; 32]> {
    let suite = d.bootstrap.hash_suite;
    spec_leaves(
        spec_params_hash(spec_params(d.bootstrap), suite)@,
        spec_padded_payloads(d.payload, d.bootstrap.block_payload_size),
        suite,
    )
}

/// Why no range proof was made.
#[derive(Debug)]
pub enum ProveError {
    /// The artifact does not decode.
    Decode(CbcError),
    /// The artifact has no Merkle tree (Family B is off).
    NoMerkleTree,
    /// The range is empty or reaches past the last block.
    InvalidRange { start: u32, end: u32, block_count: u32 },
    /// The payload yields fewer leaves than the range needs.
    ProofFailed,
}

/// Prove that blocks `start..=end` of an artifact belong to its Merkle
/// tree: the proof, and the root of the tree rebuilt from the decoded
/// payload.
pub fn prove_blocks(data: &[u8], start: u32, end: u32) -> (r: Result<(RangeProof, [u8; 32]), ProveError>)
    ensures
        match spec_decode(data@, None) {
            Err(x) => r matches Err(ProveError::Decode(e)) && same_error(e, x),
            Ok(d) => {
                let leaves = artifact_leaves(d);
                let suite = d.bootstrap.hash_suite;
                if d.bootstrap.commitment_mode & 0x02 == 0 {
                    r matches Err(ProveError::NoMerkleTree)
                } else if start > end || end >= d.block_count {
                    r matches Err(ProveError::InvalidRange { start: s, end: e, block_count: c }) && s == start && e == end
                        && c == d.block_count
                } else if end >= leaves.len() {
                    r matches Err(ProveError::ProofFailed)
                } else {
                    r matches Ok((p, root)) && p.start == start && p.end == end && p.leaf_count == leaves.len()
                        && p.proof_nodes@ == spec_range_nodes(spec_levels(leaves, suite), 0, start as nat, end as nat)
                        && root == spec_root(leaves, suite)
                }
            },
        },
{
    let decoded = match decode(data, None) {
        Ok(d) => d,
        Err(e) => {
            return Err(ProveError::Decode(e));
        },
    };
    proof {
        lemma_decoded_segment(data@, None);
    }
    if !decoded.bootstrap.family_b() {
        return Err(ProveError::NoMerkleTree);
    }
    if start > end || end >= decoded.block_count {
        return Err(ProveError::InvalidRange { start, end, block_count: decoded.block_count });
    }
    let suite = decoded.bootstrap.hash_suite;
    let bps = decoded.bootstrap.block_payload_size;
    let params = decoded.bootstrap.params_canonical();
    let params_hash = compute_params_hash(&params, suite);
    let padded = compute_padded_payloads(decoded.payload.as_slice(), bps);
    let tree = MerkleTree::build(&params_hash, padded.as_slice(), suite);
    match tree.prove_range(start as usize, end as usize) {
        Some(p) => Ok((p, tree.root)),
        None => Err(ProveError::ProofFailed),
    }
}

/// Why a range proof was not checked.
#[derive(Debug)]
pub enum CheckProofError {
    /// The artifact does not decode.
    Decode(CbcError),
    /// The artifact carries no Merkle root (Family B is off).
    NoMerkleRoot,
    /// The proof file is malformed.
    BadProof,
    /// The proof's range is empty or reaches past the payload's leaves.
    OutOfRange,
}

/// Check a range proof against an artifact: the leaves of the proved range
/// are rebuilt from the decoded payload and walked up to the artifact's
/// Merkle root.
pub fn check_proof(data: &[u8], proof_bytes: &[u8]) -> (r: Result<bool, CheckProofError>)
    ensures
        match spec_decode(data@, None) {
            Err(x) => r matches Err(CheckProofError::Decode(e)) && same_error(e, x),
            Ok(d) => match d.merkle_root {
                None => r matches Err(CheckProofError::NoMerkleRoot),
                Some(root) => if !range_proof_ok(proof_bytes@) {
                    r matches Err(CheckProofError::BadProof)
                } else {
                    let (s, e, n, nodes) = spec_decode_range_proof(proof_bytes@);
                    let leaves = artifact_leaves(d);
                    if s > e || e >= leaves.len() {
                        r matches Err(CheckProofError::OutOfRange)
                    } else {
                        r == Ok::<bool, CheckProofError>(
                            walk(indexed_leaves(s, leaves.subrange(s as int, e + 1)), 0, n as nat, nodes, root, d.bootstrap.hash_suite),
                        )
                    }
                },
            },
        },
{
    let decoded = match decode(data, None) {
        Ok(d) => d,
        Err(e) => {
            return Err(CheckProofError::Decode(e));
        },
    };
    proof {
        lemma_decoded_segment(data@, None);
    }
    let root = match decoded.merkle_root {
        Some(m) => m,
        None => {
            return Err(CheckProofError::NoMerkleRoot);
        },
    };
    let proof = match RangeProof::decode(proof_bytes) {
        Some(p) => p,
        None => {
            return Err(CheckProofError::BadProof);
        },
    };
    let suite = decoded.bootstrap.hash_suite;
    let bps = decoded.bootstrap.block_payload_size;
    let params = decoded.bootstrap.params_canonical();
    let params_hash = compute_params_hash(&params, suite);
    let padded = compute_padded_payloads(decoded.payload.as_slice(), bps);
    let ghost leaves = artifact_leaves(decoded@);
    let ghost pv = vec_views(padded@);
    proof {
        assert(leaves.len() == padded@.len());
    }
    let n = padded.len();
    if proof.start > proof.end || proof.end >= n {
        return Err(CheckProofError::OutOfRange);
    }
    let mut leaf_hashes: Vec<[u8; 32]> = Vec::new();
    let mut i: usize = proof.start;
    while i <= proof.end
        invariant
            proof.start <= i <= proof.end + 1,
            proof.end < n,
            n == padded@.len(),
            pv == vec_views(padded@),
            leaves == spec_leaves(params_hash@, pv, suite),
            leaf_hashes@ == leaves.subrange(proof.start as int, i as int),
        decreases proof.end + 1 - i,
    {
        let h = compute_leaf(&params_hash, i as u64, padded[i].as_slice(), suite);
        leaf_hashes.push(h);
        proof {
            assert(leaf_hashes@ =~= leaves.subrange(proof.start as int, i + 1));
        }
        i = i + 1;
    }
    Ok(proof.verify(leaf_hashes.as_slice(), &root, suite))
}

} // verus!
