//! What the HTTP service computes for each request, apart from the
//! transport: the requests and responses as plain values, and the work
//! each route does with them.
use crate::bootstrap::{FAMILY_A_BIT, FAMILY_B_BIT};
use crate::bootstrap::{lemma_seq_to_array, seq_to_array};
use crate::bytes::zeros;
use crate::decoder::{decode, spec_decode};
use crate::encoder::{encode, spec_encode, EncoderConfig};
use crate::error::{same_error, Result};
use crate::footer::vec_views;
use crate::hash::HashSuite;
use crate::kms::KmsError;
use crate::text::{hex_string, spec_hex};
use vstd::prelude::*;
use vstd::string::*;

verus! {

/// A request to encode a payload, given as text.
pub struct EncodeRequest {
    pub payload: String,
}

/// The outcome of an encode request.
pub struct EncodeResponse {
    pub status: String,
    pub merkle_root: String,
}

/// A request to extract a block range of an artifact and sign the result
/// with a key held by a key management system.
pub struct ExtractRequest {
    pub artifact_base64: String,
    pub start_block: u64,
    pub end_block: u64,
    pub kms_key_id: String,
}

/// The outcome of an extract request.
pub struct ExtractResponse {
    pub status: String,
    pub derived_artifact_base64: String,
    pub receipt_base64: String,
}

/// A request to validate an artifact.
pub struct ValidateRequest {
    pub artifact_base64: String,
}

/// The outcome of a validate request.
pub struct ValidateResponse {
    pub valid: bool,
    pub merkle_root: String,
}

/// The configuration the service encodes with: BLAKE3, Families A and B,
/// 1024-byte blocks, no compression and no encryption.
pub open spec fn service_config() -> EncoderConfig {
    EncoderConfig {
        hash_suite: HashSuite::Blake3,
        commitment_mode: FAMILY_A_BIT | FAMILY_B_BIT,
        block_payload_size: 1024,
        flags: 0,
        encryption_key: None,
    }
}

/// The nonce the service encodes with: all zero.
pub open spec fn zero_nonce() -> [u8; 16] {
    seq_to_array::<16>(zeros(16))
}

/// How the service reports the Merkle root of what it encoded, read back
/// from the artifact.
pub open spec fn spec_root_text(artifact: Seq<u8>) -> Seq<char> {
    match spec_decode(artifact, None) {
        Ok(d) => match d.merkle_root {
            Some(m) => spec_hex(m@),
            None => "No Merkle Root (Family A)"@,
        },
        Err(_) => "Error extracting root"@,
    }
}

/// Encode the text of a request under the service configuration and a
/// zero nonce, and report the Merkle root read back from the artifact.
/// An encoding error is handed back for the transport to report.
pub fn encode_handle(req: &EncodeRequest) -> (r: Result<EncodeResponse>)
    ensures
        match (r, spec_encode(service_config(), vstd::utf8::encode_utf8(req.payload@), zero_nonce(), Seq::empty())) {
            (Ok(resp), Ok(s)) => resp.status@ == "success"@ && resp.merkle_root@ == spec_root_text(s),
            (Err(e), Err(d)) => same_error(e, d),
            _ => false,
        },
{
    let config = EncoderConfig {
        hash_suite: HashSuite::Blake3,
        commitment_mode: FAMILY_A_BIT | FAMILY_B_BIT,
        block_payload_size: 1024,
        flags: 0,
        encryption_key: None,
    };
    let payload = req.payload.as_str().as_bytes();
    let receipts: Vec<Vec<u8>> = Vec::new();
    let nonce = [0u8; 16];
    proof {
        lemma_seq_to_array::<16>(nonce);
        assert(nonce@ =~= zeros(16));
        assert(vec_views(receipts@) =~= Seq::<Seq<u8>>::empty());
        assert(0u32 & 1u32 == 0 && 0u32 & 2u32 == 0) by (bit_vector);
    }
    match encode(&config, payload, nonce, receipts.as_slice()) {
        Ok(artifact) => {
            let merkle_root = match decode(artifact.as_slice(), None) {
                Ok(decoded) => match decoded.merkle_root {
                    Some(m) => hex_string(&m),
                    None => String::from_str("No Merkle Root (Family A)"),
                },
                Err(_) => String::from_str("Error extracting root"),
            };
            Ok(EncodeResponse { status: String::from_str("success"), merkle_root })
        },
        Err(e) => Err(e),
    }
}

/// The digest the extract route has the key management system sign: 32
/// zero bytes, whatever the request.
pub fn extract_sign_digest() -> (r: [u8; 32])
    ensures
        r@ == zeros(32),
{
    [0u8; 32]
}

/// The extract route's response once the key management system answered:
/// fixed texts for a signature, empty ones for a refusal.
pub fn extract_handle(signed: &core::result::Result<Vec<u8>, KmsError>) -> (r: ExtractResponse)
    ensures
        signed is Ok ==> r.status@ == "success"@ && r.derived_artifact_base64@ == "c3R1Yg=="@
            && r.receipt_base64@ == "receipt_with_kms_signature"@,
        signed is Err ==> r.status@ == "error"@ && r.derived_artifact_base64@ == Seq::<char>::empty()
            && r.receipt_base64@ == Seq::<char>::empty(),
{
    match signed {
        Ok(_) => ExtractResponse {
            status: String::from_str("success"),
            derived_artifact_base64: String::from_str("c3R1Yg=="),
            receipt_base64: String::from_str("receipt_with_kms_signature"),
        },
        Err(_) => ExtractResponse {
            status: String::from_str("error"),
            derived_artifact_base64: String::new(),
            receipt_base64: String::new(),
        },
    }
}

/// The validate route's response: the route accepts every request.
pub fn validate_handle(req: &ValidateRequest) -> (r: ValidateResponse)
    ensures
        r.valid,
        r.merkle_root@ == "stub_hash_for_enterprise_demo"@,
{
    ValidateResponse { valid: true, merkle_root: String::from_str("stub_hash_for_enterprise_demo") }
}

} // verus!
