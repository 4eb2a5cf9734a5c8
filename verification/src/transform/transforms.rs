//! Transform operations.
//!
//! Each transform decodes the source artifact, derives a new payload and
//! configuration, re-encodes under a fresh nonce, and produces a signed
//! receipt that links the source's roots to the derived artifact's.
use crate::block::block_wire_size;
use crate::bytes::{append_bytes, copy_range};
use crate::decoder::{decode, spec_decode, DecodedArtifact, DecodedView};

use crate::encoder::{encode, encode_admissible, random_nonce, spec_encode, EncoderConfig};
use crate::footer::vec_views;
use crate::merkle::zero_hash;
use crate::roundtrip::{roundtrip_ok, spec_decoded_of};
use crate::transform::error::{invalid_transform, same_transform_error, Result, TransformError};
use crate::transform::receipt::{create_receipt, spec_created_receipt, spec_receipt_bytes, spec_verify_receipt, Receipt, ReceiptView, SigningKey, TransformType};
use crate::text::{decimal, spec_decimal};
use vstd::prelude::*;
use vstd::string::*;

verus! {

/// Calls `std::time::SystemTime::now` and reads the seconds since the Unix
/// epoch (0 for a clock set before it). Nothing is stated of the value.
#[verifier::external_body]
fn now_timestamp() -> (r: u64) {
    std::time::SystemTime::now().duration_since(std::time::UNIX_EPOCH).unwrap_or_default().as_secs()
}

/// The chain root and Merkle root of a decoded artifact (all zero without
/// a Merkle root).
pub open spec fn spec_roots(d: DecodedView) -> ([u8; 32], [u8; 32]) {
    (d.chain_root, match d.merkle_root {
        Some(m) => m,
        None => zero_hash(),
    })
}

/// Extract the roots of a decoded artifact.
fn extract_roots(decoded: &DecodedArtifact) -> (r: ([u8; 32], [u8; 32]))
    ensures
        r == spec_roots(decoded@),
{
    let chain_root = decoded.chain_root;
    let merkle_root = match decoded.merkle_root {
        Some(m) => m,
        None => {
            let z = [0u8; 32];
            proof {
                broadcast use vstd::array::group_array_axioms;
                crate::bootstrap::lemma_seq_to_array(z);
                assert(z@ =~= crate::bytes::zeros(32));
            }
            z
        },
    };
    (chain_root, merkle_root)
}

/// Encoding, refused up front where the configuration cannot encode the
/// payload: a block wire size past `usize`, or encryption with a block
/// size that leaves no payload room.
pub open spec fn spec_encode_checked(c: EncoderConfig, p: Seq<u8>, nonce: [u8; 16], rs: Seq<Seq<u8>>) -> core::result::Result<Seq<u8>, TransformError> {
    if !encode_admissible(c, p) {
        Err(invalid_transform())
    } else {
        match spec_encode(c, p, nonce, rs) {
            Ok(a) => Ok(a),
            Err(e) => Err(TransformError::Cbc(e)),
        }
    }
}

/// Encode, refusing configurations that cannot encode the payload.
fn encode_checked(config: &EncoderConfig, payload: &[u8], nonce: [u8; 16], receipts: &[Vec<u8>]) -> (r: Result<Vec<u8>>)
    ensures
        match (r, spec_encode_checked(*config, payload@, nonce, vec_views(receipts@))) {
            (Ok(v), Ok(s)) => v@ == s,
            (Err(e), Err(d)) => same_transform_error(e, d),
            _ => false,
        },
        r matches Ok(v) ==> (roundtrip_ok(*config, payload@, vec_views(receipts@)) ==>
            spec_decode(v@, config.encryption_key) == Ok::<DecodedView, crate::error::CbcError>(spec_decoded_of(*config, payload@, nonce, vec_views(receipts@)))),
{
    match block_wire_size(config.block_payload_size) {
        Some(_) => {},
        None => {
            return Err(TransformError::InvalidTransform("block size too large for platform".to_owned()));
        },
    }
    let encrypted = config.flags & crate::bootstrap::FLAG_ENCRYPTED != 0;
    let compressed = config.flags & crate::bootstrap::FLAG_COMPRESSED != 0;
    if encrypted && config.block_payload_size == 16 && (compressed || payload.len() > 0) {
        return Err(TransformError::InvalidTransform("block size leaves no room for payload once encrypted".to_owned()));
    }
    match encode(config, payload, nonce, receipts) {
        Ok(a) => Ok(a),
        Err(e) => Err(TransformError::Cbc(e)),
    }
}

/// What re-encoding yields under `nonce` at `timestamp`: the derived
/// artifact, carrying the given receipts, the source's receipts and the
/// new one, and the new receipt; or the first failure.
pub open spec fn spec_reencode(
    source: Seq<u8>,
    new_payload: Seq<u8>,
    c: EncoderConfig,
    transform_type: TransformType,
    transform_desc: Seq<u8>,
    key: SigningKey,
    existing: Seq<Seq<u8>>,
    nonce: [u8; 16],
    timestamp: u64,
) -> core::result::Result<(Seq<u8>, ReceiptView), TransformError> {
    match spec_decode(source, None) {
        Err(e) => Err(TransformError::Cbc(e)),
        Ok(ds) => match spec_encode_checked(c, new_payload, nonce, Seq::empty()) {
            Err(e) => Err(e),
            Ok(temp) => match spec_decode(temp, None) {
                Err(e) => Err(TransformError::Cbc(e)),
                Ok(dd) => {
                    let rc = spec_created_receipt(spec_roots(ds).0, spec_roots(ds).1, spec_roots(dd).0, spec_roots(dd).1,
                        transform_type, transform_desc, timestamp, key, c.hash_suite);
                    match spec_encode_checked(c, new_payload, nonce, existing + ds.receipt_slots + seq![spec_receipt_bytes(rc)]) {
                        Err(e) => Err(e),
                        Ok(a) => Ok((a, rc)),
                    }
                },
            },
        },
    }
}

/// `r` is the outcome `s` describes.
pub open spec fn matches_outcome(r: Result<(Vec<u8>, Receipt)>, s: core::result::Result<(Seq<u8>, ReceiptView), TransformError>) -> bool {
    match (r, s) {
        (Ok((a, rc)), Ok((sa, src))) => a@ == sa && rc@ == src,
        (Err(e), Err(d)) => same_transform_error(e, d),
        _ => false,
    }
}

/// Re-encode `new_payload` as a derived artifact of `source` under the
/// given nonce and timestamp, with a receipt signed by `signing_key`. The
/// receipt verifies, and its derived root is the derived artifact's chain
/// root.
pub fn transform_reencode_with(
    source: &[u8],
    new_payload: &[u8],
    new_config: &EncoderConfig,
    transform_type: TransformType,
    transform_desc: Vec<u8>,
    signing_key: &SigningKey,
    existing_receipts: Vec<Vec<u8>>,
    nonce: [u8; 16],
    timestamp: u64,
) -> (r: Result<(Vec<u8>, Receipt)>)
    requires
        new_config.encryption_key is None,
    ensures
        matches_outcome(r, spec_reencode(source@, new_payload@, *new_config, transform_type, transform_desc@, *signing_key,
            vec_views(existing_receipts@), nonce, timestamp)),
        r matches Ok((a, rc)) ==> spec_verify_receipt(rc@, new_config.hash_suite) is Ok,
        r matches Ok((a, rc)) ==> (spec_decode(source@, None) matches Ok(ds) ==> (roundtrip_ok(*new_config, new_payload@,
            vec_views(existing_receipts@) + ds.receipt_slots + seq![spec_receipt_bytes(rc@)]) ==> (spec_decode(a@, None) matches Ok(d)
                && d.chain_root == rc@.derived_root
                && d.payload == new_payload@
                && d.receipt_slots == vec_views(existing_receipts@) + ds.receipt_slots + seq![spec_receipt_bytes(rc@)]))),
{
    let decoded_source = match decode(source, None) {
        Ok(d) => d,
        Err(e) => {
            return Err(TransformError::Cbc(e));
        },
    };
    let (source_chain_root, source_merkle_root) = extract_roots(&decoded_source);
    let no_receipts: Vec<Vec<u8>> = Vec::new();
    proof { assert(vec_views(no_receipts@) =~= Seq::<Seq<u8>>::empty()); }
    let temp_artifact = match encode_checked(new_config, new_payload, nonce, no_receipts.as_slice()) {
        Ok(a) => a,
        Err(e) => {
            return Err(e);
        },
    };
    let decoded_derived = match decode(temp_artifact.as_slice(), None) {
        Ok(d) => d,
        Err(e) => {
            return Err(TransformError::Cbc(e));
        },
    };
    let (derived_chain_root, derived_merkle_root) = extract_roots(&decoded_derived);
    let ghost desc = transform_desc@;
    let receipt = match create_receipt(
        source_chain_root,
        source_merkle_root,
        derived_chain_root,
        derived_merkle_root,
        transform_type,
        transform_desc,
        timestamp,
        signing_key,
        new_config.hash_suite,
    ) {
        Ok(r) => r,
        Err(e) => {
            return Err(e);
        },
    };
    let mut all_receipts = existing_receipts;
    let ghost start = vec_views(all_receipts@);
    let mut k: usize = 0;
    while k < decoded_source.receipt_slots.len()
        invariant
            k <= decoded_source.receipt_slots@.len(),
            vec_views(all_receipts@) == start + vec_views(decoded_source.receipt_slots@).take(k as int),
        decreases decoded_source.receipt_slots@.len() - k,
    {
        let slot = &decoded_source.receipt_slots[k];
        let copy = copy_range(slot.as_slice(), 0, slot.len());
        let ghost before = vec_views(all_receipts@);
        all_receipts.push(copy);
        proof {
            assert(copy@ =~= slot@);
            assert(vec_views(all_receipts@) =~= before.push(copy@));
            assert(vec_views(decoded_source.receipt_slots@).take(k + 1) =~= vec_views(decoded_source.receipt_slots@).take(k as int).push(slot@));
        }
        k = k + 1;
    }
    proof { assert(vec_views(decoded_source.receipt_slots@).take(k as int) =~= vec_views(decoded_source.receipt_slots@)); }
    let receipt_bytes = receipt.encode();
    let ghost before_last = vec_views(all_receipts@);
    all_receipts.push(receipt_bytes);
    proof { assert(vec_views(all_receipts@) =~= before_last.push(spec_receipt_bytes(receipt@))); }
    let final_artifact = match encode_checked(new_config, new_payload, nonce, all_receipts.as_slice()) {
        Ok(a) => a,
        Err(e) => {
            return Err(e);
        },
    };
    proof {
        assert(start + vec_views(decoded_source.receipt_slots@) + seq![spec_receipt_bytes(receipt@)] =~= vec_views(all_receipts@));
        if roundtrip_ok(*new_config, new_payload@, vec_views(all_receipts@)) {
            assert(roundtrip_ok(*new_config, new_payload@, Seq::<Seq<u8>>::empty()));
        }
    }
    Ok((final_artifact, receipt))
}

/// Re-encode `new_payload` as a derived artifact of `source`, under a
/// fresh random nonce and the current time.
fn transform_reencode(
    source: &[u8],
    new_payload: &[u8],
    new_config: &EncoderConfig,
    transform_type: TransformType,
    transform_desc: Vec<u8>,
    signing_key: &SigningKey,
    existing_receipts: Vec<Vec<u8>>,
) -> (r: Result<(Vec<u8>, Receipt)>)
    requires
        new_config.encryption_key is None,
    ensures
        exists|nonce: [u8; 16], timestamp: u64| matches_outcome(r, spec_reencode(source@, new_payload@, *new_config, transform_type,
            transform_desc@, *signing_key, vec_views(existing_receipts@), nonce, timestamp)),
        r matches Ok((a, rc)) ==> spec_verify_receipt(rc@, new_config.hash_suite) is Ok,
{
    let nonce = random_nonce();
    let timestamp = now_timestamp();
    transform_reencode_with(source, new_payload, new_config, transform_type, transform_desc, signing_key, existing_receipts, nonce, timestamp)
}

/// The configuration a transform re-encodes under: the source's suite and
/// commitment mode, with the given block size and flags, unencrypted.
pub open spec fn derived_config(d: DecodedView, block_payload_size: u32, flags: u32) -> EncoderConfig {
    EncoderConfig {
        hash_suite: d.bootstrap.hash_suite,
        commitment_mode: d.bootstrap.commitment_mode,
        block_payload_size,
        flags,
        encryption_key: None,
    }
}

/// The configuration of a decoded source, as the transforms build it.
fn config_of(d: &DecodedArtifact, block_payload_size: u32, flags: u32) -> (c: EncoderConfig)
    ensures
        c == derived_config(d@, block_payload_size, flags),
{
    EncoderConfig {
        hash_suite: d.bootstrap.hash_suite,
        commitment_mode: d.bootstrap.commitment_mode,
        block_payload_size,
        flags,
        encryption_key: None,
    }
}

/// The smaller of two numbers.
pub open spec fn min_int(a: int, b: int) -> int {
    if a <= b { a } else { b }
}

/// The payload of the first `keep` blocks of a source.
pub open spec fn spec_truncated(d: DecodedView, keep: u32) -> Seq<u8> {
    d.payload.take(min_int(d.payload.len() as int, keep * d.bootstrap.block_payload_size))
}

/// The bytes of a `u32`, little-endian.
fn u32_bytes(x: u32) -> (r: Vec<u8>)
    ensures
        r@ == vstd::bytes::spec_u32_to_le_bytes(x),
{
    vstd::bytes::u32_to_le_bytes(x)
}

/// The first `n` bytes, `n` at most the length.
fn prefix_of(s: &[u8], n: usize) -> (r: Vec<u8>)
    requires
        n <= s@.len(),
    ensures
        r@ == s@.take(n as int),
{
    let r = copy_range(s, 0, n);
    proof { assert(r@ =~= s@.take(n as int)); }
    r
}

/// T1: Truncation: keep the first `keep_blocks` blocks (at least one, fewer
/// than the source has).
pub fn truncate(source: &[u8], keep_blocks: u32, signing_key: &SigningKey) -> (r: Result<(Vec<u8>, Receipt)>)
    ensures
        match spec_decode(source@, None) {
            Err(e) => r matches Err(x) && same_transform_error(x, TransformError::Cbc(e)),
            Ok(d) => if keep_blocks == 0 || keep_blocks >= d.block_count {
                r matches Err(TransformError::InvalidTransform(_))
            } else {
                exists|nonce: [u8; 16], timestamp: u64| matches_outcome(r, spec_reencode(source@, spec_truncated(d, keep_blocks),
                    derived_config(d, d.bootstrap.block_payload_size, d.bootstrap.flags), TransformType::Truncation,
                    vstd::bytes::spec_u32_to_le_bytes(keep_blocks), *signing_key, Seq::empty(), nonce, timestamp))
            },
        },
        r matches Ok((a, rc)) ==> (spec_decode(source@, None) matches Ok(d) && spec_verify_receipt(rc@, d.bootstrap.hash_suite) is Ok),
{
    let decoded = match decode(source, None) {
        Ok(d) => d,
        Err(e) => {
            return Err(TransformError::Cbc(e));
        },
    };
    let block_payload_size = decoded.bootstrap.block_payload_size;
    if keep_blocks == 0 || keep_blocks >= decoded.block_count {
        return Err(TransformError::InvalidTransform(keep_message(keep_blocks, decoded.block_count)));
    }
    proof {
        assert((keep_blocks as u64) * (block_payload_size as u64) <= 0xFFFF_FFFFu64 * 0xFFFF_FFFFu64) by (nonlinear_arith)
            requires keep_blocks <= 0xFFFF_FFFFu32, block_payload_size <= 0xFFFF_FFFFu32;
    }
    let max_bytes: u64 = keep_blocks as u64 * block_payload_size as u64;
    let len = decoded.payload.len();
    let n: usize = if (len as u64) < max_bytes { len } else { max_bytes as usize };
    let truncated_payload = prefix_of(decoded.payload.as_slice(), n);
    let config = config_of(&decoded, block_payload_size, decoded.bootstrap.flags);
    let desc = u32_bytes(keep_blocks);
    let empty: Vec<Vec<u8>> = Vec::new();
    proof { assert(vec_views(empty@) =~= Seq::<Seq<u8>>::empty()); }
    let ghost d = decoded@;
    let ghost desc_view = desc@;
    let r = transform_reencode(source, truncated_payload.as_slice(), &config, TransformType::Truncation, desc, signing_key, empty);
    proof {
        assert(truncated_payload@ == spec_truncated(d, keep_blocks));
        let (nonce, timestamp) = choose|nonce: [u8; 16], timestamp: u64| matches_outcome(r, spec_reencode(source@, truncated_payload@,
            config, TransformType::Truncation, desc_view, *signing_key, vec_views(empty@), nonce, timestamp));
        assert(matches_outcome(r, spec_reencode(source@, spec_truncated(d, keep_blocks),
            derived_config(d, d.bootstrap.block_payload_size, d.bootstrap.flags), TransformType::Truncation,
            vstd::bytes::spec_u32_to_le_bytes(keep_blocks), *signing_key, Seq::empty(), nonce, timestamp)));
    }
    r
}

/// The message for a block count out of range.
fn keep_message(keep_blocks: u32, block_count: u32) -> (r: String)
    ensures
        r@ == "keep_blocks ("@ + spec_decimal(keep_blocks as nat) + ") must be > 0 and < block_count ("@ + spec_decimal(block_count as nat) + ")"@,
{
    String::from_str("keep_blocks (").concat(decimal(keep_blocks as u64).as_str()).concat(") must be > 0 and < block_count (").concat(decimal(block_count as u64).as_str()).concat(")")
}

/// T2: Rechunk: rewrite with a different block payload size.
pub fn rechunk(source: &[u8], new_block_size: u32, signing_key: &SigningKey) -> (r: Result<(Vec<u8>, Receipt)>)
    ensures
        match spec_decode(source@, None) {
            Err(e) => r matches Err(x) && same_transform_error(x, TransformError::Cbc(e)),
            Ok(d) => exists|nonce: [u8; 16], timestamp: u64| matches_outcome(r, spec_reencode(source@, d.payload,
                derived_config(d, new_block_size, d.bootstrap.flags), TransformType::Rechunk,
                vstd::bytes::spec_u32_to_le_bytes(d.bootstrap.block_payload_size) + vstd::bytes::spec_u32_to_le_bytes(new_block_size),
                *signing_key, Seq::empty(), nonce, timestamp)),
        },
        r matches Ok((a, rc)) ==> (spec_decode(source@, None) matches Ok(d) && spec_verify_receipt(rc@, d.bootstrap.hash_suite) is Ok),
{
    let decoded = match decode(source, None) {
        Ok(d) => d,
        Err(e) => {
            return Err(TransformError::Cbc(e));
        },
    };
    let mut desc = u32_bytes(decoded.bootstrap.block_payload_size);
    let new_bytes = u32_bytes(new_block_size);
    append_bytes(&mut desc, new_bytes.as_slice());
    let config = config_of(&decoded, new_block_size, decoded.bootstrap.flags);
    let empty: Vec<Vec<u8>> = Vec::new();
    proof { assert(vec_views(empty@) =~= Seq::<Seq<u8>>::empty()); }
    let ghost desc_view = desc@;
    let r = transform_reencode(source, decoded.payload.as_slice(), &config, TransformType::Rechunk, desc, signing_key, empty);
    proof {
        let (nonce, timestamp) = choose|nonce: [u8; 16], timestamp: u64| matches_outcome(r, spec_reencode(source@, decoded@.payload,
            config, TransformType::Rechunk, desc_view, *signing_key, vec_views(empty@), nonce, timestamp));
        assert(matches_outcome(r, spec_reencode(source@, decoded@.payload, derived_config(decoded@, new_block_size, decoded@.bootstrap.flags),
            TransformType::Rechunk,
            vstd::bytes::spec_u32_to_le_bytes(decoded@.bootstrap.block_payload_size) + vstd::bytes::spec_u32_to_le_bytes(new_block_size),
            *signing_key, Seq::empty(), nonce, timestamp)));
    }
    r
}

/// T3: Recompress: toggle the compression flag and re-encode the payload.
pub fn recompress(source: &[u8], signing_key: &SigningKey) -> (r: Result<(Vec<u8>, Receipt)>)
    ensures
        match spec_decode(source@, None) {
            Err(e) => r matches Err(x) && same_transform_error(x, TransformError::Cbc(e)),
            Ok(d) => exists|nonce: [u8; 16], timestamp: u64| matches_outcome(r, spec_reencode(source@, d.payload,
                derived_config(d, d.bootstrap.block_payload_size, d.bootstrap.flags ^ 0x01u32), TransformType::Recompress,
                vstd::bytes::spec_u32_to_le_bytes(d.bootstrap.flags ^ 0x01u32), *signing_key, Seq::empty(), nonce, timestamp)),
        },
        r matches Ok((a, rc)) ==> (spec_decode(source@, None) matches Ok(d) && spec_verify_receipt(rc@, d.bootstrap.hash_suite) is Ok),
{
    let decoded = match decode(source, None) {
        Ok(d) => d,
        Err(e) => {
            return Err(TransformError::Cbc(e));
        },
    };
    let new_flags = decoded.bootstrap.flags ^ crate::bootstrap::FLAG_COMPRESSED;
    let config = config_of(&decoded, decoded.bootstrap.block_payload_size, new_flags);
    let desc = u32_bytes(new_flags);
    let empty: Vec<Vec<u8>> = Vec::new();
    proof { assert(vec_views(empty@) =~= Seq::<Seq<u8>>::empty()); }
    let ghost desc_view = desc@;
    let r = transform_reencode(source, decoded.payload.as_slice(), &config, TransformType::Recompress, desc, signing_key, empty);
    proof {
        let (nonce, timestamp) = choose|nonce: [u8; 16], timestamp: u64| matches_outcome(r, spec_reencode(source@, decoded@.payload,
            config, TransformType::Recompress, desc_view, *signing_key, vec_views(empty@), nonce, timestamp));
        assert(matches_outcome(r, spec_reencode(source@, decoded@.payload,
            derived_config(decoded@, decoded@.bootstrap.block_payload_size, decoded@.bootstrap.flags ^ 0x01u32), TransformType::Recompress,
            vstd::bytes::spec_u32_to_le_bytes(decoded@.bootstrap.flags ^ 0x01u32), *signing_key, Seq::empty(), nonce, timestamp)));
    }
    r
}

/// The payload of blocks [start..=end] of a source.
pub open spec fn spec_subrange(d: DecodedView, start: u32, end: u32) -> Seq<u8> {
    d.payload.subrange(start * d.bootstrap.block_payload_size,
        min_int((end + 1) * d.bootstrap.block_payload_size, d.payload.len() as int))
}

/// The message for a block range out of range.
fn range_message(start_block: u32, end_block: u32, block_count: u32) -> (r: String)
    ensures
        r@ == "invalid range ["@ + spec_decimal(start_block as nat) + ", "@ + spec_decimal(end_block as nat) + "] for artifact with "@ + spec_decimal(block_count as nat) + " blocks"@,
{
    String::from_str("invalid range [").concat(decimal(start_block as u64).as_str()).concat(", ").concat(decimal(end_block as u64).as_str()).concat("] for artifact with ").concat(decimal(block_count as u64).as_str()).concat(" blocks")
}

/// T5: Subrange extraction: keep blocks [start_block..=end_block].
pub fn subrange_extract(source: &[u8], start_block: u32, end_block: u32, signing_key: &SigningKey) -> (r: Result<(Vec<u8>, Receipt)>)
    requires
        spec_decode(source@, None) matches Ok(d) ==> (start_block <= end_block < d.block_count
            ==> start_block * d.bootstrap.block_payload_size <= d.payload.len()),
    ensures
        match spec_decode(source@, None) {
            Err(e) => r matches Err(x) && same_transform_error(x, TransformError::Cbc(e)),
            Ok(d) => if start_block > end_block || end_block >= d.block_count {
                r matches Err(TransformError::InvalidTransform(_))
            } else {
                exists|nonce: [u8; 16], timestamp: u64| matches_outcome(r, spec_reencode(source@, spec_subrange(d, start_block, end_block),
                    derived_config(d, d.bootstrap.block_payload_size, d.bootstrap.flags), TransformType::SubrangeExtract,
                    vstd::bytes::spec_u32_to_le_bytes(start_block) + vstd::bytes::spec_u32_to_le_bytes(end_block),
                    *signing_key, Seq::empty(), nonce, timestamp))
            },
        },
        r matches Ok((a, rc)) ==> (spec_decode(source@, None) matches Ok(d) && spec_verify_receipt(rc@, d.bootstrap.hash_suite) is Ok),
{
    let decoded = match decode(source, None) {
        Ok(d) => d,
        Err(e) => {
            return Err(TransformError::Cbc(e));
        },
    };
    let block_payload_size = decoded.bootstrap.block_payload_size;
    if start_block > end_block || end_block >= decoded.block_count {
        return Err(TransformError::InvalidTransform(range_message(start_block, end_block, decoded.block_count)));
    }
    proof {
        assert((start_block as u64) * (block_payload_size as u64) <= 0xFFFF_FFFFu64 * 0xFFFF_FFFFu64) by (nonlinear_arith)
            requires start_block <= 0xFFFF_FFFFu32, block_payload_size <= 0xFFFF_FFFFu32;
        assert(((end_block as u64) + 1) * (block_payload_size as u64) <= 0x1_0000_0000u64 * 0xFFFF_FFFFu64) by (nonlinear_arith)
            requires end_block <= 0xFFFF_FFFFu32, block_payload_size <= 0xFFFF_FFFFu32;
        assert((start_block as u64) * (block_payload_size as u64) <= ((end_block as u64) + 1) * (block_payload_size as u64)) by (nonlinear_arith)
            requires start_block <= end_block;
    }
    let start_byte = (start_block as u64 * block_payload_size as u64) as usize;
    let stop: u64 = (end_block as u64 + 1) * block_payload_size as u64;
    let len = decoded.payload.len();
    let end_byte: usize = if stop < len as u64 { stop as usize } else { len };
    let new_payload = copy_range(decoded.payload.as_slice(), start_byte, end_byte);
    let config = config_of(&decoded, block_payload_size, decoded.bootstrap.flags);
    let mut desc = u32_bytes(start_block);
    let end_bytes = u32_bytes(end_block);
    append_bytes(&mut desc, end_bytes.as_slice());
    let empty: Vec<Vec<u8>> = Vec::new();
    proof { assert(vec_views(empty@) =~= Seq::<Seq<u8>>::empty()); }
    let ghost desc_view = desc@;
    let ghost d = decoded@;
    let r = transform_reencode(source, new_payload.as_slice(), &config, TransformType::SubrangeExtract, desc, signing_key, empty);
    proof {
        assert(new_payload@ == spec_subrange(d, start_block, end_block));
        let (nonce, timestamp) = choose|nonce: [u8; 16], timestamp: u64| matches_outcome(r, spec_reencode(source@, new_payload@,
            config, TransformType::SubrangeExtract, desc_view, *signing_key, vec_views(empty@), nonce, timestamp));
        assert(matches_outcome(r, spec_reencode(source@, spec_subrange(d, start_block, end_block),
            derived_config(d, d.bootstrap.block_payload_size, d.bootstrap.flags), TransformType::SubrangeExtract,
            vstd::bytes::spec_u32_to_le_bytes(start_block) + vstd::bytes::spec_u32_to_le_bytes(end_block),
            *signing_key, Seq::empty(), nonce, timestamp)));
    }
    r
}

/// The sources decoded in turn: the first failure, or all of them.
pub open spec fn spec_decode_all(sources: Seq<Seq<u8>>) -> core::result::Result<Seq<DecodedView>, crate::error::CbcError>
    decreases sources.len(),
{
    if sources.len() == 0 {
        Ok(Seq::empty())
    } else {
        match spec_decode(sources[0], None) {
            Err(e) => Err(e),
            Ok(d) => match spec_decode_all(sources.drop_first()) {
                Err(e) => Err(e),
                Ok(rest) => Ok(seq![d] + rest),
            },
        }
    }
}

/// Decoding a nonempty run of sources decodes the first, then the rest.
proof fn lemma_decode_all_step(t: Seq<Seq<u8>>)
    requires
        t.len() > 0,
    ensures
        spec_decode_all(t) == match spec_decode(t[0], None) {
            Err(x) => Err::<Seq<DecodedView>, crate::error::CbcError>(x),
            Ok(d) => match spec_decode_all(t.drop_first()) {
                Err(x) => Err(x),
                Ok(rest) => Ok(seq![d] + rest),
            },
        },
{
}

/// A source that fails to decode fails the concatenation.
proof fn lemma_concat_decode_err(srcs: Seq<Seq<u8>>, key: SigningKey, nonce: [u8; 16], ts: Seq<u64>, x: crate::error::CbcError)
    requires
        srcs.len() >= 2,
        spec_decode_all(srcs) == Err::<Seq<DecodedView>, crate::error::CbcError>(x),
    ensures
        spec_concatenate(srcs, key, nonce, ts) == Err::<(Seq<u8>, Seq<ReceiptView>), TransformError>(TransformError::Cbc(x)),
{
}

/// The payloads of decoded artifacts, joined.
pub open spec fn spec_joined_payloads(ds: Seq<DecodedView>) -> Seq<u8>
    decreases ds.len(),
{
    if ds.len() == 0 { Seq::empty() } else { spec_joined_payloads(ds.drop_last()) + ds.last().payload }
}

/// The chain roots of decoded artifacts, joined.
pub open spec fn spec_joined_roots(ds: Seq<DecodedView>) -> Seq<u8>
    decreases ds.len(),
{
    if ds.len() == 0 { Seq::empty() } else { spec_joined_roots(ds.drop_last()) + ds.last().chain_root@ }
}

/// The receipts decoded artifacts carry, in order.
pub open spec fn spec_carried(ds: Seq<DecodedView>) -> Seq<Seq<u8>>
    decreases ds.len(),
{
    if ds.len() == 0 { Seq::empty() } else { spec_carried(ds.drop_last()) + ds.last().receipt_slots }
}

/// One concatenation receipt per source, each at its timestamp.
pub open spec fn spec_concat_receipts(ds: Seq<DecodedView>, dd: DecodedView, desc: Seq<u8>, timestamps: Seq<u64>, key: SigningKey, c: EncoderConfig) -> Seq<ReceiptView> {
    Seq::new(ds.len(), |i: int| spec_created_receipt(spec_roots(ds[i]).0, spec_roots(ds[i]).1, spec_roots(dd).0, spec_roots(dd).1,
        TransformType::Concatenate, desc, timestamps[i], key, c.hash_suite))
}

/// What concatenating the sources yields under `nonce`: the derived
/// artifact, carrying the sources' receipts then one new receipt per
/// source, and the new receipts; or the first failure.
pub open spec fn spec_concatenate(sources: Seq<Seq<u8>>, key: SigningKey, nonce: [u8; 16], timestamps: Seq<u64>)
    -> core::result::Result<(Seq<u8>, Seq<ReceiptView>), TransformError>
{
    if sources.len() < 2 {
        Err(invalid_transform())
    } else {
        match spec_decode_all(sources) {
            Err(e) => Err(TransformError::Cbc(e)),
            Ok(ds) => {
                let c = derived_config(ds[0], ds[0].bootstrap.block_payload_size, ds[0].bootstrap.flags);
                let p = spec_joined_payloads(ds);
                match spec_encode_checked(c, p, nonce, Seq::empty()) {
                    Err(e) => Err(e),
                    Ok(temp) => match spec_decode(temp, None) {
                        Err(e) => Err(TransformError::Cbc(e)),
                        Ok(dd) => {
                            let rcs = spec_concat_receipts(ds, dd, spec_joined_roots(ds), timestamps, key, c);
                            let all = spec_carried(ds) + Seq::new(rcs.len(), |i: int| spec_receipt_bytes(rcs[i]));
                            match spec_encode_checked(c, p, nonce, all) {
                                Err(e) => Err(e),
                                Ok(a) => Ok((a, rcs)),
                            }
                        },
                    },
                }
            },
        }
    }
}

/// The views of a list of slices.
pub open spec fn slice_views(s: Seq<&[u8]>) -> Seq<Seq<u8>> {
    Seq::new(s.len(), |i: int| s[i]@)
}

/// The views of a list of receipts.
pub open spec fn receipt_views(s: Seq<Receipt>) -> Seq<ReceiptView> {
    Seq::new(s.len(), |i: int| s[i]@)
}

/// The views of a list of decoded artifacts.
pub open spec fn decoded_views(s: Seq<DecodedArtifact>) -> Seq<DecodedView> {
    Seq::new(s.len(), |i: int| s[i]@)
}

/// `r` is the outcome of concatenating `sources` under `nonce` at
/// `timestamps`.
pub open spec fn concat_matches(r: Result<(Vec<u8>, Vec<Receipt>)>, sources: Seq<Seq<u8>>, key: SigningKey, nonce: [u8; 16], timestamps: Seq<u64>) -> bool {
    match (r, spec_concatenate(sources, key, nonce, timestamps)) {
        (Ok((a, rcs)), Ok((sa, srcs))) => a@ == sa && receipt_views(rcs@) == srcs,
        (Err(e), Err(d)) => same_transform_error(e, d),
        _ => false,
    }
}

/// T4: Concatenate the payloads of two or more artifacts under the given
/// nonce, each receipt at its timestamp. Every receipt verifies.
pub fn concatenate_with(sources: &[&[u8]], signing_key: &SigningKey, nonce: [u8; 16], timestamps: &[u64]) -> (r: Result<(Vec<u8>, Vec<Receipt>)>)
    requires
        timestamps@.len() >= sources@.len(),
    ensures
        concat_matches(r, slice_views(sources@), *signing_key, nonce, timestamps@),
{
    if sources.len() < 2 {
        return Err(TransformError::InvalidTransform("concatenation requires at least 2 sources".to_owned()));
    }
    let ghost srcs = slice_views(sources@);
    let ghost whole = spec_decode_all(srcs);
    let mut decoded_sources: Vec<DecodedArtifact> = Vec::new();
    let mut combined_payload: Vec<u8> = Vec::new();
    let mut i: usize = 0;
    proof {
        assert(srcs.skip(0) =~= srcs);
        match whole {
            Ok(ds) => { assert(decoded_views(decoded_sources@) + ds =~= ds); },
            Err(e) => {},
        }
    }
    while i < sources.len()
        invariant
            i <= sources@.len(),
            sources@.len() >= 2,
            srcs == slice_views(sources@),
            whole == spec_decode_all(srcs),
            whole == match spec_decode_all(srcs.skip(i as int)) {
                Ok(rest) => Ok::<Seq<DecodedView>, crate::error::CbcError>(decoded_views(decoded_sources@) + rest),
                Err(e) => Err(e),
            },
            combined_payload@ == spec_joined_payloads(decoded_views(decoded_sources@)),
            decoded_sources@.len() == i,
        decreases sources@.len() - i,
    {
        let ghost t = srcs.skip(i as int);
        proof {
            assert(t[0] == sources@[i as int]@);
            assert(t.drop_first() =~= srcs.skip(i + 1));
            lemma_decode_all_step(t);
        }
        let decoded = match decode(sources[i], None) {
            Ok(d) => d,
            Err(e) => {
                proof {
                    let x = spec_decode(t[0], None)->Err_0;
                    assert(whole == Err::<Seq<DecodedView>, crate::error::CbcError>(x));
                    lemma_concat_decode_err(srcs, *signing_key, nonce, timestamps@, x);
                }
                return Err(TransformError::Cbc(e));
            },
        };
        append_bytes(&mut combined_payload, decoded.payload.as_slice());
        let ghost before = decoded_views(decoded_sources@);
        let ghost dv = decoded@;
        decoded_sources.push(decoded);
        proof {
            assert(decoded_views(decoded_sources@) =~= before.push(dv));
            assert(decoded_views(decoded_sources@).drop_last() =~= before);
            match spec_decode_all(srcs.skip(i + 1)) {
                Ok(rest) => { assert(before + (seq![dv] + rest) =~= decoded_views(decoded_sources@) + rest); },
                Err(e) => {},
            }
        }
        i = i + 1;
    }
    proof {
        assert(srcs.skip(i as int) =~= Seq::<Seq<u8>>::empty());
        assert(decoded_views(decoded_sources@) + Seq::<DecodedView>::empty() =~= decoded_views(decoded_sources@));
    }
    let ghost ds = decoded_views(decoded_sources@);
    let config = config_of(&decoded_sources[0], decoded_sources[0].bootstrap.block_payload_size, decoded_sources[0].bootstrap.flags);
    let no_receipts: Vec<Vec<u8>> = Vec::new();
    proof { assert(vec_views(no_receipts@) =~= Seq::<Seq<u8>>::empty()); }
    let temp = match encode_checked(&config, combined_payload.as_slice(), nonce, no_receipts.as_slice()) {
        Ok(a) => a,
        Err(e) => {
            return Err(e);
        },
    };
    let decoded_derived = match decode(temp.as_slice(), None) {
        Ok(d) => d,
        Err(e) => {
            return Err(TransformError::Cbc(e));
        },
    };
    let (derived_chain_root, derived_merkle_root) = extract_roots(&decoded_derived);
    let mut desc: Vec<u8> = Vec::new();
    let mut receipt_bytes: Vec<Vec<u8>> = Vec::new();
    let mut k: usize = 0;
    while k < decoded_sources.len()
        invariant
            k <= decoded_sources@.len(),
            ds == decoded_views(decoded_sources@),
            desc@ == spec_joined_roots(ds.take(k as int)),
            vec_views(receipt_bytes@) == spec_carried(ds.take(k as int)),
        decreases decoded_sources@.len() - k,
    {
        let d = &decoded_sources[k];
        proof {
            assert(ds.take(k + 1).drop_last() =~= ds.take(k as int));
            assert(ds.take(k + 1).last() == d@);
        }
        append_bytes(&mut desc, d.chain_root.as_slice());
        let mut m: usize = 0;
        let ghost base = vec_views(receipt_bytes@);
        while m < d.receipt_slots.len()
            invariant
                m <= d.receipt_slots@.len(),
                vec_views(receipt_bytes@) == base + vec_views(d.receipt_slots@).take(m as int),
            decreases d.receipt_slots@.len() - m,
        {
            let slot = &d.receipt_slots[m];
            let copy = copy_range(slot.as_slice(), 0, slot.len());
            let ghost before = vec_views(receipt_bytes@);
            receipt_bytes.push(copy);
            proof {
                assert(copy@ =~= slot@);
                assert(vec_views(receipt_bytes@) =~= before.push(copy@));
                assert(vec_views(d.receipt_slots@).take(m + 1) =~= vec_views(d.receipt_slots@).take(m as int).push(slot@));
            }
            m = m + 1;
        }
        proof { assert(vec_views(d.receipt_slots@).take(m as int) =~= d@.receipt_slots); }
        k = k + 1;
    }
    proof { assert(ds.take(k as int) =~= ds); }
    let ghost carried = vec_views(receipt_bytes@);
    let ghost dd = decoded_derived@;
    let mut receipts: Vec<Receipt> = Vec::new();
    let mut j: usize = 0;
    while j < decoded_sources.len()
        invariant
            j <= decoded_sources@.len(),
            ds == decoded_views(decoded_sources@),
            timestamps@.len() >= decoded_sources@.len(),
            dd == decoded_derived@,
            (derived_chain_root, derived_merkle_root) == spec_roots(dd),
            config == derived_config(ds[0], ds[0].bootstrap.block_payload_size, ds[0].bootstrap.flags),
            receipt_views(receipts@) == spec_concat_receipts(ds, dd, desc@, timestamps@, *signing_key, config).take(j as int),
            vec_views(receipt_bytes@) == carried + Seq::new(j as nat, |q: int| spec_receipt_bytes(receipts@[q]@)),
            receipts@.len() == j,
        decreases decoded_sources@.len() - j,
    {
        let (src_root, src_merkle) = extract_roots(&decoded_sources[j]);
        let d_copy = copy_range(desc.as_slice(), 0, desc.len());
        let receipt = match create_receipt(
            src_root,
            src_merkle,
            derived_chain_root,
            derived_merkle_root,
            TransformType::Concatenate,
            d_copy,
            timestamps[j],
            signing_key,
            config.hash_suite,
        ) {
            Ok(r) => r,
            Err(e) => {
                return Err(e);
            },
        };
        proof { assert(d_copy@ =~= desc@); }
        let bytes = receipt.encode();
        let ghost rv = receipt@;
        let ghost before_b = vec_views(receipt_bytes@);
        receipt_bytes.push(bytes);
        let ghost old_receipts = receipts@;
        let ghost before_r = receipt_views(receipts@);
        receipts.push(receipt);
        proof {
            assert(receipts@ == old_receipts.push(receipts@[j as int]));
            assert(receipts@[j as int]@ == rv);
            assert(receipt_views(receipts@) =~= before_r.push(rv));
            assert(spec_concat_receipts(ds, dd, desc@, timestamps@, *signing_key, config).take(j + 1)
                =~= spec_concat_receipts(ds, dd, desc@, timestamps@, *signing_key, config).take(j as int).push(rv));
            let f_old = Seq::new(j as nat, |q: int| spec_receipt_bytes(old_receipts[q]@));
            let f_new = Seq::new((j + 1) as nat, |q: int| spec_receipt_bytes(receipts@[q]@));
            assert(f_new =~= f_old.push(spec_receipt_bytes(rv)));
            assert(vec_views(receipt_bytes@) =~= before_b.push(spec_receipt_bytes(rv)));
            assert(vec_views(receipt_bytes@) =~= carried + f_new);
        }
        j = j + 1;
    }
    let ghost rcs = spec_concat_receipts(ds, dd, desc@, timestamps@, *signing_key, config);
    proof {
        assert(receipt_views(receipts@) =~= rcs);
        assert(Seq::new(j as nat, |q: int| spec_receipt_bytes(receipts@[q]@)) =~= Seq::new(rcs.len(), |q: int| spec_receipt_bytes(rcs[q])));
    }
    let final_artifact = match encode_checked(&config, combined_payload.as_slice(), nonce, receipt_bytes.as_slice()) {
        Ok(a) => a,
        Err(e) => {
            return Err(e);
        },
    };
    Ok((final_artifact, receipts))
}

/// T4: Concatenate the payloads of two or more artifacts, under a fresh
/// random nonce and the current time.
pub fn concatenate(sources: &[&[u8]], signing_key: &SigningKey) -> (r: Result<(Vec<u8>, Vec<Receipt>)>)
    ensures
        exists|nonce: [u8; 16], timestamps: Seq<u64>| timestamps.len() == sources@.len()
            && #[trigger] concat_matches(r, slice_views(sources@), *signing_key, nonce, timestamps),
{
    let nonce = random_nonce();
    let mut timestamps: Vec<u64> = Vec::new();
    let mut i: usize = 0;
    while i < sources.len()
        invariant
            i <= sources@.len(),
            timestamps@.len() == i,
        decreases sources@.len() - i,
    {
        timestamps.push(now_timestamp());
        i = i + 1;
    }
    concatenate_with(sources, signing_key, nonce, timestamps.as_slice())
}

} // verus!
