//! Receipts and transforms: encoding, signing, verification, and the five
//! transforms with their receipts.
use cbc_core::bootstrap::{FAMILY_A_BIT, FAMILY_B_BIT, FLAG_COMPRESSED};
use cbc_core::decoder;
use cbc_core::encoder::{self, EncoderConfig};
use cbc_core::hash::HashSuite;
use cbc_core::transform::receipt::{self, create_receipt, generate_ecdsa_key, generate_ed25519_key, verify_receipt, Receipt, SigAlgorithm, TransformType};
use cbc_core::transform::{concatenate, recompress, rechunk, subrange_extract, truncate, SigningKey};

fn make_test_artifact(payload: &[u8]) -> Vec<u8> {
    let config = EncoderConfig {
        hash_suite: HashSuite::Blake3,
        commitment_mode: FAMILY_A_BIT,
        block_payload_size: 512,
        flags: 0,
        encryption_key: None,
    };
    encoder::encode(&config, payload, [42u8; 16], &[]).unwrap()
}

fn test_key() -> SigningKey {
    receipt::generate_ed25519_key()
}

fn make_source(payload_size: usize) -> (Vec<u8>, Vec<u8>) {
    let config = EncoderConfig {
        hash_suite: HashSuite::Blake3,
        commitment_mode: FAMILY_A_BIT | FAMILY_B_BIT,
        block_payload_size: 512,
        flags: 0,
        encryption_key: None,
    };
    let payload = (0..payload_size).map(|i| (i % 256) as u8).collect::<Vec<_>>();
    let artifact = encoder::encode(&config, &payload, [42u8; 16], &[]).unwrap();
    (artifact, payload)
}

fn signing_key() -> SigningKey {
    receipt::generate_ed25519_key()
}

// ---- receipts ----

#[test]
fn test_receipt_encode_decode_roundtrip() {
    let receipt = Receipt {
        receipt_version: 1,
        sig_alg: SigAlgorithm::Ed25519,
        source_root: [0xAA; 32],
        source_merkle_root: [0x00; 32],
        derived_root: [0xBB; 32],
        derived_merkle_root: [0x00; 32],
        timestamp: 1234567890,
        transform_type: TransformType::Truncation,
        transform_desc: vec![1, 2, 3],
        signer_id: vec![0xFF; 32],
        sig_bytes: vec![0xDD; 64],
    };

    let encoded = receipt.encode();
    let decoded = Receipt::decode(&encoded).unwrap();

    assert_eq!(decoded.receipt_version, 1);
    assert_eq!(decoded.source_root, [0xAA; 32]);
    assert_eq!(decoded.derived_root, [0xBB; 32]);
    assert_eq!(decoded.transform_type, TransformType::Truncation);
    assert_eq!(decoded.transform_desc, vec![1, 2, 3]);
    assert_eq!(decoded.signer_id, vec![0xFF; 32]);
    assert_eq!(decoded.sig_bytes, vec![0xDD; 64]);
}

#[test]
fn test_ed25519_sign_verify() {
    let key = generate_ed25519_key();
    let receipt = create_receipt(
        [0xAA; 32],
        [0x00; 32],
        [0xBB; 32],
        [0x00; 32],
        TransformType::Truncation,
        vec![],
        1234567890,
        &key,
        HashSuite::Blake3,
    )
    .unwrap();

    verify_receipt(&receipt, HashSuite::Blake3).unwrap();
}

#[test]
fn test_ecdsa_sign_verify() {
    let key = generate_ecdsa_key();
    let receipt = create_receipt(
        [0xCC; 32],
        [0x00; 32],
        [0xDD; 32],
        [0x00; 32],
        TransformType::Rechunk,
        vec![4, 5, 6],
        1234567890,
        &key,
        HashSuite::Blake3,
    )
    .unwrap();

    verify_receipt(&receipt, HashSuite::Blake3).unwrap();
}

#[test]
fn test_tampered_receipt_fails() {
    let key = generate_ed25519_key();
    let mut receipt = create_receipt(
        [0xAA; 32],
        [0x00; 32],
        [0xBB; 32],
        [0x00; 32],
        TransformType::Truncation,
        vec![],
        1234567890,
        &key,
        HashSuite::Blake3,
    )
    .unwrap();

    // Tamper with derived_root
    receipt.derived_root[0] ^= 0x01;
    assert!(verify_receipt(&receipt, HashSuite::Blake3).is_err());
}

// ---- transforms ----

#[test]
fn test_truncate() {
    let payload = vec![0x42u8; 1536]; // 3 blocks at 512
    let artifact = make_test_artifact(&payload);
    let key = test_key();

    let (derived, receipt) = truncate(&artifact, 2, &key).unwrap();

    // Derived artifact is valid
    let decoded = decoder::decode(&derived, None).unwrap();
    assert_eq!(decoded.block_count, 2);
    assert_eq!(decoded.payload.len(), 1024);

    // Roots differ
    let source_decoded = decoder::decode(&artifact, None).unwrap();
    assert_ne!(source_decoded.chain_root, decoded.chain_root);

    // Receipt verifies
    receipt::verify_receipt(&receipt, HashSuite::Blake3).unwrap();
    assert_eq!(receipt.source_root, source_decoded.chain_root);
    assert_eq!(receipt.derived_root, decoded.chain_root);
}

#[test]
fn test_rechunk() {
    let payload = vec![0x42u8; 2048]; // 4 blocks at 512
    let artifact = make_test_artifact(&payload);
    let key = test_key();

    let (derived, receipt) = rechunk(&artifact, 1024, &key).unwrap();

    let decoded = decoder::decode(&derived, None).unwrap();
    assert_eq!(decoded.bootstrap.block_payload_size, 1024);
    assert_eq!(decoded.payload, payload); // Payload unchanged

    receipt::verify_receipt(&receipt, HashSuite::Blake3).unwrap();
}

#[test]
fn test_recompress() {
    let payload = vec![0x42u8; 512];
    let artifact = make_test_artifact(&payload);
    let key = test_key();

    let (derived, receipt) = recompress(&artifact, &key).unwrap();

    let decoded = decoder::decode(&derived, None).unwrap();
    assert!(decoded.bootstrap.flags & FLAG_COMPRESSED != 0);

    receipt::verify_receipt(&receipt, HashSuite::Blake3).unwrap();
}

#[test]
fn test_concatenate() {
    let a1 = make_test_artifact(&vec![0x41u8; 512]);
    let a2 = make_test_artifact(&vec![0x42u8; 512]);
    let key = test_key();

    let (derived, receipts) = concatenate(&[&a1, &a2], &key).unwrap();

    let decoded = decoder::decode(&derived, None).unwrap();
    assert_eq!(decoded.payload.len(), 1024);
    assert_eq!(&decoded.payload[..512], &vec![0x41u8; 512]);
    assert_eq!(&decoded.payload[512..], &vec![0x42u8; 512]);

    assert_eq!(receipts.len(), 2);
    for r in &receipts {
        receipt::verify_receipt(r, HashSuite::Blake3).unwrap();
    }
}

#[test]
fn test_subrange_extract() {
    let payload = vec![0x42u8; 2048]; // 4 blocks
    let artifact = make_test_artifact(&payload);
    let key = test_key();

    let (derived, receipt) = subrange_extract(&artifact, 1, 2, &key).unwrap();

    let decoded = decoder::decode(&derived, None).unwrap();
    assert_eq!(decoded.block_count, 2);
    assert_eq!(decoded.payload.len(), 1024);

    receipt::verify_receipt(&receipt, HashSuite::Blake3).unwrap();
    assert_eq!(receipt.transform_type, TransformType::SubrangeExtract);
}

/// T1: Truncation — keep first N blocks from artifact
#[test]
fn test_t1_truncation() {
    let (source, _payload) = make_source(2048); // 4 blocks @ 512
    let source_decoded = decoder::decode(&source, None).unwrap();
    assert_eq!(source_decoded.block_count, 4);

    let key = signing_key();
    let (derived, receipt) = truncate(&source, 2, &key).unwrap();

    // Derived is valid
    let derived_decoded = decoder::decode(&derived, None).unwrap();
    assert_eq!(derived_decoded.block_count, 2);

    // Different root
    assert_ne!(source_decoded.chain_root, derived_decoded.chain_root, "T1: derived must have different root");

    // Payload is the first 1024 bytes
    assert_eq!(derived_decoded.payload.len(), 1024);

    // Verify receipt
    assert_eq!(receipt.transform_type, TransformType::Truncation);
    assert_eq!(receipt.source_root, source_decoded.chain_root);
    assert_eq!(receipt.derived_root, derived_decoded.chain_root);
    receipt::verify_receipt(&receipt, HashSuite::Blake3).unwrap();
}

/// T2: Rechunk — change block payload size
#[test]
fn test_t2_rechunk() {
    let (source, payload) = make_source(2048); // 4 blocks @ 512
    let source_decoded = decoder::decode(&source, None).unwrap();

    let key = signing_key();
    let (derived, receipt) = rechunk(&source, 1024, &key).unwrap();

    let derived_decoded = decoder::decode(&derived, None).unwrap();
    assert_eq!(derived_decoded.block_count, 2); // 2048 / 1024 = 2
    assert_eq!(derived_decoded.bootstrap.block_payload_size, 1024);

    // Same payload content
    assert_eq!(derived_decoded.payload, payload);

    // Different root
    assert_ne!(source_decoded.chain_root, derived_decoded.chain_root);

    // Valid receipt
    assert_eq!(receipt.transform_type, TransformType::Rechunk);
    receipt::verify_receipt(&receipt, HashSuite::Blake3).unwrap();
}

/// T3: Recompression — toggles the compression flag
#[test]
fn test_t3_recompress() {
    let (source, payload) = make_source(1024);
    let source_decoded = decoder::decode(&source, None).unwrap();

    let key = signing_key();
    let (derived, receipt) = recompress(&source, &key).unwrap();

    let derived_decoded = decoder::decode(&derived, None).unwrap();
    assert_eq!(derived_decoded.payload, payload);

    // Different root (new nonce)
    assert_ne!(source_decoded.chain_root, derived_decoded.chain_root);

    // Valid receipt
    assert_eq!(receipt.transform_type, TransformType::Recompress);
    receipt::verify_receipt(&receipt, HashSuite::Blake3).unwrap();
}

/// T4: Concatenation — merge multiple artifacts
#[test]
fn test_t4_concatenation() {
    let (source_a, payload_a) = make_source(512);
    let (source_b, payload_b) = make_source(1024);

    let key = signing_key();
    let (derived, receipts) = concatenate(&[&source_a, &source_b], &key).unwrap();

    let derived_decoded = decoder::decode(&derived, None).unwrap();

    // Payload is concatenation
    let mut expected = payload_a.clone();
    expected.extend_from_slice(&payload_b);
    assert_eq!(derived_decoded.payload, expected);

    // Receipts — one per source
    assert_eq!(receipts.len(), 2);
    assert_eq!(receipts[0].transform_type, TransformType::Concatenate);
    assert_eq!(receipts[1].transform_type, TransformType::Concatenate);

    for r in &receipts {
        receipt::verify_receipt(r, HashSuite::Blake3).unwrap();
    }
}

/// T5: Subrange extraction — extract blocks [start..end]
#[test]
fn test_t5_subrange_extract() {
    let (source, payload) = make_source(2048); // 4 blocks @ 512
    let source_decoded = decoder::decode(&source, None).unwrap();
    assert_eq!(source_decoded.block_count, 4);

    let key = signing_key();
    let (derived, receipt) = subrange_extract(&source, 1, 2, &key).unwrap();

    let derived_decoded = decoder::decode(&derived, None).unwrap();
    assert_eq!(derived_decoded.block_count, 2);

    // Payload is blocks 1-2 from source (bytes 512..1536)
    assert_eq!(derived_decoded.payload, &payload[512..1536]);

    // Different root
    assert_ne!(source_decoded.chain_root, derived_decoded.chain_root);

    // Valid receipt
    assert_eq!(receipt.transform_type, TransformType::SubrangeExtract);
    receipt::verify_receipt(&receipt, HashSuite::Blake3).unwrap();
}

/// Receipt chaining: A → B → C with verifiable lineage
#[test]
fn test_receipt_chain_provenance() {
    let (source_a, _) = make_source(2048); // 4 blocks
    let a_decoded = decoder::decode(&source_a, None).unwrap();

    let key = signing_key();

    // A → B: subrange extract blocks 0..2
    let (artifact_b, receipt_ab) = subrange_extract(&source_a, 0, 2, &key).unwrap();
    let b_decoded = decoder::decode(&artifact_b, None).unwrap();

    // B → C: rechunk to 1024-byte blocks
    let (artifact_c, receipt_bc) = rechunk(&artifact_b, 1024, &key).unwrap();
    let c_decoded = decoder::decode(&artifact_c, None).unwrap();

    // Verify lineage: C → B → A
    assert_eq!(receipt_bc.source_root, b_decoded.chain_root);
    assert_eq!(receipt_bc.derived_root, c_decoded.chain_root);
    assert_eq!(receipt_ab.source_root, a_decoded.chain_root);
    assert_eq!(receipt_ab.derived_root, b_decoded.chain_root);

    // All receipts valid
    receipt::verify_receipt(&receipt_ab, HashSuite::Blake3).unwrap();
    receipt::verify_receipt(&receipt_bc, HashSuite::Blake3).unwrap();

    // Follow chain: receipt_bc.source_root == receipt_ab.derived_root
    assert_eq!(receipt_bc.source_root, receipt_ab.derived_root, "Receipt chain must link B → A through source/derived roots");
}
