use cbc_core::block::{block_wire_size, Block};
use cbc_core::bootstrap::{
    BootstrapSegment, BOOTSTRAP_SIZE, FAMILY_A_BIT, FAMILY_B_BIT, FAMILY_C_BIT, FLAG_COMPRESSED, FLAG_ENCRYPTED,
};
use cbc_core::decoder::decode;
use cbc_core::encoder::{self, EncoderConfig};
use cbc_core::error::CbcError;
use cbc_core::footer::StreamFooter;
use cbc_core::hash::HashSuite;
use cbc_core::merkle::{compute_leaf, compute_node, MerkleTree};
use cbc_core::prefix::{
    decode_prefix_marker, decode_varint, encode_prefix_marker, encode_varint, find_next_block_boundary,
    validate_prefix_parse, BLOCK_TYPE_DATA,
};

// ---- hash ----

#[test]
fn test_suite_ids() {
    assert_eq!(HashSuite::from_id(0x01), Some(HashSuite::Blake3));
    assert_eq!(HashSuite::from_id(0x02), Some(HashSuite::Sha256));
    assert_eq!(HashSuite::from_id(0x00), None);
    assert_eq!(HashSuite::from_id(0xFF), None);
}

#[test]
fn test_blake3_deterministic() {
    let h1 = HashSuite::Blake3.hash(&[b"hello", b" ", b"world"]);
    let h2 = HashSuite::Blake3.hash(&[b"hello world"]);
    assert_eq!(h1, h2);
}

#[test]
fn test_sha256_deterministic() {
    let h1 = HashSuite::Sha256.hash(&[b"hello", b" ", b"world"]);
    let h2 = HashSuite::Sha256.hash(&[b"hello world"]);
    assert_eq!(h1, h2);
}

#[test]
fn test_suites_differ() {
    let data = b"test data";
    let b3 = HashSuite::Blake3.hash(&[data]);
    let s256 = HashSuite::Sha256.hash(&[data]);
    assert_ne!(b3, s256);
}

// ---- block ----

#[test]
fn test_block_wire_size() {
    assert_eq!(block_wire_size(512).unwrap(), 512 + 32 + 16);
}

#[test]
fn test_block_encryption_tamper() {
    let mut block = Block::new(0, b"SECRET".to_vec(), 32);
    let key = [1u8; 32];
    let nonce = [2u8; 16];

    block.encrypt(&key, &nonce, 32).unwrap();
    let mut block_valid = block.clone();
    block_valid.decrypt(&key, &nonce, 32).unwrap();
    assert_eq!(block_valid.payload, b"SECRET");

    let mut block_tampered = block.clone();
    block_tampered.payload[0] ^= 0x01;
    let result = block_tampered.decrypt(&key, &nonce, 32);
    assert!(result.is_err());
    assert!(matches!(result.unwrap_err(), CbcError::DecryptionError(_)));
}

// ---- bootstrap ----

fn test_segment() -> BootstrapSegment {
    BootstrapSegment {
        hash_suite: HashSuite::Blake3,
        commitment_mode: FAMILY_A_BIT,
        block_payload_size: 4096,
        block_count: 10,
        bootstrap_nonce: [0u8; 16],
        flags: 0,
    }
}

#[test]
fn test_encode_decode_roundtrip() {
    let seg = test_segment();
    let encoded = seg.encode();
    assert_eq!(encoded.len(), BOOTSTRAP_SIZE);
    let decoded = BootstrapSegment::decode(&encoded).unwrap();
    assert_eq!(seg, decoded);
}

#[test]
fn test_magic_bytes() {
    let seg = test_segment();
    let encoded = seg.encode();
    assert_eq!(&encoded[0..4], b"CBC1");
}

#[test]
fn test_invalid_magic_rejected() {
    let seg = test_segment();
    let mut encoded = seg.encode();
    encoded[0] = 0xFF;
    let err = BootstrapSegment::decode(&encoded).unwrap_err();
    assert!(matches!(err, CbcError::InvalidMagic(_)));
}

#[test]
fn test_params_mac_tamper_detected() {
    let seg = test_segment();
    let mut encoded = seg.encode();
    encoded[16] ^= 0x01;
    let err = BootstrapSegment::decode(&encoded).unwrap_err();
    assert!(matches!(err, CbcError::ParamsMacMismatch));
}

#[test]
fn test_family_a_required() {
    let mut seg = test_segment();
    seg.commitment_mode = 0x00;
    let encoded = seg.encode();
    let err = BootstrapSegment::decode(&encoded).unwrap_err();
    assert!(matches!(err, CbcError::InvalidCommitmentMode(_) | CbcError::ParamsMacMismatch));
}

#[test]
fn test_invalid_block_size() {
    let mut seg = test_segment();
    seg.block_payload_size = 1000;
    let encoded = seg.encode();
    let err = BootstrapSegment::decode(&encoded).unwrap_err();
    assert!(matches!(err, CbcError::InvalidBlockPayloadSize(_) | CbcError::ParamsMacMismatch));
}

#[test]
fn test_all_families_enabled() {
    let mut seg = test_segment();
    seg.commitment_mode = FAMILY_A_BIT | FAMILY_B_BIT | FAMILY_C_BIT;
    let encoded = seg.encode();
    let decoded = BootstrapSegment::decode(&encoded).unwrap();
    assert!(decoded.family_a());
    assert!(decoded.family_b());
    assert!(decoded.family_c());
}

#[test]
fn test_params_canonical_is_40_bytes() {
    let seg = test_segment();
    assert_eq!(seg.params_canonical().len(), 40);
}

#[test]
fn test_sha256_roundtrip() {
    let mut seg = test_segment();
    seg.hash_suite = HashSuite::Sha256;
    let encoded = seg.encode();
    let decoded = BootstrapSegment::decode(&encoded).unwrap();
    assert_eq!(decoded.hash_suite, HashSuite::Sha256);
}

// ---- decoder ----

#[test]
fn test_roundtrip_family_a() {
    let config = EncoderConfig {
        hash_suite: HashSuite::Blake3,
        commitment_mode: FAMILY_A_BIT,
        block_payload_size: 512,
        flags: 0,
        encryption_key: None,
    };
    let payload = vec![0x42u8; 1024];
    let artifact = encoder::encode(&config, &payload, [0u8; 16], &[]).unwrap();
    let decoded = decode(&artifact, None).unwrap();
    assert_eq!(decoded.payload, payload);
    assert_eq!(decoded.block_count, 2);
}

#[test]
fn test_roundtrip_family_ab() {
    let config = EncoderConfig {
        hash_suite: HashSuite::Blake3,
        commitment_mode: FAMILY_A_BIT | FAMILY_B_BIT,
        block_payload_size: 512,
        flags: 0,
        encryption_key: None,
    };
    let payload = vec![0x42u8; 1500];
    let artifact = encoder::encode(&config, &payload, [1u8; 16], &[]).unwrap();
    let decoded = decode(&artifact, None).unwrap();
    assert_eq!(decoded.payload, payload);
}

#[test]
fn test_roundtrip_family_abc() {
    let config = EncoderConfig {
        hash_suite: HashSuite::Blake3,
        commitment_mode: FAMILY_A_BIT | FAMILY_B_BIT | FAMILY_C_BIT,
        block_payload_size: 512,
        flags: 0,
        encryption_key: None,
    };
    let payload = vec![0x42u8; 1500];
    let artifact = encoder::encode(&config, &payload, [2u8; 16], &[]).unwrap();
    let decoded = decode(&artifact, None).unwrap();
    assert_eq!(decoded.payload, payload);
}

#[test]
fn test_roundtrip_sha256() {
    let config = EncoderConfig {
        hash_suite: HashSuite::Sha256,
        commitment_mode: FAMILY_A_BIT,
        block_payload_size: 512,
        flags: 0,
        encryption_key: None,
    };
    let payload = vec![0x42u8; 1024];
    let artifact = encoder::encode(&config, &payload, [3u8; 16], &[]).unwrap();
    let decoded = decode(&artifact, None).unwrap();
    assert_eq!(decoded.payload, payload);
}

#[test]
fn test_bit_flip_detected() {
    let config = EncoderConfig::default();
    let payload = vec![0x42u8; 1024];
    let mut artifact = encoder::encode(&config, &payload, [4u8; 16], &[]).unwrap();
    artifact[70] ^= 0x01;
    assert!(decode(&artifact, None).is_err());
}

#[test]
fn test_truncated_artifact_detected() {
    let config = EncoderConfig::default();
    let payload = vec![0x42u8; 1024];
    let mut artifact = encoder::encode(&config, &payload, [5u8; 16], &[]).unwrap();
    artifact.truncate(artifact.len() - 10);
    assert!(decode(&artifact, None).is_err());
}

#[test]
fn test_empty_payload() {
    let config = EncoderConfig::default();
    let payload: Vec<u8> = vec![];
    let artifact = encoder::encode(&config, &payload, [6u8; 16], &[]).unwrap();
    let decoded = decode(&artifact, None).unwrap();
    assert_eq!(decoded.payload, payload);
    assert_eq!(decoded.block_count, 1);
}

#[test]
fn test_large_payload() {
    let config = EncoderConfig { block_payload_size: 4096, ..EncoderConfig::default() };
    let payload = vec![0xAA; 1024 * 1024];
    let artifact = encoder::encode(&config, &payload, [7u8; 16], &[]).unwrap();
    let decoded = decode(&artifact, None).unwrap();
    assert_eq!(decoded.payload, payload);
    assert_eq!(decoded.block_count, 256);
}

#[test]
fn test_roundtrip_compressed() {
    let config = EncoderConfig {
        hash_suite: HashSuite::Blake3,
        commitment_mode: FAMILY_A_BIT,
        block_payload_size: 512,
        flags: FLAG_COMPRESSED,
        encryption_key: None,
    };
    let payload = vec![0x42u8; 1024];
    let artifact = encoder::encode(&config, &payload, [0u8; 16], &[]).unwrap();
    let decoded = decode(&artifact, None).unwrap();
    assert_eq!(decoded.payload, payload);
}

#[test]
fn test_roundtrip_compressed_encrypted() {
    let key = [0xAAu8; 32];
    let config = EncoderConfig {
        hash_suite: HashSuite::Blake3,
        commitment_mode: FAMILY_A_BIT,
        block_payload_size: 512,
        flags: FLAG_COMPRESSED | FLAG_ENCRYPTED,
        encryption_key: Some(key),
    };
    let payload = vec![0x42u8; 1024];
    let artifact = encoder::encode(&config, &payload, [0u8; 16], &[]).unwrap();
    let decoded = decode(&artifact, Some(key)).unwrap();
    assert_eq!(decoded.payload, payload);
}

// ---- footer ----

#[test]
fn test_footer_roundtrip_no_merkle() {
    let chain_root = [0xAA; 32];
    let params_hash = [0xBB; 32];
    let suite = HashSuite::Blake3;
    let encoded = StreamFooter::encode(chain_root, None, &[], &params_hash, suite);
    let decoded = StreamFooter::decode(&encoded, false, &params_hash, suite).unwrap();
    assert_eq!(decoded.chain_root, chain_root);
    assert_eq!(decoded.merkle_root, None);
    assert_eq!(decoded.receipt_count, 0);
}

#[test]
fn test_footer_roundtrip_with_merkle() {
    let chain_root = [0xAA; 32];
    let merkle_root = [0xCC; 32];
    let params_hash = [0xBB; 32];
    let suite = HashSuite::Blake3;
    let encoded = StreamFooter::encode(chain_root, Some(merkle_root), &[], &params_hash, suite);
    let decoded = StreamFooter::decode(&encoded, true, &params_hash, suite).unwrap();
    assert_eq!(decoded.chain_root, chain_root);
    assert_eq!(decoded.merkle_root, Some(merkle_root));
}

#[test]
fn test_footer_with_receipts() {
    let chain_root = [0xAA; 32];
    let params_hash = [0xBB; 32];
    let suite = HashSuite::Blake3;
    let receipts = vec![vec![1, 2, 3, 4], vec![5, 6, 7, 8, 9, 10]];
    let encoded = StreamFooter::encode(chain_root, None, &receipts, &params_hash, suite);
    let decoded = StreamFooter::decode(&encoded, false, &params_hash, suite).unwrap();
    assert_eq!(decoded.receipt_count, 2);
    assert_eq!(decoded.receipt_slots, receipts);
}

#[test]
fn test_footer_commitment_tamper_detected() {
    let chain_root = [0xAA; 32];
    let params_hash = [0xBB; 32];
    let suite = HashSuite::Blake3;
    let mut encoded = StreamFooter::encode(chain_root, None, &[], &params_hash, suite);
    encoded[8] ^= 0x01;
    let err = StreamFooter::decode(&encoded, false, &params_hash, suite).unwrap_err();
    assert!(matches!(err, CbcError::FooterCommitmentMismatch));
}

#[test]
fn test_footer_wrong_magic() {
    let mut data = vec![0x00; 100];
    data[0..4].copy_from_slice(b"XXXX");
    let err = StreamFooter::decode(&data, false, &[0; 32], HashSuite::Blake3).unwrap_err();
    assert!(matches!(err, CbcError::InvalidFooterMagic));
}

// ---- merkle ----

#[test]
fn test_single_leaf_tree() {
    let ph = [0xAA; 32];
    let payloads = vec![vec![0x42u8; 512]];
    let tree = MerkleTree::build(&ph, &payloads, HashSuite::Blake3);
    assert_eq!(tree.leaf_count, 1);
    let expected = compute_leaf(&ph, 0, &payloads[0], HashSuite::Blake3);
    assert_eq!(tree.root, expected);
}

#[test]
fn test_two_leaf_tree() {
    let ph = [0xAA; 32];
    let payloads = vec![vec![0x42u8; 512], vec![0x43u8; 512]];
    let tree = MerkleTree::build(&ph, &payloads, HashSuite::Blake3);
    assert_eq!(tree.leaf_count, 2);
    let l0 = compute_leaf(&ph, 0, &payloads[0], HashSuite::Blake3);
    let l1 = compute_leaf(&ph, 1, &payloads[1], HashSuite::Blake3);
    let expected_root = compute_node(&l0, &l1, HashSuite::Blake3);
    assert_eq!(tree.root, expected_root);
}

// ---- prefix ----

#[test]
fn test_prefix_marker_roundtrip() {
    let marker = encode_prefix_marker(BLOCK_TYPE_DATA, 4096);
    let (block_type, payload_size, consumed) = decode_prefix_marker(&marker).unwrap();
    assert_eq!(block_type, BLOCK_TYPE_DATA);
    assert_eq!(payload_size, 4096);
    assert_eq!(consumed, marker.len());
}

#[test]
fn test_varint_small() {
    let mut buf = Vec::new();
    encode_varint(127, &mut buf);
    assert_eq!(buf.len(), 1);
    let (val, len) = decode_varint(&buf).unwrap();
    assert_eq!(val, 127);
    assert_eq!(len, 1);
}

#[test]
fn test_varint_large() {
    let mut buf = Vec::new();
    encode_varint(16 * 1024 * 1024, &mut buf);
    let (val, _) = decode_varint(&buf).unwrap();
    assert_eq!(val, 16 * 1024 * 1024);
}

#[test]
fn test_find_boundary() {
    let mut data = vec![0xAA; 100];
    let marker = encode_prefix_marker(BLOCK_TYPE_DATA, 512);
    data[50..50 + marker.len()].copy_from_slice(&marker);
    let found = find_next_block_boundary(&data);
    assert_eq!(found, Some(50));
}

#[test]
fn test_invalid_marker_rejected() {
    let data = [0x00, 0x01, 0x02, 0x03];
    assert!(decode_prefix_marker(&data).is_err());
}

#[test]
fn test_validate_prefix_parse() {
    let markers: Vec<Vec<u8>> = (0..3)
        .map(|_| {
            let mut m = encode_prefix_marker(BLOCK_TYPE_DATA, 512);
            m.extend_from_slice(&[0u8; 100]);
            m
        })
        .collect();
    let refs: Vec<&[u8]> = markers.iter().map(|m| m.as_slice()).collect();
    assert!(validate_prefix_parse(&refs, 512).is_ok());
}
