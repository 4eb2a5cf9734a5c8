use cbc_core::merkle::MerkleTree;
use cbc_core::block::Block;
use cbc_core::chain::{compute_chain, verify_chain};
use cbc_core::bindings::{inspect_segment, validate_artifact, SegmentError};
use cbc_core::bootstrap::{BootstrapSegment, FAMILY_A_BIT, FAMILY_B_BIT, FAMILY_C_BIT, FLAG_COMPRESSED, FLAG_ENCRYPTED};
use cbc_core::cli::{
    compute_padded_payloads, load_signing_key, parse_families, parse_hash, partial_scan, plan_transform, reported_block_count,
    resolve_settings, settings_config, validation_report, DefaultsConfig, PlanError, TransformPlan,
};
use cbc_core::decoder::{decode, validate};
use cbc_core::encoder::{encode, encode_random_nonce, EncoderConfig};
use cbc_core::error::CbcError;
use cbc_core::hash::HashSuite;
use cbc_core::inspect::inspect;
use cbc_core::kms::{KmsError, KmsSigner};
use cbc_core::merkle::RangeProof;
use cbc_core::proofs::{check_proof, prove_blocks, CheckProofError, ProveError};
use cbc_core::server::{encode_handle, extract_handle, extract_sign_digest, validate_handle, EncodeRequest, ValidateRequest};
use cbc_core::streaming::{stream_bootstrap, StreamingDecoder, StreamingEncoder};
use cbc_core::text::{decimal, hash_suite_name, hex_width, signature_name, transform_name};
use cbc_core::transform::error::TransformError;
use cbc_core::transform::receipt::{create_kms_receipt, verify_receipt, Receipt, SigAlgorithm, SigningKey, TransformType};

fn config(suite: HashSuite, mode: u8, bps: u32) -> EncoderConfig {
    EncoderConfig { hash_suite: suite, commitment_mode: mode, block_payload_size: bps, flags: 0, encryption_key: None }
}

fn artifact(mode: u8, payload: &[u8]) -> Vec<u8> {
    encode(&config(HashSuite::Blake3, mode, 1024), payload, [7u8; 16], &[]).unwrap()
}

fn lower_hex(bytes: &[u8]) -> String {
    let digits = b"0123456789abcdef";
    let mut s = String::new();
    for b in bytes {
        s.push(digits[(b >> 4) as usize] as char);
        s.push(digits[(b & 15) as usize] as char);
    }
    s
}

#[test]
fn number_text_is_exact() {
    assert_eq!(decimal(0), "0");
    assert_eq!(decimal(7), "7");
    assert_eq!(decimal(1024), "1024");
    assert_eq!(decimal(u64::MAX), "18446744073709551615");
    assert_eq!(hex_width(0xab, 2), "ab");
    assert_eq!(hex_width(0x5, 2), "05");
    assert_eq!(hex_width(0xdeadbeef, 8), "deadbeef");
    assert_eq!(hex_width(0x10, 8), "00000010");
}

#[test]
fn names_are_exact() {
    assert_eq!(hash_suite_name(HashSuite::Blake3), "Blake3");
    assert_eq!(hash_suite_name(HashSuite::Sha256), "Sha256");
    assert_eq!(transform_name(TransformType::SubrangeExtract), "SubrangeExtract");
    assert_eq!(signature_name(SigAlgorithm::EcdsaP256Sha256), "EcdsaP256Sha256");
}

#[test]
fn error_text_matches_each_kind() {
    assert_eq!(
        CbcError::InvalidMagic([1, 2, 3, 4]).detail(),
        "invalid magic bytes: expected CBC1, got [1, 2, 3, 4]"
    );
    assert_eq!(CbcError::UnknownHashSuite(0x0f).detail(), "unknown hash suite: 0x0f");
    assert_eq!(
        CbcError::Crc32Mismatch { index: 3, expected: 0xab, got: 0x12345678 }.detail(),
        "CRC-32C mismatch in block 3: expected 0x000000ab, got 0x12345678"
    );
    assert_eq!(
        CbcError::InsufficientData { need: 64, have: 10 }.to_string(),
        "insufficient data: need 64 bytes, have 10 (Suggestion: The artifact is truncated or incomplete.)"
    );
    assert_eq!(
        CbcError::Other("boom".to_string()).to_string(),
        "boom (Suggestion: Check the artifact specification and ensure your implementation matches.)"
    );
    assert_eq!(
        TransformError::InvalidTransform("x".to_string()).to_string(),
        "invalid transform: x"
    );
    assert!(TransformError::Cbc(CbcError::ParamsMacMismatch).to_string().starts_with("CBC error: params MAC verification failed"));
    assert_eq!(KmsError::Vault("down".to_string()).message(), "Vault Error: down");
}

#[test]
fn encode_random_nonce_decodes_and_draws_fresh_nonces() {
    let c = config(HashSuite::Blake3, FAMILY_A_BIT | FAMILY_B_BIT, 1024);
    let a = encode_random_nonce(&c, b"random nonce payload", &[]).unwrap();
    let b = encode_random_nonce(&c, b"random nonce payload", &[]).unwrap();
    assert_eq!(decode(&a, None).unwrap().payload, b"random nonce payload");
    assert_eq!(decode(&b, None).unwrap().payload, b"random nonce payload");
    assert_ne!(a[16..32], b[16..32]);
}

#[test]
fn stream_with_patched_header_equals_batch() {
    let c = config(HashSuite::Sha256, FAMILY_A_BIT | FAMILY_B_BIT | FAMILY_C_BIT, 512);
    let nonce = [3u8; 16];
    let payload: Vec<u8> = (0..3000u32).map(|i| (i % 251) as u8).collect();
    let mut enc = StreamingEncoder::new(&c, nonce);
    for chunk in payload.chunks(700) {
        enc.feed(chunk).unwrap();
    }
    let (body, count) = enc.finalize(&[]).unwrap();
    let mut streamed = stream_bootstrap(&c, nonce, count).to_vec();
    streamed.extend_from_slice(&body);
    assert_eq!(streamed, encode(&c, &payload, nonce, &[]).unwrap());
    let header_zero = stream_bootstrap(&c, nonce, 0);
    assert_eq!(BootstrapSegment::decode(&header_zero).unwrap().block_count, 0);
}

#[test]
fn proved_blocks_check_against_the_artifact() {
    let payload: Vec<u8> = (0..5000u32).map(|i| (i * 7 % 256) as u8).collect();
    let data = artifact(FAMILY_A_BIT | FAMILY_B_BIT, &payload);
    let (proof, root) = prove_blocks(&data, 1, 3).unwrap();
    assert_eq!(Some(root), decode(&data, None).unwrap().merkle_root);
    let bytes = proof.encode();
    assert_eq!(check_proof(&data, &bytes).unwrap(), true);
    let back = RangeProof::decode(&bytes).unwrap();
    assert_eq!((back.start, back.end, back.leaf_count), (1, 3, 5));
}

#[test]
fn proof_errors_are_reported() {
    let data = artifact(FAMILY_A_BIT, b"no tree here");
    assert!(matches!(prove_blocks(&data, 0, 0), Err(ProveError::NoMerkleTree)));
    assert!(matches!(check_proof(&data, &[0u8; 16]), Err(CheckProofError::NoMerkleRoot)));
    let tree = artifact(FAMILY_A_BIT | FAMILY_B_BIT, &[9u8; 2048]);
    assert!(matches!(
        prove_blocks(&tree, 1, 2),
        Err(ProveError::InvalidRange { start: 1, end: 2, block_count: 2 })
    ));
    assert!(matches!(prove_blocks(&[0u8; 10], 0, 0), Err(ProveError::Decode(CbcError::InsufficientData { .. }))));
    assert!(matches!(check_proof(&tree, &[1, 2, 3]), Err(CheckProofError::BadProof)));
    let (proof, _) = prove_blocks(&tree, 0, 0).unwrap();
    let mut bytes = proof.encode();
    let last = bytes.len() - 1;
    bytes[last] ^= 1;
    assert_eq!(check_proof(&tree, &bytes).unwrap(), false);
}

#[test]
fn inspection_reports_segment_roots_and_receipts() {
    let data = artifact(FAMILY_A_BIT | FAMILY_B_BIT, b"inspect me");
    let decoded = decode(&data, None).unwrap();
    let report = inspect(&data).unwrap();
    assert_eq!(report.file_size, data.len() as u64);
    assert_eq!(report.hash_suite, "Blake3");
    assert_eq!(report.commitment_mode, "0x03 (A:✓ B:✓ C:✗)");
    assert_eq!(report.block_payload_size, 1024);
    assert_eq!(report.block_count, 1);
    assert_eq!(report.nonce, "07070707070707070707070707070707");
    assert!(report.flags.is_empty());
    assert_eq!(report.chain_root, Some(format!("blake3:{}", lower_hex(&decoded.chain_root))));
    assert_eq!(report.merkle_root, Some(lower_hex(&decoded.merkle_root.unwrap())));
    assert_eq!(report.payload_size, Some(10));
    assert!(report.receipts.is_empty());
    assert_eq!(report.validation, "PASS");
}

#[test]
fn inspection_of_a_damaged_artifact_says_why() {
    let mut data = artifact(FAMILY_A_BIT, b"damaged");
    let n = data.len();
    data[n - 1] ^= 0xff;
    let report = inspect(&data).unwrap();
    assert!(report.validation.starts_with("FAIL ("));
    assert_eq!(report.chain_root, None);
    let mut bad = data.clone();
    bad[0] = b'X';
    assert!(matches!(inspect(&bad), Err(CbcError::InvalidMagic(_))));
}

#[test]
fn validation_reports_full_invalid_and_partial() {
    let payload = vec![5u8; 3000];
    let data = artifact(FAMILY_A_BIT, &payload);
    let (ok, err) = validation_report(&data, false);
    assert!(ok.valid && err.is_none());
    assert_eq!(ok.status, "Valid");
    assert_eq!((ok.blocks_verified, ok.total_blocks), (3, Some(3)));

    let cut = &data[..64 + 2 * (1024 + 48) + 10];
    let (full, err) = validation_report(cut, false);
    assert!(!full.valid && err.is_some());
    assert_eq!(full.status, "Invalid");
    assert_eq!(full.blocks_verified, 0);
    let (part, err) = validation_report(cut, true);
    assert!(err.is_some());
    assert!(part.valid);
    assert_eq!(part.status, "Valid Partial Chain");
    assert_eq!(part.blocks_verified, 2);
    assert_eq!(part.error, None);

    let mut tampered = cut.to_vec();
    tampered[64 + 1024 + 48 + 20] ^= 1;
    let (bad, _) = validation_report(&tampered, true);
    assert!(!bad.valid);
    assert_eq!(bad.blocks_verified, 1);
    assert!(bad.status.starts_with("Partial Fail: "));
}

#[test]
fn partial_scan_counts_whole_blocks() {
    let data = artifact(FAMILY_A_BIT, &vec![1u8; 2048]);
    let scan = partial_scan(&data[..64 + 1024 + 48 + 5]);
    assert!(scan.bootstrap_ok);
    assert_eq!(scan.blocks_verified, 1);
    assert!(scan.failure.is_none());
    assert!(!partial_scan(&data[..30]).bootstrap_ok);
}

#[test]
fn options_override_configuration_defaults() {
    let none = DefaultsConfig::default();
    let (h, b, f, c) = resolve_settings(None, None, None, None, &none);
    assert_eq!((h.as_str(), b, f.as_str(), c), ("blake3", 65536, "A+B", false));
    let set = DefaultsConfig {
        hash: Some("sha256".to_string()),
        block_size: Some(4096),
        families: Some("A".to_string()),
        compress: Some(true),
    };
    let (h, b, f, c) = resolve_settings(None, None, None, None, &set);
    assert_eq!((h.as_str(), b, f.as_str(), c), ("sha256", 4096, "A", true));
    let (h, b, f, c) = resolve_settings(Some("blake3".to_string()), Some(512), Some("A+C".to_string()), Some(false), &set);
    assert_eq!((h.as_str(), b, f.as_str(), c), ("blake3", 512, "A+C", false));
}

#[test]
fn settings_make_the_encoder_configuration() {
    let c = settings_config(HashSuite::Sha256, 3, 1024, true, Some([1u8; 32]));
    assert_eq!(c.flags, FLAG_COMPRESSED | FLAG_ENCRYPTED);
    assert_eq!(c.encryption_key, Some([1u8; 32]));
    let c = settings_config(HashSuite::Blake3, 1, 512, false, None);
    assert_eq!(c.flags, 0);
    assert_eq!(reported_block_count(0, 1024), 1);
    assert_eq!(reported_block_count(1024, 1024), 1);
    assert_eq!(reported_block_count(1025, 1024), 2);
}

#[test]
fn option_parsers() {
    assert_eq!(parse_families("A+B"), Some(FAMILY_A_BIT | FAMILY_B_BIT));
    assert_eq!(parse_families(" b + c "), Some(FAMILY_A_BIT | FAMILY_B_BIT | FAMILY_C_BIT));
    assert_eq!(parse_families("A+D"), None);
    assert_eq!(parse_hash("SHA256"), Some(HashSuite::Sha256));
    assert_eq!(parse_hash("md5"), None);
    assert_eq!(parse_hash("BLA\u{212A}E3"), Some(HashSuite::Blake3));
    assert_eq!(parse_families("\u{3000}b\u{a0}+C"), Some(FAMILY_A_BIT | FAMILY_B_BIT | FAMILY_C_BIT));
    assert_eq!(parse_families("A+"), None);
    let padded = compute_padded_payloads(&[1, 2, 3], 2);
    assert_eq!(padded, vec![vec![1, 2], vec![3, 0]]);
    assert_eq!(compute_padded_payloads(&[], 4), vec![vec![0u8; 4]]);
}

#[test]
fn transform_requests_are_planned() {
    assert_eq!(plan_transform("truncate", Some(2), None, None, None), Ok(TransformPlan::Truncate { keep: 2 }));
    assert_eq!(plan_transform("truncate", None, None, None, None), Err(PlanError::MissingKeep));
    assert_eq!(plan_transform("rechunk", None, Some(512), None, None), Ok(TransformPlan::Rechunk { new_block_size: 512 }));
    assert_eq!(plan_transform("rechunk", None, None, None, None), Err(PlanError::MissingNewBlockSize));
    assert_eq!(plan_transform("recompress", None, None, None, None), Ok(TransformPlan::Recompress));
    assert_eq!(plan_transform("concat", None, None, None, None), Ok(TransformPlan::Concat));
    assert_eq!(plan_transform("subrange", None, None, Some(1), Some(2)), Ok(TransformPlan::Subrange { start: 1, end: 2 }));
    assert_eq!(plan_transform("subrange", None, None, None, Some(2)), Err(PlanError::MissingStart));
    assert_eq!(plan_transform("subrange", None, None, Some(1), None), Err(PlanError::MissingEnd));
    assert_eq!(plan_transform("Truncate", Some(1), None, None, None), Err(PlanError::UnknownTransform));
}

#[test]
fn key_files_hold_ed25519_secrets() {
    match load_signing_key(&[4u8; 32]) {
        SigningKey::Ed25519(k) => assert_eq!(k, [4u8; 32]),
        _ => panic!("expected an Ed25519 key"),
    }
}

#[test]
fn segment_inspection_for_bindings() {
    let data = artifact(FAMILY_A_BIT | FAMILY_C_BIT, b"bindings");
    let i = inspect_segment(&data).unwrap();
    assert!(i.valid_bootstrap);
    assert_eq!(i.version, 1);
    assert_eq!(i.hash_suite, "Blake3");
    assert_eq!(i.families, vec!["A".to_string(), "C".to_string()]);
    assert!(matches!(inspect_segment(&data[..10]), Err(SegmentError::TooSmall)));
    let mut bad = data.clone();
    bad[8] ^= 1;
    assert!(matches!(inspect_segment(&bad), Err(SegmentError::InvalidBootstrap(_))));
}

#[test]
fn artifact_validation_summary_for_bindings() {
    let data = artifact(FAMILY_A_BIT | FAMILY_B_BIT, b"summary");
    let v = validate_artifact(&data);
    assert!(v.valid);
    assert_eq!(v.version, 1);
    assert_eq!(v.merkle_root, Some(lower_hex(&decode(&data, None).unwrap().merkle_root.unwrap())));
    let small = validate_artifact(&data[..5]);
    assert!(!small.valid);
    assert_eq!(small.error.as_deref(), Some("File too small"));
    let mut bad = data.clone();
    bad[0] = 0;
    let b = validate_artifact(&bad);
    assert!(b.error.unwrap().starts_with("Invalid bootstrap: invalid magic bytes"));
    let mut broken = data.clone();
    let n = broken.len();
    broken[n - 40] ^= 1;
    let v = validate_artifact(&broken);
    assert!(!v.valid);
    assert!(v.error.unwrap().starts_with("Validation failed: "));
    assert!(validate(&broken).is_err());
}

#[test]
fn service_routes() {
    let r = encode_handle(&EncodeRequest { payload: "hello enterprise world".to_string() }).unwrap();
    assert_eq!(r.status, "success");
    let expected = encode(&config(HashSuite::Blake3, FAMILY_A_BIT | FAMILY_B_BIT, 1024), b"hello enterprise world", [0u8; 16], &[])
        .unwrap();
    assert_eq!(r.merkle_root, lower_hex(&decode(&expected, None).unwrap().merkle_root.unwrap()));
    assert_eq!(extract_sign_digest(), [0u8; 32]);
    let ok = extract_handle(&Ok(b"sig".to_vec()));
    assert_eq!((ok.status.as_str(), ok.derived_artifact_base64.as_str()), ("success", "c3R1Yg=="));
    let err = extract_handle(&Err(KmsError::General("no".to_string())));
    assert_eq!((err.status.as_str(), err.receipt_base64.as_str()), ("error", ""));
    let v = validate_handle(&ValidateRequest { artifact_base64: "x".to_string() });
    assert!(v.valid);
    assert_eq!(v.merkle_root, "stub_hash_for_enterprise_demo");
}

struct FixedSigner {
    refuse: bool,
}

impl KmsSigner for FixedSigner {
    fn sign(&self, _key_id: &str, _payload: &[u8]) -> Result<Vec<u8>, KmsError> {
        if self.refuse {
            Err(KmsError::Aws("denied".to_string()))
        } else {
            Ok(b"mock_signature".to_vec())
        }
    }

    fn verify(&self, _key_id: &str, _payload: &[u8], _signature: &[u8]) -> Result<bool, KmsError> {
        Ok(true)
    }
}

#[test]
fn kms_receipts_carry_the_signers_signature() {
    let r: Receipt = create_kms_receipt(
        [1; 32],
        [2; 32],
        [3; 32],
        [4; 32],
        TransformType::Truncation,
        b"desc".to_vec(),
        99,
        &FixedSigner { refuse: false },
        "key-1",
        vec![5; 32],
        SigAlgorithm::Ed25519,
        HashSuite::Blake3,
    )
    .unwrap();
    assert_eq!(r.sig_bytes, b"mock_signature".to_vec());
    assert_eq!(r.timestamp, 99);
    assert_eq!(r.signer_id, vec![5; 32]);
    assert!(verify_receipt(&r, HashSuite::Blake3).is_err());
    let e = create_kms_receipt(
        [1; 32],
        [2; 32],
        [3; 32],
        [4; 32],
        TransformType::Truncation,
        vec![],
        1,
        &FixedSigner { refuse: true },
        "key-1",
        vec![],
        SigAlgorithm::Ed25519,
        HashSuite::Blake3,
    );
    match e {
        Err(TransformError::SigningError(m)) => assert_eq!(m, "KMS sign failed: AWS KMS Error: denied"),
        _ => panic!("expected a signing error"),
    }
}

#[test]
fn every_strict_prefix_is_rejected() {
    let data = artifact(FAMILY_A_BIT | FAMILY_B_BIT | FAMILY_C_BIT, b"short payload for a prefix sweep");
    assert!(decode(&data, None).is_ok());
    for n in 0..data.len() {
        assert!(decode(&data[..n], None).is_err(), "prefix of {n} bytes decoded");
    }
}

#[test]
fn exchanging_two_blocks_is_rejected() {
    let payload: Vec<u8> = (0..4096u32).map(|i| (i % 253) as u8).collect();
    let data = artifact(FAMILY_A_BIT, &payload);
    let t = 1024 + 48;
    let mut swapped = data.clone();
    let (a, b) = (64 + t, 64 + 3 * t);
    let first = data[a..a + t].to_vec();
    let second = data[b..b + t].to_vec();
    swapped[a..a + t].copy_from_slice(&second);
    swapped[b..b + t].copy_from_slice(&first);
    assert!(matches!(decode(&swapped, None), Err(CbcError::BlockIndexMismatch { expected: 1, got: 3 })));
}

#[test]
fn encrypted_artifacts_validate_without_a_key() {
    let mut c = config(HashSuite::Blake3, FAMILY_A_BIT | FAMILY_B_BIT, 1024);
    c.flags = FLAG_ENCRYPTED;
    c.encryption_key = Some([9u8; 32]);
    let data = encode(&c, &[3u8; 3000], [1u8; 16], &[]).unwrap();
    assert!(validate(&data).is_ok());
    assert!(matches!(decode(&data, None), Err(CbcError::MissingEncryptionKey)));
    assert_eq!(decode(&data, Some([9u8; 32])).unwrap().payload, vec![3u8; 3000]);
    let (report, err) = validation_report(&data, false);
    assert!(report.valid && err.is_none());
    assert_eq!(report.total_blocks, Some(3));
    let summary = validate_artifact(&data);
    assert!(summary.valid);
    assert_eq!(summary.merkle_root, None);
    let mut tampered = data.clone();
    tampered[64 + 20] ^= 1;
    assert!(validate(&tampered).is_err());
}

#[test]
fn segment_bytes_are_what_it_encodes_to() {
    let data = artifact(FAMILY_A_BIT | FAMILY_B_BIT, b"segment");
    let head: [u8; 64] = data[..64].try_into().unwrap();
    let seg = BootstrapSegment::decode(&head).unwrap();
    assert_eq!(seg.encode(), head);
}

#[test]
fn a_changed_mac_is_refused() {
    let data = artifact(FAMILY_A_BIT, b"mac");
    let mut bad = data.clone();
    bad[45] ^= 0x80;
    assert!(matches!(decode(&bad, None), Err(CbcError::ParamsMacMismatch)));
}

#[test]
fn nonces_change_the_artifact_and_encoding_is_repeatable() {
    let c = config(HashSuite::Blake3, FAMILY_A_BIT, 1024);
    let a1 = encode(&c, b"same input", [1u8; 16], &[]).unwrap();
    let a1_again = encode(&c, b"same input", [1u8; 16], &[]).unwrap();
    let a2 = encode(&c, b"same input", [2u8; 16], &[]).unwrap();
    assert_eq!(a1, a1_again);
    assert_ne!(a1, a2);
    assert_eq!(&a1[16..32], &[1u8; 16]);
}

#[test]
fn footer_reports_its_encoded_length() {
    let receipts = vec![vec![1u8, 2, 3], vec![]];
    let bytes = cbc_core::footer::StreamFooter::encode([5u8; 32], Some([6u8; 32]), &receipts, &[7u8; 32], HashSuite::Sha256);
    let f = cbc_core::footer::StreamFooter::decode(&bytes, true, &[7u8; 32], HashSuite::Sha256).unwrap();
    assert_eq!(f.encoded_size(), Some(bytes.len()));
    assert_eq!(bytes.len(), 44 + 32 + (4 + 3) + 4 + 32);
}

#[test]
fn empty_payload_pads_to_one_block_even_of_size_zero() {
    assert_eq!(compute_padded_payloads(&[], 0), vec![Vec::<u8>::new()]);
}

#[test]
fn changed_commitments_and_footer_roots_are_refused() {
    let data = artifact(FAMILY_A_BIT | FAMILY_C_BIT, &vec![4u8; 3000]);
    let marker = cbc_core::prefix::prefix_marker_size(1024);
    let t = marker + 48 + 1024;
    let mut c = data.clone();
    c[64 + 2 * t - 5] ^= 0x10;
    assert!(matches!(decode(&c, None), Err(CbcError::ChainCommitmentMismatch { index: 1 })));
    let end = 64 + 3 * t;
    let mut r = data.clone();
    r[end + 20] ^= 1;
    assert!(decode(&r, None).is_err());
    let fl = u32::from_le_bytes([data[end + 4], data[end + 5], data[end + 6], data[end + 7]]) as usize;
    assert_eq!(end + fl, data.len());
    for at in [end + fl - 32, end + fl - 1] {
        let mut f = data.clone();
        f[at] ^= 0x04;
        assert!(matches!(decode(&f, None), Err(CbcError::FooterCommitmentMismatch)));
        assert!(validate(&f).is_err());
    }
}

#[test]
fn block_by_block_streaming_gives_the_batch_payload_with_markers() {
    let payload: Vec<u8> = (0..2500u32).map(|i| (i % 7) as u8).collect();
    let data = artifact(FAMILY_A_BIT | FAMILY_B_BIT | FAMILY_C_BIT, &payload);
    let t = cbc_core::prefix::prefix_marker_size(1024) + 48 + 1024;
    let mut dec = StreamingDecoder::new(None);
    dec.feed_bootstrap(&data[..64]).unwrap();
    let mut out = Vec::new();
    for j in 0..3 {
        out.extend(dec.feed_block(&data[64 + j * t..64 + (j + 1) * t], j == 2).unwrap());
    }
    assert_eq!(out, payload);
    assert_eq!(dec.finalize(&data[64 + 3 * t..]).unwrap(), payload);
}

#[test]
fn marker_sizes_follow_the_base_128_digits() {
    use_marker_sizes();
}

fn use_marker_sizes() {
    let size = cbc_core::prefix::prefix_marker_size;
    assert_eq!(size(127), 4);
    assert_eq!(size(512), 5);
    assert_eq!(size(4096), 5);
    assert_eq!(size(1 << 24), 7);
    assert_eq!(size(u32::MAX), 8);
    assert_eq!(cbc_core::prefix::encode_prefix_marker(1, 4096).len(), 5);
}

#[test]
fn recommitted_chain_verifies_and_first_mismatch_is_named() {
    let params = [7u8; 40];
    let nonce = [3u8; 16];
    let bps: u32 = 512;
    let mut blocks: Vec<Block> = Vec::new();
    for i in 0..4u32 {
        blocks.push(Block::new(i, vec![i as u8 + 1; 100 + i as usize], bps));
    }
    for suite in [HashSuite::Blake3, HashSuite::Sha256] {
        let (commitments, root) = compute_chain(&params, &nonce, &blocks, bps, suite);
        let mut recommitted = blocks.clone();
        for (b, c) in recommitted.iter_mut().zip(commitments.iter()) {
            b.commitment = *c;
        }
        assert_eq!(verify_chain(&params, &nonce, &recommitted, bps, suite).unwrap(), root);
        let mut tampered = recommitted.clone();
        tampered[2].commitment[5] ^= 0x01;
        tampered[3].commitment[0] ^= 0x80;
        assert!(matches!(
            verify_chain(&params, &nonce, &tampered, bps, suite),
            Err(CbcError::ChainCommitmentMismatch { index: 2 })
        ));
        // A different nonce gives a different chain, so the stored commitments no longer fit.
        assert!(matches!(
            verify_chain(&params, &[4u8; 16], &recommitted, bps, suite),
            Err(CbcError::ChainCommitmentMismatch { index: 0 })
        ));
    }
}

fn bitwise_crc32c(data: &[u8]) -> u32 {
    let mut c: u32 = 0xFFFF_FFFF;
    for &b in data {
        c ^= b as u32;
        for _ in 0..8 {
            c = if c & 1 == 1 { (c >> 1) ^ 0x82F6_3B78 } else { c >> 1 };
        }
    }
    c ^ 0xFFFF_FFFF
}

#[test]
fn block_checks_are_the_bitwise_crc32c() {
    assert_eq!(bitwise_crc32c(b"123456789"), 0xE306_9283);
    for (i, payload) in [vec![], b"123456789".to_vec(), vec![0xA5u8; 512], (0..300u32).map(|x| (x * 7) as u8).collect()]
        .into_iter()
        .enumerate()
    {
        let block = Block::new(i as u32, payload.clone(), 512);
        let mut padded = payload.clone();
        padded.resize(512, 0);
        assert_eq!(block.header.local_check, bitwise_crc32c(&padded));
    }
}

#[test]
fn a_flipped_payload_bit_is_refused_by_its_crc() {
    let payload: Vec<u8> = (0..2500u32).map(|i| (i % 13) as u8).collect();
    for mode in [FAMILY_A_BIT, FAMILY_A_BIT | FAMILY_B_BIT | FAMILY_C_BIT] {
        let data = artifact(mode, &payload);
        let marker = if mode & FAMILY_C_BIT != 0 { cbc_core::prefix::prefix_marker_size(1024) } else { 0 };
        let t = marker + 48 + 1024;
        for (k, p, bit) in [(0usize, 0usize, 0u8), (1, 700, 3), (2, 1023, 7)] {
            let at = 64 + k * t + marker + 16 + p;
            let mut bad = data.clone();
            bad[at] ^= 1 << bit;
            assert!(matches!(decode(&bad, None), Err(CbcError::Crc32Mismatch { index, .. }) if index as usize == k));
            assert!(validate(&bad).is_err());
            // the streaming decoder refuses the changed block and stays where it was
            let mut dec = StreamingDecoder::new(None);
            dec.feed_bootstrap(&data[..64]).unwrap();
            for j in 0..k {
                dec.feed_block(&data[64 + j * t..64 + (j + 1) * t], false).unwrap();
            }
            let slot = 64 + k * t..64 + (k + 1) * t;
            assert!(matches!(dec.feed_block(&bad[slot.clone()], k == 2), Err(CbcError::Crc32Mismatch { .. })));
            assert!(dec.feed_block(&data[slot], k == 2).is_ok());
        }
    }
}

#[test]
fn changed_header_fields_are_refused() {
    let payload: Vec<u8> = (0..2500u32).map(|i| (i % 11) as u8).collect();
    for mode in [FAMILY_A_BIT, FAMILY_A_BIT | FAMILY_C_BIT] {
        let data = artifact(mode, &payload);
        let marker = if mode & FAMILY_C_BIT != 0 { cbc_core::prefix::prefix_marker_size(1024) } else { 0 };
        let t = marker + 48 + 1024;
        let h = 64 + t + marker;
        let mut index = data.clone();
        index[h] ^= 0x02;
        assert!(matches!(decode(&index, None), Err(CbcError::BlockIndexMismatch { expected: 1, got: 3 })));
        let mut flags = data.clone();
        flags[h + 9] ^= 0x01;
        assert!(matches!(decode(&flags, None), Err(CbcError::NonZeroBlockFlags(256))));
        let mut check = data.clone();
        check[h + 15] ^= 0x40;
        assert!(matches!(decode(&check, None), Err(CbcError::Crc32Mismatch { index: 1, .. })));
    }
}

#[test]
fn plain_decodes_give_the_block_count_and_ignore_keys() {
    for (len, blocks) in [(0usize, 1u32), (1, 1), (512, 1), (513, 2), (1536, 3), (1537, 4)] {
        let payload = vec![9u8; len];
        let mut c = config(HashSuite::Sha256, FAMILY_A_BIT | FAMILY_B_BIT, 512);
        c.encryption_key = Some([5u8; 32]);
        let data = encode(&c, &payload, [1u8; 16], &[b"r".to_vec()]).unwrap();
        let d = decode(&data, None).unwrap();
        assert_eq!(d.payload, payload);
        assert_eq!(d.block_count, blocks);
        assert_eq!(d.bootstrap.block_count, blocks);
        assert_eq!(d.bootstrap.block_payload_size, 512);
        assert_eq!(d.bootstrap.flags, 0);
        assert_eq!(d.bootstrap.bootstrap_nonce, [1u8; 16]);
        assert!(d.merkle_root.is_some());
        assert_eq!(d.receipt_slots, vec![b"r".to_vec()]);
        let with_key = decode(&data, Some([6u8; 32])).unwrap();
        assert_eq!(with_key.payload, payload);
        assert_eq!(with_key.chain_root, d.chain_root);
    }
}

#[test]
fn range_proofs_stay_logarithmic_and_survive_encoding() {
    let params = [0x11u8; 32];
    for n in [1usize, 2, 3, 7, 8, 9, 100, 1000] {
        let payloads: Vec<Vec<u8>> = (0..n).map(|i| vec![(i % 251) as u8; 16]).collect();
        let tree = MerkleTree::build(&params, &payloads, HashSuite::Blake3);
        let mut ceil_log2 = 0usize;
        while (1usize << ceil_log2) < n {
            ceil_log2 += 1;
        }
        for (s, e) in [(0, n - 1), (n / 3, n / 2), (n - 1, n - 1)] {
            let p = tree.prove_range(s, e).unwrap();
            assert!(p.proof_nodes.len() <= 2 * ceil_log2);
            assert!(p.proof_nodes.iter().all(|x| x.level <= ceil_log2 && x.index < n));
            let leaves: Vec<[u8; 32]> =
                (s..=e).map(|i| cbc_core::merkle::compute_leaf(&params, i as u64, &payloads[i], HashSuite::Blake3)).collect();
            let back = RangeProof::decode(&p.encode()).unwrap();
            assert!(back.verify(&leaves, &tree.root, HashSuite::Blake3));
        }
    }
}

#[test]
fn a_block_out_of_turn_is_refused_by_index() {
    let payload: Vec<u8> = (0..2500u32).map(|i| (i % 5) as u8).collect();
    let data = artifact(FAMILY_A_BIT, &payload);
    let t = 48 + 1024;
    let mut dec = StreamingDecoder::new(None);
    dec.feed_bootstrap(&data[..64]).unwrap();
    assert!(matches!(dec.feed_block(&data[64 + t..64 + 2 * t], false), Err(CbcError::BlockIndexMismatch { expected: 0, got: 1 })));
    let mut out = dec.feed_block(&data[64..64 + t], false).unwrap();
    assert!(matches!(dec.feed_block(&data[64 + 2 * t..64 + 3 * t], true), Err(CbcError::BlockIndexMismatch { expected: 1, got: 2 })));
    out.extend(dec.feed_block(&data[64 + t..64 + 2 * t], false).unwrap());
    out.extend(dec.feed_block(&data[64 + 2 * t..64 + 3 * t], true).unwrap());
    assert_eq!(out, payload);
    assert_eq!(dec.finalize(&data[64 + 3 * t..]).unwrap(), payload);
}
