//! Soak tests for CBC — sustained-load, stress, and stability testing.
//!
//! These tests exercise the system under prolonged or intensive conditions
//! to surface issues that unit tests and property tests cannot:
//!
//! - Memory leaks / unbounded growth
//! - Performance degradation over time
//! - Edge-case accumulation bugs
//! - Resource exhaustion
//! - Correctness under sustained cycling
//!

use cbc_core::block::block_wire_size;
use cbc_core::bootstrap::{BootstrapSegment, BOOTSTRAP_SIZE, FAMILY_A_BIT, FAMILY_B_BIT, FAMILY_C_BIT, FLAG_COMPRESSED, FLAG_ENCRYPTED};
use cbc_core::decoder;
use cbc_core::encoder::{self, EncoderConfig};
use cbc_core::hash::HashSuite;
use cbc_core::merkle::{MerkleTree, RangeProof};
use cbc_core::streaming::{StreamingDecoder, StreamingEncoder};

// ---------------------------------------------------------------------------
// Helpers
// ---------------------------------------------------------------------------

fn config_for(suite: HashSuite, mode: u8, bps: u32, encrypt: bool) -> EncoderConfig {
    EncoderConfig {
        hash_suite: suite,
        commitment_mode: mode,
        block_payload_size: bps,
        flags: if encrypt { FLAG_ENCRYPTED } else { 0 },
        encryption_key: if encrypt { Some([0xABu8; 32]) } else { None },
    }
}

fn all_configs() -> Vec<(HashSuite, u8, u32)> {
    let suites = [HashSuite::Blake3, HashSuite::Sha256];
    let modes = [
        FAMILY_A_BIT,
        FAMILY_A_BIT | FAMILY_B_BIT,
        FAMILY_A_BIT | FAMILY_B_BIT | FAMILY_C_BIT,
    ];
    let block_sizes: [u32; 4] = [512, 1024, 4096, 8192];

    let mut out = Vec::new();
    for &s in &suites {
        for &m in &modes {
            for &b in &block_sizes {
                out.push((s, m, b));
            }
        }
    }
    out
}

/// Deterministic pseudo-random payload that varies by seed.
fn seeded_payload(seed: u64, len: usize) -> Vec<u8> {
    let mut buf = vec![0u8; len];
    let mut state = seed;
    for byte in buf.iter_mut() {
        // Simple xorshift64
        state ^= state << 13;
        state ^= state >> 7;
        state ^= state << 17;
        *byte = (state & 0xFF) as u8;
    }
    buf
}

fn nonce_for(iteration: u64) -> [u8; 16] {
    let mut n = [0u8; 16];
    n[..8].copy_from_slice(&iteration.to_le_bytes());
    n
}

#[test]
fn soak_encode_decode_cycle_100() {
    let iterations = 100u64;
    let config = config_for(HashSuite::Blake3, FAMILY_A_BIT | FAMILY_B_BIT, 4096, false);

    for i in 0..iterations {
        let payload = seeded_payload(i, 8_000);
        let nonce = nonce_for(i);
        let artifact = encoder::encode(&config, &payload, nonce, &[]).unwrap();
        let decoded = decoder::decode(&artifact, None).unwrap();
        assert_eq!(decoded.payload, payload, "mismatch at iteration {i}");
    }
}

#[test]
fn soak_config_matrix_quick() {
    let payload_sizes = [0, 1, 512, 4096, 10_000];
    let suites = [HashSuite::Blake3, HashSuite::Sha256];
    let modes = [
        FAMILY_A_BIT,
        FAMILY_A_BIT | FAMILY_B_BIT,
        FAMILY_A_BIT | FAMILY_B_BIT | FAMILY_C_BIT,
    ];

    for &suite in &suites {
        for &mode in &modes {
            let cfg = config_for(suite, mode, 4096, false);
            for &psize in &payload_sizes {
                let payload = seeded_payload(psize as u64, psize);
                let artifact = encoder::encode(&cfg, &payload, [0u8; 16], &[]).unwrap();
                let decoded = decoder::decode(&artifact, None).unwrap();
                assert_eq!(decoded.payload, payload);
            }
        }
    }
}

#[test]
fn soak_large_payload_1mb() {
    let size = 1024 * 1024;
    let payload = seeded_payload(0xBEEF, size);
    let cfg = config_for(HashSuite::Blake3, FAMILY_A_BIT | FAMILY_B_BIT, 4096, false);

    let artifact = encoder::encode(&cfg, &payload, [2u8; 16], &[]).unwrap();
    let decoded = decoder::decode(&artifact, None).unwrap();
    assert_eq!(decoded.payload, payload);
}

#[test]
fn soak_streaming_encoder_quick() {
    let payload = seeded_payload(99, 20_000);
    let cfg = config_for(HashSuite::Blake3, FAMILY_A_BIT, 4096, false);
    let nonce = [0u8; 16];

    let bootstrap = BootstrapSegment {
        hash_suite: cfg.hash_suite,
        commitment_mode: cfg.commitment_mode,
        block_payload_size: cfg.block_payload_size,
        block_count: 0,
        bootstrap_nonce: nonce,
        flags: cfg.flags,
    };

    let mut encoder = StreamingEncoder::new(&cfg, nonce);
    let mut artifact_bytes = Vec::new();
    artifact_bytes.extend_from_slice(&bootstrap.encode());

    for chunk in payload.chunks(333) {
        let blocks = encoder.feed(chunk).unwrap();
        for b in blocks {
            artifact_bytes.extend_from_slice(&b);
        }
    }

    let (final_bytes, final_count) = encoder.finalize(&[]).unwrap();
    artifact_bytes.extend_from_slice(&final_bytes);

    let mut patched = bootstrap;
    patched.block_count = final_count;
    artifact_bytes[..64].copy_from_slice(&patched.encode());

    let decoded = decoder::decode(&artifact_bytes, None).unwrap();
    assert_eq!(decoded.payload, payload);
}

#[test]
fn soak_streaming_decoder_quick() {
    let payload = seeded_payload(7, 12_000);
    let bps = 4096u32;
    let cfg = config_for(HashSuite::Blake3, FAMILY_A_BIT, bps, false);
    let artifact = encoder::encode(&cfg, &payload, [3u8; 16], &[]).unwrap();

    let mut dec = StreamingDecoder::new(None);
    dec.feed_bootstrap(&artifact[..BOOTSTRAP_SIZE]).unwrap();

    let block_count = dec.bootstrap().unwrap().block_count as usize;
    let wire = block_wire_size(bps).unwrap();

    let mut reassembled = Vec::new();
    for b in 0..block_count {
        let is_last = b == block_count - 1;
        let offset = BOOTSTRAP_SIZE + b * wire;
        let chunk = dec
            .feed_block(&artifact[offset..offset + wire], is_last)
            .unwrap();
        reassembled.extend_from_slice(&chunk);
    }

    let footer_offset = BOOTSTRAP_SIZE + block_count * wire;
    let final_payload = dec.finalize(&artifact[footer_offset..]).unwrap();
    assert_eq!(final_payload, payload);
    assert_eq!(reassembled, payload);
}

#[test]
fn soak_determinism_quick() {
    let payload = seeded_payload(0xF00D, 5_000);
    let cfg = config_for(HashSuite::Blake3, FAMILY_A_BIT | FAMILY_B_BIT, 4096, false);
    let nonce = [7u8; 16];

    let reference = encoder::encode(&cfg, &payload, nonce, &[]).unwrap();
    for _ in 0..50 {
        let artifact = encoder::encode(&cfg, &payload, nonce, &[]).unwrap();
        assert_eq!(artifact, reference);
    }
}

#[test]
fn soak_encryption_cycle_quick() {
    for i in 0..20u64 {
        let payload = seeded_payload(i, 5_000);
        let cfg = config_for(HashSuite::Blake3, FAMILY_A_BIT, 4096, true);
        let key = cfg.encryption_key.unwrap();

        let artifact = encoder::encode(&cfg, &payload, nonce_for(i), &[]).unwrap();
        let decoded = decoder::decode(&artifact, Some(key)).unwrap();
        assert_eq!(decoded.payload, payload);

        let bad = decoder::decode(&artifact, Some([0xFFu8; 32]));
        assert!(bad.is_err());
    }
}

#[test]
fn soak_merkle_proofs_quick() {
    let bps = 512u32;
    let payload = seeded_payload(0x1234, 5 * bps as usize);
    let cfg = config_for(HashSuite::Blake3, FAMILY_A_BIT | FAMILY_B_BIT, bps, false);

    let artifact = encoder::encode(&cfg, &payload, [0u8; 16], &[]).unwrap();
    let decoded = decoder::decode(&artifact, None).unwrap();

    let bs = &decoded.bootstrap;
    let params_canonical = bs.params_canonical();
    let params_hash = cbc_core::chain::compute_params_hash(&params_canonical, bs.hash_suite);

    let wire = block_wire_size(bps).unwrap();
    let block_count = decoded.block_count as usize;
    let mut padded_payloads = Vec::new();
    for b in 0..block_count {
        let block_offset = BOOTSTRAP_SIZE + b * wire;
        let payload_offset = block_offset + 16;
        let mut padded = vec![0u8; bps as usize];
        padded.copy_from_slice(&artifact[payload_offset..payload_offset + bps as usize]);
        padded_payloads.push(padded);
    }

    let tree = MerkleTree::build(&params_hash, &padded_payloads, bs.hash_suite);
    let proof = tree.prove_range(1, 3).unwrap();

    let leaf_hashes: Vec<[u8; 32]> = (1..=3)
        .map(|i| {
            cbc_core::merkle::compute_leaf(
                &params_hash,
                i as u64,
                &padded_payloads[i],
                bs.hash_suite,
            )
        })
        .collect();

    assert!(proof.verify(&leaf_hashes, &tree.root, bs.hash_suite));
}

#[test]
fn soak_boundary_payload_sizes() {
    for &bps in &[512u32, 1024, 4096] {
        let cfg = config_for(HashSuite::Blake3, FAMILY_A_BIT | FAMILY_B_BIT, bps, false);

        let boundary_sizes: Vec<usize> = vec![
            0,
            1,
            (bps - 1) as usize,
            bps as usize,
            (bps + 1) as usize,
            (2 * bps - 1) as usize,
            (2 * bps) as usize,
            (2 * bps + 1) as usize,
            (3 * bps - 1) as usize,
            (3 * bps) as usize,
            (3 * bps + 1) as usize,
            (10 * bps) as usize,
            (10 * bps + 1) as usize,
        ];

        for &size in &boundary_sizes {
            let payload = seeded_payload(size as u64, size);
            let artifact = encoder::encode(&cfg, &payload, [0u8; 16], &[])
                .unwrap_or_else(|e| panic!("boundary encode failed: bps={bps} size={size}: {e:?}"));
            let decoded = decoder::decode(&artifact, None)
                .unwrap_or_else(|e| panic!("boundary decode failed: bps={bps} size={size}: {e:?}"));
            assert_eq!(
                decoded.payload, payload,
                "boundary mismatch: bps={bps} size={size}"
            );
        }
    }
}

#[test]
fn soak_tamper_strategic() {
    let cfg = config_for(HashSuite::Blake3, FAMILY_A_BIT, 512, false);
    let payload = seeded_payload(1, 1024);
    let artifact = encoder::encode(&cfg, &payload, [0u8; 16], &[]).unwrap();

    // Tamper positions: magic, bootstrap params, block header, payload, commitment, footer
    let positions = [
        0,                   // magic byte 0
        3,                   // magic byte 3
        10,                  // bootstrap params area
        32,                  // nonce area
        63,                  // last bootstrap byte
        64,                  // first block header byte
        64 + 16 + 100,       // mid-payload
        64 + 16 + 511,       // end of first block payload
        artifact.len() - 1,  // last byte (footer)
        artifact.len() - 32, // footer commitment area
    ];

    for &pos in &positions {
        if pos >= artifact.len() {
            continue;
        }
        let mut tampered = artifact.clone();
        tampered[pos] ^= 0x01;
        assert!(
            decoder::decode(&tampered, None).is_err(),
            "tamper at position {pos} was not detected"
        );
    }
}

#[test]
fn soak_compression_cycle() {
    let payloads: Vec<(&str, Vec<u8>)> = vec![
        ("zeros", vec![0u8; 50_000]),
        ("ones", vec![0xFFu8; 50_000]),
        ("repeated_pattern", b"ABCDEFGH".repeat(6250)),
        ("pseudo_random", seeded_payload(0xDEAD, 50_000)),
        ("small", b"hello".to_vec()),
        ("empty", vec![]),
        ("single_byte", vec![42]),
    ];

    for (name, payload) in &payloads {
        let cfg = EncoderConfig {
            hash_suite: HashSuite::Blake3,
            commitment_mode: FAMILY_A_BIT | FAMILY_B_BIT,
            block_payload_size: 4096,
            flags: FLAG_COMPRESSED,
            encryption_key: None,
        };

        let artifact = encoder::encode(&cfg, payload, [0u8; 16], &[])
            .unwrap_or_else(|e| panic!("compressed encode failed for {name}: {e:?}"));

        let decoded = decoder::decode(&artifact, None)
            .unwrap_or_else(|e| panic!("compressed decode failed for {name}: {e:?}"));

        assert_eq!(
            &decoded.payload, payload,
            "compressed payload mismatch for {name}"
        );
    }
}

#[test]
fn soak_compress_encrypt_cycle() {
    let payload = b"The quick brown fox jumps over the lazy dog. ".repeat(1000);

    let cfg = EncoderConfig {
        hash_suite: HashSuite::Blake3,
        commitment_mode: FAMILY_A_BIT | FAMILY_B_BIT,
        block_payload_size: 4096,
        flags: FLAG_COMPRESSED | FLAG_ENCRYPTED,
        encryption_key: Some([0x42u8; 32]),
    };

    let artifact = encoder::encode(&cfg, &payload, [9u8; 16], &[]).unwrap();
    let decoded = decoder::decode(&artifact, Some([0x42u8; 32])).unwrap();
    assert_eq!(decoded.payload, payload);

    // Wrong key must fail
    assert!(decoder::decode(&artifact, Some([0x00u8; 32])).is_err());
    // No key must fail
    assert!(decoder::decode(&artifact, None).is_err());
}

#[test]
fn soak_nonce_uniqueness() {
    let payload = seeded_payload(0, 5_000);
    let cfg = config_for(HashSuite::Blake3, FAMILY_A_BIT, 4096, false);

    let mut roots = std::collections::HashSet::new();
    let mut artifacts = std::collections::HashSet::new();

    for i in 0..100u64 {
        let nonce = nonce_for(i);
        let artifact = encoder::encode(&cfg, &payload, nonce, &[]).unwrap();
        let decoded = decoder::decode(&artifact, None).unwrap();

        assert_eq!(decoded.payload, payload);

        let root_inserted = roots.insert(decoded.chain_root);
        let artifact_inserted = artifacts.insert(artifact);

        // Each nonce should produce a unique root and artifact
        assert!(root_inserted, "duplicate chain root at nonce iteration {i}");
        assert!(
            artifact_inserted,
            "duplicate artifact at nonce iteration {i}"
        );
    }
}

#[test]
fn soak_garbage_input_quick() {
    for i in 0..500u64 {
        let size = (i % 2000) as usize;
        let garbage = seeded_payload(i * 7, size);
        let _ = decoder::decode(&garbage, None);
    }
}

#[test]
fn soak_streaming_batch_equivalence() {
    // Note: empty payload (0) is excluded because the streaming encoder
    // requires at least one block of input, while the batch encoder
    // synthesizes a single empty block. This is a known behavioral
    // difference, not a bug.
    let payload_sizes = [1, 511, 512, 513, 4095, 4096, 4097, 20_000];

    for &bps in &[512u32, 4096] {
        for &psize in &payload_sizes {
            let payload = seeded_payload(psize as u64, psize);
            let nonce = [11u8; 16];
            let mode = FAMILY_A_BIT;
            let cfg = config_for(HashSuite::Blake3, mode, bps, false);

            // Batch encode
            let batch_artifact = encoder::encode(&cfg, &payload, nonce, &[]).unwrap();

            // Streaming encode
            let bootstrap = BootstrapSegment {
                hash_suite: cfg.hash_suite,
                commitment_mode: cfg.commitment_mode,
                block_payload_size: cfg.block_payload_size,
                block_count: 0,
                bootstrap_nonce: nonce,
                flags: cfg.flags,
            };

            let mut enc = StreamingEncoder::new(&cfg, nonce);
            let mut stream_artifact = Vec::new();
            stream_artifact.extend_from_slice(&bootstrap.encode());

            // Feed entire payload at once
            let blocks = enc.feed(&payload).unwrap();
            for b in blocks {
                stream_artifact.extend_from_slice(&b);
            }
            let (final_bytes, final_count) = enc.finalize(&[]).unwrap();
            stream_artifact.extend_from_slice(&final_bytes);

            // Patch block count
            let mut patched_bs = bootstrap;
            patched_bs.block_count = final_count;
            stream_artifact[..64].copy_from_slice(&patched_bs.encode());

            // Verify both decode to same payload
            let batch_decoded = decoder::decode(&batch_artifact, None).unwrap();
            let stream_decoded = decoder::decode(&stream_artifact, None).unwrap();

            assert_eq!(
                batch_decoded.payload, stream_decoded.payload,
                "streaming/batch payload mismatch: bps={bps} psize={psize}"
            );
            assert_eq!(
                batch_decoded.chain_root, stream_decoded.chain_root,
                "streaming/batch chain root mismatch: bps={bps} psize={psize}"
            );
        }
    }
}

#[test]
fn soak_cross_hash_validation() {
    for i in 0..50u64 {
        let payload = seeded_payload(i, 10_000);
        let nonce = nonce_for(i);

        let cfg_b3 = config_for(HashSuite::Blake3, FAMILY_A_BIT | FAMILY_B_BIT, 4096, false);
        let cfg_sha = config_for(HashSuite::Sha256, FAMILY_A_BIT | FAMILY_B_BIT, 4096, false);

        let art_b3 = encoder::encode(&cfg_b3, &payload, nonce, &[]).unwrap();
        let art_sha = encoder::encode(&cfg_sha, &payload, nonce, &[]).unwrap();

        let dec_b3 = decoder::decode(&art_b3, None).unwrap();
        let dec_sha = decoder::decode(&art_sha, None).unwrap();

        // Same payload
        assert_eq!(dec_b3.payload, payload);
        assert_eq!(dec_sha.payload, payload);

        // Different roots (overwhelmingly likely for any non-trivial payload)
        assert_ne!(
            dec_b3.chain_root, dec_sha.chain_root,
            "BLAKE3 and SHA-256 produced same chain root at iteration {i}"
        );

        // Different artifacts
        assert_ne!(art_b3, art_sha);

        // Cross-algorithm decode must fail (wrong hash in bootstrap)
        // This is implicitly tested because the commitments won't match
        // if you somehow swapped the hash suite marker.
    }
}

#[test]
fn soak_empty_payload_all_configs() {
    for (suite, mode, bps) in all_configs() {
        let cfg = config_for(suite, mode, bps, false);
        let artifact = encoder::encode(&cfg, &[], [0u8; 16], &[]).unwrap_or_else(|e| {
            panic!("empty encode failed: {suite:?} mode=0x{mode:02x} bps={bps}: {e:?}")
        });
        let decoded = decoder::decode(&artifact, None).unwrap_or_else(|e| {
            panic!("empty decode failed: {suite:?} mode=0x{mode:02x} bps={bps}: {e:?}")
        });
        assert!(
            decoded.payload.is_empty(),
            "empty payload not empty after decode: {suite:?} mode=0x{mode:02x} bps={bps}"
        );
    }
}

#[test]
fn soak_single_byte_payload_all_configs() {
    for (suite, mode, bps) in all_configs() {
        let cfg = config_for(suite, mode, bps, false);
        let artifact = encoder::encode(&cfg, &[0x42], [0u8; 16], &[]).unwrap_or_else(|e| {
            panic!("single-byte encode failed: {suite:?} mode=0x{mode:02x} bps={bps}: {e:?}")
        });
        let decoded = decoder::decode(&artifact, None).unwrap_or_else(|e| {
            panic!("single-byte decode failed: {suite:?} mode=0x{mode:02x} bps={bps}: {e:?}")
        });
        assert_eq!(
            decoded.payload,
            vec![0x42],
            "single-byte mismatch: {suite:?} mode=0x{mode:02x} bps={bps}"
        );
    }
}
