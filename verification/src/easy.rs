//! High-level API with sensible defaults: BLAKE3, Family A (linear chain)
//! and 64 KiB blocks.
use crate::bootstrap::{FAMILY_A_BIT, FLAG_ENCRYPTED};
use crate::decoder::{decode, spec_decode, DecodedArtifact, DecodedView};
use crate::encoder::{encode, spec_encode, EncoderConfig};
use crate::error::{same_error, CbcError, Result};
use crate::roundtrip::{roundtrip_ok, spec_decoded_of};
use crate::footer::vec_views;
use crate::hash::HashSuite;
use vstd::prelude::*;

verus! {

/// A high-level wrapper for Cobalt artifacts.
pub struct Easy;

/// The configuration `capture` uses.
pub open spec fn easy_config() -> EncoderConfig {
    EncoderConfig {
        hash_suite: HashSuite::Blake3,
        commitment_mode: 0x01,
        block_payload_size: 65536,
        flags: 0,
        encryption_key: None,
    }
}

/// The configuration `capture_encrypted` uses.
pub open spec fn easy_encrypted_config(key: [u8; 32]) -> EncoderConfig {
    EncoderConfig {
        hash_suite: HashSuite::Blake3,
        commitment_mode: 0x01,
        block_payload_size: 65536,
        flags: 0x02,
        encryption_key: Some(key),
    }
}

impl Easy {
    /// Captures a payload into a Cobalt container with default settings:
    /// BLAKE3, Family A (linear chain), 64 KiB blocks.
    pub fn capture(payload: &[u8], nonce: [u8; 16]) -> (r: Result<Vec<u8>>)
        ensures
            match (r, spec_encode(easy_config(), payload@, nonce, Seq::empty())) {
                (Ok(v), Ok(s)) => v@ == s,
                (Err(e), Err(d)) => same_error(e, d),
                _ => false,
            },
            r matches Ok(v) ==> (roundtrip_ok(easy_config(), payload@, Seq::empty()) ==> spec_decode(v@, None)
                == Ok::<DecodedView, CbcError>(spec_decoded_of(easy_config(), payload@, nonce, Seq::empty()))),
    {
        let config = EncoderConfig {
            hash_suite: HashSuite::Blake3,
            commitment_mode: FAMILY_A_BIT,
            block_payload_size: 65536,
            flags: 0,
            encryption_key: None,
        };
        let receipts: Vec<Vec<u8>> = Vec::new();
        proof { assert(vec_views(receipts@) =~= Seq::<Seq<u8>>::empty()); }
        encode(&config, payload, nonce, receipts.as_slice())
    }

    /// Releases (decodes and verifies) a Cobalt artifact.
    pub fn release(data: &[u8]) -> (r: Result<DecodedArtifact>)
        ensures
            match (r, spec_decode(data@, None)) {
                (Ok(d), Ok(v)) => d@ == v,
                (Err(e), Err(x)) => same_error(e, x),
                _ => false,
            },
    {
        decode(data, None)
    }

    /// Captures a payload with AES-256-GCM encryption of every block.
    pub fn capture_encrypted(payload: &[u8], nonce: [u8; 16], key: [u8; 32]) -> (r: Result<Vec<u8>>)
        ensures
            match (r, spec_encode(easy_encrypted_config(key), payload@, nonce, Seq::empty())) {
                (Ok(v), Ok(s)) => v@ == s,
                (Err(e), Err(d)) => same_error(e, d),
                _ => false,
            },
            r matches Ok(v) ==> (roundtrip_ok(easy_encrypted_config(key), payload@, Seq::empty()) ==> spec_decode(v@, Some(key))
                == Ok::<DecodedView, CbcError>(spec_decoded_of(easy_encrypted_config(key), payload@, nonce, Seq::empty()))),
    {
        let config = EncoderConfig {
            hash_suite: HashSuite::Blake3,
            commitment_mode: FAMILY_A_BIT,
            block_payload_size: 65536,
            flags: FLAG_ENCRYPTED,
            encryption_key: Some(key),
        };
        let receipts: Vec<Vec<u8>> = Vec::new();
        proof { assert(vec_views(receipts@) =~= Seq::<Seq<u8>>::empty()); }
        encode(&config, payload, nonce, receipts.as_slice())
    }

    /// Releases (decodes, decrypts, and verifies) an encrypted Cobalt artifact.
    pub fn release_encrypted(data: &[u8], key: [u8; 32]) -> (r: Result<DecodedArtifact>)
        ensures
            match (r, spec_decode(data@, Some(key))) {
                (Ok(d), Ok(v)) => d@ == v,
                (Err(e), Err(x)) => same_error(e, x),
                _ => false,
            },
    {
        decode(data, Some(key))
    }
}

/// Convenience function for one-line encoding.
pub fn capture(payload: &[u8], nonce: [u8; 16]) -> (r: Result<Vec<u8>>)
    ensures
        match (r, spec_encode(easy_config(), payload@, nonce, Seq::empty())) {
            (Ok(v), Ok(s)) => v@ == s,
            (Err(e), Err(d)) => same_error(e, d),
            _ => false,
        },
        r matches Ok(v) ==> (roundtrip_ok(easy_config(), payload@, Seq::empty()) ==> spec_decode(v@, None)
            == Ok::<DecodedView, CbcError>(spec_decoded_of(easy_config(), payload@, nonce, Seq::empty()))),
{
    Easy::capture(payload, nonce)
}

/// Convenience function for one-line decoding.
pub fn release(data: &[u8]) -> (r: Result<DecodedArtifact>)
    ensures
        match (r, spec_decode(data@, None)) {
            (Ok(d), Ok(v)) => d@ == v,
            (Err(e), Err(x)) => same_error(e, x),
            _ => false,
        },
{
    Easy::release(data)
}

} // verus!
