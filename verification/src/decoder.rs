//! Decoder: validates a CBC artifact and extracts its payload.
//!
//! A compliant decoder verifies the params MAC, every block commitment
//! (Family A), the Merkle root when Family B is declared, the prefix
//! markers when Family C is declared, and the footer commitment; any
//! failure is a hard error, and no payload of a failed artifact is exposed.
use crate::block::{aes256gcm_open, block_views, spec_block_error, spec_block_nonce, spec_decode_header, spec_header_bytes, spec_padded, Block, BlockModel};
use crate::streaming::{after_block, decoder_start, spec_feed_block, spec_stream_final, StreamingDecoderView};
use crate::bootstrap::{lemma_array_of_32, seq_to_array, spec_decode_bootstrap, spec_params, valid_segment, BootstrapSegment, BOOTSTRAP_SIZE, FLAG_COMPRESSED, FLAG_ENCRYPTED};
use crate::bytes::{append_bytes, fill_array};
use crate::chain::{chain_link, compute_params_hash, first_bad_commitment, lemma_first_bad_exists, spec_c0, spec_params_hash, verify_chain};
use crate::compression::{decompress, zstd_decode_all};
use crate::encoder::{padded_payloads_of, payloads_fit_all, spec_paddeds};
use crate::error::{same_error, CbcError, Result};
use crate::footer::{spec_decode_footer, vec_views, FooterView, StreamFooter};
use crate::merkle::{spec_leaves, spec_root, MerkleTree};
use crate::prefix::{decode_prefix_marker, marker_ok, varint_len, varint_ok, varint_terminates_at, prefix_marker_size, spec_marker_fields, spec_prefix_marker_size, BLOCK_TYPE_DATA};
use vstd::prelude::*;
use vstd::slice::slice_subrange;

verus! {

/// Result of a successful decode.
#[derive(Debug)]
pub struct DecodedArtifact {
    pub bootstrap: BootstrapSegment,
    pub payload: Vec<u8>,
    pub chain_root: [u8; 32],
    pub merkle_root: Option<[u8; 32]>,
    pub receipt_slots: Vec<Vec<u8>>,
    pub block_count: u32,
}

/// A decoded artifact as plain values.
#[verifier::ext_equal]
pub struct DecodedView {
    pub bootstrap: BootstrapSegment,
    pub payload: Seq<u8>,
    pub chain_root: [u8; 32],
    pub merkle_root: Option<[u8; 32]>,
    pub receipt_slots: Seq<Seq<u8>>,
    pub block_count: u32,
}

impl View for DecodedArtifact {
    type V = DecodedView;

    open spec fn view(&self) -> DecodedView {
        DecodedView {
            bootstrap: self.bootstrap,
            payload: self.payload@,
            chain_root: self.chain_root,
            merkle_root: self.merkle_root,
            receipt_slots: vec_views(self.receipt_slots@),
            block_count: self.block_count,
        }
    }
}

/// The block whose wire form starts `b` (no check made).
pub open spec fn spec_block_at(b: Seq<u8>, bps: u32) -> BlockModel {
    let h = spec_decode_header(b.subrange(0, 16));
    BlockModel {
        header: h,
        payload: b.subrange(16, 16 + h.payload_length),
        commitment: seq_to_array::<32>(b.subrange(16 + bps, 48 + bps)),
    }
}

/// Whether the marker at the front of `d` is not the expected data-block
/// marker.
pub open spec fn marker_bad(d: Seq<u8>, bps: u32, prefix_size: int) -> bool {
    !marker_ok(d) || spec_marker_fields(d).0 != BLOCK_TYPE_DATA || spec_marker_fields(d).1 != bps
        || spec_marker_fields(d).2 != prefix_size
}

/// Parse blocks `i..count` of `data`, block `i` (with its marker, if
/// any) starting at `off`.
pub open spec fn spec_parse_blocks(data: Seq<u8>, bps: u32, count: u32, has_prefix: bool, prefix_size: int, off: int, i: nat) -> Result<Seq<BlockModel>>
    decreases count - i,
{
    if i >= count {
        Ok(Seq::empty())
    } else if has_prefix && marker_bad(data.skip(off), bps, prefix_size) {
        Err(CbcError::PrefixParseError(arbitrary()))
    } else {
        let boff = if has_prefix { off + prefix_size } else { off };
        let bb = data.skip(boff);
        match spec_block_error(bb, bps, i as u32, i == count - 1) {
            Some(e) => Err(e),
            None => match spec_parse_blocks(data, bps, count, has_prefix, prefix_size, boff + 48 + bps, i + 1) {
                Ok(rest) => Ok(seq![spec_block_at(bb, bps)] + rest),
                Err(e) => Err(e),
            },
        }
    }
}


/// The payload bytes of the blocks, decrypted under `key` when encrypted:
/// the first failure, or their concatenation.
pub open spec fn spec_extract(blocks: Seq<BlockModel>, encrypted: bool, key: Option<[u8; 32]>, nonce: [u8; 16]) -> Result<Seq<u8>>
    decreases blocks.len(),
{
    if blocks.len() == 0 {
        Ok(Seq::empty())
    } else if !encrypted {
        match spec_extract(blocks.drop_first(), encrypted, key, nonce) {
            Ok(rest) => Ok(blocks[0].payload + rest),
            Err(e) => Err(e),
        }
    } else if key is None {
        Err(CbcError::MissingEncryptionKey)
    } else {
        match aes256gcm_open(key->0@, spec_block_nonce(nonce@, blocks[0].header.block_index), blocks[0].payload) {
            None => Err(CbcError::DecryptionError(arbitrary())),
            Some(p) => match spec_extract(blocks.drop_first(), encrypted, key, nonce) {
                Ok(rest) => Ok(p + rest),
                Err(e) => Err(e),
            },
        }
    }
}

/// The number of bytes each block occupies, marker included.
pub open spec fn spec_block_total(seg: BootstrapSegment) -> int {
    (if seg.commitment_mode & 0x04 != 0 { spec_prefix_marker_size(seg.block_payload_size) } else { 0int })
        + 48 + seg.block_payload_size
}

/// The checks after the blocks parsed: chain, footer, roots, extraction.
pub open spec fn spec_decode_checks(data: Seq<u8>, seg: BootstrapSegment, key: Option<[u8; 32]>, blocks: Seq<BlockModel>) -> Result<DecodedView> {
    let bps = seg.block_payload_size;
    let suite = seg.hash_suite;
    let params = spec_params(seg);
    let ph = spec_params_hash(params, suite)@;
    let c0 = spec_c0(params, seg.bootstrap_nonce@, suite);
    let has_merkle = seg.commitment_mode & 0x02 != 0;
    let end = 64 + seg.block_count * spec_block_total(seg);
    let root = chain_link(ph, c0, blocks, bps, suite, blocks.len());
    let mr = if has_merkle { Some(spec_root(spec_leaves(ph, spec_paddeds(blocks, bps), suite), suite)) } else { None };
    if exists|k: int| first_bad_commitment(blocks, ph, c0, bps, suite, k) {
        let k = choose|k: int| first_bad_commitment(blocks, ph, c0, bps, suite, k);
        Err(CbcError::ChainCommitmentMismatch { index: k as u32 })
    } else {
        match spec_decode_footer(data.skip(end), has_merkle, ph, suite) {
            Err(e) => Err(e),
            Ok(f) => {
                if f.chain_root != root {
                    Err(CbcError::ChainRootMismatch)
                } else if has_merkle && f.merkle_root is Some && f.merkle_root != mr {
                    Err(CbcError::MerkleRootMismatch)
                } else {
                    match spec_extract(blocks, seg.flags & 0x02 != 0, key, seg.bootstrap_nonce) {
                        Err(e) => Err(e),
                        Ok(raw) => {
                            let compressed = seg.flags & 0x01 != 0;
                            if compressed && zstd_decode_all(raw) is None {
                                Err(CbcError::DecompressionError(arbitrary()))
                            } else {
                                Ok(DecodedView {
                                    bootstrap: seg,
                                    payload: if compressed { zstd_decode_all(raw)->0 } else { raw },
                                    chain_root: root,
                                    merkle_root: mr,
                                    receipt_slots: f.receipt_slots,
                                    block_count: seg.block_count,
                                })
                            }
                        },
                    }
                }
            },
        }
    }
}

/// What decoding `data` yields: the first failed check, or the artifact.
pub open spec fn spec_decode(data: Seq<u8>, key: Option<[u8; 32]>) -> Result<DecodedView> {
    if data.len() < 64 {
        Err(CbcError::InsufficientData { need: 64, have: data.len() as usize })
    } else {
        match spec_decode_bootstrap(data.take(64)) {
            Err(e) => Err(e),
            Ok(seg) => {
                let end = 64 + seg.block_count * spec_block_total(seg);
                if data.len() < end {
                    Err(CbcError::InsufficientData { need: end as usize, have: data.len() as usize })
                } else {
                    let hp = seg.commitment_mode & 0x04 != 0;
                    let ps = if hp { spec_prefix_marker_size(seg.block_payload_size) } else { 0int };
                    match spec_parse_blocks(data, seg.block_payload_size, seg.block_count, hp, ps, 64, 0) {
                        Err(e) => Err(e),
                        Ok(blocks) => spec_decode_checks(data, seg, key, blocks),
                    }
                }
            },
        }
    }
}


/// The chain root of parsed blocks under a segment.
pub open spec fn spec_chain_root(seg: BootstrapSegment, blocks: Seq<BlockModel>) -> [u8; 32] {
    let params = spec_params(seg);
    let ph = spec_params_hash(params, seg.hash_suite)@;
    chain_link(ph, spec_c0(params, seg.bootstrap_nonce@, seg.hash_suite), blocks, seg.block_payload_size, seg.hash_suite, blocks.len())
}

/// The Merkle root of parsed blocks under a segment, when Family B is on.
pub open spec fn spec_merkle_of(seg: BootstrapSegment, blocks: Seq<BlockModel>) -> Option<[u8; 32]> {
    let ph = spec_params_hash(spec_params(seg), seg.hash_suite)@;
    if seg.commitment_mode & 0x02 != 0 {
        Some(spec_root(spec_leaves(ph, spec_paddeds(blocks, seg.block_payload_size), seg.hash_suite), seg.hash_suite))
    } else {
        None
    }
}

/// The integrity checks after the blocks parsed: the chain commitments,
/// the footer and its commitment, and the chain and Merkle roots; the
/// footer when all pass.
pub open spec fn spec_integrity_checks(data: Seq<u8>, seg: BootstrapSegment, blocks: Seq<BlockModel>) -> Result<FooterView> {
    let bps = seg.block_payload_size;
    let suite = seg.hash_suite;
    let params = spec_params(seg);
    let ph = spec_params_hash(params, suite)@;
    let c0 = spec_c0(params, seg.bootstrap_nonce@, suite);
    let has_merkle = seg.commitment_mode & 0x02 != 0;
    let end = 64 + seg.block_count * spec_block_total(seg);
    if exists|k: int| first_bad_commitment(blocks, ph, c0, bps, suite, k) {
        let k = choose|k: int| first_bad_commitment(blocks, ph, c0, bps, suite, k);
        Err(CbcError::ChainCommitmentMismatch { index: k as u32 })
    } else {
        match spec_decode_footer(data.skip(end), has_merkle, ph, suite) {
            Err(e) => Err(e),
            Ok(f) => {
                if f.chain_root != spec_chain_root(seg, blocks) {
                    Err(CbcError::ChainRootMismatch)
                } else if has_merkle && f.merkle_root is Some && f.merkle_root != spec_merkle_of(seg, blocks) {
                    Err(CbcError::MerkleRootMismatch)
                } else {
                    Ok(f)
                }
            },
        }
    }
}

/// Every integrity check of `data`, in the decoder's order, without
/// decrypting or decompressing the payload: the segment, the parsed
/// blocks and the footer when all pass, else the first failure.
pub open spec fn spec_integrity(data: Seq<u8>) -> Result<(BootstrapSegment, Seq<BlockModel>, FooterView)> {
    if data.len() < 64 {
        Err(CbcError::InsufficientData { need: 64, have: data.len() as usize })
    } else {
        match spec_decode_bootstrap(data.take(64)) {
            Err(e) => Err(e),
            Ok(seg) => {
                let end = 64 + seg.block_count * spec_block_total(seg);
                if data.len() < end {
                    Err(CbcError::InsufficientData { need: end as usize, have: data.len() as usize })
                } else {
                    let hp = seg.commitment_mode & 0x04 != 0;
                    let ps = if hp { spec_prefix_marker_size(seg.block_payload_size) } else { 0int };
                    match spec_parse_blocks(data, seg.block_payload_size, seg.block_count, hp, ps, 64, 0) {
                        Err(e) => Err(e),
                        Ok(blocks) => match spec_integrity_checks(data, seg, blocks) {
                            Err(e) => Err(e),
                            Ok(f) => Ok((seg, blocks, f)),
                        },
                    }
                }
            },
        }
    }
}

/// What the decoder does once every integrity check passed: extract the
/// payload (decrypting it under `key` when encrypted) and expand it when
/// compressed.
pub open spec fn spec_finish(seg: BootstrapSegment, key: Option<[u8; 32]>, blocks: Seq<BlockModel>, f: FooterView) -> Result<DecodedView> {
    match spec_extract(blocks, seg.flags & 0x02 != 0, key, seg.bootstrap_nonce) {
        Err(e) => Err(e),
        Ok(raw) => {
            let compressed = seg.flags & 0x01 != 0;
            if compressed && zstd_decode_all(raw) is None {
                Err(CbcError::DecompressionError(arbitrary()))
            } else {
                Ok(DecodedView {
                    bootstrap: seg,
                    payload: if compressed { zstd_decode_all(raw)->0 } else { raw },
                    chain_root: spec_chain_root(seg, blocks),
                    merkle_root: spec_merkle_of(seg, blocks),
                    receipt_slots: f.receipt_slots,
                    block_count: seg.block_count,
                })
            }
        },
    }
}

/// Decoding is the integrity checks followed by extraction.
pub proof fn lemma_decode_is_integrity_then_finish(data: Seq<u8>, key: Option<[u8; 32]>)
    ensures
        spec_decode(data, key) == match spec_integrity(data) {
            Err(e) => Err(e),
            Ok((seg, blocks, f)) => spec_finish(seg, key, blocks, f),
        },
{
}

/// Extracting unencrypted blocks does not read the key.
proof fn lemma_plain_extract_key_free(blocks: Seq<BlockModel>, k1: Option<[u8; 32]>, k2: Option<[u8; 32]>, nonce: [u8; 16])
    ensures
        spec_extract(blocks, false, k1, nonce) == spec_extract(blocks, false, k2, nonce),
    decreases blocks.len(),
{
    if blocks.len() > 0 {
        lemma_plain_extract_key_free(blocks.drop_first(), k1, k2, nonce);
    }
}

/// An artifact that decodes under some key passes validation, and one that
/// fails validation fails decoding with the same error under every key.
pub proof fn lemma_decode_needs_integrity(data: Seq<u8>, key: Option<[u8; 32]>)
    ensures
        spec_decode(data, key) is Ok ==> spec_integrity(data) is Ok,
        spec_integrity(data) matches Err(e) ==> spec_decode(data, key) == Err::<DecodedView, CbcError>(e),
{
    lemma_decode_is_integrity_then_finish(data, key);
}

/// An artifact not marked encrypted decodes the same under every key (and
/// one that fails its integrity checks fails the same way under every key).
pub proof fn lemma_unencrypted_decode_key_free(data: Seq<u8>, k1: Option<[u8; 32]>, k2: Option<[u8; 32]>)
    requires
        spec_integrity(data) is Ok ==> spec_integrity(data)->Ok_0.0.flags & 0x02 == 0,
    ensures
        spec_decode(data, k1) == spec_decode(data, k2),
{
    lemma_decode_is_integrity_then_finish(data, k1);
    lemma_decode_is_integrity_then_finish(data, k2);
    if spec_integrity(data) is Ok {
        let (seg, blocks, f) = spec_integrity(data)->Ok_0;
        lemma_plain_extract_key_free(blocks, k1, k2, seg.bootstrap_nonce);
    }
}

proof fn lemma_offset_step(i: int, count: int, total: int)
    requires
        0 <= i < count,
        0 <= total,
    ensures
        64 + i * total + total == 64 + (i + 1) * total,
        64 + (i + 1) * total <= 64 + count * total,
{
    assert(i * total + total == (i + 1) * total) by (nonlinear_arith);
    assert((i + 1) * total <= count * total) by (nonlinear_arith)
        requires i + 1 <= count, 0 <= total;
}

/// Parse the `count` blocks that follow the bootstrap segment.
fn parse_blocks(data: &[u8], bps: u32, count: u32, has_prefix: bool, prefix_size: usize) -> (r: Result<Vec<Block>>)
    requires
        512 <= bps <= 16777216,
        prefix_size == (if has_prefix { spec_prefix_marker_size(bps) } else { 0int }),
        prefix_size <= 8,
        data@.len() >= 64 + count * (prefix_size + 48 + bps),
    ensures
        match (r, spec_parse_blocks(data@, bps, count, has_prefix, prefix_size as int, 64, 0)) {
            (Ok(b), Ok(m)) => block_views(b@) == m && payloads_fit_all(m, bps),
            (Err(e), Err(d)) => same_error(e, d),
            _ => false,
        },
{
    let total: usize = prefix_size + 48 + bps as usize;
    let ghost whole = spec_parse_blocks(data@, bps, count, has_prefix, prefix_size as int, 64, 0);
    let mut blocks: Vec<Block> = Vec::new();
    let mut offset: usize = 64;
    let mut i: u32 = 0;
    proof {
        assert(block_views(blocks@) + Seq::<BlockModel>::empty() =~= Seq::<BlockModel>::empty());
        match whole {
            Ok(m) => { assert(block_views(blocks@) + m =~= m); },
            Err(e) => {},
        }
    }
    while i < count
        invariant
            512 <= bps <= 16777216,
            prefix_size == (if has_prefix { spec_prefix_marker_size(bps) } else { 0int }),
            prefix_size <= 8,
            total == prefix_size + 48 + bps,
            data@.len() >= 64 + count * total,
            i <= count,
            offset == 64 + i * total,
            whole == spec_parse_blocks(data@, bps, count, has_prefix, prefix_size as int, 64, 0),
            whole == match spec_parse_blocks(data@, bps, count, has_prefix, prefix_size as int, offset as int, i as nat) {
                Ok(rest) => Ok::<Seq<BlockModel>, CbcError>(block_views(blocks@) + rest),
                Err(e) => Err(e),
            },
            payloads_fit_all(block_views(blocks@), bps),
        decreases count - i,
    {
        proof { lemma_offset_step(i as int, count as int, total as int); }
        let is_last = i == count - 1;
        let mut boff = offset;
        if has_prefix {
            let marker_data = slice_subrange(data, offset, data.len());
            proof { assert(marker_data@ =~= data@.skip(offset as int)); }
            let (block_type, payload_size, consumed) = match decode_prefix_marker(marker_data) {
                Ok(f) => f,
                Err(e) => {
                    return Err(e);
                },
            };
            if block_type != BLOCK_TYPE_DATA || payload_size != bps || consumed != prefix_size {
                return Err(CbcError::PrefixParseError("unexpected block prefix marker".to_owned()));
            }
            boff = offset + prefix_size;
        }
        let block_bytes = slice_subrange(data, boff, data.len());
        proof { assert(block_bytes@ =~= data@.skip(boff as int)); }
        let block = match Block::decode(block_bytes, bps, i, is_last) {
            Ok(b) => b,
            Err(e) => {
                return Err(e);
            },
        };
        let ghost before = block_views(blocks@);
        proof {
            broadcast use vstd::array::group_array_axioms;
            crate::bootstrap::lemma_seq_to_array(block.commitment);
            assert(block@ =~= spec_block_at(block_bytes@, bps));
        }
        blocks.push(block);
        proof {
            assert(block_views(blocks@) =~= before.push(block@));
            let rest = spec_parse_blocks(data@, bps, count, has_prefix, prefix_size as int, (boff + 48 + bps) as int, (i + 1) as nat);
            match rest {
                Ok(r2) => { assert(before + (seq![block@] + r2) =~= before.push(block@) + r2); },
                Err(e) => {},
            }
        }
        offset = boff + 48 + bps as usize;
        i = i + 1;
    }
    proof {
        match whole {
            Ok(m) => { assert(block_views(blocks@) + Seq::<BlockModel>::empty() =~= block_views(blocks@)); },
            Err(e) => {},
        }
    }
    Ok(blocks)
}


/// Concatenate the blocks' payloads, decrypting each when `encrypted`.
fn extract_payload(input: Vec<Block>, encrypted: bool, key: Option<[u8; 32]>, nonce: &[u8; 16], bps: u32) -> (r: Result<Vec<u8>>)
    requires
        payloads_fit_all(block_views(input@), bps),
    ensures
        match (r, spec_extract(block_views(input@), encrypted, key, *nonce)) {
            (Ok(v), Ok(s)) => v@ == s,
            (Err(e), Err(d)) => same_error(e, d),
            _ => false,
        },
{
    let ghost orig = block_views(input@);
    let ghost whole = spec_extract(orig, encrypted, key, *nonce);
    let mut blocks = input;
    let mut raw: Vec<u8> = Vec::new();
    let mut i: usize = 0;
    proof {
        assert(orig.skip(0) =~= orig);
        match whole {
            Ok(s) => { assert(raw@ + s =~= s); },
            Err(e) => {},
        }
    }
    while i < blocks.len()
        invariant
            i <= blocks@.len(),
            blocks@.len() == orig.len(),
            orig == block_views(input@),
            forall|j: int| i <= j < orig.len() ==> #[trigger] blocks@[j]@ == orig[j],
            payloads_fit_all(orig, bps),
            whole == spec_extract(orig, encrypted, key, *nonce),
            whole == match spec_extract(orig.skip(i as int), encrypted, key, *nonce) {
                Ok(rest) => Ok::<Seq<u8>, CbcError>(raw@ + rest),
                Err(e) => Err(e),
            },
        decreases blocks@.len() - i,
    {
        proof {
            assert(orig.skip(i as int).drop_first() =~= orig.skip(i + 1));
            assert(orig.skip(i as int)[0] == orig[i as int]);
            assert(blocks@[i as int]@ == orig[i as int]);
            assert(orig[i as int].payload.len() <= bps);
        }
        if encrypted {
            let k = match key {
                Some(k) => k,
                None => {
                    proof {
                        assert(spec_extract(orig.skip(i as int), encrypted, key, *nonce) == Err::<Seq<u8>, CbcError>(CbcError::MissingEncryptionKey));
                        assert(whole == Err::<Seq<u8>, CbcError>(CbcError::MissingEncryptionKey));
                        assert(same_error(CbcError::MissingEncryptionKey, CbcError::MissingEncryptionKey));
                    }
                    return Err(CbcError::MissingEncryptionKey);
                },
            };
            let ghost bi = blocks@[i as int]@;
            match blocks[i].decrypt(&k, nonce, bps) {
                Ok(()) => {},
                Err(e) => {
                    proof {
                        assert(aes256gcm_open(k@, spec_block_nonce(nonce@, bi.header.block_index), bi.payload) is None);
                        assert(spec_extract(orig.skip(i as int), encrypted, key, *nonce) == Err::<Seq<u8>, CbcError>(CbcError::DecryptionError(arbitrary())));
                    }
                    return Err(e);
                },
            }
        }
        let ghost before = raw@;
        append_bytes(&mut raw, blocks[i].payload.as_slice());
        proof {
            let rest = spec_extract(orig.skip(i + 1), encrypted, key, *nonce);
            match rest {
                Ok(r2) => { assert(before + (blocks@[i as int].payload@ + r2) =~= raw@ + r2); },
                Err(e) => {},
            }
        }
        i = i + 1;
    }
    proof {
        assert(orig.skip(orig.len() as int) =~= Seq::<BlockModel>::empty());
        match whole {
            Ok(s) => { assert(raw@ + Seq::<u8>::empty() =~= raw@); },
            Err(e) => {},
        }
    }
    Ok(raw)
}


/// At most one block is the first with a wrong commitment.
proof fn lemma_first_bad_unique(blocks: Seq<BlockModel>, ph: Seq<u8>, c0: [u8; 32], bps: u32, suite: crate::hash::HashSuite, k1: int, k2: int)
    requires
        first_bad_commitment(blocks, ph, c0, bps, suite, k1),
        first_bad_commitment(blocks, ph, c0, bps, suite, k2),
    ensures
        k1 == k2,
{
}

/// Whether two 32-byte hashes are equal.
pub(crate) fn hash_eq(a: &[u8; 32], b: &[u8; 32]) -> (r: bool)
    ensures
        r == (*a == *b),
{
    broadcast use vstd::array::group_array_axioms;
    let r = crate::bytes::bytes_eq(a.as_slice(), b.as_slice());
    proof {
        if r {
            assert(*a =~= *b);
        }
    }
    r
}

/// What passed the integrity checks: the segment, the blocks, the roots
/// and the footer.
struct Checked {
    bootstrap: BootstrapSegment,
    blocks: Vec<Block>,
    chain_root: [u8; 32],
    merkle_root: Option<[u8; 32]>,
    footer: StreamFooter,
}

/// Run every integrity check of an artifact, in order, without touching
/// its payload beyond the block checksums and commitments.
fn check_integrity(data: &[u8]) -> (r: Result<Checked>)
    ensures
        match (r, spec_integrity(data@)) {
            (Ok(c), Ok((seg, m, f))) => {
                &&& c.bootstrap == seg
                &&& block_views(c.blocks@) == m
                &&& payloads_fit_all(m, seg.block_payload_size)
                &&& c.chain_root == spec_chain_root(seg, m)
                &&& c.merkle_root == spec_merkle_of(seg, m)
                &&& c.footer@ == f
            },
            (Err(e), Err(x)) => same_error(e, x),
            _ => false,
        },
{
    // 1. Parse and verify the bootstrap segment (params_mac)
    if data.len() < BOOTSTRAP_SIZE {
        return Err(CbcError::InsufficientData { need: BOOTSTRAP_SIZE, have: data.len() });
    }
    let mut bootstrap_bytes = [0u8; 64];
    fill_array(&mut bootstrap_bytes, slice_subrange(data, 0, 64));
    proof { assert(bootstrap_bytes@ =~= data@.take(64)); }
    let bootstrap = match BootstrapSegment::decode(&bootstrap_bytes) {
        Ok(b) => b,
        Err(e) => {
            return Err(e);
        },
    };
    let block_payload_size = bootstrap.block_payload_size;
    let block_count = bootstrap.block_count;
    let suite = bootstrap.hash_suite;
    let params_canonical = bootstrap.params_canonical();
    let params_hash = compute_params_hash(&params_canonical, suite);
    let has_merkle = bootstrap.family_b();
    let has_prefix = bootstrap.family_c();

    let prefix_size: usize = if has_prefix { prefix_marker_size(block_payload_size) } else { 0 };
    let wire_size: usize = 48 + block_payload_size as usize;
    let block_total_size: usize = prefix_size + wire_size;
    proof {
        assert(block_total_size as int == spec_block_total(bootstrap));
        assert((block_count as u64) * (block_total_size as u64) <= 0xFFFF_FFFF * 16777280) by (nonlinear_arith)
            requires block_count <= 0xFFFF_FFFF, block_total_size <= 16777280;
    }
    let blocks_end: u64 = 64 + (block_count as u64) * (block_total_size as u64);
    if (data.len() as u64) < blocks_end {
        return Err(CbcError::InsufficientData { need: blocks_end as usize, have: data.len() });
    }

    // 2. Parse all blocks
    let blocks = match parse_blocks(data, block_payload_size, block_count, has_prefix, prefix_size) {
        Ok(b) => b,
        Err(e) => {
            return Err(e);
        },
    };
    let ghost models = block_views(blocks@);

    // 3. Verify chain commitments (Family A)
    let padded_payloads = padded_payloads_of(&blocks, block_payload_size, Ghost(models));
    let chain_root = match verify_chain(&params_canonical, &bootstrap.bootstrap_nonce, blocks.as_slice(), block_payload_size, suite) {
        Ok(root) => root,
        Err(e) => {
            proof {
                let ph = spec_params_hash(params_canonical@, suite)@;
                let c0 = spec_c0(params_canonical@, bootstrap.bootstrap_nonce@, suite);
                let k = choose|k: int| {
                    &&& 0 <= k < models.len()
                    &&& e == CbcError::ChainCommitmentMismatch { index: k as u32 }
                    &&& models[k].commitment != chain_link(ph, c0, models, block_payload_size, suite, (k + 1) as nat)
                    &&& forall|j: int| 0 <= j < k ==> models[j].commitment == chain_link(ph, c0, models, block_payload_size, suite, (j + 1) as nat)
                };
                assert(first_bad_commitment(models, ph, c0, block_payload_size, suite, k));
                let k2 = choose|k: int| first_bad_commitment(models, ph, c0, block_payload_size, suite, k);
                lemma_first_bad_unique(models, ph, c0, block_payload_size, suite, k, k2);
            }
            return Err(e);
        },
    };

    // 4. Merkle root (Family B)
    let merkle_root = if has_merkle {
        let tree = MerkleTree::build(&params_hash, padded_payloads.as_slice(), suite);
        Some(tree.root)
    } else {
        None
    };

    // 5. Parse and verify the footer
    let offset = blocks_end as usize;
    let footer_data = slice_subrange(data, offset, data.len());
    proof { assert(footer_data@ =~= data@.skip(offset as int)); }
    let footer = match StreamFooter::decode(footer_data, has_merkle, &params_hash, suite) {
        Ok(f) => f,
        Err(e) => {
            return Err(e);
        },
    };

    // 6. The footer's roots must match the computed ones
    if !hash_eq(&footer.chain_root, &chain_root) {
        return Err(CbcError::ChainRootMismatch);
    }
    match (merkle_root, footer.merkle_root) {
        (Some(computed), Some(footer_merkle)) => {
            if !hash_eq(&computed, &footer_merkle) {
                return Err(CbcError::MerkleRootMismatch);
            }
        },
        _ => {},
    }

    Ok(Checked { bootstrap, blocks, chain_root, merkle_root, footer })
}

/// Validate and decode a CBC artifact.
///
/// Returns the decoded payload only if all validation checks pass.
pub fn decode(data: &[u8], key: Option<[u8; 32]>) -> (r: Result<DecodedArtifact>)
    ensures
        match (r, spec_decode(data@, key)) {
            (Ok(d), Ok(v)) => d@ == v,
            (Err(e), Err(x)) => same_error(e, x),
            _ => false,
        },
{
    proof { lemma_decode_is_integrity_then_finish(data@, key); }
    let checked = match check_integrity(data) {
        Ok(c) => c,
        Err(e) => {
            return Err(e);
        },
    };
    let Checked { bootstrap, blocks, chain_root, merkle_root, footer } = checked;
    let block_payload_size = bootstrap.block_payload_size;
    let block_count = bootstrap.block_count;

    // 7. Extract the payload
    let is_encrypted = bootstrap.flags & FLAG_ENCRYPTED != 0;
    let is_compressed = bootstrap.flags & FLAG_COMPRESSED != 0;
    let raw_payload = match extract_payload(blocks, is_encrypted, key, &bootstrap.bootstrap_nonce, block_payload_size) {
        Ok(p) => p,
        Err(e) => {
            return Err(e);
        },
    };

    // 8. Optional decompression
    let final_payload = if is_compressed {
        match decompress(raw_payload.as_slice()) {
            Ok(p) => p,
            Err(s) => {
                return Err(CbcError::DecompressionError(s));
            },
        }
    } else {
        raw_payload
    };

    let receipt_slots = footer.receipt_slots;
    Ok(DecodedArtifact {
        bootstrap,
        payload: final_payload,
        chain_root,
        merkle_root,
        receipt_slots,
        block_count,
    })
}

/// Validate a CBC artifact without extracting payload: every integrity
/// check of the decoder (segment, block structure and checksums, chain
/// commitments, footer and its commitment, chain and Merkle roots), with
/// no decryption and no decompression, so no key is needed.
/// Returns Ok(()) if valid.
pub fn validate(data: &[u8]) -> (r: Result<()>)
    ensures
        match (r, spec_integrity(data@)) {
            (Ok(()), Ok(_)) => true,
            (Err(e), Err(x)) => same_error(e, x),
            _ => false,
        },
{
    match check_integrity(data) {
        Ok(_) => Ok(()),
        Err(e) => Err(e),
    }
}

/// The block count of an artifact that passes every integrity check.
pub(crate) fn validated_block_count(data: &[u8]) -> (r: Result<u32>)
    ensures
        match (r, spec_integrity(data@)) {
            (Ok(n), Ok((seg, _, _))) => n == seg.block_count,
            (Err(e), Err(x)) => same_error(e, x),
            _ => false,
        },
{
    match check_integrity(data) {
        Ok(c) => Ok(c.bootstrap.block_count),
        Err(e) => Err(e),
    }
}

/// A decoded artifact's segment is a valid one.
pub proof fn lemma_decoded_segment(data: Seq<u8>, key: Option<[u8; 32]>)
    ensures
        spec_decode(data, key) matches Ok(d) ==> valid_segment(d.bootstrap)
            && d.bootstrap == spec_decode_bootstrap(data.take(64))->Ok_0,
{
    crate::bootstrap::lemma_decoded_valid(data.take(64));
}

/// Unencrypted blocks always yield their payload.
proof fn lemma_plain_extract(blocks: Seq<BlockModel>, key: Option<[u8; 32]>, nonce: [u8; 16])
    ensures
        spec_extract(blocks, false, key, nonce) is Ok,
    decreases blocks.len(),
{
    if blocks.len() > 0 {
        lemma_plain_extract(blocks.drop_first(), key, nonce);
    }
}

/// For an artifact neither encrypted nor compressed, validation and
/// decoding agree: it passes validation exactly when it decodes, under any
/// key.
pub proof fn lemma_plain_validate_is_decode(data: Seq<u8>, key: Option<[u8; 32]>)
    requires
        data.len() >= 64,
        spec_decode_bootstrap(data.take(64)) matches Ok(seg) && seg.flags & 0x03 == 0,
    ensures
        spec_integrity(data) is Ok <==> spec_decode(data, key) is Ok,
{
    lemma_decode_is_integrity_then_finish(data, key);
    if let Ok((seg, blocks, f)) = spec_integrity(data) {
        lemma_plain_extract(blocks, key, seg.bootstrap_nonce);
        let fl = seg.flags;
        assert(fl & 0x02 == 0 && fl & 0x01 == 0) by (bit_vector)
            requires fl & 0x03 == 0;
    }
}

/// `data` with the block slots `i` and `j` exchanged (`i < j`): slots are
/// `t` bytes long, marker included, and the first begins at offset 64.
pub open spec fn swap_block_slots(data: Seq<u8>, t: int, i: int, j: int) -> Seq<u8> {
    let si = 64 + i * t;
    let sj = 64 + j * t;
    data.subrange(0, si) + data.subrange(sj, sj + t) + data.subrange(si + t, sj) + data.subrange(si, si + t) + data.skip(sj + t)
}

/// The marker bytes before a block: `prefix_size` with markers, else none.
pub open spec fn marker_len(has_prefix: bool, prefix_size: int) -> int {
    if has_prefix { prefix_size } else { 0int }
}

/// Blocks that parse carry their own positions: the header in slot `m`
/// names block `m`, and the slot is whole.
proof fn lemma_parsed_indices(data: Seq<u8>, bps: u32, count: u32, has_prefix: bool, prefix_size: int, off: int, i: nat, m: int)
    requires
        spec_parse_blocks(data, bps, count, has_prefix, prefix_size, off, i) is Ok,
        i <= m < count,
        prefix_size >= 0,
        off >= 0,
    ensures
        ({
            let t = marker_len(has_prefix, prefix_size) + 48 + bps;
            let b = data.skip(off + (m - i) * t + marker_len(has_prefix, prefix_size));
            &&& b.len() >= 48 + bps
            &&& spec_decode_header(b.subrange(0, 16)).block_index == m
        }),
    decreases m - i,
{
    let t = marker_len(has_prefix, prefix_size) + 48 + bps;
    if m > i {
        lemma_parsed_indices(data, bps, count, has_prefix, prefix_size, off + t, i + 1, m);
        assert((m - i) * t == (m - (i + 1)) * t + t) by (nonlinear_arith);
    }
}

/// Parsing fails from slot `i` on when the header in a later slot `bad`
/// does not name its position.
proof fn lemma_misplaced_block(data: Seq<u8>, bps: u32, count: u32, has_prefix: bool, prefix_size: int, i: nat, bad: int)
    requires
        i <= bad < count,
        prefix_size >= 0,
        ({
            let t = marker_len(has_prefix, prefix_size) + 48 + bps;
            let b = data.skip(64 + bad * t + marker_len(has_prefix, prefix_size));
            &&& b.len() >= 48 + bps
            &&& spec_decode_header(b.subrange(0, 16)).block_index != bad
        }),
    ensures
        spec_parse_blocks(data, bps, count, has_prefix, prefix_size, 64 + i * (marker_len(has_prefix, prefix_size) + 48 + bps), i) is Err,
    decreases bad - i,
{
    let t = marker_len(has_prefix, prefix_size) + 48 + bps;
    assert(i * t >= 0) by (nonlinear_arith) requires t >= 0;
    if i < bad {
        lemma_misplaced_block(data, bps, count, has_prefix, prefix_size, i + 1, bad);
        assert(64 + i * t + t == 64 + (i + 1) * t) by (nonlinear_arith);
    }
}

/// Reordering is detected: exchanging two blocks of an artifact that
/// decodes makes it fail to decode.
pub proof fn lemma_reorder_rejected(data: Seq<u8>, key: Option<[u8; 32]>, i: int, j: int)
    requires
        spec_decode(data, key) is Ok,
        0 <= i < j < spec_decode_bootstrap(data.take(64))->Ok_0.block_count,
    ensures
        spec_decode(swap_block_slots(data, spec_block_total(spec_decode_bootstrap(data.take(64))->Ok_0), i, j), key) is Err,
{
    let seg = spec_decode_bootstrap(data.take(64))->Ok_0;
    let bps = seg.block_payload_size;
    let count = seg.block_count;
    let hp = seg.commitment_mode & 0x04 != 0;
    let ps = if hp { spec_prefix_marker_size(bps) } else { 0int };
    let t = spec_block_total(seg);
    let ml = marker_len(hp, ps);
    let end = 64 + count * t;
    crate::bootstrap::lemma_decoded_valid(data.take(64));
    crate::prefix::lemma_marker_size_small(bps);
    assert(ps >= 0);
    assert(t == ml + 48 + bps);
    let d2 = swap_block_slots(data, t, i, j);
    let si = 64 + i * t;
    let sj = 64 + j * t;
    assert(si + t <= sj && sj + t <= end && si >= 64) by (nonlinear_arith)
        requires 0 <= i < j < count, t > 0, si == 64 + i * t, sj == 64 + j * t, end == 64 + count * t;
    assert(d2.len() == data.len());
    assert(d2.take(64) =~= data.take(64));
    lemma_parsed_indices(data, bps, count, hp, ps, 64, 0, j);
    let bj = data.skip(sj + ml);
    let bi = d2.skip(si + ml);
    assert(bi.subrange(0, 16) =~= bj.subrange(0, 16)) by {
        assert forall|x: int| 0 <= x < 16 implies bi.subrange(0, 16)[x] == bj.subrange(0, 16)[x] by {
            assert(d2[si + ml + x] == data[sj + ml + x]);
        }
    }
    lemma_misplaced_block(d2, bps, count, hp, ps, 0, i);
    assert(0 * t == 0);
}

/// A changed params MAC is refused: an artifact that differs from one that
/// decodes only in its MAC field (bytes 40..56) does not decode.
pub proof fn lemma_mac_tamper_rejected(data: Seq<u8>, data2: Seq<u8>, key: Option<[u8; 32]>)
    requires
        spec_decode(data, key) is Ok,
        data2.len() == data.len(),
        data2.subrange(0, 40) == data.subrange(0, 40),
        data2.subrange(56, 64) == data.subrange(56, 64),
        data2.subrange(40, 56) != data.subrange(40, 56),
    ensures
        spec_decode(data2, key) == Err::<DecodedView, CbcError>(CbcError::ParamsMacMismatch),
{
    let b = data.take(64);
    let b2 = data2.take(64);
    assert(b2.subrange(0, 40) =~= data2.subrange(0, 40));
    assert(b.subrange(0, 40) =~= data.subrange(0, 40));
    assert(b2.subrange(56, 64) =~= data2.subrange(56, 64));
    assert(b.subrange(56, 64) =~= data.subrange(56, 64));
    assert(b2.subrange(40, 56) =~= data2.subrange(40, 56));
    assert(b.subrange(40, 56) =~= data.subrange(40, 56));
    crate::bootstrap::lemma_mac_change_rejected(b, b2);
}

/// A marker check reads only the first eight bytes (and the length).
proof fn lemma_marker_congruent(x: Seq<u8>, y: Seq<u8>, bps: u32, prefix_size: int)
    requires
        x.len() == y.len(),
        x.len() >= 8,
        forall|i: int| 0 <= i < 8 ==> x[i] == y[i],
    ensures
        marker_bad(x, bps, prefix_size) == marker_bad(y, bps, prefix_size),
{
    let xs = x.skip(3);
    let ys = y.skip(3);
    assert forall|i: int| 0 <= i < 5 implies xs[i] == ys[i] by {
        assert(xs[i] == x[i + 3] && ys[i] == y[i + 3]);
    }
    assert(varint_ok(xs) == varint_ok(ys)) by {
        if varint_ok(xs) {
            let i = choose|i: int| 0 <= i < xs.len() && i < 5 && xs[i] < 128;
            assert(ys[i] < 128);
        }
        if varint_ok(ys) {
            let i = choose|i: int| 0 <= i < ys.len() && i < 5 && ys[i] < 128;
            assert(xs[i] < 128);
        }
    }
    if marker_ok(x) {
        crate::prefix::lemma_varint_ok_len(xs);
        crate::prefix::lemma_varint_ok_len(ys);
        let n = varint_len(xs);
        assert(varint_terminates_at(ys, n));
        crate::prefix::lemma_varint_end_unique(ys, n, varint_len(ys));
        assert(xs.take(n) =~= ys.take(n));
        assert(spec_marker_fields(x) == spec_marker_fields(y));
    }
}

/// A block check reads only the header and the payload area (and the
/// length).
proof fn lemma_block_error_congruent(x: Seq<u8>, y: Seq<u8>, bps: u32, idx: u32, last: bool)
    requires
        x.len() == y.len(),
        x.len() >= 48 + bps,
        forall|i: int| 0 <= i < 16 + bps ==> x[i] == y[i],
    ensures
        spec_block_error(x, bps, idx, last) == spec_block_error(y, bps, idx, last),
        spec_block_at(x, bps).header == spec_block_at(y, bps).header,
        spec_decode_header(x.subrange(0, 16)).payload_length <= bps ==> spec_block_at(x, bps).payload == spec_block_at(y, bps).payload,
{
    assert(x.subrange(0, 16) =~= y.subrange(0, 16));
    assert(x.subrange(16, 16 + bps) =~= y.subrange(16, 16 + bps));
    let pl = spec_decode_header(x.subrange(0, 16)).payload_length;
    if pl <= bps {
        assert(x.subrange(16, 16 + pl) =~= y.subrange(16, 16 + pl));
    }
}

/// The parse of an artifact whose commitment bytes of block `k` were
/// changed: the same blocks, but for block `k`'s commitment, which is the
/// changed bytes.
#[verifier::rlimit(80)]
#[verifier::spinoff_prover]
proof fn lemma_parse_commitment_change(
    data: Seq<u8>,
    data2: Seq<u8>,
    bps: u32,
    count: u32,
    has_prefix: bool,
    prefix_size: int,
    i: nat,
    k: int,
)
    requires
        data.len() == data2.len(),
        512 <= bps,
        0 <= prefix_size <= 8,
        i <= count,
        0 <= k < count,
        64 + count * (marker_len(has_prefix, prefix_size) + 48 + bps) <= data.len(),
        ({
            let ck = 64 + k * (marker_len(has_prefix, prefix_size) + 48 + bps) + marker_len(has_prefix, prefix_size) + 16 + bps;
            forall|x: int| 0 <= x < data.len() && !(ck <= x < ck + 32) ==> data2[x] == data[x]
        }),
        spec_parse_blocks(data, bps, count, has_prefix, prefix_size, 64 + i * (marker_len(has_prefix, prefix_size) + 48 + bps), i) is Ok,
    ensures
        ({
            let t = marker_len(has_prefix, prefix_size) + 48 + bps;
            let ck = 64 + k * t + marker_len(has_prefix, prefix_size) + 16 + bps;
            match (spec_parse_blocks(data, bps, count, has_prefix, prefix_size, 64 + i * t, i),
                spec_parse_blocks(data2, bps, count, has_prefix, prefix_size, 64 + i * t, i)) {
                (Ok(a), Ok(b)) => {
                    &&& a.len() == b.len()
                    &&& a.len() == count - i
                    &&& forall|j: int| 0 <= j < a.len() ==> (#[trigger] a[j]).header == b[j].header && a[j].payload == b[j].payload
                    &&& forall|j: int| 0 <= j < a.len() && i + j != k ==> (#[trigger] a[j]).commitment == b[j].commitment
                    &&& (i <= k ==> b[k - i].commitment == seq_to_array::<32>(data2.subrange(ck, ck + 32))
                        && a[k - i].commitment == seq_to_array::<32>(data.subrange(ck, ck + 32)))
                },
                _ => false,
            }
        }),
    decreases count - i,
{
    let ml = marker_len(has_prefix, prefix_size);
    let t = ml + 48 + bps;
    let ck = 64 + k * t + ml + 16 + bps;
    let off = 64 + i * t;
    if i < count {
        let boff = if has_prefix { off + prefix_size } else { off };
        assert(boff == off + ml);
        assert(off + t <= 64 + count * t) by (nonlinear_arith) requires i < count, t > 0, off == 64 + i * t;
        assert(off >= 64) by (nonlinear_arith) requires t > 0, off == 64 + i * t;
        // where the changed window lies relative to slot i
        assert(i < k ==> off + t + ml + 16 + bps <= ck) by (nonlinear_arith)
            requires off == 64 + i * t, ck == 64 + k * t + ml + 16 + bps, t > 0;
        if i > k {
            assert(i * t >= (k + 1) * t) by (nonlinear_arith) requires i >= k + 1, t > 0;
            assert((k + 1) * t == k * t + t) by (nonlinear_arith);
        }
        assert(i == k ==> ck == boff + 16 + bps);
        if has_prefix {
            assert forall|x: int| 0 <= x < 8 implies data.skip(off)[x] == data2.skip(off)[x] by {
                assert(data.skip(off)[x] == data[off + x]);
                assert(data2.skip(off)[x] == data2[off + x]);
            }
            lemma_marker_congruent(data.skip(off), data2.skip(off), bps, prefix_size);
        }
        let bb = data.skip(boff);
        let bb2 = data2.skip(boff);
        assert forall|x: int| 0 <= x < 16 + bps implies bb[x] == bb2[x] by {
            assert(bb[x] == data[boff + x]);
            assert(bb2[x] == data2[boff + x]);
        }
        lemma_block_error_congruent(bb, bb2, bps, i as u32, i == count - 1);
        assert(boff + 48 + bps == off + t);
        let next = boff + 48 + bps;
        assert(next == 64 + (i + 1) * t) by (nonlinear_arith) requires next == off + t, off == 64 + i * t;
        if spec_block_error(bb, bps, i as u32, i == count - 1) is None {
            lemma_parse_commitment_change(data, data2, bps, count, has_prefix, prefix_size, i + 1, k);
            let a1 = spec_block_at(bb, bps);
            let b1 = spec_block_at(bb2, bps);
            assert(bb.subrange(16 + bps, 48 + bps) =~= data.subrange(boff + 16 + bps, boff + 48 + bps));
            assert(bb2.subrange(16 + bps, 48 + bps) =~= data2.subrange(boff + 16 + bps, boff + 48 + bps));
            if i != k {
                assert(bb.subrange(16 + bps, 48 + bps) =~= bb2.subrange(16 + bps, 48 + bps)) by {
                    assert forall|x: int| 16 + bps <= x < 48 + bps implies bb[x] == bb2[x] by {
                        assert(bb[x] == data[boff + x]);
                        assert(bb2[x] == data2[boff + x]);
                    }
                }
            }
            let ra = spec_parse_blocks(data, bps, count, has_prefix, prefix_size, next, i + 1)->Ok_0;
            let rb = spec_parse_blocks(data2, bps, count, has_prefix, prefix_size, next, i + 1)->Ok_0;
            let a = seq![a1] + ra;
            let b = seq![b1] + rb;
            assert forall|j: int| 0 <= j < a.len() implies (#[trigger] a[j]).header == b[j].header && a[j].payload == b[j].payload by {
                if j > 0 {
                    assert(a[j] == ra[j - 1] && b[j] == rb[j - 1]);
                }
            }
            assert forall|j: int| 0 <= j < a.len() && i + j != k implies (#[trigger] a[j]).commitment == b[j].commitment by {
                if j > 0 {
                    assert(a[j] == ra[j - 1] && b[j] == rb[j - 1]);
                }
            }
            if i < k {
                assert(a[k - i] == ra[k - (i + 1)] && b[k - i] == rb[k - (i + 1)]);
            }
        }
    }
}


/// Where block `k`'s stored commitment starts: the last 32 bytes of its
/// slot.
pub open spec fn commitment_offset(seg: BootstrapSegment, k: int) -> int {
    64 + k * spec_block_total(seg) + spec_block_total(seg) - 32
}

/// A changed stored commitment is refused: an artifact that differs from
/// one that decodes only in the 32 commitment bytes of one block, and
/// there somewhere, does not decode.
pub proof fn lemma_commitment_tamper_rejected(data: Seq<u8>, data2: Seq<u8>, key: Option<[u8; 32]>, k: int)
    requires
        spec_decode(data, key) is Ok,
        0 <= k < spec_decode_bootstrap(data.take(64))->Ok_0.block_count,
        data2.len() == data.len(),
        ({
            let ck = commitment_offset(spec_decode_bootstrap(data.take(64))->Ok_0, k);
            &&& forall|x: int| 0 <= x < data.len() && !(ck <= x < ck + 32) ==> data2[x] == data[x]
            &&& data2.subrange(ck, ck + 32) != data.subrange(ck, ck + 32)
        }),
    ensures
        spec_decode(data2, key) is Err,
{
    let seg = spec_decode_bootstrap(data.take(64))->Ok_0;
    let bps = seg.block_payload_size;
    let count = seg.block_count;
    let hp = seg.commitment_mode & 0x04 != 0;
    let ps = if hp { spec_prefix_marker_size(bps) } else { 0int };
    let ml = marker_len(hp, ps);
    let t = spec_block_total(seg);
    let ck = 64 + k * t + ml + 16 + bps;
    crate::bootstrap::lemma_decoded_valid(data.take(64));
    crate::prefix::lemma_marker_size_small(bps);
    assert(t == ml + 48 + bps);
    assert(ck >= 64) by (nonlinear_arith) requires k >= 0, t > 0, ck == 64 + k * t + ml + 16 + bps, ml >= 0;
    assert(data2.take(64) =~= data.take(64)) by {
        assert forall|x: int| 0 <= x < 64 implies data2.take(64)[x] == data.take(64)[x] by {
            assert(!(ck <= x < ck + 32));
        }
    }
    assert(0 * t == 0);
    lemma_parse_commitment_change(data, data2, bps, count, hp, ps, 0, k);
    let a = spec_parse_blocks(data, bps, count, hp, ps, 64, 0)->Ok_0;
    let b = spec_parse_blocks(data2, bps, count, hp, ps, 64, 0)->Ok_0;
    let params = spec_params(seg);
    let ph = spec_params_hash(params, seg.hash_suite)@;
    let c0 = spec_c0(params, seg.bootstrap_nonce@, seg.hash_suite);
    // in the intact artifact every stored commitment is the chain value
    if a[k].commitment != chain_link(ph, c0, a, bps, seg.hash_suite, (k + 1) as nat) {
        lemma_first_bad_exists(a, ph, c0, bps, seg.hash_suite, k);
    }
    crate::roundtrip::lemma_chain_link_congruent(ph, c0, a, b, bps, seg.hash_suite, (k + 1) as nat);
    // the changed bytes make a different commitment
    assert(ck + 32 <= data.len()) by {
        assert(ck + 32 == 64 + (k + 1) * t) by (nonlinear_arith) requires ck == 64 + k * t + ml + 16 + bps, t == ml + 48 + bps;
        assert((k + 1) * t <= count * t) by (nonlinear_arith) requires k + 1 <= count, t > 0;
    }
    let w1 = data.subrange(ck, ck + 32);
    let w2 = data2.subrange(ck, ck + 32);
    lemma_array_of_32(w1);
    lemma_array_of_32(w2);
    assert(b[k].commitment != a[k].commitment);
    lemma_first_bad_exists(b, ph, c0, bps, seg.hash_suite, k);
}

/// Parsing blocks reads only the block region.
#[verifier::rlimit(40)]
proof fn lemma_parse_congruent(data: Seq<u8>, data2: Seq<u8>, bps: u32, count: u32, has_prefix: bool, prefix_size: int, i: nat)
    requires
        data.len() == data2.len(),
        512 <= bps,
        0 <= prefix_size <= 8,
        i <= count,
        64 + count * (marker_len(has_prefix, prefix_size) + 48 + bps) <= data.len(),
        forall|x: int| 0 <= x < 64 + count * (marker_len(has_prefix, prefix_size) + 48 + bps) ==> data2[x] == data[x],
    ensures
        spec_parse_blocks(data2, bps, count, has_prefix, prefix_size, 64 + i * (marker_len(has_prefix, prefix_size) + 48 + bps), i)
            == spec_parse_blocks(data, bps, count, has_prefix, prefix_size, 64 + i * (marker_len(has_prefix, prefix_size) + 48 + bps), i),
    decreases count - i,
{
    let ml = marker_len(has_prefix, prefix_size);
    let t = ml + 48 + bps;
    let off = 64 + i * t;
    if i < count {
        let boff = if has_prefix { off + prefix_size } else { off };
        assert(off + t <= 64 + count * t) by (nonlinear_arith) requires i < count, t > 0, off == 64 + i * t;
        assert(off >= 64) by (nonlinear_arith) requires t > 0, off == 64 + i * t;
        if has_prefix {
            assert forall|x: int| 0 <= x < 8 implies data.skip(off)[x] == data2.skip(off)[x] by {
                assert(data.skip(off)[x] == data[off + x]);
                assert(data2.skip(off)[x] == data2[off + x]);
            }
            lemma_marker_congruent(data.skip(off), data2.skip(off), bps, prefix_size);
        }
        let bb = data.skip(boff);
        let bb2 = data2.skip(boff);
        assert forall|x: int| 0 <= x < 48 + bps implies bb[x] == bb2[x] by {
            assert(bb[x] == data[boff + x]);
            assert(bb2[x] == data2[boff + x]);
        }
        lemma_block_error_congruent(bb, bb2, bps, i as u32, i == count - 1);
        let next = boff + 48 + bps;
        assert(next == 64 + (i + 1) * t) by (nonlinear_arith) requires next == off + t, off == 64 + i * t;
        lemma_parse_congruent(data, data2, bps, count, has_prefix, prefix_size, i + 1);
        if spec_block_error(bb, bps, i as u32, i == count - 1) is None {
            assert(bb.subrange(16 + bps, 48 + bps) =~= bb2.subrange(16 + bps, 48 + bps));
            assert(spec_block_at(bb, bps) == spec_block_at(bb2, bps));
        }
    }
}

/// A changed chain root in the footer is refused: an artifact that differs
/// from one that decodes only in the footer's chain root field (32 bytes
/// from the 8th byte of the footer), and there somewhere, does not decode.
pub proof fn lemma_footer_root_tamper_rejected(data: Seq<u8>, data2: Seq<u8>, key: Option<[u8; 32]>)
    requires
        spec_decode(data, key) is Ok,
        data2.len() == data.len(),
        ({
            let seg = spec_decode_bootstrap(data.take(64))->Ok_0;
            let end = 64 + seg.block_count * spec_block_total(seg);
            &&& forall|x: int| 0 <= x < data.len() && !(end + 8 <= x < end + 40) ==> data2[x] == data[x]
            &&& data2.subrange(end + 8, end + 40) != data.subrange(end + 8, end + 40)
        }),
    ensures
        spec_decode(data2, key) is Err,
{
    let seg = spec_decode_bootstrap(data.take(64))->Ok_0;
    let bps = seg.block_payload_size;
    let count = seg.block_count;
    let hp = seg.commitment_mode & 0x04 != 0;
    let ps = if hp { spec_prefix_marker_size(bps) } else { 0int };
    let ml = marker_len(hp, ps);
    let t = spec_block_total(seg);
    let end = 64 + count * t;
    crate::bootstrap::lemma_decoded_valid(data.take(64));
    crate::prefix::lemma_marker_size_small(bps);
    assert(t == ml + 48 + bps);
    assert(end >= 64) by (nonlinear_arith) requires t > 0, end == 64 + count * t;
    assert(data2.take(64) =~= data.take(64));
    assert(0 * t == 0);
    lemma_parse_congruent(data, data2, bps, count, hp, ps, 0);
    let f = data.skip(end);
    let f2 = data2.skip(end);
    let has_merkle = seg.commitment_mode & 0x02 != 0;
    let ph = spec_params_hash(spec_params(seg), seg.hash_suite)@;
    assert(f.len() >= 40 && f2.len() == f.len());
    assert forall|x: int| 0 <= x < f.len() && !(8 <= x < 40) implies f2[x] == f[x] by {
        assert(f[x] == data[end + x] && f2[x] == data2[end + x]);
    }
    assert(f2.subrange(8, 40) != f.subrange(8, 40)) by {
        assert(f2.subrange(8, 40) =~= data2.subrange(end + 8, end + 40));
        assert(f.subrange(8, 40) =~= data.subrange(end + 8, end + 40));
    }
    crate::footer::lemma_footer_root_change(f, f2, has_merkle, ph, seg.hash_suite);
}

/// Parsing the blocks from slot `i` on meets block `k`'s CRC-32C check
/// failing when one byte of its padded payload was changed.
#[verifier::rlimit(40)]
proof fn lemma_parse_payload_change(
    data: Seq<u8>,
    data2: Seq<u8>,
    bps: u32,
    count: u32,
    has_prefix: bool,
    prefix_size: int,
    i: nat,
    k: int,
    p: int,
)
    requires
        data.len() == data2.len(),
        512 <= bps,
        0 <= prefix_size <= 8,
        i <= k < count,
        0 <= p < bps,
        64 + count * (marker_len(has_prefix, prefix_size) + 48 + bps) <= data.len(),
        ({
            let at = 64 + k * (marker_len(has_prefix, prefix_size) + 48 + bps) + marker_len(has_prefix, prefix_size) + 16 + p;
            &&& data2[at] != data[at]
            &&& forall|x: int| 0 <= x < data.len() && x != at ==> data2[x] == data[x]
        }),
        spec_parse_blocks(data, bps, count, has_prefix, prefix_size, 64 + i * (marker_len(has_prefix, prefix_size) + 48 + bps), i) is Ok,
    ensures
        spec_parse_blocks(data2, bps, count, has_prefix, prefix_size, 64 + i * (marker_len(has_prefix, prefix_size) + 48 + bps), i) is Err,
    decreases count - i,
{
    let ml = marker_len(has_prefix, prefix_size);
    let t = ml + 48 + bps;
    let at = 64 + k * t + ml + 16 + p;
    let off = 64 + i * t;
    let boff = if has_prefix { off + prefix_size } else { off };
    assert(boff == off + ml);
    assert(off + t <= 64 + count * t) by (nonlinear_arith) requires i < count, t > 0, off == 64 + i * t;
    assert(off >= 64) by (nonlinear_arith) requires t > 0, off == 64 + i * t;
    assert(i < k ==> off + t <= 64 + k * t) by (nonlinear_arith) requires off == 64 + i * t, t > 0;
    assert(i == k ==> at == boff + 16 + p);
    if has_prefix {
        assert forall|x: int| 0 <= x < 8 implies data.skip(off)[x] == data2.skip(off)[x] by {
            assert(data.skip(off)[x] == data[off + x]);
            assert(data2.skip(off)[x] == data2[off + x]);
        }
        lemma_marker_congruent(data.skip(off), data2.skip(off), bps, prefix_size);
    }
    let bb = data.skip(boff);
    let bb2 = data2.skip(boff);
    assert(boff + 48 + bps == off + t);
    let next = boff + 48 + bps;
    assert(next == 64 + (i + 1) * t) by (nonlinear_arith) requires next == off + t, off == 64 + i * t;
    if i < k {
        assert forall|x: int| 0 <= x < 16 + bps implies bb[x] == bb2[x] by {
            assert(bb[x] == data[boff + x]);
            assert(bb2[x] == data2[boff + x]);
        }
        lemma_block_error_congruent(bb, bb2, bps, i as u32, i == count - 1);
        lemma_parse_payload_change(data, data2, bps, count, has_prefix, prefix_size, i + 1, k, p);
    } else {
        // the header is untouched; the padded payload differs in byte p
        assert(bb.subrange(0, 16) =~= bb2.subrange(0, 16)) by {
            assert forall|x: int| 0 <= x < 16 implies bb.subrange(0, 16)[x] == bb2.subrange(0, 16)[x] by {
                assert(bb[x] == data[boff + x]);
                assert(bb2[x] == data2[boff + x]);
            }
        }
        let s1 = bb.subrange(16, 16 + bps);
        let s2 = bb2.subrange(16, 16 + bps);
        assert(s1[p] == data[at] && s2[p] == data2[at]);
        assert forall|x: int| 0 <= x < s1.len() && x != p implies s1[x] == s2[x] by {
            assert(s1[x] == data[boff + 16 + x]);
            assert(s2[x] == data2[boff + 16 + x]);
        }
        crate::block::lemma_crc32c_detects_one_byte(s1, s2, p);
    }
}

/// Where block `k`'s padded payload starts: `block_payload_size` bytes
/// before its stored commitment.
pub open spec fn payload_offset(seg: BootstrapSegment, k: int) -> int {
    commitment_offset(seg, k) - seg.block_payload_size
}

/// A changed byte of a block's padded payload, a flipped bit among them,
/// is refused: an artifact that differs from one that decodes in exactly
/// one byte of some block's padded payload does not decode, as that
/// block's CRC-32C check fails.
pub proof fn lemma_payload_byte_tamper_rejected(data: Seq<u8>, data2: Seq<u8>, key: Option<[u8; 32]>, k: int, p: int)
    requires
        spec_decode(data, key) is Ok,
        0 <= k < spec_decode_bootstrap(data.take(64))->Ok_0.block_count,
        0 <= p < spec_decode_bootstrap(data.take(64))->Ok_0.block_payload_size,
        data2.len() == data.len(),
        ({
            let at = payload_offset(spec_decode_bootstrap(data.take(64))->Ok_0, k) + p;
            &&& data2[at] != data[at]
            &&& forall|x: int| 0 <= x < data.len() && x != at ==> data2[x] == data[x]
        }),
    ensures
        spec_decode(data2, key) is Err,
{
    let seg = spec_decode_bootstrap(data.take(64))->Ok_0;
    let bps = seg.block_payload_size;
    let count = seg.block_count;
    let hp = seg.commitment_mode & 0x04 != 0;
    let ps = if hp { spec_prefix_marker_size(bps) } else { 0int };
    let ml = marker_len(hp, ps);
    let t = spec_block_total(seg);
    crate::bootstrap::lemma_decoded_valid(data.take(64));
    crate::prefix::lemma_marker_size_small(bps);
    assert(t == ml + 48 + bps);
    let at = 64 + k * t + ml + 16 + p;
    assert(at == payload_offset(seg, k) + p);
    assert(at >= 64) by (nonlinear_arith) requires k >= 0, t > 0, at == 64 + k * t + ml + 16 + p, ml >= 0, p >= 0;
    assert(data2.take(64) =~= data.take(64)) by {
        assert forall|x: int| 0 <= x < 64 implies data2.take(64)[x] == data.take(64)[x] by {
            assert(x != at);
        }
    }
    assert(0 * t == 0);
    lemma_parse_payload_change(data, data2, bps, count, hp, ps, 0, k, p);
}

/// A marker that passes its checks still does when only bytes after it
/// change.
proof fn lemma_marker_prefix_congruent(x: Seq<u8>, y: Seq<u8>, bps: u32, prefix_size: int)
    requires
        x.len() == y.len(),
        x.len() >= 8,
        !marker_bad(x, bps, prefix_size),
        forall|i: int| 0 <= i < prefix_size ==> x[i] == y[i],
    ensures
        !marker_bad(y, bps, prefix_size),
{
    let xs = x.skip(3);
    let ys = y.skip(3);
    crate::prefix::lemma_varint_ok_len(xs);
    let n = varint_len(xs);
    assert(3 + n == prefix_size);
    assert forall|j: int| 0 <= j < n implies xs[j] == ys[j] by {
        assert(xs[j] == x[j + 3] && ys[j] == y[j + 3]);
    }
    assert(varint_terminates_at(ys, n));
    assert(varint_ok(ys)) by {
        assert(0 <= n - 1 < ys.len() && n - 1 < 5 && ys[n - 1] < 128);
    }
    crate::prefix::lemma_varint_ok_len(ys);
    crate::prefix::lemma_varint_end_unique(ys, n, varint_len(ys));
    assert(xs.take(n) =~= ys.take(n));
    assert(x[0] == y[0] && x[1] == y[1] && x[2] == y[2]);
    assert(spec_marker_fields(x) == spec_marker_fields(y));
}

/// Parsing the blocks from slot `i` on meets block `k`'s checks failing
/// when its header was changed outside the payload-length field.
#[verifier::rlimit(40)]
proof fn lemma_parse_header_change(
    data: Seq<u8>,
    data2: Seq<u8>,
    bps: u32,
    count: u32,
    has_prefix: bool,
    prefix_size: int,
    i: nat,
    k: int,
)
    requires
        data.len() == data2.len(),
        512 <= bps,
        0 <= prefix_size <= 8,
        i <= k < count,
        64 + count * (marker_len(has_prefix, prefix_size) + 48 + bps) <= data.len(),
        ({
            let h = 64 + k * (marker_len(has_prefix, prefix_size) + 48 + bps) + marker_len(has_prefix, prefix_size);
            &&& data2.subrange(h, h + 16) != data.subrange(h, h + 16)
            &&& forall|x: int| 0 <= x < data.len() && !(h <= x < h + 4 || h + 8 <= x < h + 16) ==> data2[x] == data[x]
        }),
        spec_parse_blocks(data, bps, count, has_prefix, prefix_size, 64 + i * (marker_len(has_prefix, prefix_size) + 48 + bps), i) is Ok,
    ensures
        spec_parse_blocks(data2, bps, count, has_prefix, prefix_size, 64 + i * (marker_len(has_prefix, prefix_size) + 48 + bps), i) is Err,
    decreases count - i,
{
    let ml = marker_len(has_prefix, prefix_size);
    let t = ml + 48 + bps;
    let h = 64 + k * t + ml;
    let off = 64 + i * t;
    let boff = if has_prefix { off + prefix_size } else { off };
    assert(boff == off + ml);
    assert(off + t <= 64 + count * t) by (nonlinear_arith) requires i < count, t > 0, off == 64 + i * t;
    assert(off >= 64) by (nonlinear_arith) requires t > 0, off == 64 + i * t;
    assert(i < k ==> off + t <= 64 + k * t) by (nonlinear_arith) requires off == 64 + i * t, t > 0;
    assert(i == k ==> h == boff);
    if has_prefix {
        if i < k {
            assert forall|x: int| 0 <= x < 8 implies data.skip(off)[x] == data2.skip(off)[x] by {
                assert(data.skip(off)[x] == data[off + x]);
                assert(data2.skip(off)[x] == data2[off + x]);
            }
            lemma_marker_congruent(data.skip(off), data2.skip(off), bps, prefix_size);
        } else {
            assert forall|x: int| 0 <= x < prefix_size implies data.skip(off)[x] == data2.skip(off)[x] by {
                assert(data.skip(off)[x] == data[off + x]);
                assert(data2.skip(off)[x] == data2[off + x]);
            }
            lemma_marker_prefix_congruent(data.skip(off), data2.skip(off), bps, prefix_size);
        }
    }
    let bb = data.skip(boff);
    let bb2 = data2.skip(boff);
    assert(boff + 48 + bps == off + t);
    let next = boff + 48 + bps;
    assert(next == 64 + (i + 1) * t) by (nonlinear_arith) requires next == off + t, off == 64 + i * t;
    if i < k {
        assert forall|x: int| 0 <= x < 16 + bps implies bb[x] == bb2[x] by {
            assert(bb[x] == data[boff + x]);
            assert(bb2[x] == data2[boff + x]);
        }
        lemma_block_error_congruent(bb, bb2, bps, i as u32, i == count - 1);
        lemma_parse_header_change(data, data2, bps, count, has_prefix, prefix_size, i + 1, k);
    } else {
        assert forall|x: int| 0 <= x < bb.len() && !(0 <= x < 4 || 8 <= x < 16) implies bb2[x] == bb[x] by {
            assert(bb[x] == data[boff + x]);
            assert(bb2[x] == data2[boff + x]);
        }
        assert(bb2.subrange(0, 16) != bb.subrange(0, 16)) by {
            assert(bb2.subrange(0, 16) =~= data2.subrange(h, h + 16));
            assert(bb.subrange(0, 16) =~= data.subrange(h, h + 16));
        }
        crate::block::lemma_header_change_rejected(bb, bb2, bps, i as u32, i == count - 1);
    }
}

/// A block header changed outside its payload-length field is refused:
/// an artifact that differs from one that decodes only in block `k`'s
/// index, flags or check field, and there somewhere, does not decode.
pub proof fn lemma_header_tamper_rejected(data: Seq<u8>, data2: Seq<u8>, key: Option<[u8; 32]>, k: int)
    requires
        spec_decode(data, key) is Ok,
        0 <= k < spec_decode_bootstrap(data.take(64))->Ok_0.block_count,
        data2.len() == data.len(),
        ({
            let h = payload_offset(spec_decode_bootstrap(data.take(64))->Ok_0, k) - 16;
            &&& data2.subrange(h, h + 16) != data.subrange(h, h + 16)
            &&& forall|x: int| 0 <= x < data.len() && !(h <= x < h + 4 || h + 8 <= x < h + 16) ==> data2[x] == data[x]
        }),
    ensures
        spec_decode(data2, key) is Err,
{
    let seg = spec_decode_bootstrap(data.take(64))->Ok_0;
    let bps = seg.block_payload_size;
    let count = seg.block_count;
    let hp = seg.commitment_mode & 0x04 != 0;
    let ps = if hp { spec_prefix_marker_size(bps) } else { 0int };
    let ml = marker_len(hp, ps);
    let t = spec_block_total(seg);
    crate::bootstrap::lemma_decoded_valid(data.take(64));
    crate::prefix::lemma_marker_size_small(bps);
    assert(t == ml + 48 + bps);
    let h = 64 + k * t + ml;
    assert(h == payload_offset(seg, k) - 16);
    assert(h >= 64) by (nonlinear_arith) requires k >= 0, t > 0, h == 64 + k * t + ml, ml >= 0;
    assert(data2.take(64) =~= data.take(64)) by {
        assert forall|x: int| 0 <= x < 64 implies data2.take(64)[x] == data.take(64)[x] by {
            assert(!(h <= x < h + 4 || h + 8 <= x < h + 16));
        }
    }
    assert(0 * t == 0);
    lemma_parse_header_change(data, data2, bps, count, hp, ps, 0, k);
}

/// A changed footer commitment is refused: an artifact that differs from
/// one that decodes only in the 32 bytes of its footer's commitment field,
/// and there somewhere, does not decode. Stated for footers whose
/// commitment field lies after their fixed fields and receipt count, as
/// every encoded footer's does.
pub proof fn lemma_footer_commitment_tamper_rejected(data: Seq<u8>, data2: Seq<u8>, key: Option<[u8; 32]>)
    requires
        spec_decode(data, key) is Ok,
        data2.len() == data.len(),
        ({
            let seg = spec_decode_bootstrap(data.take(64))->Ok_0;
            let end = 64 + seg.block_count * spec_block_total(seg);
            let cs = end + crate::footer::footer_commitment_start(data.skip(end));
            &&& crate::footer::footer_commitment_start(data.skip(end)) >= if seg.commitment_mode & 0x02 != 0 { 76int } else { 44int }
            &&& forall|x: int| 0 <= x < data.len() && !(cs <= x < cs + 32) ==> data2[x] == data[x]
            &&& data2.subrange(cs, cs + 32) != data.subrange(cs, cs + 32)
        }),
    ensures
        spec_decode(data2, key) is Err,
{
    let seg = spec_decode_bootstrap(data.take(64))->Ok_0;
    let bps = seg.block_payload_size;
    let count = seg.block_count;
    let hp = seg.commitment_mode & 0x04 != 0;
    let ps = if hp { spec_prefix_marker_size(bps) } else { 0int };
    let ml = marker_len(hp, ps);
    let t = spec_block_total(seg);
    let end = 64 + count * t;
    crate::bootstrap::lemma_decoded_valid(data.take(64));
    crate::prefix::lemma_marker_size_small(bps);
    assert(t == ml + 48 + bps);
    assert(end >= 64) by (nonlinear_arith) requires t > 0, end == 64 + count * t;
    let f = data.skip(end);
    let f2 = data2.skip(end);
    let has_merkle = seg.commitment_mode & 0x02 != 0;
    let ph = spec_params_hash(spec_params(seg), seg.hash_suite)@;
    let fcs = crate::footer::footer_commitment_start(f);
    assert(f.len() >= 76 && f2.len() == f.len());
    assert forall|x: int| 0 <= x < f.len() && !(fcs <= x < fcs + 32) implies f2[x] == f[x] by {
        assert(f[x] == data[end + x] && f2[x] == data2[end + x]);
    }
    assert(f2.subrange(fcs, fcs + 32) != f.subrange(fcs, fcs + 32)) by {
        assert(f2.subrange(fcs, fcs + 32) =~= data2.subrange(end + fcs, end + fcs + 32));
        assert(f.subrange(fcs, fcs + 32) =~= data.subrange(end + fcs, end + fcs + 32));
    }
    assert(data2.take(64) =~= data.take(64));
    assert(0 * t == 0);
    lemma_parse_congruent(data, data2, bps, count, hp, ps, 0);
    crate::footer::lemma_footer_commitment_change(f, f2, has_merkle, ph, seg.hash_suite);
}

/// Feed the slots (each a block with its marker, if any) to a streaming
/// decoder in order, the last as the last block, then finish it with the
/// footer: the payload, or the first failure.
pub open spec fn spec_stream_run(st: StreamingDecoderView, slots: Seq<Seq<u8>>, footer: Seq<u8>) -> Result<Seq<u8>>
    decreases slots.len(),
{
    if slots.len() == 0 {
        spec_stream_final(st, footer)
    } else {
        match spec_feed_block(st, slots[0], slots.len() == 1) {
            Err(e) => Err(e),
            Ok((c, p, cm)) => spec_stream_run(after_block(st, c, p, cm), slots.drop_first(), footer),
        }
    }
}

/// The `count` block slots of `t` bytes of an artifact, from offset 64.
pub open spec fn block_slots(data: Seq<u8>, t: int, count: nat) -> Seq<Seq<u8>> {
    Seq::new(count, |j: int| data.subrange(64 + j * t, 64 + j * t + t))
}

/// The streaming decoder's state once the bootstrap segment of an artifact
/// was fed.
pub open spec fn stream_start(seg: BootstrapSegment) -> StreamingDecoderView {
    StreamingDecoderView {
        bootstrap: Some(seg),
        params_hash: spec_params_hash(spec_params(seg), seg.hash_suite),
        prev_commitment: spec_c0(spec_params(seg), seg.bootstrap_nonce@, seg.hash_suite),
        ..decoder_start(None)
    }
}

/// The streaming decoder's state after the first `j` blocks of a plain
/// artifact.
spec fn stream_state(seg: BootstrapSegment, blocks: Seq<BlockModel>, j: nat) -> StreamingDecoderView {
    let params = spec_params(seg);
    let ph = spec_params_hash(params, seg.hash_suite);
    StreamingDecoderView {
        key: None,
        bootstrap: Some(seg),
        params_hash: ph,
        prev_commitment: chain_link(ph@, spec_c0(params, seg.bootstrap_nonce@, seg.hash_suite), blocks, seg.block_payload_size, seg.hash_suite, j),
        expected_index: j as u32,
        payload: spec_extract(blocks.take(j as int), false, None, seg.bootstrap_nonce)->Ok_0,
        padded_payloads: spec_paddeds(blocks.take(j as int), seg.block_payload_size),
    }
}

/// Extracting plain blocks appends the payload of each.
proof fn lemma_plain_extract_push(s: Seq<BlockModel>, b: BlockModel, nonce: [u8; 16])
    ensures
        spec_extract(s.push(b), false, None, nonce) == Ok::<Seq<u8>, CbcError>(spec_extract(s, false, None, nonce)->Ok_0 + b.payload),
    decreases s.len(),
{
    lemma_plain_extract(s, None, nonce);
    let sb = s.push(b);
    if s.len() == 0 {
        assert(sb.drop_first() =~= Seq::<BlockModel>::empty());
        assert(sb[0] == b);
        assert(spec_extract(sb.drop_first(), false, None, nonce) == Ok::<Seq<u8>, CbcError>(Seq::empty()));
        assert(spec_extract(s, false, None, nonce) == Ok::<Seq<u8>, CbcError>(Seq::empty()));
        assert(Seq::<u8>::empty() + b.payload =~= b.payload);
        assert(b.payload + Seq::<u8>::empty() =~= b.payload);
    } else {
        assert(sb.drop_first() =~= s.drop_first().push(b));
        lemma_plain_extract_push(s.drop_first(), b, nonce);
        lemma_plain_extract(s.drop_first(), None, nonce);
        assert(sb[0] == s[0]);
        let r = spec_extract(s.drop_first(), false, None, nonce)->Ok_0;
        assert(spec_extract(s, false, None, nonce) == Ok::<Seq<u8>, CbcError>(s[0].payload + r));
        assert(spec_extract(sb.drop_first(), false, None, nonce) == Ok::<Seq<u8>, CbcError>(r + b.payload));
        assert(spec_extract(sb, false, None, nonce) == Ok::<Seq<u8>, CbcError>(s[0].payload + (r + b.payload)));
        assert(s[0].payload + (r + b.payload) =~= (s[0].payload + r) + b.payload);
    }
}

/// What a parse that succeeded says of slot `m`: its marker is right, its
/// block passes its checks, and the parsed block is the one it holds.
proof fn lemma_parsed_slot(data: Seq<u8>, bps: u32, count: u32, has_prefix: bool, prefix_size: int, i: nat, m: int)
    requires
        spec_parse_blocks(data, bps, count, has_prefix, prefix_size, 64 + i * (marker_len(has_prefix, prefix_size) + 48 + bps), i) is Ok,
        i <= m < count,
        0 <= prefix_size,
    ensures
        ({
            let ml = marker_len(has_prefix, prefix_size);
            let t = ml + 48 + bps;
            let off = 64 + m * t;
            let a = spec_parse_blocks(data, bps, count, has_prefix, prefix_size, 64 + i * t, i)->Ok_0;
            &&& a.len() == count - i
            &&& (has_prefix ==> !marker_bad(data.skip(off), bps, prefix_size))
            &&& spec_block_error(data.skip(off + ml), bps, m as u32, m == count - 1) is None
            &&& a[m - i] == spec_block_at(data.skip(off + ml), bps)
        }),
    decreases m - i,
{
    let ml = marker_len(has_prefix, prefix_size);
    let t = ml + 48 + bps;
    let off = 64 + i * t;
    let next = off + t;
    assert(next == 64 + (i + 1) * t) by (nonlinear_arith) requires next == off + t, off == 64 + i * t;
    lemma_parse_len(data, bps, count, has_prefix, prefix_size, off, i);
    if m > i {
        lemma_parsed_slot(data, bps, count, has_prefix, prefix_size, i + 1, m);
        let a = spec_parse_blocks(data, bps, count, has_prefix, prefix_size, off, i)->Ok_0;
        let ra = spec_parse_blocks(data, bps, count, has_prefix, prefix_size, next, i + 1)->Ok_0;
        assert(a[m - i] == ra[m - (i + 1)]);
    }
}

/// A parse that succeeds yields one block per remaining slot.
proof fn lemma_parse_len(data: Seq<u8>, bps: u32, count: u32, has_prefix: bool, prefix_size: int, off: int, i: nat)
    requires
        spec_parse_blocks(data, bps, count, has_prefix, prefix_size, off, i) is Ok,
        i <= count,
    ensures
        spec_parse_blocks(data, bps, count, has_prefix, prefix_size, off, i)->Ok_0.len() == count - i,
    decreases count - i,
{
    if i < count {
        let boff = if has_prefix { off + prefix_size } else { off };
        lemma_parse_len(data, bps, count, has_prefix, prefix_size, boff + 48 + bps, i + 1);
    }
}

/// A correct marker at the front of a longer run reads the same on its own.
proof fn lemma_marker_alone(d: Seq<u8>, bps: u32, ps: int)
    requires
        !marker_bad(d, bps, ps),
        4 <= ps <= d.len(),
    ensures
        marker_ok(d.take(ps)),
        spec_marker_fields(d.take(ps)) == spec_marker_fields(d),
{
    let xs = d.skip(3);
    let ys = d.take(ps).skip(3);
    crate::prefix::lemma_varint_ok_len(xs);
    let n = varint_len(xs);
    assert(3 + n == ps);
    assert forall|i: int| 0 <= i < ps - 3 implies ys[i] == xs[i] by {
        assert(ys[i] == d[i + 3] && xs[i] == d[i + 3]);
    }
    assert(varint_terminates_at(ys, n));
    assert(ys[n - 1] < 128);
    assert(varint_ok(ys));
    crate::prefix::lemma_varint_ok_len(ys);
    crate::prefix::lemma_varint_end_unique(ys, n, varint_len(ys));
    assert(xs.take(n) =~= ys.take(n));
}

/// A block read from a run of bytes and from a copy of its own wire bytes
/// is the same, and passes or fails the same checks.
proof fn lemma_block_window(x: Seq<u8>, y: Seq<u8>, bps: u32, idx: u32, last: bool)
    requires
        x.len() >= 48 + bps,
        y.len() >= 48 + bps,
        forall|i: int| 0 <= i < 48 + bps ==> x[i] == y[i],
    ensures
        spec_block_error(x, bps, idx, last) == spec_block_error(y, bps, idx, last),
        spec_decode_header(x.subrange(0, 16)).payload_length <= bps ==> spec_block_at(x, bps) == spec_block_at(y, bps),
{
    assert(x.subrange(0, 16) =~= y.subrange(0, 16));
    assert(x.subrange(16, 16 + bps) =~= y.subrange(16, 16 + bps));
    assert(x.subrange(16 + bps, 48 + bps) =~= y.subrange(16 + bps, 48 + bps));
    let pl = spec_decode_header(x.subrange(0, 16)).payload_length;
    if pl <= bps {
        assert(x.subrange(16, 16 + pl) =~= y.subrange(16, 16 + pl));
    }
}

/// The blocks a decodable artifact parses into.
spec fn parsed_blocks(data: Seq<u8>) -> Seq<BlockModel> {
    let seg = spec_decode_bootstrap(data.take(64))->Ok_0;
    let hp = seg.commitment_mode & 0x04 != 0;
    let ps = if hp { spec_prefix_marker_size(seg.block_payload_size) } else { 0int };
    spec_parse_blocks(data, seg.block_payload_size, seg.block_count, hp, ps, 64, 0)->Ok_0
}

/// What a plain artifact that decodes offers the streaming proofs.
proof fn lemma_plain_decoded_facts(data: Seq<u8>)
    requires
        spec_decode(data, None) matches Ok(d) && d.bootstrap.flags & 0x03 == 0,
    ensures
        ({
            let seg = spec_decode_bootstrap(data.take(64))->Ok_0;
            let bps = seg.block_payload_size;
            let hp = seg.commitment_mode & 0x04 != 0;
            let ps = if hp { spec_prefix_marker_size(bps) } else { 0int };
            let t = spec_block_total(seg);
            let blocks = parsed_blocks(data);
            let params = spec_params(seg);
            let ph = spec_params_hash(params, seg.hash_suite)@;
            let c0 = spec_c0(params, seg.bootstrap_nonce@, seg.hash_suite);
            &&& data.len() >= 64
            &&& spec_decode_bootstrap(data.take(64)) is Ok
            &&& spec_decode(data, None)->Ok_0.bootstrap == seg
            &&& valid_segment(seg)
            &&& seg.flags & 0x02 == 0 && seg.flags & 0x01 == 0
            &&& 4 <= spec_prefix_marker_size(bps) <= 8
            &&& t == marker_len(hp, ps) + 48 + bps
            &&& 64 + seg.block_count * t <= data.len()
            &&& spec_parse_blocks(data, bps, seg.block_count, hp, ps, 64, 0) is Ok
            &&& blocks.len() == seg.block_count
            &&& forall|j: int| 0 <= j < blocks.len() ==> (#[trigger] blocks[j]).commitment == chain_link(ph, c0, blocks, bps, seg.hash_suite, (j + 1) as nat)
            &&& spec_integrity_checks(data, seg, blocks) is Ok
        }),
{
    let seg = spec_decode_bootstrap(data.take(64))->Ok_0;
    let bps = seg.block_payload_size;
    let hp = seg.commitment_mode & 0x04 != 0;
    let ps = if hp { spec_prefix_marker_size(bps) } else { 0int };
    let blocks = parsed_blocks(data);
    let params = spec_params(seg);
    let ph = spec_params_hash(params, seg.hash_suite)@;
    let c0 = spec_c0(params, seg.bootstrap_nonce@, seg.hash_suite);
    lemma_decoded_segment(data, None);
    lemma_decode_is_integrity_then_finish(data, None);
    crate::prefix::lemma_marker_size_small(bps);
    let fl = seg.flags;
    assert(fl & 0x02 == 0 && fl & 0x01 == 0) by (bit_vector) requires fl & 0x03 == 0;
    lemma_parse_len(data, bps, seg.block_count, hp, ps, 64, 0);
    assert forall|j: int| 0 <= j < blocks.len() implies (#[trigger] blocks[j]).commitment == chain_link(ph, c0, blocks, bps, seg.hash_suite, (j + 1) as nat) by {
        if blocks[j].commitment != chain_link(ph, c0, blocks, bps, seg.hash_suite, (j + 1) as nat) {
            lemma_first_bad_exists(blocks, ph, c0, bps, seg.hash_suite, j);
        }
    }
}

/// Feeding block `j` of a plain artifact that decodes to a streaming
/// decoder that took the blocks before it gives that block's payload, and
/// the state after the first `j + 1` blocks.
#[verifier::rlimit(60)]
#[verifier::spinoff_prover]
proof fn lemma_stream_step(data: Seq<u8>, j: nat)
    requires
        spec_decode(data, None) matches Ok(d) && d.bootstrap.flags & 0x03 == 0,
        j < spec_decode_bootstrap(data.take(64))->Ok_0.block_count,
    ensures
        ({
            let seg = spec_decode_bootstrap(data.take(64))->Ok_0;
            let bps = seg.block_payload_size;
            let blocks = parsed_blocks(data);
            let t = spec_block_total(seg);
            let params = spec_params(seg);
            let ph = spec_params_hash(params, seg.hash_suite)@;
            let c0 = spec_c0(params, seg.bootstrap_nonce@, seg.hash_suite);
            let out = (blocks[j as int].payload, spec_padded(blocks[j as int].payload, bps),
                chain_link(ph, c0, blocks, bps, seg.hash_suite, j + 1));
            &&& spec_feed_block(stream_state(seg, blocks, j), block_slots(data, t, seg.block_count as nat)[j as int],
                    j == seg.block_count - 1) == Ok::<(Seq<u8>, Seq<u8>, [u8; 32]), CbcError>(out)
            &&& after_block(stream_state(seg, blocks, j), out.0, out.1, out.2) == stream_state(seg, blocks, j + 1)
        }),
{
    lemma_plain_decoded_facts(data);
    let seg = spec_decode_bootstrap(data.take(64))->Ok_0;
    let bps = seg.block_payload_size;
    let count = seg.block_count;
    let hp = seg.commitment_mode & 0x04 != 0;
    let ps = if hp { spec_prefix_marker_size(bps) } else { 0int };
    let ml = marker_len(hp, ps);
    let t = spec_block_total(seg);
    let blocks = parsed_blocks(data);
    let params = spec_params(seg);
    let ph = spec_params_hash(params, seg.hash_suite)@;
    let c0 = spec_c0(params, seg.bootstrap_nonce@, seg.hash_suite);
    let off = 64 + j * t;
    assert(0 * t == 0);
    lemma_parsed_slot(data, bps, count, hp, ps, 0, j as int);
    assert(off + t <= 64 + count * t) by (nonlinear_arith) requires j < count, t > 0, off == 64 + j * t;
    assert(off >= 64) by (nonlinear_arith) requires t > 0, off == 64 + j * t;
    let slot = block_slots(data, t, count as nat)[j as int];
    assert(slot == data.subrange(off, off + t));
    let st = stream_state(seg, blocks, j);
    let b = if hp { slot.skip(ps) } else { slot };
    if hp {
        let d = data.skip(off);
        lemma_marker_alone(d, bps, ps);
        assert(slot.take(ps) =~= d.take(ps));
        assert(b =~= data.subrange(off + ps, off + t));
    }
    assert(b.len() == 48 + bps);
    let x = data.skip(off + ml);
    assert forall|i: int| 0 <= i < 48 + bps implies x[i] == b[i] by {
        assert(x[i] == data[off + ml + i]);
    }
    lemma_block_window(x, b, bps, j as u32, j == count - 1);
    assert(j as u32 == j);
    let blk = blocks[j as int];
    assert(blk == spec_block_at(b, bps));
    let padded = spec_padded(blk.payload, bps);
    assert(chain_link(ph, c0, blocks, bps, seg.hash_suite, j + 1)
        == crate::chain::spec_ci(ph, spec_header_bytes(blk.header), padded, chain_link(ph, c0, blocks, bps, seg.hash_suite, j)@, seg.hash_suite));
    // the state after the block
    assert(blocks.take(j + 1int) =~= blocks.take(j as int).push(blk));
    lemma_plain_extract_push(blocks.take(j as int), blk, seg.bootstrap_nonce);
    assert(spec_paddeds(blocks.take(j + 1int), bps) =~= spec_paddeds(blocks.take(j as int), bps).push(padded));
}

/// Streaming the blocks of a plain artifact that decodes, from block `j`
/// on, then its footer, gives the decoded payload.
proof fn lemma_stream_run_from(data: Seq<u8>, j: nat)
    requires
        spec_decode(data, None) matches Ok(d) && d.bootstrap.flags & 0x03 == 0,
        j <= spec_decode_bootstrap(data.take(64))->Ok_0.block_count,
    ensures
        ({
            let seg = spec_decode_bootstrap(data.take(64))->Ok_0;
            let t = spec_block_total(seg);
            spec_stream_run(stream_state(seg, parsed_blocks(data), j), block_slots(data, t, seg.block_count as nat).skip(j as int),
                data.skip(64 + seg.block_count * t)) == Ok::<Seq<u8>, CbcError>(spec_decode(data, None)->Ok_0.payload)
        }),
    decreases spec_decode_bootstrap(data.take(64))->Ok_0.block_count - j,
{
    lemma_plain_decoded_facts(data);
    let seg = spec_decode_bootstrap(data.take(64))->Ok_0;
    let count = seg.block_count;
    let t = spec_block_total(seg);
    let slots = block_slots(data, t, count as nat);
    if j < count {
        lemma_stream_step(data, j);
        lemma_stream_run_from(data, j + 1);
        assert(slots.skip(j as int).drop_first() =~= slots.skip(j + 1int));
        assert(slots.skip(j as int)[0] == slots[j as int]);
    } else {
        assert(slots.skip(j as int).len() == 0);
        lemma_stream_final(data);
    }
}

/// Finishing a streaming decoder that took every block of a plain artifact
/// that decodes with the artifact's footer gives the decoded payload.
proof fn lemma_stream_final(data: Seq<u8>)
    requires
        spec_decode(data, None) matches Ok(d) && d.bootstrap.flags & 0x03 == 0,
    ensures
        ({
            let seg = spec_decode_bootstrap(data.take(64))->Ok_0;
            spec_stream_final(stream_state(seg, parsed_blocks(data), seg.block_count as nat), data.skip(64 + seg.block_count * spec_block_total(seg)))
                == Ok::<Seq<u8>, CbcError>(spec_decode(data, None)->Ok_0.payload)
        }),
{
    lemma_plain_decoded_facts(data);
    lemma_decode_is_integrity_then_finish(data, None);
    let seg = spec_decode_bootstrap(data.take(64))->Ok_0;
    let blocks = parsed_blocks(data);
    assert(blocks.take(seg.block_count as int) =~= blocks);
    lemma_plain_extract(blocks, None, seg.bootstrap_nonce);
}

/// A plain artifact (neither compressed nor encrypted) that decodes
/// streams to the same payload: feeding its bootstrap segment, then each
/// block slot in order (the last as the last), then its footer, to a
/// streaming decoder gives what decoding it whole gives.
pub proof fn lemma_stream_decodes_like_batch(data: Seq<u8>)
    requires
        spec_decode(data, None) matches Ok(d) && d.bootstrap.flags & 0x03 == 0,
    ensures
        ({
            let seg = spec_decode(data, None)->Ok_0.bootstrap;
            let t = spec_block_total(seg);
            spec_stream_run(stream_start(seg), block_slots(data, t, seg.block_count as nat), data.skip(64 + seg.block_count * t))
                == Ok::<Seq<u8>, CbcError>(spec_decode(data, None)->Ok_0.payload)
        }),
{
    lemma_plain_decoded_facts(data);
    let seg = spec_decode_bootstrap(data.take(64))->Ok_0;
    let blocks = parsed_blocks(data);
    assert(blocks.take(0) =~= Seq::<BlockModel>::empty());
    assert(spec_paddeds(blocks.take(0), seg.block_payload_size) =~= Seq::<Seq<u8>>::empty());
    assert(stream_start(seg) == stream_state(seg, blocks, 0));
    lemma_stream_run_from(data, 0);
    let slots = block_slots(data, spec_block_total(seg), seg.block_count as nat);
    assert(slots.skip(0) =~= slots);
}

} // verus!
