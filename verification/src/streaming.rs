//! Streaming mode: encode an artifact from input fed in pieces, and decode
//! one block at a time.
//!
//! Every chain commitment binds the block count (it is part of the
//! canonical parameters), and the count is known only once the input has
//! ended. So the encoder holds the fed input and writes the blocks and the
//! footer at finalization: a streamed artifact, once its bootstrap segment
//! is patched with the final count, is byte for byte the batch encoding.
//! The decoder validates each block as it arrives, carrying the chain
//! commitment from block to block.
use crate::block::{
    aes256gcm_open, spec_block_error, spec_block_nonce, spec_header_bytes, spec_padded, wire_size_fits, Block,
    BlockHeader, BlockModel,
};
use crate::bootstrap::{spec_decode_bootstrap, spec_params, valid_block_payload_size, BootstrapSegment};
use crate::bytes::append_bytes;
use crate::chain::{compute_c0, compute_ci, compute_params_hash, spec_c0, spec_ci, spec_params_hash};
use crate::compression::zstd_decode_all;
use crate::decoder::{hash_eq, spec_block_at};
use crate::encoder::{cfg_compressed, cfg_encrypted, encode_admissible, encode_counted, spec_block_count, spec_encode, EncoderConfig};
use crate::error::{other_error, same_error, CbcError, Result};
use crate::footer::{spec_decode_footer, spec_footer_bytes, vec_views, StreamFooter};
use crate::merkle::{spec_leaves, spec_root, zero_hash, MerkleTree};
use crate::prefix::{decode_prefix_marker, marker_ok, prefix_marker_size, spec_marker_fields, spec_prefix_marker_size, BLOCK_TYPE_DATA};
use std::io::Read;
use crate::text::{decimal, spec_decimal};
use vstd::prelude::*;
use vstd::string::*;
use vstd::slice::slice_subrange;

verus! {

/// Streaming encoder.
pub struct StreamingEncoder {
    config: EncoderConfig,
    nonce: [u8; 16],
    /// The input fed so far.
    buffer: Vec<u8>,
}

/// The bootstrap segment a streamed artifact starts with, before its
/// count is known.
pub open spec fn stream_segment(c: EncoderConfig, nonce: [u8; 16]) -> BootstrapSegment {
    BootstrapSegment {
        hash_suite: c.hash_suite,
        commitment_mode: c.commitment_mode,
        block_payload_size: c.block_payload_size,
        block_count: 0,
        bootstrap_nonce: nonce,
        flags: c.flags,
    }
}

/// What finalizing a stream that was fed `pending` yields: the bytes that
/// follow the bootstrap segment, and the block count. With no input there
/// are no blocks, and the footer closes the chain at c0 (with the all-zero
/// Merkle root of no leaves when Family B is declared). Otherwise the
/// blocks and footer are those of the batch encoding.
pub open spec fn spec_stream_finish(c: EncoderConfig, nonce: [u8; 16], pending: Seq<u8>) -> Result<(Seq<u8>, u32)> {
    if pending.len() == 0 {
        let params = spec_params(stream_segment(c, nonce));
        let ph = spec_params_hash(params, c.hash_suite)@;
        let mr = if c.commitment_mode & 0x02 != 0 { Some(zero_hash()) } else { None };
        Ok((spec_footer_bytes(spec_c0(params, nonce@, c.hash_suite), mr, Seq::empty(), ph, c.hash_suite), 0))
    } else if cfg_encrypted(c) && c.block_payload_size == 16 {
        Err(other_error())
    } else {
        match spec_encode(c, pending, nonce, Seq::empty()) {
            Ok(a) => Ok((a.skip(64), spec_block_count(c, pending))),
            Err(e) => Err(e),
        }
    }
}

/// The message for compression requested of the streaming encoder.
fn no_stream_compression_message() -> (r: String)
    ensures
        r@ == "Streaming compression not yet supported in memory-safe mode"@,
{
    String::from_str("Streaming compression not yet supported in memory-safe mode")
}

/// The message for a block size that leaves no payload room once the
/// encryption tag is added.
fn no_room_message(block_payload_size: u32) -> (r: String)
    ensures
        r@ == "block_payload_size ("@ + spec_decimal(block_payload_size as nat) + ") leaves no room for payload bytes when encryption is enabled"@,
{
    String::from_str("block_payload_size (").concat(decimal(block_payload_size as u64).as_str()).concat(") leaves no room for payload bytes when encryption is enabled")
}

impl StreamingEncoder {
    /// The configuration the encoder was made with.
    pub closed spec fn config_of(&self) -> EncoderConfig {
        self.config
    }

    /// The nonce the encoder was made with.
    pub closed spec fn nonce_of(&self) -> [u8; 16] {
        self.nonce
    }

    /// The input fed so far.
    pub closed spec fn pending(&self) -> Seq<u8> {
        self.buffer@
    }

    /// A compressing encoder holds no input.
    #[verifier::type_invariant]
    spec fn holds_no_compressed_input(&self) -> bool {
        cfg_compressed(self.config) ==> self.buffer@.len() == 0
    }

    /// Create a new streaming encoder.
    pub fn new(config: &EncoderConfig, nonce: [u8; 16]) -> (s: Self)
        ensures
            s.config_of() == *config,
            s.nonce_of() == nonce,
            s.pending() == Seq::<u8>::empty(),
    {
        StreamingEncoder { config: *config, nonce, buffer: Vec::new() }
    }

    /// Whether encryption is requested.
    fn is_encrypted(&self) -> (r: bool)
        ensures
            r == cfg_encrypted(self.config),
    {
        self.config.flags & crate::bootstrap::FLAG_ENCRYPTED != 0
    }

    /// Whether compression is requested.
    fn is_compressed(&self) -> (r: bool)
        ensures
            r == cfg_compressed(self.config),
    {
        self.config.flags & crate::bootstrap::FLAG_COMPRESSED != 0
    }

    /// Feed a piece of input. Compression cannot be streamed: with it
    /// requested, feeding fails. Otherwise the input is taken in, and no
    /// block is ready before finalization.
    pub fn feed(&mut self, data: &[u8]) -> (r: Result<Vec<Vec<u8>>>)
        ensures
            final(self).config_of() == old(self).config_of(),
            final(self).nonce_of() == old(self).nonce_of(),
            cfg_compressed(old(self).config_of()) ==> (r matches Err(CbcError::Other(_)) && final(self).pending() == old(self).pending()),
            !cfg_compressed(old(self).config_of()) ==> (r matches Ok(v) && v@.len() == 0
                && final(self).pending() == old(self).pending() + data@),
    {
        if self.is_compressed() {
            return Err(CbcError::msg(no_stream_compression_message()));
        }
        let mut buf: Vec<u8> = Vec::new();
        std::mem::swap(&mut buf, &mut self.buffer);
        append_bytes(&mut buf, data);
        self.buffer = buf;
        Ok(Vec::new())
    }

    /// Finish the stream: the bytes that follow the bootstrap segment (the
    /// blocks, then the footer) and the block count, to be patched into the
    /// bootstrap segment. Receipts are not written.
    pub fn finalize(self, _receipts: &[Vec<u8>]) -> (r: Result<(Vec<u8>, u32)>)
        requires
            wire_size_fits(self.config_of().block_payload_size),
        ensures
            match (r, spec_stream_finish(self.config_of(), self.nonce_of(), self.pending())) {
                (Ok((v, n)), Ok((s, m))) => v@ == s && n == m,
                (Err(e), Err(d)) => same_error(e, d),
                _ => false,
            },
    {
        proof { use_type_invariant(&self); }
        let config = self.config;
        let nonce = self.nonce;
        if self.buffer.len() == 0 {
            let bootstrap = BootstrapSegment {
                hash_suite: config.hash_suite,
                commitment_mode: config.commitment_mode,
                block_payload_size: config.block_payload_size,
                block_count: 0,
                bootstrap_nonce: nonce,
                flags: config.flags,
            };
            let params_canonical = bootstrap.params_canonical();
            let params_hash = compute_params_hash(&params_canonical, config.hash_suite);
            let c0 = compute_c0(&params_canonical, &nonce, config.hash_suite);
            let has_merkle = bootstrap.family_b();
            let merkle_root = if has_merkle {
                let tree = MerkleTree::build_from_leaves(&[], config.hash_suite);
                Some(tree.root)
            } else {
                None
            };
            let empty: Vec<Vec<u8>> = Vec::new();
            let footer_bytes = StreamFooter::encode(c0, merkle_root, empty.as_slice(), &params_hash, config.hash_suite);
            proof {
                assert(vec_views(empty@) =~= Seq::<Seq<u8>>::empty());
                if has_merkle {
                    assert(spec_root(Seq::<[u8; 32]>::empty(), config.hash_suite) == zero_hash());
                }
            }
            return Ok((footer_bytes, 0));
        }
        if self.is_encrypted() && config.block_payload_size == 16 {
            return Err(CbcError::msg(no_room_message(config.block_payload_size)));
        }
        let empty: Vec<Vec<u8>> = Vec::new();
        proof {
            assert(vec_views(empty@) =~= Seq::<Seq<u8>>::empty());
            assert(encode_admissible(config, self.buffer@));
        }
        match encode_counted(&config, self.buffer.as_slice(), nonce, empty.as_slice()) {
            Ok((artifact, count)) => {
                let ghost a = artifact@;
                proof {
                    assert(a.len() >= 64) by {
                        crate::bootstrap::lemma_bootstrap_bytes_len(crate::encoder::spec_segment(config, crate::encoder::spec_chunks(self.buffer@, crate::encoder::effective_size(config)).len(), nonce));
                    }
                }
                let body = slice_subrange(artifact.as_slice(), 64, artifact.len());
                let mut out: Vec<u8> = Vec::new();
                append_bytes(&mut out, body);
                proof { assert(out@ =~= a.skip(64)); }
                Ok((out, count))
            },
            Err(e) => Err(e),
        }
    }
}

/// The bootstrap segment a stream writes: the encoder's settings and
/// nonce, with `block_count` blocks (0 while streaming, the final count
/// once the stream is finished).
pub fn stream_bootstrap(config: &EncoderConfig, nonce: [u8; 16], block_count: u32) -> (r: [u8; 64])
    ensures
        r@ == crate::bootstrap::spec_bootstrap_bytes(BootstrapSegment { block_count, ..stream_segment(*config, nonce) }),
{
    let bootstrap = BootstrapSegment {
        hash_suite: config.hash_suite,
        commitment_mode: config.commitment_mode,
        block_payload_size: config.block_payload_size,
        block_count,
        bootstrap_nonce: nonce,
        flags: config.flags,
    };
    bootstrap.encode()
}

/// A streamed artifact, its bootstrap segment patched with the final
/// block count, is the batch encoding of the same input.
pub proof fn lemma_stream_matches_batch(c: EncoderConfig, nonce: [u8; 16], p: Seq<u8>)
    requires
        p.len() > 0,
        !cfg_compressed(c),
        !(cfg_encrypted(c) && c.block_payload_size == 16),
    ensures
        match (spec_stream_finish(c, nonce, p), spec_encode(c, p, nonce, Seq::empty())) {
            (Ok((s, n)), Ok(a)) => crate::bootstrap::spec_bootstrap_bytes(BootstrapSegment { block_count: n, ..stream_segment(c, nonce) }) + s == a,
            (Err(e), Err(d)) => e == d,
            _ => false,
        },
{
    match spec_encode(c, p, nonce, Seq::empty()) {
        Ok(a) => {
            let chunks = crate::encoder::spec_chunks(p, crate::encoder::effective_size(c));
            let seg = crate::encoder::spec_segment(c, chunks.len(), nonce);
            crate::bootstrap::lemma_bootstrap_bytes_len(seg);
            assert(BootstrapSegment { block_count: spec_block_count(c, p), ..stream_segment(c, nonce) } == seg);
            assert(a.take(64) =~= crate::bootstrap::spec_bootstrap_bytes(seg));
            assert(a.take(64) + a.skip(64) =~= a);
        },
        Err(e) => {},
    }
}

/// A streaming decoder's state as plain values.
pub struct StreamingDecoderView {
    pub key: Option<[u8; 32]>,
    pub bootstrap: Option<BootstrapSegment>,
    pub params_hash: [u8; 32],
    pub prev_commitment: [u8; 32],
    pub expected_index: u32,
    pub payload: Seq<u8>,
    pub padded_payloads: Seq<Seq<u8>>,
}

/// Streaming decoder.
pub struct StreamingDecoder {
    decryption_key: Option<[u8; 32]>,
    bootstrap: Option<BootstrapSegment>,
    params_hash: [u8; 32],
    prev_commitment: [u8; 32],
    expected_index: u32,
    payload: Vec<u8>,
    padded_payloads: Vec<Vec<u8>>,
}

impl View for StreamingDecoder {
    type V = StreamingDecoderView;

    closed spec fn view(&self) -> StreamingDecoderView {
        StreamingDecoderView {
            key: self.decryption_key,
            bootstrap: self.bootstrap,
            params_hash: self.params_hash,
            prev_commitment: self.prev_commitment,
            expected_index: self.expected_index,
            payload: self.payload@,
            padded_payloads: vec_views(self.padded_payloads@),
        }
    }
}

/// The initial state of a decoder with `key`.
pub open spec fn decoder_start(key: Option<[u8; 32]>) -> StreamingDecoderView {
    StreamingDecoderView {
        key,
        bootstrap: None,
        params_hash: seq_to_array_zero(),
        prev_commitment: seq_to_array_zero(),
        expected_index: 0,
        payload: Seq::empty(),
        padded_payloads: Seq::empty(),
    }
}

/// The all-zero 32-byte array.
pub open spec fn seq_to_array_zero() -> [u8; 32] {
    zero_hash()
}

/// The block decrypted when the artifact is encrypted: its payload becomes
/// the plaintext, and its header records the plaintext's length and check.
pub open spec fn spec_open_block(key: Option<[u8; 32]>, bs: BootstrapSegment, blk: BlockModel) -> Result<BlockModel> {
    if bs.flags & 0x02 != 0 {
        match key {
            None => Err(CbcError::MissingEncryptionKey),
            Some(k) => match aes256gcm_open(k@, spec_block_nonce(bs.bootstrap_nonce@, blk.header.block_index), blk.payload) {
                None => Err(CbcError::DecryptionError(arbitrary())),
                Some(pt) => Ok(BlockModel {
                    header: BlockHeader {
                        payload_length: pt.len() as u32,
                        local_check: crate::block::crc32c_checksum(spec_padded(pt, bs.block_payload_size)),
                        ..blk.header
                    },
                    payload: pt,
                    commitment: blk.commitment,
                }),
            },
        }
    } else {
        Ok(blk)
    }
}

/// What the block whose wire form starts `b` gives: its payload, its
/// padded payload and its chain commitment, or the first failed check.
pub open spec fn spec_stream_block(st: StreamingDecoderView, bs: BootstrapSegment, b: Seq<u8>, is_last: bool) -> Result<(Seq<u8>, Seq<u8>, [u8; 32])> {
    let bps = bs.block_payload_size;
    match spec_block_error(b, bps, st.expected_index, is_last) {
        Some(e) => Err(e),
        None => match spec_open_block(st.key, bs, spec_block_at(b, bps)) {
            Err(e) => Err(e),
            Ok(blk) => {
                let padded = spec_padded(blk.payload, bps);
                let c = spec_ci(st.params_hash@, spec_header_bytes(blk.header), padded, st.prev_commitment@, bs.hash_suite);
                if c != blk.commitment {
                    Err(CbcError::ChainCommitmentMismatch { index: st.expected_index })
                } else if !is_last && blk.header.payload_length != bps {
                    Err(CbcError::NonFullPayload { index: st.expected_index, length: blk.header.payload_length, expected: bps })
                } else {
                    Ok((blk.payload, padded, c))
                }
            },
        },
    }
}

/// What feeding `bytes` (a block, after its marker under Family C) gives.
pub open spec fn spec_feed_block(st: StreamingDecoderView, bytes: Seq<u8>, is_last: bool) -> Result<(Seq<u8>, Seq<u8>, [u8; 32])> {
    match st.bootstrap {
        None => Err(CbcError::FooterCommitmentMismatch),
        Some(bs) => {
            let bps = bs.block_payload_size;
            if bs.commitment_mode & 0x04 != 0 {
                let ps = spec_prefix_marker_size(bps);
                if bytes.len() < ps {
                    Err(CbcError::InsufficientData { need: ps as usize, have: bytes.len() as usize })
                } else if !marker_ok(bytes.take(ps)) {
                    Err(CbcError::PrefixParseError(arbitrary()))
                } else if spec_marker_fields(bytes.take(ps)) != (BLOCK_TYPE_DATA, bps, ps as usize) {
                    Err(CbcError::PrefixParseError(arbitrary()))
                } else {
                    spec_stream_block(st, bs, bytes.skip(ps), is_last)
                }
            } else {
                spec_stream_block(st, bs, bytes, is_last)
            }
        },
    }
}

/// Where a fed block's padded payload starts: after its marker, if its
/// artifact uses them, and its 16-byte header.
pub open spec fn fed_payload_offset(bs: BootstrapSegment) -> int {
    (if bs.commitment_mode & 0x04 != 0 { spec_prefix_marker_size(bs.block_payload_size) } else { 0int }) + 16
}

/// A block changed in one byte of its padded payload, a flipped bit among
/// them, is refused by the streaming decoder: where feeding `bytes` is
/// accepted, feeding bytes that differ from them in exactly one byte of
/// the padded payload fails its CRC-32C check (and `feed_block` then
/// leaves the decoder as it was).
pub proof fn lemma_fed_payload_change_rejected(st: StreamingDecoderView, bytes: Seq<u8>, bytes2: Seq<u8>, is_last: bool, p: int)
    requires
        spec_feed_block(st, bytes, is_last) is Ok,
        0 <= p < st.bootstrap->Some_0.block_payload_size,
        bytes2.len() == bytes.len(),
        ({
            let at = fed_payload_offset(st.bootstrap->Some_0) + p;
            &&& bytes2[at] != bytes[at]
            &&& forall|x: int| 0 <= x < bytes.len() && x != at ==> bytes2[x] == bytes[x]
        }),
    ensures
        spec_feed_block(st, bytes2, is_last) is Err,
{
    let bs = st.bootstrap->Some_0;
    let bps = bs.block_payload_size;
    let hp = bs.commitment_mode & 0x04 != 0;
    let ps = if hp { spec_prefix_marker_size(bps) } else { 0int };
    let at = ps + 16 + p;
    assert(ps >= 0) by {
        if hp {
            crate::prefix::lemma_marker_size_small(bps);
        }
    }
    let b = bytes.skip(ps);
    let b2 = bytes2.skip(ps);
    if hp {
        assert(bytes2.take(ps) =~= bytes.take(ps));
    } else {
        assert(b =~= bytes && b2 =~= bytes2);
    }
    assert(b.subrange(0, 16) =~= b2.subrange(0, 16));
    let s1 = b.subrange(16, 16 + bps);
    let s2 = b2.subrange(16, 16 + bps);
    assert(s1[p] == bytes[at] && s2[p] == bytes2[at]);
    assert forall|x: int| 0 <= x < s1.len() && x != p implies s1[x] == s2[x] by {
        assert(s1[x] == bytes[ps + 16 + x]);
        assert(s2[x] == bytes2[ps + 16 + x]);
    }
    crate::block::lemma_crc32c_detects_one_byte(s1, s2, p);
}

/// A block out of turn is refused by its index: where a decoder expecting
/// block `j` would accept `bytes`, a decoder in any state expecting another
/// block `k` refuses them with `BlockIndexMismatch { expected: k, got: j }`
/// (and `feed_block` then leaves it as it was).
pub proof fn lemma_fed_block_out_of_turn(st: StreamingDecoderView, bytes: Seq<u8>, is_last: bool, j: u32)
    requires
        spec_feed_block(StreamingDecoderView { expected_index: j, ..st }, bytes, is_last) is Ok,
        j != st.expected_index,
    ensures
        spec_feed_block(st, bytes, is_last)
            == Err::<(Seq<u8>, Seq<u8>, [u8; 32]), CbcError>(CbcError::BlockIndexMismatch { expected: st.expected_index, got: j }),
{
    let bs = st.bootstrap->Some_0;
    let bps = bs.block_payload_size;
    let hp = bs.commitment_mode & 0x04 != 0;
    let ps = if hp { spec_prefix_marker_size(bps) } else { 0int };
    let b = if hp { bytes.skip(ps) } else { bytes };
    let stj = StreamingDecoderView { expected_index: j, ..st };
    assert(spec_block_error(b, bps, j, is_last) is None);
    assert(crate::block::spec_decode_header(b.subrange(0, 16)).block_index == j);
}

/// The state after a block was accepted.
pub open spec fn after_block(st: StreamingDecoderView, chunk: Seq<u8>, padded: Seq<u8>, c: [u8; 32]) -> StreamingDecoderView {
    StreamingDecoderView {
        payload: st.payload + chunk,
        padded_payloads: st.padded_payloads.push(padded),
        prev_commitment: c,
        expected_index: (st.expected_index + 1) as u32,
        ..st
    }
}

/// The most bytes a compressed stream may expand to: 256 MiB.
pub const MAX_DECOMPRESSED_SIZE: u64 = 268435456;

/// The bytes that reading at most `limit` bytes from a
/// `zstd::stream::read::Decoder` over `data` yields, or nothing when the
/// read fails.
pub uninterp spec fn zstd_read_limited(data: Seq<u8>, limit: nat) -> Option<Seq<u8>>;

/// Reads at most `limit` bytes from a `zstd::stream::read::Decoder` over
/// `data` (`Read::take` then `read_to_end`). At most `limit` bytes come
/// back; fewer mean the decoder reached the end of its output, which is
/// then what `zstd::decode_all` gives. What the message of the error
/// string says is not stated.
#[verifier::external_body]
fn zstd_decode_limited(data: &[u8], limit: u64) -> (r: core::result::Result<Vec<u8>, String>)
    ensures
        match r {
            Ok(v) => zstd_read_limited(data@, limit as nat) == Some(v@) && v@.len() <= limit
                && (v@.len() < limit ==> zstd_decode_all(data@) == Some(v@)),
            Err(_) => zstd_read_limited(data@, limit as nat) is None,
        },
{
    let decoder = match zstd::stream::read::Decoder::new(data) {
        Ok(d) => d,
        Err(e) => return Err(e.to_string()),
    };
    let mut out = Vec::new();
    match decoder.take(limit).read_to_end(&mut out) {
        Ok(_) => Ok(out),
        Err(e) => Err(e.to_string()),
    }
}

/// The message for an expansion past the limit.
fn too_large_message() -> (r: String)
    ensures
        r@ == "Decompression exceeded 256 MiB limit (Zip-Bomb protection)"@,
{
    String::from_str("Decompression exceeded 256 MiB limit (Zip-Bomb protection)")
}

/// What finishing the stream with `footer` yields: the payload, or the
/// first failed check. A compressed payload is expanded, to at most
/// 256 MiB.
pub open spec fn spec_stream_final(st: StreamingDecoderView, footer: Seq<u8>) -> Result<Seq<u8>> {
    match st.bootstrap {
        None => Err(CbcError::FooterCommitmentMismatch),
        Some(bs) => match spec_decode_footer(footer, bs.commitment_mode & 0x02 != 0, st.params_hash@, bs.hash_suite) {
            Err(e) => Err(e),
            Ok(f) => {
                if f.chain_root != st.prev_commitment {
                    Err(CbcError::ChainRootMismatch)
                } else if f.merkle_root is Some
                    && f.merkle_root->0 != spec_root(spec_leaves(st.params_hash@, st.padded_payloads, bs.hash_suite), bs.hash_suite) {
                    Err(CbcError::MerkleRootMismatch)
                } else if bs.flags & 0x01 != 0 {
                    match zstd_read_limited(st.payload, (MAX_DECOMPRESSED_SIZE + 1) as nat) {
                        None => Err(CbcError::DecompressionError(arbitrary())),
                        Some(v) => if v.len() > MAX_DECOMPRESSED_SIZE {
                            Err(CbcError::DecompressionError(arbitrary()))
                        } else {
                            Ok(v)
                        },
                    }
                } else {
                    Ok(st.payload)
                }
            },
        },
    }
}

impl Default for StreamingDecoder {
    fn default() -> (d: Self)
        ensures
            d@ == decoder_start(None),
    {
        Self::new(None)
    }
}

impl StreamingDecoder {
    /// A decoder that has a bootstrap segment has a valid payload size.
    #[verifier::type_invariant]
    spec fn bootstrap_valid(&self) -> bool {
        self.bootstrap matches Some(bs) ==> valid_block_payload_size(bs.block_payload_size)
    }

    pub fn new(key: Option<[u8; 32]>) -> (d: Self)
        ensures
            d@ == decoder_start(key),
    {
        let d = StreamingDecoder {
            decryption_key: key,
            bootstrap: None,
            params_hash: [0u8; 32],
            prev_commitment: [0u8; 32],
            expected_index: 0,
            payload: Vec::new(),
            padded_payloads: Vec::new(),
        };
        proof {
            broadcast use vstd::array::group_array_axioms;
            crate::bootstrap::lemma_seq_to_array(d.params_hash);
            assert(d.params_hash@ =~= crate::bytes::zeros(32));
            assert(vec_views(d.padded_payloads@) =~= Seq::<Seq<u8>>::empty());
        }
        d
    }

    /// The bootstrap segment fed so far, if any.
    pub fn bootstrap(&self) -> (r: Option<&BootstrapSegment>)
        ensures
            match (r, self@.bootstrap) {
                (Some(a), Some(b)) => *a == b,
                (None, None) => true,
                _ => false,
            },
    {
        match &self.bootstrap {
            Some(b) => Some(b),
            None => None,
        }
    }

    /// Take in the 64-byte bootstrap segment: on success the chain starts
    /// at its c0; on failure nothing changes.
    pub fn feed_bootstrap(&mut self, bootstrap_bytes: &[u8]) -> (r: Result<()>)
        ensures
            bootstrap_bytes@.len() != 64 ==> r == Err::<(), CbcError>(CbcError::InsufficientData { need: 64, have: bootstrap_bytes@.len() as usize })
                && final(self)@ == old(self)@,
            bootstrap_bytes@.len() == 64 ==> match (r, spec_decode_bootstrap(bootstrap_bytes@)) {
                (Ok(()), Ok(bs)) => final(self)@ == (StreamingDecoderView {
                    bootstrap: Some(bs),
                    params_hash: spec_params_hash(spec_params(bs), bs.hash_suite),
                    prev_commitment: spec_c0(spec_params(bs), bs.bootstrap_nonce@, bs.hash_suite),
                    ..old(self)@
                }),
                (Err(e), Err(d)) => e == d && final(self)@ == old(self)@,
                _ => false,
            },
    {
        proof { use_type_invariant(&*self); }
        if bootstrap_bytes.len() != 64 {
            return Err(CbcError::InsufficientData { need: 64, have: bootstrap_bytes.len() });
        }
        let mut arr = [0u8; 64];
        crate::bytes::fill_array(&mut arr, bootstrap_bytes);
        let bs = match BootstrapSegment::decode(&arr) {
            Ok(b) => b,
            Err(e) => {
                return Err(e);
            },
        };
        proof { crate::bootstrap::lemma_decoded_valid(arr@); }
        let params = bs.params_canonical();
        self.params_hash = compute_params_hash(&params, bs.hash_suite);
        self.prev_commitment = compute_c0(&params, &bs.bootstrap_nonce, bs.hash_suite);
        self.bootstrap = Some(bs);
        Ok(())
    }

    /// Take in one block (after its marker, under Family C): on success it
    /// gives the block's payload and extends the chain; on failure nothing
    /// changes.
    pub fn feed_block(&mut self, block_bytes: &[u8], is_last: bool) -> (r: Result<Vec<u8>>)
        requires
            old(self)@.expected_index < u32::MAX,
        ensures
            match (r, spec_feed_block(old(self)@, block_bytes@, is_last)) {
                (Ok(v), Ok((chunk, padded, c))) => v@ == chunk && final(self)@ == after_block(old(self)@, chunk, padded, c),
                (Err(e), Err(d)) => same_error(e, d) && final(self)@ == old(self)@,
                _ => false,
            },
    {
        proof { use_type_invariant(&*self); }
        let bootstrap = match self.bootstrap {
            Some(b) => b,
            None => {
                return Err(CbcError::FooterCommitmentMismatch);
            },
        };
        let bps = bootstrap.block_payload_size;
        let body = if bootstrap.family_c() {
            let prefix_size = prefix_marker_size(bps);
            if block_bytes.len() < prefix_size {
                return Err(CbcError::InsufficientData { need: prefix_size, have: block_bytes.len() });
            }
            let marker = slice_subrange(block_bytes, 0, prefix_size);
            proof { assert(marker@ =~= block_bytes@.take(prefix_size as int)); }
            let (bt, ps, c) = match decode_prefix_marker(marker) {
                Ok(f) => f,
                Err(e) => {
                    return Err(e);
                },
            };
            if bt != BLOCK_TYPE_DATA || ps != bps || c != prefix_size {
                return Err(CbcError::PrefixParseError("invalid streaming prefix".to_owned()));
            }
            let rest = slice_subrange(block_bytes, prefix_size, block_bytes.len());
            proof { assert(rest@ =~= block_bytes@.skip(prefix_size as int)); }
            rest
        } else {
            block_bytes
        };
        let mut block = match Block::decode(body, bps, self.expected_index, is_last) {
            Ok(b) => b,
            Err(e) => {
                return Err(e);
            },
        };
        proof {
            broadcast use vstd::array::group_array_axioms;
            crate::bootstrap::lemma_seq_to_array(block.commitment);
            assert(block@ =~= spec_block_at(body@, bps));
        }
        if bootstrap.flags & crate::bootstrap::FLAG_ENCRYPTED != 0 {
            let key = match self.decryption_key {
                Some(k) => k,
                None => {
                    return Err(CbcError::MissingEncryptionKey);
                },
            };
            match block.decrypt(&key, &bootstrap.bootstrap_nonce, bps) {
                Ok(()) => {},
                Err(e) => {
                    return Err(e);
                },
            }
        }
        let ghost opened = block@;
        let padded = block.padded_payload(bps);
        let header_bytes = block.header.encode();
        let commitment = compute_ci(&self.params_hash, &header_bytes, padded.as_slice(), &self.prev_commitment, bootstrap.hash_suite);
        if !hash_eq(&commitment, &block.commitment) {
            return Err(CbcError::ChainCommitmentMismatch { index: self.expected_index });
        }
        if !is_last && block.header.payload_length != bps {
            return Err(CbcError::NonFullPayload { index: self.expected_index, length: block.header.payload_length, expected: bps });
        }
        let mut result: Vec<u8> = Vec::new();
        append_bytes(&mut result, block.payload.as_slice());
        let mut all: Vec<u8> = Vec::new();
        std::mem::swap(&mut all, &mut self.payload);
        append_bytes(&mut all, block.payload.as_slice());
        self.payload = all;
        let mut paddeds: Vec<Vec<u8>> = Vec::new();
        std::mem::swap(&mut paddeds, &mut self.padded_payloads);
        let ghost before = paddeds@;
        paddeds.push(padded);
        proof { assert(vec_views(paddeds@) =~= vec_views(before).push(padded@)); }
        self.padded_payloads = paddeds;
        self.prev_commitment = commitment;
        self.expected_index = self.expected_index + 1;
        Ok(result)
    }

    /// Check the footer and give the payload: the footer must close the
    /// chain at the last commitment, and its Merkle root, when it has one,
    /// must be that of the blocks.
    pub fn finalize(self, footer_bytes: &[u8]) -> (r: Result<Vec<u8>>)
        ensures
            match (r, spec_stream_final(self@, footer_bytes@)) {
                (Ok(v), Ok(s)) => v@ == s,
                (Err(e), Err(d)) => same_error(e, d),
                _ => false,
            },
    {
        let bootstrap = match self.bootstrap {
            Some(b) => b,
            None => {
                return Err(CbcError::FooterCommitmentMismatch);
            },
        };
        let footer = match StreamFooter::decode(footer_bytes, bootstrap.family_b(), &self.params_hash, bootstrap.hash_suite) {
            Ok(f) => f,
            Err(e) => {
                return Err(e);
            },
        };
        if !hash_eq(&footer.chain_root, &self.prev_commitment) {
            return Err(CbcError::ChainRootMismatch);
        }
        match footer.merkle_root {
            Some(mr) => {
                let tree = MerkleTree::build(&self.params_hash, self.padded_payloads.as_slice(), bootstrap.hash_suite);
                if !hash_eq(&mr, &tree.root) {
                    return Err(CbcError::MerkleRootMismatch);
                }
            },
            None => {},
        }
        if bootstrap.flags & crate::bootstrap::FLAG_COMPRESSED != 0 {
            let decompressed = match zstd_decode_limited(self.payload.as_slice(), MAX_DECOMPRESSED_SIZE + 1) {
                Ok(v) => v,
                Err(s) => {
                    return Err(CbcError::DecompressionError(s));
                },
            };
            if decompressed.len() as u64 > MAX_DECOMPRESSED_SIZE {
                return Err(CbcError::DecompressionError(too_large_message()));
            }
            Ok(decompressed)
        } else {
            Ok(self.payload)
        }
    }
}

} // verus!
