//! Encoder: payload to CBC artifact.
use crate::block::{
    aes256gcm_open, aes256gcm_seal, crc32c_checksum, spec_block_bytes, spec_block_nonce, spec_padded, wire_size_fits,
    Block, BlockHeader, BlockModel, block_views,
};
use crate::bootstrap::{
    spec_bootstrap_bytes, spec_params, BootstrapSegment, FAMILY_A_BIT, FAMILY_B_BIT, FAMILY_C_BIT,
    FLAG_COMPRESSED, FLAG_ENCRYPTED,
};
use crate::bytes::{append_bytes, copy_range, low32, trunc32, zeros};
use crate::chain::{chain_link, compute_chain, compute_params_hash, spec_c0, spec_params_hash};
use crate::compression::{compress, zstd_decode_all, zstd_encode_all};
use crate::decoder::{lemma_decode_needs_integrity, spec_decode, spec_integrity, DecodedView};
use crate::roundtrip::{calls_ok, lemma_encode_decode, lemma_truncation_rejected, roundtrip_ok, rt_chunks, rt_models, spec_block_key, spec_decoded_of, spec_processed};
use crate::error::{other_error, same_error, CbcError, Result};
use crate::footer::{spec_footer_bytes, vec_views, StreamFooter};
use crate::hash::HashSuite;
use crate::merkle::{spec_leaves, spec_root, MerkleTree};
use crate::prefix::{encode_prefix_marker, spec_prefix_marker, BLOCK_TYPE_DATA};
use crate::text::{decimal, spec_decimal};
use vstd::prelude::*;
use vstd::string::*;

verus! {

/// Configuration for encoding a CBC artifact.
#[derive(Debug, Clone, Copy)]
pub struct EncoderConfig {
    pub hash_suite: HashSuite,
    pub commitment_mode: u8,
    pub block_payload_size: u32,
    pub flags: u32,
    /// Symmetric key for encryption (32 bytes for AES-GCM-256).
    pub encryption_key: Option<[u8; 32]>,
}

impl Default for EncoderConfig {
    fn default() -> (c: Self)
        ensures
            c == (EncoderConfig {
                hash_suite: HashSuite::Blake3,
                commitment_mode: 0x01,
                block_payload_size: 4096,
                flags: 0,
                encryption_key: None,
            }),
    {
        EncoderConfig {
            hash_suite: HashSuite::Blake3,
            commitment_mode: FAMILY_A_BIT,
            block_payload_size: 4096,
            flags: 0,
            encryption_key: None,
        }
    }
}

/// The payload cut into pieces of `size` bytes, the last possibly
/// shorter; an empty payload gives one empty piece.
pub open spec fn spec_chunks(p: Seq<u8>, size: nat) -> Seq<Seq<u8>>
    decreases p.len(),
{
    if size == 0 || p.len() <= size {
        seq![p]
    } else {
        seq![p.take(size as int)] + spec_chunks(p.skip(size as int), size)
    }
}

/// Whether encryption is requested.
pub open spec fn cfg_encrypted(c: EncoderConfig) -> bool {
    c.flags & 0x02 != 0
}

/// Whether compression is requested.
pub open spec fn cfg_compressed(c: EncoderConfig) -> bool {
    c.flags & 0x01 != 0
}

/// The payload bytes each block carries before encryption.
pub open spec fn effective_size(c: EncoderConfig) -> nat {
    if cfg_encrypted(c) { (c.block_payload_size - 16) as nat } else { c.block_payload_size as nat }
}

/// Block `i` of an artifact, carrying the piece `chunk` (encrypted under
/// `key` when given), with an all-zero commitment.
pub open spec fn spec_block_model(i: int, chunk: Seq<u8>, bps: u32, nonce: [u8; 16], key: Option<[u8; 32]>) -> BlockModel {
    let data = match key {
        Some(k) => aes256gcm_seal(k@, spec_block_nonce(nonce@, trunc32(i)), chunk),
        None => chunk,
    };
    BlockModel {
        header: BlockHeader {
            block_index: trunc32(i),
            payload_length: data.len() as u32,
            block_flags: 0,
            local_check: crc32c_checksum(spec_padded(data, bps)),
        },
        payload: data,
        commitment: crate::merkle::zero_hash(),
    }
}

/// The blocks for the pieces of a payload.
pub open spec fn spec_block_models(chunks: Seq<Seq<u8>>, bps: u32, nonce: [u8; 16], key: Option<[u8; 32]>) -> Seq<BlockModel> {
    Seq::new(chunks.len(), |i: int| spec_block_model(i, chunks[i], bps, nonce, key))
}

/// The blocks with their chain commitments filled in.
pub open spec fn with_commitments(models: Seq<BlockModel>, params_hash: Seq<u8>, c0: [u8; 32], bps: u32, suite: HashSuite) -> Seq<BlockModel> {
    Seq::new(models.len(), |i: int| BlockModel {
        commitment: chain_link(params_hash, c0, models, bps, suite, (i + 1) as nat),
        ..models[i]
    })
}

/// The wire bytes of a run of blocks, each preceded by its Family C marker
/// when `use_prefix`.
pub open spec fn spec_blocks_bytes(blocks: Seq<BlockModel>, bps: u32, use_prefix: bool) -> Seq<u8>
    decreases blocks.len(),
{
    if blocks.len() == 0 {
        Seq::empty()
    } else {
        let b = blocks.last();
        spec_blocks_bytes(blocks.drop_last(), bps, use_prefix)
            + (if use_prefix { spec_prefix_marker(BLOCK_TYPE_DATA, bps) } else { Seq::empty() })
            + spec_block_bytes(b.header, b.payload, b.commitment@, bps)
    }
}

/// The padded payloads of a run of blocks.
pub open spec fn spec_paddeds(blocks: Seq<BlockModel>, bps: u32) -> Seq<Seq<u8>> {
    Seq::new(blocks.len(), |i: int| spec_padded(blocks[i].payload, bps))
}

/// The bootstrap segment an artifact of `n` blocks declares.
pub open spec fn spec_segment(c: EncoderConfig, n: nat, nonce: [u8; 16]) -> BootstrapSegment {
    BootstrapSegment {
        hash_suite: c.hash_suite,
        commitment_mode: c.commitment_mode,
        block_payload_size: c.block_payload_size,
        block_count: trunc32(n as int),
        bootstrap_nonce: nonce,
        flags: c.flags,
    }
}

/// The artifact bytes for an already compressed (or plain) payload.
pub open spec fn spec_artifact(c: EncoderConfig, processed: Seq<u8>, nonce: [u8; 16], receipts: Seq<Seq<u8>>) -> Seq<u8> {
    let bps = c.block_payload_size;
    let suite = c.hash_suite;
    let chunks = spec_chunks(processed, effective_size(c));
    let key = if cfg_encrypted(c) { c.encryption_key } else { None };
    let models = spec_block_models(chunks, bps, nonce, key);
    let seg = spec_segment(c, chunks.len(), nonce);
    let params = spec_params(seg);
    let ph = spec_params_hash(params, suite)@;
    let c0 = spec_c0(params, nonce@, suite);
    let root = chain_link(ph, c0, models, bps, suite, models.len());
    let mr = if c.commitment_mode & 0x02 != 0 {
        Some(spec_root(spec_leaves(ph, spec_paddeds(models, bps), suite), suite))
    } else {
        None
    };
    spec_bootstrap_bytes(seg) + spec_blocks_bytes(with_commitments(models, ph, c0, bps, suite), bps, c.commitment_mode & 0x04 != 0)
        + spec_footer_bytes(root, mr, receipts, ph, suite)
}

/// What encoding yields: the first failed check, or the artifact.
pub open spec fn spec_encode(c: EncoderConfig, payload: Seq<u8>, nonce: [u8; 16], receipts: Seq<Seq<u8>>) -> Result<Seq<u8>> {
    if c.block_payload_size == 0 {
        Err(CbcError::InvalidBlockPayloadSize(0))
    } else if cfg_encrypted(c) && c.block_payload_size < 16 {
        Err(other_error())
    } else if cfg_compressed(c) && zstd_encode_all(payload) is None {
        Err(CbcError::CompressionError(arbitrary()))
    } else if cfg_encrypted(c) && c.encryption_key is None {
        Err(CbcError::MissingEncryptionKey)
    } else {
        let processed = if cfg_compressed(c) { zstd_encode_all(payload)->0 } else { payload };
        Ok(spec_artifact(c, processed, nonce, receipts))
    }
}

/// An encoding carries its nonce in bytes 16..32.
pub proof fn lemma_nonce_in_header(c: EncoderConfig, payload: Seq<u8>, nonce: [u8; 16], receipts: Seq<Seq<u8>>)
    ensures
        spec_encode(c, payload, nonce, receipts) matches Ok(a) ==> a.len() >= 64 && a.subrange(16, 32) == nonce@,
{
    if let Ok(a) = spec_encode(c, payload, nonce, receipts) {
        let processed = if cfg_compressed(c) { zstd_encode_all(payload)->0 } else { payload };
        let seg = spec_segment(c, spec_chunks(processed, effective_size(c)).len(), nonce);
        crate::bootstrap::lemma_bootstrap_bytes_len(seg);
        broadcast use vstd::array::group_array_axioms;
        vstd::bytes::lemma_auto_spec_u16_to_from_le_bytes();
        vstd::bytes::lemma_auto_spec_u32_to_from_le_bytes();
        let h = spec_bootstrap_bytes(seg);
        let pr = spec_params(seg);
        assert(pr.len() == 40);
        assert(pr.subrange(16, 32) =~= nonce@);
        assert(h.subrange(16, 32) =~= pr.subrange(16, 32));
        assert(a.subrange(16, 32) =~= h.subrange(16, 32));
    }
}

/// Encoding depends on the nonce: the same input under two different
/// nonces gives two different artifacts.
pub proof fn lemma_nonce_changes_artifact(c: EncoderConfig, payload: Seq<u8>, n1: [u8; 16], n2: [u8; 16], receipts: Seq<Seq<u8>>)
    requires
        n1 != n2,
    ensures
        spec_encode(c, payload, n1, receipts) matches Ok(a1) ==> (spec_encode(c, payload, n2, receipts) matches Ok(a2) ==> a1 != a2),
{
    broadcast use vstd::array::group_array_axioms;
    lemma_nonce_in_header(c, payload, n1, receipts);
    lemma_nonce_in_header(c, payload, n2, receipts);
    if n1@ == n2@ {
        assert(n1 =~= n2);
    }
}

/// The inputs on which encoding does not panic: the block wire size fits
/// `usize`, and encryption leaves room for payload bytes unless there are
/// none to carry.
pub open spec fn encode_admissible(c: EncoderConfig, payload: Seq<u8>) -> bool {
    &&& wire_size_fits(c.block_payload_size)
    &&& (cfg_encrypted(c) && c.block_payload_size == 16 ==> !cfg_compressed(c) && payload.len() == 0)
}

/// The message for a block size too small to hold the encryption tag.
fn small_block_message(block_payload_size: u32) -> (r: String)
    ensures
        r@ == "block_payload_size ("@ + spec_decimal(block_payload_size as nat) + ") must be at least 16 bytes when encryption is enabled"@,
{
    String::from_str("block_payload_size (").concat(decimal(block_payload_size as u64).as_str()).concat(") must be at least 16 bytes when encryption is enabled")
}

/// The number of blocks an encoding of `payload` has.
pub open spec fn spec_block_count(c: EncoderConfig, payload: Seq<u8>) -> u32 {
    let processed = if cfg_compressed(c) { zstd_encode_all(payload)->0 } else { payload };
    trunc32(spec_chunks(processed, effective_size(c)).len() as int)
}

/// Encode a payload into a complete CBC artifact.
pub fn encode(config: &EncoderConfig, payload: &[u8], nonce: [u8; 16], receipts: &[Vec<u8>]) -> (r: Result<Vec<u8>>)
    requires
        encode_admissible(*config, payload@),
    ensures
        match (r, spec_encode(*config, payload@, nonce, vec_views(receipts@))) {
            (Ok(v), Ok(s)) => v@ == s,
            (Err(e), Err(d)) => same_error(e, d),
            _ => false,
        },
        r matches Ok(v) ==> (roundtrip_ok(*config, payload@, vec_views(receipts@)) ==>
            spec_decode(v@, config.encryption_key) == Ok::<DecodedView, CbcError>(spec_decoded_of(*config, payload@, nonce, vec_views(receipts@)))),
        r matches Ok(v) ==> (roundtrip_ok(*config, payload@, vec_views(receipts@)) ==>
            forall|n: int, k: Option<[u8; 32]>| 0 <= n < v@.len() ==> #[trigger] spec_decode(v@.take(n), k) is Err),
        r matches Ok(v) ==> (roundtrip_ok(*config, payload@, vec_views(receipts@)) ==> spec_integrity(v@) is Ok),
{
    match encode_counted(config, payload, nonce, receipts) {
        Ok((v, _)) => Ok(v),
        Err(e) => Err(e),
    }
}

/// Calls `rand::RngCore::fill_bytes` on `rand::thread_rng()`: 16 fresh
/// random bytes. Nothing is stated of the value.
#[verifier::external_body]
pub(crate) fn random_nonce() -> (r: [u8; 16]) {
    let mut nonce = [0u8; 16];
    rand::RngCore::fill_bytes(&mut rand::thread_rng(), &mut nonce);
    nonce
}

/// Encode a payload under a freshly drawn random nonce: the result is
/// what `encode` gives for some nonce.
pub fn encode_random_nonce(config: &EncoderConfig, payload: &[u8], receipts: &[Vec<u8>]) -> (r: Result<Vec<u8>>)
    requires
        encode_admissible(*config, payload@),
    ensures
        exists|nonce: [u8; 16]|
            match (r, #[trigger] spec_encode(*config, payload@, nonce, vec_views(receipts@))) {
                (Ok(v), Ok(s)) => v@ == s && (roundtrip_ok(*config, payload@, vec_views(receipts@)) ==>
                    spec_decode(v@, config.encryption_key) == Ok::<DecodedView, CbcError>(spec_decoded_of(*config, payload@, nonce, vec_views(receipts@)))),
                (Err(e), Err(d)) => same_error(e, d),
                _ => false,
            },
{
    let nonce = random_nonce();
    encode(config, payload, nonce, receipts)
}

/// Encode a payload, also giving the number of blocks.
pub(crate) fn encode_counted(config: &EncoderConfig, payload: &[u8], nonce: [u8; 16], receipts: &[Vec<u8>]) -> (r: Result<(Vec<u8>, u32)>)
    requires
        encode_admissible(*config, payload@),
    ensures
        match (r, spec_encode(*config, payload@, nonce, vec_views(receipts@))) {
            (Ok((v, n)), Ok(s)) => v@ == s && n == spec_block_count(*config, payload@),
            (Err(e), Err(d)) => same_error(e, d),
            _ => false,
        },
        r matches Ok((v, _)) ==> (roundtrip_ok(*config, payload@, vec_views(receipts@)) ==>
            spec_decode(v@, config.encryption_key) == Ok::<DecodedView, CbcError>(spec_decoded_of(*config, payload@, nonce, vec_views(receipts@)))),
        r matches Ok((v, _)) ==> (roundtrip_ok(*config, payload@, vec_views(receipts@)) ==>
            forall|n: int, k: Option<[u8; 32]>| 0 <= n < v@.len() ==> #[trigger] spec_decode(v@.take(n), k) is Err),
        r matches Ok((v, _)) ==> (roundtrip_ok(*config, payload@, vec_views(receipts@)) ==> spec_integrity(v@) is Ok),
{
    let block_payload_size = config.block_payload_size;
    if block_payload_size == 0 {
        return Err(CbcError::InvalidBlockPayloadSize(0));
    }
    let is_compressed = config.flags & FLAG_COMPRESSED != 0;
    let is_encrypted = config.flags & FLAG_ENCRYPTED != 0;
    if is_encrypted && block_payload_size < 16 {
        return Err(CbcError::msg(small_block_message(block_payload_size)));
    }
    let effective_bps = if is_encrypted { block_payload_size - 16 } else { block_payload_size };

    // 1. Optional compression
    let processed_payload = if is_compressed {
        match compress(payload) {
            Ok(c) => c,
            Err(s) => {
                return Err(CbcError::CompressionError(s));
            },
        }
    } else {
        let c = copy_range(payload, 0, payload.len());
        proof { assert(c@ =~= payload@); }
        c
    };

    proof {
        assert(processed_payload@ == spec_processed(*config, payload@));
        assert(cfg_compressed(*config) ==> zstd_decode_all(processed_payload@) == Some(payload@));
    }

    // 2. Chunk payload into blocks
    let chunks = chunk_payload(processed_payload.as_slice(), effective_bps);
    let block_count = low32(chunks.len());

    let bootstrap = BootstrapSegment {
        hash_suite: config.hash_suite,
        commitment_mode: config.commitment_mode,
        block_payload_size,
        block_count,
        bootstrap_nonce: nonce,
        flags: config.flags,
    };
    let bootstrap_bytes = bootstrap.encode();
    let params_canonical = bootstrap.params_canonical();

    // 3. Create blocks
    let key: Option<[u8; 32]> = if is_encrypted {
        match config.encryption_key {
            Some(k) => Some(k),
            None => {
                return Err(CbcError::MissingEncryptionKey);
            },
        }
    } else {
        None
    };
    let ghost models = spec_block_models(vec_views(chunks@), block_payload_size, nonce, key);
    let mut blocks = make_blocks(&chunks, block_payload_size, effective_bps, &nonce, key);
    proof {
        assert(key == spec_block_key(*config));
        assert(vec_views(chunks@) == rt_chunks(*config, payload@));
        assert(models == rt_models(*config, payload@, nonce));
        assert forall|j: int| 0 <= j < chunks@.len() implies (#[trigger] models[j]).payload.len() == vec_views(chunks@)[j].len() + (if key is Some { 16int } else { 0int }) by {
            assert(models[j] == blocks@[j]@);
        }
        if key is Some {
            assert forall|j: int| 0 <= j < chunks@.len() implies aes256gcm_open(key->0@, spec_block_nonce(nonce@, trunc32(j)), (#[trigger] models[j]).payload) == Some(vec_views(chunks@)[j]) by {
                assert(models[j] == blocks@[j]@);
            }
        }
        assert(calls_ok(*config, payload@, nonce));
    }

    // 4. Compute chain commitments
    let (commitments, chain_root) = compute_chain(&params_canonical, &nonce, blocks.as_slice(), block_payload_size, config.hash_suite);
    let ghost ph = spec_params_hash(params_canonical@, config.hash_suite)@;
    let ghost c0 = spec_c0(params_canonical@, nonce@, config.hash_suite);
    let ghost finals = with_commitments(models, ph, c0, block_payload_size, config.hash_suite);
    set_commitments(&mut blocks, &commitments, Ghost(models), Ghost(finals), Ghost(ph), Ghost(c0), block_payload_size, config.hash_suite);

    // 5. Compute Merkle tree
    let padded_payloads = padded_payloads_of(&blocks, block_payload_size, Ghost(models));
    let params_hash = compute_params_hash(&params_canonical, config.hash_suite);
    let merkle_root = if config.commitment_mode & FAMILY_B_BIT != 0 {
        let tree = MerkleTree::build(&params_hash, padded_payloads.as_slice(), config.hash_suite);
        Some(tree.root)
    } else {
        None
    };

    // 6. Build output buffer
    let mut output: Vec<u8> = Vec::new();
    append_bytes(&mut output, bootstrap_bytes.as_slice());
    let use_prefix = config.commitment_mode & FAMILY_C_BIT != 0;
    write_blocks(&mut output, &blocks, block_payload_size, use_prefix);

    // 7. Encode footer
    let footer_bytes = StreamFooter::encode(chain_root, merkle_root, receipts, &params_hash, config.hash_suite);
    append_bytes(&mut output, footer_bytes.as_slice());
    proof {
        let seg = spec_segment(*config, chunks@.len(), nonce);
        assert(bootstrap == seg);
        assert(spec_paddeds(finals, block_payload_size) =~= spec_paddeds(models, block_payload_size));
        assert(output@ == spec_artifact(*config, processed_payload@, nonce, vec_views(receipts@)));
        if roundtrip_ok(*config, payload@, vec_views(receipts@)) {
            lemma_encode_decode(*config, payload@, nonce, vec_views(receipts@));
            lemma_decode_needs_integrity(output@, config.encryption_key);
            assert forall|n: int, k: Option<[u8; 32]>| 0 <= n < output@.len() implies #[trigger] spec_decode(output@.take(n), k) is Err by {
                lemma_truncation_rejected(*config, payload@, nonce, vec_views(receipts@), k, n);
            }
        }
    }
    Ok((output, block_count))
}


/// Block `i`, carrying `chunk`, encrypted when a key is given.
fn make_block(i: usize, chunk: &Vec<u8>, block_payload_size: u32, nonce: &[u8; 16], key: Option<[u8; 32]>) -> (b: Block)
    requires
        chunk@.len() + (if key is Some { 16int } else { 0int }) <= block_payload_size,
    ensures
        b@ == spec_block_model(i as int, chunk@, block_payload_size, *nonce, key),
        b@.payload.len() == chunk@.len() + (if key is Some { 16int } else { 0int }),
        key matches Some(k) ==> aes256gcm_open(k@, spec_block_nonce(nonce@, trunc32(i as int)), b@.payload) == Some(chunk@),
{
    broadcast use vstd::array::group_array_axioms;
    let copy = copy_range(chunk.as_slice(), 0, chunk.len());
    proof { assert(copy@ =~= chunk@); }
    let mut block = Block::new(low32(i), copy, block_payload_size);
    proof {
        crate::bootstrap::lemma_seq_to_array(block.commitment);
    }
    match key {
        Some(k) => {
            let _ = block.encrypt(&k, nonce, block_payload_size);
        },
        None => {},
    }
    proof {
        assert(block.commitment@ =~= zeros(32));
        assert(block@ =~= spec_block_model(i as int, chunk@, block_payload_size, *nonce, key));
    }
    block
}

/// The blocks for all pieces.
fn make_blocks(chunks: &Vec<Vec<u8>>, block_payload_size: u32, effective_bps: u32, nonce: &[u8; 16], key: Option<[u8; 32]>) -> (blocks: Vec<Block>)
    requires
        forall|j: int| 0 <= j < chunks@.len() ==> #[trigger] chunks@[j]@.len() <= effective_bps,
        effective_bps + (if key is Some { 16int } else { 0int }) == block_payload_size,
    ensures
        block_views(blocks@) == spec_block_models(vec_views(chunks@), block_payload_size, *nonce, key),
        payloads_fit_all(block_views(blocks@), block_payload_size),
        forall|j: int| 0 <= j < chunks@.len() ==> (#[trigger] blocks@[j])@.payload.len() == chunks@[j]@.len() + (if key is Some { 16int } else { 0int }),
        forall|j: int| 0 <= j < chunks@.len() && key is Some ==> aes256gcm_open(key->0@, spec_block_nonce(nonce@, trunc32(j)), (#[trigger] blocks@[j])@.payload) == Some(chunks@[j]@),
{
    let ghost models = spec_block_models(vec_views(chunks@), block_payload_size, *nonce, key);
    let mut blocks: Vec<Block> = Vec::new();
    let mut i: usize = 0;
    while i < chunks.len()
        invariant
            i <= chunks@.len(),
            models == spec_block_models(vec_views(chunks@), block_payload_size, *nonce, key),
            forall|j: int| 0 <= j < chunks@.len() ==> #[trigger] chunks@[j]@.len() <= effective_bps,
            effective_bps + (if key is Some { 16int } else { 0int }) == block_payload_size,
            blocks@.len() == i,
            forall|j: int| 0 <= j < i ==> (#[trigger] blocks@[j])@ == models[j],
            forall|j: int| 0 <= j < i ==> (#[trigger] blocks@[j])@.payload.len() == chunks@[j]@.len() + (if key is Some { 16int } else { 0int }),
            forall|j: int| 0 <= j < i && key is Some ==> aes256gcm_open(key->0@, spec_block_nonce(nonce@, trunc32(j)), (#[trigger] blocks@[j])@.payload) == Some(chunks@[j]@),
        decreases chunks@.len() - i,
    {
        let block = make_block(i, &chunks[i], block_payload_size, nonce, key);
        proof { assert(vec_views(chunks@)[i as int] == chunks@[i as int]@); }
        blocks.push(block);
        i = i + 1;
    }
    proof {
        assert(block_views(blocks@) =~= models);
    }
    blocks
}

/// Store each block's chain commitment in it.
fn set_commitments(
    blocks: &mut Vec<Block>,
    commitments: &Vec<[u8; 32]>,
    Ghost(models): Ghost<Seq<BlockModel>>,
    Ghost(finals): Ghost<Seq<BlockModel>>,
    Ghost(ph): Ghost<Seq<u8>>,
    Ghost(c0): Ghost<[u8; 32]>,
    block_payload_size: u32,
    suite: HashSuite,
)
    requires
        block_views(old(blocks)@) == models,
        commitments@.len() == models.len(),
        forall|j: int| 0 <= j < models.len() ==> #[trigger] commitments@[j] == chain_link(ph, c0, models, block_payload_size, suite, (j + 1) as nat),
        finals == with_commitments(models, ph, c0, block_payload_size, suite),
    ensures
        block_views(final(blocks)@) == finals,
{
    let mut k: usize = 0;
    while k < blocks.len()
        invariant
            k <= blocks@.len(),
            blocks@.len() == models.len(),
            commitments@.len() == models.len(),
            forall|j: int| 0 <= j < models.len() ==> #[trigger] commitments@[j] == chain_link(ph, c0, models, block_payload_size, suite, (j + 1) as nat),
            finals == with_commitments(models, ph, c0, block_payload_size, suite),
            forall|j: int| 0 <= j < k ==> #[trigger] blocks@[j]@ == finals[j],
            forall|j: int| k <= j < models.len() ==> #[trigger] blocks@[j]@ == models[j],
        decreases blocks@.len() - k,
    {
        let c = commitments[k];
        proof { assert(blocks@[k as int]@ == models[k as int]); }
        blocks[k].commitment = c;
        proof {
            assert(blocks@[k as int]@ =~= finals[k as int]);
        }
        k = k + 1;
    }
    proof { assert(block_views(blocks@) =~= finals); }
}

/// The padded payload of every block.
pub(crate) fn padded_payloads_of(blocks: &Vec<Block>, block_payload_size: u32, Ghost(models): Ghost<Seq<BlockModel>>) -> (r: Vec<Vec<u8>>)
    requires
        payloads_fit_all(block_views(blocks@), block_payload_size),
    ensures
        vec_views(r@) == spec_paddeds(block_views(blocks@), block_payload_size),
{
    let ghost bv = block_views(blocks@);
    let mut padded_payloads: Vec<Vec<u8>> = Vec::new();
    let mut m: usize = 0;
    while m < blocks.len()
        invariant
            m <= blocks@.len(),
            bv == block_views(blocks@),
            payloads_fit_all(bv, block_payload_size),
            vec_views(padded_payloads@) == spec_paddeds(bv, block_payload_size).take(m as int),
        decreases blocks@.len() - m,
    {
        proof {
            assert(bv[m as int] == blocks@[m as int]@);
            assert(bv[m as int].payload.len() <= block_payload_size);
        }
        let p = blocks[m].padded_payload(block_payload_size);
        let ghost before = vec_views(padded_payloads@);
        padded_payloads.push(p);
        proof {
            assert(vec_views(padded_payloads@) =~= before.push(p@));
            assert(spec_paddeds(bv, block_payload_size).take(m + 1) =~= spec_paddeds(bv, block_payload_size).take(m as int).push(spec_padded(bv[m as int].payload, block_payload_size)));
        }
        m = m + 1;
    }
    proof { assert(vec_views(padded_payloads@) =~= spec_paddeds(bv, block_payload_size)); }
    padded_payloads
}

/// Append every block's wire form, each after its marker when `use_prefix`.
fn write_blocks(output: &mut Vec<u8>, blocks: &Vec<Block>, block_payload_size: u32, use_prefix: bool)
    requires
        wire_size_fits(block_payload_size),
        payloads_fit_all(block_views(blocks@), block_payload_size),
    ensures
        final(output)@ == old(output)@ + spec_blocks_bytes(block_views(blocks@), block_payload_size, use_prefix),
{
    let ghost bv = block_views(blocks@);
    let ghost start = output@;
    let mut q: usize = 0;
    while q < blocks.len()
        invariant
            q <= blocks@.len(),
            bv == block_views(blocks@),
            wire_size_fits(block_payload_size),
            payloads_fit_all(bv, block_payload_size),
            output@ == start + spec_blocks_bytes(bv.take(q as int), block_payload_size, use_prefix),
        decreases blocks@.len() - q,
    {
        if use_prefix {
            let marker = encode_prefix_marker(BLOCK_TYPE_DATA, block_payload_size);
            append_bytes(output, marker.as_slice());
        }
        proof {
            assert(bv[q as int] == blocks@[q as int]@);
            assert(bv[q as int].payload.len() <= block_payload_size);
        }
        let wire = blocks[q].encode(block_payload_size);
        append_bytes(output, wire.as_slice());
        q = q + 1;
        proof {
            let t = bv.take(q as int);
            assert(t.drop_last() =~= bv.take(q - 1));
            assert(t.last() == bv[q - 1]);
            assert(output@ =~= start + spec_blocks_bytes(bv.take(q as int), block_payload_size, use_prefix));
        }
    }
    proof { assert(bv.take(bv.len() as int) =~= bv); }
}

/// Every block's payload fits the block payload size.
pub open spec fn payloads_fit_all(blocks: Seq<BlockModel>, bps: u32) -> bool {
    forall|i: int| 0 <= i < blocks.len() ==> #[trigger] blocks[i].payload.len() <= bps
}

/// Cut the payload into pieces of `block_payload_size` bytes.
fn chunk_payload(payload: &[u8], block_payload_size: u32) -> (r: Vec<Vec<u8>>)
    requires
        block_payload_size > 0 || payload@.len() == 0,
    ensures
        vec_views(r@) == spec_chunks(payload@, block_payload_size as nat),
        forall|j: int| 0 <= j < r@.len() ==> #[trigger] r@[j]@.len() <= block_payload_size,
{
    let bps = block_payload_size as usize;
    let mut out: Vec<Vec<u8>> = Vec::new();
    if payload.len() == 0 {
        out.push(Vec::new());
        proof {
            assert(payload@ =~= Seq::<u8>::empty());
            assert(vec_views(out@) =~= spec_chunks(payload@, block_payload_size as nat));
        }
        return out;
    }
    let mut offset: usize = 0;
    proof {
        assert(payload@.skip(0) =~= payload@);
        assert(vec_views(out@) + spec_chunks(payload@, bps as nat) =~= spec_chunks(payload@, bps as nat));
    }
    loop
        invariant
            offset < payload@.len(),
            bps > 0,
            bps == block_payload_size,
            spec_chunks(payload@, bps as nat) == vec_views(out@) + spec_chunks(payload@.skip(offset as int), bps as nat),
            forall|j: int| 0 <= j < out@.len() ==> #[trigger] out@[j]@.len() <= block_payload_size,
        decreases payload@.len() - offset,
    {
        let rest = payload.len() - offset;
        let ghost tail = payload@.skip(offset as int);
        if rest <= bps {
            let piece = copy_range(payload, offset, payload.len());
            out.push(piece);
            proof {
                assert(piece@ =~= tail);
                assert(vec_views(out@) =~= vec_views(out@).drop_last() + seq![tail]);
            }
            return out;
        }
        let piece = copy_range(payload, offset, offset + bps);
        let ghost before = vec_views(out@);
        out.push(piece);
        proof {
            assert(piece@ =~= tail.take(bps as int));
            assert(tail.skip(bps as int) =~= payload@.skip(offset + bps));
            assert(vec_views(out@) =~= before.push(piece@));
            assert(spec_chunks(tail, bps as nat) == seq![tail.take(bps as int)] + spec_chunks(tail.skip(bps as int), bps as nat));
            assert(before + spec_chunks(tail, bps as nat) =~= vec_views(out@) + spec_chunks(payload@.skip(offset + bps), bps as nat));
        }
        offset = offset + bps;
    }
}

} // verus!
