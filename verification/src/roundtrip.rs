//! Decoding what the encoder wrote gives back the payload: the lemmas
//! behind the round-trip clause of `encode`.
use crate::block::{aes256gcm_open, crc32c_checksum, lemma_header_roundtrip, spec_block_bytes, spec_block_error, spec_block_nonce, spec_header_bytes, spec_padded, BlockHeader, BlockModel};
use crate::bootstrap::lemma_seq_to_array;
use crate::bytes::trunc32;
use crate::chain::{chain_link, first_bad_commitment, spec_c0, spec_params_hash};
use crate::decoder::{spec_block_at, spec_extract, spec_parse_blocks};
use crate::bootstrap::{spec_decode_bootstrap, BootstrapSegment, lemma_bootstrap_bytes_len, lemma_bootstrap_roundtrip, spec_bootstrap_bytes, spec_params, valid_block_payload_size, valid_commitment_mode, valid_segment};
use crate::compression::{zstd_decode_all, zstd_encode_all};
use crate::decoder::{spec_block_total, spec_decode, DecodedView};
use crate::encoder::{cfg_compressed, cfg_encrypted, effective_size, spec_artifact, spec_block_models, spec_blocks_bytes, spec_chunks, spec_encode, spec_paddeds, spec_segment, with_commitments, EncoderConfig};
use crate::footer::{lemma_footer_prefix_rejected, lemma_footer_roundtrip, spec_footer_bytes, spec_footer_len};
use crate::merkle::{spec_leaves, spec_root, zero_hash};
use crate::hash::HashSuite;
use crate::prefix::{lemma_prefix_marker_roundtrip, spec_prefix_marker, BLOCK_TYPE_DATA};
use crate::streaming::{spec_stream_finish, stream_segment};
use vstd::prelude::*;

verus! {

/// The concatenation of a run of byte strings.
pub open spec fn spec_concat(parts: Seq<Seq<u8>>) -> Seq<u8>
    decreases parts.len(),
{
    if parts.len() == 0 {
        Seq::empty()
    } else {
        parts[0] + spec_concat(parts.drop_first())
    }
}

/// Cutting a payload into pieces and joining them gives it back; every
/// piece fits the size, and all but the last fill it.
pub proof fn lemma_chunks(p: Seq<u8>, size: nat)
    requires
        size > 0,
    ensures
        spec_chunks(p, size).len() >= 1,
        spec_concat(spec_chunks(p, size)) == p,
        forall|j: int| 0 <= j < spec_chunks(p, size).len() ==> #[trigger] spec_chunks(p, size)[j].len() <= size,
        forall|j: int| 0 <= j < spec_chunks(p, size).len() - 1 ==> #[trigger] spec_chunks(p, size)[j].len() == size,
    decreases p.len(),
{
    let c = spec_chunks(p, size);
    if p.len() <= size {
        assert(c == seq![p]);
        assert(spec_concat(c) == p + spec_concat(c.drop_first()));
        assert(c.drop_first() =~= Seq::<Seq<u8>>::empty());
        assert(p + Seq::<u8>::empty() =~= p);
    } else {
        let rest = spec_chunks(p.skip(size as int), size);
        lemma_chunks(p.skip(size as int), size);
        assert(c == seq![p.take(size as int)] + rest);
        assert(c.drop_first() =~= rest);
        assert(spec_concat(c) == p.take(size as int) + spec_concat(rest));
        assert(p.take(size as int) + p.skip(size as int) =~= p);
        assert forall|j: int| 0 <= j < c.len() implies #[trigger] c[j].len() <= size by {
            if j > 0 { assert(c[j] == rest[j - 1]); }
        }
        assert forall|j: int| 0 <= j < c.len() - 1 implies #[trigger] c[j].len() == size by {
            if j > 0 { assert(c[j] == rest[j - 1]); }
        }
    }
}

/// The chain depends on the blocks' headers and payloads only.
pub proof fn lemma_chain_link_congruent(ph: Seq<u8>, c0: [u8; 32], a: Seq<BlockModel>, b: Seq<BlockModel>, bps: u32, suite: HashSuite, i: nat)
    requires
        i <= a.len(),
        i <= b.len(),
        forall|j: int| 0 <= j < i ==> (#[trigger] a[j]).header == b[j].header && a[j].payload == b[j].payload,
    ensures
        chain_link(ph, c0, a, bps, suite, i) == chain_link(ph, c0, b, bps, suite, i),
    decreases i,
{
    if i > 0 {
        lemma_chain_link_congruent(ph, c0, a, b, bps, suite, (i - 1) as nat);
        assert(a[i - 1].header == b[i - 1].header);
    }
}

/// A block as the encoder makes it: its header records its index, the
/// payload's length, no flags, and the check of the padded payload; the
/// payload fits, and fills the block unless it is the last.
pub open spec fn well_made(b: BlockModel, bps: u32, i: u32, is_last: bool) -> bool {
    &&& b.payload.len() <= bps
    &&& (!is_last ==> b.payload.len() == bps)
    &&& b.header == (BlockHeader {
            block_index: i,
            payload_length: b.payload.len() as u32,
            block_flags: 0,
            local_check: crc32c_checksum(spec_padded(b.payload, bps)),
        })
}

/// A well-made block, followed by anything, passes the block checks and
/// reads back as itself.
pub proof fn lemma_block_decodes(b: BlockModel, bps: u32, i: u32, is_last: bool, rest: Seq<u8>)
    requires
        well_made(b, bps, i, is_last),
    ensures
        spec_block_bytes(b.header, b.payload, b.commitment@, bps).len() == 48 + bps,
        spec_block_error(spec_block_bytes(b.header, b.payload, b.commitment@, bps) + rest, bps, i, is_last) is None,
        spec_block_at(spec_block_bytes(b.header, b.payload, b.commitment@, bps) + rest, bps) == b,
{
    broadcast use vstd::array::group_array_axioms;
    lemma_header_roundtrip(b.header);
    let padded = spec_padded(b.payload, bps);
    assert(padded.len() == bps);
    let bytes = spec_block_bytes(b.header, b.payload, b.commitment@, bps) + rest;
    assert(bytes.subrange(0, 16) =~= spec_header_bytes(b.header));
    assert(bytes.subrange(16, 16 + bps) =~= padded);
    assert(bytes.subrange(16, 16 + b.payload.len() as int) =~= b.payload);
    assert(bytes.subrange(16 + bps, 48 + bps) =~= b.commitment@);
    lemma_seq_to_array(b.commitment);
    assert(spec_block_at(bytes, bps) =~= b);
}

/// The number of bytes a block takes on the wire, marker included.
pub open spec fn block_span(bps: u32, use_prefix: bool) -> int {
    (if use_prefix { spec_prefix_marker(BLOCK_TYPE_DATA, bps).len() as int } else { 0int }) + 48 + bps
}

/// The wire bytes of one block, after its marker when `use_prefix`.
pub open spec fn framed_block(b: BlockModel, bps: u32, use_prefix: bool) -> Seq<u8> {
    (if use_prefix { spec_prefix_marker(BLOCK_TYPE_DATA, bps) } else { Seq::empty() })
        + spec_block_bytes(b.header, b.payload, b.commitment@, bps)
}

proof fn lemma_mul_step(i: int, t: int)
    ensures
        i * t + t == (i + 1) * t,
{
    assert(i * t + t == (i + 1) * t) by (nonlinear_arith);
}

/// The blocks' bytes are their framed forms, one after another, each
/// `block_span` bytes long.
pub proof fn lemma_blocks_bytes(blocks: Seq<BlockModel>, bps: u32, use_prefix: bool)
    requires
        forall|j: int| 0 <= j < blocks.len() ==> (#[trigger] blocks[j]).payload.len() <= bps,
    ensures
        spec_blocks_bytes(blocks, bps, use_prefix).len() == blocks.len() * block_span(bps, use_prefix),
        forall|j: int| 0 <= j < blocks.len() ==> spec_blocks_bytes(blocks, bps, use_prefix).subrange(
            j * block_span(bps, use_prefix), j * block_span(bps, use_prefix) + block_span(bps, use_prefix))
            == framed_block(#[trigger] blocks[j], bps, use_prefix),
    decreases blocks.len(),
{
    let t = block_span(bps, use_prefix);
    if blocks.len() > 0 {
        let init = blocks.drop_last();
        assert forall|j: int| 0 <= j < init.len() implies (#[trigger] init[j]).payload.len() <= bps by {
            assert(init[j] == blocks[j]);
        }
        lemma_blocks_bytes(init, bps, use_prefix);
        let b = blocks.last();
        let f = framed_block(b, bps, use_prefix);
        assert(spec_padded(b.payload, bps).len() == bps);
        assert(f.len() == t) by {
            broadcast use vstd::array::group_array_axioms;
            lemma_header_roundtrip(b.header);
        }
        let s = spec_blocks_bytes(blocks, bps, use_prefix);
        let si = spec_blocks_bytes(init, bps, use_prefix);
        assert(s =~= si + f);
        lemma_mul_step(init.len() as int, t);
        assert forall|j: int| 0 <= j < blocks.len() implies s.subrange(j * t, j * t + t) == framed_block(#[trigger] blocks[j], bps, use_prefix) by {
            if j < init.len() {
                assert(init[j] == blocks[j]);
                assert(j * t + t <= init.len() * t) by (nonlinear_arith)
                    requires j + 1 <= init.len(), t >= 0;
                assert(0 <= j * t) by (nonlinear_arith)
                    requires j >= 0, t >= 0;
                assert(s.subrange(j * t, j * t + t) =~= si.subrange(j * t, j * t + t));
            } else {
                assert(s.subrange(j * t, j * t + t) =~= f);
            }
        }
    }
}

/// Joining the payloads of blocks that carry the pieces (decrypting each
/// under its block's nonce when encrypted) gives the joined pieces.
pub proof fn lemma_extract(blocks: Seq<BlockModel>, chunks: Seq<Seq<u8>>, encrypted: bool, key: Option<[u8; 32]>, nonce: [u8; 16], i: nat)
    requires
        blocks.len() == chunks.len(),
        i <= blocks.len(),
        !encrypted ==> forall|j: int| 0 <= j < blocks.len() ==> (#[trigger] blocks[j]).payload == chunks[j],
        encrypted ==> key is Some && forall|j: int| 0 <= j < blocks.len() ==>
            aes256gcm_open(key->0@, spec_block_nonce(nonce@, (#[trigger] blocks[j]).header.block_index), blocks[j].payload) == Some(chunks[j]),
    ensures
        spec_extract(blocks.skip(i as int), encrypted, key, nonce) == Ok::<Seq<u8>, crate::error::CbcError>(spec_concat(chunks.skip(i as int))),
    decreases blocks.len() - i,
{
    let bs = blocks.skip(i as int);
    let cs = chunks.skip(i as int);
    if i == blocks.len() {
        assert(bs.len() == 0);
        assert(cs.len() == 0);
    } else {
        lemma_extract(blocks, chunks, encrypted, key, nonce, i + 1);
        assert(bs.drop_first() =~= blocks.skip(i + 1int));
        assert(cs.drop_first() =~= chunks.skip(i + 1int));
        assert(bs[0] == blocks[i as int]);
        assert(cs[0] == chunks[i as int]);
        assert(spec_concat(cs) == cs[0] + spec_concat(cs.drop_first()));
    }
}

/// A data-block marker for the block payload size, followed by anything,
/// is the marker the decoder expects.
proof fn lemma_marker_accepted(bps: u32, x: Seq<u8>)
    ensures
        !crate::decoder::marker_bad(spec_prefix_marker(BLOCK_TYPE_DATA, bps) + x, bps, crate::prefix::spec_prefix_marker_size(bps)),
        spec_prefix_marker(BLOCK_TYPE_DATA, bps).len() == crate::prefix::spec_prefix_marker_size(bps),
{
    lemma_prefix_marker_roundtrip(BLOCK_TYPE_DATA, bps, x);
    crate::prefix::lemma_marker_size_small(bps);
}

/// Block `i` of the blocks after a 64-byte bootstrap segment starts at
/// offset `64 + i * span`, framed, with the next right after it.
proof fn lemma_block_slot(data: Seq<u8>, boot: Seq<u8>, blocks: Seq<BlockModel>, footer: Seq<u8>, bps: u32, hp: bool, i: nat)
    requires
        boot.len() == 64,
        i < blocks.len(),
        data == boot + spec_blocks_bytes(blocks, bps, hp) + footer,
        forall|j: int| 0 <= j < blocks.len() ==> (#[trigger] blocks[j]).payload.len() <= bps,
    ensures
        data.skip(64 + i * block_span(bps, hp)) == framed_block(blocks[i as int], bps, hp) + data.skip(64 + (i + 1) * block_span(bps, hp)),
        64 + i * block_span(bps, hp) + block_span(bps, hp) == 64 + (i + 1) * block_span(bps, hp),
        64 + (i + 1) * block_span(bps, hp) <= data.len(),
        0 <= i * block_span(bps, hp),
{
    let t = block_span(bps, hp);
    lemma_blocks_bytes(blocks, bps, hp);
    let bbs = spec_blocks_bytes(blocks, bps, hp);
    let off = 64 + i * t;
    lemma_mul_step(i as int, t);
    assert((i + 1) * t <= blocks.len() * t) by (nonlinear_arith)
        requires i + 1 <= blocks.len(), t >= 0;
    assert(0 <= i * t) by (nonlinear_arith)
        requires i >= 0, t >= 0;
    assert(bbs.subrange(i * t, i * t + t) == framed_block(blocks[i as int], bps, hp));
    assert(data.subrange(off, off + t) =~= bbs.subrange(i * t, i * t + t));
    assert(data.skip(off) =~= data.subrange(off, off + t) + data.skip(off + t));
}

/// A framed well-made block at the front of `d` passes the marker check
/// (under Family C) and the block checks, and reads back as itself.
proof fn lemma_framed_decodes(d: Seq<u8>, b: BlockModel, rest: Seq<u8>, bps: u32, hp: bool, i: u32, is_last: bool)
    requires
        d == framed_block(b, bps, hp) + rest,
        well_made(b, bps, i, is_last),
    ensures
        hp ==> !crate::decoder::marker_bad(d, bps, crate::prefix::spec_prefix_marker_size(bps)),
        ({
            let ps: int = if hp { crate::prefix::spec_prefix_marker_size(bps) } else { 0int };
            &&& spec_block_error(d.skip(ps), bps, i, is_last) is None
            &&& spec_block_at(d.skip(ps), bps) == b
            &&& ps + 48 + bps == block_span(bps, hp)
        }),
{
    let m = spec_prefix_marker(BLOCK_TYPE_DATA, bps);
    let bb_bytes = spec_block_bytes(b.header, b.payload, b.commitment@, bps);
    let ps: int = if hp { crate::prefix::spec_prefix_marker_size(bps) } else { 0int };
    if hp {
        lemma_marker_accepted(bps, bb_bytes + rest);
        assert(d =~= m + (bb_bytes + rest));
        assert(d.skip(ps) =~= bb_bytes + rest);
    } else {
        assert(d.skip(ps) =~= bb_bytes + rest);
    }
    lemma_block_decodes(b, bps, i, is_last, rest);
}

/// After a 64-byte bootstrap segment, the framed well-made blocks parse
/// back as themselves, from block `i` on.
pub proof fn lemma_parse(data: Seq<u8>, boot: Seq<u8>, blocks: Seq<BlockModel>, footer: Seq<u8>, bps: u32, hp: bool, i: nat)
    requires
        boot.len() == 64,
        blocks.len() < 0x1_0000_0000,
        i <= blocks.len(),
        data == boot + spec_blocks_bytes(blocks, bps, hp) + footer,
        forall|j: int| 0 <= j < blocks.len() ==> well_made(#[trigger] blocks[j], bps, j as u32, j == blocks.len() - 1),
    ensures
        spec_parse_blocks(data, bps, blocks.len() as u32, hp,
            if hp { crate::prefix::spec_prefix_marker_size(bps) } else { 0int },
            64 + i * block_span(bps, hp), i) == Ok::<Seq<BlockModel>, crate::error::CbcError>(blocks.skip(i as int)),
    decreases blocks.len() - i,
{
    let t = block_span(bps, hp);
    let ps: int = if hp { crate::prefix::spec_prefix_marker_size(bps) } else { 0int };
    let count = blocks.len() as u32;
    let off = 64 + i * t;
    if i == blocks.len() {
        assert(blocks.skip(i as int) =~= Seq::<BlockModel>::empty());
    } else {
        assert forall|j: int| 0 <= j < blocks.len() implies (#[trigger] blocks[j]).payload.len() <= bps by {
            assert(well_made(blocks[j], bps, j as u32, j == blocks.len() - 1));
        }
        let b = blocks[i as int];
        assert(well_made(b, bps, i as u32, i == blocks.len() - 1));
        lemma_block_slot(data, boot, blocks, footer, bps, hp, i);
        lemma_framed_decodes(data.skip(off), b, data.skip(64 + (i + 1) * t), bps, hp, i as u32, i == blocks.len() - 1);
        assert(ps <= t) by { crate::prefix::lemma_marker_size_small(bps); }
        assert(data.skip(off).skip(ps) =~= data.skip(off + ps));
        lemma_parse(data, boot, blocks, footer, bps, hp, i + 1);
        assert(blocks.skip(i as int) =~= seq![b] + blocks.skip(i + 1int));
    }
}

/// The payload the blocks carry: the compressed payload under
/// compression, else the payload itself.
pub open spec fn spec_processed(c: EncoderConfig, p: Seq<u8>) -> Seq<u8> {
    if cfg_compressed(c) { zstd_encode_all(p)->0 } else { p }
}

/// The key the blocks are encrypted under, if any.
pub open spec fn spec_block_key(c: EncoderConfig) -> Option<[u8; 32]> {
    if cfg_encrypted(c) { c.encryption_key } else { None }
}

/// The Merkle root slot a footer for `c` has (its value does not matter
/// for the footer's length).
pub open spec fn footer_root_slot(c: EncoderConfig) -> Option<[u8; 32]> {
    if c.commitment_mode & 0x02 != 0 { Some(zero_hash()) } else { None }
}

/// The encodings that decode back: a valid commitment mode and block
/// size, fewer than 2^32 blocks, and receipts the footer can carry (at
/// most 65536, each and the whole footer under 4 GiB).
pub open spec fn roundtrip_ok(c: EncoderConfig, p: Seq<u8>, rs: Seq<Seq<u8>>) -> bool {
    &&& valid_commitment_mode(c.commitment_mode)
    &&& valid_block_payload_size(c.block_payload_size)
    &&& spec_chunks(spec_processed(c, p), effective_size(c)).len() < 0x1_0000_0000
    &&& rs.len() <= 65536
    &&& forall|i: int| 0 <= i < rs.len() ==> #[trigger] rs[i].len() < 0x1_0000_0000
    &&& spec_footer_len(footer_root_slot(c), rs) < 0x1_0000_0000
}

/// What decoding the encoding of `p` gives: the segment, the payload, the
/// chain and Merkle roots of the blocks, and the receipts.
pub open spec fn spec_decoded_of(c: EncoderConfig, p: Seq<u8>, nonce: [u8; 16], rs: Seq<Seq<u8>>) -> DecodedView {
    let bps = c.block_payload_size;
    let suite = c.hash_suite;
    let chunks = spec_chunks(spec_processed(c, p), effective_size(c));
    let models = spec_block_models(chunks, bps, nonce, spec_block_key(c));
    let seg = spec_segment(c, chunks.len(), nonce);
    let params = spec_params(seg);
    let ph = spec_params_hash(params, suite)@;
    let c0 = spec_c0(params, nonce@, suite);
    DecodedView {
        bootstrap: seg,
        payload: p,
        chain_root: chain_link(ph, c0, models, bps, suite, models.len()),
        merkle_root: if c.commitment_mode & 0x02 != 0 {
            Some(spec_root(spec_leaves(ph, spec_paddeds(models, bps), suite), suite))
        } else {
            None
        },
        receipt_slots: rs,
        block_count: seg.block_count,
    }
}

/// The pieces the blocks of the encoding of `p` carry.
pub open spec fn rt_chunks(c: EncoderConfig, p: Seq<u8>) -> Seq<Seq<u8>> {
    spec_chunks(spec_processed(c, p), effective_size(c))
}

/// The blocks of the encoding of `p`, before their commitments.
pub open spec fn rt_models(c: EncoderConfig, p: Seq<u8>, nonce: [u8; 16]) -> Seq<BlockModel> {
    spec_block_models(rt_chunks(c, p), c.block_payload_size, nonce, spec_block_key(c))
}

/// The bootstrap segment of the encoding of `p`.
pub open spec fn rt_seg(c: EncoderConfig, p: Seq<u8>, nonce: [u8; 16]) -> BootstrapSegment {
    spec_segment(c, rt_chunks(c, p).len(), nonce)
}

/// The params hash of the encoding of `p`.
pub open spec fn rt_ph(c: EncoderConfig, p: Seq<u8>, nonce: [u8; 16]) -> Seq<u8> {
    spec_params_hash(spec_params(rt_seg(c, p, nonce)), c.hash_suite)@
}

/// The c0 of the encoding of `p`.
pub open spec fn rt_c0(c: EncoderConfig, p: Seq<u8>, nonce: [u8; 16]) -> [u8; 32] {
    spec_c0(spec_params(rt_seg(c, p, nonce)), nonce@, c.hash_suite)
}

/// The blocks of the encoding of `p`, as written.
pub open spec fn rt_finals(c: EncoderConfig, p: Seq<u8>, nonce: [u8; 16]) -> Seq<BlockModel> {
    with_commitments(rt_models(c, p, nonce), rt_ph(c, p, nonce), rt_c0(c, p, nonce), c.block_payload_size, c.hash_suite)
}

/// What the compression and encryption calls guarantee of the pieces:
/// decompressing gives the payload back, each sealed piece is 16 bytes
/// longer and opens to the piece.
pub open spec fn calls_ok(c: EncoderConfig, p: Seq<u8>, nonce: [u8; 16]) -> bool {
    let chunks = rt_chunks(c, p);
    let key = spec_block_key(c);
    let models = rt_models(c, p, nonce);
    &&& (cfg_compressed(c) ==> zstd_decode_all(spec_processed(c, p)) == Some(p))
    &&& forall|j: int| 0 <= j < chunks.len() ==> (#[trigger] models[j]).payload.len() == chunks[j].len() + (if key is Some { 16int } else { 0int })
    &&& (key is Some ==> forall|j: int| 0 <= j < chunks.len() ==>
            aes256gcm_open(key->0@, spec_block_nonce(nonce@, trunc32(j)), (#[trigger] models[j]).payload) == Some(chunks[j]))
}

/// The blocks the encoder writes are well made.
proof fn lemma_finals_well_made(c: EncoderConfig, p: Seq<u8>, nonce: [u8; 16], rs: Seq<Seq<u8>>)
    requires
        roundtrip_ok(c, p, rs),
        calls_ok(c, p, nonce),
        cfg_encrypted(c) ==> c.encryption_key is Some,
    ensures
        forall|j: int| 0 <= j < rt_finals(c, p, nonce).len() ==>
            well_made(#[trigger] rt_finals(c, p, nonce)[j], c.block_payload_size, j as u32, j == rt_finals(c, p, nonce).len() - 1),
        forall|j: int| 0 <= j < rt_finals(c, p, nonce).len() ==> (#[trigger] rt_finals(c, p, nonce)[j]).header == rt_models(c, p, nonce)[j].header
            && rt_finals(c, p, nonce)[j].payload == rt_models(c, p, nonce)[j].payload
            && rt_finals(c, p, nonce)[j].header.block_index == trunc32(j),
        rt_finals(c, p, nonce).len() == rt_chunks(c, p).len(),
        rt_chunks(c, p).len() >= 1,
        spec_concat(rt_chunks(c, p)) == spec_processed(c, p),
{
    let bps = c.block_payload_size;
    let eff = effective_size(c);
    let chunks = rt_chunks(c, p);
    let key = spec_block_key(c);
    let models = rt_models(c, p, nonce);
    let finals = rt_finals(c, p, nonce);
    let n = chunks.len();
    assert(eff > 0);
    lemma_chunks(spec_processed(c, p), eff);
    assert forall|j: int| 0 <= j < finals.len() implies well_made(#[trigger] finals[j], bps, j as u32, j == finals.len() - 1) by {
        assert(finals[j].header == models[j].header && finals[j].payload == models[j].payload);
        assert(models[j].payload.len() == chunks[j].len() + (if key is Some { 16int } else { 0int }));
        assert(chunks[j].len() <= eff);
        if j < n - 1 { assert(chunks[j].len() == eff); }
        assert(trunc32(j) == j as u32);
    }
}

/// The artifact's bootstrap segment decodes, and its blocks parse back as
/// the blocks written, followed by the footer.
proof fn lemma_artifact_parses(c: EncoderConfig, p: Seq<u8>, nonce: [u8; 16], rs: Seq<Seq<u8>>)
    requires
        roundtrip_ok(c, p, rs),
        calls_ok(c, p, nonce),
        cfg_encrypted(c) ==> c.encryption_key is Some,
    ensures
        ({
            let data = spec_artifact(c, spec_processed(c, p), nonce, rs);
            let seg = rt_seg(c, p, nonce);
            let hp = seg.commitment_mode & 0x04 != 0;
            let end = 64 + seg.block_count * spec_block_total(seg);
            &&& data.len() >= 64
            &&& spec_decode_bootstrap(data.take(64)) == Ok::<BootstrapSegment, crate::error::CbcError>(seg)
            &&& data.len() >= end
            &&& spec_parse_blocks(data, seg.block_payload_size, seg.block_count, hp,
                    if hp { crate::prefix::spec_prefix_marker_size(seg.block_payload_size) } else { 0int }, 64, 0)
                == Ok::<Seq<BlockModel>, crate::error::CbcError>(rt_finals(c, p, nonce))
            &&& data.skip(end) == spec_footer_bytes(
                    chain_link(rt_ph(c, p, nonce), rt_c0(c, p, nonce), rt_models(c, p, nonce), c.block_payload_size, c.hash_suite, rt_models(c, p, nonce).len()),
                    spec_decoded_of(c, p, nonce, rs).merkle_root, rs, rt_ph(c, p, nonce), c.hash_suite)
        }),
{
    let bps = c.block_payload_size;
    let seg = rt_seg(c, p, nonce);
    let finals = rt_finals(c, p, nonce);
    let hp = c.commitment_mode & 0x04 != 0;
    let boot = spec_bootstrap_bytes(seg);
    let root = chain_link(rt_ph(c, p, nonce), rt_c0(c, p, nonce), rt_models(c, p, nonce), bps, c.hash_suite, rt_models(c, p, nonce).len());
    let footer = spec_footer_bytes(root, spec_decoded_of(c, p, nonce, rs).merkle_root, rs, rt_ph(c, p, nonce), c.hash_suite);
    let data = spec_artifact(c, spec_processed(c, p), nonce, rs);
    lemma_finals_well_made(c, p, nonce, rs);
    let n = finals.len();
    assert(data == boot + spec_blocks_bytes(finals, bps, hp) + footer);
    assert(valid_segment(seg));
    lemma_bootstrap_roundtrip(seg);
    lemma_bootstrap_bytes_len(seg);
    assert(data.take(64) =~= boot);
    assert(seg.block_count == n);
    assert forall|j: int| 0 <= j < finals.len() implies (#[trigger] finals[j]).payload.len() <= bps by {
        assert(well_made(finals[j], bps, j as u32, j == finals.len() - 1));
    }
    lemma_blocks_bytes(finals, bps, hp);
    let t = block_span(bps, hp);
    assert(spec_block_total(seg) == t);
    let end = 64 + n * t;
    lemma_parse(data, boot, finals, footer, bps, hp, 0);
    assert(finals.skip(0) =~= finals);
    assert(data.skip(end) =~= footer);
}

/// Decoding the artifact the encoder writes gives back the payload, the
/// roots and the receipts, given what the compression and encryption calls
/// guarantee of the pieces.
#[verifier::rlimit(50)]
pub proof fn lemma_encode_decode(c: EncoderConfig, p: Seq<u8>, nonce: [u8; 16], rs: Seq<Seq<u8>>)
    requires
        roundtrip_ok(c, p, rs),
        spec_encode(c, p, nonce, rs) is Ok,
        calls_ok(c, p, nonce),
    ensures
        spec_decode(spec_artifact(c, spec_processed(c, p), nonce, rs), c.encryption_key) == Ok::<DecodedView, crate::error::CbcError>(spec_decoded_of(c, p, nonce, rs)),
{
    let bps = c.block_payload_size;
    let suite = c.hash_suite;
    let models = rt_models(c, p, nonce);
    let finals = rt_finals(c, p, nonce);
    let ph = rt_ph(c, p, nonce);
    let c0 = rt_c0(c, p, nonce);
    let seg = rt_seg(c, p, nonce);
    let n = finals.len();
    let root = chain_link(ph, c0, models, bps, suite, models.len());
    let mr = spec_decoded_of(c, p, nonce, rs).merkle_root;
    assert(cfg_encrypted(c) ==> c.encryption_key is Some);
    lemma_finals_well_made(c, p, nonce, rs);
    lemma_artifact_parses(c, p, nonce, rs);
    // the chain over the parsed blocks is the encoder's
    lemma_chain_link_congruent(ph, c0, finals, models, bps, suite, n);
    assert forall|k: int| !first_bad_commitment(finals, ph, c0, bps, suite, k) by {
        if 0 <= k < finals.len() {
            lemma_chain_link_congruent(ph, c0, finals, models, bps, suite, (k + 1) as nat);
        }
    }
    // the footer
    assert(spec_footer_len(mr, rs) == spec_footer_len(footer_root_slot(c), rs));
    lemma_footer_roundtrip(root, mr, rs, ph, suite);
    assert(spec_paddeds(finals, bps) =~= spec_paddeds(models, bps));
    // the payload
    lemma_extract(finals, rt_chunks(c, p), cfg_encrypted(c), c.encryption_key, nonce, 0);
    assert(rt_chunks(c, p).skip(0) =~= rt_chunks(c, p));
    assert(finals.skip(0) =~= finals);
}

/// Truncation is detected: no strict prefix of the artifact the encoder
/// writes decodes, under the key it was written with or any other.
pub proof fn lemma_truncation_rejected(c: EncoderConfig, p: Seq<u8>, nonce: [u8; 16], rs: Seq<Seq<u8>>, key: Option<[u8; 32]>, n: int)
    requires
        roundtrip_ok(c, p, rs),
        calls_ok(c, p, nonce),
        cfg_encrypted(c) ==> c.encryption_key is Some,
        0 <= n < spec_artifact(c, spec_processed(c, p), nonce, rs).len(),
    ensures
        spec_decode(spec_artifact(c, spec_processed(c, p), nonce, rs).take(n), key) is Err,
{
    let data = spec_artifact(c, spec_processed(c, p), nonce, rs);
    let d = data.take(n);
    lemma_artifact_parses(c, p, nonce, rs);
    let seg = rt_seg(c, p, nonce);
    let end = 64 + seg.block_count * spec_block_total(seg);
    if n >= 64 {
        assert(d.take(64) =~= data.take(64));
        if n >= end {
            let root = chain_link(rt_ph(c, p, nonce), rt_c0(c, p, nonce), rt_models(c, p, nonce), c.block_payload_size, c.hash_suite, rt_models(c, p, nonce).len());
            let mr = spec_decoded_of(c, p, nonce, rs).merkle_root;
            let footer = spec_footer_bytes(root, mr, rs, rt_ph(c, p, nonce), c.hash_suite);
            assert(d.skip(end) =~= footer.take(n - end));
            assert(spec_footer_len(mr, rs) == spec_footer_len(footer_root_slot(c), rs));
            lemma_footer_prefix_rejected(root, mr, rs, rt_ph(c, p, nonce), c.hash_suite, n - end);
            assert(mr is Some == (seg.commitment_mode & 0x02 != 0));
        }
    }
}

/// The number of pieces a payload is cut into: one for an empty payload,
/// else its length divided by the piece size, rounded up.
pub proof fn lemma_chunk_count(p: Seq<u8>, size: nat)
    requires
        size > 0,
    ensures
        spec_chunks(p, size).len() == if p.len() == 0 { 1 } else { (p.len() + size - 1) / (size as int) },
    decreases p.len(),
{
    if p.len() <= size {
        if p.len() > 0 {
            assert((p.len() + size - 1) / (size as int) == 1) by (nonlinear_arith)
                requires 1 <= p.len() <= size;
        }
    } else {
        lemma_chunk_count(p.skip(size as int), size);
        let m = p.len() - size;
        assert((m + size - 1) / (size as int) + 1 == (p.len() + size - 1) / (size as int)) by (nonlinear_arith)
            requires m == p.len() - size, size > 0, m > 0;
    }
}

/// Decoding a plain encoding (neither compressed nor encrypted) without a
/// key gives back the payload; a segment that repeats the configuration
/// and the nonce, with one block per `block_payload_size` bytes of payload
/// (rounded up, and at least one); a Merkle root exactly under Family B;
/// and the receipts.
#[verifier::rlimit(60)]
pub proof fn lemma_plain_encode_decode_fields(c: EncoderConfig, p: Seq<u8>, nonce: [u8; 16], rs: Seq<Seq<u8>>)
    requires
        roundtrip_ok(c, p, rs),
        c.flags == 0,
    ensures
        spec_encode(c, p, nonce, rs) is Ok,
        spec_decode(spec_encode(c, p, nonce, rs)->Ok_0, None) matches Ok(d) && {
            let count: int = if p.len() == 0 { 1 } else { (p.len() + c.block_payload_size - 1) / (c.block_payload_size as int) };
            &&& d.payload == p
            &&& d.block_count == count
            &&& d.bootstrap == BootstrapSegment {
                hash_suite: c.hash_suite,
                commitment_mode: c.commitment_mode,
                block_payload_size: c.block_payload_size,
                block_count: d.block_count,
                bootstrap_nonce: nonce,
                flags: 0,
            }
            &&& (d.merkle_root is Some) == (c.commitment_mode & 0x02 != 0)
            &&& d.receipt_slots == rs
        },
{
    assert(!cfg_compressed(c) && !cfg_encrypted(c)) by {
        assert(0u8 & 0x01 == 0 && 0u8 & 0x02 == 0) by (bit_vector);
    }
    let bps = c.block_payload_size;
    assert(bps >= 512);
    assert(spec_processed(c, p) == p);
    let chunks = rt_chunks(c, p);
    let models = rt_models(c, p, nonce);
    assert forall|j: int| 0 <= j < chunks.len() implies (#[trigger] models[j]).payload.len() == chunks[j].len() + 0int by {
        assert(models[j] == crate::encoder::spec_block_model(j, chunks[j], bps, nonce, None));
    }
    assert(calls_ok(c, p, nonce));
    let art = spec_artifact(c, p, nonce, rs);
    assert(spec_encode(c, p, nonce, rs) == Ok::<Seq<u8>, crate::error::CbcError>(art));
    lemma_encode_decode(c, p, nonce, rs);
    let d = spec_decoded_of(c, p, nonce, rs);
    assert(spec_decode(art, c.encryption_key) == Ok::<DecodedView, crate::error::CbcError>(d));
    crate::decoder::lemma_decode_needs_integrity(art, c.encryption_key);
    crate::decoder::lemma_decode_is_integrity_then_finish(art, c.encryption_key);
    crate::decoder::lemma_unencrypted_decode_key_free(art, c.encryption_key, None);
    lemma_chunk_count(p, bps as nat);
    let n = chunks.len();
    assert(trunc32(n as int) == n);
    assert(d.block_count == n);
}

/// A plain payload streamed through the streaming encoder, its bootstrap
/// segment patched with the block count `finalize` reports, decodes to the
/// payload: the stream is the batch encoding, so it also has the batch
/// encoding's chain root.
pub proof fn lemma_streamed_artifact_decodes(c: EncoderConfig, nonce: [u8; 16], p: Seq<u8>)
    requires
        p.len() > 0,
        roundtrip_ok(c, p, Seq::empty()),
        c.flags == 0,
    ensures
        spec_stream_finish(c, nonce, p) matches Ok((s, n)) && {
            let a = spec_bootstrap_bytes(BootstrapSegment { block_count: n, ..stream_segment(c, nonce) }) + s;
            &&& a == spec_encode(c, p, nonce, Seq::empty())->Ok_0
            &&& spec_decode(a, None) matches Ok(d) && d.payload == p
        },
{
    assert(!cfg_compressed(c) && !cfg_encrypted(c)) by {
        assert(0u8 & 0x01 == 0 && 0u8 & 0x02 == 0) by (bit_vector);
    }
    lemma_plain_encode_decode_fields(c, p, nonce, Seq::empty());
    crate::streaming::lemma_stream_matches_batch(c, nonce, p);
}

} // verus!
