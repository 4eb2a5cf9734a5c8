//! Block format: a 16-byte header, a zero-padded payload and a 32-byte
//! commitment, with a CRC-32C over the padded payload.
use crate::bootstrap::push_u32_le;
use crate::bytes::{append_bytes, copy_range, fill_array, zero_vec, zeros};
use crate::error::{CbcError, Result};
use vstd::bytes::{spec_u32_from_le_bytes, spec_u32_to_le_bytes, u32_from_le_bytes, lemma_auto_spec_u32_to_from_le_bytes};
use aes_gcm::aead::{Aead, KeyInit};
use crate::text::{decimal, spec_decimal};
use vstd::prelude::*;
use vstd::string::*;
use vstd::slice::slice_subrange;

verus! {

/// Block header size in bytes.
pub const BLOCK_HEADER_SIZE: usize = 16;
/// Commitment size in bytes (32-byte hash output).
pub const COMMITMENT_SIZE: usize = 32;

/// One bit step of the reflected CRC-32C register (Castagnoli polynomial
/// 0x82F63B78 in reversed bit order).
pub open spec fn crc32c_bit(c: u32) -> u32 {
    if c & 1 == 1 { (c >> 1) ^ 0x82F6_3B78u32 } else { c >> 1 }
}

/// The register after taking in one byte: the byte XORed into its low
/// bits, then eight bit steps.
pub open spec fn crc32c_byte(c: u32, b: u8) -> u32 {
    crc32c_bit(crc32c_bit(crc32c_bit(crc32c_bit(crc32c_bit(crc32c_bit(crc32c_bit(crc32c_bit(c ^ (b as u32)))))))))
}

/// The register after taking in `data`, starting from all ones.
pub open spec fn crc32c_register(data: Seq<u8>) -> u32
    decreases data.len(),
{
    if data.len() == 0 {
        0xFFFF_FFFFu32
    } else {
        crc32c_byte(crc32c_register(data.drop_last()), data.last())
    }
}

/// The CRC-32C checksum of `data`: the final register with every bit
/// inverted.
pub closed spec fn crc32c_checksum(data: Seq<u8>) -> u32 {
    crc32c_register(data) ^ 0xFFFF_FFFFu32
}

/// A bit step sends different registers to different registers.
proof fn lemma_crc32c_bit_injective(a: u32, b: u32)
    requires
        a != b,
    ensures
        crc32c_bit(a) != crc32c_bit(b),
{
    assert(a != b ==> crc32c_bit(a) != crc32c_bit(b)) by (bit_vector);
}

/// Taking in a byte keeps two registers apart, and taking in two
/// different bytes sets one register apart.
proof fn lemma_crc32c_byte_apart(c1: u32, c2: u32, b1: u8, b2: u8)
    requires
        c1 != c2 && b1 == b2 || c1 == c2 && b1 != b2,
    ensures
        crc32c_byte(c1, b1) != crc32c_byte(c2, b2),
{
    let x1 = c1 ^ (b1 as u32);
    let x2 = c2 ^ (b2 as u32);
    assert(x1 != x2) by (bit_vector)
        requires
            c1 != c2 && b1 == b2 || c1 == c2 && b1 != b2,
            x1 == c1 ^ (b1 as u32),
            x2 == c2 ^ (b2 as u32);
    lemma_crc32c_bit_injective(x1, x2);
    lemma_crc32c_bit_injective(crc32c_bit(x1), crc32c_bit(x2));
    let y1 = crc32c_bit(crc32c_bit(x1));
    let y2 = crc32c_bit(crc32c_bit(x2));
    lemma_crc32c_bit_injective(y1, y2);
    lemma_crc32c_bit_injective(crc32c_bit(y1), crc32c_bit(y2));
    let z1 = crc32c_bit(crc32c_bit(y1));
    let z2 = crc32c_bit(crc32c_bit(y2));
    lemma_crc32c_bit_injective(z1, z2);
    lemma_crc32c_bit_injective(crc32c_bit(z1), crc32c_bit(z2));
    let w1 = crc32c_bit(crc32c_bit(z1));
    let w2 = crc32c_bit(crc32c_bit(z2));
    lemma_crc32c_bit_injective(w1, w2);
    lemma_crc32c_bit_injective(crc32c_bit(w1), crc32c_bit(w2));
}

/// The registers of two byte strings of one length that differ in
/// exactly the byte at `p` differ.
proof fn lemma_crc32c_register_apart(s1: Seq<u8>, s2: Seq<u8>, p: int)
    requires
        s1.len() == s2.len(),
        0 <= p < s1.len(),
        s1[p] != s2[p],
        forall|x: int| 0 <= x < s1.len() && x != p ==> s1[x] == s2[x],
    ensures
        crc32c_register(s1) != crc32c_register(s2),
    decreases s1.len(),
{
    let n = s1.len() - 1;
    if p == n {
        assert(s1.drop_last() =~= s2.drop_last());
        lemma_crc32c_byte_apart(crc32c_register(s1.drop_last()), crc32c_register(s2.drop_last()), s1.last(), s2.last());
    } else {
        lemma_crc32c_register_apart(s1.drop_last(), s2.drop_last(), p);
        lemma_crc32c_byte_apart(crc32c_register(s1.drop_last()), crc32c_register(s2.drop_last()), s1.last(), s2.last());
    }
}

/// CRC-32C detects every change confined to one byte (a flipped bit
/// among them): two byte strings of one length that differ in exactly
/// one place have different checksums.
pub proof fn lemma_crc32c_detects_one_byte(s1: Seq<u8>, s2: Seq<u8>, p: int)
    requires
        s1.len() == s2.len(),
        0 <= p < s1.len(),
        s1[p] != s2[p],
        forall|x: int| 0 <= x < s1.len() && x != p ==> s1[x] == s2[x],
    ensures
        crc32c_checksum(s1) != crc32c_checksum(s2),
{
    lemma_crc32c_register_apart(s1, s2, p);
    let r1 = crc32c_register(s1);
    let r2 = crc32c_register(s2);
    assert(r1 != r2 ==> r1 ^ 0xFFFF_FFFFu32 != r2 ^ 0xFFFF_FFFFu32) by (bit_vector);
}

/// Calls `crc32c::crc32c`, which starts the register from all ones,
/// takes in each byte through the reflected Castagnoli polynomial and
/// inverts the result: the CRC-32C of the input bytes.
#[verifier::external_body]
fn crc32c_of(data: &[u8]) -> (r: u32)
    ensures
        r == crc32c_checksum(data@),
{
    crc32c::crc32c(data)
}

/// AES-256-GCM ciphertext (with its 16-byte tag appended) of `plaintext`
/// under `key` and `nonce`, with no associated data.
pub uninterp spec fn aes256gcm_seal(key: Seq<u8>, nonce: Seq<u8>, plaintext: Seq<u8>) -> Seq<u8>;

/// AES-256-GCM decryption of `ciphertext` under `key` and `nonce`: the
/// plaintext when the tag authenticates, else nothing.
pub uninterp spec fn aes256gcm_open(key: Seq<u8>, nonce: Seq<u8>, ciphertext: Seq<u8>) -> Option<Seq<u8>>;

/// Calls `<aes_gcm::Aes256Gcm as aead::Aead>::encrypt`. It fails exactly
/// when the plaintext is longer than 2^36 bytes; otherwise the output is
/// the ciphertext followed by a 16-byte tag, and decrypting it under the
/// same key and nonce gives the plaintext back. What the message of the
/// error string says is not stated.
#[verifier::external_body]
fn aes_gcm_seal(key: &[u8; 32], nonce: &[u8; 12], plaintext: &[u8]) -> (r: core::result::Result<Vec<u8>, String>)
    ensures
        (r is Ok) == (plaintext@.len() <= 0x1000000000),
        r matches Ok(c) ==> {
            &&& c@ == aes256gcm_seal(key@, nonce@, plaintext@)
            &&& c@.len() == plaintext@.len() + 16
            &&& aes256gcm_open(key@, nonce@, c@) == Some(plaintext@)
        },
{
    let cipher = aes_gcm::Aes256Gcm::new(key.into());
    match cipher.encrypt(nonce.into(), plaintext) {
        Ok(c) => Ok(c),
        Err(e) => Err(e.to_string()),
    }
}

/// Calls `<aes_gcm::Aes256Gcm as aead::Aead>::decrypt`; it succeeds
/// exactly when the tag authenticates, with the plaintext, which is the
/// ciphertext without its 16-byte tag in length. What the
/// message of the error string says is not stated.
#[verifier::external_body]
fn aes_gcm_open(key: &[u8; 32], nonce: &[u8; 12], ciphertext: &[u8]) -> (r: core::result::Result<Vec<u8>, String>)
    ensures
        match r {
            Ok(p) => aes256gcm_open(key@, nonce@, ciphertext@) == Some(p@) && p@.len() + 16 == ciphertext@.len(),
            Err(_) => aes256gcm_open(key@, nonce@, ciphertext@) is None,
        },
{
    let cipher = aes_gcm::Aes256Gcm::new(key.into());
    match cipher.decrypt(nonce.into(), ciphertext) {
        Ok(p) => Ok(p),
        Err(e) => Err(e.to_string()),
    }
}

/// The message for a block size whose wire form overflows `usize`.
fn block_size_message(block_payload_size: u32) -> (r: String)
    ensures
        r@ == "block size "@ + spec_decimal(block_payload_size as nat) + " too large for platform"@,
{
    String::from_str("block size ").concat(decimal(block_payload_size as u64).as_str()).concat(" too large for platform")
}

/// Whether a block with this payload size fits the platform's `usize`.
pub open spec fn wire_size_fits(block_payload_size: u32) -> bool {
    48 + block_payload_size <= usize::MAX
}

/// Total wire size of a block: header + padded payload + commitment.
pub open spec fn spec_wire_size(block_payload_size: u32) -> int {
    48 + block_payload_size
}

/// Calculate total wire size of a single block. Returns None if overflow occurs.
pub fn block_wire_size(block_payload_size: u32) -> (r: Option<usize>)
    ensures
        match r {
            Some(n) => wire_size_fits(block_payload_size) && n == spec_wire_size(block_payload_size),
            None => !wire_size_fits(block_payload_size),
        },
{
    match BLOCK_HEADER_SIZE.checked_add(block_payload_size as usize) {
        Some(a) => a.checked_add(COMMITMENT_SIZE),
        None => None,
    }
}

/// Block header (16 bytes).
#[derive(Debug, Clone, Copy, PartialEq, Eq)]
pub struct BlockHeader {
    pub block_index: u32,
    pub payload_length: u32,
    pub block_flags: u32,
    /// CRC-32C of the padded payload bytes.
    pub local_check: u32,
}

/// A complete block: header + payload + commitment.
#[derive(Debug, Clone, PartialEq, Eq)]
pub struct Block {
    pub header: BlockHeader,
    /// The payload bytes (not zero-padded; length = header.payload_length).
    pub payload: Vec<u8>,
    /// The commitment hash (32 bytes).
    pub commitment: [u8; 32],
}

/// A block as plain values.
#[verifier::ext_equal]
pub struct BlockModel {
    pub header: BlockHeader,
    pub payload: Seq<u8>,
    pub commitment: [u8; 32],
}

impl View for Block {
    type V = BlockModel;

    open spec fn view(&self) -> BlockModel {
        BlockModel { header: self.header, payload: self.payload@, commitment: self.commitment }
    }
}

/// The views of a list of blocks.
pub open spec fn block_views(blocks: Seq<Block>) -> Seq<BlockModel> {
    Seq::new(blocks.len(), |i: int| blocks[i]@)
}

/// The 16 bytes of an encoded header.
pub open spec fn spec_header_bytes(h: BlockHeader) -> Seq<u8> {
    spec_u32_to_le_bytes(h.block_index) + spec_u32_to_le_bytes(h.payload_length)
        + spec_u32_to_le_bytes(h.block_flags) + spec_u32_to_le_bytes(h.local_check)
}

/// The header that 16 bytes encode.
pub open spec fn spec_decode_header(b: Seq<u8>) -> BlockHeader {
    BlockHeader {
        block_index: spec_u32_from_le_bytes(b.subrange(0, 4)),
        payload_length: spec_u32_from_le_bytes(b.subrange(4, 8)),
        block_flags: spec_u32_from_le_bytes(b.subrange(8, 12)),
        local_check: spec_u32_from_le_bytes(b.subrange(12, 16)),
    }
}

/// A payload zero-padded to the full block payload size.
pub open spec fn spec_padded(payload: Seq<u8>, block_payload_size: u32) -> Seq<u8> {
    payload + zeros((block_payload_size - payload.len()) as nat)
}

/// The wire bytes of a block.
pub open spec fn spec_block_bytes(h: BlockHeader, payload: Seq<u8>, commitment: Seq<u8>, block_payload_size: u32) -> Seq<u8> {
    spec_header_bytes(h) + spec_padded(payload, block_payload_size) + commitment
}

/// The first failed check when decoding a block from `b`, if any
/// (for a block size whose wire form fits `usize`).
pub open spec fn spec_block_error(b: Seq<u8>, bps: u32, expected_index: u32, is_last: bool) -> Option<CbcError> {
    let h = spec_decode_header(b.subrange(0, 16));
    if b.len() < spec_wire_size(bps) {
        Some(CbcError::InsufficientData { need: spec_wire_size(bps) as usize, have: b.len() as usize })
    } else if h.block_index != expected_index {
        Some(CbcError::BlockIndexMismatch { expected: expected_index, got: h.block_index })
    } else if h.block_flags != 0 {
        Some(CbcError::NonZeroBlockFlags(h.block_flags))
    } else if h.payload_length > bps {
        Some(CbcError::PayloadLengthExceeded { length: h.payload_length, max: bps })
    } else if !is_last && h.payload_length != bps {
        Some(CbcError::NonFullPayload { index: h.block_index, length: h.payload_length, expected: bps })
    } else if crc32c_checksum(b.subrange(16, 16 + bps)) != h.local_check {
        Some(CbcError::Crc32Mismatch {
            index: h.block_index,
            expected: h.local_check,
            got: crc32c_checksum(b.subrange(16, 16 + bps)),
        })
    } else {
        None
    }
}

/// A block whose header was changed outside its payload-length field is
/// refused by the block checks: where `b` passes them, bytes that differ
/// from `b` only in the header's index, flags or check fields, and there
/// somewhere, do not (the index no longer matches, the flags are no longer
/// zero, or the stored check no longer is the padded payload's CRC-32C).
pub proof fn lemma_header_change_rejected(b: Seq<u8>, b2: Seq<u8>, bps: u32, idx: u32, last: bool)
    requires
        spec_block_error(b, bps, idx, last) is None,
        b2.len() == b.len(),
        forall|x: int| 0 <= x < b.len() && !(0 <= x < 4 || 8 <= x < 16) ==> b2[x] == b[x],
        b2.subrange(0, 16) != b.subrange(0, 16),
    ensures
        spec_block_error(b2, bps, idx, last) is Some,
{
    lemma_auto_spec_u32_to_from_le_bytes();
    let h = spec_decode_header(b.subrange(0, 16));
    let h2 = spec_decode_header(b2.subrange(0, 16));
    assert(b2.subrange(0, 16).subrange(4, 8) =~= b.subrange(0, 16).subrange(4, 8));
    assert(b2.subrange(16, 16 + bps) =~= b.subrange(16, 16 + bps));
    if h2.block_index == h.block_index && h2.block_flags == h.block_flags && h2.local_check == h.local_check {
        let x = b.subrange(0, 16);
        let y = b2.subrange(0, 16);
        assert(x.subrange(0, 4) == spec_u32_to_le_bytes(h.block_index));
        assert(y.subrange(0, 4) == spec_u32_to_le_bytes(h2.block_index));
        assert(x.subrange(8, 12) == spec_u32_to_le_bytes(h.block_flags));
        assert(y.subrange(8, 12) == spec_u32_to_le_bytes(h2.block_flags));
        assert(x.subrange(12, 16) == spec_u32_to_le_bytes(h.local_check));
        assert(y.subrange(12, 16) == spec_u32_to_le_bytes(h2.local_check));
        assert forall|i: int| 0 <= i < 16 implies x[i] == y[i] by {
            if i < 4 {
                assert(x[i] == x.subrange(0, 4)[i] && y[i] == y.subrange(0, 4)[i]);
            } else if i < 8 {
                assert(x[i] == x.subrange(4, 8)[i - 4] && y[i] == y.subrange(4, 8)[i - 4]);
            } else if i < 12 {
                assert(x[i] == x.subrange(8, 12)[i - 8] && y[i] == y.subrange(8, 12)[i - 8]);
            } else {
                assert(x[i] == x.subrange(12, 16)[i - 12] && y[i] == y.subrange(12, 16)[i - 12]);
            }
        }
        assert(x =~= y);
    }
}

/// The nonce for one block: the first 12 nonce bytes with the block
/// index's little-endian bytes XORed into the first four.
pub open spec fn spec_block_nonce(bootstrap_nonce: Seq<u8>, index: u32) -> Seq<u8> {
    Seq::new(12, |i: int| if i < 4 { bootstrap_nonce[i] ^ spec_u32_to_le_bytes(index)[i] } else { bootstrap_nonce[i] })
}

/// The 12-byte AES-GCM nonce of a block.
fn block_nonce(bootstrap_nonce: &[u8; 16], index: u32) -> (r: [u8; 12])
    ensures
        r@ == spec_block_nonce(bootstrap_nonce@, index),
{
    broadcast use vstd::array::group_array_axioms;
    proof { lemma_auto_spec_u32_to_from_le_bytes(); }
    let index_bytes = vstd::bytes::u32_to_le_bytes(index);
    let mut nonce_bytes = [0u8; 12];
    let mut i: usize = 0;
    while i < 12
        invariant
            i <= 12,
            index_bytes@ == spec_u32_to_le_bytes(index),
            index_bytes@.len() == 4,
            forall|j: int| 0 <= j < i ==> nonce_bytes@[j] == spec_block_nonce(bootstrap_nonce@, index)[j],
        decreases 12 - i,
    {
        if i < 4 {
            nonce_bytes[i] = bootstrap_nonce[i] ^ index_bytes[i];
        } else {
            nonce_bytes[i] = bootstrap_nonce[i];
        }
        i = i + 1;
    }
    proof {
        assert(nonce_bytes@ =~= spec_block_nonce(bootstrap_nonce@, index));
    }
    nonce_bytes
}

/// The payload zero-padded to `block_payload_size` bytes.
fn pad_payload(payload: &[u8], block_payload_size: u32) -> (v: Vec<u8>)
    requires
        payload@.len() <= block_payload_size,
    ensures
        v@ == spec_padded(payload@, block_payload_size),
        v@.len() == block_payload_size,
{
    let mut padded: Vec<u8> = Vec::new();
    append_bytes(&mut padded, payload);
    let z = zero_vec(block_payload_size as usize - payload.len());
    append_bytes(&mut padded, z.as_slice());
    padded
}

impl BlockHeader {
    /// Encode header to 16 bytes.
    pub fn encode(&self) -> (r: [u8; 16])
        ensures
            r@ == spec_header_bytes(*self),
    {
        proof { lemma_auto_spec_u32_to_from_le_bytes(); }
        let mut buf: Vec<u8> = Vec::new();
        push_u32_le(&mut buf, self.block_index);
        push_u32_le(&mut buf, self.payload_length);
        push_u32_le(&mut buf, self.block_flags);
        push_u32_le(&mut buf, self.local_check);
        let mut out = [0u8; 16];
        fill_array(&mut out, buf.as_slice());
        out
    }

    /// Decode header from 16 bytes.
    pub fn decode(bytes: &[u8; 16]) -> (r: Self)
        ensures
            r == spec_decode_header(bytes@),
    {
        let b = bytes.as_slice();
        BlockHeader {
            block_index: u32_from_le_bytes(slice_subrange(b, 0, 4)),
            payload_length: u32_from_le_bytes(slice_subrange(b, 4, 8)),
            block_flags: u32_from_le_bytes(slice_subrange(b, 8, 12)),
            local_check: u32_from_le_bytes(slice_subrange(b, 12, 16)),
        }
    }
}

/// Decoding an encoded header gives the header back.
pub proof fn lemma_header_roundtrip(h: BlockHeader)
    ensures
        spec_decode_header(spec_header_bytes(h)) == h,
        spec_header_bytes(h).len() == 16,
{
    lemma_auto_spec_u32_to_from_le_bytes();
    let b = spec_header_bytes(h);
    assert(b.subrange(0, 4) =~= spec_u32_to_le_bytes(h.block_index));
    assert(b.subrange(4, 8) =~= spec_u32_to_le_bytes(h.payload_length));
    assert(b.subrange(8, 12) =~= spec_u32_to_le_bytes(h.block_flags));
    assert(b.subrange(12, 16) =~= spec_u32_to_le_bytes(h.local_check));
}

impl Block {
    /// Encode a block to its wire format.
    pub fn encode(&self, block_payload_size: u32) -> (r: Vec<u8>)
        requires
            wire_size_fits(block_payload_size),
            self.payload@.len() <= block_payload_size,
        ensures
            r@ == spec_block_bytes(self.header, self.payload@, self.commitment@, block_payload_size),
    {
        let mut buf: Vec<u8> = Vec::new();
        let h = self.header.encode();
        append_bytes(&mut buf, h.as_slice());
        let padded = pad_payload(self.payload.as_slice(), block_payload_size);
        append_bytes(&mut buf, padded.as_slice());
        append_bytes(&mut buf, self.commitment.as_slice());
        buf
    }

    /// Decode a block from wire bytes.
    pub fn decode(bytes: &[u8], block_payload_size: u32, expected_index: u32, is_last: bool) -> (r: Result<Self>)
        ensures
            !wire_size_fits(block_payload_size) ==> r matches Err(CbcError::Other(_)),
            wire_size_fits(block_payload_size) ==> match r {
                Ok(blk) => {
                    &&& spec_block_error(bytes@, block_payload_size, expected_index, is_last) is None
                    &&& blk.header == spec_decode_header(bytes@.subrange(0, 16))
                    &&& blk.payload@ == bytes@.subrange(16, 16 + blk.header.payload_length)
                    &&& blk.commitment@ == bytes@.subrange(16 + block_payload_size, 48 + block_payload_size)
                },
                Err(e) => spec_block_error(bytes@, block_payload_size, expected_index, is_last) == Some(e),
            },
    {
        let wire_size = match block_wire_size(block_payload_size) {
            Some(w) => w,
            None => {
                return Err(CbcError::msg(block_size_message(block_payload_size)));
            },
        };
        if bytes.len() < wire_size {
            return Err(CbcError::InsufficientData { need: wire_size, have: bytes.len() });
        }
        let mut header_bytes = [0u8; 16];
        fill_array(&mut header_bytes, slice_subrange(bytes, 0, 16));
        let header = BlockHeader::decode(&header_bytes);

        if header.block_index != expected_index {
            return Err(CbcError::BlockIndexMismatch { expected: expected_index, got: header.block_index });
        }
        if header.block_flags != 0 {
            return Err(CbcError::NonZeroBlockFlags(header.block_flags));
        }
        if header.payload_length > block_payload_size {
            return Err(CbcError::PayloadLengthExceeded { length: header.payload_length, max: block_payload_size });
        }
        if !is_last && header.payload_length != block_payload_size {
            return Err(CbcError::NonFullPayload {
                index: header.block_index,
                length: header.payload_length,
                expected: block_payload_size,
            });
        }
        let bps = block_payload_size as usize;
        let padded_payload = slice_subrange(bytes, 16, 16 + bps);
        let computed_crc = crc32c_of(padded_payload);
        if computed_crc != header.local_check {
            return Err(CbcError::Crc32Mismatch {
                index: header.block_index,
                expected: header.local_check,
                got: computed_crc,
            });
        }
        let payload = copy_range(bytes, 16, 16 + header.payload_length as usize);
        let mut commitment = [0u8; 32];
        fill_array(&mut commitment, slice_subrange(bytes, 16 + bps, 48 + bps));
        Ok(Block { header, payload, commitment })
    }

    /// Create a new block from payload bytes.
    pub fn new(index: u32, payload: Vec<u8>, block_payload_size: u32) -> (b: Self)
        requires
            payload@.len() <= block_payload_size,
        ensures
            b.header == (BlockHeader {
                block_index: index,
                payload_length: payload@.len() as u32,
                block_flags: 0,
                local_check: crc32c_checksum(spec_padded(payload@, block_payload_size)),
            }),
            b.payload@ == payload@,
            b.commitment@ == zeros(32),
    {
        let padded = pad_payload(payload.as_slice(), block_payload_size);
        let local_check = crc32c_of(padded.as_slice());
        let len = payload.len() as u32;
        let commitment = [0u8; 32];
        proof {
            broadcast use vstd::array::group_array_axioms;
            assert(commitment@ =~= zeros(32));
        }
        Block {
            header: BlockHeader { block_index: index, payload_length: len, block_flags: 0, local_check },
            payload,
            commitment,
        }
    }

    /// Returns the zero-padded payload (full block_payload_size).
    pub fn padded_payload(&self, block_payload_size: u32) -> (v: Vec<u8>)
        requires
            self.payload@.len() <= block_payload_size,
        ensures
            v@ == spec_padded(self.payload@, block_payload_size),
            v@.len() == block_payload_size,
    {
        pad_payload(self.payload.as_slice(), block_payload_size)
    }

    /// Encrypt the block payload using AES-GCM-256.
    pub fn encrypt(&mut self, key: &[u8; 32], bootstrap_nonce: &[u8; 16], block_payload_size: u32) -> (r: Result<()>)
        requires
            old(self).payload@.len() + 16 <= block_payload_size,
        ensures
            r is Ok,
            match r {
                Ok(()) => {
                    let ct = aes256gcm_seal(key@, spec_block_nonce(bootstrap_nonce@, old(self).header.block_index), old(self).payload@);
                    &&& final(self).payload@ == ct
                    &&& ct.len() == old(self).payload@.len() + 16
                    &&& aes256gcm_open(key@, spec_block_nonce(bootstrap_nonce@, old(self).header.block_index), ct) == Some(old(self).payload@)
                    &&& final(self).header == (BlockHeader {
                            payload_length: ct.len() as u32,
                            local_check: crc32c_checksum(spec_padded(ct, block_payload_size)),
                            ..old(self).header
                        })
                    &&& final(self).commitment == old(self).commitment
                },
                Err(_) => true,
            },
    {
        let nonce = block_nonce(bootstrap_nonce, self.header.block_index);
        let ciphertext = match aes_gcm_seal(key, &nonce, self.payload.as_slice()) {
            Ok(c) => c,
            Err(s) => {
                return Err(CbcError::EncryptionError(s));
            },
        };
        self.payload = ciphertext;
        self.header.payload_length = self.payload.len() as u32;
        let padded = self.padded_payload(block_payload_size);
        self.header.local_check = crc32c_of(padded.as_slice());
        Ok(())
    }

    /// Decrypt the block payload using AES-GCM-256.
    pub fn decrypt(&mut self, key: &[u8; 32], bootstrap_nonce: &[u8; 16], block_payload_size: u32) -> (r: Result<()>)
        requires
            old(self).payload@.len() <= block_payload_size,
        ensures
            match aes256gcm_open(key@, spec_block_nonce(bootstrap_nonce@, old(self).header.block_index), old(self).payload@) {
                Some(pt) => {
                    &&& r is Ok
                    &&& pt.len() + 16 == old(self).payload@.len()
                    &&& final(self).payload@ == pt
                    &&& final(self).header == (BlockHeader {
                            payload_length: pt.len() as u32,
                            local_check: crc32c_checksum(spec_padded(pt, block_payload_size)),
                            ..old(self).header
                        })
                    &&& final(self).commitment == old(self).commitment
                },
                None => r matches Err(CbcError::DecryptionError(_)) && *final(self) == *old(self),
            },
    {
        let nonce = block_nonce(bootstrap_nonce, self.header.block_index);
        let plaintext = match aes_gcm_open(key, &nonce, self.payload.as_slice()) {
            Ok(p) => p,
            Err(s) => {
                return Err(CbcError::DecryptionError(s));
            },
        };
        self.payload = plaintext;
        self.header.payload_length = self.payload.len() as u32;
        let padded = self.padded_payload(block_payload_size);
        self.header.local_check = crc32c_of(padded.as_slice());
        Ok(())
    }
}

/// The wire layout of a block: at bytes 0, 4, 8 and 12 the header's index,
/// payload length, flags and check as little-endian `u32`s; from byte 16
/// the payload, then zeros up to the block payload size; then the 32
/// commitment bytes.
pub proof fn lemma_block_layout(h: BlockHeader, payload: Seq<u8>, commitment: Seq<u8>, bps: u32)
    requires
        payload.len() <= bps,
        commitment.len() == 32,
    ensures
        ({
            let b = spec_block_bytes(h, payload, commitment, bps);
            &&& b.len() == 48 + bps
            &&& spec_u32_from_le_bytes(b.subrange(0, 4)) == h.block_index
            &&& spec_u32_from_le_bytes(b.subrange(4, 8)) == h.payload_length
            &&& spec_u32_from_le_bytes(b.subrange(8, 12)) == h.block_flags
            &&& spec_u32_from_le_bytes(b.subrange(12, 16)) == h.local_check
            &&& b.subrange(16, 16 + payload.len() as int) == payload
            &&& forall|i: int| 16 + payload.len() <= i < 16 + bps ==> b[i] == 0
            &&& b.subrange(16 + bps, 48 + bps) == commitment
        }),
{
    lemma_auto_spec_u32_to_from_le_bytes();
    let b = spec_block_bytes(h, payload, commitment, bps);
    let hb = spec_header_bytes(h);
    assert(b.subrange(0, 4) =~= spec_u32_to_le_bytes(h.block_index));
    assert(b.subrange(4, 8) =~= spec_u32_to_le_bytes(h.payload_length));
    assert(b.subrange(8, 12) =~= spec_u32_to_le_bytes(h.block_flags));
    assert(b.subrange(12, 16) =~= spec_u32_to_le_bytes(h.local_check));
    assert(b.subrange(16, 16 + payload.len() as int) =~= payload);
    assert(b.subrange(16 + bps, 48 + bps) =~= commitment);
}

} // verus!
