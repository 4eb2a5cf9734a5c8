//! Bootstrap Segment: the fixed 64-byte preamble of every CBC artifact.
use crate::bytes::{all_zero, append_bytes, bytes_eq, copy_range, fill_array, zero_vec, zeros};
use crate::error::{CbcError, Result};
use crate::hash::{digest, suite_from_id, suite_id, HashSuite};
use crate::tags::{tag_params_mac, tag_params_mac_bytes};
use vstd::bytes::*;
use vstd::slice::slice_subrange;
use vstd::prelude::*;

verus! {

/// Magic bytes: "CBC1".
pub const MAGIC: [u8; 4] = [0x43, 0x42, 0x43, 0x31];

/// Current format version.
pub const VERSION: u16 = 0x0001;

/// Bootstrap Segment size in bytes.
pub const BOOTSTRAP_SIZE: usize = 64;

/// Commitment mode bits.
pub const FAMILY_A_BIT: u8 = 0x01;
pub const FAMILY_B_BIT: u8 = 0x02;
pub const FAMILY_C_BIT: u8 = 0x04;

/// Minimum block payload size (512 bytes).
pub const MIN_BLOCK_PAYLOAD: u32 = 512;
/// Maximum block payload size (16 MiB).
pub const MAX_BLOCK_PAYLOAD: u32 = 16777216;

/// Flag bits.
pub const FLAG_COMPRESSED: u32 = 0x01;
pub const FLAG_ENCRYPTED: u32 = 0x02;

#[derive(Debug, Clone, Copy, PartialEq, Eq)]
pub struct BootstrapSegment {
    pub hash_suite: HashSuite,
    pub commitment_mode: u8,
    pub block_payload_size: u32,
    pub block_count: u32,
    pub bootstrap_nonce: [u8; 16],
    pub flags: u32,
}

/// The magic bytes as a sequence.
pub open spec fn magic_seq() -> Seq<u8> {
    seq![0x43u8, 0x42u8, 0x43u8, 0x31u8]
}

/// The array whose bytes are `s`.
pub open spec fn seq_to_array<const N: usize>(s: Seq<u8>) -> [u8; N] {
    choose|a: [u8; N]| a@ == s
}

/// An array is the one `seq_to_array` picks for its own bytes.
pub proof fn lemma_seq_to_array<const N: usize>(a: [u8; N])
    ensures
        seq_to_array::<N>(a@) == a,
{
    broadcast use vstd::array::group_array_axioms;
    let c = seq_to_array::<N>(a@);
    assert(c@ == a@);
    assert(c =~= a);
}

/// Every 32 bytes are the bytes of the array `seq_to_array` picks.
pub proof fn lemma_array_of_32(s: Seq<u8>)
    requires
        s.len() == 32,
    ensures
        seq_to_array::<32>(s)@ == s,
{
    broadcast use vstd::array::group_array_axioms;
    let w: [u8; 32] = [
        s[0], s[1], s[2], s[3], s[4], s[5], s[6], s[7], s[8], s[9], s[10], s[11], s[12], s[13], s[14], s[15],
        s[16], s[17], s[18], s[19], s[20], s[21], s[22], s[23], s[24], s[25], s[26], s[27], s[28], s[29], s[30], s[31],
    ];
    assert(w@ =~= s);
}

/// Bytes 0..40 of the encoded segment: everything the MAC covers.
pub open spec fn spec_params(s: BootstrapSegment) -> Seq<u8> {
    magic_seq() + spec_u16_to_le_bytes(1) + seq![suite_id(s.hash_suite), s.commitment_mode]
        + spec_u32_to_le_bytes(s.block_payload_size) + spec_u32_to_le_bytes(s.block_count)
        + s.bootstrap_nonce@ + spec_u32_to_le_bytes(s.flags) + zeros(4)
}

/// The params MAC: the first 16 bytes of H("CBC-v1-params-mac" || params).
pub open spec fn spec_params_mac(s: BootstrapSegment) -> Seq<u8> {
    digest(s.hash_suite, tag_params_mac() + spec_params(s))@.subrange(0, 16)
}

/// The params MAC is the first 16 bytes of the hash of exactly the MAC tag
/// and the 40 params bytes, which hold every field of the segment: magic,
/// version, suite, commitment mode, block size, block count, nonce and
/// flags.
pub proof fn lemma_params_mac_input(s: BootstrapSegment)
    ensures
        spec_params_mac(s) == digest(s.hash_suite, tag_params_mac() + spec_params(s))@.subrange(0, 16),
        spec_params(s).len() == 40,
        spec_params(s).subrange(8, 12) == spec_u32_to_le_bytes(s.block_payload_size),
        spec_params(s).subrange(12, 16) == spec_u32_to_le_bytes(s.block_count),
        spec_params(s).subrange(16, 32) == s.bootstrap_nonce@,
        spec_params(s).subrange(32, 36) == spec_u32_to_le_bytes(s.flags),
        spec_params(s)[6] == suite_id(s.hash_suite),
        spec_params(s)[7] == s.commitment_mode,
{
    lemma_auto_spec_u32_to_from_le_bytes();
    lemma_auto_spec_u16_to_from_le_bytes();
    let p = spec_params(s);
    assert(p.subrange(8, 12) =~= spec_u32_to_le_bytes(s.block_payload_size));
    assert(p.subrange(12, 16) =~= spec_u32_to_le_bytes(s.block_count));
    assert(p.subrange(16, 32) =~= s.bootstrap_nonce@);
    assert(p.subrange(32, 36) =~= spec_u32_to_le_bytes(s.flags));
}

/// The 64-byte wire form of a bootstrap segment.
pub open spec fn spec_bootstrap_bytes(s: BootstrapSegment) -> Seq<u8> {
    spec_params(s) + spec_params_mac(s) + zeros(8)
}

/// Whether `x` is a power of two.
pub open spec fn is_pow2(x: nat) -> bool
    decreases x,
{
    if x <= 1 {
        x == 1
    } else {
        x % 2 == 0 && is_pow2(x / 2)
    }
}

/// A block payload size that a valid artifact may declare.
pub open spec fn valid_block_payload_size(x: u32) -> bool {
    512 <= x <= 16777216 && is_pow2(x as nat)
}

/// A commitment mode that sets Family A and no reserved bit.
pub open spec fn valid_commitment_mode(m: u8) -> bool {
    m & 0x01 != 0 && m & 0xF8 == 0
}

/// A segment that `decode` accepts once encoded.
pub open spec fn valid_segment(s: BootstrapSegment) -> bool {
    valid_commitment_mode(s.commitment_mode) && valid_block_payload_size(s.block_payload_size)
}

/// The segment whose fields bytes `b` carry (no check made).
pub open spec fn parsed_segment(b: Seq<u8>, suite: HashSuite) -> BootstrapSegment {
    BootstrapSegment {
        hash_suite: suite,
        commitment_mode: b[7],
        block_payload_size: spec_u32_from_le_bytes(b.subrange(8, 12)),
        block_count: spec_u32_from_le_bytes(b.subrange(12, 16)),
        bootstrap_nonce: seq_to_array::<16>(b.subrange(16, 32)),
        flags: spec_u32_from_le_bytes(b.subrange(32, 36)),
    }
}

/// What decoding the 64 bytes `b` yields, each check in turn.
pub open spec fn spec_decode_bootstrap(b: Seq<u8>) -> Result<BootstrapSegment> {
    let mode = b[7];
    let bps = spec_u32_from_le_bytes(b.subrange(8, 12));
    if b.subrange(0, 4) != magic_seq() {
        Err(CbcError::InvalidMagic(seq_to_array::<4>(b.subrange(0, 4))))
    } else if spec_u16_from_le_bytes(b.subrange(4, 6)) != 1 {
        Err(CbcError::UnsupportedVersion(spec_u16_from_le_bytes(b.subrange(4, 6))))
    } else if suite_from_id(b[6]) is None {
        Err(CbcError::UnknownHashSuite(b[6]))
    } else if !valid_commitment_mode(mode) {
        Err(CbcError::InvalidCommitmentMode(mode))
    } else if !valid_block_payload_size(bps) {
        Err(CbcError::InvalidBlockPayloadSize(bps))
    } else if !all_zero(b.subrange(36, 40)) {
        Err(CbcError::NonZeroReserved { offset: 36 })
    } else if !all_zero(b.subrange(56, 64)) {
        Err(CbcError::NonZeroReserved { offset: 56 })
    } else if b.subrange(40, 56) != spec_params_mac(parsed_segment(b, suite_from_id(b[6])->0)) {
        Err(CbcError::ParamsMacMismatch)
    } else {
        Ok(parsed_segment(b, suite_from_id(b[6])->0))
    }
}

/// Whether the `x` is a power of two, by halving.
fn u32_is_pow2(x: u32) -> (r: bool)
    ensures
        r == is_pow2(x as nat),
{
    let mut v: u32 = x;
    while v > 1 && v % 2 == 0
        invariant
            is_pow2(v as nat) == is_pow2(x as nat),
        decreases v,
    {
        v = v / 2;
    }
    v == 1
}

/// Append the little-endian bytes of a `u32`.
pub fn push_u32_le(buf: &mut Vec<u8>, x: u32)
    ensures
        final(buf)@ == old(buf)@ + spec_u32_to_le_bytes(x),
{
    let b = u32_to_le_bytes(x);
    append_bytes(buf, b.as_slice());
}

/// Append the little-endian bytes of a `u16`.
pub fn push_u16_le(buf: &mut Vec<u8>, x: u16)
    ensures
        final(buf)@ == old(buf)@ + spec_u16_to_le_bytes(x),
{
    let b = u16_to_le_bytes(x);
    append_bytes(buf, b.as_slice());
}

impl BootstrapSegment {
    /// The 40 params bytes, as a vector.
    fn params_vec(&self) -> (v: Vec<u8>)
        ensures
            v@ == spec_params(*self),
            v@.len() == 40,
    {
        proof {
            lemma_auto_spec_u16_to_from_le_bytes();
            lemma_auto_spec_u32_to_from_le_bytes();
        }
        let mut buf: Vec<u8> = Vec::new();
        append_bytes(&mut buf, MAGIC.as_slice());
        push_u16_le(&mut buf, VERSION);
        buf.push(self.hash_suite.id());
        buf.push(self.commitment_mode);
        push_u32_le(&mut buf, self.block_payload_size);
        push_u32_le(&mut buf, self.block_count);
        append_bytes(&mut buf, self.bootstrap_nonce.as_slice());
        push_u32_le(&mut buf, self.flags);
        let z = zero_vec(4);
        append_bytes(&mut buf, z.as_slice());
        proof {
            assert(MAGIC@ =~= magic_seq());
            assert(buf@ =~= spec_params(*self));
        }
        buf
    }

    /// The params MAC, as a vector.
    fn params_mac_vec(&self) -> (v: Vec<u8>)
        ensures
            v@ == spec_params_mac(*self),
            v@.len() == 16,
    {
        let params = self.params_vec();
        let mut input = tag_params_mac_bytes();
        append_bytes(&mut input, params.as_slice());
        let h = self.hash_suite.hash_bytes(input.as_slice());
        copy_range(h.as_slice(), 0, 16)
    }

    /// Returns canonical params: bytes 0..40 of the encoded bootstrap segment.
    pub fn params_canonical(&self) -> (r: [u8; 40])
        ensures
            r@ == spec_params(*self),
    {
        let params = self.params_vec();
        let mut out = [0u8; 40];
        fill_array(&mut out, params.as_slice());
        out
    }

    /// Compute params_mac: first 16 bytes of H("CBC-v1-params-mac" || bytes[0..40]).
    pub fn compute_params_mac(&self) -> (r: [u8; 16])
        ensures
            r@ == spec_params_mac(*self),
            r@ == digest(self.hash_suite, tag_params_mac() + spec_params(*self))@.subrange(0, 16),
    {
        let mac = self.params_mac_vec();
        let mut out = [0u8; 16];
        fill_array(&mut out, mac.as_slice());
        out
    }

    /// Whether Family A (chain) is enabled. Always true for valid artifacts.
    pub fn family_a(&self) -> (r: bool)
        ensures
            r == (self.commitment_mode & 0x01 != 0),
    {
        self.commitment_mode & FAMILY_A_BIT != 0
    }

    /// Whether Family B (merkle) is enabled.
    pub fn family_b(&self) -> (r: bool)
        ensures
            r == (self.commitment_mode & 0x02 != 0),
    {
        self.commitment_mode & FAMILY_B_BIT != 0
    }

    /// Whether Family C (prefix parse) is enabled.
    pub fn family_c(&self) -> (r: bool)
        ensures
            r == (self.commitment_mode & 0x04 != 0),
    {
        self.commitment_mode & FAMILY_C_BIT != 0
    }

    /// Encode to exactly 64 bytes.
    pub fn encode(&self) -> (r: [u8; 64])
        ensures
            r@ == spec_bootstrap_bytes(*self),
    {
        let mut buf = self.params_vec();
        let mac = self.params_mac_vec();
        append_bytes(&mut buf, mac.as_slice());
        let z = zero_vec(8);
        append_bytes(&mut buf, z.as_slice());
        let mut out = [0u8; 64];
        fill_array(&mut out, buf.as_slice());
        out
    }

    /// Decode from exactly 64 bytes, verifying all structural fields and params_mac.
    pub fn decode(bytes: &[u8; 64]) -> (r: Result<Self>)
        ensures
            r == spec_decode_bootstrap(bytes@),
            r matches Ok(s) ==> spec_bootstrap_bytes(s) == bytes@,
    {
        broadcast use vstd::array::group_array_axioms;
        proof {
            if spec_decode_bootstrap(bytes@) is Ok {
                lemma_bootstrap_reencode(bytes@);
            }
        }
        let b = bytes.as_slice();
        let mut magic = [0u8; 4];
        fill_array(&mut magic, slice_subrange(b, 0, 4));
        proof { lemma_seq_to_array(magic); }
        if !bytes_eq(magic.as_slice(), MAGIC.as_slice()) {
            proof { assert(MAGIC@ =~= magic_seq()); }
            return Err(CbcError::InvalidMagic(magic));
        }
        proof { assert(MAGIC@ =~= magic_seq()); }

        let version = u16_from_le_bytes(slice_subrange(b, 4, 6));
        if version != VERSION {
            return Err(CbcError::UnsupportedVersion(version));
        }

        let suite_byte = bytes[6];
        let hash_suite = match HashSuite::from_id(suite_byte) {
            Some(s) => s,
            None => {
                return Err(CbcError::UnknownHashSuite(suite_byte));
            },
        };

        let commitment_mode = bytes[7];
        if commitment_mode & FAMILY_A_BIT == 0 {
            return Err(CbcError::InvalidCommitmentMode(commitment_mode));
        }
        if commitment_mode & 0xF8 != 0 {
            return Err(CbcError::InvalidCommitmentMode(commitment_mode));
        }

        let block_payload_size = u32_from_le_bytes(slice_subrange(b, 8, 12));
        if block_payload_size < MIN_BLOCK_PAYLOAD || block_payload_size > MAX_BLOCK_PAYLOAD
            || !u32_is_pow2(block_payload_size) {
            return Err(CbcError::InvalidBlockPayloadSize(block_payload_size));
        }

        let block_count = u32_from_le_bytes(slice_subrange(b, 12, 16));
        let mut bootstrap_nonce = [0u8; 16];
        fill_array(&mut bootstrap_nonce, slice_subrange(b, 16, 32));
        proof { lemma_seq_to_array(bootstrap_nonce); }
        let flags = u32_from_le_bytes(slice_subrange(b, 32, 36));

        let z4 = zero_vec(4);
        if !bytes_eq(slice_subrange(b, 36, 40), z4.as_slice()) {
            proof {
                assert(!all_zero(b@.subrange(36, 40))) by {
                    if all_zero(b@.subrange(36, 40)) {
                        assert(b@.subrange(36, 40) =~= zeros(4));
                    }
                }
            }
            return Err(CbcError::NonZeroReserved { offset: 36 });
        }
        let z8 = zero_vec(8);
        if !bytes_eq(slice_subrange(b, 56, 64), z8.as_slice()) {
            proof {
                assert(!all_zero(b@.subrange(56, 64))) by {
                    if all_zero(b@.subrange(56, 64)) {
                        assert(b@.subrange(56, 64) =~= zeros(8));
                    }
                }
            }
            return Err(CbcError::NonZeroReserved { offset: 56 });
        }

        let segment = BootstrapSegment {
            hash_suite,
            commitment_mode,
            block_payload_size,
            block_count,
            bootstrap_nonce,
            flags,
        };
        proof {
            assert(segment == parsed_segment(b@, hash_suite));
        }

        let expected_mac = segment.params_mac_vec();
        if !bytes_eq(slice_subrange(b, 40, 56), expected_mac.as_slice()) {
            return Err(CbcError::ParamsMacMismatch);
        }
        Ok(segment)
    }
}

/// Decoding an encoded valid segment gives the segment back.
pub proof fn lemma_bootstrap_roundtrip(s: BootstrapSegment)
    requires
        valid_segment(s),
    ensures
        spec_decode_bootstrap(spec_bootstrap_bytes(s)) == Ok::<BootstrapSegment, CbcError>(s),
{
    lemma_auto_spec_u16_to_from_le_bytes();
    lemma_auto_spec_u32_to_from_le_bytes();
    lemma_seq_to_array(s.bootstrap_nonce);
    let b = spec_bootstrap_bytes(s);
    let p = spec_params(s);
    broadcast use vstd::array::group_array_axioms;
    assert(b.subrange(0, 4) =~= magic_seq());
    assert(b.subrange(4, 6) =~= spec_u16_to_le_bytes(1));
    assert(b[6] == suite_id(s.hash_suite));
    assert(b[7] == s.commitment_mode);
    assert(b.subrange(8, 12) =~= spec_u32_to_le_bytes(s.block_payload_size));
    assert(b.subrange(12, 16) =~= spec_u32_to_le_bytes(s.block_count));
    assert(b.subrange(16, 32) =~= s.bootstrap_nonce@);
    assert(b.subrange(32, 36) =~= spec_u32_to_le_bytes(s.flags));
    assert(b.subrange(36, 40) =~= zeros(4));
    assert(b.subrange(56, 64) =~= zeros(8));
    assert(b.subrange(40, 56) =~= spec_params_mac(s));
    assert(suite_from_id(b[6]) == Some(s.hash_suite));
    assert(parsed_segment(b, s.hash_suite) == s);
}

/// A segment is exactly its bytes: the 64 bytes a segment decodes from
/// are the bytes it encodes to.
pub proof fn lemma_bootstrap_reencode(b: Seq<u8>)
    requires
        b.len() == 64,
        spec_decode_bootstrap(b) is Ok,
    ensures
        spec_bootstrap_bytes(spec_decode_bootstrap(b)->Ok_0) == b,
{
    lemma_auto_spec_u16_to_from_le_bytes();
    lemma_auto_spec_u32_to_from_le_bytes();
    broadcast use vstd::array::group_array_axioms;
    let s = spec_decode_bootstrap(b)->Ok_0;
    let e = spec_bootstrap_bytes(s);
    let w: [u8; 16] = [b[16], b[17], b[18], b[19], b[20], b[21], b[22], b[23], b[24], b[25], b[26], b[27], b[28], b[29], b[30], b[31]];
    assert(w@ =~= b.subrange(16, 32));
    let n: [u8; 16] = seq_to_array::<16>(b.subrange(16, 32));
    assert(n@ == b.subrange(16, 32));
    assert(b.subrange(0, 4) =~= magic_seq());
    assert(spec_u16_to_le_bytes(spec_u16_from_le_bytes(b.subrange(4, 6))) == b.subrange(4, 6));
    assert(b.subrange(4, 6) =~= spec_u16_to_le_bytes(1));
    assert(suite_id(s.hash_suite) == b[6]);
    assert(spec_u32_to_le_bytes(spec_u32_from_le_bytes(b.subrange(8, 12))) == b.subrange(8, 12));
    assert(spec_u32_to_le_bytes(spec_u32_from_le_bytes(b.subrange(12, 16))) == b.subrange(12, 16));
    assert(spec_u32_to_le_bytes(spec_u32_from_le_bytes(b.subrange(32, 36))) == b.subrange(32, 36));
    assert(b.subrange(36, 40) =~= zeros(4));
    assert(b.subrange(56, 64) =~= zeros(8));
    assert(b.subrange(40, 56) == spec_params_mac(s));
    assert(spec_params(s) =~= b.subrange(0, 40));
    assert(e =~= b.subrange(0, 40) + b.subrange(40, 56) + b.subrange(56, 64));
    assert(e =~= b);
}

/// A changed MAC field is refused: two 64-byte segments that agree
/// everywhere but in bytes 40..56, where they differ, cannot both decode.
pub proof fn lemma_mac_change_rejected(b: Seq<u8>, b2: Seq<u8>)
    requires
        b.len() == 64,
        b2.len() == 64,
        spec_decode_bootstrap(b) is Ok,
        b2.subrange(0, 40) == b.subrange(0, 40),
        b2.subrange(56, 64) == b.subrange(56, 64),
        b2.subrange(40, 56) != b.subrange(40, 56),
    ensures
        spec_decode_bootstrap(b2) == Err::<BootstrapSegment, CbcError>(CbcError::ParamsMacMismatch),
{
    assert(b2.subrange(0, 4) =~= b.subrange(0, 40).subrange(0, 4));
    assert(b.subrange(0, 4) =~= b.subrange(0, 40).subrange(0, 4));
    assert(b2.subrange(4, 6) =~= b.subrange(4, 6)) by {
        assert(b2.subrange(4, 6) =~= b2.subrange(0, 40).subrange(4, 6));
        assert(b.subrange(4, 6) =~= b.subrange(0, 40).subrange(4, 6));
    }
    assert(b2[6] == b2.subrange(0, 40)[6] && b[6] == b.subrange(0, 40)[6]);
    assert(b2[7] == b2.subrange(0, 40)[7] && b[7] == b.subrange(0, 40)[7]);
    assert(b2.subrange(8, 12) =~= b.subrange(8, 12)) by {
        assert(b2.subrange(8, 12) =~= b2.subrange(0, 40).subrange(8, 12));
        assert(b.subrange(8, 12) =~= b.subrange(0, 40).subrange(8, 12));
    }
    assert(b2.subrange(12, 16) =~= b.subrange(12, 16)) by {
        assert(b2.subrange(12, 16) =~= b2.subrange(0, 40).subrange(12, 16));
        assert(b.subrange(12, 16) =~= b.subrange(0, 40).subrange(12, 16));
    }
    assert(b2.subrange(16, 32) =~= b.subrange(16, 32)) by {
        assert(b2.subrange(16, 32) =~= b2.subrange(0, 40).subrange(16, 32));
        assert(b.subrange(16, 32) =~= b.subrange(0, 40).subrange(16, 32));
    }
    assert(b2.subrange(32, 36) =~= b.subrange(32, 36)) by {
        assert(b2.subrange(32, 36) =~= b2.subrange(0, 40).subrange(32, 36));
        assert(b.subrange(32, 36) =~= b.subrange(0, 40).subrange(32, 36));
    }
    assert(b2.subrange(36, 40) =~= b.subrange(36, 40)) by {
        assert(b2.subrange(36, 40) =~= b2.subrange(0, 40).subrange(36, 40));
        assert(b.subrange(36, 40) =~= b.subrange(0, 40).subrange(36, 40));
    }
    assert(parsed_segment(b2, suite_from_id(b2[6])->0) == parsed_segment(b, suite_from_id(b[6])->0));
}

/// The wire form of a segment is 64 bytes.
pub proof fn lemma_bootstrap_bytes_len(s: BootstrapSegment)
    ensures
        spec_bootstrap_bytes(s).len() == 64,
{
    lemma_auto_spec_u16_to_from_le_bytes();
    lemma_auto_spec_u32_to_from_le_bytes();
    assert(spec_params_mac(s).len() == 16);
}

/// A decoded segment is valid.
pub proof fn lemma_decoded_valid(b: Seq<u8>)
    ensures
        spec_decode_bootstrap(b) matches Ok(s) ==> valid_segment(s),
{
}

/// The wire layout of a bootstrap segment: the magic `CBC1`, version 1 as
/// a little-endian `u16`, the suite id and commitment mode, the block size
/// and block count as little-endian `u32`s, the 16 nonce bytes, the flags
/// as a little-endian `u32`, four zero bytes, the 16-byte params MAC over
/// the first 40 bytes, and eight zero bytes.
pub proof fn lemma_bootstrap_layout(s: BootstrapSegment)
    ensures
        ({
            let b = spec_bootstrap_bytes(s);
            &&& b.len() == 64
            &&& b.subrange(0, 4) == seq![0x43u8, 0x42u8, 0x43u8, 0x31u8]
            &&& spec_u16_from_le_bytes(b.subrange(4, 6)) == 1
            &&& b[6] == suite_id(s.hash_suite)
            &&& b[7] == s.commitment_mode
            &&& spec_u32_from_le_bytes(b.subrange(8, 12)) == s.block_payload_size
            &&& spec_u32_from_le_bytes(b.subrange(12, 16)) == s.block_count
            &&& b.subrange(16, 32) == s.bootstrap_nonce@
            &&& spec_u32_from_le_bytes(b.subrange(32, 36)) == s.flags
            &&& forall|i: int| 36 <= i < 40 || 56 <= i < 64 ==> b[i] == 0
            &&& b.subrange(40, 56) == digest(s.hash_suite, tag_params_mac() + b.subrange(0, 40))@.subrange(0, 16)
        }),
{
    lemma_auto_spec_u16_to_from_le_bytes();
    lemma_auto_spec_u32_to_from_le_bytes();
    lemma_bootstrap_bytes_len(s);
    let b = spec_bootstrap_bytes(s);
    let p = spec_params(s);
    assert(b.subrange(0, 40) =~= p);
    assert(b.subrange(0, 4) =~= seq![0x43u8, 0x42u8, 0x43u8, 0x31u8]);
    assert(b.subrange(4, 6) =~= spec_u16_to_le_bytes(1));
    assert(b.subrange(8, 12) =~= spec_u32_to_le_bytes(s.block_payload_size));
    assert(b.subrange(12, 16) =~= spec_u32_to_le_bytes(s.block_count));
    assert(b.subrange(16, 32) =~= s.bootstrap_nonce@);
    assert(b.subrange(32, 36) =~= spec_u32_to_le_bytes(s.flags));
    assert(b.subrange(40, 56) =~= spec_params_mac(s));
}

} // verus!
