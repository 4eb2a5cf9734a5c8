//! Family C: self-delimiting prefix markers before each block, which allow
//! resynchronisation after corruption and reject ambiguous framing.
//!
//! Marker format: `[0xFF, 0x00, block_type, payload_size as varint...]`.

use crate::error::{CbcError, Result};
use crate::text::{decimal, hex_width, spec_decimal, spec_hex_width};
use vstd::prelude::*;
use vstd::string::*;
use vstd::slice::slice_subrange;

verus! {

/// Block start marker bytes.
pub const BLOCK_START_MARKER: [u8; 2] = [0xFF, 0x00];

/// Block type: data block.
pub const BLOCK_TYPE_DATA: u8 = 0x01;

/// 128 to the power `n`.
pub open spec fn pow128(n: nat) -> nat
    decreases n,
{
    if n == 0 {
        1
    } else {
        128 * pow128((n - 1) as nat)
    }
}

/// The varint bytes of `v`: seven bits per byte, least significant group
/// first, the high bit set on every byte but the last.
pub open spec fn spec_varint(v: nat) -> Seq<u8>
    decreases v,
{
    if v < 128 {
        seq![v as u8]
    } else {
        seq![(v % 128 + 128) as u8] + spec_varint(v / 128)
    }
}

/// The number that the low seven bits of the bytes of `s` spell, least
/// significant group first.
pub open spec fn varint_value(s: Seq<u8>) -> nat
    decreases s.len(),
{
    if s.len() == 0 {
        0
    } else {
        varint_value(s.drop_last()) + (s.last() % 128) as nat * pow128((s.len() - 1) as nat)
    }
}

/// The index of the first byte without its continuation bit, if any.
pub open spec fn varint_end(data: Seq<u8>) -> Option<int> {
    if exists|i: int| 0 <= i < data.len() && data[i] < 128 {
        Some(choose|i: int| 0 <= i < data.len() && data[i] < 128 && forall|j: int| 0 <= j < i ==> data[j] >= 128)
    } else {
        None
    }
}

/// Whether `decode_varint` accepts `data`: a terminating byte among the
/// first five.
pub open spec fn varint_ok(data: Seq<u8>) -> bool {
    exists|i: int| 0 <= i < data.len() && i < 5 && data[i] < 128
}

/// The value and length `decode_varint` yields for an accepted input.
pub open spec fn varint_decoded(data: Seq<u8>, n: int) -> (u32, usize) {
    ((varint_value(data.take(n)) % 0x1_0000_0000) as u32, n as usize)
}

/// `data[..n]` is a terminated varint: its last byte is the first without
/// the continuation bit.
pub open spec fn varint_terminates_at(data: Seq<u8>, n: int) -> bool {
    &&& 1 <= n <= data.len()
    &&& data[n - 1] < 128
    &&& forall|j: int| 0 <= j < n - 1 ==> data[j] >= 128
}

proof fn lemma_varint_value_push(s: Seq<u8>, b: u8)
    ensures
        varint_value(s.push(b)) == varint_value(s) + (b % 128) as nat * pow128(s.len()),
{
    assert(s.push(b).drop_last() =~= s);
}

proof fn lemma_varint_value_prepend(a: u8, s: Seq<u8>)
    ensures
        varint_value(seq![a] + s) == (a % 128) as nat + 128 * varint_value(s),
    decreases s.len(),
{
    let t = seq![a] + s;
    if s.len() == 0 {
        assert(t.drop_last() =~= Seq::<u8>::empty());
        assert(t.last() == a);
        assert(varint_value(Seq::<u8>::empty()) == 0);
        assert(varint_value(t.drop_last()) == 0);
        assert(varint_value(s) == 0);
        assert(pow128(0) == 1);
        assert(varint_value(t) == varint_value(t.drop_last()) + (a % 128) as nat * pow128(0));
    } else {
        assert(t.drop_last() =~= seq![a] + s.drop_last());
        assert(t.last() == s.last());
        lemma_varint_value_prepend(a, s.drop_last());
        let p = pow128((s.len() - 1) as nat);
        assert(pow128((t.len() - 1) as nat) == 128 * p);
        let c = (s.last() % 128) as nat;
        assert(varint_value(t) == varint_value(t.drop_last()) + c * (128 * p));
        assert(varint_value(s) == varint_value(s.drop_last()) + c * p);
        assert(c * (128 * p) == 128 * (c * p)) by (nonlinear_arith);
    }
}

proof fn lemma_varint_single(v: nat)
    requires
        v < 128,
    ensures
        varint_value(seq![v as u8]) == v,
{
    let s = seq![v as u8];
    assert(s.drop_last() =~= Seq::<u8>::empty());
    assert(s.last() == v as u8);
    assert(pow128(0) == 1);
    assert((v as u8) == v);
    assert(varint_value(Seq::<u8>::empty()) == 0);
    assert(varint_value(s.drop_last()) == 0);
    assert(varint_value(s) == varint_value(s.drop_last()) + (s.last() % 128) as nat * pow128(0));
}

/// The varint of `v < 128^k` has at most `k` bytes, ends with its only
/// byte below 128, and spells `v`.
pub proof fn lemma_varint_shape(v: nat, k: nat)
    requires
        1 <= k,
        v < pow128(k),
    ensures
        1 <= spec_varint(v).len() <= k,
        varint_terminates_at(spec_varint(v), spec_varint(v).len() as int),
        varint_value(spec_varint(v)) == v,
    decreases v,
{
    if v < 128 {
        lemma_varint_single(v);
    } else {
        if k == 1 {
            assert(pow128(1) == 128 * pow128(0));
            assert(false);
        }
        assert(pow128(k) == 128 * pow128((k - 1) as nat));
        assert(v / 128 < pow128((k - 1) as nat));
        let rest = spec_varint(v / 128);
        lemma_varint_shape(v / 128, (k - 1) as nat);
        lemma_varint_value_prepend((v % 128 + 128) as u8, rest);
        let s = spec_varint(v);
        assert(s == seq![(v % 128 + 128) as u8] + rest);
        assert forall|j: int| 0 <= j < s.len() - 1 implies s[j] >= 128 by {
            if j > 0 {
                assert(s[j] == rest[j - 1]);
            }
        }
    }
}

/// Append the varint bytes of `value` to `buf`.
pub fn encode_varint(value: u32, buf: &mut Vec<u8>)
    ensures
        final(buf)@ == old(buf)@ + spec_varint(value as nat),
    decreases value,
{
    if value < 128 {
        buf.push(value as u8);
        proof { assert(final(buf)@ =~= old(buf)@ + spec_varint(value as nat)); }
    } else {
        buf.push((value % 128 + 128) as u8);
        let ghost mid = buf@;
        encode_varint(value / 128, buf);
        proof { assert(final(buf)@ =~= old(buf)@ + spec_varint(value as nat)); }
    }
}

/// Decode a varint from the front of `data`, returning (value, bytes consumed).
pub fn decode_varint(data: &[u8]) -> (r: Result<(u32, usize)>)
    ensures
        match r {
            Ok((v, n)) => varint_ok(data@) && varint_terminates_at(data@, n as int) && n <= 5
                && (v, n) == varint_decoded(data@, n as int),
            Err(e) => !varint_ok(data@) && e is PrefixParseError,
        },
{
    let mut value: u64 = 0;
    let mut i: usize = 0;
    while i < data.len()
        invariant
            i <= data@.len(),
            i <= 5,
            value == varint_value(data@.take(i as int)),
            value < pow128(i as nat),
            forall|j: int| 0 <= j < i ==> data@[j] >= 128,
        decreases data@.len() - i,
    {
        if i >= 5 {
            proof {
                assert forall|k: int| 0 <= k < data@.len() && k < 5 implies !(data@[k] < 128) by {}
            }
            return Err(CbcError::PrefixParseError("varint too large".to_owned()));
        }
        let byte = data[i];
        proof {
            assert(data@.take(i + 1) =~= data@.take(i as int).push(byte));
            lemma_varint_value_push(data@.take(i as int), byte);
            assert(pow128((i + 1) as nat) == 128 * pow128(i as nat));
            assert(pow128(i as nat) <= 0x10000000) by {
                assert(pow128(0) == 1);
                assert(pow128(1) == 128);
                assert(pow128(2) == 16384);
                assert(pow128(3) == 2097152);
                assert(pow128(4) == 268435456);
            }
            assert((byte % 128) as nat * pow128(i as nat) <= 127 * pow128(i as nat)) by (nonlinear_arith)
                requires byte % 128 <= 127;
        }
        value = value + (byte % 128) as u64 * (pow128_exec(i));
        i = i + 1;
        if byte < 128 {
            proof { assert(varint_ok(data@)); }
            return Ok(((value % 0x1_0000_0000) as u32, i));
        }
    }
    proof {
        assert forall|k: int| 0 <= k < data@.len() && k < 5 implies !(data@[k] < 128) by {}
    }
    Err(CbcError::PrefixParseError("unterminated varint".to_owned()))
}

/// 128 to the power `i`, for `i` below 5.
fn pow128_exec(i: usize) -> (r: u64)
    requires
        i < 5,
    ensures
        r == pow128(i as nat),
{
    let mut r: u64 = 1;
    let mut k: usize = 0;
    while k < i
        invariant
            k <= i < 5,
            r == pow128(k as nat),
            r <= 0x10000000,
        decreases i - k,
    {
        proof {
            assert(pow128((k + 1) as nat) == 128 * pow128(k as nat));
            assert(pow128(0) == 1);
            assert(pow128(1) == 128);
            assert(pow128(2) == 16384);
            assert(pow128(3) == 2097152);
        }
        r = r * 128;
        k = k + 1;
    }
    r
}


/// The length of the varint at the front of `data` (meaningful when
/// `varint_ok(data)`).
pub open spec fn varint_len(data: Seq<u8>) -> int {
    choose|n: int| varint_terminates_at(data, n) && n <= 5
}

/// A varint ends at exactly one place.
pub proof fn lemma_varint_end_unique(data: Seq<u8>, n1: int, n2: int)
    requires
        varint_terminates_at(data, n1),
        varint_terminates_at(data, n2),
    ensures
        n1 == n2,
{
    if n1 < n2 {
        assert(data[n1 - 1] >= 128);
    } else if n2 < n1 {
        assert(data[n2 - 1] >= 128);
    }
}

/// An accepted varint ends within its first five bytes.
pub proof fn lemma_varint_ok_len(data: Seq<u8>)
    requires
        varint_ok(data),
    ensures
        varint_terminates_at(data, varint_len(data)),
        varint_len(data) <= 5,
{
    let i = choose|i: int| 0 <= i < data.len() && i < 5 && data[i] < 128;
    let first = choose|k: int| 0 <= k <= i && data[k] < 128 && forall|j: int| 0 <= j < k ==> data[j] >= 128;
    assert(exists|k: int| 0 <= k <= i && data[k] < 128 && forall|j: int| 0 <= j < k ==> data[j] >= 128) by {
        lemma_first_low_byte(data, i);
    }
    assert(varint_terminates_at(data, first + 1));
}

proof fn lemma_first_low_byte(data: Seq<u8>, i: int)
    requires
        0 <= i < data.len(),
        data[i] < 128,
    ensures
        exists|k: int| 0 <= k <= i && data[k] < 128 && forall|j: int| 0 <= j < k ==> data[j] >= 128,
    decreases i,
{
    if exists|j: int| 0 <= j < i && data[j] < 128 {
        let j = choose|j: int| 0 <= j < i && data[j] < 128;
        lemma_first_low_byte(data, j);
    } else {
        assert(forall|j: int| 0 <= j < i ==> data[j] >= 128);
    }
}

/// A varint followed by anything decodes back to its value and length.
pub proof fn lemma_varint_roundtrip(v: u32, rest: Seq<u8>)
    ensures
        1 <= spec_varint(v as nat).len() <= 5,
        varint_ok(spec_varint(v as nat) + rest),
        varint_len(spec_varint(v as nat) + rest) == spec_varint(v as nat).len(),
        varint_decoded(spec_varint(v as nat) + rest, spec_varint(v as nat).len() as int)
            == (v, spec_varint(v as nat).len() as usize),
{
    let e = spec_varint(v as nat);
    let d = e + rest;
    assert(pow128(5) == 0x8_0000_0000) by {
        assert(pow128(0) == 1);
        assert(pow128(1) == 128);
        assert(pow128(2) == 16384);
        assert(pow128(3) == 2097152);
        assert(pow128(4) == 268435456);
    }
    lemma_varint_shape(v as nat, 5);
    let n = e.len() as int;
    assert(d[n - 1] == e[n - 1]);
    assert(varint_terminates_at(d, n));
    assert(varint_ok(d));
    lemma_varint_ok_len(d);
    lemma_varint_end_unique(d, n, varint_len(d));
    assert(d.take(n) =~= e);
}

/// The marker bytes for a block type and payload size.
pub open spec fn spec_prefix_marker(block_type: u8, payload_size: u32) -> Seq<u8> {
    seq![0xFFu8, 0x00u8, block_type] + spec_varint(payload_size as nat)
}

/// Whether `decode_prefix_marker` accepts `d`.
pub open spec fn marker_ok(d: Seq<u8>) -> bool {
    &&& d.len() >= 4
    &&& d[0] == 0xFF
    &&& d[1] == 0x00
    &&& varint_ok(d.skip(3))
}

/// The (block_type, payload_size, consumed) that an accepted marker yields.
pub open spec fn spec_marker_fields(d: Seq<u8>) -> (u8, u32, usize) {
    let v = varint_decoded(d.skip(3), varint_len(d.skip(3)));
    (d[2], v.0, (3 + v.1) as usize)
}

/// Encode a prefix-framed block boundary marker.
pub fn encode_prefix_marker(block_type: u8, payload_size: u32) -> (r: Vec<u8>)
    ensures
        r@ == spec_prefix_marker(block_type, payload_size),
{
    let mut buf: Vec<u8> = Vec::new();
    buf.push(0xFF);
    buf.push(0x00);
    buf.push(block_type);
    encode_varint(payload_size, &mut buf);
    proof { assert(buf@ =~= spec_prefix_marker(block_type, payload_size)); }
    buf
}

/// The message for a wrong block start marker.
fn marker_message(a: u8, b: u8) -> (r: String)
    ensures
        r@ == "invalid block start marker: 0x"@ + spec_hex_width(a as nat, 2) + " 0x"@ + spec_hex_width(b as nat, 2),
{
    String::from_str("invalid block start marker: 0x").concat(hex_width(a as u64, 2).as_str()).concat(" 0x").concat(hex_width(b as u64, 2).as_str())
}

/// Decode a prefix-framed block boundary marker.
/// Returns (block_type, payload_size, bytes_consumed).
pub fn decode_prefix_marker(data: &[u8]) -> (r: Result<(u8, u32, usize)>)
    ensures
        match r {
            Ok(f) => marker_ok(data@) && f == spec_marker_fields(data@),
            Err(e) => !marker_ok(data@) && e is PrefixParseError,
        },
{
    if data.len() < 4 {
        return Err(CbcError::PrefixParseError("insufficient data for prefix marker".to_owned()));
    }
    if data[0] != 0xFF || data[1] != 0x00 {
        return Err(CbcError::PrefixParseError(marker_message(data[0], data[1])));
    }
    let block_type = data[2];
    let rest = slice_subrange(data, 3, data.len());
    proof { assert(rest@ =~= data@.skip(3)); }
    let (payload_size, varint_len_) = match decode_varint(rest) {
        Ok(p) => p,
        Err(e) => {
            return Err(e);
        },
    };
    proof {
        lemma_varint_ok_len(rest@);
        lemma_varint_end_unique(rest@, varint_len_ as int, varint_len(rest@));
    }
    Ok((block_type, payload_size, 3 + varint_len_))
}

/// A marker followed by anything decodes back to its fields.
pub proof fn lemma_prefix_marker_roundtrip(block_type: u8, payload_size: u32, rest: Seq<u8>)
    ensures
        marker_ok(spec_prefix_marker(block_type, payload_size) + rest),
        spec_marker_fields(spec_prefix_marker(block_type, payload_size) + rest)
            == (block_type, payload_size, spec_prefix_marker(block_type, payload_size).len() as usize),
{
    let d = spec_prefix_marker(block_type, payload_size) + rest;
    lemma_varint_roundtrip(payload_size, rest);
    assert(d.skip(3) =~= spec_varint(payload_size as nat) + rest);
}

/// The number of bytes of the marker for a payload size.
pub open spec fn spec_prefix_marker_size(payload_size: u32) -> int {
    3 + spec_varint(payload_size as nat).len() as int
}

/// A varint has as many bytes as `v` has base-128 digits (one for zero):
/// the least `n >= 1` with `v < 128^n`.
pub proof fn lemma_varint_len_digits(v: nat)
    ensures
        spec_varint(v).len() >= 1,
        v < pow128(spec_varint(v).len()),
        spec_varint(v).len() > 1 ==> pow128((spec_varint(v).len() - 1) as nat) <= v,
    decreases v,
{
    if v >= 128 {
        let q = v / 128;
        lemma_varint_len_digits(q);
        let n = spec_varint(q).len();
        assert(spec_varint(v).len() == 1 + n);
        assert(pow128(n + 1) == 128 * pow128(n));
        assert(v < 128 * pow128(n)) by (nonlinear_arith) requires q == v / 128, q < pow128(n);
        if n > 1 {
            assert(pow128(n) == 128 * pow128((n - 1) as nat));
            assert(pow128(n) <= v) by (nonlinear_arith) requires q == v / 128, pow128((n - 1) as nat) <= q, pow128(n) == 128 * pow128((n - 1) as nat);
        } else {
            assert(pow128(1) == 128 * pow128(0));
        }
    } else {
        assert(pow128(1) == 128 * pow128(0));
    }
}

/// A marker takes at most 8 bytes.
pub proof fn lemma_marker_size_small(payload_size: u32)
    ensures
        4 <= spec_prefix_marker_size(payload_size) <= 8,
{
    assert(pow128(5) == 0x8_0000_0000) by {
        assert(pow128(0) == 1);
        assert(pow128(1) == 128);
        assert(pow128(2) == 16384);
        assert(pow128(3) == 2097152);
        assert(pow128(4) == 268435456);
    }
    lemma_varint_shape(payload_size as nat, 5);
}

/// Calculate the prefix marker size for a given payload size.
pub fn prefix_marker_size(payload_size: u32) -> (r: usize)
    ensures
        r == spec_prefix_marker_size(payload_size),
        r <= 8,
{
    proof {
        lemma_marker_size_small(payload_size);
    }
    let mut buf: Vec<u8> = Vec::new();
    encode_varint(payload_size, &mut buf);
    proof { assert(buf@ =~= spec_varint(payload_size as nat)); }
    3 + buf.len()
}

/// Whether every block's bytes start with a data-block marker for the
/// expected payload size.
pub open spec fn spec_prefix_parse_ok(block_data: Seq<Seq<u8>>, expected_payload_size: u32) -> bool {
    forall|i: int| 0 <= i < block_data.len() ==> {
        &&& marker_ok(#[trigger] block_data[i])
        &&& spec_marker_fields(block_data[i]).0 == BLOCK_TYPE_DATA
        &&& spec_marker_fields(block_data[i]).1 == expected_payload_size
    }
}

/// The views of a list of byte strings.
pub open spec fn views_of(block_data: Seq<&[u8]>) -> Seq<Seq<u8>> {
    Seq::new(block_data.len(), |i: int| block_data[i]@)
}

/// The message for a block whose marker does not parse.
fn block_marker_message(i: usize, inner: &String) -> (r: String)
    ensures
        r@ == "block "@ + spec_decimal(i as nat) + ": prefix parse validation failed: "@ + inner@,
{
    String::from_str("block ").concat(decimal(i as u64).as_str()).concat(": prefix parse validation failed: ").concat(inner.as_str())
}

/// The message for a block of an unknown type.
fn block_type_message(i: usize, block_type: u8) -> (r: String)
    ensures
        r@ == "block "@ + spec_decimal(i as nat) + ": unknown block type 0x"@ + spec_hex_width(block_type as nat, 2),
{
    String::from_str("block ").concat(decimal(i as u64).as_str()).concat(": unknown block type 0x").concat(hex_width(block_type as u64, 2).as_str())
}

/// The message for a block whose marker carries the wrong payload size.
fn block_size_mismatch_message(i: usize, expected: u32, got: u32) -> (r: String)
    ensures
        r@ == "block "@ + spec_decimal(i as nat) + ": payload size mismatch: expected "@ + spec_decimal(expected as nat) + ", got "@ + spec_decimal(got as nat),
{
    String::from_str("block ").concat(decimal(i as u64).as_str()).concat(": payload size mismatch: expected ").concat(decimal(expected as u64).as_str()).concat(", got ").concat(decimal(got as u64).as_str())
}

/// Validate prefix parse integrity across a sequence of block data.
///
/// Checks that all prefix markers are unambiguous and self-consistent.
/// `block_data` contains the raw bytes for each block (including prefix markers).
pub fn validate_prefix_parse(block_data: &[&[u8]], expected_payload_size: u32) -> (r: Result<()>)
    ensures
        match r {
            Ok(()) => spec_prefix_parse_ok(views_of(block_data@), expected_payload_size),
            Err(e) => !spec_prefix_parse_ok(views_of(block_data@), expected_payload_size) && e is PrefixParseError,
        },
{
    let mut i: usize = 0;
    while i < block_data.len()
        invariant
            i <= block_data@.len(),
            spec_prefix_parse_ok(views_of(block_data@).take(i as int), expected_payload_size),
        decreases block_data@.len() - i,
    {
        let data = block_data[i];
        let (block_type, payload_size, _consumed) = match decode_prefix_marker(data) {
            Ok(f) => f,
            Err(e) => {
                proof { assert(views_of(block_data@)[i as int] == data@); }
                let inner = match e {
                    CbcError::PrefixParseError(s) => s,
                    _ => String::new(),
                };
                return Err(CbcError::PrefixParseError(block_marker_message(i, &inner)));
            },
        };
        proof { assert(views_of(block_data@)[i as int] == data@); }
        if block_type != BLOCK_TYPE_DATA {
            return Err(CbcError::PrefixParseError(block_type_message(i, block_type)));
        }
        if payload_size != expected_payload_size {
            return Err(CbcError::PrefixParseError(block_size_mismatch_message(i, expected_payload_size, payload_size)));
        }
        proof {
            let v = views_of(block_data@);
            assert forall|j: int| 0 <= j < i + 1 implies {
                &&& marker_ok(#[trigger] v.take(i + 1)[j])
                &&& spec_marker_fields(v.take(i + 1)[j]).0 == BLOCK_TYPE_DATA
                &&& spec_marker_fields(v.take(i + 1)[j]).1 == expected_payload_size
            } by {
                if j < i {
                    assert(v.take(i + 1)[j] == v.take(i as int)[j]);
                }
            }
        }
        i = i + 1;
    }
    proof { assert(views_of(block_data@).take(block_data@.len() as int) =~= views_of(block_data@)); }
    Ok(())
}

/// Whether a valid block start marker begins at offset `i` of `d`.
pub open spec fn boundary_at(d: Seq<u8>, i: int) -> bool {
    0 <= i && i + 1 < d.len() && d[i] == 0xFF && d[i + 1] == 0x00 && marker_ok(d.skip(i))
}

/// Scan for the next valid block boundary in a potentially corrupted stream.
/// Returns the offset of the next block start marker, or None.
pub fn find_next_block_boundary(data: &[u8]) -> (r: Option<usize>)
    ensures
        match r {
            Some(i) => boundary_at(data@, i as int) && forall|j: int| 0 <= j < i ==> !boundary_at(data@, j),
            None => forall|j: int| !boundary_at(data@, j),
        },
{
    let n = data.len().saturating_sub(1);
    let mut i: usize = 0;
    while i < n
        invariant
            i <= n,
            n == if data@.len() == 0 { 0 } else { data@.len() - 1 },
            forall|j: int| 0 <= j < i ==> !boundary_at(data@, j),
        decreases n - i,
    {
        if data[i] == 0xFF && data[i + 1] == 0x00 {
            let tail = slice_subrange(data, i, data.len());
            proof { assert(tail@ =~= data@.skip(i as int)); }
            if decode_prefix_marker(tail).is_ok() {
                return Some(i);
            }
        }
        i = i + 1;
    }
    None
}

} // verus!
