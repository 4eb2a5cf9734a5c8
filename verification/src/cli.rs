//! The decisions behind the command-line tool: parsing its options,
//! rebuilding padded payloads for proofs, and scanning a partial chain.
use crate::block::{spec_decode_header, BlockHeader};
use crate::bytes::{copy_range, zero_vec};
use crate::bootstrap::{FLAG_COMPRESSED, FLAG_ENCRYPTED};
use crate::encoder::{spec_chunks, EncoderConfig};
use crate::decoder::{spec_integrity, validated_block_count};
use crate::error::{error_text, same_error, CbcError};
use crate::footer::vec_views;
use crate::hash::HashSuite;
use crate::transform::receipt::SigningKey;
use crate::streaming::{after_block, decoder_start, spec_feed_block, StreamingDecoder, StreamingDecoderView};
use vstd::prelude::*;
use vstd::slice::slice_subrange;
use vstd::string::*;

verus! {

/// The padded payloads of the blocks a payload is cut into: each piece of
/// `block_payload_size` bytes zero-padded to that size (one all-zero block
/// for an empty payload).
pub open spec fn spec_padded_payloads(payload: Seq<u8>, block_payload_size: u32) -> Seq<Seq<u8>> {
    let chunks = spec_chunks(payload, block_payload_size as nat);
    Seq::new(chunks.len(), |i: int| crate::block::spec_padded(chunks[i], block_payload_size))
}

/// Reconstruct padded payloads from a flat payload buffer.
pub fn compute_padded_payloads(payload: &[u8], block_payload_size: u32) -> (r: Vec<Vec<u8>>)
    requires
        block_payload_size > 0 || payload@.len() == 0,
    ensures
        vec_views(r@) == spec_padded_payloads(payload@, block_payload_size),
{
    let ghost chunks = spec_chunks(payload@, block_payload_size as nat);
    let bps = block_payload_size as usize;
    let mut out: Vec<Vec<u8>> = Vec::new();
    if payload.len() == 0 {
        let z = zero_vec(bps);
        out.push(z);
        proof {
            assert(payload@ =~= Seq::<u8>::empty());
            assert(chunks =~= seq![payload@]);
            assert(z@ =~= crate::block::spec_padded(payload@, block_payload_size));
            assert(vec_views(out@) =~= spec_padded_payloads(payload@, block_payload_size));
        }
        return out;
    }
    let mut offset: usize = 0;
    proof {
        assert(payload@.skip(0) =~= payload@);
        assert(Seq::<Seq<u8>>::empty() + chunks =~= chunks);
    }
    loop
        invariant
            offset < payload@.len(),
            bps == block_payload_size,
            bps > 0,
            chunks == spec_chunks(payload@, bps as nat),
            chunks == Seq::new(out@.len(), |i: int| chunks[i]) + spec_chunks(payload@.skip(offset as int), bps as nat),
            out@.len() <= chunks.len(),
            forall|i: int| 0 <= i < out@.len() ==> (#[trigger] out@[i])@ == crate::block::spec_padded(chunks[i], block_payload_size),
        decreases payload@.len() - offset,
    {
        let rest = payload.len() - offset;
        let ghost tail = payload@.skip(offset as int);
        let k = out.len();
        let end = if rest <= bps { payload.len() } else { offset + bps };
        let piece = copy_range(payload, offset, end);
        let mut padded = piece;
        let pad = zero_vec(bps - (end - offset));
        crate::bytes::append_bytes(&mut padded, pad.as_slice());
        proof {
            let rest_chunks = spec_chunks(tail, bps as nat);
            if rest <= bps {
                assert(rest_chunks == seq![tail]);
                assert(padded@ =~= crate::block::spec_padded(tail, block_payload_size));
            } else {
                assert(rest_chunks == seq![tail.take(bps as int)] + spec_chunks(tail.skip(bps as int), bps as nat));
                assert(padded@ =~= crate::block::spec_padded(tail.take(bps as int), block_payload_size));
                assert(tail.skip(bps as int) =~= payload@.skip(offset + bps));
            }
            assert(chunks[k as int] == rest_chunks[0]);
        }
        out.push(padded);
        if rest <= bps {
            proof {
                assert(chunks.len() == out@.len());
                assert(vec_views(out@) =~= spec_padded_payloads(payload@, block_payload_size));
            }
            return out;
        }
        proof {
            let old_prefix = Seq::new(k as nat, |i: int| chunks[i]);
            let new_prefix = Seq::new(out@.len(), |i: int| chunks[i]);
            assert(new_prefix =~= old_prefix.push(tail.take(bps as int)));
            assert(chunks =~= new_prefix + spec_chunks(payload@.skip(offset + bps), bps as nat));
        }
        offset = offset + bps;
    }
}

/// Whether a character is white space in Unicode's sense (the
/// `White_Space` property, which `str::trim` uses).
pub open spec fn is_ws(c: char) -> bool {
    let u = c as u32;
    (9 <= u && u <= 13) || u == 32 || u == 0x85 || u == 0xA0 || u == 0x1680 || (0x2000 <= u && u <= 0x200A)
        || u == 0x2028 || u == 0x2029 || u == 0x202F || u == 0x205F || u == 0x3000
}

/// Whether a character is white space, as `is_ws` says.
fn char_is_ws(c: char) -> (r: bool)
    ensures
        r == is_ws(c),
{
    let u = c as u32;
    (9 <= u && u <= 13) || u == 32 || u == 0x85 || u == 0xA0 || u == 0x1680 || (0x2000 <= u && u <= 0x200A) || u == 0x2028
        || u == 0x2029 || u == 0x202F || u == 0x205F || u == 0x3000
}

/// A text without the white space at its ends.
pub open spec fn trim_ws(s: Seq<char>) -> Seq<char>
    decreases s.len(),
{
    if s.len() == 0 {
        s
    } else if is_ws(s[0]) {
        trim_ws(s.drop_first())
    } else if is_ws(s.last()) {
        trim_ws(s.drop_last())
    } else {
        s
    }
}

/// The family bit a part names: `A`, `B` or `C`, in either case.
pub open spec fn family_bit(t: Seq<char>) -> Option<u8> {
    if t == seq!['A'] || t == seq!['a'] {
        Some(0x01)
    } else if t == seq!['B'] || t == seq!['b'] {
        Some(0x02)
    } else if t == seq!['C'] || t == seq!['c'] {
        Some(0x04)
    } else {
        None
    }
}

/// The index of the first `+` in `s`, or its length.
pub open spec fn first_plus(s: Seq<char>) -> nat
    decreases s.len(),
{
    if s.len() == 0 {
        0
    } else if s[0] == '+' {
        0
    } else {
        1 + first_plus(s.drop_first())
    }
}

/// The families the `+`-separated parts of `s` name, added to `acc`;
/// nothing when a part names none.
pub open spec fn spec_families(s: Seq<char>, acc: u8) -> Option<u8>
    decreases s.len(),
{
    let k = first_plus(s);
    match family_bit(trim_ws(s.take(k as int))) {
        None => None,
        Some(b) => if k >= s.len() {
            Some(acc | b)
        } else {
            spec_families(s.skip(k + 1int), acc | b)
        },
    }
}

proof fn lemma_first_plus(s: Seq<char>)
    ensures
        first_plus(s) <= s.len(),
        first_plus(s) < s.len() ==> s[first_plus(s) as int] == '+',
        forall|i: int| 0 <= i < first_plus(s) ==> s[i] != '+',
    decreases s.len(),
{
    if s.len() > 0 && s[0] != '+' {
        lemma_first_plus(s.drop_first());
        assert forall|i: int| 0 <= i < first_plus(s) implies s[i] != '+' by {
            if i > 0 {
                assert(s[i] == s.drop_first()[i - 1]);
            }
        }
    }
}

/// The characters of a text.
fn chars_of(s: &str) -> (r: Vec<char>)
    ensures
        r@ == s@,
{
    let n = s.unicode_len();
    let mut out: Vec<char> = Vec::new();
    let mut i: usize = 0;
    while i < n
        invariant
            n == s@.len(),
            i <= n,
            out@ == s@.take(i as int),
        decreases n - i,
    {
        out.push(s.get_char(i));
        proof {
            assert(out@ =~= s@.take(i + 1));
        }
        i = i + 1;
    }
    proof {
        assert(s@.take(n as int) =~= s@);
    }
    out
}

/// The trimmed part `s[a..b]`, as the bounds of its non-white-space core.
fn trim_bounds(s: &Vec<char>, a: usize, b: usize) -> (r: (usize, usize))
    requires
        a <= b <= s@.len(),
    ensures
        a <= r.0 <= r.1 <= b,
        s@.subrange(r.0 as int, r.1 as int) == trim_ws(s@.subrange(a as int, b as int)),
{
    let mut lo = a;
    let mut hi = b;
    while lo < hi && char_is_ws(s[lo])
        invariant
            a <= lo <= hi <= b <= s@.len(),
            trim_ws(s@.subrange(lo as int, hi as int)) == trim_ws(s@.subrange(a as int, b as int)),
        decreases hi - lo,
    {
        proof { assert(s@.subrange(lo as int, hi as int).drop_first() =~= s@.subrange(lo + 1, hi as int)); }
        lo = lo + 1;
    }
    while lo < hi && char_is_ws(s[hi - 1])
        invariant
            a <= lo <= hi <= b <= s@.len(),
            lo < hi ==> !is_ws(s@[lo as int]),
            trim_ws(s@.subrange(lo as int, hi as int)) == trim_ws(s@.subrange(a as int, b as int)),
        decreases hi - lo,
    {
        proof {
            let t = s@.subrange(lo as int, hi as int);
            assert(t[0] == s@[lo as int]);
            assert(t.drop_last() =~= s@.subrange(lo as int, hi - 1));
        }
        hi = hi - 1;
    }
    proof {
        let t = s@.subrange(lo as int, hi as int);
        if t.len() > 0 {
            assert(t[0] == s@[lo as int]);
            assert(t.last() == s@[hi - 1]);
        }
    }
    (lo, hi)
}

/// The family bit the characters `s[a..b]` name.
fn family_of(s: &Vec<char>, a: usize, b: usize) -> (r: Option<u8>)
    requires
        a <= b <= s@.len(),
    ensures
        r == family_bit(s@.subrange(a as int, b as int)),
{
    if b - a != 1 {
        proof {
            assert(s@.subrange(a as int, b as int).len() != 1);
            assert(seq!['A'].len() == 1);
        }
        return None;
    }
    let c = s[a];
    let ghost t = s@.subrange(a as int, b as int);
    proof {
        assert(t =~= seq![c]);
        assert(t[0] == c);
        assert(seq!['A'][0] == 'A' && seq!['a'][0] == 'a' && seq!['B'][0] == 'B');
        assert(seq!['b'][0] == 'b' && seq!['C'][0] == 'C' && seq!['c'][0] == 'c');
    }
    if c == 'A' || c == 'a' {
        proof { if c == 'A' { assert(t =~= seq!['A']); } else { assert(t =~= seq!['a']); } }
        Some(0x01)
    } else if c == 'B' || c == 'b' {
        proof { if c == 'B' { assert(t =~= seq!['B']); } else { assert(t =~= seq!['b']); } }
        Some(0x02)
    } else if c == 'C' || c == 'c' {
        proof { if c == 'C' { assert(t =~= seq!['C']); } else { assert(t =~= seq!['c']); } }
        Some(0x04)
    } else {
        None
    }
}

/// Parse a `+`-separated list of constraint families (`A`, `B`, `C`, in
/// either case, white space around each allowed) into a commitment mode,
/// which always includes Family A. `None` when a part names no family.
pub fn parse_families(s: &str) -> (r: Option<u8>)
    ensures
        r == (match spec_families(s@, 0) {
            Some(m) => Some(m | 0x01),
            None => None::<u8>,
        }),
{
    let chars = chars_of(s);
    let mut mode: u8 = 0;
    let mut start: usize = 0;
    proof { assert(chars@.skip(0) =~= chars@); }
    loop
        invariant
            start <= chars@.len(),
            chars@ == s@,
            spec_families(chars@, 0) == spec_families(chars@.skip(start as int), mode),
        decreases chars@.len() - start,
    {
        let ghost rest = chars@.skip(start as int);
        proof { lemma_first_plus(rest); }
        let mut end = start;
        while end < chars.len() && chars[end] != '+'
            invariant
                start <= end <= chars@.len(),
                rest == chars@.skip(start as int),
                rest.len() == chars@.len() - start,
                first_plus(rest) <= rest.len(),
                first_plus(rest) < rest.len() ==> rest[first_plus(rest) as int] == '+',
                end - start <= first_plus(rest),
            decreases chars@.len() - end,
        {
            proof {
                assert(rest[end - start] == chars@[end as int]);
            }
            end = end + 1;
        }
        proof {
            if end < chars@.len() {
                assert(rest[end - start] == chars@[end as int]);
                if end - start < first_plus(rest) {
                    assert(rest[end - start] != '+');
                }
            }
            assert(end - start == first_plus(rest));
            assert(rest.take(first_plus(rest) as int) =~= chars@.subrange(start as int, end as int));
        }
        let (lo, hi) = trim_bounds(&chars, start, end);
        let bit = match family_of(&chars, lo, hi) {
            Some(b) => b,
            None => {
                return None;
            },
        };
        mode = mode | bit;
        if end >= chars.len() {
            return Some(mode | 0x01);
        }
        proof { assert(rest.skip(first_plus(rest) + 1int) =~= chars@.skip(end + 1)); }
        start = end + 1;
    }
}

/// The hash suite a name denotes: `blake3` or `sha256`, in any case (the
/// characters whose lowercase is the name's: the Kelvin sign, U+212A, is
/// a `k`).
pub open spec fn spec_hash_name(s: Seq<char>) -> Option<HashSuite> {
    if s.len() == 6 && (s[0] == 'b' || s[0] == 'B') && (s[1] == 'l' || s[1] == 'L') && (s[2] == 'a' || s[2] == 'A')
        && (s[3] == 'k' || s[3] == 'K' || s[3] == '\u{212A}') && (s[4] == 'e' || s[4] == 'E') && s[5] == '3' {
        Some(HashSuite::Blake3)
    } else if s.len() == 6 && (s[0] == 's' || s[0] == 'S') && (s[1] == 'h' || s[1] == 'H') && (s[2] == 'a' || s[2] == 'A')
        && s[3] == '2' && s[4] == '5' && s[5] == '6' {
        Some(HashSuite::Sha256)
    } else {
        None
    }
}

/// Parse a hash suite name (`blake3` or `sha256`, in any case).
pub fn parse_hash(s: &str) -> (r: Option<HashSuite>)
    ensures
        r == spec_hash_name(s@),
{
    let c = chars_of(s);
    if c.len() != 6 {
        return None;
    }
    if (c[0] == 'b' || c[0] == 'B') && (c[1] == 'l' || c[1] == 'L') && (c[2] == 'a' || c[2] == 'A') && (c[3] == 'k' || c[3]
        == 'K' || c[3] == '\u{212A}') && (c[4] == 'e' || c[4] == 'E') && c[5] == '3' {
        Some(HashSuite::Blake3)
    } else if (c[0] == 's' || c[0] == 'S') && (c[1] == 'h' || c[1] == 'H') && (c[2] == 'a' || c[2] == 'A') && c[3] == '2'
        && c[4] == '5' && c[5] == '6' {
        Some(HashSuite::Sha256)
    } else {
        None
    }
}

/// Defaults a configuration file may set for encoding.
pub struct DefaultsConfig {
    pub hash: Option<String>,
    pub block_size: Option<u32>,
    pub families: Option<String>,
    pub compress: Option<bool>,
}

impl Default for DefaultsConfig {
    fn default() -> (r: Self)
        ensures
            r.hash is None,
            r.block_size is None,
            r.families is None,
            r.compress is None,
    {
        DefaultsConfig { hash: None, block_size: None, families: None, compress: None }
    }
}

/// The tool's configuration file.
pub struct CbcConfig {
    pub defaults: DefaultsConfig,
}

impl Default for CbcConfig {
    fn default() -> (r: Self)
        ensures
            r.defaults.hash is None,
            r.defaults.block_size is None,
            r.defaults.families is None,
            r.defaults.compress is None,
    {
        CbcConfig { defaults: DefaultsConfig::default() }
    }
}

/// An option given on the command line wins; else the configuration's
/// default; else the built-in value.
pub open spec fn pick<T>(given: Option<T>, configured: Option<T>, builtin: T) -> T {
    match given {
        Some(v) => v,
        None => match configured {
            Some(v) => v,
            None => builtin,
        },
    }
}

/// The text of an optional string, for `pick`.
pub open spec fn text_of(s: Option<String>) -> Option<Seq<char>> {
    match s {
        Some(t) => Some(t@),
        None => None,
    }
}

/// The settings an encoding runs with: each option given on the command
/// line, else the configuration's default, else BLAKE3, 65536-byte blocks,
/// Families A and B, and no compression.
pub fn resolve_settings(
    hash: Option<String>,
    block_size: Option<u32>,
    families: Option<String>,
    compress: Option<bool>,
    defaults: &DefaultsConfig,
) -> (r: (String, u32, String, bool))
    ensures
        r.0@ == pick(text_of(hash), text_of(defaults.hash), "blake3"@),
        r.1 == pick(block_size, defaults.block_size, 65536u32),
        r.2@ == pick(text_of(families), text_of(defaults.families), "A+B"@),
        r.3 == pick(compress, defaults.compress, false),
{
    let h = match hash {
        Some(h) => h,
        None => match &defaults.hash {
            Some(h) => h.clone(),
            None => String::from_str("blake3"),
        },
    };
    let b = match block_size {
        Some(b) => b,
        None => match defaults.block_size {
            Some(b) => b,
            None => 65536,
        },
    };
    let f = match families {
        Some(f) => f,
        None => match &defaults.families {
            Some(f) => f.clone(),
            None => String::from_str("A+B"),
        },
    };
    let c = match compress {
        Some(c) => c,
        None => match defaults.compress {
            Some(c) => c,
            None => false,
        },
    };
    (h, b, f, c)
}

/// The encoder configuration for the chosen settings: the compression flag
/// when compressing, the encryption flag and key when a key is given.
pub fn settings_config(hash_suite: HashSuite, commitment_mode: u8, block_payload_size: u32, compress: bool, key: Option<[u8; 32]>) -> (r: EncoderConfig)
    ensures
        r.hash_suite == hash_suite,
        r.commitment_mode == commitment_mode,
        r.block_payload_size == block_payload_size,
        r.flags == (if compress { FLAG_COMPRESSED } else { 0u32 }) | (if key is Some { FLAG_ENCRYPTED } else { 0u32 }),
        r.encryption_key == key,
{
    let mut flags: u32 = 0;
    if compress {
        flags = flags | FLAG_COMPRESSED;
    }
    if key.is_some() {
        flags = flags | FLAG_ENCRYPTED;
    }
    proof {
        let a: u32 = if compress { FLAG_COMPRESSED } else { 0u32 };
        assert(0u32 | a == a) by (bit_vector);
        assert(a | 0u32 == a) by (bit_vector);
    }
    EncoderConfig { hash_suite, commitment_mode, block_payload_size, flags, encryption_key: key }
}

/// The number of blocks a payload of `len` bytes makes at `block_size`
/// bytes a block, as the tool reports it: at least one.
pub fn reported_block_count(len: usize, block_size: u32) -> (r: usize)
    requires
        block_size > 0,
    ensures
        r as int == if len == 0 { 1 } else { (len as int + block_size as int - 1) / block_size as int },
{
    if len == 0 {
        1
    } else {
        let bs = block_size as usize;
        let q = len / bs;
        let rem = len % bs;
        proof {
            assert(len == q * bs + rem) by (nonlinear_arith) requires q == len / bs, rem == len % bs, bs > 0;
            assert((len as int + bs - 1) / (bs as int) == q + (if rem > 0 { 1int } else { 0int })) by (nonlinear_arith)
                requires len == q * bs + rem, 0 <= rem < bs, bs > 0;
            assert(rem > 0 ==> q < len) by (nonlinear_arith) requires len == q * bs + rem, 0 <= rem < bs, bs > 0;
        }
        if rem > 0 { q + 1 } else { q }
    }
}

/// What a scan of a possibly incomplete artifact found: whether its
/// bootstrap segment decoded, how many blocks verified in a row, and the
/// error of the block that failed, if one did (a scan that merely runs out
/// of bytes has none).
pub struct PartialScan {
    pub bootstrap_ok: bool,
    pub blocks_verified: u32,
    pub failure: Option<CbcError>,
}

/// A validation report.
pub struct ValidationReport {
    pub valid: bool,
    pub status: String,
    pub blocks_verified: u32,
    pub total_blocks: Option<u32>,
    pub error: Option<String>,
}

/// The decoder's state once a bootstrap segment was taken in.
pub open spec fn bootstrap_state(st: StreamingDecoderView, bs: crate::bootstrap::BootstrapSegment) -> StreamingDecoderView {
    StreamingDecoderView {
        bootstrap: Some(bs),
        params_hash: crate::chain::spec_params_hash(crate::bootstrap::spec_params(bs), bs.hash_suite),
        prev_commitment: crate::chain::spec_c0(crate::bootstrap::spec_params(bs), bs.bootstrap_nonce@, bs.hash_suite),
        ..st
    }
}

/// Blocks of `48 + bps` bytes from `off` on, each fed as possibly the
/// last, until the bytes run out, a header declares more than `bps`
/// payload bytes, or a block fails: how many passed, and the failure.
pub open spec fn spec_scan_from(st: StreamingDecoderView, data: Seq<u8>, off: int, bps: int) -> (nat, Option<CbcError>)
    decreases data.len() - off,
{
    if off < 0 || bps < 0 || off + 16 > data.len() {
        (0, None)
    } else if spec_decode_header(data.subrange(off, off + 16)).payload_length > bps {
        (0, None)
    } else if off + 48 + bps > data.len() {
        (0, None)
    } else {
        match spec_feed_block(st, data.subrange(off, off + 48 + bps), true) {
            Err(e) => (0, Some(e)),
            Ok((c, p, cm)) => {
                let rest = spec_scan_from(after_block(st, c, p, cm), data, off + 48 + bps, bps);
                (rest.0 + 1, rest.1)
            },
        }
    }
}

/// The scan of a possibly incomplete artifact.
pub open spec fn spec_partial_scan(data: Seq<u8>) -> (bool, nat, Option<CbcError>) {
    if data.len() < 64 {
        (false, 0, None)
    } else {
        match crate::bootstrap::spec_decode_bootstrap(data.take(64)) {
            Err(_) => (false, 0, None),
            Ok(bs) => {
                let r = spec_scan_from(bootstrap_state(decoder_start(None), bs), data, 64, bs.block_payload_size as int);
                (true, r.0, r.1)
            },
        }
    }
}

/// Scan a possibly incomplete artifact block by block, for a partial
/// validation.
pub fn partial_scan(data: &[u8]) -> (r: PartialScan)
    requires
        data@.len() < 560 * 0xFFFF_FFFF,
    ensures
        r.bootstrap_ok == spec_partial_scan(data@).0,
        r.blocks_verified == spec_partial_scan(data@).1,
        match (r.failure, spec_partial_scan(data@).2) {
            (None, None) => true,
            (Some(e), Some(d)) => same_error(e, d),
            _ => false,
        },
{
    if data.len() < 64 {
        return PartialScan { bootstrap_ok: false, blocks_verified: 0, failure: None };
    }
    let mut decoder = StreamingDecoder::new(None);
    let head = slice_subrange(data, 0, 64);
    proof { assert(head@ =~= data@.take(64)); }
    match decoder.feed_bootstrap(head) {
        Ok(()) => {},
        Err(_) => {
            return PartialScan { bootstrap_ok: false, blocks_verified: 0, failure: None };
        },
    }
    let ghost bs = crate::bootstrap::spec_decode_bootstrap(data@.take(64))->Ok_0;
    proof { crate::bootstrap::lemma_decoded_valid(data@.take(64)); }
    let bps: usize = match decoder.bootstrap() {
        Some(b) => b.block_payload_size as usize,
        None => {
            return PartialScan { bootstrap_ok: false, blocks_verified: 0, failure: None };
        },
    };
    let ghost st0 = decoder@;
    let ghost whole = spec_scan_from(st0, data@, 64, bps as int);
    let mut offset: usize = 64;
    let mut count: u32 = 0;
    let mut failure: Option<CbcError> = None;
    proof {
        assert(st0 == bootstrap_state(decoder_start(None), bs));
    }
    loop
        invariant_except_break
            whole.0 == count + spec_scan_from(decoder@, data@, offset as int, bps as int).0,
            whole.1 == spec_scan_from(decoder@, data@, offset as int, bps as int).1,
            failure is None,
        invariant
            512 <= bps <= 16777216,
            data@.len() < 560 * 0xFFFF_FFFF,
            decoder@.expected_index == count,
            64 <= offset <= data@.len(),
            offset == 64 + count * (48 + bps),
        ensures
            whole.0 == count,
            match (failure, whole.1) {
                (None, None) => true,
                (Some(e), Some(d)) => same_error(e, d),
                _ => false,
            },
        decreases data@.len() - offset,
    {
        if 16 > data.len() - offset {
            break;
        }
        let mut h_bytes = [0u8; 16];
        crate::bytes::fill_array(&mut h_bytes, slice_subrange(data, offset, offset + 16));
        let header = BlockHeader::decode(&h_bytes);
        proof { assert(h_bytes@ =~= data@.subrange(offset as int, offset + 16)); }
        if header.payload_length as usize > bps {
            break;
        }
        let block_len = 48 + bps;
        if block_len > data.len() - offset {
            break;
        }
        proof {
            assert(count * (48 + bps) + 48 + bps <= data@.len());
            assert(count < 0xFFFF_FFFF) by (nonlinear_arith)
                requires count * (48 + bps) + 48 + bps < 560 * 0xFFFF_FFFF, 512 <= bps;
        }
        let block_bytes = slice_subrange(data, offset, offset + block_len);
        match decoder.feed_block(block_bytes, true) {
            Ok(_) => {
                proof {
                    assert((count + 1) * (48 + bps) == count * (48 + bps) + 48 + bps) by (nonlinear_arith);
                }
                count = count + 1;
                offset = offset + block_len;
            },
            Err(e) => {
                failure = Some(e);
                break;
            },
        }
    }
    PartialScan { bootstrap_ok: true, blocks_verified: count, failure }
}

/// The report of a validation of `data`, and the error that stopped the
/// full decoding, if one did. When decoding fails and a partial validation
/// is asked for, the blocks are scanned one by one: a scan that stops only
/// for want of bytes is a valid partial chain.
pub fn validation_report(data: &[u8], partial: bool) -> (r: (ValidationReport, Option<CbcError>))
    requires
        partial ==> data@.len() < 560 * 0xFFFF_FFFF,
    ensures
        match spec_integrity(data@) {
            Ok((seg, _, _)) => {
                &&& r.0.valid
                &&& r.0.status@ == "Valid"@
                &&& r.0.blocks_verified == seg.block_count
                &&& r.0.total_blocks == Some(seg.block_count)
                &&& r.0.error is None
                &&& r.1 is None
            },
            Err(x) => {
                &&& r.1 matches Some(e) && same_error(e, x)
                &&& r.0.total_blocks is None
                &&& if partial && spec_partial_scan(data@).0 {
                    &&& r.0.blocks_verified == spec_partial_scan(data@).1
                    &&& match spec_partial_scan(data@).2 {
                        None => r.0.valid && r.0.status@ == "Valid Partial Chain"@ && r.0.error is None,
                        Some(y) => {
                            &&& !r.0.valid
                            &&& exists|f: CbcError| same_error(f, y) && r.0.status@ == "Partial Fail: "@ + #[trigger] error_text(f)
                            &&& r.0.error matches Some(t) && t@ == error_text(r.1->0)
                        },
                    }
                } else {
                    &&& !r.0.valid
                    &&& r.0.status@ == "Invalid"@
                    &&& r.0.blocks_verified == 0
                    &&& r.0.error matches Some(t) && t@ == error_text(r.1->0)
                }
            },
        },
{
    match validated_block_count(data) {
        Ok(n) => (
            ValidationReport {
                valid: true,
                status: String::from_str("Valid"),
                blocks_verified: n,
                total_blocks: Some(n),
                error: None,
            },
            None,
        ),
        Err(e) => {
            let mut report = ValidationReport {
                valid: false,
                status: String::from_str("Invalid"),
                blocks_verified: 0,
                total_blocks: None,
                error: Some(e.to_string()),
            };
            if partial {
                let scan = partial_scan(data);
                if scan.bootstrap_ok {
                    report.blocks_verified = scan.blocks_verified;
                    match scan.failure {
                        Some(verr) => {
                            report.status = String::from_str("Partial Fail: ").concat(verr.to_string().as_str());
                            report.valid = false;
                        },
                        None => {
                            report.valid = true;
                            report.status = String::from_str("Valid Partial Chain");
                            report.error = None;
                        },
                    }
                }
            }
            (report, Some(e))
        },
    }
}

/// `s` and `lit` hold the same characters.
fn str_is(s: &str, lit: &str) -> (r: bool)
    ensures
        r == (s@ == lit@),
{
    let n = s.unicode_len();
    if n != lit.unicode_len() {
        return false;
    }
    let mut i: usize = 0;
    while i < n
        invariant
            n == s@.len(),
            n == lit@.len(),
            i <= n,
            s@.take(i as int) == lit@.take(i as int),
        decreases n - i,
    {
        if s.get_char(i) != lit.get_char(i) {
            return false;
        }
        proof {
            assert(s@.take(i + 1) =~= s@.take(i as int).push(s@[i as int]));
            assert(lit@.take(i + 1) =~= lit@.take(i as int).push(lit@[i as int]));
        }
        i = i + 1;
    }
    proof {
        assert(s@ =~= s@.take(n as int));
        assert(lit@ =~= lit@.take(n as int));
    }
    true
}

/// A transform the tool was asked for, with the option it needs.
#[derive(Debug, Clone, Copy, PartialEq, Eq, Structural)]
pub enum TransformPlan {
    Truncate { keep: u32 },
    Rechunk { new_block_size: u32 },
    Recompress,
    Concat,
    Subrange { start: u32, end: u32 },
}

/// Why a transform request was refused.
#[derive(Debug, Clone, Copy, PartialEq, Eq, Structural)]
pub enum PlanError {
    /// Truncation needs the number of blocks to keep.
    MissingKeep,
    /// Rechunking needs the new block size.
    MissingNewBlockSize,
    /// Extraction needs its first block.
    MissingStart,
    /// Extraction needs its last block.
    MissingEnd,
    /// No transform has this name.
    UnknownTransform,
}

/// The transform a name and options ask for: `truncate` (with `keep`),
/// `rechunk` (with `new_block_size`), `recompress`, `concat`, or
/// `subrange` (with `start` and `end`).
pub open spec fn spec_plan(
    name: Seq<char>,
    keep: Option<u32>,
    new_block_size: Option<u32>,
    start: Option<u32>,
    end: Option<u32>,
) -> core::result::Result<TransformPlan, PlanError> {
    if name == "truncate"@ {
        match keep {
            Some(k) => Ok(TransformPlan::Truncate { keep: k }),
            None => Err(PlanError::MissingKeep),
        }
    } else if name == "rechunk"@ {
        match new_block_size {
            Some(b) => Ok(TransformPlan::Rechunk { new_block_size: b }),
            None => Err(PlanError::MissingNewBlockSize),
        }
    } else if name == "recompress"@ {
        Ok(TransformPlan::Recompress)
    } else if name == "concat"@ {
        Ok(TransformPlan::Concat)
    } else if name == "subrange"@ {
        match (start, end) {
            (Some(s), Some(e)) => Ok(TransformPlan::Subrange { start: s, end: e }),
            (None, _) => Err(PlanError::MissingStart),
            (Some(_), None) => Err(PlanError::MissingEnd),
        }
    } else {
        Err(PlanError::UnknownTransform)
    }
}

/// The transform a name and options ask for.
pub fn plan_transform(
    name: &str,
    keep: Option<u32>,
    new_block_size: Option<u32>,
    start: Option<u32>,
    end: Option<u32>,
) -> (r: core::result::Result<TransformPlan, PlanError>)
    ensures
        r == spec_plan(name@, keep, new_block_size, start, end),
{
    if str_is(name, "truncate") {
        match keep {
            Some(k) => Ok(TransformPlan::Truncate { keep: k }),
            None => Err(PlanError::MissingKeep),
        }
    } else if str_is(name, "rechunk") {
        match new_block_size {
            Some(b) => Ok(TransformPlan::Rechunk { new_block_size: b }),
            None => Err(PlanError::MissingNewBlockSize),
        }
    } else if str_is(name, "recompress") {
        Ok(TransformPlan::Recompress)
    } else if str_is(name, "concat") {
        Ok(TransformPlan::Concat)
    } else if str_is(name, "subrange") {
        match (start, end) {
            (Some(s), Some(e)) => Ok(TransformPlan::Subrange { start: s, end: e }),
            (None, _) => Err(PlanError::MissingStart),
            (Some(_), None) => Err(PlanError::MissingEnd),
        }
    } else {
        Err(PlanError::UnknownTransform)
    }
}

/// The signing key a key file holds: its 32 bytes as an Ed25519 secret
/// key (the only length the tool reads).
pub fn load_signing_key(key_bytes: &[u8]) -> (r: SigningKey)
    requires
        key_bytes@.len() == 32,
    ensures
        r matches SigningKey::Ed25519(k) && k@ == key_bytes@,
{
    let mut k = [0u8; 32];
    crate::bytes::fill_array(&mut k, key_bytes);
    SigningKey::Ed25519(k)
}

} // verus!
