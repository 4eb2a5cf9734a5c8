//! Stream Footer: appears after the last block of an artifact and commits
//! to the chain root, the optional Merkle root and the receipt slots.
use crate::bootstrap::{lemma_array_of_32, lemma_seq_to_array, push_u32_le, seq_to_array};
use crate::bytes::{append_bytes, bytes_eq, copy_range, fill_array, low32, trunc32};
use crate::error::{other_error, same_error, CbcError, Result};
use crate::hash::{digest, HashSuite};
use crate::tags::{tag_footer, tag_footer_bytes};
use vstd::bytes::{lemma_auto_spec_u32_to_from_le_bytes, spec_u32_from_le_bytes, spec_u32_to_le_bytes, u32_from_le_bytes};
use vstd::prelude::*;
use vstd::slice::slice_subrange;

verus! {

/// Footer magic bytes: "CBCF".
pub const FOOTER_MAGIC: [u8; 4] = [0x43, 0x42, 0x43, 0x46];

/// The fixed portion of the footer (before receipts), without merkle_root.
pub const FOOTER_FIXED_SIZE_A: usize = 44;
/// With merkle_root (Family B).
pub const FOOTER_FIXED_SIZE_AB: usize = 76;

/// Footer commitment size.
pub const FOOTER_COMMITMENT_SIZE: usize = 32;

/// The most receipts a footer may declare.
pub const MAX_RECEIPTS: u32 = 65536;

/// Represents the stream footer.
#[derive(Debug, Clone, PartialEq, Eq)]
pub struct StreamFooter {
    pub chain_root: [u8; 32],
    pub merkle_root: Option<[u8; 32]>,
    pub receipt_count: u32,
    /// Raw receipt bytes.
    pub receipt_slots: Vec<Vec<u8>>,
    pub footer_commitment: [u8; 32],
}

/// The contents of a footer as plain values.
#[verifier::ext_equal]
pub struct FooterView {
    pub chain_root: [u8; 32],
    pub merkle_root: Option<[u8; 32]>,
    pub receipt_count: u32,
    pub receipt_slots: Seq<Seq<u8>>,
    pub footer_commitment: [u8; 32],
}

/// The views of a list of byte vectors.
pub open spec fn vec_views(v: Seq<Vec<u8>>) -> Seq<Seq<u8>> {
    Seq::new(v.len(), |i: int| v[i]@)
}

impl View for StreamFooter {
    type V = FooterView;

    open spec fn view(&self) -> FooterView {
        FooterView {
            chain_root: self.chain_root,
            merkle_root: self.merkle_root,
            receipt_count: self.receipt_count,
            receipt_slots: vec_views(self.receipt_slots@),
            footer_commitment: self.footer_commitment,
        }
    }
}

/// The footer magic as a sequence.
pub open spec fn footer_magic_seq() -> Seq<u8> {
    seq![0x43u8, 0x42u8, 0x43u8, 0x46u8]
}

/// Length-prefixed receipts, each length a little-endian `u32`.
pub open spec fn spec_receipts_bytes(rs: Seq<Seq<u8>>) -> Seq<u8>
    decreases rs.len(),
{
    if rs.len() == 0 {
        Seq::empty()
    } else {
        spec_u32_to_le_bytes(trunc32(rs[0].len() as int)) + rs[0] + spec_receipts_bytes(rs.drop_first())
    }
}

/// The Merkle root bytes, when present.
pub open spec fn opt_root_bytes(mr: Option<[u8; 32]>) -> Seq<u8> {
    match mr {
        Some(m) => m@,
        None => Seq::empty(),
    }
}

/// Footer bytes before the commitment, with a given length field.
pub open spec fn spec_footer_pre(chain_root: [u8; 32], mr: Option<[u8; 32]>, rs: Seq<Seq<u8>>, total_len: u32) -> Seq<u8> {
    footer_magic_seq() + spec_u32_to_le_bytes(total_len) + chain_root@ + opt_root_bytes(mr)
        + spec_u32_to_le_bytes(trunc32(rs.len() as int)) + spec_receipts_bytes(rs)
}

/// The value of the length field: everything up to and including the commitment.
pub open spec fn spec_footer_len(mr: Option<[u8; 32]>, rs: Seq<Seq<u8>>) -> int {
    44 + opt_root_bytes(mr).len() as int + spec_receipts_bytes(rs).len() as int + 32
}

/// The commitment over the footer bytes before it.
pub open spec fn spec_footer_commitment(pre: Seq<u8>, params_hash: Seq<u8>, suite: HashSuite) -> [u8; 32] {
    digest(suite, tag_footer() + params_hash + pre)
}

/// A footer commitment is the hash of exactly these bytes, in this order:
/// the footer tag, the params hash and the footer bytes before the
/// commitment.
pub proof fn lemma_footer_commitment_input(pre: Seq<u8>, params_hash: Seq<u8>, suite: HashSuite)
    ensures
        spec_footer_commitment(pre, params_hash, suite) == digest(suite, tag_footer() + params_hash + pre),
{
}

/// Footer commitments bind the params: over the same footer bytes, two
/// different params hashes of one length are hashed from two different
/// inputs, each of which holds its params hash right after the tag.
pub proof fn lemma_footer_commitment_binds_params(pre: Seq<u8>, ph1: Seq<u8>, ph2: Seq<u8>, suite: HashSuite)
    requires
        ph1 != ph2,
        ph1.len() == ph2.len(),
    ensures
        ({
            let i1 = tag_footer() + ph1 + pre;
            let i2 = tag_footer() + ph2 + pre;
            let at: int = tag_footer().len() as int;
            &&& spec_footer_commitment(pre, ph1, suite) == digest(suite, i1)
            &&& spec_footer_commitment(pre, ph2, suite) == digest(suite, i2)
            &&& i1.subrange(at, at + ph1.len()) == ph1
            &&& i2.subrange(at, at + ph2.len()) == ph2
            &&& i1 != i2
        }),
{
    let t = tag_footer();
    let i1 = t + ph1 + pre;
    let i2 = t + ph2 + pre;
    assert(i1.subrange(t.len() as int, t.len() as int + ph1.len()) =~= ph1);
    assert(i2.subrange(t.len() as int, t.len() as int + ph2.len()) =~= ph2);
}

/// The wire bytes of a footer.
pub open spec fn spec_footer_bytes(chain_root: [u8; 32], mr: Option<[u8; 32]>, rs: Seq<Seq<u8>>, params_hash: Seq<u8>, suite: HashSuite) -> Seq<u8> {
    let pre = spec_footer_pre(chain_root, mr, rs, trunc32(spec_footer_len(mr, rs)));
    pre + spec_footer_commitment(pre, params_hash, suite)@
}

/// Parse `count` length-prefixed receipts of `b` from `offset`, none
/// reaching past `limit`: the receipts and the end offset, or the `need`
/// of the first short read.
pub open spec fn spec_parse_receipts(b: Seq<u8>, offset: int, limit: int, count: nat) -> core::result::Result<(Seq<Seq<u8>>, int), usize>
    decreases count,
{
    if count == 0 {
        Ok((Seq::empty(), offset))
    } else if offset + 4 > limit {
        Err(wrapping_add_usize(offset as usize, 4))
    } else {
        let len = spec_u32_from_le_bytes(b.subrange(offset, offset + 4));
        let start = offset + 4;
        if start + len > limit {
            Err(wrapping_add_usize(start as usize, len as usize))
        } else {
            match spec_parse_receipts(b, start + len, limit, (count - 1) as nat) {
                Ok((rs, end)) => Ok((seq![b.subrange(start, start + len)] + rs, end)),
                Err(n) => Err(n),
            }
        }
    }
}

/// `a + b` wrapped to the width of `usize`.
pub open spec fn wrapping_add_usize(a: usize, b: usize) -> usize {
    if a + b > usize::MAX {
        (a + b - usize::MAX - 1) as usize
    } else {
        (a + b) as usize
    }
}

fn add_wrapping(a: usize, b: usize) -> (r: usize)
    ensures
        r == wrapping_add_usize(a, b),
{
    if a <= usize::MAX - b {
        a + b
    } else {
        b - (usize::MAX - a) - 1
    }
}

/// What decoding the footer bytes `b` yields, each check in turn.
pub open spec fn spec_decode_footer(b: Seq<u8>, has_merkle: bool, params_hash: Seq<u8>, suite: HashSuite) -> Result<FooterView> {
    let min: int = if has_merkle { 108 } else { 76 };
    if b.len() < min {
        Err(CbcError::InsufficientData { need: min as usize, have: b.len() as usize })
    } else if b.subrange(0, 4) != footer_magic_seq() {
        Err(CbcError::InvalidFooterMagic)
    } else {
        let fl = spec_u32_from_le_bytes(b.subrange(4, 8)) as int;
        let off: int = if has_merkle { 72 } else { 40 };
        let count = spec_u32_from_le_bytes(b.subrange(off, off + 4));
        if b.len() < fl {
            Err(CbcError::InsufficientData { need: fl as usize, have: b.len() as usize })
        } else if count > 65536 {
            Err(other_error())
        } else if fl < 32 {
            Err(CbcError::InsufficientData { need: 32, have: fl as usize })
        } else {
            match spec_parse_receipts(b, off + 4, fl - 32, count as nat) {
                Err(need) => Err(CbcError::InsufficientData { need, have: (fl - 32) as usize }),
                Ok((rs, _)) => {
                    let commitment = seq_to_array::<32>(b.subrange(fl - 32, fl));
                    if spec_footer_commitment(b.subrange(0, fl - 32), params_hash, suite) != commitment {
                        Err(CbcError::FooterCommitmentMismatch)
                    } else {
                        Ok(FooterView {
                            chain_root: seq_to_array::<32>(b.subrange(8, 40)),
                            merkle_root: if has_merkle { Some(seq_to_array::<32>(b.subrange(40, 72))) } else { None },
                            receipt_count: count,
                            receipt_slots: rs,
                            footer_commitment: commitment,
                        })
                    }
                },
            }
        }
    }
}

/// The size `encoded_size` reports: bytes of the fixed part, receipts and
/// commitment.
pub open spec fn spec_encoded_size(has_merkle: bool, rs: Seq<Seq<u8>>) -> int
    decreases rs.len(),
{
    if rs.len() == 0 {
        (if has_merkle { 76int } else { 44int }) + 32
    } else {
        spec_encoded_size(has_merkle, rs.drop_last()) + 4 + rs.last().len()
    }
}

proof fn lemma_receipts_bytes_push(rs: Seq<Seq<u8>>, r: Seq<u8>)
    ensures
        spec_receipts_bytes(rs.push(r)) == spec_receipts_bytes(rs) + spec_u32_to_le_bytes(trunc32(r.len() as int)) + r,
    decreases rs.len(),
{
    if rs.len() == 0 {
        assert(rs.push(r).drop_first() =~= Seq::<Seq<u8>>::empty());
        assert(spec_receipts_bytes(Seq::<Seq<u8>>::empty()) == Seq::<u8>::empty());
        assert(rs.push(r)[0] == r);
        assert(rs =~= Seq::<Seq<u8>>::empty());
        assert(spec_receipts_bytes(rs.push(r)) =~= spec_u32_to_le_bytes(trunc32(r.len() as int)) + r);
    } else {
        assert(rs.push(r).drop_first() =~= rs.drop_first().push(r));
        lemma_receipts_bytes_push(rs.drop_first(), r);
        assert(spec_receipts_bytes(rs.push(r)) =~= spec_receipts_bytes(rs) + spec_u32_to_le_bytes(trunc32(r.len() as int)) + r);
    }
}

/// Receipts that sit at `offset` of `b` parse back, ending where they end.
proof fn lemma_parse_encoded_receipts(b: Seq<u8>, offset: int, limit: int, rs: Seq<Seq<u8>>)
    requires
        0 <= offset,
        offset + spec_receipts_bytes(rs).len() <= limit <= b.len(),
        b.subrange(offset, offset + spec_receipts_bytes(rs).len()) == spec_receipts_bytes(rs),
        forall|i: int| 0 <= i < rs.len() ==> #[trigger] rs[i].len() < 0x1_0000_0000,
    ensures
        spec_parse_receipts(b, offset, limit, rs.len()) == Ok::<(Seq<Seq<u8>>, int), usize>((rs, offset + spec_receipts_bytes(rs).len())),
    decreases rs.len(),
{
    lemma_auto_spec_u32_to_from_le_bytes();
    if rs.len() > 0 {
        let r0 = rs[0];
        let rest = rs.drop_first();
        let enc = spec_receipts_bytes(rs);
        let head = spec_u32_to_le_bytes(trunc32(r0.len() as int));
        assert(enc == head + r0 + spec_receipts_bytes(rest));
        assert(r0.len() < 0x1_0000_0000);
        assert(trunc32(r0.len() as int) == r0.len());
        assert(b.subrange(offset, offset + 4) =~= head) by {
            assert forall|i: int| 0 <= i < 4 implies b.subrange(offset, offset + 4)[i] == head[i] by {
                assert(b.subrange(offset, offset + enc.len())[i] == enc[i]);
            }
        }
        let start = offset + 4;
        let next = start + r0.len();
        assert(b.subrange(start, next) =~= r0) by {
            assert forall|i: int| 0 <= i < r0.len() implies b.subrange(start, next)[i] == r0[i] by {
                assert(b.subrange(offset, offset + enc.len())[4 + i] == enc[4 + i]);
            }
        }
        let renc = spec_receipts_bytes(rest);
        assert(b.subrange(next, next + renc.len()) =~= renc) by {
            assert forall|i: int| 0 <= i < renc.len() implies b.subrange(next, next + renc.len())[i] == renc[i] by {
                assert(b.subrange(offset, offset + enc.len())[4 + r0.len() + i] == enc[4 + r0.len() + i]);
            }
        }
        assert forall|i: int| 0 <= i < rest.len() implies #[trigger] rest[i].len() < 0x1_0000_0000 by {
            assert(rest[i] == rs[i + 1]);
        }
        lemma_parse_encoded_receipts(b, next, limit, rest);
        assert(seq![r0] + rest =~= rs);
        assert(spec_u32_from_le_bytes(b.subrange(offset, offset + 4)) == r0.len());
        assert(enc.len() == 4 + r0.len() + renc.len());
    } else {
        assert(rs =~= Seq::<Seq<u8>>::empty());
        assert(spec_receipts_bytes(rs).len() == 0);
    }
}

/// Decoding an encoded footer gives its fields back, provided every count
/// and length fits its 32-bit field and there are at most 65536 receipts.
pub proof fn lemma_footer_roundtrip(chain_root: [u8; 32], merkle_root: Option<[u8; 32]>, rs: Seq<Seq<u8>>, params_hash: Seq<u8>, suite: HashSuite)
    requires
        rs.len() <= 65536,
        forall|i: int| 0 <= i < rs.len() ==> #[trigger] rs[i].len() < 0x1_0000_0000,
        spec_footer_len(merkle_root, rs) < 0x1_0000_0000,
    ensures
        ({
            let b = spec_footer_bytes(chain_root, merkle_root, rs, params_hash, suite);
            let pre = spec_footer_pre(chain_root, merkle_root, rs, trunc32(spec_footer_len(merkle_root, rs)));
            spec_decode_footer(b, merkle_root is Some, params_hash, suite) == Ok::<FooterView, CbcError>(FooterView {
                chain_root,
                merkle_root,
                receipt_count: rs.len() as u32,
                receipt_slots: rs,
                footer_commitment: spec_footer_commitment(pre, params_hash, suite),
            })
        }),
{
    broadcast use vstd::array::group_array_axioms;
    lemma_auto_spec_u32_to_from_le_bytes();
    let fl = spec_footer_len(merkle_root, rs);
    let pre = spec_footer_pre(chain_root, merkle_root, rs, trunc32(fl));
    let c = spec_footer_commitment(pre, params_hash, suite);
    let b = pre + c@;
    let hm = merkle_root is Some;
    let off: int = if hm { 72 } else { 40 };
    let renc = spec_receipts_bytes(rs);
    assert(trunc32(fl) == fl);
    assert(trunc32(rs.len() as int) == rs.len());
    assert(pre.len() == fl - 32);
    assert(b.len() == fl);
    assert(b.subrange(0, 4) =~= footer_magic_seq());
    assert(b.subrange(4, 8) =~= spec_u32_to_le_bytes(trunc32(fl)));
    assert(b.subrange(8, 40) =~= chain_root@);
    lemma_seq_to_array(chain_root);
    if let Some(m) = merkle_root {
        assert(b.subrange(40, 72) =~= m@);
        lemma_seq_to_array(m);
    }
    assert(b.subrange(off, off + 4) =~= spec_u32_to_le_bytes(trunc32(rs.len() as int)));
    assert(b.subrange(off + 4, off + 4 + renc.len()) =~= renc);
    lemma_parse_encoded_receipts(b, off + 4, fl - 32, rs);
    assert(b.subrange(fl - 32, fl) =~= c@);
    lemma_seq_to_array(c);
    assert(b.subrange(0, fl - 32) =~= pre);
}

/// Every strict prefix of a footer the encoder writes is refused: it is
/// shorter than the length the footer declares.
pub proof fn lemma_footer_prefix_rejected(
    chain_root: [u8; 32],
    merkle_root: Option<[u8; 32]>,
    rs: Seq<Seq<u8>>,
    params_hash: Seq<u8>,
    suite: HashSuite,
    m: int,
)
    requires
        rs.len() <= 65536,
        forall|i: int| 0 <= i < rs.len() ==> #[trigger] rs[i].len() < 0x1_0000_0000,
        spec_footer_len(merkle_root, rs) < 0x1_0000_0000,
        0 <= m < spec_footer_bytes(chain_root, merkle_root, rs, params_hash, suite).len(),
    ensures
        spec_decode_footer(spec_footer_bytes(chain_root, merkle_root, rs, params_hash, suite).take(m), merkle_root is Some, params_hash, suite) is Err,
{
    lemma_auto_spec_u32_to_from_le_bytes();
    let fl = spec_footer_len(merkle_root, rs);
    let pre = spec_footer_pre(chain_root, merkle_root, rs, trunc32(fl));
    let c = spec_footer_commitment(pre, params_hash, suite);
    let b = pre + c@;
    let t = b.take(m);
    assert(trunc32(fl) == fl);
    assert(pre.len() == fl - 32);
    assert(b.len() == fl);
    let min: int = if merkle_root is Some { 108 } else { 76 };
    if m >= min {
        assert(t.subrange(0, 4) =~= b.subrange(0, 4));
        assert(b.subrange(0, 4) =~= footer_magic_seq());
        assert(t.subrange(4, 8) =~= b.subrange(4, 8));
        assert(b.subrange(4, 8) =~= spec_u32_to_le_bytes(trunc32(fl)));
        assert(spec_u32_from_le_bytes(t.subrange(4, 8)) == fl);
    }
}

impl StreamFooter {
    /// Encode the footer to bytes.
    pub fn encode(chain_root: [u8; 32], merkle_root: Option<[u8; 32]>, receipt_slots: &[Vec<u8>], params_hash: &[u8; 32], suite: HashSuite) -> (r: Vec<u8>)
        ensures
            r@ == spec_footer_bytes(chain_root, merkle_root, vec_views(receipt_slots@), params_hash@, suite),
            r@.len() >= 76,
            r@.subrange(r@.len() - 32, r@.len() as int)
                == digest(suite, tag_footer() + params_hash@ + r@.take(r@.len() - 32))@,
    {
        proof { lemma_auto_spec_u32_to_from_le_bytes(); }
        let ghost rs = vec_views(receipt_slots@);
        let receipt_count = low32(receipt_slots.len());
        let mut body: Vec<u8> = Vec::new();
        append_bytes(&mut body, chain_root.as_slice());
        match merkle_root {
            Some(mr) => append_bytes(&mut body, mr.as_slice()),
            None => {},
        }
        push_u32_le(&mut body, receipt_count);
        let mut i: usize = 0;
        while i < receipt_slots.len()
            invariant
                i <= receipt_slots@.len(),
                rs == vec_views(receipt_slots@),
                receipt_count == trunc32(rs.len() as int),
                body@ == chain_root@ + opt_root_bytes(merkle_root) + spec_u32_to_le_bytes(receipt_count)
                    + spec_receipts_bytes(rs.take(i as int)),
            decreases receipt_slots@.len() - i,
        {
            let receipt = &receipt_slots[i];
            push_u32_le(&mut body, low32(receipt.len()));
            append_bytes(&mut body, receipt.as_slice());
            proof {
                assert(rs.take(i + 1) =~= rs.take(i as int).push(receipt@));
                lemma_receipts_bytes_push(rs.take(i as int), receipt@);
            }
            i = i + 1;
        }
        proof { assert(rs.take(rs.len() as int) =~= rs); }
        let total_len = ((low32(body.len()) as u64 + 40) % 0x1_0000_0000) as u32;
        proof {
            vstd::arithmetic::div_mod::lemma_add_mod_noop(body@.len() as int, 40, 0x1_0000_0000);
            assert(40int % 0x1_0000_0000 == 40);
            assert(total_len == trunc32(body@.len() as int + 40));
        }
        let mut buf: Vec<u8> = Vec::new();
        append_bytes(&mut buf, FOOTER_MAGIC.as_slice());
        push_u32_le(&mut buf, total_len);
        append_bytes(&mut buf, body.as_slice());
        let mut input = tag_footer_bytes();
        append_bytes(&mut input, params_hash.as_slice());
        append_bytes(&mut input, buf.as_slice());
        let footer_commitment = suite.hash_bytes(input.as_slice());
        let ghost pre = buf@;
        append_bytes(&mut buf, footer_commitment.as_slice());
        proof {
            assert(FOOTER_MAGIC@ =~= footer_magic_seq());
            let pre1 = spec_footer_pre(chain_root, merkle_root, rs, total_len);
            assert(pre1 =~= pre);
            assert(total_len == trunc32(spec_footer_len(merkle_root, rs)));
            assert(pre.len() >= 44);
            assert(buf@.take(buf@.len() - 32) =~= pre);
            assert(buf@.subrange(buf@.len() - 32, buf@.len() as int) =~= footer_commitment@);
        }
        buf
    }

    /// Decode and verify a footer from bytes.
    pub fn decode(bytes: &[u8], has_merkle: bool, params_hash: &[u8; 32], suite: HashSuite) -> (r: Result<Self>)
        ensures
            match (r, spec_decode_footer(bytes@, has_merkle, params_hash@, suite)) {
                (Ok(f), Ok(v)) => f@ == v,
                (Err(e), Err(d)) => same_error(e, d),
                _ => false,
            },
    {
        broadcast use vstd::array::group_array_axioms;
        let min_size: usize = if has_merkle { 108 } else { 76 };
        if bytes.len() < min_size {
            return Err(CbcError::InsufficientData { need: min_size, have: bytes.len() });
        }
        if !bytes_eq(slice_subrange(bytes, 0, 4), FOOTER_MAGIC.as_slice()) {
            proof { assert(FOOTER_MAGIC@ =~= footer_magic_seq()); }
            return Err(CbcError::InvalidFooterMagic);
        }
        proof { assert(FOOTER_MAGIC@ =~= footer_magic_seq()); }
        let footer_length = u32_from_le_bytes(slice_subrange(bytes, 4, 8)) as usize;
        if bytes.len() < footer_length {
            return Err(CbcError::InsufficientData { need: footer_length, have: bytes.len() });
        }
        let mut chain_root = [0u8; 32];
        fill_array(&mut chain_root, slice_subrange(bytes, 8, 40));
        proof { lemma_seq_to_array(chain_root); }
        let mut offset: usize = 40;
        let merkle_root = if has_merkle {
            let mut mr = [0u8; 32];
            fill_array(&mut mr, slice_subrange(bytes, 40, 72));
            proof { lemma_seq_to_array(mr); }
            offset = 72;
            Some(mr)
        } else {
            None
        };
        let receipt_count = u32_from_le_bytes(slice_subrange(bytes, offset, offset + 4));
        offset = offset + 4;
        if receipt_count > MAX_RECEIPTS {
            return Err(CbcError::msg("receipt count too large".to_owned()));
        }
        if footer_length < FOOTER_COMMITMENT_SIZE {
            return Err(CbcError::InsufficientData { need: FOOTER_COMMITMENT_SIZE, have: footer_length });
        }
        let limit = footer_length - FOOTER_COMMITMENT_SIZE;
        let ghost b = bytes@;
        let ghost whole = spec_parse_receipts(b, offset as int, limit as int, receipt_count as nat);
        let mut receipt_slots: Vec<Vec<u8>> = Vec::new();
        let mut k: u32 = 0;
        while k < receipt_count
            invariant
                b == bytes@,
                limit <= bytes@.len(),
                offset <= bytes@.len(),
                k <= receipt_count,
                forall|n: usize| whole == Err::<(Seq<Seq<u8>>, int), usize>(n) ==> spec_decode_footer(b, has_merkle, params_hash@, suite)
                    == Err::<FooterView, CbcError>(CbcError::InsufficientData { need: n, have: limit }),
                whole == match spec_parse_receipts(b, offset as int, limit as int, (receipt_count - k) as nat) {
                    Ok((rs, e)) => Ok::<(Seq<Seq<u8>>, int), usize>((vec_views(receipt_slots@) + rs, e)),
                    Err(n) => Err(n),
                },
            decreases receipt_count - k,
        {
            if offset > limit || limit - offset < 4 {
                return Err(CbcError::InsufficientData { need: add_wrapping(offset, 4), have: limit });
            }
            let receipt_len = u32_from_le_bytes(slice_subrange(bytes, offset, offset + 4)) as usize;
            offset = offset + 4;
            if receipt_len > limit - offset {
                return Err(CbcError::InsufficientData { need: add_wrapping(offset, receipt_len), have: limit });
            }
            let receipt = copy_range(bytes, offset, offset + receipt_len);
            let ghost before = vec_views(receipt_slots@);
            receipt_slots.push(receipt);
            proof {
                assert(vec_views(receipt_slots@) =~= before.push(receipt@));
                let rest = spec_parse_receipts(b, (offset + receipt_len) as int, limit as int, (receipt_count - k - 1) as nat);
                match rest {
                    Ok((rs, e)) => {
                        assert(before + (seq![receipt@] + rs) =~= before.push(receipt@) + rs);
                    },
                    Err(n) => {},
                }
            }
            offset = offset + receipt_len;
            k = k + 1;
        }
        proof {
            assert(vec_views(receipt_slots@) + Seq::<Seq<u8>>::empty() =~= vec_views(receipt_slots@));
        }
        let commitment_offset = limit;
        let mut footer_commitment = [0u8; 32];
        fill_array(&mut footer_commitment, slice_subrange(bytes, commitment_offset, footer_length));
        proof { lemma_seq_to_array(footer_commitment); }
        let mut input = tag_footer_bytes();
        append_bytes(&mut input, params_hash.as_slice());
        append_bytes(&mut input, slice_subrange(bytes, 0, commitment_offset));
        let expected = suite.hash_bytes(input.as_slice());
        if !bytes_eq(expected.as_slice(), footer_commitment.as_slice()) {
            proof {
                assert(expected != footer_commitment) by {
                    if expected == footer_commitment {
                        assert(expected@ == footer_commitment@);
                    }
                }
            }
            return Err(CbcError::FooterCommitmentMismatch);
        }
        proof { assert(expected =~= footer_commitment); }
        let f = StreamFooter { chain_root, merkle_root, receipt_count, receipt_slots, footer_commitment };
        Ok(f)
    }

    /// Total encoded size of this footer. Returns None if overflow occurs.
    pub fn encoded_size(&self) -> (r: Option<usize>)
        ensures
            ({
                let n = spec_encoded_size(self.merkle_root is Some, vec_views(self.receipt_slots@));
                match r {
                    Some(s) => s == n,
                    None => n > usize::MAX,
                }
            }),
    {
        let ghost rs = vec_views(self.receipt_slots@);
        let mut size: usize = 40;
        if self.merkle_root.is_some() {
            size = size + 32;
        }
        size = size + 4;
        let mut i: usize = 0;
        while i < self.receipt_slots.len()
            invariant
                i <= self.receipt_slots@.len(),
                rs == vec_views(self.receipt_slots@),
                size + 32 == spec_encoded_size(self.merkle_root is Some, rs.take(i as int)),
            decreases self.receipt_slots@.len() - i,
        {
            proof {
                assert(rs.take(i + 1).drop_last() =~= rs.take(i as int));
                assert(rs.take(i + 1).last() == self.receipt_slots@[i as int]@);
                lemma_encoded_size_mono(self.merkle_root is Some, rs, i as int + 1);
            }
            let len = self.receipt_slots[i].len();
            if size > usize::MAX - 4 {
                return None;
            }
            size = size + 4;
            if size > usize::MAX - len {
                return None;
            }
            size = size + len;
            i = i + 1;
        }
        proof { assert(rs.take(rs.len() as int) =~= rs); }
        if size > usize::MAX - 32 {
            return None;
        }
        Some(size + 32)
    }
}

/// The encoded size only grows as receipts are added.
proof fn lemma_encoded_size_mono(has_merkle: bool, rs: Seq<Seq<u8>>, i: int)
    requires
        0 <= i <= rs.len(),
    ensures
        spec_encoded_size(has_merkle, rs.take(i)) <= spec_encoded_size(has_merkle, rs),
    decreases rs.len(),
{
    if i < rs.len() {
        assert(rs.drop_last().take(i) =~= rs.take(i));
        lemma_encoded_size_mono(has_merkle, rs.drop_last(), i);
    } else {
        assert(rs.take(i) =~= rs);
    }
}

/// The receipts' encoding takes four length bytes and the bytes of each.
proof fn lemma_receipts_bytes_len(has_merkle: bool, rs: Seq<Seq<u8>>)
    ensures
        spec_encoded_size(has_merkle, rs) == (if has_merkle { 76int } else { 44int }) + 32 + spec_receipts_bytes(rs).len(),
    decreases rs.len(),
{
    lemma_auto_spec_u32_to_from_le_bytes();
    if rs.len() > 0 {
        lemma_receipts_bytes_len(has_merkle, rs.drop_last());
        lemma_receipts_bytes_push(rs.drop_last(), rs.last());
        assert(rs.drop_last().push(rs.last()) =~= rs);
    }
}

/// The size a footer reports is the length of its encoding.
pub proof fn lemma_encoded_size_is_length(
    chain_root: [u8; 32],
    merkle_root: Option<[u8; 32]>,
    rs: Seq<Seq<u8>>,
    params_hash: Seq<u8>,
    suite: HashSuite,
)
    ensures
        spec_encoded_size(merkle_root is Some, rs) == spec_footer_bytes(chain_root, merkle_root, rs, params_hash, suite).len(),
{
    lemma_auto_spec_u32_to_from_le_bytes();
    lemma_receipts_bytes_len(merkle_root is Some, rs);
}

/// Parsing receipts reads only bytes from the first offset on.
proof fn lemma_receipts_congruent(b: Seq<u8>, b2: Seq<u8>, lo: int, offset: int, limit: int, count: nat)
    requires
        b.len() == b2.len(),
        0 <= lo <= offset,
        limit <= b.len(),
        forall|x: int| lo <= x < limit ==> b[x] == b2[x],
    ensures
        spec_parse_receipts(b, offset, limit, count) == spec_parse_receipts(b2, offset, limit, count),
    decreases count,
{
    if count > 0 && offset + 4 <= limit {
        assert(b.subrange(offset, offset + 4) =~= b2.subrange(offset, offset + 4));
        let len = spec_u32_from_le_bytes(b.subrange(offset, offset + 4));
        let start = offset + 4;
        if start + len <= limit {
            assert(b.subrange(start, start + len) =~= b2.subrange(start, start + len));
            lemma_receipts_congruent(b, b2, lo, start + len, limit, (count - 1) as nat);
        }
    }
}

/// A footer whose chain root bytes (8..40) were changed does not decode
/// to the chain root it had: it is refused, or it names another root.
pub proof fn lemma_footer_root_change(b: Seq<u8>, b2: Seq<u8>, has_merkle: bool, params_hash: Seq<u8>, suite: HashSuite)
    requires
        spec_decode_footer(b, has_merkle, params_hash, suite) is Ok,
        b2.len() == b.len(),
        forall|x: int| 0 <= x < b.len() && !(8 <= x < 40) ==> b2[x] == b[x],
        b2.subrange(8, 40) != b.subrange(8, 40),
    ensures
        spec_decode_footer(b2, has_merkle, params_hash, suite) matches Ok(f2)
            ==> f2.chain_root != spec_decode_footer(b, has_merkle, params_hash, suite)->Ok_0.chain_root,
{
    broadcast use vstd::array::group_array_axioms;
    let off: int = if has_merkle { 72 } else { 40 };
    assert(b2.subrange(0, 4) =~= b.subrange(0, 4));
    assert(b2.subrange(4, 8) =~= b.subrange(4, 8));
    assert(b2.subrange(off, off + 4) =~= b.subrange(off, off + 4));
    let fl = spec_u32_from_le_bytes(b.subrange(4, 8)) as int;
    let count = spec_u32_from_le_bytes(b.subrange(off, off + 4));
    lemma_receipts_congruent(b, b2, 40, off + 4, fl - 32, count as nat);
    if spec_decode_footer(b2, has_merkle, params_hash, suite) is Ok {
        let r1 = b.subrange(8, 40);
        let r2 = b2.subrange(8, 40);
        lemma_array_of_32(r1);
        lemma_array_of_32(r2);
    }
}

/// Where a footer's declared length `fl` puts its commitment field: the
/// 32 bytes before `fl`.
pub open spec fn footer_commitment_start(b: Seq<u8>) -> int {
    spec_u32_from_le_bytes(b.subrange(4, 8)) as int - 32
}

/// A footer whose commitment field was changed is refused: bytes that
/// differ from a footer that decodes only in the 32 bytes of its
/// commitment field, and there somewhere, do not decode. Stated for
/// footers whose commitment field lies after the fixed fields and the
/// receipt count, as every encoded footer's does.
pub proof fn lemma_footer_commitment_change(b: Seq<u8>, b2: Seq<u8>, has_merkle: bool, params_hash: Seq<u8>, suite: HashSuite)
    requires
        spec_decode_footer(b, has_merkle, params_hash, suite) is Ok,
        footer_commitment_start(b) >= if has_merkle { 76int } else { 44int },
        b2.len() == b.len(),
        forall|x: int| 0 <= x < b.len() && !(footer_commitment_start(b) <= x < footer_commitment_start(b) + 32) ==> b2[x] == b[x],
        b2.subrange(footer_commitment_start(b), footer_commitment_start(b) + 32)
            != b.subrange(footer_commitment_start(b), footer_commitment_start(b) + 32),
    ensures
        spec_decode_footer(b2, has_merkle, params_hash, suite) is Err,
{
    let off: int = if has_merkle { 72 } else { 40 };
    let cs = footer_commitment_start(b);
    let fl = cs + 32;
    assert(b2.subrange(0, 4) =~= b.subrange(0, 4));
    assert(b2.subrange(4, 8) =~= b.subrange(4, 8));
    assert(b2.subrange(off, off + 4) =~= b.subrange(off, off + 4));
    let count = spec_u32_from_le_bytes(b.subrange(off, off + 4));
    lemma_receipts_congruent(b, b2, 0, off + 4, cs, count as nat);
    assert(b2.subrange(0, cs) =~= b.subrange(0, cs));
    let r1 = b.subrange(cs, fl);
    let r2 = b2.subrange(cs, fl);
    lemma_array_of_32(r1);
    lemma_array_of_32(r2);
    assert(seq_to_array::<32>(r1) != seq_to_array::<32>(r2));
}

/// A footer that decodes ends its declared length with the hash of the
/// footer tag, the params hash and every footer byte before that
/// commitment, and reports that hash as its commitment.
pub proof fn lemma_decoded_footer_commitment(b: Seq<u8>, has_merkle: bool, params_hash: Seq<u8>, suite: HashSuite)
    requires
        spec_decode_footer(b, has_merkle, params_hash, suite) is Ok,
    ensures
        ({
            let fl = spec_u32_from_le_bytes(b.subrange(4, 8)) as int;
            let c = digest(suite, tag_footer() + params_hash + b.subrange(0, fl - 32));
            &&& 32 <= fl <= b.len()
            &&& b.subrange(fl - 32, fl) == c@
            &&& spec_decode_footer(b, has_merkle, params_hash, suite)->Ok_0.footer_commitment == c
        }),
{
    let fl = spec_u32_from_le_bytes(b.subrange(4, 8)) as int;
    lemma_array_of_32(b.subrange(fl - 32, fl));
}

/// The wire layout of a footer: the magic `CBCF`; its total length as a
/// little-endian `u32`; the chain root; the Merkle root, when there is one;
/// the receipt count as a little-endian `u32`; the receipts; and last the
/// hash of the footer tag, the params hash and every byte before it.
pub proof fn lemma_footer_layout(chain_root: [u8; 32], merkle_root: Option<[u8; 32]>, rs: Seq<Seq<u8>>, params_hash: Seq<u8>, suite: HashSuite)
    requires
        rs.len() <= 65536,
        forall|i: int| 0 <= i < rs.len() ==> #[trigger] rs[i].len() < 0x1_0000_0000,
        spec_footer_len(merkle_root, rs) < 0x1_0000_0000,
    ensures
        ({
            let b = spec_footer_bytes(chain_root, merkle_root, rs, params_hash, suite);
            let off: int = if merkle_root is Some { 72 } else { 40 };
            &&& b.len() == spec_footer_len(merkle_root, rs)
            &&& b.subrange(0, 4) == seq![0x43u8, 0x42u8, 0x43u8, 0x46u8]
            &&& spec_u32_from_le_bytes(b.subrange(4, 8)) == b.len()
            &&& b.subrange(8, 40) == chain_root@
            &&& (merkle_root matches Some(m) ==> b.subrange(40, 72) == m@)
            &&& spec_u32_from_le_bytes(b.subrange(off, off + 4)) == rs.len()
            &&& b.subrange(b.len() - 32, b.len() as int) == digest(suite, tag_footer() + params_hash + b.take(b.len() - 32))@
        }),
{
    lemma_auto_spec_u32_to_from_le_bytes();
    lemma_receipts_bytes_len(merkle_root is Some, rs);
    let fl = spec_footer_len(merkle_root, rs);
    let pre = spec_footer_pre(chain_root, merkle_root, rs, trunc32(fl));
    let b = spec_footer_bytes(chain_root, merkle_root, rs, params_hash, suite);
    let off: int = if merkle_root is Some { 72 } else { 40 };
    assert(trunc32(fl) == fl);
    assert(trunc32(rs.len() as int) == rs.len());
    assert(b.subrange(0, 4) =~= seq![0x43u8, 0x42u8, 0x43u8, 0x46u8]);
    assert(b.subrange(4, 8) =~= spec_u32_to_le_bytes(trunc32(fl)));
    assert(b.subrange(8, 40) =~= chain_root@);
    if merkle_root is Some {
        assert(b.subrange(40, 72) =~= merkle_root->0@);
    }
    assert(b.subrange(off, off + 4) =~= spec_u32_to_le_bytes(trunc32(rs.len() as int)));
    assert(b.take(b.len() - 32) =~= pre);
    assert(b.subrange(b.len() - 32, b.len() as int) =~= spec_footer_commitment(pre, params_hash, suite)@);
}

} // verus!
