//! Family A: linear hash-chain commitments binding every block to one root.
use crate::block::{block_views, spec_header_bytes, spec_padded, Block, BlockModel};
use crate::bytes::append_bytes;
use crate::error::{CbcError, Result};
use crate::hash::{digest, HashSuite};
use crate::tags::{tag_block, tag_block_bytes, tag_c0, tag_c0_bytes};
use subtle::ConstantTimeEq;
use vstd::prelude::*;

verus! {

/// Calls `<[u8] as subtle::ConstantTimeEq>::ct_eq` and converts the
/// `Choice` to `bool`: true exactly when both 32-byte strings are equal.
#[verifier::external_body]
pub(crate) fn ct_eq_32(a: &[u8; 32], b: &[u8; 32]) -> (r: bool)
    ensures
        r == (a@ == b@),
{
    bool::from(a.as_slice().ct_eq(b.as_slice()))
}

/// c0 = H("CBC-v1" || params_canonical || bootstrap_nonce)
pub open spec fn spec_c0(params: Seq<u8>, nonce: Seq<u8>, suite: HashSuite) -> [u8; 32] {
    digest(suite, tag_c0() + params + nonce)
}

/// params_hash = H(params_canonical)
pub open spec fn spec_params_hash(params: Seq<u8>, suite: HashSuite) -> [u8; 32] {
    digest(suite, params)
}

/// ci = H("CBC-v1-block" || params_hash || header_bytes || padded_payload || c(i-1))
pub open spec fn spec_ci(params_hash: Seq<u8>, header_bytes: Seq<u8>, padded: Seq<u8>, prev: Seq<u8>, suite: HashSuite) -> [u8; 32] {
    digest(suite, tag_block() + params_hash + header_bytes + padded + prev)
}

/// The chain value after the first `i` blocks (c0 when `i` is 0).
pub open spec fn chain_link(params_hash: Seq<u8>, c0: [u8; 32], blocks: Seq<BlockModel>, bps: u32, suite: HashSuite, i: nat) -> [u8; 32]
    decreases i,
{
    if i == 0 {
        c0
    } else {
        let b = blocks[i - 1];
        spec_ci(params_hash, spec_header_bytes(b.header), spec_padded(b.payload, bps),
            chain_link(params_hash, c0, blocks, bps, suite, (i - 1) as nat)@, suite)
    }
}

/// Every block's payload fits the block payload size.
pub open spec fn payloads_fit(blocks: Seq<BlockModel>, bps: u32) -> bool {
    forall|i: int| 0 <= i < blocks.len() ==> blocks[i].payload.len() <= bps
}

/// Block `k`'s stored commitment is wrong while all before it are right.
pub open spec fn first_bad_commitment(blocks: Seq<BlockModel>, ph: Seq<u8>, c0: [u8; 32], bps: u32, suite: HashSuite, k: int) -> bool {
    &&& 0 <= k < blocks.len()
    &&& blocks[k].commitment != chain_link(ph, c0, blocks, bps, suite, (k + 1) as nat)
    &&& forall|j: int| 0 <= j < k ==> blocks[j].commitment == chain_link(ph, c0, blocks, bps, suite, (j + 1) as nat)
}

/// A block whose stored commitment is wrong makes the chain check fail
/// somewhere: some block is the first with a wrong commitment.
pub(crate) proof fn lemma_first_bad_exists(blocks: Seq<BlockModel>, ph: Seq<u8>, c0: [u8; 32], bps: u32, suite: HashSuite, j: int)
    requires
        0 <= j < blocks.len(),
        blocks[j].commitment != chain_link(ph, c0, blocks, bps, suite, (j + 1) as nat),
    ensures
        exists|k: int| first_bad_commitment(blocks, ph, c0, bps, suite, k),
    decreases j,
{
    if forall|i: int| 0 <= i < j ==> blocks[i].commitment == chain_link(ph, c0, blocks, bps, suite, (i + 1) as nat) {
        assert(first_bad_commitment(blocks, ph, c0, bps, suite, j));
    } else {
        let i = choose|i: int| 0 <= i < j && blocks[i].commitment != chain_link(ph, c0, blocks, bps, suite, (i + 1) as nat);
        lemma_first_bad_exists(blocks, ph, c0, bps, suite, i);
    }
}

/// Two blocks that are each the first with a wrong commitment are the same.
proof fn lemma_first_bad_unique(blocks: Seq<BlockModel>, ph: Seq<u8>, c0: [u8; 32], bps: u32, suite: HashSuite, k1: int, k2: int)
    requires
        first_bad_commitment(blocks, ph, c0, bps, suite, k1),
        first_bad_commitment(blocks, ph, c0, bps, suite, k2),
    ensures
        k1 == k2,
{
    if k1 < k2 {
        assert(blocks[k1].commitment == chain_link(ph, c0, blocks, bps, suite, (k1 + 1) as nat));
    } else if k2 < k1 {
        assert(blocks[k2].commitment == chain_link(ph, c0, blocks, bps, suite, (k2 + 1) as nat));
    }
}

/// What checking a chain gives: the mismatch of the first block whose
/// stored commitment is not its chain value, or else the chain root.
pub open spec fn spec_verify_chain(ph: Seq<u8>, c0: [u8; 32], blocks: Seq<BlockModel>, bps: u32, suite: HashSuite) -> Result<[u8; 32]> {
    if exists|k: int| first_bad_commitment(blocks, ph, c0, bps, suite, k) {
        let k = choose|k: int| first_bad_commitment(blocks, ph, c0, bps, suite, k);
        Err(CbcError::ChainCommitmentMismatch { index: k as u32 })
    } else {
        Ok(chain_link(ph, c0, blocks, bps, suite, blocks.len()))
    }
}

/// The chain values of blocks do not depend on the commitments they store.
pub proof fn lemma_chain_link_ignores_commitments(ph: Seq<u8>, c0: [u8; 32], a: Seq<BlockModel>, b: Seq<BlockModel>, bps: u32, suite: HashSuite, i: nat)
    requires
        i <= a.len(),
        a.len() == b.len(),
        forall|j: int| 0 <= j < a.len() ==> #[trigger] a[j].header == b[j].header && a[j].payload == b[j].payload,
    ensures
        chain_link(ph, c0, a, bps, suite, i) == chain_link(ph, c0, b, bps, suite, i),
    decreases i,
{
    if i > 0 {
        lemma_chain_link_ignores_commitments(ph, c0, a, b, bps, suite, (i - 1) as nat);
        assert(a[i - 1].header == b[i - 1].header);
    }
}

/// Storing in each block the commitment that `compute_chain` gives for it
/// makes `verify_chain` accept the blocks with the root `compute_chain`
/// gives; where the first `k` blocks store their computed commitments and
/// block `k` another, `verify_chain` reports block `k`.
pub proof fn lemma_recommitted_chain(params: Seq<u8>, nonce: Seq<u8>, blocks: Seq<BlockModel>, recommitted: Seq<BlockModel>, bps: u32, suite: HashSuite, k: int)
    requires
        recommitted.len() == blocks.len(),
        forall|j: int| 0 <= j < blocks.len() ==> #[trigger] recommitted[j].header == blocks[j].header && recommitted[j].payload == blocks[j].payload,
        0 <= k <= blocks.len(),
        forall|j: int| 0 <= j < k ==> #[trigger] recommitted[j].commitment == chain_link(
            spec_params_hash(params, suite)@, spec_c0(params, nonce, suite), blocks, bps, suite, (j + 1) as nat),
    ensures
        ({
            let ph = spec_params_hash(params, suite)@;
            let c0 = spec_c0(params, nonce, suite);
            &&& k == blocks.len() ==> spec_verify_chain(ph, c0, recommitted, bps, suite)
                == Ok::<[u8; 32], CbcError>(chain_link(ph, c0, blocks, bps, suite, blocks.len()))
            &&& k < blocks.len() && recommitted[k].commitment != chain_link(ph, c0, blocks, bps, suite, (k + 1) as nat)
                ==> spec_verify_chain(ph, c0, recommitted, bps, suite)
                == Err::<[u8; 32], CbcError>(CbcError::ChainCommitmentMismatch { index: k as u32 })
        }),
{
    let ph = spec_params_hash(params, suite)@;
    let c0 = spec_c0(params, nonce, suite);
    assert forall|i: nat| i <= blocks.len() implies #[trigger] chain_link(ph, c0, recommitted, bps, suite, i)
        == chain_link(ph, c0, blocks, bps, suite, i) by {
        lemma_chain_link_ignores_commitments(ph, c0, recommitted, blocks, bps, suite, i);
    }
    assert forall|j: int| 0 <= j < k implies #[trigger] recommitted[j].commitment
        == chain_link(ph, c0, recommitted, bps, suite, (j + 1) as nat) by {
        assert(chain_link(ph, c0, recommitted, bps, suite, (j + 1) as nat) == chain_link(ph, c0, blocks, bps, suite, (j + 1) as nat));
    }
    if k == blocks.len() {
        if exists|m: int| first_bad_commitment(recommitted, ph, c0, bps, suite, m) {
            let m = choose|m: int| first_bad_commitment(recommitted, ph, c0, bps, suite, m);
            assert(recommitted[m].commitment == chain_link(ph, c0, recommitted, bps, suite, (m + 1) as nat));
        }
        assert(chain_link(ph, c0, recommitted, bps, suite, recommitted.len()) == chain_link(ph, c0, blocks, bps, suite, blocks.len()));
    } else if recommitted[k].commitment != chain_link(ph, c0, blocks, bps, suite, (k + 1) as nat) {
        assert(chain_link(ph, c0, recommitted, bps, suite, (k + 1) as nat) == chain_link(ph, c0, blocks, bps, suite, (k + 1) as nat));
        assert(first_bad_commitment(recommitted, ph, c0, bps, suite, k));
        let m = choose|m: int| first_bad_commitment(recommitted, ph, c0, bps, suite, m);
        lemma_first_bad_unique(recommitted, ph, c0, bps, suite, k, m);
    }
}

/// A block commitment is the hash of exactly these bytes, in this order:
/// the block tag, the params hash, the header bytes, the whole padded
/// payload and the previous commitment.
pub proof fn lemma_block_commitment_input(params_hash: Seq<u8>, header_bytes: Seq<u8>, padded: Seq<u8>, prev: Seq<u8>, suite: HashSuite)
    ensures
        spec_ci(params_hash, header_bytes, padded, prev, suite)
            == digest(suite, tag_block() + params_hash + header_bytes + padded + prev),
{
}

/// Block commitments bind the padded payload: for one params hash, header
/// and previous commitment, two different padded payloads are hashed from
/// two different inputs, each of which holds its payload right after the
/// tag, the params hash and the header.
pub proof fn lemma_block_commitment_binds_payload(params_hash: Seq<u8>, header_bytes: Seq<u8>, pa: Seq<u8>, pb: Seq<u8>, prev: Seq<u8>, suite: HashSuite)
    requires
        pa != pb,
    ensures
        ({
            let ia = tag_block() + params_hash + header_bytes + pa + prev;
            let ib = tag_block() + params_hash + header_bytes + pb + prev;
            let at: int = (tag_block().len() + params_hash.len() + header_bytes.len()) as int;
            &&& spec_ci(params_hash, header_bytes, pa, prev, suite) == digest(suite, ia)
            &&& spec_ci(params_hash, header_bytes, pb, prev, suite) == digest(suite, ib)
            &&& ia.subrange(at, at + pa.len()) == pa
            &&& ib.subrange(at, at + pb.len()) == pb
            &&& ia != ib
        }),
{
    let x = tag_block() + params_hash + header_bytes;
    let ia = x + pa + prev;
    let ib = x + pb + prev;
    assert(tag_block() + params_hash + header_bytes + pa + prev == ia);
    assert(tag_block() + params_hash + header_bytes + pb + prev == ib);
    assert(ia.subrange(x.len() as int, x.len() as int + pa.len()) =~= pa);
    assert(ib.subrange(x.len() as int, x.len() as int + pb.len()) =~= pb);
    if ia == ib {
        assert(pa.len() == pb.len());
        assert(pa =~= pb);
    }
}

/// The initial chain value is the hash of exactly the chain tag, the 40
/// params bytes and the bootstrap nonce, in this order; the params hash is
/// the hash of the params bytes alone.
pub proof fn lemma_chain_start_input(params: Seq<u8>, nonce: Seq<u8>, suite: HashSuite)
    ensures
        spec_c0(params, nonce, suite) == digest(suite, tag_c0() + params + nonce),
        spec_params_hash(params, suite) == digest(suite, params),
{
}

/// The initial chain value binds the nonce: over the same params, two
/// different nonces of one length are hashed from two different inputs,
/// each of which ends with its nonce.
pub proof fn lemma_chain_start_binds_nonce(params: Seq<u8>, n1: Seq<u8>, n2: Seq<u8>, suite: HashSuite)
    requires
        n1 != n2,
        n1.len() == n2.len(),
    ensures
        ({
            let i1 = tag_c0() + params + n1;
            let i2 = tag_c0() + params + n2;
            &&& spec_c0(params, n1, suite) == digest(suite, i1)
            &&& spec_c0(params, n2, suite) == digest(suite, i2)
            &&& i1.skip(i1.len() - n1.len()) == n1
            &&& i2.skip(i2.len() - n2.len()) == n2
            &&& i1 != i2
        }),
{
    let x = tag_c0() + params;
    assert((x + n1).skip(x.len() as int) =~= n1);
    assert((x + n2).skip(x.len() as int) =~= n2);
}

/// Compute the initial commitment c0.
pub fn compute_c0(params_canonical: &[u8; 40], nonce: &[u8; 16], suite: HashSuite) -> (r: [u8; 32])
    ensures
        r == spec_c0(params_canonical@, nonce@, suite),
        r == digest(suite, tag_c0() + params_canonical@ + nonce@),
{
    let mut buf = tag_c0_bytes();
    append_bytes(&mut buf, params_canonical.as_slice());
    append_bytes(&mut buf, nonce.as_slice());
    suite.hash_bytes(buf.as_slice())
}

/// Compute a block commitment from its parts.
pub fn compute_ci(params_hash: &[u8; 32], header_bytes: &[u8; 16], padded_payload: &[u8], prev_commitment: &[u8; 32], suite: HashSuite) -> (r: [u8; 32])
    ensures
        r == spec_ci(params_hash@, header_bytes@, padded_payload@, prev_commitment@, suite),
        r == digest(suite, tag_block() + params_hash@ + header_bytes@ + padded_payload@ + prev_commitment@),
{
    let mut buf = tag_block_bytes();
    append_bytes(&mut buf, params_hash.as_slice());
    append_bytes(&mut buf, header_bytes.as_slice());
    append_bytes(&mut buf, padded_payload);
    append_bytes(&mut buf, prev_commitment.as_slice());
    suite.hash_bytes(buf.as_slice())
}

/// Compute the params_hash used in block commitments.
pub fn compute_params_hash(params_canonical: &[u8; 40], suite: HashSuite) -> (r: [u8; 32])
    ensures
        r == spec_params_hash(params_canonical@, suite),
        r == digest(suite, params_canonical@),
{
    suite.hash_bytes(params_canonical.as_slice())
}

/// The commitment of one block given the previous chain value.
fn block_commitment(params_hash: &[u8; 32], block: &Block, block_payload_size: u32, prev: &[u8; 32], suite: HashSuite) -> (r: [u8; 32])
    requires
        block.payload@.len() <= block_payload_size,
    ensures
        r == spec_ci(params_hash@, spec_header_bytes(block.header), spec_padded(block.payload@, block_payload_size), prev@, suite),
{
    let header_bytes = block.header.encode();
    let padded = block.padded_payload(block_payload_size);
    compute_ci(params_hash, &header_bytes, padded.as_slice(), prev, suite)
}

/// Compute commitments for all blocks, returning the commitment for each
/// block and the final chain root.
pub fn compute_chain(params_canonical: &[u8; 40], nonce: &[u8; 16], blocks: &[Block], block_payload_size: u32, suite: HashSuite) -> (r: (Vec<[u8; 32]>, [u8; 32]))
    requires
        payloads_fit(block_views(blocks@), block_payload_size),
    ensures
        r.0@.len() == block_views(blocks@).len(),
        forall|i: int| 0 <= i < block_views(blocks@).len() ==> r.0@[i] == chain_link(
            spec_params_hash(params_canonical@, suite)@, spec_c0(params_canonical@, nonce@, suite),
            block_views(blocks@), block_payload_size, suite, (i + 1) as nat),
        r.1 == chain_link(spec_params_hash(params_canonical@, suite)@, spec_c0(params_canonical@, nonce@, suite),
            block_views(blocks@), block_payload_size, suite, block_views(blocks@).len()),
{
    let params_hash = compute_params_hash(params_canonical, suite);
    let c0 = compute_c0(params_canonical, nonce, suite);
    let mut prev = c0;
    let mut commitments: Vec<[u8; 32]> = Vec::new();
    let mut i: usize = 0;
    while i < blocks.len()
        invariant
            i <= block_views(blocks@).len(),
            payloads_fit(block_views(blocks@), block_payload_size),
            params_hash == spec_params_hash(params_canonical@, suite),
            c0 == spec_c0(params_canonical@, nonce@, suite),
            prev == chain_link(params_hash@, c0, block_views(blocks@), block_payload_size, suite, i as nat),
            commitments@.len() == i,
            forall|j: int| 0 <= j < i ==> commitments@[j] == chain_link(params_hash@, c0, block_views(blocks@), block_payload_size, suite, (j + 1) as nat),
        decreases block_views(blocks@).len() - i,
    {
        proof { assert(block_views(blocks@)[i as int] == blocks@[i as int]@); }
        let ci = block_commitment(&params_hash, &blocks[i], block_payload_size, &prev, suite);
        commitments.push(ci);
        prev = ci;
        i = i + 1;
    }
    (commitments, prev)
}

/// Verify the chain commitments of a set of blocks, returning the root.
pub fn verify_chain(params_canonical: &[u8; 40], nonce: &[u8; 16], blocks: &[Block], block_payload_size: u32, suite: HashSuite) -> (r: Result<[u8; 32]>)
    requires
        payloads_fit(block_views(blocks@), block_payload_size),
    ensures
        ({
            let ph = spec_params_hash(params_canonical@, suite)@;
            let c0 = spec_c0(params_canonical@, nonce@, suite);
            match r {
                Ok(root) => {
                    &&& root == chain_link(ph, c0, block_views(blocks@), block_payload_size, suite, block_views(blocks@).len())
                    &&& forall|j: int| 0 <= j < block_views(blocks@).len() ==> block_views(blocks@)[j].commitment
                        == chain_link(ph, c0, block_views(blocks@), block_payload_size, suite, (j + 1) as nat)
                },
                Err(e) => exists|k: int| {
                    &&& 0 <= k < block_views(blocks@).len()
                    &&& e == CbcError::ChainCommitmentMismatch { index: k as u32 }
                    &&& block_views(blocks@)[k].commitment != chain_link(ph, c0, block_views(blocks@), block_payload_size, suite, (k + 1) as nat)
                    &&& forall|j: int| 0 <= j < k ==> block_views(blocks@)[j].commitment
                        == chain_link(ph, c0, block_views(blocks@), block_payload_size, suite, (j + 1) as nat)
                },
            }
        }),
        r == spec_verify_chain(spec_params_hash(params_canonical@, suite)@, spec_c0(params_canonical@, nonce@, suite),
            block_views(blocks@), block_payload_size, suite),
{
    broadcast use vstd::array::group_array_axioms;
    let params_hash = compute_params_hash(params_canonical, suite);
    let c0 = compute_c0(params_canonical, nonce, suite);
    let mut prev = c0;
    let mut i: usize = 0;
    while i < blocks.len()
        invariant
            i <= block_views(blocks@).len(),
            payloads_fit(block_views(blocks@), block_payload_size),
            params_hash == spec_params_hash(params_canonical@, suite),
            c0 == spec_c0(params_canonical@, nonce@, suite),
            prev == chain_link(params_hash@, c0, block_views(blocks@), block_payload_size, suite, i as nat),
            forall|j: int| 0 <= j < i ==> block_views(blocks@)[j].commitment == chain_link(params_hash@, c0, block_views(blocks@), block_payload_size, suite, (j + 1) as nat),
        decreases block_views(blocks@).len() - i,
    {
        proof { assert(block_views(blocks@)[i as int] == blocks@[i as int]@); }
        let expected = block_commitment(&params_hash, &blocks[i], block_payload_size, &prev, suite);
        if !ct_eq_32(&expected, &blocks[i].commitment) {
            proof {
                assert(block_views(blocks@)[i as int].commitment != expected) by {
                    if block_views(blocks@)[i as int].commitment == expected {
                        assert(expected@ == block_views(blocks@)[i as int].commitment@);
                    }
                };
            }
            proof {
                let ghost bs = block_views(blocks@);
                assert(first_bad_commitment(bs, params_hash@, c0, block_payload_size, suite, i as int));
                let ghost m = choose|m: int| first_bad_commitment(bs, params_hash@, c0, block_payload_size, suite, m);
                lemma_first_bad_unique(bs, params_hash@, c0, block_payload_size, suite, i as int, m);
            }
            return Err(CbcError::ChainCommitmentMismatch { index: i as u32 });
        }
        proof {
            assert(expected =~= block_views(blocks@)[i as int].commitment);
        }
        prev = expected;
        i = i + 1;
    }
    proof {
        let ghost bs = block_views(blocks@);
        if exists|m: int| first_bad_commitment(bs, params_hash@, c0, block_payload_size, suite, m) {
            let m = choose|m: int| first_bad_commitment(bs, params_hash@, c0, block_payload_size, suite, m);
            assert(bs[m].commitment == chain_link(params_hash@, c0, bs, block_payload_size, suite, (m + 1) as nat));
        }
    }
    Ok(prev)
}

/// Each step of the chain hashes the block tag, the params hash, the
/// block's header bytes, its zero-padded payload and the chain value before
/// it; the chain starts from the hash of the chain tag, the params bytes
/// and the nonce.
pub proof fn lemma_chain_step(params: Seq<u8>, nonce: Seq<u8>, blocks: Seq<BlockModel>, bps: u32, suite: HashSuite, i: nat)
    requires
        i < blocks.len(),
    ensures
        ({
            let ph = spec_params_hash(params, suite)@;
            let c0 = spec_c0(params, nonce, suite);
            &&& chain_link(ph, c0, blocks, bps, suite, 0) == digest(suite, tag_c0() + params + nonce)
            &&& chain_link(ph, c0, blocks, bps, suite, i + 1) == digest(suite, tag_block() + digest(suite, params)@
                + spec_header_bytes(blocks[i as int].header) + spec_padded(blocks[i as int].payload, bps)
                + chain_link(ph, c0, blocks, bps, suite, i)@)
        }),
{
}

} // verus!
