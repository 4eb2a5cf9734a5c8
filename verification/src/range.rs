//! Merkle range proofs: the siblings that let a holder of a contiguous run
//! of leaves, and of the root alone, check that run against the root.
use crate::bootstrap::{push_u16_le, push_u32_le, seq_to_array};
use crate::bytes::{append_bytes, low16, trunc16, trunc32};
use crate::hash::HashSuite;
use crate::merkle::{compute_node, halvings, level_link, spec_levels, spec_node, MerkleTree};
use vstd::bytes::{
    lemma_auto_spec_u16_to_from_le_bytes, lemma_auto_spec_u32_to_from_le_bytes, spec_u16_from_le_bytes,
    spec_u16_to_le_bytes, spec_u32_from_le_bytes, spec_u32_to_le_bytes, u16_from_le_bytes, u32_from_le_bytes,
};
use vstd::prelude::*;
use vstd::slice::slice_subrange;

verus! {

/// Side indicator for proof nodes.
#[derive(Debug, Clone, Copy, PartialEq, Eq, Structural)]
pub enum Side {
    Left,
    Right,
}

/// A sibling hash in a range proof.
#[derive(Debug, Clone, Copy)]
pub struct ProofNode {
    pub level: usize,
    pub index: usize,
    pub hash: [u8; 32],
    pub side: Side,
}

/// A Merkle range proof for a contiguous range of leaves [start..=end].
#[derive(Debug, Clone)]
pub struct RangeProof {
    pub start: usize,
    pub end: usize,
    pub leaf_count: usize,
    pub proof_nodes: Vec<ProofNode>,
}

/// The siblings a range [rs..=re] of level `level` needs at that level and
/// above: the left neighbour of an odd start, and the right neighbour of an
/// even end (the end itself when it is the last, unpaired node).
pub open spec fn spec_range_nodes(lv: Seq<Seq<[u8; 32]>>, level: nat, rs: nat, re: nat) -> Seq<ProofNode>
    decreases lv.len() - level,
{
    if level + 1 >= lv.len() {
        Seq::empty()
    } else {
        let row = lv[level as int];
        range_left(row, level, rs) + range_right(row, level, re) + spec_range_nodes(lv, level + 1, rs / 2, re / 2)
    }
}

/// The left neighbour an odd range start needs at this level.
pub open spec fn range_left(row: Seq<[u8; 32]>, level: nat, rs: nat) -> Seq<ProofNode> {
    if rs % 2 == 1 {
        seq![ProofNode { level: level as usize, index: (rs - 1) as usize, hash: row[rs - 1], side: Side::Left }]
    } else {
        Seq::empty()
    }
}

/// The right neighbour an even range end needs at this level: the end
/// itself when it is the last node of the level.
pub open spec fn range_right(row: Seq<[u8; 32]>, level: nat, re: nat) -> Seq<ProofNode> {
    if re % 2 == 0 {
        if re + 1 < row.len() {
            seq![ProofNode { level: level as usize, index: (re + 1) as usize, hash: row[re + 1int], side: Side::Right }]
        } else {
            seq![ProofNode { level: level as usize, index: re as usize, hash: row[re as int], side: Side::Right }]
        }
    } else {
        Seq::empty()
    }
}

/// The 39 wire bytes of a proof node.
pub open spec fn spec_node_bytes(n: ProofNode) -> Seq<u8> {
    spec_u16_to_le_bytes(trunc16(n.level as int)) + spec_u32_to_le_bytes(trunc32(n.index as int))
        + seq![if n.side == Side::Left { 0u8 } else { 1u8 }] + n.hash@
}

/// The wire bytes of a run of proof nodes.
pub open spec fn spec_nodes_bytes(nodes: Seq<ProofNode>) -> Seq<u8>
    decreases nodes.len(),
{
    if nodes.len() == 0 {
        Seq::empty()
    } else {
        spec_nodes_bytes(nodes.drop_last()) + spec_node_bytes(nodes.last())
    }
}

/// The wire bytes of a range proof.
pub open spec fn spec_range_proof_bytes(p: RangeProof) -> Seq<u8> {
    spec_u32_to_le_bytes(trunc32(p.start as int)) + spec_u32_to_le_bytes(trunc32(p.end as int))
        + spec_u32_to_le_bytes(trunc32(p.leaf_count as int)) + spec_u32_to_le_bytes(trunc32(p.proof_nodes@.len() as int))
        + spec_nodes_bytes(p.proof_nodes@)
}

/// The proof node read from 39 bytes: a zero side byte is left, any other
/// right.
pub open spec fn spec_parse_node(b: Seq<u8>) -> ProofNode {
    ProofNode {
        level: spec_u16_from_le_bytes(b.subrange(0, 2)) as usize,
        index: spec_u32_from_le_bytes(b.subrange(2, 6)) as usize,
        side: if b[6] == 0 { Side::Left } else { Side::Right },
        hash: seq_to_array::<32>(b.subrange(7, 39)),
    }
}

/// The number of proof nodes the header of `data` declares.
pub open spec fn declared_nodes(data: Seq<u8>) -> u32 {
    spec_u32_from_le_bytes(data.subrange(12, 16))
}

/// Whether `data` holds a range proof: a 16-byte header declaring at most
/// 1024 nodes, and room for them.
pub open spec fn range_proof_ok(data: Seq<u8>) -> bool {
    data.len() >= 16 && declared_nodes(data) <= 1024 && 16 + declared_nodes(data) * 39 <= data.len()
}

/// The fields of the range proof in `data`: start, end, leaf count, nodes.
pub open spec fn spec_decode_range_proof(data: Seq<u8>) -> (usize, usize, usize, Seq<ProofNode>) {
    (
        spec_u32_from_le_bytes(data.subrange(0, 4)) as usize,
        spec_u32_from_le_bytes(data.subrange(4, 8)) as usize,
        spec_u32_from_le_bytes(data.subrange(8, 12)) as usize,
        Seq::new(declared_nodes(data) as nat, |i: int| spec_parse_node(data.subrange(16 + 39 * i, 16 + 39 * i + 39))),
    )
}

/// The encoded nodes are 39 bytes each, node `i` at offset `39 * i`.
proof fn lemma_nodes_bytes(nodes: Seq<ProofNode>)
    ensures
        spec_nodes_bytes(nodes).len() == 39 * nodes.len(),
        forall|i: int| 0 <= i < nodes.len() ==> #[trigger] spec_nodes_bytes(nodes).subrange(39 * i, 39 * i + 39) == spec_node_bytes(nodes[i]),
    decreases nodes.len(),
{
    lemma_auto_spec_u16_to_from_le_bytes();
    lemma_auto_spec_u32_to_from_le_bytes();
    if nodes.len() > 0 {
        let init = nodes.drop_last();
        lemma_nodes_bytes(init);
        assert(spec_node_bytes(nodes.last()).len() == 39);
        let b = spec_nodes_bytes(nodes);
        assert(b == spec_nodes_bytes(init) + spec_node_bytes(nodes.last()));
        assert forall|i: int| 0 <= i < nodes.len() implies #[trigger] b.subrange(39 * i, 39 * i + 39) == spec_node_bytes(nodes[i]) by {
            if i < nodes.len() - 1 {
                assert(b.subrange(39 * i, 39 * i + 39) =~= spec_nodes_bytes(init).subrange(39 * i, 39 * i + 39));
                assert(init[i] == nodes[i]);
            } else {
                assert(b.subrange(39 * i, 39 * i + 39) =~= spec_node_bytes(nodes.last()));
            }
        }
    }
}

/// Reading back an encoded node gives the node, for levels below 2^16 and
/// indices below 2^32.
proof fn lemma_node_roundtrip(n: ProofNode)
    requires
        n.level < 0x1_0000,
        n.index < 0x1_0000_0000,
    ensures
        spec_parse_node(spec_node_bytes(n)) == n,
        spec_node_bytes(n).len() == 39,
{
    lemma_auto_spec_u16_to_from_le_bytes();
    lemma_auto_spec_u32_to_from_le_bytes();
    let b = spec_node_bytes(n);
    assert(b.subrange(0, 2) =~= spec_u16_to_le_bytes(trunc16(n.level as int)));
    assert(b.subrange(2, 6) =~= spec_u32_to_le_bytes(trunc32(n.index as int)));
    assert(b.subrange(7, 39) =~= n.hash@);
    crate::bootstrap::lemma_seq_to_array(n.hash);
}

/// Decoding an encoded range proof gives back its fields, when they fit
/// the wire format: start, end, leaf count and indices below 2^32, levels
/// below 2^16, at most 1024 nodes.
pub proof fn lemma_range_proof_roundtrip(p: RangeProof)
    requires
        p.start < 0x1_0000_0000,
        p.end < 0x1_0000_0000,
        p.leaf_count < 0x1_0000_0000,
        p.proof_nodes@.len() <= 1024,
        forall|i: int| 0 <= i < p.proof_nodes@.len() ==> (#[trigger] p.proof_nodes@[i]).level < 0x1_0000 && p.proof_nodes@[i].index < 0x1_0000_0000,
    ensures
        range_proof_ok(spec_range_proof_bytes(p)),
        spec_decode_range_proof(spec_range_proof_bytes(p)) == (p.start, p.end, p.leaf_count, p.proof_nodes@),
{
    lemma_auto_spec_u32_to_from_le_bytes();
    let nodes = p.proof_nodes@;
    let b = spec_range_proof_bytes(p);
    lemma_nodes_bytes(nodes);
    assert(b.subrange(0, 4) =~= spec_u32_to_le_bytes(trunc32(p.start as int)));
    assert(b.subrange(4, 8) =~= spec_u32_to_le_bytes(trunc32(p.end as int)));
    assert(b.subrange(8, 12) =~= spec_u32_to_le_bytes(trunc32(p.leaf_count as int)));
    assert(b.subrange(12, 16) =~= spec_u32_to_le_bytes(trunc32(nodes.len() as int)));
    let d = spec_decode_range_proof(b);
    assert forall|i: int| 0 <= i < nodes.len() implies #[trigger] d.3[i] == nodes[i] by {
        let nb = spec_nodes_bytes(nodes);
        assert(b.subrange(16 + 39 * i, 16 + 39 * i + 39) =~= nb.subrange(39 * i, 39 * i + 39));
        lemma_node_roundtrip(nodes[i]);
    }
    assert(d.3 =~= nodes);
}

impl MerkleTree {
    /// Generate a range proof for leaves [start..=end]: `None` exactly when
    /// the range is empty or reaches past the last leaf.
    pub fn prove_range(&self, start: usize, end: usize) -> (r: Option<RangeProof>)
        requires
            self.shape_ok(),
        ensures
            (start > end || end >= self.leaf_count) ==> r is None,
            (start <= end && end < self.leaf_count) ==> (r matches Some(p) && p.start == start && p.end == end
                && p.leaf_count == self.leaf_count
                && p.proof_nodes@ == spec_range_nodes(self.levels(), 0, start as nat, end as nat)),
    {
        if start > end || end >= self.leaf_count || self.nodes.len() == 0 {
            return None;
        }
        let ghost lv = self.levels();
        let ghost whole = spec_range_nodes(lv, 0, start as nat, end as nat);
        let mut proof_nodes: Vec<ProofNode> = Vec::new();
        let mut range_start = start;
        let mut range_end = end;
        let top = self.nodes.len() - 1;
        let mut level: usize = 0;
        proof { assert(proof_nodes@ + whole =~= whole); }
        while level < top
            invariant
                lv == self.levels(),
                lv.len() == self.nodes@.len(),
                forall|l: int| 0 <= l < lv.len() - 1 ==> #[trigger] level_link(lv, l),
                top == lv.len() - 1,
                level <= top,
                range_start <= range_end < lv[level as int].len(),
                proof_nodes@ + spec_range_nodes(lv, level as nat, range_start as nat, range_end as nat) == whole,
            decreases top - level,
        {
            let level_nodes = &self.nodes[level];
            let ghost row = level_nodes@;
            proof {
                assert(lv[level as int] == row);
                assert(level_link(lv, level as int));
            }
            let ghost before = proof_nodes@;
            if range_start % 2 == 1 {
                proof_nodes.push(ProofNode { level, index: range_start - 1, hash: level_nodes[range_start - 1], side: Side::Left });
            }
            proof { assert(proof_nodes@ =~= before + range_left(row, level as nat, range_start as nat)); }
            let ghost mid = proof_nodes@;
            if range_end % 2 == 0 {
                if range_end + 1 < level_nodes.len() {
                    proof_nodes.push(ProofNode { level, index: range_end + 1, hash: level_nodes[range_end + 1], side: Side::Right });
                } else {
                    proof_nodes.push(ProofNode { level, index: range_end, hash: level_nodes[range_end], side: Side::Right });
                }
            }
            proof {
                assert(proof_nodes@ =~= mid + range_right(row, level as nat, range_end as nat));
                let rest = spec_range_nodes(lv, (level + 1) as nat, (range_start / 2) as nat, (range_end / 2) as nat);
                let here = spec_range_nodes(lv, level as nat, range_start as nat, range_end as nat);
                assert(here == range_left(row, level as nat, range_start as nat) + range_right(row, level as nat, range_end as nat) + rest);
                assert(proof_nodes@ + rest =~= before + here);
            }
            range_start = range_start / 2;
            range_end = range_end / 2;
            level = level + 1;
        }
        proof {
            assert(spec_range_nodes(lv, level as nat, range_start as nat, range_end as nat) =~= Seq::<ProofNode>::empty());
            assert(proof_nodes@ =~= whole);
        }
        Some(RangeProof { start, end, leaf_count: self.leaf_count, proof_nodes })
    }
}

impl RangeProof {
    /// Encode a range proof to bytes for transport: start, end, leaf count
    /// and node count as u32 LE, then each node as level (u16 LE), index
    /// (u32 LE), side (0 left, 1 right) and hash. Each field is cut to its
    /// width.
    pub fn encode(&self) -> (r: Vec<u8>)
        ensures
            r@ == spec_range_proof_bytes(*self),
    {
        let mut buf: Vec<u8> = Vec::new();
        push_u32_le(&mut buf, crate::bytes::low32(self.start));
        push_u32_le(&mut buf, crate::bytes::low32(self.end));
        push_u32_le(&mut buf, crate::bytes::low32(self.leaf_count));
        push_u32_le(&mut buf, crate::bytes::low32(self.proof_nodes.len()));
        let ghost head = buf@;
        let mut k: usize = 0;
        while k < self.proof_nodes.len()
            invariant
                k <= self.proof_nodes@.len(),
                buf@ == head + spec_nodes_bytes(self.proof_nodes@.take(k as int)),
            decreases self.proof_nodes@.len() - k,
        {
            let node = self.proof_nodes[k];
            push_u16_le(&mut buf, low16(node.level));
            push_u32_le(&mut buf, crate::bytes::low32(node.index));
            buf.push(if node.side == Side::Left { 0u8 } else { 1u8 });
            append_bytes(&mut buf, node.hash.as_slice());
            proof {
                let t = self.proof_nodes@.take(k + 1);
                assert(t.drop_last() =~= self.proof_nodes@.take(k as int));
                assert(t.last() == node);
                assert(buf@ =~= head + spec_nodes_bytes(t));
            }
            k = k + 1;
        }
        proof { assert(self.proof_nodes@.take(k as int) =~= self.proof_nodes@); }
        buf
    }

    /// Decode a range proof from bytes: `None` exactly when the header is
    /// short, declares more than 1024 nodes, or the nodes do not fit.
    pub fn decode(data: &[u8]) -> (r: Option<Self>)
        ensures
            !range_proof_ok(data@) ==> r is None,
            range_proof_ok(data@) ==> (r matches Some(p)
                && (p.start, p.end, p.leaf_count, p.proof_nodes@) == spec_decode_range_proof(data@)),
    {
        if data.len() < 16 {
            return None;
        }
        let s0 = slice_subrange(data, 0, 4);
        let s1 = slice_subrange(data, 4, 8);
        let s2 = slice_subrange(data, 8, 12);
        let s3 = slice_subrange(data, 12, 16);
        let start = u32_from_le_bytes(s0) as usize;
        let end = u32_from_le_bytes(s1) as usize;
        let leaf_count = u32_from_le_bytes(s2) as usize;
        let node_count = u32_from_le_bytes(s3) as usize;
        proof {
            assert(s0@ =~= data@.subrange(0, 4));
            assert(s1@ =~= data@.subrange(4, 8));
            assert(s2@ =~= data@.subrange(8, 12));
            assert(s3@ =~= data@.subrange(12, 16));
        }
        if node_count > 1024 || 16 + node_count * 39 > data.len() {
            return None;
        }
        let ghost nodes_spec = spec_decode_range_proof(data@).3;
        let mut offset: usize = 16;
        let mut proof_nodes: Vec<ProofNode> = Vec::new();
        let mut k: usize = 0;
        while k < node_count
            invariant
                node_count == declared_nodes(data@),
                node_count <= 1024,
                16 + node_count * 39 <= data@.len(),
                k <= node_count,
                offset == 16 + 39 * k,
                nodes_spec == spec_decode_range_proof(data@).3,
                proof_nodes@ == nodes_spec.take(k as int),
            decreases node_count - k,
        {
            let b = slice_subrange(data, offset, offset + 39);
            let lb = slice_subrange(b, 0, 2);
            let ib = slice_subrange(b, 2, 6);
            let hb = slice_subrange(b, 7, 39);
            let level = u16_from_le_bytes(lb) as usize;
            let index = u32_from_le_bytes(ib) as usize;
            let side = if b[6] == 0 { Side::Left } else { Side::Right };
            let mut hash = [0u8; 32];
            crate::bytes::fill_array(&mut hash, hb);
            let node = ProofNode { level, index, hash, side };
            proof {
                broadcast use vstd::array::group_array_axioms;
                assert(b@ =~= data@.subrange(16 + 39 * k, 16 + 39 * k + 39));
                assert(lb@ =~= b@.subrange(0, 2));
                assert(ib@ =~= b@.subrange(2, 6));
                assert(hash@ =~= b@.subrange(7, 39));
                crate::bootstrap::lemma_seq_to_array(hash);
                assert(node == spec_parse_node(b@));
            }
            proof_nodes.push(node);
            proof { assert(proof_nodes@ =~= nodes_spec.take(k + 1)); }
            offset = offset + 39;
            k = k + 1;
        }
        proof { assert(proof_nodes@ =~= nodes_spec); }
        Some(RangeProof { start, end, leaf_count, proof_nodes })
    }
}

/// Insert `e` into `cur` in index order unless an entry with its index is
/// already there (the first entry for an index wins).
pub open spec fn ins(cur: Seq<(usize, [u8; 32])>, e: (usize, [u8; 32])) -> Seq<(usize, [u8; 32])>
    decreases cur.len(),
{
    if cur.len() == 0 {
        seq![e]
    } else if cur[0].0 == e.0 {
        cur
    } else if e.0 < cur[0].0 {
        seq![e] + cur
    } else {
        seq![cur[0]] + ins(cur.drop_first(), e)
    }
}

/// Merge the proof nodes of `level`, in order, into the known nodes.
pub open spec fn merge_level(cur: Seq<(usize, [u8; 32])>, pns: Seq<ProofNode>, level: usize) -> Seq<(usize, [u8; 32])>
    decreases pns.len(),
{
    if pns.len() == 0 {
        cur
    } else {
        let c2 = if pns[0].level == level { ins(cur, (pns[0].index, pns[0].hash)) } else { cur };
        merge_level(c2, pns.drop_first(), level)
    }
}

/// The parents of the known nodes of a level of `level_size` nodes: each
/// left child with its right sibling, a last odd node with itself; `None`
/// when a right child comes without its left, or a left child without its
/// right sibling inside the level.
pub open spec fn pair_up(cur: Seq<(usize, [u8; 32])>, level_size: nat, suite: HashSuite) -> Option<Seq<(usize, [u8; 32])>>
    decreases cur.len(),
{
    if cur.len() == 0 {
        Some(Seq::empty())
    } else {
        let idx = cur[0].0;
        let h = cur[0].1;
        if idx % 2 != 0 {
            None
        } else if cur.len() >= 2 && cur[1].0 == idx + 1 {
            match pair_up(cur.skip(2), level_size, suite) {
                Some(r) => Some(seq![((idx / 2) as usize, spec_node(h, cur[1].1, suite))] + r),
                None => None,
            }
        } else if idx + 1 >= level_size {
            match pair_up(cur.drop_first(), level_size, suite) {
                Some(r) => Some(seq![((idx / 2) as usize, spec_node(h, h, suite))] + r),
                None => None,
            }
        } else {
            None
        }
    }
}

/// Whether the walk up the tree has more levels to go: it stops at a level
/// of one node holding only node 0.
pub open spec fn walk_continues(cur: Seq<(usize, [u8; 32])>, level_size: nat) -> bool {
    level_size > 1 || cur.len() != 1 || cur[0].0 != 0
}

/// The walk from the known nodes of `level` up to the root: at the top,
/// whether the one node left is `root`; below it, merge the level's proof
/// nodes, pair up, and go on (failing on a bad pairing, on no parents, or
/// should the level counter reach `usize::MAX`).
pub open spec fn walk(cur: Seq<(usize, [u8; 32])>, level: usize, level_size: nat, pns: Seq<ProofNode>, root: [u8; 32], suite: HashSuite) -> bool
    decreases usize::MAX - level,
{
    if !walk_continues(cur, level_size) {
        cur.len() == 1 && cur[0].1 == root
    } else {
        match pair_up(merge_level(cur, pns, level), level_size, suite) {
            None => false,
            Some(next) => {
                if next.len() == 0 || level >= usize::MAX {
                    false
                } else {
                    walk(next, (level + 1) as usize, (level_size + 1) / 2, pns, root, suite)
                }
            },
        }
    }
}

/// The leaves of a range with their absolute indices.
pub open spec fn indexed_leaves(start: usize, leaf_hashes: Seq<[u8; 32]>) -> Seq<(usize, [u8; 32])> {
    Seq::new(leaf_hashes.len(), |i: int| ((start + i) as usize, leaf_hashes[i]))
}

/// Insert into `cur` in index order unless present.
fn insert_absent(cur: &mut Vec<(usize, [u8; 32])>, e: (usize, [u8; 32]))
    ensures
        final(cur)@ == ins(old(cur)@, e),
{
    let ghost c = cur@;
    let mut k: usize = 0;
    proof { assert(c.skip(0) =~= c); assert(c.take(0) + ins(c.skip(0), e) =~= ins(c, e)); }
    while k < cur.len() && cur[k].0 < e.0
        invariant
            cur@ == c,
            k <= c.len(),
            c.take(k as int) + ins(c.skip(k as int), e) == ins(c, e),
        decreases c.len() - k,
    {
        proof {
            let t = c.skip(k as int);
            assert(t.drop_first() =~= c.skip(k + 1));
            assert(ins(t, e) == seq![c[k as int]] + ins(c.skip(k + 1), e));
            assert(c.take(k + 1) + ins(c.skip(k + 1), e) =~= c.take(k as int) + ins(t, e));
        }
        k = k + 1;
    }
    if k < cur.len() && cur[k].0 == e.0 {
        proof { assert(c.take(k as int) + c.skip(k as int) =~= c); }
    } else {
        cur.insert(k, e);
        proof {
            if k < c.len() {
                assert(ins(c.skip(k as int), e) == seq![e] + c.skip(k as int));
            } else {
                assert(c.skip(k as int) =~= Seq::<(usize, [u8; 32])>::empty());
            }
            assert(cur@ =~= c.take(k as int) + ins(c.skip(k as int), e));
        }
    }
}

/// The parents of the known nodes of a level, or `None` on a bad pairing.
fn pair_level(cur: &Vec<(usize, [u8; 32])>, level_size: usize, suite: HashSuite) -> (r: Option<Vec<(usize, [u8; 32])>>)
    ensures
        match (r, pair_up(cur@, level_size as nat, suite)) {
            (Some(v), Some(s)) => v@ == s,
            (None, None) => true,
            _ => false,
        },
{
    let ghost c = cur@;
    let ghost whole = pair_up(c, level_size as nat, suite);
    let mut next: Vec<(usize, [u8; 32])> = Vec::new();
    let mut i: usize = 0;
    proof {
        assert(c.skip(0) =~= c);
        match whole {
            Some(s) => { assert(next@ + s =~= s); },
            None => {},
        }
    }
    while i < cur.len()
        invariant
            cur@ == c,
            i <= c.len(),
            whole == pair_up(c, level_size as nat, suite),
            whole == match pair_up(c.skip(i as int), level_size as nat, suite) {
                Some(r) => Some(next@ + r),
                None => None::<Seq<(usize, [u8; 32])>>,
            },
        decreases c.len() - i,
    {
        let (idx, hash) = cur[i];
        let ghost t = c.skip(i as int);
        proof { assert(t[0] == c[i as int]); }
        if idx % 2 == 0 {
            proof { assert(usize::MAX % 2 == 1); }
            if i + 1 < cur.len() && cur[i + 1].0 == idx + 1 {
                let right = cur[i + 1].1;
                let ghost before = next@;
                next.push((idx / 2, compute_node(&hash, &right, suite)));
                proof {
                    assert(t[1] == c[i + 1]);
                    assert(t.skip(2) =~= c.skip(i + 2));
                    match pair_up(c.skip(i + 2), level_size as nat, suite) {
                        Some(r) => { assert(next@ + r =~= before + (seq![((idx / 2) as usize, spec_node(hash, right, suite))] + r)); },
                        None => {},
                    }
                }
                i = i + 2;
            } else if idx + 1 >= level_size {
                let ghost before = next@;
                next.push((idx / 2, compute_node(&hash, &hash, suite)));
                proof {
                    if i + 1 < c.len() { assert(t[1] == c[i + 1]); }
                    assert(t.drop_first() =~= c.skip(i + 1));
                    match pair_up(c.skip(i + 1), level_size as nat, suite) {
                        Some(r) => { assert(next@ + r =~= before + (seq![((idx / 2) as usize, spec_node(hash, hash, suite))] + r)); },
                        None => {},
                    }
                }
                i = i + 1;
            } else {
                proof { if i + 1 < c.len() { assert(t[1] == c[i + 1]); } }
                return None;
            }
        } else {
            return None;
        }
    }
    proof {
        assert(c.skip(i as int) =~= Seq::<(usize, [u8; 32])>::empty());
        assert(next@ + Seq::<(usize, [u8; 32])>::empty() =~= next@);
    }
    Some(next)
}

impl RangeProof {
    /// Verify this range proof against a known root, given the hashes of
    /// the leaves [start..=end]: walk up from the leaves, adding the proof
    /// nodes of each level, until one node is left, and compare it with the
    /// root.
    pub fn verify(&self, leaf_hashes: &[[u8; 32]], root: &[u8; 32], suite: HashSuite) -> (r: bool)
        requires
            self.start <= self.end,
            self.end - self.start < usize::MAX,
        ensures
            r == (leaf_hashes@.len() == self.end - self.start + 1
                && walk(indexed_leaves(self.start, leaf_hashes@), 0, self.leaf_count as nat, self.proof_nodes@, *root, suite)),
    {
        let expected_count = self.end - self.start + 1;
        if leaf_hashes.len() != expected_count {
            return false;
        }
        let ghost pns = self.proof_nodes@;
        let ghost goal = walk(indexed_leaves(self.start, leaf_hashes@), 0, self.leaf_count as nat, pns, *root, suite);
        let mut current: Vec<(usize, [u8; 32])> = Vec::new();
        let mut k: usize = 0;
        while k < leaf_hashes.len()
            invariant
                k <= leaf_hashes@.len(),
                leaf_hashes@.len() == self.end - self.start + 1,
                self.start <= self.end,
                current@ == indexed_leaves(self.start, leaf_hashes@).take(k as int),
            decreases leaf_hashes@.len() - k,
        {
            current.push((self.start + k, leaf_hashes[k]));
            k = k + 1;
            proof { assert(current@ =~= indexed_leaves(self.start, leaf_hashes@).take(k as int)); }
        }
        proof { assert(current@ =~= indexed_leaves(self.start, leaf_hashes@)); }
        let mut level: usize = 0;
        let mut level_size: usize = self.leaf_count;
        while level_size > 1 || current.len() != 1 || current[0].0 != 0
            invariant
                pns == self.proof_nodes@,
                leaf_hashes@.len() == self.end - self.start + 1,
                goal == walk(indexed_leaves(self.start, leaf_hashes@), 0, self.leaf_count as nat, pns, *root, suite),
                walk(current@, level, level_size as nat, pns, *root, suite) == goal,
            decreases usize::MAX - level,
        {
            let ghost c0 = current@;
            proof { assert(walk_continues(c0, level_size as nat)); }
            let mut m: usize = 0;
            proof { assert(pns.skip(0) =~= pns); }
            while m < self.proof_nodes.len()
                invariant
                    pns == self.proof_nodes@,
                    m <= pns.len(),
                    merge_level(current@, pns.skip(m as int), level) == merge_level(c0, pns, level),
                decreases pns.len() - m,
            {
                let pn = self.proof_nodes[m];
                proof { assert(pns.skip(m as int).drop_first() =~= pns.skip(m + 1)); }
                if pn.level == level {
                    insert_absent(&mut current, (pn.index, pn.hash));
                }
                m = m + 1;
            }
            proof { assert(pns.skip(m as int) =~= Seq::<ProofNode>::empty()); }
            let ghost merged = current@;
            proof { assert(merged == merge_level(c0, pns, level)); }
            let next = match pair_level(&current, level_size, suite) {
                Some(n) => n,
                None => {
                    proof { assert(!walk(c0, level, level_size as nat, pns, *root, suite)); }
                    return false;
                },
            };
            if next.len() == 0 || level == usize::MAX {
                proof { assert(!walk(c0, level, level_size as nat, pns, *root, suite)); }
                return false;
            }
            proof {
                assert(walk(c0, level, level_size as nat, pns, *root, suite)
                    == walk(next@, (level + 1) as usize, (level_size as nat + 1) / 2, pns, *root, suite));
            }
            level = level + 1;
            level_size = level_size / 2 + level_size % 2;
            current = next;
        }
        current.len() == 1 && crate::decoder::hash_eq(&current[0].1, root)
    }
}

/// Nodes [a..=b] of a level with their indices.
pub open spec fn range_of(row: Seq<[u8; 32]>, a: nat, b: nat) -> Seq<(usize, [u8; 32])> {
    Seq::new((b + 1 - a) as nat, |k: int| ((a + k) as usize, row[a + k]))
}

/// Indices strictly increase along `cur`.
pub open spec fn strictly_sorted(cur: Seq<(usize, [u8; 32])>) -> bool {
    forall|i: int, j: int| 0 <= i < j < cur.len() ==> cur[i].0 < cur[j].0
}

/// Merging proof nodes of other levels changes nothing.
proof fn lemma_merge_other_levels(cur: Seq<(usize, [u8; 32])>, pns: Seq<ProofNode>, level: usize)
    requires
        forall|i: int| 0 <= i < pns.len() ==> (#[trigger] pns[i]).level != level,
    ensures
        merge_level(cur, pns, level) == cur,
    decreases pns.len(),
{
    if pns.len() > 0 {
        assert(pns[0].level != level);
        let rest = pns.drop_first();
        assert forall|i: int| 0 <= i < rest.len() implies (#[trigger] rest[i]).level != level by {
            assert(rest[i] == pns[i + 1]);
        }
        lemma_merge_other_levels(cur, rest, level);
    }
}

/// Merging a concatenation merges its parts in turn.
proof fn lemma_merge_append(cur: Seq<(usize, [u8; 32])>, x: Seq<ProofNode>, y: Seq<ProofNode>, level: usize)
    ensures
        merge_level(cur, x + y, level) == merge_level(merge_level(cur, x, level), y, level),
    decreases x.len(),
{
    if x.len() == 0 {
        assert(x + y =~= y);
    } else {
        assert((x + y).drop_first() =~= x.drop_first() + y);
        assert((x + y)[0] == x[0]);
        let c2 = if x[0].level == level { ins(cur, (x[0].index, x[0].hash)) } else { cur };
        lemma_merge_append(c2, x.drop_first(), y, level);
    }
}

/// Inserting an entry above every index appends it.
proof fn lemma_ins_above(cur: Seq<(usize, [u8; 32])>, e: (usize, [u8; 32]))
    requires
        forall|i: int| 0 <= i < cur.len() ==> (#[trigger] cur[i]).0 < e.0,
    ensures
        ins(cur, e) == cur.push(e),
    decreases cur.len(),
{
    if cur.len() > 0 {
        let rest = cur.drop_first();
        assert forall|i: int| 0 <= i < rest.len() implies (#[trigger] rest[i]).0 < e.0 by {
            assert(rest[i] == cur[i + 1]);
        }
        lemma_ins_above(rest, e);
        assert(seq![cur[0]] + rest.push(e) =~= cur.push(e));
    } else {
        assert(seq![e] =~= cur.push(e));
    }
}

/// Inserting an entry whose index is that of the last, in a sorted run,
/// changes nothing.
proof fn lemma_ins_last_present(cur: Seq<(usize, [u8; 32])>, e: (usize, [u8; 32]))
    requires
        cur.len() >= 1,
        strictly_sorted(cur),
        cur.last().0 == e.0,
    ensures
        ins(cur, e) == cur,
    decreases cur.len(),
{
    if cur.len() > 1 {
        assert(cur[0].0 < cur[cur.len() - 1].0);
        let rest = cur.drop_first();
        assert(rest.last() == cur.last());
        lemma_ins_last_present(rest, e);
        assert(seq![cur[0]] + rest =~= cur);
    }
}

/// Pairing up a run [a..=b] of a level that starts at a left child and
/// ends at a right child or the last node gives the run [a/2..=b/2] of the
/// level above.
proof fn lemma_pair_up_range(row: Seq<[u8; 32]>, suite: HashSuite, a: nat, b: nat)
    requires
        a <= b < row.len(),
        row.len() <= usize::MAX,
        a % 2 == 0,
        b % 2 == 1 || b + 1 == row.len(),
    ensures
        pair_up(range_of(row, a, b), row.len(), suite) == Some(range_of(crate::merkle::spec_next_level(row, suite), a / 2, b / 2)),
    decreases b - a,
{
    let n = row.len();
    let cur = range_of(row, a, b);
    let up = crate::merkle::spec_next_level(row, suite);
    let target = range_of(up, a / 2, b / 2);
    assert(cur[0] == ((a as usize), row[a as int]));
    assert((a as usize) as nat == a);
    assert(cur.len() >= 1);
    if b >= a + 1 {
        assert(cur[1] == (((a + 1) as usize), row[a + 1int]));
        assert(cur.len() >= 2 && cur[1].0 == cur[0].0 + 1);
        let head = ((a / 2) as usize, spec_node(row[a as int], row[a + 1int], suite));
        assert(up[(a / 2) as int] == spec_node(row[a as int], row[a + 1int], suite));
        let tail = if b >= a + 2 { range_of(row, a + 2, b) } else { Seq::empty() };
        assert(cur.skip(2) =~= tail);
        if b >= a + 2 {
            lemma_pair_up_range(row, suite, a + 2, b);
            assert(seq![head] + range_of(up, (a + 2) / 2, b / 2) =~= target);
            assert(pair_up(tail, n, suite) == Some(range_of(up, (a + 2) / 2, b / 2)));
        } else {
            assert(seq![head] + Seq::<(usize, [u8; 32])>::empty() =~= target);
            assert(pair_up(tail, n, suite) == Some(Seq::<(usize, [u8; 32])>::empty()));
        }
        assert(pair_up(cur, n, suite) == match pair_up(cur.skip(2), n, suite) {
            Some(r) => Some(seq![head] + r),
            None => None,
        });
    } else {
        let head = ((a / 2) as usize, spec_node(row[a as int], row[a as int], suite));
        assert(up[(a / 2) as int] == spec_node(row[a as int], row[a as int], suite));
        assert(cur.drop_first() =~= Seq::<(usize, [u8; 32])>::empty());
        assert(seq![head] + Seq::<(usize, [u8; 32])>::empty() =~= target);
        assert(!(cur.len() >= 2));
        assert(cur[0].0 + 1 >= n);
        assert(pair_up(cur, n, suite) == match pair_up(cur.drop_first(), n, suite) {
            Some(r) => Some(seq![head] + r),
            None => None,
        });
    }
}

/// Every node of the range siblings from `level` on is of that level or
/// above it.
proof fn lemma_range_nodes_levels(lv: Seq<Seq<[u8; 32]>>, level: nat, rs: nat, re: nat)
    requires
        lv.len() <= usize::MAX,
    ensures
        forall|i: int| 0 <= i < spec_range_nodes(lv, level, rs, re).len() ==>
            level <= (#[trigger] spec_range_nodes(lv, level, rs, re)[i]).level,
    decreases lv.len() - level,
{
    if level + 1 < lv.len() {
        let row = lv[level as int];
        lemma_range_nodes_levels(lv, level + 1, rs / 2, re / 2);
        let x = range_left(row, level, rs) + range_right(row, level, re);
        let rest = spec_range_nodes(lv, level + 1, rs / 2, re / 2);
        assert(spec_range_nodes(lv, level, rs, re) == x + rest);
        assert forall|i: int| 0 <= i < (x + rest).len() implies level <= (#[trigger] (x + rest)[i]).level by {
            if i >= x.len() {
                assert((x + rest)[i] == rest[i - x.len()]);
            }
        }
    }
}

/// Merging the siblings of level `l` (after lower-level ones, before
/// higher-level ones) into the run [rs..=re] widens it to start at a left
/// child and end at a right child or the last node.
proof fn lemma_merge_range(lv: Seq<Seq<[u8; 32]>>, l: nat, rs: nat, re: nat, prior: Seq<ProofNode>)
    requires
        lv.len() <= usize::MAX,
        l + 1 < lv.len(),
        rs <= re < lv[l as int].len(),
        lv[l as int].len() <= usize::MAX,
        forall|i: int| 0 <= i < prior.len() ==> (#[trigger] prior[i]).level < l,
    ensures
        merge_level(range_of(lv[l as int], rs, re), prior + spec_range_nodes(lv, l, rs, re), l as usize)
            == range_of(lv[l as int], (if rs % 2 == 1 { rs - 1 } else { rs as int }) as nat,
                (if re % 2 == 0 && re + 1 < lv[l as int].len() { re + 1 } else { re }) as nat),
{
    let row = lv[l as int];
    let cur = range_of(row, rs, re);
    let left = range_left(row, l, rs);
    let right = range_right(row, l, re);
    let rest = spec_range_nodes(lv, l + 1, rs / 2, re / 2);
    assert(spec_range_nodes(lv, l, rs, re) == left + right + rest);
    assert(prior + spec_range_nodes(lv, l, rs, re) =~= prior + (left + (right + rest)));
    lemma_merge_append(cur, prior, left + (right + rest), l as usize);
    lemma_merge_other_levels(cur, prior, l as usize);
    lemma_merge_append(cur, left, right + rest, l as usize);
    let a: nat = if rs % 2 == 1 { (rs - 1) as nat } else { rs };
    let c1 = merge_level(cur, left, l as usize);
    if rs % 2 == 1 {
        let e = (left[0].index, left[0].hash);
        assert(left.drop_first() =~= Seq::<ProofNode>::empty());
        assert(c1 == ins(cur, e)) by { reveal_with_fuel(merge_level, 2); }
        assert(cur[0].0 == rs);
        assert(ins(cur, e) == seq![e] + cur);
        assert(c1 =~= range_of(row, a, re));
    } else {
        assert(c1 =~= range_of(row, a, re));
    }
    lemma_merge_append(c1, right, rest, l as usize);
    let b: nat = if re % 2 == 0 && re + 1 < row.len() { re + 1 } else { re };
    let c2 = merge_level(c1, right, l as usize);
    let r1 = range_of(row, a, re);
    if re % 2 == 0 {
        assert(right.drop_first() =~= Seq::<ProofNode>::empty());
        if re + 1 < row.len() {
            let e = (right[0].index, right[0].hash);
            assert(c2 == ins(r1, e)) by { reveal_with_fuel(merge_level, 2); }
            lemma_ins_above(r1, e);
            assert(r1.push(e) =~= range_of(row, a, b));
        } else {
            let e = (right[0].index, right[0].hash);
            assert(c2 == ins(r1, e)) by { reveal_with_fuel(merge_level, 2); }
            assert(r1.last() == e);
            lemma_ins_last_present(r1, e);
        }
    } else {
        assert(c2 == r1);
    }
    assert(c2 == range_of(row, a, b));
    lemma_range_nodes_levels(lv, l + 1, rs / 2, re / 2);
    assert forall|i: int| 0 <= i < rest.len() implies (#[trigger] rest[i]).level != (l as usize) by {
        assert(l + 1 <= rest[i].level);
    }
    lemma_merge_other_levels(c2, rest, l as usize);
}

/// From any level, the walk over a run of that level, with the range
/// siblings of that level on (after any of lower levels), reaches the root.
#[verifier::rlimit(40)]
proof fn lemma_walk_range(leaves: Seq<[u8; 32]>, suite: HashSuite, l: nat, rs: nat, re: nat, prior: Seq<ProofNode>)
    requires
        leaves.len() >= 1,
        spec_levels(leaves, suite).len() <= usize::MAX,
        l < spec_levels(leaves, suite).len(),
        rs <= re < spec_levels(leaves, suite)[l as int].len(),
        spec_levels(leaves, suite)[l as int].len() <= usize::MAX,
        forall|i: int| 0 <= i < prior.len() ==> (#[trigger] prior[i]).level < l,
    ensures
        walk(range_of(spec_levels(leaves, suite)[l as int], rs, re), l as usize, spec_levels(leaves, suite)[l as int].len(),
            prior + spec_range_nodes(spec_levels(leaves, suite), l, rs, re), crate::merkle::spec_root(leaves, suite), suite),
    decreases spec_levels(leaves, suite).len() - l,
{
    let lv = spec_levels(leaves, suite);
    let row = lv[l as int];
    let cur = range_of(row, rs, re);
    let pns = prior + spec_range_nodes(lv, l, rs, re);
    let root = crate::merkle::spec_root(leaves, suite);
    assert(row.len() >= 1 && (l + 1 == lv.len() ==> row.len() == 1) && (l + 1 < lv.len() ==> row.len() >= 2
        && lv[l + 1int] == crate::merkle::spec_next_level(row, suite))) by {
        crate::merkle::lemma_levels_shape(leaves, suite);
    }
    if l + 1 >= lv.len() {
        assert(!walk_continues(cur, row.len()));
        assert(root == lv.last()[0]);
    } else {
        assert(walk_continues(cur, row.len()));
        let a: nat = (if rs % 2 == 1 { rs - 1 } else { rs as int }) as nat;
        let b: nat = (if re % 2 == 0 && re + 1 < row.len() { re + 1 } else { re }) as nat;
        lemma_merge_range(lv, l, rs, re, prior);
        lemma_pair_up_range(row, suite, a, b);
        let up = lv[l + 1int];
        assert(a / 2 == rs / 2 && b / 2 == re / 2);
        let next = range_of(up, rs / 2, re / 2);
        assert(pair_up(merge_level(cur, pns, l as usize), row.len(), suite) == Some(next));
        assert(next.len() > 0);
        let left = range_left(row, l, rs);
        let right = range_right(row, l, re);
        let rest = spec_range_nodes(lv, l + 1, rs / 2, re / 2);
        assert(spec_range_nodes(lv, l, rs, re) == left + right + rest);
        let prior2 = prior + (left + right);
        assert forall|i: int| 0 <= i < prior2.len() implies (#[trigger] prior2[i]).level < l + 1 by {
            if i >= prior.len() {
                assert(prior2[i] == (left + right)[i - prior.len()]);
            }
        }
        assert(pns =~= prior2 + rest);
        assert(up.len() == (row.len() + 1) / 2);
        lemma_walk_range(leaves, suite, l + 1, rs / 2, re / 2, prior2);
        assert(walk(cur, l as usize, row.len(), pns, root, suite) == walk(next, (l + 1) as usize, (row.len() + 1) / 2, pns, root, suite));
    }
}

/// The range siblings from `level` on number at most two per level below
/// the top; each is of a level of the tree and at a position of that level,
/// so below the length of the row at `level`.
proof fn lemma_range_nodes_bounds(lv: Seq<Seq<[u8; 32]>>, level: nat, rs: nat, re: nat)
    requires
        lv.len() <= usize::MAX,
        level < lv.len(),
        rs <= re < lv[level as int].len(),
        lv[level as int].len() <= usize::MAX,
        forall|l: int| 0 <= l < lv.len() - 1 ==> (#[trigger] lv[l + 1]).len() == (lv[l].len() + 1) / 2,
    ensures
        spec_range_nodes(lv, level, rs, re).len() <= 2 * (lv.len() - 1 - level),
        forall|i: int| 0 <= i < spec_range_nodes(lv, level, rs, re).len() ==> {
            &&& (#[trigger] spec_range_nodes(lv, level, rs, re)[i]).level < lv.len()
            &&& spec_range_nodes(lv, level, rs, re)[i].index < lv[level as int].len()
        },
    decreases lv.len() - level,
{
    if level + 1 < lv.len() {
        let row = lv[level as int];
        let up = lv[level + 1int];
        assert(up.len() == (row.len() + 1) / 2);
        lemma_range_nodes_bounds(lv, level + 1, rs / 2, re / 2);
        let x = range_left(row, level, rs) + range_right(row, level, re);
        let rest = spec_range_nodes(lv, level + 1, rs / 2, re / 2);
        assert(spec_range_nodes(lv, level, rs, re) == x + rest);
        assert forall|i: int| 0 <= i < (x + rest).len() implies {
            &&& (#[trigger] (x + rest)[i]).level < lv.len()
            &&& (x + rest)[i].index < row.len()
        } by {
            if i >= x.len() {
                assert((x + rest)[i] == rest[i - x.len()]);
            }
        }
    }
}

/// Range proofs are logarithmic in the leaf count: a proof for a run of
/// leaves of a tree has at most two siblings per level below the root
/// (twice the ceiling of log2 of the leaf count), each of a level below
/// the tree's height and at a position below the leaf count.
pub proof fn lemma_range_proof_size(t: &MerkleTree, suite: HashSuite, start: usize, end: usize)
    requires
        t.wf(suite),
        start <= end < t.leaf_count,
    ensures
        spec_range_nodes(t.levels(), 0, start as nat, end as nat).len() <= 2 * halvings(t.leaf_count as nat),
        forall|i: int| 0 <= i < spec_range_nodes(t.levels(), 0, start as nat, end as nat).len() ==> {
            &&& (#[trigger] spec_range_nodes(t.levels(), 0, start as nat, end as nat)[i]).level <= halvings(t.leaf_count as nat)
            &&& spec_range_nodes(t.levels(), 0, start as nat, end as nat)[i].index < t.leaf_count
        },
{
    let leaves = t.leaf_hashes();
    let lv = t.levels();
    assert(lv == spec_levels(leaves, suite));
    assert(lv.len() == t.nodes@.len());
    assert(t.nodes@.len() == t.nodes.len());
    crate::merkle::lemma_levels_shape(leaves, suite);
    crate::merkle::lemma_levels_count(leaves, suite);
    assert forall|l: int| 0 <= l < lv.len() - 1 implies (#[trigger] lv[l + 1]).len() == (lv[l].len() + 1) / 2 by {
        assert(lv[l + 1] == crate::merkle::spec_next_level(lv[l], suite));
    }
    lemma_range_nodes_bounds(lv, 0, start as nat, end as nat);
}

/// A range proof made by a tree, for a run of its leaves, verifies against
/// the tree's root with the hashes of those leaves.
pub proof fn lemma_prove_range_then_verify(t: &MerkleTree, suite: HashSuite, start: usize, end: usize)
    requires
        t.wf(suite),
        start <= end < t.leaf_count,
    ensures
        walk(indexed_leaves(start, t.leaf_hashes().subrange(start as int, end + 1)), 0, t.leaf_count as nat,
            spec_range_nodes(t.levels(), 0, start as nat, end as nat), t.root, suite),
{
    let leaves = t.leaf_hashes();
    assert(t.levels() == spec_levels(leaves, suite));
    assert(t.levels().len() == t.nodes@.len());
    assert(t.nodes@.len() == t.nodes.len());
    assert(spec_levels(leaves, suite)[0] == leaves) by {
        crate::merkle::lemma_levels_shape(leaves, suite);
    }
    assert(indexed_leaves(start, leaves.subrange(start as int, end + 1)) =~= range_of(leaves, start as nat, end as nat));
    assert(Seq::<ProofNode>::empty() + spec_range_nodes(t.levels(), 0, start as nat, end as nat)
        =~= spec_range_nodes(t.levels(), 0, start as nat, end as nat));
    lemma_walk_range(leaves, suite, 0, start as nat, end as nat, Seq::empty());
}

/// A range proof made for a tree still verifies once encoded and decoded
/// again: the decoded proof walks the proved leaves up to the tree's root
/// (for trees whose leaf count the 32-bit wire fields can carry).
pub proof fn lemma_range_proof_survives_encoding(t: &MerkleTree, suite: HashSuite, p: RangeProof)
    requires
        t.wf(suite),
        p.start <= p.end < t.leaf_count,
        p.leaf_count == t.leaf_count,
        p.proof_nodes@ == spec_range_nodes(t.levels(), 0, p.start as nat, p.end as nat),
        t.leaf_count < 0x1_0000_0000,
    ensures
        ({
            let b = spec_range_proof_bytes(p);
            let (s, e, n, nodes) = spec_decode_range_proof(b);
            &&& range_proof_ok(b)
            &&& (s, e, n) == (p.start, p.end, p.leaf_count)
            &&& walk(indexed_leaves(s, t.leaf_hashes().subrange(s as int, e + 1)), 0, n as nat, nodes, t.root, suite)
        }),
{
    lemma_range_proof_size(t, suite, p.start, p.end);
    crate::merkle::lemma_halvings_32(t.leaf_count as nat);
    lemma_range_proof_roundtrip(p);
    lemma_prove_range_then_verify(t, suite, p.start, p.end);
}

} // verus!
