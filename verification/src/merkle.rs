//! Family B: a binary Merkle tree over block payloads, with single-leaf and
//! range proofs for selective disclosure.
use crate::bytes::append_bytes;
use crate::hash::{digest, HashSuite};
use crate::tags::{tag_leaf, tag_leaf_bytes, tag_node, tag_node_bytes};
use vstd::bytes::{lemma_auto_spec_u64_to_from_le_bytes, spec_u64_from_le_bytes, spec_u64_to_le_bytes, u64_to_le_bytes};
use vstd::prelude::*;

pub use crate::range::{ProofNode, RangeProof, Side};

verus! {

/// leaf_i = H("CBC-v1-leaf" || params_hash || i_le64 || payload_i)
pub open spec fn spec_leaf(params_hash: Seq<u8>, index: u64, padded_payload: Seq<u8>, suite: HashSuite) -> [u8; 32] {
    digest(suite, tag_leaf() + params_hash + spec_u64_to_le_bytes(index) + padded_payload)
}

/// A leaf is the hash of exactly these bytes, in this order: the leaf tag,
/// the params hash, the leaf index as 8 little-endian bytes and the padded
/// payload.
pub proof fn lemma_leaf_input(params_hash: Seq<u8>, index: u64, padded_payload: Seq<u8>, suite: HashSuite)
    ensures
        spec_leaf(params_hash, index, padded_payload, suite)
            == digest(suite, tag_leaf() + params_hash + spec_u64_to_le_bytes(index) + padded_payload),
        spec_u64_to_le_bytes(index).len() == 8,
        spec_u64_from_le_bytes(spec_u64_to_le_bytes(index)) == index,
{
    lemma_auto_spec_u64_to_from_le_bytes();
}

/// Leaves bind their position: over one params hash and payload, leaves at
/// two different indices are hashed from two different inputs, each of
/// which holds its index right after the tag and the params hash.
pub proof fn lemma_leaf_binds_index(params_hash: Seq<u8>, i: u64, j: u64, padded_payload: Seq<u8>, suite: HashSuite)
    requires
        i != j,
    ensures
        ({
            let ii = tag_leaf() + params_hash + spec_u64_to_le_bytes(i) + padded_payload;
            let ij = tag_leaf() + params_hash + spec_u64_to_le_bytes(j) + padded_payload;
            let at: int = (tag_leaf().len() + params_hash.len()) as int;
            &&& spec_leaf(params_hash, i, padded_payload, suite) == digest(suite, ii)
            &&& spec_leaf(params_hash, j, padded_payload, suite) == digest(suite, ij)
            &&& spec_u64_from_le_bytes(ii.subrange(at, at + 8)) == i
            &&& spec_u64_from_le_bytes(ij.subrange(at, at + 8)) == j
            &&& ii != ij
        }),
{
    lemma_auto_spec_u64_to_from_le_bytes();
    let x = tag_leaf() + params_hash;
    let bi = spec_u64_to_le_bytes(i);
    let bj = spec_u64_to_le_bytes(j);
    let ii = x + bi + padded_payload;
    let ij = x + bj + padded_payload;
    assert(tag_leaf() + params_hash + bi + padded_payload == ii);
    assert(tag_leaf() + params_hash + bj + padded_payload == ij);
    assert(ii.subrange(x.len() as int, x.len() as int + 8) =~= bi);
    assert(ij.subrange(x.len() as int, x.len() as int + 8) =~= bj);
}

/// node = H("CBC-v1-node" || left || right)
pub open spec fn spec_node(left: [u8; 32], right: [u8; 32], suite: HashSuite) -> [u8; 32] {
    digest(suite, tag_node() + left@ + right@)
}

/// An internal node is the hash of exactly the node tag, the left child
/// and the right child, in this order.
pub proof fn lemma_node_input(left: [u8; 32], right: [u8; 32], suite: HashSuite)
    ensures
        spec_node(left, right, suite) == digest(suite, tag_node() + left@ + right@),
{
}

/// Internal nodes bind the order of their children: for two different
/// children, the node over (left, right) and the node over (right, left)
/// are hashed from two different inputs, each holding its left child right
/// after the tag.
pub proof fn lemma_node_binds_order(left: [u8; 32], right: [u8; 32], suite: HashSuite)
    requires
        left != right,
    ensures
        ({
            let i1 = tag_node() + left@ + right@;
            let i2 = tag_node() + right@ + left@;
            let at: int = tag_node().len() as int;
            &&& spec_node(left, right, suite) == digest(suite, i1)
            &&& spec_node(right, left, suite) == digest(suite, i2)
            &&& i1.subrange(at, at + 32) == left@
            &&& i2.subrange(at, at + 32) == right@
            &&& i1 != i2
        }),
{
    let t = tag_node();
    assert((t + left@ + right@).subrange(t.len() as int, t.len() as int + 32) =~= left@);
    assert((t + right@ + left@).subrange(t.len() as int, t.len() as int + 32) =~= right@);
    if left@ == right@ {
        crate::bootstrap::lemma_seq_to_array(left);
        crate::bootstrap::lemma_seq_to_array(right);
    }
}

/// The level above `level`: each pair hashed together, a last odd node
/// hashed with itself.
pub open spec fn spec_next_level(level: Seq<[u8; 32]>, suite: HashSuite) -> Seq<[u8; 32]> {
    Seq::new(((level.len() + 1) / 2) as nat, |j: int|
        spec_node(level[2 * j], if 2 * j + 1 < level.len() { level[2 * j + 1] } else { level[2 * j] }, suite))
}

/// All levels of the tree over `leaves`, leaves first, up to the level of
/// one node.
pub open spec fn spec_levels(leaves: Seq<[u8; 32]>, suite: HashSuite) -> Seq<Seq<[u8; 32]>>
    decreases leaves.len(),
{
    if leaves.len() <= 1 {
        seq![leaves]
    } else {
        seq![leaves] + spec_levels(spec_next_level(leaves, suite), suite)
    }
}

/// The root of the tree over `leaves` (all zero for no leaves).
pub open spec fn spec_root(leaves: Seq<[u8; 32]>, suite: HashSuite) -> [u8; 32] {
    if leaves.len() == 0 {
        zero_hash()
    } else {
        spec_levels(leaves, suite).last()[0]
    }
}

/// The 32-byte all-zero hash.
pub open spec fn zero_hash() -> [u8; 32] {
    seq_to_array_32(crate::bytes::zeros(32))
}

/// The 32-byte array with the given bytes.
pub open spec fn seq_to_array_32(s: Seq<u8>) -> [u8; 32] {
    crate::bootstrap::seq_to_array::<32>(s)
}

/// The leaves of the tree over padded payloads: leaf i hashes payload i.
pub open spec fn spec_leaves(params_hash: Seq<u8>, padded_payloads: Seq<Seq<u8>>, suite: HashSuite) -> Seq<[u8; 32]> {
    Seq::new(padded_payloads.len(), |i: int| spec_leaf(params_hash, i as u64, padded_payloads[i], suite))
}

proof fn lemma_next_level_shorter(level: Seq<[u8; 32]>, suite: HashSuite)
    requires
        level.len() >= 2,
    ensures
        1 <= spec_next_level(level, suite).len() < level.len(),
{
}

/// Every level is nonempty, and the last has one node.
pub proof fn lemma_levels_shape(leaves: Seq<[u8; 32]>, suite: HashSuite)
    requires
        leaves.len() >= 1,
    ensures
        spec_levels(leaves, suite).len() >= 1,
        spec_levels(leaves, suite)[0] == leaves,
        spec_levels(leaves, suite).last().len() == 1,
        forall|l: int| 0 <= l < spec_levels(leaves, suite).len() ==> #[trigger] spec_levels(leaves, suite)[l].len() >= 1,
        forall|l: int| 0 <= l < spec_levels(leaves, suite).len() - 1 ==>
            spec_levels(leaves, suite)[l + 1] == spec_next_level(#[trigger] spec_levels(leaves, suite)[l], suite),
        forall|l: int| 0 <= l < spec_levels(leaves, suite).len() - 1 ==> #[trigger] spec_levels(leaves, suite)[l].len() >= 2,
    decreases leaves.len(),
{
    if leaves.len() > 1 {
        let next = spec_next_level(leaves, suite);
        lemma_next_level_shorter(leaves, suite);
        lemma_levels_shape(next, suite);
        let lv = spec_levels(leaves, suite);
        let rest = spec_levels(next, suite);
        assert(lv == seq![leaves] + rest);
        assert forall|l: int| 0 <= l < lv.len() implies #[trigger] lv[l].len() >= 1 by {
            if l > 0 {
                assert(lv[l] == rest[l - 1]);
            }
        }
        assert forall|l: int| 0 <= l < lv.len() - 1 implies lv[l + 1] == spec_next_level(#[trigger] lv[l], suite) by {
            if l > 0 {
                assert(lv[l] == rest[l - 1]);
                assert(lv[l + 1] == rest[l]);
            }
        }
        assert forall|l: int| 0 <= l < lv.len() - 1 implies #[trigger] lv[l].len() >= 2 by {
            if l > 0 {
                assert(lv[l] == rest[l - 1]);
            }
        }
    }
}

/// Compute a Merkle leaf hash.
pub fn compute_leaf(params_hash: &[u8; 32], index: u64, padded_payload: &[u8], suite: HashSuite) -> (r: [u8; 32])
    ensures
        r == spec_leaf(params_hash@, index, padded_payload@, suite),
        r == digest(suite, tag_leaf() + params_hash@ + spec_u64_to_le_bytes(index) + padded_payload@),
{
    let mut buf = tag_leaf_bytes();
    append_bytes(&mut buf, params_hash.as_slice());
    let index_bytes = u64_to_le_bytes(index);
    append_bytes(&mut buf, index_bytes.as_slice());
    append_bytes(&mut buf, padded_payload);
    suite.hash_bytes(buf.as_slice())
}

/// Compute a Merkle internal node.
pub fn compute_node(left: &[u8; 32], right: &[u8; 32], suite: HashSuite) -> (r: [u8; 32])
    ensures
        r == spec_node(*left, *right, suite),
        r == digest(suite, tag_node() + left@ + right@),
{
    let mut buf = tag_node_bytes();
    append_bytes(&mut buf, left.as_slice());
    append_bytes(&mut buf, right.as_slice());
    suite.hash_bytes(buf.as_slice())
}

/// Level `l` has at least two nodes, and the level above it half as many
/// (rounding up).
pub open spec fn level_link(lv: Seq<Seq<[u8; 32]>>, l: int) -> bool {
    lv[l].len() >= 2 && lv[l + 1].len() == (lv[l].len() + 1) / 2
}

/// The views of a list of levels.
pub open spec fn levels_view(nodes: Seq<Vec<[u8; 32]>>) -> Seq<Seq<[u8; 32]>> {
    Seq::new(nodes.len(), |i: int| nodes[i]@)
}

/// A binary Merkle tree built from block payloads.
#[derive(Debug, Clone)]
pub struct MerkleTree {
    /// All nodes in the tree, stored level by level: leaves first, root last.
    pub nodes: Vec<Vec<[u8; 32]>>,
    /// The root hash.
    pub root: [u8; 32],
    /// Number of leaves.
    pub leaf_count: usize,
}

/// A Merkle proof for one leaf.
#[derive(Debug, Clone)]
pub struct MerkleProof {
    /// The sibling hashes needed to reconstruct the root, as (level, hash).
    pub siblings: Vec<(usize, [u8; 32])>,
    /// The leaf index this proof is for.
    pub leaf_index: usize,
}

impl MerkleTree {
    /// The levels of the tree, leaves first.
    pub open spec fn levels(&self) -> Seq<Seq<[u8; 32]>> {
        levels_view(self.nodes@)
    }

    /// The leaves of the tree.
    pub open spec fn leaf_hashes(&self) -> Seq<[u8; 32]> {
        if self.levels().len() == 0 { Seq::empty() } else { self.levels()[0] }
    }

    /// The tree holds the levels over its leaves, and the root and count
    /// that belong to them.
    pub open spec fn wf(&self, suite: HashSuite) -> bool {
        &&& self.leaf_count == self.leaf_hashes().len()
        &&& self.root == spec_root(self.leaf_hashes(), suite)
        &&& (self.leaf_hashes().len() > 0 ==> self.levels() == spec_levels(self.leaf_hashes(), suite))
        &&& (self.leaf_hashes().len() == 0 ==> self.levels().len() == 0)
    }

    /// The levels have the sizes a tree over its leaves has: each level
    /// halves the one below (rounding up), the last holds one node, and an
    /// empty tree has no levels.
    pub open spec fn shape_ok(&self) -> bool {
        let lv = self.levels();
        &&& self.leaf_count == self.leaf_hashes().len()
        &&& (self.leaf_count == 0 <==> lv.len() == 0)
        &&& (lv.len() > 0 ==> lv.last().len() == 1)
        &&& forall|l: int| 0 <= l < lv.len() - 1 ==> #[trigger] level_link(lv, l)
    }

    /// Build a Merkle tree from padded payloads.
    pub fn build(params_hash: &[u8; 32], padded_payloads: &[Vec<u8>], suite: HashSuite) -> (t: Self)
        ensures
            t.leaf_hashes() == spec_leaves(params_hash@, crate::footer::vec_views(padded_payloads@), suite),
            t.leaf_count == padded_payloads@.len(),
            t.root == spec_root(t.leaf_hashes(), suite),
            t.wf(suite),
            t.shape_ok(),
    {
        let ghost pv = crate::footer::vec_views(padded_payloads@);
        let mut leaves: Vec<[u8; 32]> = Vec::new();
        let mut i: usize = 0;
        while i < padded_payloads.len()
            invariant
                i <= padded_payloads@.len(),
                pv == crate::footer::vec_views(padded_payloads@),
                leaves@ == spec_leaves(params_hash@, pv, suite).take(i as int),
            decreases padded_payloads@.len() - i,
        {
            let leaf = compute_leaf(params_hash, i as u64, padded_payloads[i].as_slice(), suite);
            leaves.push(leaf);
            i = i + 1;
            proof {
                assert(leaves@ =~= spec_leaves(params_hash@, pv, suite).take(i as int));
            }
        }
        proof { assert(leaves@ =~= spec_leaves(params_hash@, pv, suite)); }
        Self::build_from_leaves(leaves.as_slice(), suite)
    }

    /// Build a Merkle tree from pre-computed leaf hashes.
    pub fn build_from_leaves(leaves: &[[u8; 32]], suite: HashSuite) -> (t: Self)
        ensures
            t.leaf_hashes() == leaves@,
            t.leaf_count == leaves@.len(),
            t.root == spec_root(leaves@, suite),
            t.wf(suite),
            t.shape_ok(),
    {
        broadcast use vstd::array::group_array_axioms;
        let leaf_count = leaves.len();
        if leaf_count == 0 {
            let t = MerkleTree { nodes: Vec::new(), root: [0u8; 32], leaf_count: 0 };
            proof {
                assert(t.root =~= zero_hash()) by {
                    crate::bootstrap::lemma_seq_to_array(t.root);
                    assert(t.root@ =~= crate::bytes::zeros(32));
                }
                assert(t.levels() =~= Seq::<Seq<[u8; 32]>>::empty());
                lemma_wf_shape(&t, suite);
            }
            return t;
        }
        let mut first: Vec<[u8; 32]> = Vec::new();
        let mut k: usize = 0;
        while k < leaves.len()
            invariant
                k <= leaves@.len(),
                first@ == leaves@.take(k as int),
            decreases leaves@.len() - k,
        {
            first.push(leaves[k]);
            k = k + 1;
            proof { assert(first@ =~= leaves@.take(k as int)); }
        }
        proof { assert(first@ =~= leaves@); }
        let mut levels: Vec<Vec<[u8; 32]>> = Vec::new();
        levels.push(first);
        let mut last_len: usize = leaf_count;
        proof {
            assert(levels_view(levels@).drop_last() + spec_levels(leaves@, suite) =~= spec_levels(leaves@, suite));
        }
        while last_len > 1
            invariant
                levels@.len() >= 1,
                last_len == levels@.last()@.len(),
                last_len >= 1,
                levels_view(levels@)[0] == leaves@,
                spec_levels(leaves@, suite) == levels_view(levels@).drop_last() + spec_levels(levels@.last()@, suite),
            decreases last_len,
        {
            let ghost lv0 = levels_view(levels@);
            let current = &levels[levels.len() - 1];
            let mut next_level: Vec<[u8; 32]> = Vec::new();
            let pairs = current.len() / 2 + current.len() % 2;
            let mut j: usize = 0;
            while j < pairs
                invariant
                    current@.len() == last_len,
                    last_len >= 2,
                    pairs == (last_len + 1) / 2,
                    j <= pairs,
                    next_level@ == spec_next_level(current@, suite).take(j as int),
                decreases pairs - j,
            {
                let i = 2 * j;
                if i + 1 < current.len() {
                    next_level.push(compute_node(&current[i], &current[i + 1], suite));
                } else {
                    next_level.push(compute_node(&current[i], &current[i], suite));
                }
                j = j + 1;
                proof {
                    assert(next_level@ =~= spec_next_level(current@, suite).take(j as int));
                }
            }
            proof {
                assert(next_level@ =~= spec_next_level(current@, suite));
                lemma_next_level_shorter(current@, suite);
            }
            let ghost cur = current@;
            let new_len = next_level.len();
            levels.push(next_level);
            proof {
                let lv = levels_view(levels@);
                assert(lv.drop_last() =~= lv0);
                assert(lv0 =~= lv0.drop_last().push(cur));
                assert(spec_levels(cur, suite) == seq![cur] + spec_levels(spec_next_level(cur, suite), suite));
                assert(lv.drop_last() + spec_levels(levels@.last()@, suite)
                    =~= lv0.drop_last() + spec_levels(cur, suite));
                assert(lv[0] == lv0[0]);
            }
            last_len = new_len;
        }
        let root = levels[levels.len() - 1][0];
        let t = MerkleTree { nodes: levels, root, leaf_count };
        proof {
            let lv = levels_view(t.nodes@);
            assert(spec_levels(t.nodes@.last()@, suite) == seq![t.nodes@.last()@]);
            assert(lv =~= lv.drop_last() + seq![t.nodes@.last()@]);
            assert(lv == spec_levels(leaves@, suite));
            lemma_wf_shape(&t, suite);
        }
        t
    }
}


/// A well-formed tree has the shape of a tree over its leaves.
pub proof fn lemma_wf_shape(t: &MerkleTree, suite: HashSuite)
    requires
        t.wf(suite),
    ensures
        t.shape_ok(),
{
    if t.leaf_hashes().len() > 0 {
        lemma_levels_shape(t.leaf_hashes(), suite);
    }
}

/// The sibling of node `idx` in `row`, or the node itself where it has
/// none (an odd last node is paired with itself).
pub open spec fn sibling_of(row: Seq<[u8; 32]>, idx: int) -> [u8; 32] {
    let s = if idx % 2 == 0 { idx + 1 } else { idx - 1 };
    if s < row.len() { row[s] } else { row[idx] }
}

/// The (level, sibling) pairs on the path from node `idx` of level
/// `level` up to the root.
pub open spec fn spec_path(lv: Seq<Seq<[u8; 32]>>, level: nat, idx: nat) -> Seq<(usize, [u8; 32])>
    decreases lv.len() - level,
{
    if level + 1 >= lv.len() {
        Seq::empty()
    } else {
        seq![(level as usize, sibling_of(lv[level as int], idx as int))] + spec_path(lv, level + 1, idx / 2)
    }
}

/// The hash reached by folding the siblings into `cur`, starting at
/// position `idx`: a node at an even position is the left child.
pub open spec fn spec_fold(siblings: Seq<(usize, [u8; 32])>, idx: nat, cur: [u8; 32], suite: HashSuite) -> [u8; 32]
    decreases siblings.len(),
{
    if siblings.len() == 0 {
        cur
    } else {
        let s = siblings[0].1;
        let next = if idx % 2 == 0 { spec_node(cur, s, suite) } else { spec_node(s, cur, suite) };
        spec_fold(siblings.drop_first(), idx / 2, next, suite)
    }
}

/// Folding the path from any node of the levels of a tree gives its root.
proof fn lemma_path_folds_to_root(leaves: Seq<[u8; 32]>, suite: HashSuite, level: nat, idx: nat)
    requires
        leaves.len() >= 1,
        level < spec_levels(leaves, suite).len(),
        idx < spec_levels(leaves, suite)[level as int].len(),
    ensures
        spec_fold(spec_path(spec_levels(leaves, suite), level, idx), idx, spec_levels(leaves, suite)[level as int][idx as int], suite)
            == spec_root(leaves, suite),
    decreases spec_levels(leaves, suite).len() - level,
{
    let lv = spec_levels(leaves, suite);
    let row = lv[level as int];
    assert((level + 1 == lv.len() ==> row.len() == 1) && (level + 1 < lv.len() ==> lv[level + 1int] == spec_next_level(row, suite)))
        by {
        lemma_levels_shape(leaves, suite);
    }
    if level + 1 >= lv.len() {
        assert(spec_path(lv, level, idx) =~= Seq::<(usize, [u8; 32])>::empty());
    } else {
        let j = idx / 2;
        let p = spec_path(lv, level, idx);
        assert(p.drop_first() =~= spec_path(lv, level + 1, j));
        let s = sibling_of(row, idx as int);
        if idx % 2 == 0 {
            assert(2 * j == idx);
        } else {
            assert(2 * j + 1 == idx);
        }
        let next = if idx % 2 == 0 { spec_node(row[idx as int], s, suite) } else { spec_node(s, row[idx as int], suite) };
        assert(next == lv[level + 1int][j as int]);
        lemma_path_folds_to_root(leaves, suite, level + 1, j);
    }
}

/// A proof made by a tree for one of its leaves verifies against the
/// tree's root with that leaf's hash.
pub proof fn lemma_prove_then_verify(t: &MerkleTree, suite: HashSuite, leaf_index: usize)
    requires
        t.wf(suite),
        leaf_index < t.leaf_count,
    ensures
        spec_fold(spec_path(t.levels(), 0, leaf_index as nat), leaf_index as nat, t.leaf_hashes()[leaf_index as int], suite) == t.root,
{
    lemma_levels_shape(t.leaf_hashes(), suite);
    lemma_path_folds_to_root(t.leaf_hashes(), suite, 0, leaf_index as nat);
}

/// How many times `n` is halved, rounding up, to reach one: the ceiling
/// of its base-2 logarithm.
pub open spec fn halvings(n: nat) -> nat
    decreases n,
{
    if n <= 1 {
        0
    } else {
        1 + halvings(((n + 1) / 2) as nat)
    }
}

/// Fewer items never take more halvings.
pub proof fn lemma_halvings_monotonic(a: nat, b: nat)
    requires
        a <= b,
    ensures
        halvings(a) <= halvings(b),
    decreases b,
{
    if a > 1 {
        lemma_halvings_monotonic(((a + 1) / 2) as nat, ((b + 1) / 2) as nat);
    }
}

/// At most 2^32 items take at most 32 halvings.
pub proof fn lemma_halvings_32(n: nat)
    requires
        n <= 0x1_0000_0000,
    ensures
        halvings(n) <= 32,
{
    lemma_halvings_monotonic(n, 0x1_0000_0000);
    assert(halvings(0x1_0000_0000) == 32) by {
        reveal_with_fuel(halvings, 34);
    }
}

/// A tree over `n` leaves has `halvings(n) + 1` levels.
pub proof fn lemma_levels_count(leaves: Seq<[u8; 32]>, suite: HashSuite)
    ensures
        spec_levels(leaves, suite).len() == halvings(leaves.len()) + 1,
    decreases leaves.len(),
{
    if leaves.len() > 1 {
        lemma_next_level_shorter(leaves, suite);
        lemma_levels_count(spec_next_level(leaves, suite), suite);
    }
}

/// A path from level `level` has one sibling per level below the top, each
/// tagged with its level.
proof fn lemma_path_shape(lv: Seq<Seq<[u8; 32]>>, level: nat, idx: nat)
    requires
        level < lv.len(),
        lv.len() <= usize::MAX,
    ensures
        spec_path(lv, level, idx).len() == lv.len() - 1 - level,
        forall|k: int| 0 <= k < spec_path(lv, level, idx).len() ==> (#[trigger] spec_path(lv, level, idx)[k]).0 == level + k,
    decreases lv.len() - level,
{
    if level + 1 < lv.len() {
        lemma_path_shape(lv, level + 1, idx / 2);
        let rest = spec_path(lv, level + 1, idx / 2);
        let p = spec_path(lv, level, idx);
        assert forall|k: int| 0 <= k < p.len() implies (#[trigger] p[k]).0 == level + k by {
            if k > 0 {
                assert(p[k] == rest[k - 1]);
            }
        }
    }
}

/// A single-leaf proof has one sibling per level below the root, the
/// `k`-th at level `k`: the ceiling of log2 of the leaf count of them.
pub proof fn lemma_proof_shape(t: &MerkleTree, suite: HashSuite, leaf_index: usize)
    requires
        t.wf(suite),
        leaf_index < t.leaf_count,
    ensures
        spec_path(t.levels(), 0, leaf_index as nat).len() == halvings(t.leaf_count as nat),
        forall|k: int| 0 <= k < spec_path(t.levels(), 0, leaf_index as nat).len() ==>
            (#[trigger] spec_path(t.levels(), 0, leaf_index as nat)[k]).0 == k,
{
    lemma_levels_count(t.leaf_hashes(), suite);
    assert(t.levels().len() == t.nodes@.len());
    assert(t.nodes@.len() == t.nodes.len());
    lemma_path_shape(t.levels(), 0, leaf_index as nat);
}

impl MerkleTree {
    /// Generate a proof for a single leaf: `None` exactly when the index is
    /// not that of a leaf.
    pub fn prove(&self, leaf_index: usize) -> (r: Option<MerkleProof>)
        requires
            self.shape_ok(),
        ensures
            leaf_index >= self.leaf_count ==> r is None,
            leaf_index < self.leaf_count ==> (r matches Some(p) && p.leaf_index == leaf_index
                && p.siblings@ == spec_path(self.levels(), 0, leaf_index as nat)),
    {
        if leaf_index >= self.leaf_count {
            return None;
        }
        let ghost lv = self.levels();
        let mut siblings: Vec<(usize, [u8; 32])> = Vec::new();
        let mut idx = leaf_index;
        let mut level: usize = 0;
        let top = self.nodes.len() - 1;
        proof { assert(siblings@ + spec_path(lv, 0, leaf_index as nat) =~= spec_path(lv, 0, leaf_index as nat)); }
        while level < top
            invariant
                lv == self.levels(),
                lv.len() == self.nodes@.len(),
                forall|l: int| 0 <= l < lv.len() - 1 ==> #[trigger] level_link(lv, l),
                top == lv.len() - 1,
                level <= top,
                idx < lv[level as int].len(),
                siblings@ + spec_path(lv, level as nat, idx as nat) == spec_path(lv, 0, leaf_index as nat),
            decreases top - level,
        {
            let row = &self.nodes[level];
            let ghost r = row@;
            proof {
                assert(lv[level as int] == r);
                assert(level_link(lv, level as int));
            }
            let sibling_idx = if idx % 2 == 0 { idx + 1 } else { idx - 1 };
            let sibling = if sibling_idx < row.len() { row[sibling_idx] } else { row[idx] };
            let ghost before = siblings@;
            siblings.push((level, sibling));
            proof {
                assert(sibling == sibling_of(r, idx as int));
                let p = spec_path(lv, level as nat, idx as nat);
                let rest = spec_path(lv, (level + 1) as nat, (idx / 2) as nat);
                assert(p == seq![(level, sibling_of(r, idx as int))] + rest);
                assert(siblings@ + rest =~= before + p);
            }
            idx = idx / 2;
            level = level + 1;
        }
        proof {
            assert(spec_path(lv, level as nat, idx as nat) =~= Seq::<(usize, [u8; 32])>::empty());
            assert(siblings@ =~= spec_path(lv, 0, leaf_index as nat));
        }
        Some(MerkleProof { siblings, leaf_index })
    }

    /// Verify a proof against a known root: folding the siblings into the
    /// leaf hash must give the root.
    pub fn verify_proof(proof: &MerkleProof, leaf_hash: [u8; 32], root: &[u8; 32], suite: HashSuite) -> (r: bool)
        ensures
            r == (spec_fold(proof.siblings@, proof.leaf_index as nat, leaf_hash, suite) == *root),
    {
        let mut current = leaf_hash;
        let mut idx = proof.leaf_index;
        let mut k: usize = 0;
        proof { assert(proof.siblings@.skip(0) =~= proof.siblings@); }
        while k < proof.siblings.len()
            invariant
                k <= proof.siblings@.len(),
                spec_fold(proof.siblings@.skip(k as int), idx as nat, current, suite)
                    == spec_fold(proof.siblings@, proof.leaf_index as nat, leaf_hash, suite),
            decreases proof.siblings@.len() - k,
        {
            let sibling = proof.siblings[k].1;
            proof {
                assert(proof.siblings@.skip(k as int).drop_first() =~= proof.siblings@.skip(k + 1));
            }
            current = if idx % 2 == 0 {
                compute_node(&current, &sibling, suite)
            } else {
                compute_node(&sibling, &current, suite)
            };
            idx = idx / 2;
            k = k + 1;
        }
        proof { assert(proof.siblings@.skip(k as int).len() == 0); }
        let r = crate::chain::ct_eq_32(&current, root);
        proof {
            broadcast use vstd::array::group_array_axioms;
            if r { assert(current =~= *root); }
        }
        r
    }

    /// The leaf hashes (for optional footer storage).
    pub fn leaves(&self) -> (r: &[[u8; 32]])
        ensures
            r@ == self.leaf_hashes(),
    {
        if self.nodes.len() == 0 {
            &[]
        } else {
            self.nodes[0].as_slice()
        }
    }
}

/// Compute the Merkle root directly.
pub fn compute_merkle_root(params_hash: &[u8; 32], padded_payloads: &[Vec<u8>], suite: HashSuite) -> (r: [u8; 32])
    ensures
        r == spec_root(spec_leaves(params_hash@, crate::footer::vec_views(padded_payloads@), suite), suite),
{
    MerkleTree::build(params_hash, padded_payloads, suite).root
}

/// Each level above the leaves pairs the nodes below it in order: node `j`
/// is the hash of the node tag, node `2j` and node `2j + 1` below (node
/// `2j` twice when it is the last, unpaired one); and leaf `i` is the hash
/// of the leaf tag, the params hash, `i` as 8 little-endian bytes and
/// padded payload `i`.
pub proof fn lemma_tree_hashing(params_hash: Seq<u8>, padded_payloads: Seq<Seq<u8>>, level: Seq<[u8; 32]>, suite: HashSuite)
    ensures
        spec_next_level(level, suite).len() == (level.len() + 1) / 2,
        forall|j: int| 0 <= j < spec_next_level(level, suite).len() ==> #[trigger] spec_next_level(level, suite)[j]
            == digest(suite, tag_node() + level[2 * j]@ + (if 2 * j + 1 < level.len() { level[2 * j + 1] } else { level[2 * j] })@),
        spec_leaves(params_hash, padded_payloads, suite).len() == padded_payloads.len(),
        forall|i: int| 0 <= i < padded_payloads.len() ==> #[trigger] spec_leaves(params_hash, padded_payloads, suite)[i]
            == digest(suite, tag_leaf() + params_hash + spec_u64_to_le_bytes(i as u64) + padded_payloads[i]),
{
}

} // verus!
