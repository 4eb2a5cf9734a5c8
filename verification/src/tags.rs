//! Domain-separation tags prepended to every hashed message.
use vstd::prelude::*;

verus! {

/// The bytes of `CBC-v1`, which prefix the hash input for initial chain commitment.
pub open spec fn tag_c0() -> Seq<u8> {
    seq![0x43, 0x42, 0x43, 0x2d, 0x76, 0x31]
}

/// The bytes of `CBC-v1`.
pub fn tag_c0_bytes() -> (v: Vec<u8>)
    ensures
        v@ == tag_c0(),
{
    let v: Vec<u8> = vec![0x43, 0x42, 0x43, 0x2d, 0x76, 0x31];
    assert(v@ =~= tag_c0());
    v
}

/// The bytes of `CBC-v1-block`, which prefix the hash input for block commitments.
pub open spec fn tag_block() -> Seq<u8> {
    seq![0x43, 0x42, 0x43, 0x2d, 0x76, 0x31, 0x2d, 0x62, 0x6c, 0x6f, 0x63, 0x6b]
}

/// The bytes of `CBC-v1-block`.
pub fn tag_block_bytes() -> (v: Vec<u8>)
    ensures
        v@ == tag_block(),
{
    let v: Vec<u8> = vec![0x43, 0x42, 0x43, 0x2d, 0x76, 0x31, 0x2d, 0x62, 0x6c, 0x6f, 0x63, 0x6b];
    assert(v@ =~= tag_block());
    v
}

/// The bytes of `CBC-v1-params-mac`, which prefix the hash input for the bootstrap params MAC.
pub open spec fn tag_params_mac() -> Seq<u8> {
    seq![0x43, 0x42, 0x43, 0x2d, 0x76, 0x31, 0x2d, 0x70, 0x61, 0x72, 0x61, 0x6d, 0x73, 0x2d, 0x6d, 0x61, 0x63]
}

/// The bytes of `CBC-v1-params-mac`.
pub fn tag_params_mac_bytes() -> (v: Vec<u8>)
    ensures
        v@ == tag_params_mac(),
{
    let v: Vec<u8> = vec![0x43, 0x42, 0x43, 0x2d, 0x76, 0x31, 0x2d, 0x70, 0x61, 0x72, 0x61, 0x6d, 0x73, 0x2d, 0x6d, 0x61, 0x63];
    assert(v@ =~= tag_params_mac());
    v
}

/// The bytes of `CBC-v1-leaf`, which prefix the hash input for Merkle leaves.
pub open spec fn tag_leaf() -> Seq<u8> {
    seq![0x43, 0x42, 0x43, 0x2d, 0x76, 0x31, 0x2d, 0x6c, 0x65, 0x61, 0x66]
}

/// The bytes of `CBC-v1-leaf`.
pub fn tag_leaf_bytes() -> (v: Vec<u8>)
    ensures
        v@ == tag_leaf(),
{
    let v: Vec<u8> = vec![0x43, 0x42, 0x43, 0x2d, 0x76, 0x31, 0x2d, 0x6c, 0x65, 0x61, 0x66];
    assert(v@ =~= tag_leaf());
    v
}

/// The bytes of `CBC-v1-node`, which prefix the hash input for Merkle internal nodes.
pub open spec fn tag_node() -> Seq<u8> {
    seq![0x43, 0x42, 0x43, 0x2d, 0x76, 0x31, 0x2d, 0x6e, 0x6f, 0x64, 0x65]
}

/// The bytes of `CBC-v1-node`.
pub fn tag_node_bytes() -> (v: Vec<u8>)
    ensures
        v@ == tag_node(),
{
    let v: Vec<u8> = vec![0x43, 0x42, 0x43, 0x2d, 0x76, 0x31, 0x2d, 0x6e, 0x6f, 0x64, 0x65];
    assert(v@ =~= tag_node());
    v
}

/// The bytes of `CBC-v1-footer`, which prefix the hash input for the footer commitment.
pub open spec fn tag_footer() -> Seq<u8> {
    seq![0x43, 0x42, 0x43, 0x2d, 0x76, 0x31, 0x2d, 0x66, 0x6f, 0x6f, 0x74, 0x65, 0x72]
}

/// The bytes of `CBC-v1-footer`.
pub fn tag_footer_bytes() -> (v: Vec<u8>)
    ensures
        v@ == tag_footer(),
{
    let v: Vec<u8> = vec![0x43, 0x42, 0x43, 0x2d, 0x76, 0x31, 0x2d, 0x66, 0x6f, 0x6f, 0x74, 0x65, 0x72];
    assert(v@ =~= tag_footer());
    v
}

/// The bytes of `CBC-v1-receipt`, which prefix the hash input for receipt body hashes.
pub open spec fn tag_receipt() -> Seq<u8> {
    seq![0x43, 0x42, 0x43, 0x2d, 0x76, 0x31, 0x2d, 0x72, 0x65, 0x63, 0x65, 0x69, 0x70, 0x74]
}

/// The bytes of `CBC-v1-receipt`.
pub fn tag_receipt_bytes() -> (v: Vec<u8>)
    ensures
        v@ == tag_receipt(),
{
    let v: Vec<u8> = vec![0x43, 0x42, 0x43, 0x2d, 0x76, 0x31, 0x2d, 0x72, 0x65, 0x63, 0x65, 0x69, 0x70, 0x74];
    assert(v@ =~= tag_receipt());
    v
}

/// The bytes of an ASCII text.
pub open spec fn ascii_bytes(text: Seq<char>) -> Seq<u8> {
    text.map_values(|c: char| c as u8)
}

/// Each tag is the ASCII spelling of its name; the leaf and node tags,
/// of one length, differ, so leaves and internal nodes are hashed from
/// different inputs.
pub proof fn lemma_tags_spell_their_names()
    ensures
        tag_c0() == ascii_bytes("CBC-v1"@),
        tag_block() == ascii_bytes("CBC-v1-block"@),
        tag_params_mac() == ascii_bytes("CBC-v1-params-mac"@),
        tag_leaf() == ascii_bytes("CBC-v1-leaf"@),
        tag_node() == ascii_bytes("CBC-v1-node"@),
        tag_footer() == ascii_bytes("CBC-v1-footer"@),
        tag_receipt() == ascii_bytes("CBC-v1-receipt"@),
        tag_leaf().len() == tag_node().len() && tag_leaf() != tag_node(),
{
    reveal_strlit("CBC-v1");
    reveal_strlit("CBC-v1-block");
    reveal_strlit("CBC-v1-params-mac");
    reveal_strlit("CBC-v1-leaf");
    reveal_strlit("CBC-v1-node");
    reveal_strlit("CBC-v1-footer");
    reveal_strlit("CBC-v1-receipt");
    assert(tag_c0() =~= ascii_bytes("CBC-v1"@));
    assert(tag_block() =~= ascii_bytes("CBC-v1-block"@));
    assert(tag_params_mac() =~= ascii_bytes("CBC-v1-params-mac"@));
    assert(tag_leaf() =~= ascii_bytes("CBC-v1-leaf"@));
    assert(tag_node() =~= ascii_bytes("CBC-v1-node"@));
    assert(tag_footer() =~= ascii_bytes("CBC-v1-footer"@));
    assert(tag_receipt() =~= ascii_bytes("CBC-v1-receipt"@));
    assert(tag_leaf()[7] != tag_node()[7]);
}

} // verus!
