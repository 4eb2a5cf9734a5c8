//! Hash suite abstraction over BLAKE3 and SHA-256.
//!
//! All commitment sizes are 32 bytes.
use crate::bytes::append_bytes;
use vstd::prelude::*;

verus! {

/// The 32-byte BLAKE3 digest of `data`.
pub uninterp spec fn blake3_digest(data: Seq<u8>) -> [u8; 32];

/// The 32-byte SHA-256 digest of `data`.
pub uninterp spec fn sha256_digest(data: Seq<u8>) -> [u8; 32];

/// Calls `blake3::hash`; its result is the BLAKE3 digest of the input,
/// a function of the input bytes alone.
#[verifier::external_body]
fn blake3_hash(data: &[u8]) -> (out: [u8; 32])
    ensures
        out == blake3_digest(data@),
{
    *blake3::hash(data).as_bytes()
}

/// Calls `<sha2::Sha256 as sha2::Digest>::digest`; its result is the
/// SHA-256 digest of the input, a function of the input bytes alone.
#[verifier::external_body]
fn sha256_hash(data: &[u8]) -> (out: [u8; 32])
    ensures
        out == sha256_digest(data@),
{
    <sha2::Sha256 as sha2::Digest>::digest(data).into()
}

/// Hash algorithm identifier.
#[derive(Debug, Clone, Copy, PartialEq, Eq, Structural)]
pub enum HashSuite {
    Blake3,
    Sha256,
}

/// The identifier byte of a suite on the wire.
pub open spec fn suite_id(s: HashSuite) -> u8 {
    match s {
        HashSuite::Blake3 => 0x01,
        HashSuite::Sha256 => 0x02,
    }
}

/// The suite named by an identifier byte, if any.
pub open spec fn suite_from_id(id: u8) -> Option<HashSuite> {
    if id == 0x01 {
        Some(HashSuite::Blake3)
    } else if id == 0x02 {
        Some(HashSuite::Sha256)
    } else {
        None
    }
}

/// The digest a suite computes over `data`.
pub open spec fn digest(s: HashSuite, data: Seq<u8>) -> [u8; 32] {
    match s {
        HashSuite::Blake3 => blake3_digest(data),
        HashSuite::Sha256 => sha256_digest(data),
    }
}

/// The concatenation of all parts, in order.
pub open spec fn concat_parts(parts: Seq<&[u8]>) -> Seq<u8>
    decreases parts.len(),
{
    if parts.len() == 0 {
        Seq::empty()
    } else {
        concat_parts(parts.drop_last()) + parts.last()@
    }
}

impl HashSuite {
    pub fn from_id(id: u8) -> (r: Option<Self>)
        ensures
            r == suite_from_id(id),
    {
        if id == 0x01 {
            Some(HashSuite::Blake3)
        } else if id == 0x02 {
            Some(HashSuite::Sha256)
        } else {
            None
        }
    }

    pub fn id(self) -> (r: u8)
        ensures
            r == suite_id(self),
    {
        match self {
            HashSuite::Blake3 => 0x01,
            HashSuite::Sha256 => 0x02,
        }
    }

    /// The 32-byte digest of one byte string.
    pub fn hash_bytes(self, data: &[u8]) -> (out: [u8; 32])
        ensures
            out == digest(self, data@),
    {
        match self {
            HashSuite::Blake3 => blake3_hash(data),
            HashSuite::Sha256 => sha256_hash(data),
        }
    }

    /// Compute a 32-byte hash over the concatenation of the input slices.
    pub fn hash(self, parts: &[&[u8]]) -> (out: [u8; 32])
        ensures
            out == digest(self, concat_parts(parts@)),
    {
        let mut buf: Vec<u8> = Vec::new();
        let mut i: usize = 0;
        while i < parts.len()
            invariant
                i <= parts@.len(),
                buf@ == concat_parts(parts@.subrange(0, i as int)),
            decreases parts@.len() - i,
        {
            append_bytes(&mut buf, parts[i]);
            i = i + 1;
            proof {
                let s = parts@.subrange(0, i as int);
                assert(s.drop_last() == parts@.subrange(0, i - 1));
            }
        }
        proof {
            assert(parts@.subrange(0, parts@.len() as int) == parts@);
        }
        self.hash_bytes(buf.as_slice())
    }
}

} // verus!
