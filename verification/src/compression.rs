//! Whole-payload zstd compression.
use vstd::prelude::*;

verus! {

/// What `zstd::encode_all` at level 0 produces from `data`, or nothing
/// when it reports an error.
pub uninterp spec fn zstd_encode_all(data: Seq<u8>) -> Option<Seq<u8>>;

/// What `zstd::decode_all` produces from `data`, or nothing when it
/// reports an error.
pub uninterp spec fn zstd_decode_all(data: Seq<u8>) -> Option<Seq<u8>>;

/// Calls `zstd::encode_all` at level 0 (zstd's default level). Its output
/// is a zstd frame that `zstd::decode_all` turns back into the input. What
/// the message of the error string says is not stated.
#[verifier::external_body]
pub(crate) fn compress(data: &[u8]) -> (r: Result<Vec<u8>, String>)
    ensures
        match r {
            Ok(c) => zstd_encode_all(data@) == Some(c@) && zstd_decode_all(c@) == Some(data@),
            Err(_) => zstd_encode_all(data@) is None,
        },
{
    match zstd::encode_all(data, 0) {
        Ok(c) => Ok(c),
        Err(e) => Err(e.to_string()),
    }
}

/// Calls `zstd::decode_all`. What the message of the error string says is
/// not stated.
#[verifier::external_body]
pub(crate) fn decompress(data: &[u8]) -> (r: Result<Vec<u8>, String>)
    ensures
        match r {
            Ok(p) => zstd_decode_all(data@) == Some(p@),
            Err(_) => zstd_decode_all(data@) is None,
        },
{
    match zstd::decode_all(data) {
        Ok(p) => Ok(p),
        Err(e) => Err(e.to_string()),
    }
}

} // verus!
