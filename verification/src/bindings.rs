//! What the bindings for other languages compute: a quick look at an
//! artifact's bootstrap segment, and a validation summary.
use crate::bootstrap::{spec_decode_bootstrap, BootstrapSegment};
use crate::decoder::{decode, spec_decode, spec_integrity, validate};
use crate::error::{error_text, same_error, suggestion_text, CbcError};
use crate::text::{hash_suite_name, hex_string, spec_hex, suite_name};
use vstd::prelude::*;
use vstd::slice::slice_subrange;
use vstd::string::*;

verus! {

/// What a look at an artifact's bootstrap segment tells.
pub struct InspectionResult {
    pub valid_bootstrap: bool,
    pub version: u16,
    pub hash_suite: String,
    pub block_count: u32,
    pub block_payload_size: u32,
    pub families: Vec<String>,
}

/// Why an artifact's bootstrap segment could not be read.
#[derive(Debug)]
pub enum SegmentError {
    /// Fewer than 64 bytes.
    TooSmall,
    /// The first 64 bytes are no valid bootstrap segment.
    InvalidBootstrap(CbcError),
}

/// The names of the families a commitment mode turns on, in order.
pub open spec fn spec_family_names(m: u8) -> Seq<Seq<char>> {
    (if m & 0x01 != 0 { seq!["A"@] } else { Seq::empty() }) + (if m & 0x02 != 0 { seq!["B"@] } else { Seq::empty() }) + (
    if m & 0x04 != 0 {
        seq!["C"@]
    } else {
        Seq::empty()
    })
}

/// The names of the families a segment turns on, in order.
fn family_names(bs: &BootstrapSegment) -> (r: Vec<String>)
    ensures
        r@.map_values(|s: String| s@) == spec_family_names(bs.commitment_mode),
{
    let mut names: Vec<String> = Vec::new();
    if bs.family_a() {
        names.push(String::from_str("A"));
    }
    if bs.family_b() {
        names.push(String::from_str("B"));
    }
    if bs.family_c() {
        names.push(String::from_str("C"));
    }
    proof {
        assert(names@.map_values(|s: String| s@) =~= spec_family_names(bs.commitment_mode));
    }
    names
}

/// Read an artifact's bootstrap segment: its suite, block count, block
/// size and families.
pub fn inspect_segment(data: &[u8]) -> (r: Result<InspectionResult, SegmentError>)
    ensures
        data@.len() < 64 ==> r matches Err(SegmentError::TooSmall),
        data@.len() >= 64 ==> match spec_decode_bootstrap(data@.take(64)) {
            Err(x) => r matches Err(SegmentError::InvalidBootstrap(e)) && e == x,
            Ok(bs) => r matches Ok(i) && i.valid_bootstrap && i.version == 1 && i.hash_suite@ == suite_name(bs.hash_suite)
                && i.block_count == bs.block_count && i.block_payload_size == bs.block_payload_size
                && i.families@.map_values(|s: String| s@) == spec_family_names(bs.commitment_mode),
        },
{
    if data.len() < 64 {
        return Err(SegmentError::TooSmall);
    }
    let mut head = [0u8; 64];
    crate::bytes::fill_array(&mut head, slice_subrange(data, 0, 64));
    proof {
        assert(head@ =~= data@.take(64));
    }
    match BootstrapSegment::decode(&head) {
        Ok(bs) => Ok(
            InspectionResult {
                valid_bootstrap: true,
                version: 1,
                hash_suite: hash_suite_name(bs.hash_suite),
                block_count: bs.block_count,
                block_payload_size: bs.block_payload_size,
                families: family_names(&bs),
            },
        ),
        Err(e) => Err(SegmentError::InvalidBootstrap(e)),
    }
}

/// A validation summary of an artifact.
pub struct ValidationResult {
    pub valid: bool,
    pub version: u16,
    pub file_size: usize,
    pub hash_suite: String,
    pub block_count: u32,
    pub block_payload_size: u32,
    pub merkle_root: Option<String>,
    pub error: Option<String>,
    pub suggestion: Option<String>,
}

/// The text of an optional string.
pub open spec fn opt_chars(s: Option<String>) -> Option<Seq<char>> {
    match s {
        Some(t) => Some(t@),
        None => None,
    }
}

/// Validate an artifact and summarise it: the segment's settings when it
/// reads; when it passes the integrity checks, the Merkle root if it also
/// decodes without a key; otherwise the error and a suggestion.
pub fn validate_artifact(data: &[u8]) -> (r: ValidationResult)
    ensures
        r.file_size == data@.len(),
        data@.len() < 64 ==> {
            &&& !r.valid && r.version == 0 && r.hash_suite@ == "Unknown"@ && r.block_count == 0
            &&& r.block_payload_size == 0 && r.merkle_root is None
            &&& opt_chars(r.error) == Some("File too small"@)
            &&& opt_chars(r.suggestion) == Some("The Cobalt header requires at least 64 bytes."@)
        },
        data@.len() >= 64 ==> match spec_decode_bootstrap(data@.take(64)) {
            Err(x) => {
                &&& !r.valid && r.version == 0 && r.hash_suite@ == "Unknown"@ && r.block_count == 0
                &&& r.block_payload_size == 0 && r.merkle_root is None
                &&& opt_chars(r.error) == Some("Invalid bootstrap: "@ + error_text(x))
                &&& opt_chars(r.suggestion) == Some(suggestion_text(x))
            },
            Ok(bs) => {
                &&& r.version == 1 && r.hash_suite@ == suite_name(bs.hash_suite) && r.block_count == bs.block_count
                &&& r.block_payload_size == bs.block_payload_size
                &&& match spec_integrity(data@) {
                    Ok(_) => r.valid && r.error is None && r.suggestion is None && opt_chars(r.merkle_root) == match spec_decode(data@, None) {
                        Ok(d) => match d.merkle_root {
                            Some(m) => Some(spec_hex(m@)),
                            None => None::<Seq<char>>,
                        },
                        Err(_) => None::<Seq<char>>,
                    },
                    Err(x) => {
                        &&& !r.valid && r.merkle_root is None
                        &&& exists|e: CbcError| same_error(e, x) && opt_chars(r.error) == Some("Validation failed: "@ + #[trigger] error_text(e))
                        &&& opt_chars(r.suggestion) == Some(suggestion_text(x))
                    },
                }
            },
        },
{
    let mut result = ValidationResult {
        valid: false,
        version: 0,
        file_size: data.len(),
        hash_suite: String::from_str("Unknown"),
        block_count: 0,
        block_payload_size: 0,
        merkle_root: None,
        error: None,
        suggestion: None,
    };
    if data.len() < 64 {
        result.error = Some(String::from_str("File too small"));
        result.suggestion = Some(String::from_str("The Cobalt header requires at least 64 bytes."));
        return result;
    }
    let mut head = [0u8; 64];
    crate::bytes::fill_array(&mut head, slice_subrange(data, 0, 64));
    proof {
        assert(head@ =~= data@.take(64));
    }
    match BootstrapSegment::decode(&head) {
        Ok(bs) => {
            result.version = 1;
            result.hash_suite = hash_suite_name(bs.hash_suite);
            result.block_count = bs.block_count;
            result.block_payload_size = bs.block_payload_size;
        },
        Err(e) => {
            result.error = Some(String::from_str("Invalid bootstrap: ").concat(e.to_string().as_str()));
            result.suggestion = Some(String::from_str(e.suggestion()));
            return result;
        },
    }
    match validate(data) {
        Ok(()) => {
            result.valid = true;
            if let Ok(decoded) = decode(data, None) {
                result.merkle_root = match decoded.merkle_root {
                    Some(m) => Some(hex_string(&m)),
                    None => None,
                };
            }
        },
        Err(e) => {
            result.valid = false;
            result.error = Some(String::from_str("Validation failed: ").concat(e.to_string().as_str()));
            result.suggestion = Some(String::from_str(e.suggestion()));
            proof {
                assert(opt_chars(result.error) == Some("Validation failed: "@ + error_text(e)));
            }
        },
    }
    result
}

} // verus!
