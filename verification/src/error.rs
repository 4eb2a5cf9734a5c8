//! Error types for CBC encoding, decoding, and validation.
//!
//! Every fallible operation returns [`Result<T>`], whose error type is
//! [`CbcError`]. The decoder treats every error as a hard failure.
use crate::text::{decimal, hex_width, spec_decimal, spec_hex_width};
use vstd::prelude::*;
use vstd::string::*;

verus! {

/// All errors that can occur during CBC encoding, decoding, or validation.
#[derive(Debug)]
pub enum CbcError {
    /// The first 4 bytes are not `CBC1`.
    InvalidMagic([u8; 4]),
    /// The bootstrap declares a version this library does not support.
    UnsupportedVersion(u16),
    /// The bootstrap `hash_suite` byte is neither 0x01 nor 0x02.
    UnknownHashSuite(u8),
    /// `commitment_mode` lacks Family A or sets a reserved bit.
    InvalidCommitmentMode(u8),
    InvalidBlockPayloadSize(u32),
    NonZeroReserved { offset: usize },
    /// Params MAC verification failed.
    ParamsMacMismatch,
    BlockIndexMismatch { expected: u32, got: u32 },
    PayloadLengthExceeded { length: u32, max: u32 },
    NonFullPayload { index: u32, length: u32, expected: u32 },
    NonZeroBlockFlags(u32),
    EncryptionError(String),
    DecryptionError(String),
    MissingEncryptionKey,
    CompressionError(String),
    DecompressionError(String),
    Crc32Mismatch { index: u32, expected: u32, got: u32 },
    ChainCommitmentMismatch { index: u32 },
    ChainRootMismatch,
    MerkleRootMismatch,
    InvalidFooterMagic,
    FooterCommitmentMismatch,
    PrefixParseError(String),
    InsufficientData { need: usize, have: usize },
    InvalidReceipt(String),
    /// Generic error message.
    Other(String),
}

/// Convenience alias: all fallible operations return `Result<T, CbcError>`.
pub type Result<T> = core::result::Result<T, CbcError>;

/// The human-readable hint attached to each kind of error.
pub open spec fn suggestion_text(e: CbcError) -> Seq<char> {
    match e {
        CbcError::InvalidMagic(_) => "This file does not appear to be a Cobalt artifact (missing 'CBC1' magic)."@,
        CbcError::UnsupportedVersion(_) => "This artifact was created with a newer or incompatible version of Cobalt."@,
        CbcError::UnknownHashSuite(_) => "The hash algorithm used in this artifact is not supported by this library version."@,
        CbcError::InvalidCommitmentMode(_) => "The artifact header is malformed (Family A commitment is required)."@,
        CbcError::InvalidBlockPayloadSize(_) => "The block size in the header is invalid (must be a power of 2 between 512B and 16MiB)."@,
        CbcError::ParamsMacMismatch => "The artifact header has been tampered with or corrupted (MAC mismatch)."@,
        CbcError::ChainCommitmentMismatch { .. } => "INTEGRITY FAILURE: A block has been modified or corrupted. The cryptographic chain is broken."@,
        CbcError::Crc32Mismatch { .. } => "Lower-level corruption detected in a block payload (CRC mismatch)."@,
        CbcError::DecryptionError(_) => "Failed to decrypt block. Check your key and ensuring the artifact wasn't truncated."@,
        CbcError::InsufficientData { .. } => "The artifact is truncated or incomplete."@,
        CbcError::InvalidFooterMagic => "The artifact's footer is missing or corrupted."@,
        CbcError::FooterCommitmentMismatch => "The global footer commitment failed. The entire artifact is untrusted."@,
        _ => "Check the artifact specification and ensure your implementation matches."@,
    }
}

/// Four bytes as a bracketed, comma-separated list of decimals.
pub open spec fn byte_list(m: [u8; 4]) -> Seq<char> {
    "["@ + spec_decimal(m[0] as nat) + ", "@ + spec_decimal(m[1] as nat) + ", "@ + spec_decimal(m[2] as nat) + ", "@
        + spec_decimal(m[3] as nat) + "]"@
}

/// What went wrong, in words, with the values involved.
pub open spec fn error_detail(e: CbcError) -> Seq<char> {
    match e {
        CbcError::InvalidMagic(m) => "invalid magic bytes: expected CBC1, got "@ + byte_list(m),
        CbcError::UnsupportedVersion(v) => "unsupported version: "@ + spec_decimal(v as nat),
        CbcError::UnknownHashSuite(h) => "unknown hash suite: 0x"@ + spec_hex_width(h as nat, 2),
        CbcError::InvalidCommitmentMode(m) => "invalid commitment mode: Family A (bit 0) must be set, got 0x"@
            + spec_hex_width(m as nat, 2),
        CbcError::InvalidBlockPayloadSize(s) => "invalid block payload size: "@ + spec_decimal(s as nat)
            + " (must be power of 2, 512..=16MiB)"@,
        CbcError::NonZeroReserved { offset } => "reserved field is non-zero at offset "@ + spec_decimal(offset as nat),
        CbcError::ParamsMacMismatch => "params MAC verification failed"@,
        CbcError::BlockIndexMismatch { expected, got } => "block index mismatch: expected "@ + spec_decimal(
            expected as nat,
        ) + ", got "@ + spec_decimal(got as nat),
        CbcError::PayloadLengthExceeded { length, max } => "payload length "@ + spec_decimal(length as nat)
            + " exceeds block payload size "@ + spec_decimal(max as nat),
        CbcError::NonFullPayload { index, length, expected } => "non-full payload in non-final block "@ + spec_decimal(
            index as nat,
        ) + ": length "@ + spec_decimal(length as nat) + ", expected "@ + spec_decimal(expected as nat),
        CbcError::NonZeroBlockFlags(f) => "non-zero block flags: 0x"@ + spec_hex_width(f as nat, 8),
        CbcError::EncryptionError(s) => "encryption error: "@ + s@,
        CbcError::DecryptionError(s) => "decryption error: "@ + s@,
        CbcError::MissingEncryptionKey => "missing encryption key"@,
        CbcError::CompressionError(s) => "compression error: "@ + s@,
        CbcError::DecompressionError(s) => "decompression error: "@ + s@,
        CbcError::Crc32Mismatch { index, expected, got } => "CRC-32C mismatch in block "@ + spec_decimal(index as nat)
            + ": expected 0x"@ + spec_hex_width(expected as nat, 8) + ", got 0x"@ + spec_hex_width(got as nat, 8),
        CbcError::ChainCommitmentMismatch { index } => "chain commitment mismatch at block "@ + spec_decimal(
            index as nat,
        ),
        CbcError::ChainRootMismatch => "chain root mismatch: footer root does not match final block commitment"@,
        CbcError::MerkleRootMismatch => "merkle root mismatch"@,
        CbcError::InvalidFooterMagic => "invalid footer magic: expected CBCF"@,
        CbcError::FooterCommitmentMismatch => "footer commitment verification failed"@,
        CbcError::PrefixParseError(s) => "prefix parse validation failed: "@ + s@,
        CbcError::InsufficientData { need, have } => "insufficient data: need "@ + spec_decimal(need as nat)
            + " bytes, have "@ + spec_decimal(have as nat),
        CbcError::InvalidReceipt(s) => "invalid receipt: "@ + s@,
        CbcError::Other(s) => s@,
    }
}

/// The full text of an error: what went wrong and a suggestion.
pub open spec fn error_text(e: CbcError) -> Seq<char> {
    error_detail(e) + " (Suggestion: "@ + suggestion_text(e) + ")"@
}

/// Four bytes as a bracketed, comma-separated list of decimals.
fn byte_list_text(m: &[u8; 4]) -> (r: String)
    ensures
        r@ == byte_list(*m),
{
    String::from_str("[").concat(decimal(m[0] as u64).as_str()).concat(", ").concat(decimal(m[1] as u64).as_str()).concat(
        ", ",
    ).concat(decimal(m[2] as u64).as_str()).concat(", ").concat(decimal(m[3] as u64).as_str()).concat("]")
}

/// A fixed text followed by a number in decimal.
fn with_decimal(text: &str, n: u64) -> (r: String)
    ensures
        r@ == text@ + spec_decimal(n as nat),
{
    String::from_str(text).concat(decimal(n).as_str())
}

/// A fixed text followed by a string.
fn with_text(text: &str, s: &String) -> (r: String)
    ensures
        r@ == text@ + s@,
{
    String::from_str(text).concat(s.as_str())
}

impl CbcError {
    /// What went wrong, in words, with the values involved.
    pub fn detail(&self) -> (r: String)
        ensures
            r@ == error_detail(*self),
    {
        match self {
            CbcError::InvalidMagic(m) => String::from_str("invalid magic bytes: expected CBC1, got ").concat(
                byte_list_text(m).as_str(),
            ),
            CbcError::UnsupportedVersion(v) => with_decimal("unsupported version: ", *v as u64),
            CbcError::UnknownHashSuite(h) => String::from_str("unknown hash suite: 0x").concat(
                hex_width(*h as u64, 2).as_str(),
            ),
            CbcError::InvalidCommitmentMode(m) => String::from_str(
                "invalid commitment mode: Family A (bit 0) must be set, got 0x",
            ).concat(hex_width(*m as u64, 2).as_str()),
            CbcError::InvalidBlockPayloadSize(s) => with_decimal("invalid block payload size: ", *s as u64).concat(
                " (must be power of 2, 512..=16MiB)",
            ),
            CbcError::NonZeroReserved { offset } => with_decimal("reserved field is non-zero at offset ", *offset as u64),
            CbcError::ParamsMacMismatch => String::from_str("params MAC verification failed"),
            CbcError::BlockIndexMismatch { expected, got } => with_decimal(
                "block index mismatch: expected ",
                *expected as u64,
            ).concat(", got ").concat(decimal(*got as u64).as_str()),
            CbcError::PayloadLengthExceeded { length, max } => with_decimal("payload length ", *length as u64).concat(
                " exceeds block payload size ",
            ).concat(decimal(*max as u64).as_str()),
            CbcError::NonFullPayload { index, length, expected } => with_decimal(
                "non-full payload in non-final block ",
                *index as u64,
            ).concat(": length ").concat(decimal(*length as u64).as_str()).concat(", expected ").concat(
                decimal(*expected as u64).as_str(),
            ),
            CbcError::NonZeroBlockFlags(f) => String::from_str("non-zero block flags: 0x").concat(
                hex_width(*f as u64, 8).as_str(),
            ),
            CbcError::EncryptionError(s) => with_text("encryption error: ", s),
            CbcError::DecryptionError(s) => with_text("decryption error: ", s),
            CbcError::MissingEncryptionKey => String::from_str("missing encryption key"),
            CbcError::CompressionError(s) => with_text("compression error: ", s),
            CbcError::DecompressionError(s) => with_text("decompression error: ", s),
            CbcError::Crc32Mismatch { index, expected, got } => with_decimal("CRC-32C mismatch in block ", *index as u64).concat(
                ": expected 0x",
            ).concat(hex_width(*expected as u64, 8).as_str()).concat(", got 0x").concat(
                hex_width(*got as u64, 8).as_str(),
            ),
            CbcError::ChainCommitmentMismatch { index } => with_decimal("chain commitment mismatch at block ", *index as u64),
            CbcError::ChainRootMismatch => String::from_str(
                "chain root mismatch: footer root does not match final block commitment",
            ),
            CbcError::MerkleRootMismatch => String::from_str("merkle root mismatch"),
            CbcError::InvalidFooterMagic => String::from_str("invalid footer magic: expected CBCF"),
            CbcError::FooterCommitmentMismatch => String::from_str("footer commitment verification failed"),
            CbcError::PrefixParseError(s) => with_text("prefix parse validation failed: ", s),
            CbcError::InsufficientData { need, have } => with_decimal("insufficient data: need ", *need as u64).concat(
                " bytes, have ",
            ).concat(decimal(*have as u64).as_str()),
            CbcError::InvalidReceipt(s) => with_text("invalid receipt: ", s),
            CbcError::Other(s) => s.clone(),
        }
    }

    /// The full text of the error: what went wrong and a suggestion.
    pub fn to_string(&self) -> (r: String)
        ensures
            r@ == error_text(*self),
    {
        self.detail().concat(" (Suggestion: ").concat(self.suggestion()).concat(")")
    }
}

impl CbcError {
    /// A generic error carrying a message.
    pub fn msg(s: String) -> (e: Self)
        ensures
            e == CbcError::Other(s),
    {
        CbcError::Other(s)
    }

    /// Returns a human-readable suggestion for resolving the error.
    pub fn suggestion(&self) -> (r: &str)
        ensures
            r@ == suggestion_text(*self),
    {
        match self {
            CbcError::InvalidMagic(_) => "This file does not appear to be a Cobalt artifact (missing 'CBC1' magic).",
            CbcError::UnsupportedVersion(_) => "This artifact was created with a newer or incompatible version of Cobalt.",
            CbcError::UnknownHashSuite(_) => "The hash algorithm used in this artifact is not supported by this library version.",
            CbcError::InvalidCommitmentMode(_) => "The artifact header is malformed (Family A commitment is required).",
            CbcError::InvalidBlockPayloadSize(_) => "The block size in the header is invalid (must be a power of 2 between 512B and 16MiB).",
            CbcError::ParamsMacMismatch => "The artifact header has been tampered with or corrupted (MAC mismatch).",
            CbcError::ChainCommitmentMismatch { .. } => "INTEGRITY FAILURE: A block has been modified or corrupted. The cryptographic chain is broken.",
            CbcError::Crc32Mismatch { .. } => "Lower-level corruption detected in a block payload (CRC mismatch).",
            CbcError::DecryptionError(_) => "Failed to decrypt block. Check your key and ensuring the artifact wasn't truncated.",
            CbcError::InsufficientData { .. } => "The artifact is truncated or incomplete.",
            CbcError::InvalidFooterMagic => "The artifact's footer is missing or corrupted.",
            CbcError::FooterCommitmentMismatch => "The global footer commitment failed. The entire artifact is untrusted.",
            _ => "Check the artifact specification and ensure your implementation matches.",
        }
    }
}

/// `e` is the error `expected` describes; for `Other`, whose message is
/// free text, only the kind is compared.
pub open spec fn same_error(e: CbcError, expected: CbcError) -> bool {
    match expected {
        CbcError::Other(_) => e is Other,
        CbcError::PrefixParseError(_) => e is PrefixParseError,
        CbcError::EncryptionError(_) => e is EncryptionError,
        CbcError::DecryptionError(_) => e is DecryptionError,
        CbcError::CompressionError(_) => e is CompressionError,
        CbcError::DecompressionError(_) => e is DecompressionError,
        CbcError::InvalidReceipt(_) => e is InvalidReceipt,
        _ => e == expected,
    }
}

/// An `Other` error with an unspecified message.
pub open spec fn other_error() -> CbcError {
    CbcError::Other(arbitrary())
}

} // verus!
