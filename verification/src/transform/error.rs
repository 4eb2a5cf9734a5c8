//! Errors of transforms and receipts.
use crate::error::{error_text, same_error, CbcError};
use vstd::prelude::*;
use vstd::string::*;

verus! {

/// All errors a transform or a receipt operation can report.
#[derive(Debug)]
pub enum TransformError {
    /// The source or derived artifact failed to encode or decode.
    Cbc(CbcError),
    InvalidTransform(String),
    SigningError(String),
    VerificationError(String),
}

/// Convenience alias for results of transforms.
pub type Result<T> = core::result::Result<T, TransformError>;

/// The text of a transform error.
pub open spec fn transform_error_text(e: TransformError) -> Seq<char> {
    match e {
        TransformError::Cbc(c) => "CBC error: "@ + error_text(c),
        TransformError::InvalidTransform(s) => "invalid transform: "@ + s@,
        TransformError::SigningError(s) => "signing error: "@ + s@,
        TransformError::VerificationError(s) => "verification error: "@ + s@,
    }
}

impl TransformError {
    /// The text of the error.
    pub fn to_string(&self) -> (r: String)
        ensures
            r@ == transform_error_text(*self),
    {
        match self {
            TransformError::Cbc(c) => String::from_str("CBC error: ").concat(c.to_string().as_str()),
            TransformError::InvalidTransform(s) => String::from_str("invalid transform: ").concat(s.as_str()),
            TransformError::SigningError(s) => String::from_str("signing error: ").concat(s.as_str()),
            TransformError::VerificationError(s) => String::from_str("verification error: ").concat(s.as_str()),
        }
    }
}

/// `e` is the error `expected` describes; errors with free-text messages
/// are compared by kind.
pub open spec fn same_transform_error(e: TransformError, expected: TransformError) -> bool {
    match expected {
        TransformError::Cbc(x) => e matches TransformError::Cbc(y) && same_error(y, x),
        TransformError::InvalidTransform(_) => e is InvalidTransform,
        TransformError::SigningError(_) => e is SigningError,
        TransformError::VerificationError(_) => e is VerificationError,
    }
}

/// An `InvalidTransform` error with an unspecified message.
pub open spec fn invalid_transform() -> TransformError {
    TransformError::InvalidTransform(arbitrary())
}

/// A `VerificationError` with an unspecified message.
pub open spec fn verification_error() -> TransformError {
    TransformError::VerificationError(arbitrary())
}

} // verus!
