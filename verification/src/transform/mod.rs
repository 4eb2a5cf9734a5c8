//! Transforms of CBC artifacts, and the signed receipts that link a
//! derived artifact to its source.
pub mod error;
pub mod receipt;
pub mod transforms;

pub use error::TransformError;
pub use receipt::{Receipt, SigAlgorithm, SigningKey, TransformType};
pub use transforms::{concatenate, recompress, rechunk, subrange_extract, truncate};
