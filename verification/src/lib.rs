//! Context-Bound Container (CBC) format: a self-validating, tamper-evident
//! binary container whose blocks are bound together by hash-chain
//! commitments (Family A), an optional Merkle tree (Family B) and optional
//! self-delimiting prefix markers (Family C).
pub mod bindings;
pub mod block;
pub mod bootstrap;
pub mod bytes;
pub mod chain;
pub mod cli;
pub mod compression;
pub mod decoder;
pub mod easy;
pub mod encoder;
pub mod error;
pub mod footer;
pub mod hash;
pub mod inspect;
pub mod kms;
pub mod merkle;
pub mod prefix;
pub mod proofs;
pub mod range;
pub mod roundtrip;
pub mod server;
pub mod streaming;
pub mod tags;
pub mod text;
pub mod transform;

pub use bootstrap::BootstrapSegment;
pub use decoder::DecodedArtifact;
pub use encoder::EncoderConfig;
pub use error::{CbcError, Result};
pub use hash::HashSuite;
