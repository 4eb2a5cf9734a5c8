//! Signing through key management systems that hold the keys.
use vstd::prelude::*;
use vstd::string::*;

verus! {

/// An error from a key management system.
#[derive(Debug)]
pub enum KmsError {
    Aws(String),
    Vault(String),
    General(String),
}

/// The text of an error from a key management system.
pub open spec fn kms_error_text(e: KmsError) -> Seq<char> {
    match e {
        KmsError::Aws(s) => "AWS KMS Error: "@ + s@,
        KmsError::Vault(s) => "Vault Error: "@ + s@,
        KmsError::General(s) => "General Error: "@ + s@,
    }
}

impl KmsError {
    /// The text of the error, naming the system that reported it.
    pub fn message(&self) -> (r: String)
        ensures
            r@ == kms_error_text(*self),
    {
        match self {
            KmsError::Aws(s) => String::from_str("AWS KMS Error: ").concat(s.as_str()),
            KmsError::Vault(s) => String::from_str("Vault Error: ").concat(s.as_str()),
            KmsError::General(s) => String::from_str("General Error: ").concat(s.as_str()),
        }
    }
}

/// A signer backed by a key management system, which holds the keys and
/// signs on request; each system implements it.
pub trait KmsSigner {
    /// Sign a payload (typically a digest) with the key named `key_id`.
    fn sign(&self, key_id: &str, payload: &[u8]) -> core::result::Result<Vec<u8>, KmsError>;

    /// Verify a signature over a payload with the key named `key_id`.
    fn verify(&self, key_id: &str, payload: &[u8], signature: &[u8]) -> core::result::Result<bool, KmsError>;
}

} // verus!
