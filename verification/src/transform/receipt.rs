//! Transform receipts: signed statements that a derived artifact came from
//! a source artifact by a given transform.
use crate::bootstrap::push_u16_le;
use crate::bytes::{append_bytes, low16, trunc16};
use crate::hash::{digest, HashSuite};
use crate::kms::KmsSigner;
use crate::tags::{tag_receipt, tag_receipt_bytes};
use crate::transform::error::{invalid_transform, same_transform_error, verification_error, Result, TransformError};
use vstd::bytes::{lemma_auto_spec_u16_to_from_le_bytes, lemma_auto_spec_u64_to_from_le_bytes, spec_u16_from_le_bytes, spec_u16_to_le_bytes, spec_u64_from_le_bytes, spec_u64_to_le_bytes, u16_from_le_bytes, u64_from_le_bytes, u64_to_le_bytes};
use crate::text::{hex_width, spec_hex_width};
use vstd::prelude::*;
use vstd::string::*;
use vstd::slice::slice_subrange;

verus! {

/// Transform type codes.
#[derive(Debug, Clone, Copy, PartialEq, Eq, Structural)]
pub enum TransformType {
    Unspecified,
    Truncation,
    Rechunk,
    Recompress,
    Concatenate,
    SubrangeExtract,
    Encrypt,
    Decrypt,
    Custom,
}

/// The wire code of a transform type.
pub open spec fn transform_code(t: TransformType) -> u16 {
    match t {
        TransformType::Unspecified => 0x0000,
        TransformType::Truncation => 0x0001,
        TransformType::Rechunk => 0x0002,
        TransformType::Recompress => 0x0003,
        TransformType::Concatenate => 0x0004,
        TransformType::SubrangeExtract => 0x0005,
        TransformType::Encrypt => 0x0006,
        TransformType::Decrypt => 0x0007,
        TransformType::Custom => 0x0008,
    }
}

/// The transform type a code names, if any.
pub open spec fn transform_from_code(v: u16) -> Option<TransformType> {
    if v == 0x0000 {
        Some(TransformType::Unspecified)
    } else if v == 0x0001 {
        Some(TransformType::Truncation)
    } else if v == 0x0002 {
        Some(TransformType::Rechunk)
    } else if v == 0x0003 {
        Some(TransformType::Recompress)
    } else if v == 0x0004 {
        Some(TransformType::Concatenate)
    } else if v == 0x0005 {
        Some(TransformType::SubrangeExtract)
    } else if v == 0x0006 {
        Some(TransformType::Encrypt)
    } else if v == 0x0007 {
        Some(TransformType::Decrypt)
    } else if v == 0x0008 {
        Some(TransformType::Custom)
    } else {
        None
    }
}

impl TransformType {
    pub fn from_u16(v: u16) -> (r: Option<Self>)
        ensures
            r == transform_from_code(v),
    {
        match v {
            0x0000 => Some(TransformType::Unspecified),
            0x0001 => Some(TransformType::Truncation),
            0x0002 => Some(TransformType::Rechunk),
            0x0003 => Some(TransformType::Recompress),
            0x0004 => Some(TransformType::Concatenate),
            0x0005 => Some(TransformType::SubrangeExtract),
            0x0006 => Some(TransformType::Encrypt),
            0x0007 => Some(TransformType::Decrypt),
            0x0008 => Some(TransformType::Custom),
            _ => None,
        }
    }

    /// The wire code of this transform type.
    pub fn code(self) -> (r: u16)
        ensures
            r == transform_code(self),
    {
        match self {
            TransformType::Unspecified => 0x0000,
            TransformType::Truncation => 0x0001,
            TransformType::Rechunk => 0x0002,
            TransformType::Recompress => 0x0003,
            TransformType::Concatenate => 0x0004,
            TransformType::SubrangeExtract => 0x0005,
            TransformType::Encrypt => 0x0006,
            TransformType::Decrypt => 0x0007,
            TransformType::Custom => 0x0008,
        }
    }
}

/// Signature algorithm IDs.
#[derive(Debug, Clone, Copy, PartialEq, Eq, Structural)]
pub enum SigAlgorithm {
    EcdsaP256Sha256,
    Ed25519,
}

/// The wire ID of a signature algorithm.
pub open spec fn sig_alg_id(a: SigAlgorithm) -> u8 {
    match a {
        SigAlgorithm::EcdsaP256Sha256 => 0x01,
        SigAlgorithm::Ed25519 => 0x02,
    }
}

/// The signature algorithm an ID names, if any.
pub open spec fn sig_alg_from_id(v: u8) -> Option<SigAlgorithm> {
    if v == 0x01 {
        Some(SigAlgorithm::EcdsaP256Sha256)
    } else if v == 0x02 {
        Some(SigAlgorithm::Ed25519)
    } else {
        None
    }
}

impl SigAlgorithm {
    pub fn from_u8(v: u8) -> (r: Option<Self>)
        ensures
            r == sig_alg_from_id(v),
    {
        match v {
            0x01 => Some(SigAlgorithm::EcdsaP256Sha256),
            0x02 => Some(SigAlgorithm::Ed25519),
            _ => None,
        }
    }

    /// The wire ID of this algorithm.
    pub fn id(self) -> (r: u8)
        ensures
            r == sig_alg_id(self),
    {
        match self {
            SigAlgorithm::EcdsaP256Sha256 => 0x01,
            SigAlgorithm::Ed25519 => 0x02,
        }
    }
}

/// A transform receipt.
#[derive(Debug, Clone)]
pub struct Receipt {
    pub receipt_version: u16,
    pub sig_alg: SigAlgorithm,
    pub source_root: [u8; 32],
    pub source_merkle_root: [u8; 32],
    pub derived_root: [u8; 32],
    pub derived_merkle_root: [u8; 32],
    pub timestamp: u64,
    pub transform_type: TransformType,
    pub transform_desc: Vec<u8>,
    pub signer_id: Vec<u8>,
    pub sig_bytes: Vec<u8>,
}

/// A receipt as plain values.
#[verifier::ext_equal]
pub struct ReceiptView {
    pub receipt_version: u16,
    pub sig_alg: SigAlgorithm,
    pub source_root: [u8; 32],
    pub source_merkle_root: [u8; 32],
    pub derived_root: [u8; 32],
    pub derived_merkle_root: [u8; 32],
    pub timestamp: u64,
    pub transform_type: TransformType,
    pub transform_desc: Seq<u8>,
    pub signer_id: Seq<u8>,
    pub sig_bytes: Seq<u8>,
}

impl View for Receipt {
    type V = ReceiptView;

    open spec fn view(&self) -> ReceiptView {
        ReceiptView {
            receipt_version: self.receipt_version,
            sig_alg: self.sig_alg,
            source_root: self.source_root,
            source_merkle_root: self.source_merkle_root,
            derived_root: self.derived_root,
            derived_merkle_root: self.derived_merkle_root,
            timestamp: self.timestamp,
            transform_type: self.transform_type,
            transform_desc: self.transform_desc@,
            signer_id: self.signer_id@,
            sig_bytes: self.sig_bytes@,
        }
    }
}

/// The signed body of a receipt: everything before the signature length.
/// Lengths are written as u16 LE, cut to 16 bits.
pub open spec fn spec_body_bytes(r: ReceiptView) -> Seq<u8> {
    spec_u16_to_le_bytes(r.receipt_version) + seq![sig_alg_id(r.sig_alg), 0u8] + r.source_root@ + r.source_merkle_root@
        + r.derived_root@ + r.derived_merkle_root@ + spec_u64_to_le_bytes(r.timestamp)
        + spec_u16_to_le_bytes(transform_code(r.transform_type)) + spec_u16_to_le_bytes(trunc16(r.transform_desc.len() as int))
        + r.transform_desc + spec_u16_to_le_bytes(trunc16(r.signer_id.len() as int)) + r.signer_id
}

/// The wire bytes of a receipt: the body, then the signature with its
/// length.
pub open spec fn spec_receipt_bytes(r: ReceiptView) -> Seq<u8> {
    spec_body_bytes(r) + spec_u16_to_le_bytes(trunc16(r.sig_bytes.len() as int)) + r.sig_bytes
}

/// The receipt body hash: H("CBC-v1-receipt" || body).
pub open spec fn spec_body_hash(r: ReceiptView, suite: HashSuite) -> [u8; 32] {
    digest(suite, tag_receipt() + spec_body_bytes(r))
}

/// A receipt's body hash is the hash of exactly the receipt tag and the
/// body bytes; two receipts with different bodies are hashed from two
/// different inputs.
pub proof fn lemma_body_hash_input(r1: ReceiptView, r2: ReceiptView, suite: HashSuite)
    ensures
        spec_body_hash(r1, suite) == digest(suite, tag_receipt() + spec_body_bytes(r1)),
        spec_body_bytes(r1) != spec_body_bytes(r2)
            ==> tag_receipt() + spec_body_bytes(r1) != tag_receipt() + spec_body_bytes(r2),
{
    let t = tag_receipt();
    assert((t + spec_body_bytes(r1)).skip(t.len() as int) =~= spec_body_bytes(r1));
    assert((t + spec_body_bytes(r2)).skip(t.len() as int) =~= spec_body_bytes(r2));
}

/// The 32-byte array with the given bytes.
pub open spec fn arr32(s: Seq<u8>) -> [u8; 32] {
    crate::bootstrap::seq_to_array::<32>(s)
}

/// The u16 LE value at `off`.
pub open spec fn u16_at(d: Seq<u8>, off: int) -> u16 {
    spec_u16_from_le_bytes(d.subrange(off, off + 2))
}

/// What decoding receipt bytes yields: the receipt, or the first failed
/// check.
pub open spec fn spec_decode_receipt(d: Seq<u8>) -> core::result::Result<ReceiptView, TransformError> {
    if d.len() < 144 {
        Err(invalid_transform())
    } else if sig_alg_from_id(d[2]) is None {
        Err(invalid_transform())
    } else if transform_from_code(u16_at(d, 140)) is None {
        Err(invalid_transform())
    } else {
        let dl = u16_at(d, 142) as int;
        if 144 + dl > d.len() {
            Err(invalid_transform())
        } else if 144 + dl + 2 > d.len() {
            Err(invalid_transform())
        } else {
            let sl = u16_at(d, 144 + dl) as int;
            let so = 146 + dl;
            if so + sl > d.len() {
                Err(invalid_transform())
            } else if so + sl + 2 > d.len() {
                Err(invalid_transform())
            } else {
                let gl = u16_at(d, so + sl) as int;
                let go = so + sl + 2;
                if go + gl > d.len() {
                    Err(invalid_transform())
                } else {
                    Ok(ReceiptView {
                        receipt_version: u16_at(d, 0),
                        sig_alg: sig_alg_from_id(d[2])->0,
                        source_root: arr32(d.subrange(4, 36)),
                        source_merkle_root: arr32(d.subrange(36, 68)),
                        derived_root: arr32(d.subrange(68, 100)),
                        derived_merkle_root: arr32(d.subrange(100, 132)),
                        timestamp: spec_u64_from_le_bytes(d.subrange(132, 140)),
                        transform_type: transform_from_code(u16_at(d, 140))->0,
                        transform_desc: d.subrange(144, 144 + dl),
                        signer_id: d.subrange(so, so + sl),
                        sig_bytes: d.subrange(go, go + gl),
                    })
                }
            }
        }
    }
}

/// Decoding the bytes of a receipt gives it back, when its descriptor,
/// signer ID and signature are each shorter than 2^16 bytes.
pub proof fn lemma_receipt_roundtrip(r: ReceiptView)
    requires
        r.transform_desc.len() < 0x1_0000,
        r.signer_id.len() < 0x1_0000,
        r.sig_bytes.len() < 0x1_0000,
    ensures
        spec_decode_receipt(spec_receipt_bytes(r)) == Ok::<ReceiptView, TransformError>(r),
{
    broadcast use vstd::array::group_array_axioms;
    lemma_auto_spec_u16_to_from_le_bytes();
    lemma_auto_spec_u64_to_from_le_bytes();
    let d = spec_receipt_bytes(r);
    let dl = r.transform_desc.len() as int;
    let sl = r.signer_id.len() as int;
    let gl = r.sig_bytes.len() as int;
    assert(d.subrange(0, 2) =~= spec_u16_to_le_bytes(r.receipt_version));
    assert(d[2] == sig_alg_id(r.sig_alg));
    assert(d.subrange(4, 36) =~= r.source_root@);
    assert(d.subrange(36, 68) =~= r.source_merkle_root@);
    assert(d.subrange(68, 100) =~= r.derived_root@);
    assert(d.subrange(100, 132) =~= r.derived_merkle_root@);
    assert(d.subrange(132, 140) =~= spec_u64_to_le_bytes(r.timestamp));
    assert(d.subrange(140, 142) =~= spec_u16_to_le_bytes(transform_code(r.transform_type)));
    assert(d.subrange(142, 144) =~= spec_u16_to_le_bytes(trunc16(dl)));
    assert(d.subrange(144, 144 + dl) =~= r.transform_desc);
    assert(d.subrange(144 + dl, 146 + dl) =~= spec_u16_to_le_bytes(trunc16(sl)));
    assert(d.subrange(146 + dl, 146 + dl + sl) =~= r.signer_id);
    assert(d.subrange(146 + dl + sl, 148 + dl + sl) =~= spec_u16_to_le_bytes(trunc16(gl)));
    assert(d.subrange(148 + dl + sl, 148 + dl + sl + gl) =~= r.sig_bytes);
    crate::bootstrap::lemma_seq_to_array(r.source_root);
    crate::bootstrap::lemma_seq_to_array(r.source_merkle_root);
    crate::bootstrap::lemma_seq_to_array(r.derived_root);
    crate::bootstrap::lemma_seq_to_array(r.derived_merkle_root);
    assert(sig_alg_from_id(sig_alg_id(r.sig_alg)) == Some(r.sig_alg));
    assert(transform_from_code(transform_code(r.transform_type)) == Some(r.transform_type));
    assert(spec_decode_receipt(d) matches Ok(v) && v =~= r);
}

/// Append the bytes of an array.
fn push_array(buf: &mut Vec<u8>, a: &[u8; 32])
    ensures
        final(buf)@ == old(buf)@ + a@,
{
    append_bytes(buf, a.as_slice());
}

/// The message for an unknown signature algorithm ID.
fn unknown_alg_message(v: u8) -> (r: String)
    ensures
        r@ == "unknown sig algorithm: 0x"@ + spec_hex_width(v as nat, 2),
{
    String::from_str("unknown sig algorithm: 0x").concat(hex_width(v as u64, 2).as_str())
}

/// The message for an unknown transform type code.
fn unknown_type_message(v: u16) -> (r: String)
    ensures
        r@ == "unknown transform type: 0x"@ + spec_hex_width(v as nat, 4),
{
    String::from_str("unknown transform type: 0x").concat(hex_width(v as u64, 4).as_str())
}

/// Copy 32 bytes into an array.
fn array_at(d: &[u8], off: usize) -> (r: [u8; 32])
    requires
        off + 32 <= d.len(),
    ensures
        r == arr32(d@.subrange(off as int, off + 32)),
{
    let mut a = [0u8; 32];
    crate::bytes::fill_array(&mut a, slice_subrange(d, off, off + 32));
    proof { crate::bootstrap::lemma_seq_to_array(a); }
    a
}

/// The u16 LE value at `off`.
fn read_u16(d: &[u8], off: usize) -> (r: u16)
    requires
        off + 2 <= d.len(),
    ensures
        r == u16_at(d@, off as int),
{
    let s = slice_subrange(d, off, off + 2);
    proof { assert(s@ =~= d@.subrange(off as int, off + 2)); }
    u16_from_le_bytes(s)
}

impl Receipt {
    /// Encode receipt to bytes.
    pub fn encode(&self) -> (r: Vec<u8>)
        ensures
            r@ == spec_receipt_bytes(self@),
    {
        let mut buf = self.body_bytes();
        push_u16_le(&mut buf, low16(self.sig_bytes.len()));
        append_bytes(&mut buf, self.sig_bytes.as_slice());
        buf
    }

    /// The receipt body bytes (everything before the signature length),
    /// which are signed and verified.
    pub fn body_bytes(&self) -> (r: Vec<u8>)
        ensures
            r@ == spec_body_bytes(self@),
    {
        let mut buf: Vec<u8> = Vec::new();
        push_u16_le(&mut buf, self.receipt_version);
        buf.push(self.sig_alg.id());
        buf.push(0x00);
        push_array(&mut buf, &self.source_root);
        push_array(&mut buf, &self.source_merkle_root);
        push_array(&mut buf, &self.derived_root);
        push_array(&mut buf, &self.derived_merkle_root);
        let ts = u64_to_le_bytes(self.timestamp);
        append_bytes(&mut buf, ts.as_slice());
        push_u16_le(&mut buf, self.transform_type.code());
        push_u16_le(&mut buf, low16(self.transform_desc.len()));
        append_bytes(&mut buf, self.transform_desc.as_slice());
        push_u16_le(&mut buf, low16(self.signer_id.len()));
        append_bytes(&mut buf, self.signer_id.as_slice());
        proof { assert(buf@ =~= spec_body_bytes(self@)); }
        buf
    }

    /// The receipt body hash under the artifact's hash suite.
    pub fn body_hash(&self, suite: HashSuite) -> (r: [u8; 32])
        ensures
            r == spec_body_hash(self@, suite),
            r == digest(suite, tag_receipt() + spec_body_bytes(self@)),
    {
        let mut buf = tag_receipt_bytes();
        let body = self.body_bytes();
        append_bytes(&mut buf, body.as_slice());
        suite.hash_bytes(buf.as_slice())
    }

    /// Decode a receipt from bytes.
    pub fn decode(data: &[u8]) -> (r: Result<Self>)
        ensures
            match (r, spec_decode_receipt(data@)) {
                (Ok(x), Ok(v)) => x@ == v,
                (Err(e), Err(d)) => same_transform_error(e, d),
                _ => false,
            },
    {
        if data.len() < 144 {
            return Err(TransformError::InvalidTransform("receipt too short".to_owned()));
        }
        let receipt_version = read_u16(data, 0);
        let sig_alg = match SigAlgorithm::from_u8(data[2]) {
            Some(a) => a,
            None => {
                return Err(TransformError::InvalidTransform(unknown_alg_message(data[2])));
            },
        };
        let source_root = array_at(data, 4);
        let source_merkle_root = array_at(data, 36);
        let derived_root = array_at(data, 68);
        let derived_merkle_root = array_at(data, 100);
        let ts_bytes = slice_subrange(data, 132, 140);
        proof { assert(ts_bytes@ =~= data@.subrange(132, 140)); }
        let timestamp = u64_from_le_bytes(ts_bytes);
        let raw_type = read_u16(data, 140);
        let transform_type = match TransformType::from_u16(raw_type) {
            Some(t) => t,
            None => {
                return Err(TransformError::InvalidTransform(unknown_type_message(raw_type)));
            },
        };
        let dl = read_u16(data, 142) as usize;
        let mut offset: usize = 144;
        if dl > data.len() - offset {
            return Err(TransformError::InvalidTransform("transform descriptor truncated".to_owned()));
        }
        let transform_desc = crate::bytes::copy_range(data, offset, offset + dl);
        offset = offset + dl;
        if 2 > data.len() - offset {
            return Err(TransformError::InvalidTransform("signer_id length truncated".to_owned()));
        }
        let sl = read_u16(data, offset) as usize;
        offset = offset + 2;
        if sl > data.len() - offset {
            return Err(TransformError::InvalidTransform("signer_id truncated".to_owned()));
        }
        let signer_id = crate::bytes::copy_range(data, offset, offset + sl);
        offset = offset + sl;
        if 2 > data.len() - offset {
            return Err(TransformError::InvalidTransform("sig_len truncated".to_owned()));
        }
        let gl = read_u16(data, offset) as usize;
        offset = offset + 2;
        if gl > data.len() - offset {
            return Err(TransformError::InvalidTransform("signature truncated".to_owned()));
        }
        let sig_bytes = crate::bytes::copy_range(data, offset, offset + gl);
        let r = Receipt {
            receipt_version,
            sig_alg,
            source_root,
            source_merkle_root,
            derived_root,
            derived_merkle_root,
            timestamp,
            transform_type,
            transform_desc,
            signer_id,
            sig_bytes,
        };
        proof {
            let v = spec_decode_receipt(data@);
            assert(v matches Ok(x) && r@ =~= x);
        }
        Ok(r)
    }
}

/// Whether `p256::ecdsa::SigningKey::from_bytes` accepts the 32 secret
/// bytes (a nonzero scalar below the group order).
pub uninterp spec fn p256_secret_ok(secret: Seq<u8>) -> bool;

/// The uncompressed SEC1 encoding of the P-256 public key of a secret.
pub uninterp spec fn p256_public(secret: Seq<u8>) -> Seq<u8>;

/// The DER-encoded ECDSA P-256/SHA-256 signature (RFC 6979,
/// deterministic) of `msg` under a secret.
pub uninterp spec fn p256_signature(secret: Seq<u8>, msg: Seq<u8>) -> Seq<u8>;

/// Whether a SEC1 public key and a DER signature verify `msg` under
/// ECDSA P-256/SHA-256.
pub uninterp spec fn p256_verifies(public_key: Seq<u8>, msg: Seq<u8>, sig: Seq<u8>) -> bool;

/// The 32-byte Ed25519 public key of a secret.
pub uninterp spec fn ed25519_public(secret: Seq<u8>) -> Seq<u8>;

/// The 64-byte Ed25519 signature of `msg` under a secret.
pub uninterp spec fn ed25519_signature(secret: Seq<u8>, msg: Seq<u8>) -> Seq<u8>;

/// Whether a 32-byte Ed25519 public key and a 64-byte signature verify
/// `msg`.
pub uninterp spec fn ed25519_verifies(public_key: Seq<u8>, msg: Seq<u8>, sig: Seq<u8>) -> bool;

/// Calls `p256::ecdsa::SigningKey::from_bytes` and reports whether it
/// accepts the secret.
#[verifier::external_body]
fn p256_key_check(secret: &[u8; 32]) -> (r: bool)
    ensures
        r == p256_secret_ok(secret@),
{
    p256::ecdsa::SigningKey::from_bytes(&(*secret).into()).is_ok()
}

/// Calls `p256::ecdsa::SigningKey::from_bytes`, then `verifying_key` and
/// `to_encoded_point(false)`: the public key of an accepted secret.
#[verifier::external_body]
fn p256_public_key(secret: &[u8; 32]) -> (r: Vec<u8>)
    requires
        p256_secret_ok(secret@),
    ensures
        r@ == p256_public(secret@),
{
    match p256::ecdsa::SigningKey::from_bytes(&(*secret).into()) {
        Ok(k) => k.verifying_key().to_encoded_point(false).as_bytes().to_vec(),
        Err(_) => Vec::new(),
    }
}

/// Calls `<p256::ecdsa::SigningKey as Signer<Signature>>::sign` and
/// `to_der`. The signature is deterministic, and verifies `msg` under the
/// secret's public key.
#[verifier::external_body]
fn p256_sign(secret: &[u8; 32], msg: &[u8]) -> (r: Vec<u8>)
    requires
        p256_secret_ok(secret@),
    ensures
        r@ == p256_signature(secret@, msg@),
        p256_verifies(p256_public(secret@), msg@, r@),
{
    match p256::ecdsa::SigningKey::from_bytes(&(*secret).into()) {
        Ok(k) => {
            let sig: p256::ecdsa::Signature = p256::ecdsa::signature::Signer::sign(&k, msg);
            sig.to_der().as_bytes().to_vec()
        },
        Err(_) => Vec::new(),
    }
}

/// Calls `p256::EncodedPoint::from_bytes`,
/// `p256::ecdsa::VerifyingKey::from_encoded_point`,
/// `p256::ecdsa::Signature::from_der` and `Verifier::verify`: success
/// exactly when all accept. What the message of the error string says is
/// not stated.
#[verifier::external_body]
fn p256_verify(public_key: &[u8], msg: &[u8], sig: &[u8]) -> (r: core::result::Result<(), String>)
    ensures
        r is Ok == p256_verifies(public_key@, msg@, sig@),
{
    let point = match p256::EncodedPoint::from_bytes(public_key) { Ok(p) => p, Err(e) => return Err(e.to_string()) };
    let key = match p256::ecdsa::VerifyingKey::from_encoded_point(&point) { Ok(k) => k, Err(e) => return Err(e.to_string()) };
    let signature = match p256::ecdsa::Signature::from_der(sig) { Ok(s) => s, Err(e) => return Err(e.to_string()) };
    match p256::ecdsa::signature::Verifier::verify(&key, msg, &signature) {
        Ok(()) => Ok(()),
        Err(e) => Err(e.to_string()),
    }
}

/// Calls `ed25519_dalek::SigningKey::from_bytes`, `verifying_key` and
/// `to_bytes`: the public key of a secret.
#[verifier::external_body]
fn ed25519_public_key(secret: &[u8; 32]) -> (r: [u8; 32])
    ensures
        r@ == ed25519_public(secret@),
{
    ed25519_dalek::SigningKey::from_bytes(secret).verifying_key().to_bytes()
}

/// Calls `<ed25519_dalek::SigningKey as Signer>::sign` and `to_bytes`. The
/// signature is deterministic, and verifies `msg` under the secret's
/// public key.
#[verifier::external_body]
fn ed25519_sign(secret: &[u8; 32], msg: &[u8]) -> (r: [u8; 64])
    ensures
        r@ == ed25519_signature(secret@, msg@),
        ed25519_verifies(ed25519_public(secret@), msg@, r@),
{
    ed25519_dalek::Signer::sign(&ed25519_dalek::SigningKey::from_bytes(secret), msg).to_bytes()
}

/// Calls `ed25519_dalek::VerifyingKey::from_bytes` and
/// `Verifier::verify`: success exactly when both accept. What the message
/// of the error string says is not stated.
#[verifier::external_body]
fn ed25519_verify(public_key: &[u8; 32], msg: &[u8], sig: &[u8; 64]) -> (r: core::result::Result<(), String>)
    ensures
        r is Ok == ed25519_verifies(public_key@, msg@, sig@),
{
    let key = match ed25519_dalek::VerifyingKey::from_bytes(public_key) {
        Ok(k) => k,
        Err(e) => return Err(e.to_string()),
    };
    match ed25519_dalek::Verifier::verify(&key, msg, &ed25519_dalek::Signature::from_bytes(sig)) {
        Ok(()) => Ok(()),
        Err(e) => Err(e.to_string()),
    }
}

/// Calls `ed25519_dalek::SigningKey::generate` with the operating
/// system's random source: fresh secret bytes.
#[verifier::external_body]
fn random_ed25519_secret() -> (r: [u8; 32]) {
    ed25519_dalek::SigningKey::generate(&mut rand::rngs::OsRng).to_bytes()
}

/// Calls `p256::ecdsa::SigningKey::random` with the operating system's
/// random source: fresh secret bytes of a valid key.
#[verifier::external_body]
fn random_p256_secret() -> (r: [u8; 32])
    ensures
        p256_secret_ok(r@),
{
    p256::ecdsa::SigningKey::random(&mut rand::rngs::OsRng).to_bytes().into()
}

/// An ECDSA P-256 secret key.
#[derive(Debug, Clone, Copy)]
pub struct EcdsaKey {
    secret: [u8; 32],
}

impl EcdsaKey {
    /// The secret is one P-256 accepts.
    #[verifier::type_invariant]
    spec fn accepted(&self) -> bool {
        p256_secret_ok(self.secret@)
    }

    /// The secret bytes.
    pub closed spec fn secret(&self) -> Seq<u8> {
        self.secret@
    }

    /// The key with the 32 secret bytes, when P-256 accepts them.
    pub fn from_bytes(bytes: &[u8]) -> (r: Option<Self>)
        ensures
            r is Some <==> bytes@.len() == 32 && p256_secret_ok(bytes@),
            r matches Some(k) ==> k.secret() == bytes@,
    {
        if bytes.len() != 32 {
            return None;
        }
        let mut secret = [0u8; 32];
        crate::bytes::fill_array(&mut secret, bytes);
        if p256_key_check(&secret) {
            Some(EcdsaKey { secret })
        } else {
            None
        }
    }

    /// The secret bytes.
    pub fn to_bytes(&self) -> (r: [u8; 32])
        ensures
            r@ == self.secret(),
            p256_secret_ok(r@),
    {
        proof { use_type_invariant(self); }
        self.secret
    }
}

/// Signing key.
#[derive(Debug, Clone, Copy)]
pub enum SigningKey {
    EcdsaP256(EcdsaKey),
    Ed25519([u8; 32]),
}

/// The algorithm of a key.
pub open spec fn spec_key_alg(k: SigningKey) -> SigAlgorithm {
    match k {
        SigningKey::EcdsaP256(_) => SigAlgorithm::EcdsaP256Sha256,
        SigningKey::Ed25519(_) => SigAlgorithm::Ed25519,
    }
}

/// The public key bytes of a key.
pub open spec fn spec_public_key(k: SigningKey) -> Seq<u8> {
    match k {
        SigningKey::EcdsaP256(e) => p256_public(e.secret()),
        SigningKey::Ed25519(s) => ed25519_public(s@),
    }
}

/// The signature a key makes of `msg`.
pub open spec fn spec_sign(k: SigningKey, msg: Seq<u8>) -> Seq<u8> {
    match k {
        SigningKey::EcdsaP256(e) => p256_signature(e.secret(), msg),
        SigningKey::Ed25519(s) => ed25519_signature(s@, msg),
    }
}

impl SigningKey {
    /// Get the public key bytes for this signing key.
    pub fn public_key_bytes(&self) -> (r: Vec<u8>)
        ensures
            r@ == spec_public_key(*self),
            self is Ed25519 ==> r@.len() == 32,
    {
        match self {
            SigningKey::EcdsaP256(k) => {
                let secret = k.to_bytes();
                p256_public_key(&secret)
            },
            SigningKey::Ed25519(s) => {
                let p = ed25519_public_key(s);
                let mut v: Vec<u8> = Vec::new();
                append_bytes(&mut v, p.as_slice());
                v
            },
        }
    }

    /// Sign a body hash, returning the signature bytes.
    pub fn sign_hash(&self, body_hash: &[u8; 32]) -> (r: Result<Vec<u8>>)
        ensures
            r matches Ok(v) && v@ == spec_sign(*self, body_hash@),
            r matches Ok(v) ==> match *self {
                SigningKey::EcdsaP256(e) => p256_verifies(p256_public(e.secret()), body_hash@, v@),
                SigningKey::Ed25519(s) => v@.len() == 64 && ed25519_verifies(ed25519_public(s@), body_hash@, v@),
            },
    {
        match self {
            SigningKey::EcdsaP256(k) => {
                let secret = k.to_bytes();
                Ok(p256_sign(&secret, body_hash.as_slice()))
            },
            SigningKey::Ed25519(s) => {
                let sig = ed25519_sign(s, body_hash.as_slice());
                let mut v: Vec<u8> = Vec::new();
                append_bytes(&mut v, sig.as_slice());
                Ok(v)
            },
        }
    }

    /// Get the signature algorithm.
    pub fn algorithm(&self) -> (r: SigAlgorithm)
        ensures
            r == spec_key_alg(*self),
    {
        match self {
            SigningKey::EcdsaP256(_) => SigAlgorithm::EcdsaP256Sha256,
            SigningKey::Ed25519(_) => SigAlgorithm::Ed25519,
        }
    }
}

/// The receipt a key makes for a transform: version 1, the key's
/// algorithm and public key as signer ID, signed over its body hash.
pub open spec fn spec_created_receipt(
    source_root: [u8; 32],
    source_merkle_root: [u8; 32],
    derived_root: [u8; 32],
    derived_merkle_root: [u8; 32],
    transform_type: TransformType,
    transform_desc: Seq<u8>,
    timestamp: u64,
    key: SigningKey,
    suite: HashSuite,
) -> ReceiptView {
    let unsigned = ReceiptView {
        receipt_version: 0x0001,
        sig_alg: spec_key_alg(key),
        source_root,
        source_merkle_root,
        derived_root,
        derived_merkle_root,
        timestamp,
        transform_type,
        transform_desc,
        signer_id: spec_public_key(key),
        sig_bytes: Seq::empty(),
    };
    ReceiptView { sig_bytes: spec_sign(key, spec_body_hash(unsigned, suite)@), ..unsigned }
}

/// What verifying a receipt yields: the signature over its body hash must
/// verify under its signer ID (for Ed25519, a 32-byte key and a 64-byte
/// signature).
pub open spec fn spec_verify_receipt(r: ReceiptView, suite: HashSuite) -> core::result::Result<(), TransformError> {
    let h = spec_body_hash(r, suite)@;
    match r.sig_alg {
        SigAlgorithm::EcdsaP256Sha256 => if p256_verifies(r.signer_id, h, r.sig_bytes) {
            Ok(())
        } else {
            Err(verification_error())
        },
        SigAlgorithm::Ed25519 => if r.signer_id.len() != 32 || r.sig_bytes.len() != 64 {
            Err(verification_error())
        } else if ed25519_verifies(r.signer_id, h, r.sig_bytes) {
            Ok(())
        } else {
            Err(verification_error())
        },
    }
}

/// Create and sign a receipt for a transform. The receipt verifies.
pub fn create_receipt(
    source_root: [u8; 32],
    source_merkle_root: [u8; 32],
    derived_root: [u8; 32],
    derived_merkle_root: [u8; 32],
    transform_type: TransformType,
    transform_desc: Vec<u8>,
    timestamp: u64,
    signing_key: &SigningKey,
    hash_suite: HashSuite,
) -> (r: Result<Receipt>)
    ensures
        r matches Ok(rc) && rc@ == spec_created_receipt(source_root, source_merkle_root, derived_root, derived_merkle_root,
            transform_type, transform_desc@, timestamp, *signing_key, hash_suite),
        r matches Ok(rc) ==> spec_verify_receipt(rc@, hash_suite) is Ok,
{
    let sig_alg = signing_key.algorithm();
    let pub_bytes = signing_key.public_key_bytes();
    let mut receipt = Receipt {
        receipt_version: 0x0001,
        sig_alg,
        source_root,
        source_merkle_root,
        derived_root,
        derived_merkle_root,
        timestamp,
        transform_type,
        transform_desc,
        signer_id: pub_bytes,
        sig_bytes: Vec::new(),
    };
    let ghost unsigned = receipt@;
    let body_hash = receipt.body_hash(hash_suite);
    let sig_bytes = match signing_key.sign_hash(&body_hash) {
        Ok(s) => s,
        Err(e) => {
            return Err(e);
        },
    };
    receipt.sig_bytes = sig_bytes;
    proof {
        assert(spec_body_bytes(receipt@) =~= spec_body_bytes(unsigned));
        assert(receipt@ =~= spec_created_receipt(source_root, source_merkle_root, derived_root, derived_merkle_root,
            transform_type, unsigned.transform_desc, timestamp, *signing_key, hash_suite));
    }
    Ok(receipt)
}

/// A version-1 receipt with the given fields and signer, not yet signed
/// (for a signature made elsewhere, such as by a key management system,
/// over its body hash).
pub fn unsigned_receipt(
    source_root: [u8; 32],
    source_merkle_root: [u8; 32],
    derived_root: [u8; 32],
    derived_merkle_root: [u8; 32],
    transform_type: TransformType,
    transform_desc: Vec<u8>,
    timestamp: u64,
    signer_public_key: Vec<u8>,
    sig_alg: SigAlgorithm,
) -> (r: Receipt)
    ensures
        r@ == (ReceiptView {
            receipt_version: 0x0001,
            sig_alg,
            source_root,
            source_merkle_root,
            derived_root,
            derived_merkle_root,
            timestamp,
            transform_type,
            transform_desc: transform_desc@,
            signer_id: signer_public_key@,
            sig_bytes: Seq::empty(),
        }),
{
    Receipt {
        receipt_version: 0x0001,
        sig_alg,
        source_root,
        source_merkle_root,
        derived_root,
        derived_merkle_root,
        timestamp,
        transform_type,
        transform_desc,
        signer_id: signer_public_key,
        sig_bytes: Vec::new(),
    }
}

impl Receipt {
    /// The receipt with its signature set; its body, and so its body hash,
    /// is unchanged.
    pub fn with_signature(self, sig_bytes: Vec<u8>) -> (r: Receipt)
        ensures
            r@ == (ReceiptView { sig_bytes: sig_bytes@, ..self@ }),
            spec_body_bytes(r@) == spec_body_bytes(self@),
    {
        let mut r = self;
        r.sig_bytes = sig_bytes;
        proof { assert(spec_body_bytes(r@) =~= spec_body_bytes(self@)); }
        r
    }
}

/// A receipt whose signature a key management system made: the receipt
/// with the given fields is built unsigned, its body hash under
/// `hash_suite` goes to the signer with `key_id`, and what comes back is
/// its signature. A refusal of the signer is a signing error.
pub fn create_kms_receipt<S: KmsSigner>(
    source_root: [u8; 32],
    source_merkle_root: [u8; 32],
    derived_root: [u8; 32],
    derived_merkle_root: [u8; 32],
    transform_type: TransformType,
    transform_desc: Vec<u8>,
    timestamp: u64,
    kms_signer: &S,
    key_id: &str,
    signer_public_key: Vec<u8>,
    sig_alg: SigAlgorithm,
    hash_suite: HashSuite,
) -> (r: Result<Receipt>)
    ensures
        match r {
            Ok(receipt) => receipt@ == (ReceiptView {
                receipt_version: 0x0001,
                sig_alg,
                source_root,
                source_merkle_root,
                derived_root,
                derived_merkle_root,
                timestamp,
                transform_type,
                transform_desc: transform_desc@,
                signer_id: signer_public_key@,
                sig_bytes: receipt@.sig_bytes,
            }),
            Err(e) => e is SigningError,
        },
{
    let receipt = unsigned_receipt(
        source_root,
        source_merkle_root,
        derived_root,
        derived_merkle_root,
        transform_type,
        transform_desc,
        timestamp,
        signer_public_key,
        sig_alg,
    );
    let body_hash = receipt.body_hash(hash_suite);
    match kms_signer.sign(key_id, body_hash.as_slice()) {
        Ok(sig) => Ok(receipt.with_signature(sig)),
        Err(e) => {
            let text = String::from_str("KMS sign failed: ").concat(e.message().as_str());
            Err(TransformError::SigningError(text))
        },
    }
}

/// Verify a receipt's signature.
pub fn verify_receipt(receipt: &Receipt, hash_suite: HashSuite) -> (r: Result<()>)
    ensures
        match (r, spec_verify_receipt(receipt@, hash_suite)) {
            (Ok(()), Ok(())) => true,
            (Err(e), Err(d)) => same_transform_error(e, d),
            _ => false,
        },
{
    let body_hash = receipt.body_hash(hash_suite);
    match receipt.sig_alg {
        SigAlgorithm::EcdsaP256Sha256 => {
            match p256_verify(receipt.signer_id.as_slice(), body_hash.as_slice(), receipt.sig_bytes.as_slice()) {
                Ok(()) => Ok(()),
                Err(s) => Err(TransformError::VerificationError(s)),
            }
        },
        SigAlgorithm::Ed25519 => {
            if receipt.signer_id.len() != 32 {
                return Err(TransformError::VerificationError("invalid Ed25519 public key length".to_owned()));
            }
            if receipt.sig_bytes.len() != 64 {
                return Err(TransformError::VerificationError("invalid Ed25519 signature length".to_owned()));
            }
            let mut pk = [0u8; 32];
            crate::bytes::fill_array(&mut pk, receipt.signer_id.as_slice());
            let mut sig = [0u8; 64];
            crate::bytes::fill_array(&mut sig, receipt.sig_bytes.as_slice());
            match ed25519_verify(&pk, body_hash.as_slice(), &sig) {
                Ok(()) => Ok(()),
                Err(s) => Err(TransformError::VerificationError(s)),
            }
        },
    }
}

/// Generate an Ed25519 signing key.
pub fn generate_ed25519_key() -> (k: SigningKey)
    ensures
        k is Ed25519,
{
    SigningKey::Ed25519(random_ed25519_secret())
}

/// Generate an ECDSA P-256 signing key.
pub fn generate_ecdsa_key() -> (k: SigningKey)
    ensures
        k is EcdsaP256,
{
    SigningKey::EcdsaP256(EcdsaKey { secret: random_p256_secret() })
}

} // verus!
