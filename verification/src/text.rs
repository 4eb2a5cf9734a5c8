//! Text forms of values shown to people: lowercase hex and the names of
//! suites, transforms and signature algorithms.
use crate::hash::HashSuite;
use crate::transform::receipt::{SigAlgorithm, TransformType};
use vstd::prelude::*;
use vstd::string::*;

verus! {

/// The lowercase hex digit of a nibble.
pub open spec fn hex_digit(n: int) -> char {
    if n < 10 {
        (48 + n) as char
    } else {
        (87 + n) as char
    }
}

/// Each byte as two lowercase hex digits, high nibble first.
pub open spec fn spec_hex(s: Seq<u8>) -> Seq<char>
    decreases s.len(),
{
    if s.len() == 0 {
        Seq::empty()
    } else {
        spec_hex(s.drop_last()) + seq![hex_digit(s.last() as int / 16), hex_digit(s.last() as int % 16)]
    }
}

/// Calls `hex::encode`: each byte of `bytes`, in order, as two lowercase
/// hex digits, high nibble first (its documentation and source say so).
#[verifier::external_body]
pub(crate) fn hex_string(bytes: &[u8]) -> (r: String)
    ensures
        r@ == spec_hex(bytes@),
{
    hex::encode(bytes)
}

/// The decimal digit of `d` (0 to 9).
pub open spec fn dec_digit(d: int) -> char {
    (48 + d) as char
}

/// `n` in decimal, without leading zeros.
pub open spec fn spec_decimal(n: nat) -> Seq<char>
    decreases n,
{
    if n < 10 {
        seq![dec_digit(n as int)]
    } else {
        spec_decimal(n / 10) + seq![dec_digit(n as int % 10)]
    }
}

/// The low `width` hex digits of `n`, most significant first, zero-filled.
pub open spec fn spec_hex_width(n: nat, width: nat) -> Seq<char>
    decreases width,
{
    if width == 0 {
        Seq::empty()
    } else {
        spec_hex_width(n / 16, (width - 1) as nat) + seq![hex_digit(n as int % 16)]
    }
}

/// The one-character text of a digit value below 16.
fn digit_str(d: u64) -> (r: &'static str)
    requires
        d < 16,
    ensures
        r@ == seq![hex_digit(d as int)],
        d < 10 ==> r@ == seq![dec_digit(d as int)],
{
    proof {
        reveal_strlit("0");
        reveal_strlit("1");
        reveal_strlit("2");
        reveal_strlit("3");
        reveal_strlit("4");
        reveal_strlit("5");
        reveal_strlit("6");
        reveal_strlit("7");
        reveal_strlit("8");
        reveal_strlit("9");
        reveal_strlit("a");
        reveal_strlit("b");
        reveal_strlit("c");
        reveal_strlit("d");
        reveal_strlit("e");
        reveal_strlit("f");
    }
    match d {
        0 => "0",
        1 => "1",
        2 => "2",
        3 => "3",
        4 => "4",
        5 => "5",
        6 => "6",
        7 => "7",
        8 => "8",
        9 => "9",
        10 => "a",
        11 => "b",
        12 => "c",
        13 => "d",
        14 => "e",
        _ => "f",
    }
}

/// `n` in decimal, without leading zeros.
pub fn decimal(n: u64) -> (r: String)
    ensures
        r@ == spec_decimal(n as nat),
    decreases n,
{
    if n < 10 {
        String::from_str(digit_str(n))
    } else {
        let head = decimal(n / 10);
        head.concat(digit_str(n % 10))
    }
}

/// The low `width` hex digits of `n`, most significant first, zero-filled.
pub fn hex_width(n: u64, width: u8) -> (r: String)
    ensures
        r@ == spec_hex_width(n as nat, width as nat),
    decreases width,
{
    if width == 0 {
        String::new()
    } else {
        let head = hex_width(n / 16, width - 1);
        head.concat(digit_str(n % 16))
    }
}

/// The name of a hash suite, as written in reports.
pub open spec fn suite_name(h: HashSuite) -> Seq<char> {
    match h {
        HashSuite::Blake3 => "Blake3"@,
        HashSuite::Sha256 => "Sha256"@,
    }
}

/// The name of a hash suite, as written in reports.
pub fn hash_suite_name(h: HashSuite) -> (r: String)
    ensures
        r@ == suite_name(h),
{
    match h {
        HashSuite::Blake3 => String::from_str("Blake3"),
        HashSuite::Sha256 => String::from_str("Sha256"),
    }
}

/// The lowercase name of a hash suite, as it prefixes a root.
pub open spec fn suite_prefix(h: HashSuite) -> Seq<char> {
    match h {
        HashSuite::Blake3 => "blake3"@,
        HashSuite::Sha256 => "sha256"@,
    }
}

/// The lowercase name of a hash suite, as it prefixes a root.
pub fn hash_suite_prefix(h: HashSuite) -> (r: String)
    ensures
        r@ == suite_prefix(h),
{
    match h {
        HashSuite::Blake3 => String::from_str("blake3"),
        HashSuite::Sha256 => String::from_str("sha256"),
    }
}

/// The name of a transform type, as written in reports.
pub open spec fn transform_type_name(t: TransformType) -> Seq<char> {
    match t {
        TransformType::Unspecified => "Unspecified"@,
        TransformType::Truncation => "Truncation"@,
        TransformType::Rechunk => "Rechunk"@,
        TransformType::Recompress => "Recompress"@,
        TransformType::Concatenate => "Concatenate"@,
        TransformType::SubrangeExtract => "SubrangeExtract"@,
        TransformType::Encrypt => "Encrypt"@,
        TransformType::Decrypt => "Decrypt"@,
        TransformType::Custom => "Custom"@,
    }
}

/// The name of a transform type, as written in reports.
pub fn transform_name(t: TransformType) -> (r: String)
    ensures
        r@ == transform_type_name(t),
{
    match t {
        TransformType::Unspecified => String::from_str("Unspecified"),
        TransformType::Truncation => String::from_str("Truncation"),
        TransformType::Rechunk => String::from_str("Rechunk"),
        TransformType::Recompress => String::from_str("Recompress"),
        TransformType::Concatenate => String::from_str("Concatenate"),
        TransformType::SubrangeExtract => String::from_str("SubrangeExtract"),
        TransformType::Encrypt => String::from_str("Encrypt"),
        TransformType::Decrypt => String::from_str("Decrypt"),
        TransformType::Custom => String::from_str("Custom"),
    }
}

/// The name of a signature algorithm, as written in reports.
pub open spec fn sig_alg_name(a: SigAlgorithm) -> Seq<char> {
    match a {
        SigAlgorithm::EcdsaP256Sha256 => "EcdsaP256Sha256"@,
        SigAlgorithm::Ed25519 => "Ed25519"@,
    }
}

/// The name of a signature algorithm, as written in reports.
pub fn signature_name(a: SigAlgorithm) -> (r: String)
    ensures
        r@ == sig_alg_name(a),
{
    match a {
        SigAlgorithm::EcdsaP256Sha256 => String::from_str("EcdsaP256Sha256"),
        SigAlgorithm::Ed25519 => String::from_str("Ed25519"),
    }
}

} // verus!
