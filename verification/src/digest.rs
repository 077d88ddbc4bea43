//! Digests: SHA-256 and its hexadecimal form.

use sha2::Digest;
use vstd::prelude::*;

verus! {

/// The SHA-256 digest of the UTF-8 bytes of `text`.
pub uninterp spec fn sha256_of_text(text: Seq<char>) -> Seq<u8>;

/// The SHA-256 digest of the UTF-8 bytes of `text`.
///
/// Trusted: calls `sha2::Sha256::digest`, which returns the 32-byte SHA-256
/// digest of its input. The contract names that result, which depends on
/// the text alone, and states its length.
#[verifier::external_body]
pub(crate) fn sha256_text(text: &str) -> (r: Vec<u8>)
    ensures
        r@ == sha256_of_text(text@),
        r@.len() == 32,
{
    sha2::Sha256::digest(text.as_bytes()).to_vec()
}

/// The SHA-256 digest of `bytes`.
pub uninterp spec fn sha256_of_bytes(bytes: Seq<u8>) -> Seq<u8>;

/// The SHA-256 digest of `bytes`.
///
/// Trusted: calls `sha2::Sha256::digest`, which returns the 32-byte SHA-256
/// digest of its input. The contract names that result, which depends on
/// the bytes alone, and states its length.
#[verifier::external_body]
pub(crate) fn sha256_bytes(bytes: &[u8]) -> (r: Vec<u8>)
    ensures
        r@ == sha256_of_bytes(bytes@),
        r@.len() == 32,
{
    sha2::Sha256::digest(bytes).to_vec()
}

/// The lower-case hexadecimal digit for `n` (below 16).
pub open spec fn hex_digit(n: int) -> char {
    if n < 10 {
        (('0' as int) + n) as char
    } else {
        (('a' as int) + n - 10) as char
    }
}

/// The bytes of `b` as lower-case hexadecimal, two digits per byte, high
/// half first.
pub open spec fn hex_text(b: Seq<u8>) -> Seq<char>
    decreases b.len(),
{
    if b.len() == 0 {
        Seq::empty()
    } else {
        hex_text(b.drop_last()) + seq![hex_digit((b.last() / 16) as int), hex_digit((b.last() % 16) as int)]
    }
}

/// The bytes as lower-case hexadecimal text.
///
/// Trusted: calls `hex::encode`, which writes each byte as two lower-case
/// hexadecimal digits, high half first, in order (its source maps each half
/// through the table `0123456789abcdef`).
#[verifier::external_body]
pub(crate) fn hex_encode(bytes: &[u8]) -> (r: String)
    ensures
        r@ == hex_text(bytes@),
{
    hex::encode(bytes)
}

/// The hexadecimal SHA-256 digest of `content`, as a package file's
/// digest is recorded.
pub fn content_digest(content: &[u8]) -> (r: String)
    ensures
        r@ == hex_text(sha256_of_bytes(content@)),
{
    let digest = sha256_bytes(content);
    hex_encode(digest.as_slice())
}

} // verus!
