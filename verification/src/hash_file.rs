//! SHA-256 digests.

use vstd::prelude::*;
use sha2::Digest;

verus! {

/// The SHA-256 digest of `data`, as sixty-four lower-case hexadecimal
/// digits.
pub uninterp spec fn sha256_hex(data: Seq<u8>) -> Seq<u8>;

/// Whether a byte is a digit of lower-case hexadecimal.
pub open spec fn is_lower_hex(b: u8) -> bool {
    (0x30 <= b <= 0x39) || (0x61 <= b <= 0x66)
}

/// Calls `sha2::Sha256::digest` on `data` and formats what it returns with
/// `{:x}`.  Believed, not proved: the result is the digest that
/// `sha256_hex` names, which depends on the bytes of `data` alone; and it
/// is written as two lower-case hexadecimal digits for each of the
/// thirty-two bytes of the digest.
#[verifier::external_body]
fn sha256_digest(data: &[u8]) -> (r: Vec<u8>)
    ensures
        r@ == sha256_hex(data@),
        r@.len() == 64,
        forall|i: int| 0 <= i < r@.len() ==> is_lower_hex(#[trigger] r@[i]),
{
    format!("{:x}", sha2::Sha256::digest(data)).into_bytes()
}

/// The SHA-256 digest of a file's contents, in hexadecimal.
pub fn hash_file(contents: &[u8]) -> (r: Vec<u8>)
    ensures
        r@ == sha256_hex(contents@),
        r@.len() == 64,
        forall|i: int| 0 <= i < r@.len() ==> is_lower_hex(#[trigger] r@[i]),
{
    sha256_digest(contents)
}

} // verus!
