//! Identifiers and fingerprints of things that are stored.
use vstd::prelude::*;

verus! {

/// A hexadecimal digit in lower case.
pub open spec fn is_hex(c: char) -> bool {
    '0' <= c <= '9' || 'a' <= c <= 'f'
}

/// A random identifier in its usual form: hexadecimal digits in groups of 8,
/// 4, 4, 4 and 12, with the digit of the version in front of the third group
/// and one of the variant in front of the fourth.
pub open spec fn is_identifier(s: Seq<char>) -> bool {
    &&& s.len() == 36
    &&& forall|i: int|
        0 <= i < 36 ==> if i == 8 || i == 13 || i == 18 || i == 23 {
            #[trigger] s[i] == '-'
        } else {
            is_hex(s[i])
        }
    &&& s[14] == '4'
    &&& '8' <= s[19] <= '9' || 'a' <= s[19] <= 'b'
}

/// `uuid::Uuid::new_v4`, written out by `to_string`: a new random identifier.
/// Which one it is, is left to chance; only its form is known.
#[verifier::external_body]
pub(crate) fn new_id() -> (r: String)
    ensures
        is_identifier(r@),
{
    uuid::Uuid::new_v4().to_string()
}

/// The fingerprint of bytes: their SHA-256 hash in hexadecimal digits.
pub uninterp spec fn sha256_text(bytes: Seq<u8>) -> Seq<char>;

/// `sha2::Sha256::new_with_prefix` and `sha2::Digest::finalize`, written out
/// with `{:x}`: the hash depends on the bytes alone, and is written as 64
/// hexadecimal digits.
#[verifier::external_body]
pub(crate) fn fingerprint(bytes: &[u8]) -> (r: String)
    ensures
        r@ == sha256_text(bytes@),
        r@.len() == 64,
        forall|i: int| 0 <= i < 64 ==> is_hex(#[trigger] r@[i]),
{
    format!("{:x}", sha2::Digest::finalize(<sha2::Sha256 as sha2::Digest>::new_with_prefix(bytes)))
}

} // verus!
