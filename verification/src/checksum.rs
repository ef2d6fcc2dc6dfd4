//! The checksum of an address body: the first eight digits of a doubled
//! SHA-256, each round hashing text and written out as text.

use crate::hex_text::{all_lower_hex, hex_encode, hex_text, is_lower_hex_char, lemma_hex_text};
use bitcoin_hashes::sha256;
use vstd::prelude::*;
use vstd::string::StrSliceExecFns;
use vstd::utf8::encode_utf8;

verus! {

/// The SHA-256 digest of `data`.
pub uninterp spec fn sha256_digest(data: Seq<u8>) -> [u8; 32];

/// The number of digits in a checksum.
pub const CHECKSUM_LEN: usize = 8;

/// The digest of `data` written in hexadecimal: 64 lower-case digits.
pub open spec fn digest_text(data: Seq<u8>) -> Seq<char> {
    hex_text(sha256_digest(data)@)
}

/// The checksum of `body`: the bytes of `body` are hashed, the digest is
/// written in hexadecimal, the bytes of that text are hashed again, and the
/// first eight digits of the second digest's text are kept.
pub open spec fn checksum_text(body: Seq<char>) -> Seq<char> {
    let first = digest_text(encode_utf8(body));
    let second = digest_text(encode_utf8(first));
    second.subrange(0, 8)
}

/// Calls `sha256::Hash::hash` of `bitcoin_hashes` and takes the digest's 32
/// bytes out with `to_byte_array`. The digest depends on the data alone; the
/// contract gives it the name `sha256_digest` and says nothing more of it.
#[verifier::external_body]
pub(crate) fn sha256(data: &[u8]) -> (digest: [u8; 32])
    ensures
        digest == sha256_digest(data@),
{
    sha256::Hash::hash(data).to_byte_array()
}

/// The SHA-256 digest of `byte` as 64 lower-case hexadecimal digits.
pub fn hash_sha256(byte: &[u8]) -> (text: String)
    ensures
        text@ == digest_text(byte@),
{
    let digest = sha256(byte);
    hex_encode(digest.as_slice())
}

/// The checksum of `body`.
pub fn checksum(body: &str) -> (sum: String)
    ensures
        sum@ == checksum_text(body@),
{
    let first = hash_sha256(body.as_bytes());
    let second = hash_sha256(first.as_str().as_bytes());
    second.as_str().substring_char(0, CHECKSUM_LEN).to_owned()
}

/// A checksum is eight lower-case hexadecimal digits.
pub proof fn lemma_checksum_shape(body: Seq<char>)
    ensures
        checksum_text(body).len() == 8,
        all_lower_hex(checksum_text(body)),
{
    let inner = encode_utf8(digest_text(encode_utf8(body)));
    let text = digest_text(inner);
    lemma_hex_text(sha256_digest(inner)@);
    assert(text.len() == 64);
    let sum = checksum_text(body);
    assert forall|i: int| 0 <= i < 8 implies is_lower_hex_char(#[trigger] sum[i]) by {
        assert(sum[i] == text[i]);
    }
}

} // verus!
