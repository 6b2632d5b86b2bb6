//! Content digests used for change detection.

use vstd::prelude::*;
use vstd::utf8::encode_utf8;
use crate::text::{hex_of, hex_prefix, string_of};

verus! {

/// The SHA-256 digest of a byte sequence.
pub uninterp spec fn sha256_of(data: Seq<u8>) -> Seq<u8>;

/// Relies on `sha2::Sha256::digest`: the 32-byte SHA-256 digest of the input.
#[verifier::external_body]
fn sha256(data: &[u8]) -> (r: Vec<u8>)
    ensures
        r@ == sha256_of(data@),
        r@.len() == 32,
{
    <sha2::Sha256 as sha2::Digest>::digest(data).to_vec()
}

/// Number of digest bytes kept in a content hash.
pub const HASH_BYTES: usize = 8;

/// The content hash of a text: the first eight bytes of the SHA-256 digest
/// of its UTF-8 encoding, in lower-case hexadecimal.
pub open spec fn content_hash(text: Seq<char>) -> Seq<char> {
    hex_of(sha256_of(encode_utf8(text)).take(HASH_BYTES as int))
}

pub fn hash_content(content: &str) -> (r: String)
    ensures
        r@ == content_hash(content@),
        r@.len() == 2 * HASH_BYTES,
{
    let digest = sha256(content.as_bytes());
    let hex = hex_prefix(digest.as_slice(), HASH_BYTES);
    string_of(hex.as_slice())
}

/// Hashing is a function of the content alone: hashing equal texts gives
/// equal hashes.
pub proof fn lemma_hash_stable(a: Seq<char>, b: Seq<char>)
    requires
        a == b,
    ensures
        content_hash(a) == content_hash(b),
{
}

} // verus!
