//! Digests used on the wire (MD5, per chunk) and in the log (SHA-256, per
//! received file), and their lower-case hexadecimal spelling.

use vstd::prelude::*;
use crate::ascii::{ascii_chars, all_ascii, lemma_ascii_utf8};

verus! {

/// The MD5 digest of `data` (16 bytes), as computed by the `md5` crate.
pub uninterp spec fn md5_digest_of(data: Seq<u8>) -> Seq<u8>;

/// The SHA-256 digest of `data` (32 bytes), as computed by the `sha2` crate.
pub uninterp spec fn sha256_digest_of(data: Seq<u8>) -> Seq<u8>;

/// The ASCII lower-case hexadecimal digit for a value below 16.
pub open spec fn hex_digit(n: u8) -> u8 {
    if n < 10 {
        (48 + n) as u8
    } else {
        (87 + n) as u8
    }
}

/// Lower-case hexadecimal spelling of `bytes`, two ASCII digits per byte,
/// high nibble first.
pub open spec fn hex_lower(bytes: Seq<u8>) -> Seq<u8> {
    Seq::new(
        2 * bytes.len(),
        |i: int|
            if i % 2 == 0 {
                hex_digit(bytes[i / 2] / 16)
            } else {
                hex_digit(bytes[i / 2] % 16)
            },
    )
}

/// The lower-case MD5 hex string of `data` as bytes (32 ASCII digits).
pub open spec fn md5_hex_bytes(data: Seq<u8>) -> Seq<u8> {
    hex_lower(md5_digest_of(data))
}

/// `md5::compute`: the MD5 digest of `data`. The contract only names the
/// result; nothing is claimed about the digest's value beyond it.
#[verifier::external_body]
fn md5_digest(data: &[u8]) -> (digest: [u8; 16])
    ensures
        digest@ == md5_digest_of(data@),
{
    md5::compute(data).0
}

/// `<sha2::Sha256 as sha2::Digest>::digest`: the SHA-256 digest of `data`.
/// The contract only names the result.
#[verifier::external_body]
fn sha256_digest(data: &[u8]) -> (digest: [u8; 32])
    ensures
        digest@ == sha256_digest_of(data@),
{
    <sha2::Sha256 as sha2::Digest>::digest(data).into()
}

/// `hex::encode`: two lower-case hexadecimal digits per byte, high nibble
/// first, as the crate's documentation and source show.
#[verifier::external_body]
fn hex_encode(bytes: &[u8]) -> (s: String)
    ensures
        s@ == ascii_chars(hex_lower(bytes@)),
{
    hex::encode(bytes)
}

/// A hexadecimal spelling is ASCII, so its UTF-8 bytes are its digits.
pub proof fn lemma_hex_utf8(bytes: Seq<u8>)
    ensures
        vstd::utf8::encode_utf8(ascii_chars(hex_lower(bytes))) == hex_lower(bytes),
        hex_lower(bytes).len() == 2 * bytes.len(),
        all_ascii(hex_lower(bytes)),
{
    let h = hex_lower(bytes);
    assert forall|i: int| 0 <= i < h.len() implies #[trigger] h[i] < 128 by {
        assert(bytes[i / 2] / 16 < 16);
        assert(bytes[i / 2] % 16 < 16);
    }
    lemma_ascii_utf8(h);
}

/// The lower-case hexadecimal MD5 digest of `data` (32 characters).
pub fn md5_hex(data: &[u8]) -> (s: String)
    ensures
        s@ == ascii_chars(md5_hex_bytes(data@)),
        s@.len() == 32,
        vstd::utf8::encode_utf8(s@) == md5_hex_bytes(data@),
        md5_hex_bytes(data@).len() == 32,
{
    let digest = md5_digest(data);
    let s = hex_encode(&digest);
    proof {
        lemma_hex_utf8(md5_digest_of(data@));
    }
    s
}

/// The lower-case hexadecimal SHA-256 digest of `data` (64 characters).
pub fn sha256_hex(data: &[u8]) -> (s: String)
    ensures
        s@ == ascii_chars(hex_lower(sha256_digest_of(data@))),
        s@.len() == 64,
{
    let digest = sha256_digest(data);
    let s = hex_encode(&digest);
    proof {
        lemma_hex_utf8(sha256_digest_of(data@));
    }
    s
}

} // verus!
