//! Digests and encodings computed by outside crates.

use vstd::prelude::*;

verus! {

/// The XXH64 digest with seed 0 of a byte string.
pub uninterp spec fn xxh64(data: Seq<u8>) -> u64;

/// `twox_hash::XxHash64::oneshot` with seed 0: the digest is a function of
/// the bytes alone.
#[verifier::external_body]
pub(crate) fn xxh64_digest(data: &[u8]) -> (h: u64)
    ensures
        h == xxh64(data@),
{
    twox_hash::XxHash64::oneshot(0, data)
}

/// The SHA-1 digest of a byte string.
pub uninterp spec fn sha1(data: Seq<u8>) -> Seq<u8>;

/// `sha1::Sha1::digest`: a function of the bytes alone, twenty bytes long.
#[verifier::external_body]
pub(crate) fn sha1_digest(data: &[u8]) -> (h: Vec<u8>)
    ensures
        h@ == sha1(data@),
        h@.len() == 20,
{
    <sha1::Sha1 as sha1::Digest>::digest(data).to_vec()
}

/// The character for six bits.
pub open spec fn base64_char(n: int) -> char {
    if n < 26 {
        (n + 65) as char
    } else if n < 52 {
        (n + 71) as char
    } else if n < 62 {
        (n - 4) as char
    } else if n == 62 {
        '+'
    } else {
        '/'
    }
}

/// The standard base64 form, padded, of a byte string: four characters for
/// every three bytes.
pub open spec fn base64_text(d: Seq<u8>) -> Seq<char>
    decreases d.len(),
{
    if d.len() == 0 {
        Seq::empty()
    } else if d.len() == 1 {
        seq![base64_char(d[0] as int / 4), base64_char((d[0] as int % 4) * 16), '=', '=']
    } else if d.len() == 2 {
        seq![
            base64_char(d[0] as int / 4),
            base64_char((d[0] as int % 4) * 16 + d[1] as int / 16),
            base64_char((d[1] as int % 16) * 4),
            '=',
        ]
    } else {
        seq![
            base64_char(d[0] as int / 4),
            base64_char((d[0] as int % 4) * 16 + d[1] as int / 16),
            base64_char((d[1] as int % 16) * 4 + d[2] as int / 64),
            base64_char(d[2] as int % 64),
        ] + base64_text(d.skip(3))
    }
}

/// `base64::engine::general_purpose::STANDARD.encode`: the standard alphabet
/// with padding.
#[verifier::external_body]
pub(crate) fn base64_encode(data: &[u8]) -> (s: String)
    ensures
        s@ == base64_text(data@),
{
    base64::Engine::encode(&base64::engine::general_purpose::STANDARD, data)
}

} // verus!
