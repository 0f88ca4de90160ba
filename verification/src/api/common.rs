//! Elements of the wire format.
//!
//! A parser takes the bytes that are left and gives a value and the bytes
//! behind it, or an error. `flexible` selects the compact encodings.

use vstd::prelude::*;
use vstd::utf8;
use bytes::{Bytes, BytesMut};
use crate::text;

verus! {

#[verifier::external_type_specification]
#[verifier::external_body]
pub struct ExBytes(bytes::Bytes);

#[verifier::external_type_specification]
#[verifier::external_body]
pub struct ExBytesMut(bytes::BytesMut);

/// The bytes that a `bytes::Bytes` still holds.
pub uninterp spec fn left(b: Bytes) -> Seq<u8>;

/// The bytes that a `bytes::BytesMut` holds.
pub uninterp spec fn written(b: BytesMut) -> Seq<u8>;

/// `bytes::Bytes::len` is the number of bytes that are left.
#[verifier::external_body]
pub(crate) fn remaining(buf: &Bytes) -> (n: usize)
    ensures
        n == left(*buf).len(),
{
    buf.len()
}

/// `bytes::Buf::get_u8` takes the first byte off a `Bytes`; it panics where
/// there is none.
#[verifier::external_body]
pub(crate) fn next_byte(buf: &mut Bytes) -> (b: u8)
    requires
        left(*old(buf)).len() > 0,
    ensures
        b == left(*old(buf))[0],
        left(*final(buf)) == left(*old(buf)).skip(1),
{
    bytes::Buf::get_u8(buf)
}

/// `bytes::Bytes::split_to` takes the first `n` bytes off; it panics where
/// there are fewer.
#[verifier::external_body]
pub(crate) fn next_bytes(buf: &mut Bytes, n: usize) -> (v: Vec<u8>)
    requires
        n <= left(*old(buf)).len(),
    ensures
        v@ == left(*old(buf)).take(n as int),
        left(*final(buf)) == left(*old(buf)).skip(n as int),
{
    buf.split_to(n).to_vec()
}

/// `bytes::BufMut::put_u8` appends a byte to a `BytesMut`.
#[verifier::external_body]
pub(crate) fn put_byte(buf: &mut BytesMut, b: u8)
    ensures
        written(*final(buf)) == written(*old(buf)).push(b),
{
    bytes::BufMut::put_u8(buf, b)
}

/// `bytes::BytesMut::extend_from_slice` appends a slice.
#[verifier::external_body]
pub(crate) fn put_bytes(buf: &mut BytesMut, b: &[u8])
    ensures
        written(*final(buf)) == written(*old(buf)) + b@,
{
    buf.extend_from_slice(b)
}

/// `String::from_utf8` accepts valid UTF-8 and nothing else, and decodes it.
#[verifier::external_body]
pub(crate) fn string_from_utf8(v: Vec<u8>) -> (r: Option<String>)
    ensures
        match r {
            Some(s) => utf8::valid_utf8(v@) && s@ == utf8::decode_utf8(v@),
            None => !utf8::valid_utf8(v@),
        },
{
    String::from_utf8(v).ok()
}

/// Why bytes cannot be decoded, or a value cannot be encoded.
#[derive(Debug, Clone, Copy, PartialEq, Eq, Structural)]
pub enum CodecError {
    UnexpectedEof,
    InvalidUvarint,
    InvalidUtf8,
    /// A length that is negative, absent where it may not be, or too large
    /// for its field.
    InvalidLength,
}

/// Layout of a request or response header.
#[derive(Debug, Clone, Copy, PartialEq, Eq, Structural)]
pub enum HeaderVersion {
    V0,
    V1,
    V2,
}

/// What a parser gives: a value and the bytes behind it.
pub type Parsed<T> = Result<(T, Seq<u8>), CodecError>;

// Numbers.

pub open spec fn p_u8(s: Seq<u8>) -> Parsed<u8> {
    if s.len() == 0 {
        Err(CodecError::UnexpectedEof)
    } else {
        Ok((s[0], s.skip(1)))
    }
}

#[verifier::opaque]
pub open spec fn p_i8(s: Seq<u8>) -> Parsed<i8> {
    match p_u8(s) {
        Ok((b, rest)) => Ok((b as i8, rest)),
        Err(e) => Err(e),
    }
}

#[verifier::opaque]
pub open spec fn p_bool(s: Seq<u8>) -> Parsed<bool> {
    match p_u8(s) {
        Ok((b, rest)) => Ok((b != 0, rest)),
        Err(e) => Err(e),
    }
}

pub open spec fn p_raw(s: Seq<u8>, n: nat) -> Parsed<Seq<u8>> {
    if s.len() < n {
        Err(CodecError::UnexpectedEof)
    } else {
        Ok((s.take(n as int), s.skip(n as int)))
    }
}

pub open spec fn join16(a: u8, b: u8) -> i16 {
    (((a as u16) << 8) | (b as u16)) as i16
}

pub open spec fn join32(a: u8, b: u8, c: u8, d: u8) -> i32 {
    (((a as u32) << 24) | ((b as u32) << 16) | ((c as u32) << 8) | (d as u32)) as i32
}

#[verifier::opaque]
pub open spec fn p_i16(s: Seq<u8>) -> Parsed<i16> {
    match p_raw(s, 2) {
        Ok((b, rest)) => Ok((join16(b[0], b[1]), rest)),
        Err(e) => Err(e),
    }
}

#[verifier::opaque]
pub open spec fn p_i32(s: Seq<u8>) -> Parsed<i32> {
    match p_raw(s, 4) {
        Ok((b, rest)) => Ok((join32(b[0], b[1], b[2], b[3]), rest)),
        Err(e) => Err(e),
    }
}

#[verifier::opaque]
pub open spec fn e_i8(x: i8) -> Seq<u8> {
    seq![x as u8]
}

#[verifier::opaque]
pub open spec fn e_bool(x: bool) -> Seq<u8> {
    seq![if x { 1u8 } else { 0u8 }]
}

#[verifier::opaque]
pub open spec fn e_i16(x: i16) -> Seq<u8> {
    let u = x as u16;
    seq![(u >> 8) as u8, u as u8]
}

#[verifier::opaque]
pub open spec fn e_i32(x: i32) -> Seq<u8> {
    let u = x as u32;
    seq![(u >> 24) as u8, (u >> 16) as u8, (u >> 8) as u8, u as u8]
}

/// An unsigned variable-length number, of which `k` bytes were read before:
/// seven bits a byte, the least first, at most ten bytes.
pub open spec fn p_septets(s: Seq<u8>, k: nat) -> Parsed<nat>
    decreases 10 - k,
{
    if k >= 10 {
        Err(CodecError::InvalidUvarint)
    } else if s.len() == 0 {
        Err(CodecError::UnexpectedEof)
    } else if s[0] < 128 {
        Ok((s[0] as nat, s.skip(1)))
    } else {
        match p_septets(s.skip(1), k + 1) {
            Ok((hi, rest)) => Ok(((s[0] - 128 + 128 * hi) as nat, rest)),
            Err(e) => Err(e),
        }
    }
}

/// An unsigned variable-length number that fits in 64 bits.
#[verifier::opaque]
pub open spec fn p_uvarint(s: Seq<u8>) -> Parsed<u64> {
    match p_septets(s, 0) {
        Ok((n, rest)) => if n <= u64::MAX {
            Ok((n as u64, rest))
        } else {
            Err(CodecError::InvalidUvarint)
        },
        Err(e) => Err(e),
    }
}

pub open spec fn e_uvarint(n: nat) -> Seq<u8>
    decreases n,
{
    if n < 128 {
        seq![n as u8]
    } else {
        seq![(n % 128 + 128) as u8] + e_uvarint(n / 128)
    }
}

// Lengths.

/// A length prefix: none for null. Without the compact form it takes 16
/// bits, or 32 where `wide`.
#[verifier::opaque]
pub open spec fn p_length(s: Seq<u8>, flexible: bool, wide: bool) -> Parsed<Option<nat>> {
    if flexible {
        match p_uvarint(s) {
            Ok((n, rest)) => if n == 0 {
                Ok((None, rest))
            } else {
                Ok((Some((n - 1) as nat), rest))
            },
            Err(e) => Err(e),
        }
    } else if wide {
        match p_i32(s) {
            Ok((n, rest)) => if n == -1 {
                Ok((None, rest))
            } else if n < 0 {
                Err(CodecError::InvalidLength)
            } else {
                Ok((Some(n as nat), rest))
            },
            Err(e) => Err(e),
        }
    } else {
        match p_i16(s) {
            Ok((n, rest)) => if n == -1 {
                Ok((None, rest))
            } else if n < 0 {
                Err(CodecError::InvalidLength)
            } else {
                Ok((Some(n as nat), rest))
            },
            Err(e) => Err(e),
        }
    }
}

/// The number of items of an array; null counts as none.
#[verifier::opaque]
pub open spec fn p_array_len(s: Seq<u8>, flexible: bool) -> Parsed<nat> {
    if flexible {
        match p_uvarint(s) {
            Ok((n, rest)) => if n == 0 {
                Ok((0, rest))
            } else {
                Ok(((n - 1) as nat, rest))
            },
            Err(e) => Err(e),
        }
    } else {
        match p_i32(s) {
            Ok((n, rest)) => if n == -1 {
                Ok((0, rest))
            } else if n < 0 {
                Err(CodecError::InvalidLength)
            } else {
                Ok((n as nat, rest))
            },
            Err(e) => Err(e),
        }
    }
}

pub open spec fn length_fits(n: nat, flexible: bool, wide: bool) -> bool {
    if flexible {
        n < u64::MAX
    } else if wide {
        n <= i32::MAX
    } else {
        n <= i16::MAX
    }
}

#[verifier::opaque]
pub open spec fn e_length(n: nat, flexible: bool, wide: bool) -> Seq<u8> {
    if flexible {
        e_uvarint(n + 1)
    } else if wide {
        e_i32(n as i32)
    } else {
        e_i16(n as i16)
    }
}

pub open spec fn array_fits(n: nat, flexible: bool) -> bool {
    if flexible {
        n < u64::MAX
    } else {
        n <= i32::MAX
    }
}

#[verifier::opaque]
pub open spec fn e_array_len(n: nat, flexible: bool) -> Seq<u8> {
    if flexible {
        e_uvarint(n + 1)
    } else {
        e_i32(n as i32)
    }
}

#[verifier::opaque]
pub open spec fn e_null(flexible: bool) -> Seq<u8> {
    if flexible {
        e_uvarint(0)
    } else {
        e_i16(-1i16)
    }
}

// Strings and byte strings.

/// A length, then that many bytes.
#[verifier::opaque]
pub open spec fn p_run(s: Seq<u8>, flexible: bool, wide: bool) -> Parsed<Option<Seq<u8>>> {
    match p_length(s, flexible, wide) {
        Ok((None, rest)) => Ok((None, rest)),
        Ok((Some(n), rest)) => match p_raw(rest, n) {
            Ok((b, rest)) => Ok((Some(b), rest)),
            Err(e) => Err(e),
        },
        Err(e) => Err(e),
    }
}

#[verifier::opaque]
pub open spec fn e_run(b: Seq<u8>, flexible: bool, wide: bool) -> Seq<u8> {
    e_length(b.len(), flexible, wide) + b
}

/// A byte string; null counts as missing.
#[verifier::opaque]
pub open spec fn p_bytes(s: Seq<u8>, flexible: bool) -> Parsed<Seq<u8>> {
    match p_run(s, flexible, true) {
        Ok((Some(b), rest)) => Ok((b, rest)),
        Ok((None, rest)) => Err(CodecError::UnexpectedEof),
        Err(e) => Err(e),
    }
}

#[verifier::opaque]
pub open spec fn p_nullable_str(s: Seq<u8>, flexible: bool) -> Parsed<Option<Seq<char>>> {
    match p_run(s, flexible, false) {
        Ok((None, rest)) => Ok((None, rest)),
        Ok((Some(b), rest)) => if utf8::valid_utf8(b) {
            Ok((Some(utf8::decode_utf8(b)), rest))
        } else {
            Err(CodecError::InvalidUtf8)
        },
        Err(e) => Err(e),
    }
}

#[verifier::opaque]
pub open spec fn p_str(s: Seq<u8>, flexible: bool) -> Parsed<Seq<char>> {
    match p_nullable_str(s, flexible) {
        Ok((Some(t), rest)) => Ok((t, rest)),
        Ok((None, rest)) => Err(CodecError::InvalidLength),
        Err(e) => Err(e),
    }
}

pub open spec fn str_fits(t: Seq<char>, flexible: bool) -> bool {
    length_fits(utf8::encode_utf8(t).len(), flexible, false)
}

pub open spec fn bytes_fits(n: nat, flexible: bool) -> bool {
    length_fits(n, flexible, true)
}

#[verifier::opaque]
pub open spec fn e_bytes(b: Seq<u8>, flexible: bool) -> Seq<u8> {
    e_run(b, flexible, true)
}

#[verifier::opaque]
pub open spec fn e_str(t: Seq<char>, flexible: bool) -> Seq<u8> {
    e_run(utf8::encode_utf8(t), flexible, false)
}

pub open spec fn opt_fits(t: Option<Seq<char>>, flexible: bool) -> bool {
    t matches Some(x) ==> str_fits(x, flexible)
}

#[verifier::opaque]
pub open spec fn e_nullable_str(t: Option<Seq<char>>, flexible: bool) -> Seq<u8> {
    match t {
        Some(x) => e_str(x, flexible),
        None => e_null(flexible),
    }
}

// Tagged fields.

/// Passes over `n` tagged fields.
pub open spec fn p_tags(s: Seq<u8>, n: nat) -> Parsed<()>
    decreases n,
{
    if n == 0 {
        Ok(((), s))
    } else {
        match p_uvarint(s) {
            Err(e) => Err(e),
            Ok((tag, rest)) => match p_uvarint(rest) {
                Err(e) => Err(e),
                Ok((size, rest)) => match p_raw(rest, size as nat) {
                    Err(e) => Err(e),
                    Ok((b, rest)) => p_tags(rest, (n - 1) as nat),
                },
            },
        }
    }
}

/// The block of tagged fields, whose contents are ignored.
#[verifier::opaque]
pub open spec fn p_tagged(s: Seq<u8>) -> Parsed<()> {
    match p_uvarint(s) {
        Err(e) => Err(e),
        Ok((n, rest)) => p_tags(rest, n as nat),
    }
}

pub open spec fn p_tagged_if(s: Seq<u8>, flexible: bool) -> Parsed<()> {
    if flexible {
        p_tagged(s)
    } else {
        Ok(((), s))
    }
}

#[verifier::opaque]
pub open spec fn e_tagged_if(flexible: bool) -> Seq<u8> {
    if flexible {
        seq![0u8]
    } else {
        Seq::empty()
    }
}

// Arrays.

/// `n` items one after the other.
pub open spec fn p_many<T>(p: spec_fn(Seq<u8>) -> Parsed<T>, n: nat, s: Seq<u8>) -> Parsed<Seq<T>>
    decreases n,
{
    if n == 0 {
        Ok((Seq::empty(), s))
    } else {
        match p_many(p, (n - 1) as nat, s) {
            Err(e) => Err(e),
            Ok((xs, rest)) => match p(rest) {
                Err(e) => Err(e),
                Ok((x, rest)) => Ok((xs.push(x), rest)),
            },
        }
    }
}

/// An array: its length, then its items.
#[verifier::opaque]
pub open spec fn p_array<T>(p: spec_fn(Seq<u8>) -> Parsed<T>, s: Seq<u8>, flexible: bool) -> Parsed<Seq<T>> {
    match p_array_len(s, flexible) {
        Err(e) => Err(e),
        Ok((n, rest)) => p_many(p, n, rest),
    }
}

/// The encodings of items one after the other.
pub open spec fn e_many<T>(enc: spec_fn(T) -> Seq<u8>, xs: Seq<T>) -> Seq<u8>
    decreases xs.len(),
{
    if xs.len() == 0 {
        Seq::empty()
    } else {
        e_many(enc, xs.drop_last()) + enc(xs.last())
    }
}

#[verifier::opaque]
pub open spec fn e_array<T>(enc: spec_fn(T) -> Seq<u8>, xs: Seq<T>, flexible: bool) -> Seq<u8> {
    e_array_len(xs.len(), flexible) + e_many(enc, xs)
}

/// An array of 32-bit numbers.
#[verifier::opaque]
pub open spec fn p_i32s(s: Seq<u8>, flexible: bool) -> Parsed<Seq<i32>> {
    p_array(|s: Seq<u8>| p_i32(s), s, flexible)
}

#[verifier::opaque]
pub open spec fn e_i32s(xs: Seq<i32>, flexible: bool) -> Seq<u8> {
    e_array(|x: i32| e_i32(x), xs, flexible)
}

/// An item that cannot be read stops the array.
pub proof fn lemma_many_fails<T>(p: spec_fn(Seq<u8>) -> Parsed<T>, i: nat, n: nat, s: Seq<u8>, e: CodecError)
    requires
        i <= n,
        p_many(p, i, s) == Err::<(Seq<T>, Seq<u8>), CodecError>(e),
    ensures
        p_many(p, n, s) == Err::<(Seq<T>, Seq<u8>), CodecError>(e),
    decreases n - i,
{
    if i < n {
        lemma_many_fails(p, i, (n - 1) as nat, s, e);
    }
}

/// Joining byte strings is associative.
pub broadcast proof fn lemma_joined(a: Seq<u8>, b: Seq<u8>, c: Seq<u8>)
    ensures
        #[trigger] ((a + b) + c) == a + (b + c),
{
    assert((a + b) + c =~= a + (b + c));
}

/// Joining nothing changes nothing.
pub broadcast proof fn lemma_nothing(a: Seq<u8>)
    ensures
        #[trigger] (a + Seq::<u8>::empty()) == a,
{
    assert(a + Seq::<u8>::empty() =~= a);
}

// What reading gives back of writing.

pub proof fn lemma_i8(x: i8, rest: Seq<u8>)
    ensures
        p_i8(e_i8(x) + rest) == Ok::<(i8, Seq<u8>), CodecError>((x, rest)),
{
    reveal(p_i8);
    reveal(e_i8);
    assert((x as u8) as i8 == x) by (bit_vector);
    assert((e_i8(x) + rest).skip(1) =~= rest);
}

pub proof fn lemma_bool(x: bool, rest: Seq<u8>)
    ensures
        p_bool(e_bool(x) + rest) == Ok::<(bool, Seq<u8>), CodecError>((x, rest)),
        p_i8(e_bool(x) + rest) == Ok::<(i8, Seq<u8>), CodecError>((if x { 1i8 } else { 0i8 }, rest)),
{
    reveal(p_bool);
    reveal(p_i8);
    reveal(e_bool);
    assert((e_bool(x) + rest).skip(1) =~= rest);
    assert(1u8 as i8 == 1i8 && 0u8 as i8 == 0i8) by (bit_vector);
}

pub proof fn lemma_raw(b: Seq<u8>, rest: Seq<u8>)
    ensures
        p_raw(b + rest, b.len()) == Ok::<(Seq<u8>, Seq<u8>), CodecError>((b, rest)),
{
    assert((b + rest).take(b.len() as int) =~= b);
    assert((b + rest).skip(b.len() as int) =~= rest);
}

pub proof fn lemma_i16(x: i16, rest: Seq<u8>)
    ensures
        p_i16(e_i16(x) + rest) == Ok::<(i16, Seq<u8>), CodecError>((x, rest)),
{
    reveal(p_i16);
    reveal(e_i16);
    let u = x as u16;
    let a = (u >> 8) as u8;
    let b = u as u8;
    assert((((((x as u16) >> 8) as u8) as u16) << 8 | (((x as u16) as u8) as u16)) as i16 == x) by (bit_vector);
    lemma_raw(e_i16(x), rest);
}

pub proof fn lemma_i32(x: i32, rest: Seq<u8>)
    ensures
        p_i32(e_i32(x) + rest) == Ok::<(i32, Seq<u8>), CodecError>((x, rest)),
{
    reveal(p_i32);
    reveal(e_i32);
    assert(((((((x as u32) >> 24) as u8) as u32) << 24) | (((((x as u32) >> 16) as u8) as u32) << 16) | (((((x as u32) >> 8) as u8) as u32) << 8) | (((x as u32) as u8) as u32)) as i32 == x) by (bit_vector);
    lemma_raw(e_i32(x), rest);
}

spec fn pow128(k: nat) -> nat
    decreases k,
{
    if k == 0 {
        1
    } else {
        128 * pow128((k - 1) as nat)
    }
}

proof fn lemma_septets(n: nat, k: nat, rest: Seq<u8>)
    requires
        k < 10,
        n < pow128((10 - k) as nat),
    ensures
        p_septets(e_uvarint(n) + rest, k) == Ok::<(nat, Seq<u8>), CodecError>((n, rest)),
    decreases n,
{
    let s = e_uvarint(n) + rest;
    if n < 128 {
        assert(s.skip(1) =~= rest);
    } else {
        let m = n / 128;
        assert(k < 9) by {
            if k == 9 {
                reveal_with_fuel(pow128, 3);
            }
        }
        assert(m < pow128((9 - k) as nat)) by {
            assert(pow128((10 - k) as nat) == 128 * pow128((9 - k) as nat));
        }
        lemma_septets(m, k + 1, rest);
        assert(s.skip(1) =~= e_uvarint(m) + rest);
        assert(s[0] == (n % 128 + 128) as u8);
    }
}

pub proof fn lemma_uvarint(n: u64, rest: Seq<u8>)
    ensures
        p_uvarint(e_uvarint(n as nat) + rest) == Ok::<(u64, Seq<u8>), CodecError>((n, rest)),
{
    reveal(p_uvarint);
    assert(pow128(10) > u64::MAX) by {
        reveal_with_fuel(pow128, 11);
        assert(128 * 128 * 128 * 128 * 128 * 128 * 128 * 128 * 128 * 128int == 0x40_0000_0000_0000_0000int);
    }
    lemma_septets(n as nat, 0, rest);
}

pub proof fn lemma_length(n: nat, flexible: bool, wide: bool, rest: Seq<u8>)
    requires
        length_fits(n, flexible, wide),
    ensures
        p_length(e_length(n, flexible, wide) + rest, flexible, wide) == Ok::<(Option<nat>, Seq<u8>), CodecError>(
            (Some(n), rest),
        ),
{
    reveal(p_length);
    reveal(e_length);
    if flexible {
        lemma_uvarint((n + 1) as u64, rest);
    } else if wide {
        lemma_i32(n as i32, rest);
    } else {
        lemma_i16(n as i16, rest);
    }
}

pub proof fn lemma_array_len(n: nat, flexible: bool, rest: Seq<u8>)
    requires
        array_fits(n, flexible),
    ensures
        p_array_len(e_array_len(n, flexible) + rest, flexible) == Ok::<(nat, Seq<u8>), CodecError>((n, rest)),
{
    reveal(p_array_len);
    reveal(e_array_len);
    if flexible {
        lemma_uvarint((n + 1) as u64, rest);
    } else {
        lemma_i32(n as i32, rest);
    }
}

pub proof fn lemma_run(b: Seq<u8>, flexible: bool, wide: bool, rest: Seq<u8>)
    requires
        length_fits(b.len(), flexible, wide),
    ensures
        p_run(e_run(b, flexible, wide) + rest, flexible, wide) == Ok::<(Option<Seq<u8>>, Seq<u8>), CodecError>(
            (Some(b), rest),
        ),
{
    reveal(p_run);
    reveal(e_run);
    lemma_length(b.len(), flexible, wide, b + rest);
    assert(e_run(b, flexible, wide) + rest =~= e_length(b.len(), flexible, wide) + (b + rest));
    lemma_raw(b, rest);
}

pub proof fn lemma_bytes(b: Seq<u8>, flexible: bool, rest: Seq<u8>)
    requires
        bytes_fits(b.len(), flexible),
    ensures
        p_bytes(e_bytes(b, flexible) + rest, flexible) == Ok::<(Seq<u8>, Seq<u8>), CodecError>((b, rest)),
{
    reveal(p_bytes);
    reveal(e_bytes);
    lemma_run(b, flexible, true, rest);
}

pub proof fn lemma_nullable_str(t: Option<Seq<char>>, flexible: bool, rest: Seq<u8>)
    requires
        opt_fits(t, flexible),
    ensures
        p_nullable_str(e_nullable_str(t, flexible) + rest, flexible) == Ok::<(Option<Seq<char>>, Seq<u8>), CodecError>((t, rest)),
{
    reveal(p_nullable_str);
    reveal(e_nullable_str);
    reveal(e_str);
    reveal(e_null);
    reveal(p_run);
    reveal(p_length);
    match t {
        Some(x) => {
            lemma_run(utf8::encode_utf8(x), flexible, false, rest);
            utf8::encode_utf8_valid_utf8(x);
            utf8::encode_utf8_decode_utf8(x);
        },
        None => {
            if flexible {
                lemma_uvarint(0, rest);
            } else {
                lemma_i16(-1i16, rest);
            }
        },
    }
}

pub proof fn lemma_str(t: Seq<char>, flexible: bool, rest: Seq<u8>)
    requires
        str_fits(t, flexible),
    ensures
        p_str(e_str(t, flexible) + rest, flexible) == Ok::<(Seq<char>, Seq<u8>), CodecError>((t, rest)),
{
    reveal(p_str);
    reveal(e_nullable_str);
    lemma_nullable_str(Some(t), flexible, rest);
}

pub proof fn lemma_tagged(flexible: bool, rest: Seq<u8>)
    ensures
        p_tagged_if(e_tagged_if(flexible) + rest, flexible) == Ok::<((), Seq<u8>), CodecError>(((), rest)),
{
    reveal(p_tagged);
    reveal(e_tagged_if);
    if flexible {
        lemma_uvarint(0, rest);
        assert(e_uvarint(0) =~= seq![0u8]);
    } else {
        assert(e_tagged_if(flexible) + rest =~= rest);
    }
}

/// Items that read back one by one read back as an array.
pub proof fn lemma_many<T>(
    p: spec_fn(Seq<u8>) -> Parsed<T>,
    enc: spec_fn(T) -> Seq<u8>,
    xs: Seq<T>,
    ys: Seq<T>,
    rest: Seq<u8>,
)
    requires
        xs.len() == ys.len(),
        forall|i: int, r: Seq<u8>| 0 <= i < xs.len() ==> #[trigger] p(enc(xs[i]) + r) == Ok::<(T, Seq<u8>), CodecError>((ys[i], r)),
    ensures
        p_many(p, xs.len(), e_many(enc, xs) + rest) == Ok::<(Seq<T>, Seq<u8>), CodecError>((ys, rest)),
    decreases xs.len(),
{
    if xs.len() == 0 {
        assert(e_many(enc, xs) + rest =~= rest);
        assert(ys =~= Seq::empty());
    } else {
        let d = xs.drop_last();
        let x = xs.last();
        assert forall|i: int, r: Seq<u8>| 0 <= i < d.len() implies #[trigger] p(enc(d[i]) + r) == Ok::<(T, Seq<u8>), CodecError>((ys.drop_last()[i], r)) by {
            assert(p(enc(xs[i]) + r) == Ok::<(T, Seq<u8>), CodecError>((ys[i], r)));
        }
        lemma_many(p, enc, d, ys.drop_last(), enc(x) + rest);
        assert(e_many(enc, xs) + rest =~= e_many(enc, d) + (enc(x) + rest));
        assert(p(enc(xs[xs.len() - 1]) + rest) == Ok::<(T, Seq<u8>), CodecError>((ys.last(), rest)));
        assert(ys.drop_last().push(ys.last()) =~= ys);
    }
}

pub proof fn lemma_array<T>(
    p: spec_fn(Seq<u8>) -> Parsed<T>,
    enc: spec_fn(T) -> Seq<u8>,
    xs: Seq<T>,
    ys: Seq<T>,
    flexible: bool,
    rest: Seq<u8>,
)
    requires
        array_fits(xs.len(), flexible),
        xs.len() == ys.len(),
        forall|i: int, r: Seq<u8>| 0 <= i < xs.len() ==> #[trigger] p(enc(xs[i]) + r) == Ok::<(T, Seq<u8>), CodecError>((ys[i], r)),
    ensures
        p_array(p, e_array(enc, xs, flexible) + rest, flexible) == Ok::<(Seq<T>, Seq<u8>), CodecError>((ys, rest)),
{
    reveal(p_array);
    reveal(e_array);
    lemma_array_len(xs.len(), flexible, e_many(enc, xs) + rest);
    assert(e_array(enc, xs, flexible) + rest =~= e_array_len(xs.len(), flexible) + (e_many(enc, xs) + rest));
    lemma_many(p, enc, xs, ys, rest);
}

pub proof fn lemma_i32s(xs: Seq<i32>, flexible: bool, rest: Seq<u8>)
    requires
        array_fits(xs.len(), flexible),
    ensures
        p_i32s(e_i32s(xs, flexible) + rest, flexible) == Ok::<(Seq<i32>, Seq<u8>), CodecError>((xs, rest)),
{
    reveal(p_i32s);
    reveal(e_i32s);
    let p = |s: Seq<u8>| p_i32(s);
    let enc = |x: i32| e_i32(x);
    assert forall|i: int, r: Seq<u8>| 0 <= i < xs.len() implies #[trigger] p(enc(xs[i]) + r) == Ok::<(i32, Seq<u8>), CodecError>((xs[i], r)) by {
        lemma_i32(xs[i], r);
    }
    lemma_array(p, enc, xs, xs, flexible, rest);
}

// Reading.

pub fn read_u8(buf: &mut Bytes) -> (r: Result<u8, CodecError>)
    ensures
        match p_u8(left(*old(buf))) {
            Ok((x, rest)) => r == Ok::<u8, CodecError>(x) && left(*final(buf)) == rest,
            Err(e) => r == Err::<u8, CodecError>(e),
        },
{
    if remaining(buf) == 0 {
        Err(CodecError::UnexpectedEof)
    } else {
        Ok(next_byte(buf))
    }
}

pub fn read_i8(buf: &mut Bytes) -> (r: Result<i8, CodecError>)
    ensures
        match p_i8(left(*old(buf))) {
            Ok((x, rest)) => r == Ok::<i8, CodecError>(x) && left(*final(buf)) == rest,
            Err(e) => r == Err::<i8, CodecError>(e),
        },
{
    proof {
        reveal(p_i8);
    }
    match read_u8(buf) {
        Ok(b) => Ok(#[verifier::truncate] (b as i8)),
        Err(e) => Err(e),
    }
}

pub fn read_bool(buf: &mut Bytes) -> (r: Result<bool, CodecError>)
    ensures
        match p_bool(left(*old(buf))) {
            Ok((x, rest)) => r == Ok::<bool, CodecError>(x) && left(*final(buf)) == rest,
            Err(e) => r == Err::<bool, CodecError>(e),
        },
{
    proof {
        reveal(p_bool);
    }
    match read_u8(buf) {
        Ok(b) => Ok(b != 0),
        Err(e) => Err(e),
    }
}

pub fn read_raw(buf: &mut Bytes, n: usize) -> (r: Result<Vec<u8>, CodecError>)
    ensures
        match p_raw(left(*old(buf)), n as nat) {
            Ok((x, rest)) => (r matches Ok(v) && v@ == x) && left(*final(buf)) == rest,
            Err(e) => r == Err::<Vec<u8>, CodecError>(e),
        },
{
    if remaining(buf) < n {
        Err(CodecError::UnexpectedEof)
    } else {
        Ok(next_bytes(buf, n))
    }
}

pub fn read_i16(buf: &mut Bytes) -> (r: Result<i16, CodecError>)
    ensures
        match p_i16(left(*old(buf))) {
            Ok((x, rest)) => r == Ok::<i16, CodecError>(x) && left(*final(buf)) == rest,
            Err(e) => r == Err::<i16, CodecError>(e),
        },
{
    proof {
        reveal(p_i16);
    }
    match read_raw(buf, 2) {
        Ok(b) => Ok(#[verifier::truncate] ((((b[0] as u16) << 8) | (b[1] as u16)) as i16)),
        Err(e) => Err(e),
    }
}

pub fn read_i32(buf: &mut Bytes) -> (r: Result<i32, CodecError>)
    ensures
        match p_i32(left(*old(buf))) {
            Ok((x, rest)) => r == Ok::<i32, CodecError>(x) && left(*final(buf)) == rest,
            Err(e) => r == Err::<i32, CodecError>(e),
        },
{
    proof {
        reveal(p_i32);
    }
    match read_raw(buf, 4) {
        Ok(b) => Ok(
            #[verifier::truncate] ((((b[0] as u32) << 24) | ((b[1] as u32) << 16) | ((b[2] as u32) << 8) | (b[3] as u32)) as i32),
        ),
        Err(e) => Err(e),
    }
}

// What is read does not depend on what follows it.

proof fn lemma_septets_extend(s: Seq<u8>, k: nat, more: Seq<u8>)
    ensures
        p_septets(s, k) matches Ok((n, rest)) ==> p_septets(s + more, k) == Ok::<(nat, Seq<u8>), CodecError>((n, rest + more)),
    decreases 10 - k,
{
    if k < 10 && s.len() > 0 {
        assert((s + more)[0] == s[0]);
        assert((s + more).skip(1) =~= s.skip(1) + more);
        if s[0] >= 128 {
            lemma_septets_extend(s.skip(1), k + 1, more);
        }
    }
}

proof fn lemma_uvarint_extend(s: Seq<u8>, more: Seq<u8>)
    ensures
        p_uvarint(s) matches Ok((n, rest)) ==> p_uvarint(s + more) == Ok::<(u64, Seq<u8>), CodecError>((n, rest + more)),
{
    reveal(p_uvarint);
    lemma_septets_extend(s, 0, more);
}

proof fn lemma_raw_extend(s: Seq<u8>, n: nat, more: Seq<u8>)
    ensures
        p_raw(s, n) matches Ok((b, rest)) ==> p_raw(s + more, n) == Ok::<(Seq<u8>, Seq<u8>), CodecError>((b, rest + more)),
{
    if s.len() >= n {
        assert((s + more).take(n as int) =~= s.take(n as int));
        assert((s + more).skip(n as int) =~= s.skip(n as int) + more);
    }
}

/// The length of a compact array does not depend on what follows it.
pub proof fn lemma_compact_len_extend(s: Seq<u8>, more: Seq<u8>)
    ensures
        p_array_len(s, true) matches Ok((n, rest)) ==> p_array_len(s + more, true) == Ok::<(nat, Seq<u8>), CodecError>((n, rest + more)),
{
    reveal(p_array_len);
    lemma_uvarint_extend(s, more);
}

/// Nor does a compact string.
pub proof fn lemma_compact_str_extend(s: Seq<u8>, more: Seq<u8>)
    ensures
        p_nullable_str(s, true) matches Ok((t, rest)) ==> p_nullable_str(s + more, true) == Ok::<(Option<Seq<char>>, Seq<u8>), CodecError>(
            (t, rest + more),
        ),
{
    reveal(p_nullable_str);
    reveal(p_run);
    reveal(p_length);
    lemma_uvarint_extend(s, more);
    match p_length(s, true, false) {
        Ok((Some(n), rest)) => {
            lemma_raw_extend(rest, n, more);
        },
        _ => {},
    }
}

proof fn lemma_tags_extend(s: Seq<u8>, n: nat, more: Seq<u8>)
    ensures
        p_tags(s, n) matches Ok((u, rest)) ==> p_tags(s + more, n) == Ok::<((), Seq<u8>), CodecError>(((), rest + more)),
    decreases n,
{
    if n > 0 {
        lemma_uvarint_extend(s, more);
        match p_uvarint(s) {
            Ok((tag, rest)) => {
                lemma_uvarint_extend(rest, more);
                match p_uvarint(rest) {
                    Ok((size, rest)) => {
                        lemma_raw_extend(rest, size as nat, more);
                        match p_raw(rest, size as nat) {
                            Ok((b, rest)) => {
                                lemma_tags_extend(rest, (n - 1) as nat, more);
                            },
                            Err(e) => {},
                        }
                    },
                    Err(e) => {},
                }
            },
            Err(e) => {},
        }
    }
}

/// Nor does a block of tagged fields.
pub proof fn lemma_tagged_extend(s: Seq<u8>, more: Seq<u8>)
    ensures
        p_tagged(s) matches Ok((u, rest)) ==> p_tagged(s + more) == Ok::<((), Seq<u8>), CodecError>(((), rest + more)),
{
    reveal(p_tagged);
    lemma_uvarint_extend(s, more);
    match p_uvarint(s) {
        Ok((n, rest)) => {
            lemma_tags_extend(rest, n as nat, more);
        },
        Err(e) => {},
    }
}

proof fn lemma_septets_bound(s: Seq<u8>, k: nat)
    ensures
        p_septets(s, k) matches Ok((n, rest)) ==> k < 10 && n < pow128((10 - k) as nat),
    decreases 10 - k,
{
    if k < 10 && s.len() > 0 {
        assert(pow128((10 - k) as nat) == 128 * pow128((9 - k) as nat));
        assert(pow128((9 - k) as nat) >= 1) by {
            lemma_pow_positive((9 - k) as nat);
        }
        lemma_septets_bound(s.skip(1), k + 1);
    }
}

proof fn lemma_pow_positive(k: nat)
    ensures
        pow128(k) >= 1,
    decreases k,
{
    if k > 0 {
        lemma_pow_positive((k - 1) as nat);
    }
}

fn read_septets(buf: &mut Bytes, k: u8) -> (r: Result<u128, CodecError>)
    requires
        k <= 10,
    ensures
        match p_septets(left(*old(buf)), k as nat) {
            Ok((n, rest)) => (r matches Ok(x) && x as nat == n) && left(*final(buf)) == rest,
            Err(e) => r == Err::<u128, CodecError>(e),
        },
    decreases 10 - k,
{
    if k >= 10 {
        return Err(CodecError::InvalidUvarint);
    }
    let ghost s = left(*buf);
    match read_u8(buf) {
        Err(e) => Err(e),
        Ok(b) => {
            if b < 128 {
                Ok(b as u128)
            } else {
                proof {
                    lemma_septets_bound(s.skip(1), (k + 1) as nat);
                    lemma_pow_small((9 - k) as nat);
                }
                match read_septets(buf, k + 1) {
                    Ok(hi) => Ok((b - 128) as u128 + 128 * hi),
                    Err(e) => Err(e),
                }
            }
        },
    }
}

proof fn lemma_pow_small(k: nat)
    requires
        k <= 9,
    ensures
        pow128(k) <= 0x8000_0000_0000_0000,
{
    reveal_with_fuel(pow128, 10);
}

pub fn read_uvarint(buf: &mut Bytes) -> (r: Result<u64, CodecError>)
    ensures
        match p_uvarint(left(*old(buf))) {
            Ok((x, rest)) => r == Ok::<u64, CodecError>(x) && left(*final(buf)) == rest,
            Err(e) => r == Err::<u64, CodecError>(e),
        },
{
    proof {
        reveal(p_uvarint);
    }
    match read_septets(buf, 0) {
        Ok(n) => {
            if n <= u64::MAX as u128 {
                Ok(n as u64)
            } else {
                Err(CodecError::InvalidUvarint)
            }
        },
        Err(e) => Err(e),
    }
}

fn read_length(buf: &mut Bytes, flexible: bool, wide: bool) -> (r: Result<Option<u64>, CodecError>)
    ensures
        match p_length(left(*old(buf)), flexible, wide) {
            Ok((None, rest)) => r == Ok::<Option<u64>, CodecError>(None) && left(*final(buf)) == rest,
            Ok((Some(n), rest)) => (r matches Ok(Some(x)) && x as nat == n) && left(*final(buf)) == rest,
            Err(e) => r == Err::<Option<u64>, CodecError>(e),
        },
{
    proof {
        reveal(p_length);
    }
    if flexible {
        match read_uvarint(buf) {
            Ok(n) => {
                if n == 0 {
                    Ok(None)
                } else {
                    Ok(Some(n - 1))
                }
            },
            Err(e) => Err(e),
        }
    } else if wide {
        match read_i32(buf) {
            Ok(n) => {
                if n == -1 {
                    Ok(None)
                } else if n < 0 {
                    Err(CodecError::InvalidLength)
                } else {
                    Ok(Some(n as u64))
                }
            },
            Err(e) => Err(e),
        }
    } else {
        match read_i16(buf) {
            Ok(n) => {
                if n == -1 {
                    Ok(None)
                } else if n < 0 {
                    Err(CodecError::InvalidLength)
                } else {
                    Ok(Some(n as u64))
                }
            },
            Err(e) => Err(e),
        }
    }
}

pub fn read_array_len(buf: &mut Bytes, flexible: bool) -> (r: Result<u64, CodecError>)
    ensures
        match p_array_len(left(*old(buf)), flexible) {
            Ok((n, rest)) => (r matches Ok(x) && x as nat == n) && left(*final(buf)) == rest,
            Err(e) => r == Err::<u64, CodecError>(e),
        },
{
    proof {
        reveal(p_array_len);
    }
    if flexible {
        match read_uvarint(buf) {
            Ok(n) => {
                if n == 0 {
                    Ok(0)
                } else {
                    Ok(n - 1)
                }
            },
            Err(e) => Err(e),
        }
    } else {
        match read_i32(buf) {
            Ok(n) => {
                if n == -1 {
                    Ok(0)
                } else if n < 0 {
                    Err(CodecError::InvalidLength)
                } else {
                    Ok(n as u64)
                }
            },
            Err(e) => Err(e),
        }
    }
}

fn read_sized(buf: &mut Bytes, n: u64) -> (r: Result<Vec<u8>, CodecError>)
    ensures
        match p_raw(left(*old(buf)), n as nat) {
            Ok((x, rest)) => (r matches Ok(v) && v@ == x) && left(*final(buf)) == rest,
            Err(e) => r == Err::<Vec<u8>, CodecError>(e),
        },
{
    if (remaining(buf) as u64) < n {
        Err(CodecError::UnexpectedEof)
    } else {
        Ok(next_bytes(buf, n as usize))
    }
}

fn read_run(buf: &mut Bytes, flexible: bool, wide: bool) -> (r: Result<Option<Vec<u8>>, CodecError>)
    ensures
        match p_run(left(*old(buf)), flexible, wide) {
            Ok((None, rest)) => r == Ok::<Option<Vec<u8>>, CodecError>(None) && left(*final(buf)) == rest,
            Ok((Some(b), rest)) => (r matches Ok(Some(v)) && v@ == b) && left(*final(buf)) == rest,
            Err(e) => r == Err::<Option<Vec<u8>>, CodecError>(e),
        },
{
    proof {
        reveal(p_run);
    }
    match read_length(buf, flexible, wide) {
        Ok(Some(n)) => match read_sized(buf, n) {
            Ok(v) => Ok(Some(v)),
            Err(e) => Err(e),
        },
        Ok(None) => Ok(None),
        Err(e) => Err(e),
    }
}

pub fn read_bytes(buf: &mut Bytes, flexible: bool) -> (r: Result<Vec<u8>, CodecError>)
    ensures
        match p_bytes(left(*old(buf)), flexible) {
            Ok((b, rest)) => (r matches Ok(v) && v@ == b) && left(*final(buf)) == rest,
            Err(e) => r == Err::<Vec<u8>, CodecError>(e),
        },
{
    proof {
        reveal(p_bytes);
    }
    match read_run(buf, flexible, true) {
        Ok(Some(v)) => Ok(v),
        Ok(None) => Err(CodecError::UnexpectedEof),
        Err(e) => Err(e),
    }
}

pub fn read_nullable_str(buf: &mut Bytes, flexible: bool) -> (r: Result<Option<String>, CodecError>)
    ensures
        match p_nullable_str(left(*old(buf)), flexible) {
            Ok((t, rest)) => (r matches Ok(x) && text::opt_text(x) == t) && left(*final(buf)) == rest,
            Err(e) => r == Err::<Option<String>, CodecError>(e),
        },
{
    proof {
        reveal(p_nullable_str);
    }
    match read_run(buf, flexible, false) {
        Ok(Some(v)) => match string_from_utf8(v) {
            Some(s) => Ok(Some(s)),
            None => Err(CodecError::InvalidUtf8),
        },
        Ok(None) => Ok(None),
        Err(e) => Err(e),
    }
}

pub fn read_str(buf: &mut Bytes, flexible: bool) -> (r: Result<String, CodecError>)
    ensures
        match p_str(left(*old(buf)), flexible) {
            Ok((t, rest)) => (r matches Ok(x) && x@ == t) && left(*final(buf)) == rest,
            Err(e) => r == Err::<String, CodecError>(e),
        },
{
    proof {
        reveal(p_str);
    }
    match read_nullable_str(buf, flexible) {
        Ok(Some(s)) => Ok(s),
        Ok(None) => Err(CodecError::InvalidLength),
        Err(e) => Err(e),
    }
}

/// Sixteen bytes as they are.
pub fn read_uuid(buf: &mut Bytes) -> (r: Result<[u8; 16], CodecError>)
    ensures
        match p_raw(left(*old(buf)), 16) {
            Ok((b, rest)) => (r matches Ok(id) && id@ == b) && left(*final(buf)) == rest,
            Err(e) => r == Err::<[u8; 16], CodecError>(e),
        },
{
    match read_raw(buf, 16) {
        Ok(v) => {
            let mut id: [u8; 16] = [0u8; 16];
            let mut i: usize = 0;
            while i < 16
                invariant
                    i <= 16,
                    v@.len() == 16,
                    forall|j: int| 0 <= j < i ==> id@[j] == v@[j],
                decreases 16 - i,
            {
                id[i] = v[i];
                i = i + 1;
            }
            assert(id@ =~= v@);
            Ok(id)
        },
        Err(e) => Err(e),
    }
}

pub fn read_i32s(buf: &mut Bytes, flexible: bool) -> (r: Result<Vec<i32>, CodecError>)
    ensures
        match p_i32s(left(*old(buf)), flexible) {
            Ok((xs, rest)) => (r matches Ok(v) && v@ == xs) && left(*final(buf)) == rest,
            Err(e) => r == Err::<Vec<i32>, CodecError>(e),
        },
{
    proof {
        reveal(p_i32s);
        reveal(p_array);
    }
    let n: u64 = match read_array_len(buf, flexible) {
        Ok(x) => x,
        Err(e) => {
            return Err(e);
        },
    };
    let ghost p = |s: Seq<u8>| p_i32(s);
    let ghost start = left(*buf);
    let mut out: Vec<i32> = Vec::new();
    let mut i: u64 = 0;
    while i < n
        invariant
            i <= n,
            p == (|s: Seq<u8>| p_i32(s)),
            p_i32s(left(*old(buf)), flexible) == p_many(p, n as nat, start),
            p_many(p, i as nat, start) == Ok::<(Seq<i32>, Seq<u8>), CodecError>((out@, left(*buf))),
        decreases n - i,
    {
        match read_i32(buf) {
            Ok(x) => {
                out.push(x);
            },
            Err(e) => {
                proof {
                    lemma_many_fails(p, (i + 1) as nat, n as nat, start, e);
                }
                return Err(e);
            },
        }
        i = i + 1;
    }
    Ok(out)
}

/// Passes over the block of tagged fields, where there is one.
pub fn read_tagged(buf: &mut Bytes, flexible: bool) -> (r: Result<(), CodecError>)
    ensures
        match p_tagged_if(left(*old(buf)), flexible) {
            Ok((t, rest)) => r == Ok::<(), CodecError>(()) && left(*final(buf)) == rest,
            Err(e) => r == Err::<(), CodecError>(e),
        },
{
    proof {
        reveal(p_tagged);
    }
    if !flexible {
        return Ok(());
    }
    let mut n: u64 = match read_uvarint(buf) {
        Ok(n) => n,
        Err(e) => {
            return Err(e);
        },
    };
    let ghost want = p_tagged(left(*old(buf)));
    while n > 0
        invariant
            flexible,
            want == p_tagged(left(*old(buf))),
            want == p_tags(left(*buf), n as nat),
        decreases n,
    {
        match read_uvarint(buf) {
            Ok(tag) => {},
            Err(e) => {
                return Err(e);
            },
        }
        match read_uvarint(buf) {
            Ok(size) => match read_sized(buf, size) {
                Ok(v) => {},
                Err(e) => {
                    return Err(e);
                },
            },
            Err(e) => {
                return Err(e);
            },
        }
        n = n - 1;
    }
    Ok(())
}

// Writing.

pub fn write_i8(buf: &mut BytesMut, x: i8)
    ensures
        written(*final(buf)) == written(*old(buf)) + e_i8(x),
{
    proof {
        reveal(e_i8);
    }
    put_byte(buf, #[verifier::truncate] (x as u8));
    assert(written(*buf) =~= written(*old(buf)) + e_i8(x));
}

pub fn write_bool(buf: &mut BytesMut, x: bool)
    ensures
        written(*final(buf)) == written(*old(buf)) + e_bool(x),
{
    proof {
        reveal(e_bool);
    }
    put_byte(buf, if x { 1 } else { 0 });
    assert(written(*buf) =~= written(*old(buf)) + e_bool(x));
}

pub fn write_i16(buf: &mut BytesMut, x: i16)
    ensures
        written(*final(buf)) == written(*old(buf)) + e_i16(x),
{
    proof {
        reveal(e_i16);
    }
    let u: u16 = x as u16;
    put_byte(buf, #[verifier::truncate] ((u >> 8) as u8));
    put_byte(buf, #[verifier::truncate] (u as u8));
    assert(written(*buf) =~= written(*old(buf)) + e_i16(x));
}

pub fn write_i32(buf: &mut BytesMut, x: i32)
    ensures
        written(*final(buf)) == written(*old(buf)) + e_i32(x),
{
    proof {
        reveal(e_i32);
    }
    let u: u32 = x as u32;
    put_byte(buf, #[verifier::truncate] ((u >> 24) as u8));
    put_byte(buf, #[verifier::truncate] ((u >> 16) as u8));
    put_byte(buf, #[verifier::truncate] ((u >> 8) as u8));
    put_byte(buf, #[verifier::truncate] (u as u8));
    assert(written(*buf) =~= written(*old(buf)) + e_i32(x));
}

pub fn write_uvarint(buf: &mut BytesMut, n: u64)
    ensures
        written(*final(buf)) == written(*old(buf)) + e_uvarint(n as nat),
    decreases n,
{
    if n < 128 {
        put_byte(buf, n as u8);
        assert(written(*buf) =~= written(*old(buf)) + e_uvarint(n as nat));
    } else {
        put_byte(buf, (n % 128 + 128) as u8);
        write_uvarint(buf, n / 128);
        assert(written(*buf) =~= written(*old(buf)) + e_uvarint(n as nat));
    }
}

pub fn write_array_len(buf: &mut BytesMut, n: usize, flexible: bool) -> (r: Result<(), CodecError>)
    ensures
        r is Ok <==> array_fits(n as nat, flexible),
        r is Ok ==> written(*final(buf)) == written(*old(buf)) + e_array_len(n as nat, flexible),
        r is Err ==> r == Err::<(), CodecError>(CodecError::InvalidLength) && *final(buf) == *old(buf),
{
    proof {
        reveal(e_array_len);
    }
    if flexible {
        let m: u64 = n as u64;
        if m == u64::MAX {
            return Err(CodecError::InvalidLength);
        }
        write_uvarint(buf, m + 1);
        Ok(())
    } else {
        if n > i32::MAX as usize {
            return Err(CodecError::InvalidLength);
        }
        write_i32(buf, n as i32);
        Ok(())
    }
}

fn write_run(buf: &mut BytesMut, b: &[u8], flexible: bool, wide: bool) -> (r: Result<(), CodecError>)
    ensures
        r is Ok <==> length_fits(b@.len(), flexible, wide),
        r is Ok ==> written(*final(buf)) == written(*old(buf)) + e_run(b@, flexible, wide),
        r is Err ==> r == Err::<(), CodecError>(CodecError::InvalidLength) && *final(buf) == *old(buf),
{
    proof {
        reveal(e_run);
        reveal(e_length);
    }
    let n: usize = b.len();
    if flexible {
        let m: u64 = n as u64;
        if m == u64::MAX {
            return Err(CodecError::InvalidLength);
        }
        write_uvarint(buf, m + 1);
    } else if wide {
        if n > i32::MAX as usize {
            return Err(CodecError::InvalidLength);
        }
        write_i32(buf, n as i32);
    } else {
        if n > i16::MAX as usize {
            return Err(CodecError::InvalidLength);
        }
        write_i16(buf, n as i16);
    }
    put_bytes(buf, b);
    assert(written(*buf) =~= written(*old(buf)) + e_run(b@, flexible, wide));
    Ok(())
}

pub fn write_bytes(buf: &mut BytesMut, b: &[u8], flexible: bool) -> (r: Result<(), CodecError>)
    ensures
        r is Ok <==> bytes_fits(b@.len(), flexible),
        r is Ok ==> written(*final(buf)) == written(*old(buf)) + e_bytes(b@, flexible),
        r is Err ==> r == Err::<(), CodecError>(CodecError::InvalidLength) && *final(buf) == *old(buf),
{
    proof {
        reveal(e_bytes);
    }
    write_run(buf, b, flexible, true)
}

/// Sixteen bytes as they are.
pub fn write_uuid(buf: &mut BytesMut, id: &[u8; 16])
    ensures
        written(*final(buf)) == written(*old(buf)) + id@,
{
    put_bytes(buf, vstd::array::array_as_slice(id));
}

pub fn write_i32s(buf: &mut BytesMut, xs: &[i32], flexible: bool) -> (r: Result<(), CodecError>)
    ensures
        r is Ok <==> array_fits(xs@.len(), flexible),
        r is Ok ==> written(*final(buf)) == written(*old(buf)) + e_i32s(xs@, flexible),
        r is Err ==> r == Err::<(), CodecError>(CodecError::InvalidLength) && *final(buf) == *old(buf),
{
    let ghost all = xs@;
    let ghost enc = |x: i32| e_i32(x);
    match write_array_len(buf, xs.len(), flexible) {
        Ok(t) => {},
        Err(e) => {
            return Err(e);
        },
    }
    let ghost head = written(*buf);
    let mut i: usize = 0;
    assert(head =~= head + e_many(enc, all.take(0)));
    while i < xs.len()
        invariant
            i <= xs@.len(),
            all == xs@,
            array_fits(xs@.len(), flexible),
            enc == (|x: i32| e_i32(x)),
            written(*buf) == head + e_many(enc, all.take(i as int)),
        decreases xs.len() - i,
    {
        write_i32(buf, xs[i]);
        i = i + 1;
        proof {
            assert(all.take(i as int).drop_last() =~= all.take(i - 1));
            lemma_joined(head, e_many(enc, all.take(i - 1)), enc(all[i - 1]));
        }
    }
    proof {
        reveal(e_i32s);
        reveal(e_array);
        assert(all.take(i as int) =~= all);
        assert(written(*buf) =~= written(*old(buf)) + e_i32s(xs@, flexible));
    }
    Ok(())
}

pub fn write_str(buf: &mut BytesMut, s: &str, flexible: bool) -> (r: Result<(), CodecError>)
    ensures
        r is Ok <==> str_fits(s@, flexible),
        r is Ok ==> written(*final(buf)) == written(*old(buf)) + e_str(s@, flexible),
        r is Err ==> r == Err::<(), CodecError>(CodecError::InvalidLength) && *final(buf) == *old(buf),
{
    proof {
        reveal(e_str);
    }
    write_run(buf, s.as_bytes(), flexible, false)
}

pub fn write_nullable_str(buf: &mut BytesMut, s: &Option<String>, flexible: bool) -> (r: Result<(), CodecError>)
    ensures
        r is Ok <==> opt_fits(text::opt_text(*s), flexible),
        r is Ok ==> written(*final(buf)) == written(*old(buf)) + e_nullable_str(text::opt_text(*s), flexible),
        r is Err ==> r == Err::<(), CodecError>(CodecError::InvalidLength) && *final(buf) == *old(buf),
{
    proof {
        reveal(e_nullable_str);
        reveal(e_null);
    }
    match s {
        Some(t) => write_str(buf, t, flexible),
        None => {
            if flexible {
                write_uvarint(buf, 0);
            } else {
                write_i16(buf, -1);
            }
            Ok(())
        },
    }
}

/// An empty block of tagged fields, where there is one.
pub fn write_tagged(buf: &mut BytesMut, flexible: bool)
    ensures
        written(*final(buf)) == written(*old(buf)) + e_tagged_if(flexible),
{
    proof {
        reveal(e_tagged_if);
    }
    if flexible {
        put_byte(buf, 0);
    }
    assert(written(*buf) =~= written(*old(buf)) + e_tagged_if(flexible));
}

} // verus!
