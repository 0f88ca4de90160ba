//! Where every field of a message stands on the wire.
//!
//! The numbers are big-endian, the fields follow each other without gaps, and
//! from one version to the next a message differs by the fields that its
//! version adds.

use vstd::prelude::*;
use vstd::utf8;
use crate::api::alter_user_scram_credentials as alter;
use crate::api::common;
use crate::api::common::CodecError;
use crate::api::describe_cluster as cluster;
use crate::api::describe_user_scram_credentials as describe;
use crate::api::metadata;

verus! {

/// The 16-bit number whose two bytes stand at `k`.
pub open spec fn i16_at(s: Seq<u8>, k: int) -> int {
    let u = s[k] * 256 + s[k + 1];
    if u >= 32768 {
        u - 65536
    } else {
        u
    }
}

/// The 32-bit number whose four bytes stand at `k`.
pub open spec fn i32_at(s: Seq<u8>, k: int) -> int {
    let u = s[k] * 16777216 + s[k + 1] * 65536 + s[k + 2] * 256 + s[k + 3];
    if u >= 2147483648 {
        u - 4294967296
    } else {
        u
    }
}

proof fn lemma_join16(a: u8, b: u8)
    ensures
        common::join16(a, b) == (if a * 256 + b >= 32768 {
            a * 256 + b - 65536
        } else {
            a * 256 + b
        }),
{
    assert((((a as u16) << 8) | (b as u16)) as i16 as int == (if a >= 128 {
        a * 256 + b - 65536
    } else {
        a * 256 + b
    })) by (bit_vector);
}

proof fn lemma_join32(a: u8, b: u8, c: u8, d: u8)
    ensures
        common::join32(a, b, c, d) == (if a * 16777216 + b * 65536 + c * 256 + d >= 2147483648 {
            a * 16777216 + b * 65536 + c * 256 + d - 4294967296
        } else {
            a * 16777216 + b * 65536 + c * 256 + d
        }),
{
    assert((((a as u32) << 24) | ((b as u32) << 16) | ((c as u32) << 8) | (d as u32)) as i32 as int == (if a >= 128 {
        a * 16777216 + b * 65536 + c * 256 + d - 4294967296
    } else {
        a * 16777216 + b * 65536 + c * 256 + d
    })) by (bit_vector);
}

// The elements.

/// Numbers are read big-endian, from as many bytes as they are wide; the rest
/// is left. Without those bytes there is an error.
pub proof fn law_numbers_are_read_big_endian(s: Seq<u8>)
    ensures
        s.len() < 1 ==> common::p_bool(s) == Err::<(bool, Seq<u8>), CodecError>(CodecError::UnexpectedEof) && common::p_i8(s) == Err::<
            (i8, Seq<u8>),
            CodecError,
        >(CodecError::UnexpectedEof),
        s.len() >= 1 ==> common::p_bool(s) == Ok::<(bool, Seq<u8>), CodecError>((s[0] != 0, s.skip(1))) && (common::p_i8(s) matches Ok(
            (x, rest),
        ) && x == (if s[0] >= 128 {
            s[0] - 256
        } else {
            s[0] as int
        }) && rest == s.skip(1)),
        s.len() < 2 ==> common::p_i16(s) == Err::<(i16, Seq<u8>), CodecError>(CodecError::UnexpectedEof),
        s.len() >= 2 ==> (common::p_i16(s) matches Ok((x, rest)) && x == i16_at(s, 0) && rest == s.skip(2)),
        s.len() < 4 ==> common::p_i32(s) == Err::<(i32, Seq<u8>), CodecError>(CodecError::UnexpectedEof),
        s.len() >= 4 ==> (common::p_i32(s) matches Ok((x, rest)) && x == i32_at(s, 0) && rest == s.skip(4)),
{
    reveal(common::p_bool);
    reveal(common::p_i8);
    reveal(common::p_i16);
    reveal(common::p_i32);
    if s.len() >= 1 {
        let a = s[0];
        assert(a as i8 as int == (if a >= 128 {
            a - 256
        } else {
            a as int
        })) by (bit_vector);
    }
    if s.len() >= 2 {
        lemma_join16(s[0], s[1]);
    }
    if s.len() >= 4 {
        lemma_join32(s[0], s[1], s[2], s[3]);
    }
}

/// Numbers are written big-endian, in as many bytes as they are wide.
pub proof fn law_numbers_are_written_big_endian(a: i8, b: bool, c: i16, d: i32)
    ensures
        common::e_i8(a).len() == 1 && common::e_i8(a)[0] == (if a < 0 {
            a + 256
        } else {
            a as int
        }),
        common::e_bool(b).len() == 1 && common::e_bool(b)[0] == (if b {
            1int
        } else {
            0
        }),
        common::e_i16(c).len() == 2 && i16_at(common::e_i16(c), 0) == c,
        common::e_i32(d).len() == 4 && i32_at(common::e_i32(d), 0) == d,
{
    reveal(common::e_i8);
    reveal(common::e_bool);
    reveal(common::e_i16);
    reveal(common::e_i32);
    assert(a as u8 as int == (if a < 0 {
        a + 256
    } else {
        a as int
    })) by (bit_vector);
    let none = Seq::<u8>::empty();
    common::lemma_i16(c, none);
    common::lemma_i32(d, none);
    assert(common::e_i16(c) + none =~= common::e_i16(c));
    assert(common::e_i32(d) + none =~= common::e_i32(d));
    law_numbers_are_read_big_endian(common::e_i16(c));
    law_numbers_are_read_big_endian(common::e_i32(d));
}

/// What septets stand for: seven bits a byte, the least first.
pub open spec fn septets_value(s: Seq<u8>) -> int
    decreases s.len(),
{
    if s.len() == 0 {
        0
    } else {
        s[0] % 128 + 128 * septets_value(s.skip(1))
    }
}

/// A variable-length number is written in septets, every byte but the last
/// with its high bit set, in no more bytes than it needs.
pub proof fn law_uvarint_is_written_in_septets(n: nat)
    ensures
        common::e_uvarint(n).len() > 0,
        septets_value(common::e_uvarint(n)) == n,
        common::e_uvarint(n).last() < 128,
        forall|i: int| 0 <= i < common::e_uvarint(n).len() - 1 ==> #[trigger] common::e_uvarint(n)[i] >= 128,
        common::e_uvarint(n).len() > 1 ==> common::e_uvarint(n).last() != 0,
        n < 128 ==> common::e_uvarint(n).len() == 1,
    decreases n,
{
    let s = common::e_uvarint(n);
    if n < 128 {
        assert(s.skip(1) =~= Seq::empty());
        assert(septets_value(s.skip(1)) == 0);
        assert(s[0] == n);
    } else {
        law_uvarint_is_written_in_septets(n / 128);
        let t = common::e_uvarint(n / 128);
        assert(s.skip(1) =~= t);
        assert(s[0] == n % 128 + 128);
        assert((n % 128 + 128) % 128 == n % 128);
        assert(septets_value(s) == s[0] % 128 + 128 * septets_value(t));
        assert forall|i: int| 0 <= i < s.len() - 1 implies #[trigger] s[i] >= 128 by {
            if i > 0 {
                assert(s[i] == t[i - 1]);
            }
        }
        assert(s.last() == t.last());
        assert(n / 128 >= 1);
        assert(t.len() == 1 ==> t[0] == septets_value(t) % 128) by {
            if t.len() == 1 {
                assert(t.skip(1) =~= Seq::empty());
            }
        }
    }
}

/// A string is its length and its bytes in UTF-8. The length takes two bytes,
/// and in the compact form it is a variable-length number that is greater by
/// one. Nothing stands for a missing string but -1, or zero in the compact
/// form.
pub proof fn law_strings_are_counted(t: Seq<char>, b: Seq<u8>)
    ensures
        common::str_fits(t, false) ==> common::e_str(t, false) == common::e_i16(utf8::encode_utf8(t).len() as i16) + utf8::encode_utf8(t),
        common::e_str(t, true) == common::e_uvarint(utf8::encode_utf8(t).len() + 1) + utf8::encode_utf8(t),
        common::e_nullable_str(Some(t), true) == common::e_str(t, true),
        common::e_nullable_str(Some(t), false) == common::e_str(t, false),
        common::e_nullable_str(None, false) == seq![255u8, 255u8],
        common::e_nullable_str(None, true) == seq![0u8],
        common::e_bytes(b, true) == common::e_uvarint(b.len() + 1) + b,
        common::e_bytes(b, false) == common::e_i32(b.len() as i32) + b,
        common::str_fits(t, false) <==> utf8::encode_utf8(t).len() <= 32767,
        common::str_fits(t, true) <==> utf8::encode_utf8(t).len() < 18446744073709551615,
{
    reveal(common::e_str);
    reveal(common::e_run);
    reveal(common::e_length);
    reveal(common::e_nullable_str);
    reveal(common::e_null);
    reveal(common::e_bytes);
    reveal(common::e_i16);
    assert((((-1i16) as u16) >> 8) as u8 == 255u8 && ((-1i16) as u16) as u8 == 255u8) by (bit_vector);
    assert(common::e_nullable_str(None, false) =~= seq![255u8, 255u8]);
    assert(common::e_nullable_str(None, true) =~= seq![0u8]);
}

/// An array is its number of items, in four bytes or in the compact form, and
/// then its items, each behind the one before it.
pub proof fn law_arrays_are_counted<T>(enc: spec_fn(T) -> Seq<u8>, xs: Seq<T>, i: int)
    requires
        0 <= i < xs.len(),
    ensures
        common::e_array(enc, xs, false) == common::e_i32(xs.len() as i32) + common::e_many(enc, xs),
        common::e_array(enc, xs, true) == common::e_uvarint(xs.len() + 1) + common::e_many(enc, xs),
        common::e_many(enc, xs.take(i + 1)) == common::e_many(enc, xs.take(i)) + enc(xs[i]),
        common::e_many(enc, xs.take(0)).len() == 0,
        xs.take(xs.len() as int) == xs,
{
    reveal(common::e_array);
    reveal(common::e_array_len);
    assert(xs.take(i + 1).drop_last() =~= xs.take(i));
    assert(xs.take(i + 1).last() == xs[i]);
    assert(xs.take(xs.len() as int) =~= xs);
}

/// An empty array is its number of items alone.
pub proof fn law_empty_array_is_a_count<T>(enc: spec_fn(T) -> Seq<u8>)
    ensures
        common::e_array(enc, Seq::empty(), false) == seq![0u8, 0u8, 0u8, 0u8],
        common::e_array(enc, Seq::empty(), true) == seq![1u8],
        common::array_fits(0, false) && common::array_fits(0, true),
{
    reveal(common::e_array);
    reveal(common::e_array_len);
    reveal(common::e_i32);
    assert(((0i32 as u32) >> 24) as u8 == 0u8 && ((0i32 as u32) >> 16) as u8 == 0u8 && ((0i32 as u32) >> 8) as u8 == 0u8 && (0i32 as u32) as u8
        == 0u8) by (bit_vector);
    assert(common::e_array(enc, Seq::empty(), false) =~= seq![0u8, 0u8, 0u8, 0u8]);
    assert(common::e_array(enc, Seq::empty(), true) =~= seq![1u8]);
}

/// Arrays of numbers hold them in order, four bytes each; the block of tagged
/// fields is one zero byte, and only the compact form has it.
pub proof fn law_number_arrays(xs: Seq<i32>, i: int)
    requires
        0 <= i < xs.len(),
    ensures
        common::e_i32s(xs, false).len() == 4 + 4 * xs.len(),
        xs.len() <= i32::MAX ==> i32_at(common::e_i32s(xs, false), 0) == xs.len(),
        i32_at(common::e_i32s(xs, false), 4 + 4 * i) == xs[i],
        common::e_i32s(xs, true).len() == common::e_uvarint(xs.len() + 1).len() + 4 * xs.len(),
        common::e_i32s(xs, true).take(common::e_uvarint(xs.len() + 1).len() as int) == common::e_uvarint(xs.len() + 1),
        i32_at(common::e_i32s(xs, true), common::e_uvarint(xs.len() + 1).len() + 4 * i) == xs[i],
        common::e_tagged_if(true) == seq![0u8],
        common::e_tagged_if(false) == Seq::<u8>::empty(),
{
    reveal(common::e_i32s);
    reveal(common::e_tagged_if);
    let enc = |x: i32| common::e_i32(x);
    law_arrays_are_counted(enc, xs, i);
    lemma_number_items(enc, xs, i);
    law_numbers_are_written_big_endian(0, false, 0, xs.len() as i32);
    law_numbers_are_written_big_endian(0, false, 0, xs[i]);
    let m = common::e_many(enc, xs);
    let a = common::e_i32(xs.len() as i32);
    let b = common::e_uvarint(xs.len() + 1);
    assert((a + m)[4 + 4 * i] == m[4 * i] && (a + m)[4 + 4 * i + 1] == m[4 * i + 1] && (a + m)[4 + 4 * i + 2] == m[4 * i + 2] && (a + m)[4 + 4
        * i + 3] == m[4 * i + 3]);
    let o = b.len() + 4 * i;
    assert((b + m)[o] == m[4 * i] && (b + m)[o + 1] == m[4 * i + 1] && (b + m)[o + 2] == m[4 * i + 2] && (b + m)[o + 3] == m[4 * i + 3]);
    assert((b + m).take(b.len() as int) =~= b);
}

proof fn lemma_number_items(enc: spec_fn(i32) -> Seq<u8>, xs: Seq<i32>, i: int)
    requires
        0 <= i < xs.len(),
        enc == (|x: i32| common::e_i32(x)),
    ensures
        common::e_many(enc, xs).len() == 4 * xs.len(),
        i32_at(common::e_many(enc, xs), 4 * i) == xs[i],
    decreases xs.len(),
{
    let d = xs.drop_last();
    let m = common::e_many(enc, d);
    let last = common::e_i32(xs.last());
    law_numbers_are_written_big_endian(0, false, 0, xs.last());
    assert(common::e_many(enc, xs) == m + last);
    if d.len() > 0 {
        lemma_number_items(enc, d, if i < d.len() { i } else { 0 });
    }
    assert(m.len() == 4 * d.len());
    let all = m + last;
    if i < d.len() {
        assert(all[4 * i] == m[4 * i] && all[4 * i + 1] == m[4 * i + 1] && all[4 * i + 2] == m[4 * i + 2] && all[4 * i + 3] == m[4 * i + 3]);
        assert(d[i] == xs[i]);
    } else {
        assert(all[4 * i] == last[0] && all[4 * i + 1] == last[1] && all[4 * i + 2] == last[2] && all[4 * i + 3] == last[3]);
    }
}

/// What is read of a length: in the compact form one less than the number,
/// with zero for nothing; else the number, with -1 for nothing, and none below
/// that.
pub proof fn law_lengths_are_read(s: Seq<u8>, wide: bool)
    ensures
        common::p_length(s, true, wide) == (match common::p_uvarint(s) {
            Err(e) => Err::<(Option<nat>, Seq<u8>), CodecError>(e),
            Ok((n, rest)) => Ok((if n == 0 { None } else { Some((n - 1) as nat) }, rest)),
        }),
        s.len() >= 2 ==> (i16_at(s, 0) == -1 ==> common::p_length(s, false, false) == Ok::<(Option<nat>, Seq<u8>), CodecError>((None, s.skip(2)))),
        s.len() >= 2 ==> (i16_at(s, 0) < -1 ==> common::p_length(s, false, false) == Err::<(Option<nat>, Seq<u8>), CodecError>(CodecError::InvalidLength)),
        s.len() >= 2 ==> (i16_at(s, 0) >= 0 ==> common::p_length(s, false, false) == Ok::<(Option<nat>, Seq<u8>), CodecError>((Some(i16_at(s, 0) as nat), s.skip(2)))),
        s.len() >= 4 ==> (i32_at(s, 0) == -1 ==> common::p_length(s, false, true) == Ok::<(Option<nat>, Seq<u8>), CodecError>((None, s.skip(4)))),
        s.len() >= 4 ==> (i32_at(s, 0) < -1 ==> common::p_length(s, false, true) == Err::<(Option<nat>, Seq<u8>), CodecError>(CodecError::InvalidLength)),
        s.len() >= 4 ==> (i32_at(s, 0) >= 0 ==> common::p_length(s, false, true) == Ok::<(Option<nat>, Seq<u8>), CodecError>((Some(i32_at(s, 0) as nat), s.skip(4)))),
        s.len() >= 4 ==> (i32_at(s, 0) == -1 ==> common::p_array_len(s, false) == Ok::<(nat, Seq<u8>), CodecError>((0, s.skip(4)))),
        s.len() >= 4 ==> (i32_at(s, 0) < -1 ==> common::p_array_len(s, false) == Err::<(nat, Seq<u8>), CodecError>(CodecError::InvalidLength)),
        s.len() >= 4 ==> (i32_at(s, 0) >= 0 ==> common::p_array_len(s, false) == Ok::<(nat, Seq<u8>), CodecError>((i32_at(s, 0) as nat, s.skip(4)))),
        common::p_array_len(s, true) == (match common::p_uvarint(s) {
            Err(e) => Err::<(nat, Seq<u8>), CodecError>(e),
            Ok((n, rest)) => Ok((if n == 0 { 0 } else { (n - 1) as nat }, rest)),
        }),
        s.len() < 4 ==> common::p_array_len(s, false) == Err::<(nat, Seq<u8>), CodecError>(CodecError::UnexpectedEof),
        s.len() < 2 ==> common::p_length(s, false, false) == Err::<(Option<nat>, Seq<u8>), CodecError>(CodecError::UnexpectedEof),
{
    reveal(common::p_length);
    reveal(common::p_array_len);
    law_numbers_are_read_big_endian(s);
}

/// A string that is read takes as many bytes as its length says, which have to
/// be there and to be UTF-8; nothing is a string only where it may be missing.
pub proof fn law_strings_are_read(s: Seq<u8>, flexible: bool)
    ensures
        match common::p_length(s, flexible, false) {
            Err(e) => common::p_nullable_str(s, flexible) == Err::<(Option<Seq<char>>, Seq<u8>), CodecError>(e) && common::p_str(s, flexible)
                == Err::<(Seq<char>, Seq<u8>), CodecError>(e),
            Ok((None, rest)) => common::p_nullable_str(s, flexible) == Ok::<(Option<Seq<char>>, Seq<u8>), CodecError>((None, rest)) && common::p_str(
                s,
                flexible,
            ) == Err::<(Seq<char>, Seq<u8>), CodecError>(CodecError::InvalidLength),
            Ok((Some(n), rest)) => if rest.len() < n {
                common::p_nullable_str(s, flexible) == Err::<(Option<Seq<char>>, Seq<u8>), CodecError>(CodecError::UnexpectedEof)
                    && common::p_str(s, flexible) == Err::<(Seq<char>, Seq<u8>), CodecError>(CodecError::UnexpectedEof)
            } else if !utf8::valid_utf8(rest.take(n as int)) {
                common::p_nullable_str(s, flexible) == Err::<(Option<Seq<char>>, Seq<u8>), CodecError>(CodecError::InvalidUtf8)
                    && common::p_str(s, flexible) == Err::<(Seq<char>, Seq<u8>), CodecError>(CodecError::InvalidUtf8)
            } else {
                common::p_nullable_str(s, flexible) == Ok::<(Option<Seq<char>>, Seq<u8>), CodecError>(
                    (Some(utf8::decode_utf8(rest.take(n as int))), rest.skip(n as int)),
                ) && common::p_str(s, flexible) == Ok::<(Seq<char>, Seq<u8>), CodecError>(
                    (utf8::decode_utf8(rest.take(n as int)), rest.skip(n as int)),
                )
            },
        },
{
    reveal(common::p_nullable_str);
    reveal(common::p_str);
    reveal(common::p_run);
}

// Metadata.

/// A partition in a Metadata response: its error at byte 0, its number at byte
/// 2, its leader at byte 6, from version 7 the leader's epoch at byte 10, and
/// then its replicas, those in sync, from version 5 those offline, and from
/// version 9 the tagged fields.
pub proof fn law_partition_layout(x: metadata::PartitionModel, v: i16)
    ensures
        ({
            let s = metadata::e_partition(x, v);
            let head = common::e_i16(x.error_code) + common::e_i32(x.partition_index) + common::e_i32(x.leader_id);
            let epoch = common::e_i32(x.leader_epoch);
            &&& i16_at(s, 0) == x.error_code
            &&& i32_at(s, 2) == x.partition_index
            &&& i32_at(s, 6) == x.leader_id
            &&& v >= 7 ==> i32_at(s, 10) == x.leader_epoch
            &&& v <= 4 ==> s == head + common::e_i32s(x.replica_nodes, false) + common::e_i32s(x.isr_nodes, false)
            &&& 5 <= v <= 6 ==> s == head + common::e_i32s(x.replica_nodes, false) + common::e_i32s(x.isr_nodes, false) + common::e_i32s(
                x.offline_replicas,
                false,
            )
            &&& 7 <= v <= 8 ==> s == head + epoch + common::e_i32s(x.replica_nodes, false) + common::e_i32s(x.isr_nodes, false)
                + common::e_i32s(x.offline_replicas, false)
            &&& v >= 9 ==> s == head + epoch + common::e_i32s(x.replica_nodes, true) + common::e_i32s(x.isr_nodes, true) + common::e_i32s(
                x.offline_replicas,
                true,
            ) + seq![0u8]
        }),
{
    reveal(common::e_tagged_if);
    law_numbers_are_written_big_endian(0, false, x.error_code, x.partition_index);
    law_numbers_are_written_big_endian(0, false, x.error_code, x.leader_id);
    law_numbers_are_written_big_endian(0, false, x.error_code, x.leader_epoch);
    broadcast use common::lemma_joined;
    broadcast use common::lemma_nothing;
    let s = metadata::e_partition(x, v);
    let a = common::e_i16(x.error_code);
    let b = common::e_i32(x.partition_index);
    let c = common::e_i32(x.leader_id);
    let d = common::e_i32(x.leader_epoch);
    let tail = s.skip(10);
    assert(s.len() >= 10);
    assert(s =~= a + (b + (c + tail)));
    assert(s[0] == a[0] && s[1] == a[1]);
    assert(s[2] == b[0] && s[3] == b[1] && s[4] == b[2] && s[5] == b[3]);
    assert(s[6] == c[0] && s[7] == c[1] && s[8] == c[2] && s[9] == c[3]);
    if v >= 7 {
        assert(s.len() >= 14);
        assert(s[10] == d[0] && s[11] == d[1] && s[12] == d[2] && s[13] == d[3]);
    }
    assert(s == (a + b + c) + ((if v >= 7 { d } else { Seq::empty() }) + (common::e_i32s(x.replica_nodes, v >= 9) + (common::e_i32s(
        x.isr_nodes,
        v >= 9,
    ) + ((if v >= 5 { common::e_i32s(x.offline_replicas, v >= 9) } else { Seq::empty() }) + common::e_tagged_if(v >= 9))))));
    lemma_nothing_first(common::e_i32s(x.replica_nodes, v >= 9) + (common::e_i32s(x.isr_nodes, v >= 9) + ((if v >= 5 {
        common::e_i32s(x.offline_replicas, v >= 9)
    } else {
        Seq::empty()
    }) + common::e_tagged_if(v >= 9))));
    lemma_nothing_first(common::e_tagged_if(v >= 9));
}

proof fn lemma_nothing_first(a: Seq<u8>)
    ensures
        Seq::<u8>::empty() + a == a,
{
    assert(Seq::<u8>::empty() + a =~= a);
}

/// A partition that is read has its fields from those places.
pub proof fn law_partition_is_read_by_place(s: Seq<u8>, v: i16)
    ensures
        metadata::p_partition(s, v) matches Ok((x, rest)) ==> s.len() >= 10 && x.error_code == i16_at(s, 0) && x.partition_index == i32_at(s, 2)
            && x.leader_id == i32_at(s, 6) && (v >= 7 ==> s.len() >= 14 && x.leader_epoch == i32_at(s, 10)) && (v < 7 ==> x.leader_epoch == -1)
            && (v < 5 ==> x.offline_replicas.len() == 0),
{
    law_numbers_are_read_big_endian(s);
    if s.len() >= 2 {
        let a = s.skip(2);
        law_numbers_are_read_big_endian(a);
        if a.len() >= 4 {
            let b = a.skip(4);
            law_numbers_are_read_big_endian(b);
            assert(b =~= s.skip(6));
            if b.len() >= 4 {
                let c = b.skip(4);
                law_numbers_are_read_big_endian(c);
                assert(c =~= s.skip(10));
            }
        }
    }
}

/// A topic in a Metadata response: error, name, from version 10 its identity,
/// the internal flag, the partitions, from version 8 the authorized
/// operations, from version 9 the tagged fields.
pub proof fn law_topic_layout(x: metadata::TopicModel, v: i16)
    requires
        v >= 1,
    ensures
        ({
            let s = metadata::e_topic(x, v);
            let error = common::e_i16(x.error_code);
            let internal = common::e_bool(x.is_internal);
            let ops = common::e_i32(x.topic_authorized_operations);
            let parts = |flexible: bool| common::e_array(metadata::partition_writer(v), x.partitions, flexible);
            &&& i16_at(s, 0) == x.error_code
            &&& v <= 7 ==> s == error + common::e_str(x.name, false) + internal + parts(false)
            &&& v == 8 ==> s == error + common::e_str(x.name, false) + internal + parts(false) + ops
            &&& v == 9 ==> s == error + common::e_str(x.name, true) + internal + parts(true) + ops + seq![0u8]
            &&& v >= 10 ==> s == error + common::e_str(x.name, true) + x.topic_id + internal + parts(true) + ops + seq![0u8]
        }),
{
    reveal(common::e_tagged_if);
    broadcast use common::lemma_joined;
    broadcast use common::lemma_nothing;
    law_numbers_are_written_big_endian(0, x.is_internal, x.error_code, x.topic_authorized_operations);
    let s = metadata::e_topic(x, v);
    let error = common::e_i16(x.error_code);
    assert(s =~= error + s.skip(2));
    assert(s[0] == error[0] && s[1] == error[1]);
    lemma_nothing_first(common::e_tagged_if(v >= 9));
    let parts = common::e_array(metadata::partition_writer(v), x.partitions, v >= 9) + ((if v >= 8 {
        common::e_i32(x.topic_authorized_operations)
    } else {
        Seq::empty()
    }) + common::e_tagged_if(v >= 9));
    lemma_nothing_first(common::e_bool(x.is_internal) + parts);
}

/// A broker in a Metadata response: id, host, port, rack, from version 9 the
/// tagged fields.
pub proof fn law_broker_layout(x: metadata::BrokerModel, v: i16)
    requires
        v >= 1,
    ensures
        ({
            let s = metadata::e_broker(x, v);
            &&& i32_at(s, 0) == x.node_id
            &&& v <= 8 ==> s == common::e_i32(x.node_id) + common::e_str(x.host, false) + common::e_i32(x.port) + common::e_nullable_str(x.rack, false)
            &&& v >= 9 ==> s == common::e_i32(x.node_id) + common::e_str(x.host, true) + common::e_i32(x.port) + common::e_nullable_str(x.rack, true)
                + seq![0u8]
        }),
{
    reveal(common::e_tagged_if);
    broadcast use common::lemma_joined;
    broadcast use common::lemma_nothing;
    law_numbers_are_written_big_endian(0, false, 0, x.node_id);
    let s = metadata::e_broker(x, v);
    let id = common::e_i32(x.node_id);
    assert(s =~= id + s.skip(4));
    assert(s[0] == id[0] && s[1] == id[1] && s[2] == id[2] && s[3] == id[3]);
}

/// A Metadata response: from version 3 the throttle time, the brokers, from
/// version 2 the cluster id, the controller, the topics, from version 8 the
/// authorized operations, from version 9 the tagged fields.
pub proof fn law_response_layout(x: metadata::ResponseModel, v: i16)
    requires
        1 <= v <= 10,
    ensures
        ({
            let s = metadata::e_response(x, v);
            let throttle = common::e_i32(x.throttle_time_ms);
            let controller = common::e_i32(x.controller_id);
            let ops = common::e_i32(x.cluster_authorized_operations);
            let brokers = |flexible: bool| common::e_array(metadata::broker_writer(v), x.brokers, flexible);
            let topics = |flexible: bool| common::e_array(metadata::topic_writer(v), x.topics, flexible);
            &&& v >= 3 ==> i32_at(s, 0) == x.throttle_time_ms
            &&& v == 1 ==> s == brokers(false) + controller + topics(false)
            &&& v == 2 ==> s == brokers(false) + common::e_nullable_str(x.cluster_id, false) + controller + topics(false)
            &&& 3 <= v <= 7 ==> s == throttle + brokers(false) + common::e_nullable_str(x.cluster_id, false) + controller + topics(false)
            &&& v == 8 ==> s == throttle + brokers(false) + common::e_nullable_str(x.cluster_id, false) + controller + topics(false) + ops
            &&& v >= 9 ==> s == throttle + brokers(true) + common::e_nullable_str(x.cluster_id, true) + controller + topics(true) + ops + seq![0u8]
        }),
{
    reveal(common::e_tagged_if);
    broadcast use common::lemma_joined;
    broadcast use common::lemma_nothing;
    law_numbers_are_written_big_endian(0, false, 0, x.throttle_time_ms);
    let s = metadata::e_response(x, v);
    let throttle = common::e_i32(x.throttle_time_ms);
    if v >= 3 {
        assert(s =~= throttle + s.skip(4));
        assert(s[0] == throttle[0] && s[1] == throttle[1] && s[2] == throttle[2] && s[3] == throttle[3]);
    }
    let flexible = v >= 9;
    let t6 = common::e_tagged_if(flexible);
    let t5 = (if v >= 8 { common::e_i32(x.cluster_authorized_operations) } else { Seq::empty() }) + t6;
    let t4 = common::e_array(metadata::topic_writer(v), x.topics, flexible) + t5;
    let t3 = common::e_i32(x.controller_id) + t4;
    let t2 = (if v >= 2 { common::e_nullable_str(x.cluster_id, flexible) } else { Seq::empty() }) + t3;
    let t1 = common::e_array(metadata::broker_writer(v), x.brokers, flexible) + t2;
    assert(s == (if v >= 3 { throttle } else { Seq::empty() }) + t1);
    lemma_nothing_first(t6);
    lemma_nothing_first(t3);
    lemma_nothing_first(t1);
}

/// A Metadata request: the topics, each from version 10 with 16 bytes of
/// identity before its name; from version 4 whether topics may be created;
/// from version 8 whether the operations on the cluster and on the topics are
/// asked for, in that order; from version 9 the tagged fields.
pub proof fn law_request_layout(x: metadata::RequestModel, name: Seq<char>, v: i16)
    requires
        1 <= v <= 10,
    ensures
        ({
            let s = metadata::e_request(x, v);
            let topics = |flexible: bool| common::e_array(metadata::name_writer(v), x.topics, flexible);
            let create = common::e_bool(x.allow_auto_topic_creation);
            let cluster_ops = common::e_bool(x.include_cluster_authorized_operations);
            let topic_ops = common::e_bool(x.include_topic_authorized_operations);
            &&& v <= 3 ==> s == topics(false)
            &&& 4 <= v <= 7 ==> s == topics(false) + create
            &&& v == 8 ==> s == topics(false) + create + cluster_ops + topic_ops
            &&& v >= 9 ==> s == topics(true) + create + cluster_ops + topic_ops + seq![0u8]
            &&& v <= 8 ==> metadata::e_topic_name(name, v) == common::e_str(name, false)
            &&& v == 9 ==> metadata::e_topic_name(name, v) == common::e_str(name, true) + seq![0u8]
            &&& v == 10 ==> metadata::e_topic_name(name, v).len() > 16 && metadata::e_topic_name(name, v).skip(16) == common::e_str(name, true)
                + seq![0u8]
        }),
{
    reveal(common::e_tagged_if);
    reveal(common::e_nullable_str);
    broadcast use common::lemma_joined;
    broadcast use common::lemma_nothing;
    lemma_nothing_first(Seq::<u8>::empty());
    if v == 10 {
        let e = metadata::e_topic_name(name, v);
        let id = metadata::NULL_TOPIC_ID@;
        assert(id.len() == 16);
        assert(e.skip(16) =~= common::e_str(name, true) + seq![0u8]);
    }
}

/// What a Metadata request asks: the topics that have a name, in their order;
/// topics may be created unless it says otherwise, and operations are given
/// only where it asks for them.
pub proof fn law_request_defaults(x: metadata::RequestModel, v: i16)
    ensures
        ({
            let seen = metadata::request_at(x, v);
            &&& seen.topics == x.topics
            &&& v < 4 ==> seen.allow_auto_topic_creation
            &&& v >= 4 ==> seen.allow_auto_topic_creation == x.allow_auto_topic_creation
            &&& v < 8 ==> !seen.include_cluster_authorized_operations && !seen.include_topic_authorized_operations
            &&& 8 <= v <= 10 ==> seen.include_cluster_authorized_operations == x.include_cluster_authorized_operations
            &&& v >= 8 ==> seen.include_topic_authorized_operations == x.include_topic_authorized_operations
        }),
{
}

/// What a reader of a version sees of a response: every field that the version
/// carries as it was written, and of the others -1 for the controller and the
/// leader's epoch, and nothing else.
pub proof fn law_response_defaults(x: metadata::ResponseModel, v: i16, i: int, j: int)
    requires
        1 <= v <= 10,
    ensures
        ({
            let r = metadata::response_at(x, v);
            &&& r.throttle_time_ms == (if v >= 3 { x.throttle_time_ms } else { 0 })
            &&& r.cluster_id == (if v >= 2 { x.cluster_id } else { None })
            &&& r.controller_id == x.controller_id
            &&& r.cluster_authorized_operations == (if v >= 8 { x.cluster_authorized_operations } else { 0 })
            &&& r.brokers == x.brokers
            &&& r.topics.len() == x.topics.len()
            &&& 0 <= i < x.topics.len() ==> {
                let (a, b) = (r.topics[i], x.topics[i]);
                &&& a.error_code == b.error_code && a.name == b.name && a.is_internal == b.is_internal
                &&& v >= 10 ==> a.topic_id == b.topic_id
                &&& v < 10 ==> a.topic_id == Seq::new(16, |k: int| 0u8)
                &&& a.topic_authorized_operations == (if v >= 8 { b.topic_authorized_operations } else { 0 })
                &&& a.partitions.len() == b.partitions.len()
                &&& 0 <= j < b.partitions.len() ==> {
                    let (p, q) = (a.partitions[j], b.partitions[j]);
                    &&& p.error_code == q.error_code && p.partition_index == q.partition_index && p.leader_id == q.leader_id
                    &&& p.replica_nodes == q.replica_nodes && p.isr_nodes == q.isr_nodes
                    &&& p.leader_epoch == (if v >= 7 { q.leader_epoch as int } else { -1 })
                    &&& v >= 5 ==> p.offline_replicas == q.offline_replicas
                    &&& v < 5 ==> p.offline_replicas.len() == 0
                }
            }
        }),
{
    let r = metadata::response_at(x, v);
    assert(r.brokers =~= x.brokers);
    assert(metadata::NULL_TOPIC_ID@ =~= Seq::new(16, |k: int| 0u8));
}

// DescribeCluster.

/// A DescribeCluster request: the flag for authorized operations at byte 0,
/// from version 1 the kind of endpoint at byte 1, from version 2 the flag for
/// fenced brokers at byte 2, then the tagged fields.
pub proof fn law_cluster_request_layout(r: cluster::Request, v: i16)
    requires
        0 <= v,
    ensures
        ({
            let s = cluster::e_request(r, v);
            let ops = common::e_bool(r.include_cluster_authorized_operations);
            let kind = common::e_i8(r.endpoint_type);
            let fenced = common::e_bool(r.include_fenced_brokers);
            &&& v == 0 ==> s == ops + seq![0u8]
            &&& v == 1 ==> s == ops + kind + seq![0u8]
            &&& v >= 2 ==> s == ops + kind + fenced + seq![0u8]
        }),
{
    reveal(common::e_tagged_if);
    broadcast use common::lemma_joined;
    broadcast use common::lemma_nothing;
    lemma_nothing_first(seq![0u8]);
}

/// A DescribeCluster response and a broker in it, field by field.
pub proof fn law_cluster_response_layout(r: cluster::ResponseModel, b: cluster::BrokerModel, v: i16)
    requires
        0 <= v,
    ensures
        ({
            let s = cluster::e_response(r, v);
            let head = common::e_i32(r.throttle_time_ms) + common::e_i16(r.error_code) + common::e_nullable_str(r.error_message, true);
            let tail = common::e_str(r.cluster_id, true) + common::e_i32(r.controller_id) + common::e_array(cluster::broker_writer(v), r.brokers, true)
                + common::e_i32(r.cluster_authorized_operations) + seq![0u8];
            &&& i32_at(s, 0) == r.throttle_time_ms
            &&& i16_at(s, 4) == r.error_code
            &&& v == 0 ==> s == head + tail
            &&& v >= 1 ==> s == head + common::e_i8(r.endpoint_type) + tail
        }),
        ({
            let s = cluster::e_broker(b, v);
            let head = common::e_i32(b.broker_id) + common::e_str(b.host, true) + common::e_i32(b.port) + common::e_nullable_str(b.rack, true);
            &&& i32_at(s, 0) == b.broker_id
            &&& v <= 1 ==> s == head + seq![0u8]
            &&& v >= 2 ==> s == head + common::e_bool(b.is_fenced) + seq![0u8]
        }),
{
    reveal(common::e_tagged_if);
    broadcast use common::lemma_joined;
    broadcast use common::lemma_nothing;
    law_numbers_are_written_big_endian(0, false, r.error_code, r.throttle_time_ms);
    law_numbers_are_written_big_endian(0, false, r.error_code, b.broker_id);
    let s = cluster::e_response(r, v);
    let x = common::e_i32(r.throttle_time_ms);
    let y = common::e_i16(r.error_code);
    assert(s =~= x + (y + s.skip(6)));
    assert(s[0] == x[0] && s[1] == x[1] && s[2] == x[2] && s[3] == x[3] && s[4] == y[0] && s[5] == y[1]);
    let tail = common::e_str(r.cluster_id, true) + common::e_i32(r.controller_id) + common::e_array(cluster::broker_writer(v), r.brokers, true)
        + common::e_i32(r.cluster_authorized_operations) + seq![0u8];
    lemma_nothing_first(tail);
    lemma_nothing_first(seq![0u8]);
    let t = cluster::e_broker(b, v);
    let id = common::e_i32(b.broker_id);
    assert(t =~= id + t.skip(4));
    assert(t[0] == id[0] && t[1] == id[1] && t[2] == id[2] && t[3] == id[3]);
}

// SCRAM credentials.

/// The messages about SCRAM credentials, field by field, each with its tagged
/// fields at the end.
pub proof fn law_scram_layouts(
    a: describe::ResponseModel,
    b: describe::DescribeUserResultModel,
    c: describe::CredentialInfoModel,
    d: alter::RequestModel,
    e: alter::ScramCredentialDeletionModel,
    f: alter::ScramCredentialUpsertionModel,
    g: alter::ResponseModel,
    h: alter::AlterUserResultModel,
)
    ensures
        describe::e_response(a) == common::e_i32(a.throttle_time_ms) + common::e_i16(a.error_code) + common::e_nullable_str(a.error_message, true)
            + common::e_array(describe::result_writer(), a.results, true) + seq![0u8],
        describe::e_result(b) == common::e_str(b.user, true) + common::e_i16(b.error_code) + common::e_nullable_str(b.error_message, true)
            + common::e_array(describe::info_writer(), b.credential_infos, true) + seq![0u8],
        describe::e_info(c) == common::e_i8(c.mechanism) + common::e_i32(c.iterations) + seq![0u8],
        alter::e_request(d) == common::e_array(alter::deletion_writer(), d.deletions, true) + common::e_array(
            alter::upsertion_writer(),
            d.upsertions,
            true,
        ) + seq![0u8],
        alter::e_deletion(e) == common::e_str(e.name, true) + common::e_i8(e.mechanism) + seq![0u8],
        alter::e_upsertion(f) == common::e_str(f.name, true) + common::e_i8(f.mechanism) + common::e_i32(f.iterations) + common::e_bytes(f.salt, true)
            + common::e_bytes(f.salted_password, true) + seq![0u8],
        alter::e_response(g) == common::e_i32(g.throttle_time_ms) + common::e_array(alter::result_writer(), g.results, true) + seq![0u8],
        alter::e_result(h) == common::e_str(h.user, true) + common::e_i16(h.error_code) + common::e_nullable_str(h.error_message, true) + seq![0u8],
{
    reveal(common::e_tagged_if);
}

// What is read, whatever wrote it.

proof fn lemma_septets_read(s: Seq<u8>, j: nat, k: int)
    requires
        0 <= k < s.len(),
        j + k < 10,
        forall|i: int| 0 <= i < k ==> #[trigger] s[i] >= 128,
        s[k] < 128,
    ensures
        septets_value(s.take(k + 1)) >= 0,
        common::p_septets(s, j) == Ok::<(nat, Seq<u8>), CodecError>((septets_value(s.take(k + 1)) as nat, s.skip(k + 1))),
    decreases k,
{
    let t = s.take(k + 1);
    if k == 0 {
        assert(t.skip(1) =~= Seq::empty());
        assert(septets_value(t.skip(1)) == 0);
    } else {
        assert(s[0] >= 128);
        let r = s.skip(1);
        assert forall|i: int| 0 <= i < k - 1 implies #[trigger] r[i] >= 128 by {
            assert(s[i + 1] >= 128);
        }
        lemma_septets_read(r, j + 1, k - 1);
        assert(t.skip(1) =~= r.take(k));
        assert(r.skip(k) =~= s.skip(k + 1));
        assert(s[0] % 128 == s[0] - 128);
    }
}

proof fn lemma_septets_unended(s: Seq<u8>, j: nat, n: int)
    requires
        0 <= n <= s.len(),
        j + n <= 10,
        forall|i: int| 0 <= i < n ==> #[trigger] s[i] >= 128,
        n == s.len() || j + n == 10,
    ensures
        common::p_septets(s, j) == Err::<(nat, Seq<u8>), CodecError>(if j + n == 10 {
            CodecError::InvalidUvarint
        } else {
            CodecError::UnexpectedEof
        }),
    decreases n,
{
    if n > 0 {
        assert(s[0] >= 128);
        let r = s.skip(1);
        assert forall|i: int| 0 <= i < n - 1 implies #[trigger] r[i] >= 128 by {
            assert(s[i + 1] >= 128);
        }
        lemma_septets_unended(r, j + 1, n - 1);
    }
}

/// A variable-length number ends with the first byte whose high bit is clear,
/// which is among the first ten, and has to fit in 64 bits.
pub proof fn law_uvarint_is_read_in_septets(s: Seq<u8>, k: int)
    requires
        0 <= k <= s.len(),
        forall|i: int| 0 <= i < k ==> #[trigger] s[i] >= 128,
        k < s.len() ==> s[k] < 128,
    ensures
        k >= 10 ==> common::p_uvarint(s) == Err::<(u64, Seq<u8>), CodecError>(CodecError::InvalidUvarint),
        k < 10 && k == s.len() ==> common::p_uvarint(s) == Err::<(u64, Seq<u8>), CodecError>(CodecError::UnexpectedEof),
        k < 10 && k < s.len() ==> {
            let n = septets_value(s.take(k + 1));
            &&& n <= 18446744073709551615 ==> (common::p_uvarint(s) matches Ok((x, rest)) && x == n && rest == s.skip(k + 1))
            &&& n > 18446744073709551615 ==> common::p_uvarint(s) == Err::<(u64, Seq<u8>), CodecError>(CodecError::InvalidUvarint)
        },
{
    reveal(common::p_uvarint);
    if k >= 10 {
        lemma_septets_unended(s, 0, 10);
    } else if k == s.len() {
        lemma_septets_unended(s, 0, k);
    } else {
        lemma_septets_read(s, 0, k);
    }
}

/// Tagged fields are passed over one after the other, each a number, a length
/// and as many bytes, whatever they hold.
pub proof fn law_tagged_fields_are_passed_over(s: Seq<u8>, n: nat)
    ensures
        common::p_tags(s, 0) == Ok::<((), Seq<u8>), CodecError>(((), s)),
        common::p_tagged(s) == (match common::p_uvarint(s) {
            Err(e) => Err::<((), Seq<u8>), CodecError>(e),
            Ok((count, rest)) => common::p_tags(rest, count as nat),
        }),
        common::p_uvarint(s) matches Ok((tag, a)) ==> (common::p_uvarint(a) matches Ok((size, b)) ==> {
            &&& b.len() >= size ==> common::p_tags(s, n + 1) == common::p_tags(b.skip(size as int), n)
            &&& b.len() < size ==> common::p_tags(s, n + 1) == Err::<((), Seq<u8>), CodecError>(CodecError::UnexpectedEof)
        }),
        common::p_tagged_if(s, false) == Ok::<((), Seq<u8>), CodecError>(((), s)),
        common::p_tagged_if(s, true) == common::p_tagged(s),
{
    reveal(common::p_tagged);
}

/// An array is read as its number of items and then so many of them, in order.
pub proof fn law_arrays_are_read<T>(p: spec_fn(Seq<u8>) -> common::Parsed<T>, s: Seq<u8>, flexible: bool, n: nat)
    ensures
        common::p_array(p, s, flexible) == (match common::p_array_len(s, flexible) {
            Err(e) => Err::<(Seq<T>, Seq<u8>), CodecError>(e),
            Ok((count, rest)) => common::p_many(p, count, rest),
        }),
        common::p_many(p, 0, s) == Ok::<(Seq<T>, Seq<u8>), CodecError>((Seq::empty(), s)),
        common::p_many(p, n, s) matches Ok((xs, rest)) ==> {
            &&& p(rest) matches Ok((x, more)) ==> common::p_many(p, n + 1, s) == Ok::<(Seq<T>, Seq<u8>), CodecError>((xs.push(x), more))
            &&& p(rest) matches Err(e) ==> common::p_many(p, n + 1, s) == Err::<(Seq<T>, Seq<u8>), CodecError>(e)
        },
        common::p_many(p, n, s) matches Err(e) ==> common::p_many(p, n + 1, s) == Err::<(Seq<T>, Seq<u8>), CodecError>(e),
        common::p_i32s(s, flexible) == common::p_array(|t: Seq<u8>| common::p_i32(t), s, flexible),
{
    reveal(common::p_array);
    reveal(common::p_i32s);
}

/// A partition is read field by field, each from where the one before it
/// ended.
pub proof fn law_partition_is_read_in_order(
    x: metadata::PartitionModel,
    v: i16,
    s: Seq<u8>,
    s1: Seq<u8>,
    s2: Seq<u8>,
    s3: Seq<u8>,
    s4: Seq<u8>,
    s5: Seq<u8>,
    s6: Seq<u8>,
    s7: Seq<u8>,
    rest: Seq<u8>,
)
    requires
        common::p_i16(s) == Ok::<(i16, Seq<u8>), CodecError>((x.error_code, s1)),
        common::p_i32(s1) == Ok::<(i32, Seq<u8>), CodecError>((x.partition_index, s2)),
        common::p_i32(s2) == Ok::<(i32, Seq<u8>), CodecError>((x.leader_id, s3)),
        v >= 7 ==> common::p_i32(s3) == Ok::<(i32, Seq<u8>), CodecError>((x.leader_epoch, s4)),
        v < 7 ==> x.leader_epoch == -1 && s4 == s3,
        common::p_i32s(s4, v >= 9) == Ok::<(Seq<i32>, Seq<u8>), CodecError>((x.replica_nodes, s5)),
        common::p_i32s(s5, v >= 9) == Ok::<(Seq<i32>, Seq<u8>), CodecError>((x.isr_nodes, s6)),
        v >= 5 ==> common::p_i32s(s6, v >= 9) == Ok::<(Seq<i32>, Seq<u8>), CodecError>((x.offline_replicas, s7)),
        v < 5 ==> x.offline_replicas == Seq::<i32>::empty() && s7 == s6,
        v >= 9 ==> common::p_tagged(s7) == Ok::<((), Seq<u8>), CodecError>(((), rest)),
        v < 9 ==> rest == s7,
    ensures
        metadata::p_partition(s, v) == Ok::<(metadata::PartitionModel, Seq<u8>), CodecError>((x, rest)),
{
}

/// So is a topic.
pub proof fn law_topic_is_read_in_order(
    x: metadata::TopicModel,
    v: i16,
    s: Seq<u8>,
    s1: Seq<u8>,
    s2: Seq<u8>,
    s3: Seq<u8>,
    s4: Seq<u8>,
    s5: Seq<u8>,
    s6: Seq<u8>,
    rest: Seq<u8>,
)
    requires
        v >= 1,
        common::p_i16(s) == Ok::<(i16, Seq<u8>), CodecError>((x.error_code, s1)),
        common::p_str(s1, v >= 9) == Ok::<(Seq<char>, Seq<u8>), CodecError>((x.name, s2)),
        v >= 10 ==> s2.len() >= 16 && x.topic_id == s2.take(16) && s3 == s2.skip(16),
        v < 10 ==> x.topic_id == Seq::new(16, |k: int| 0u8) && s3 == s2,
        common::p_bool(s3) == Ok::<(bool, Seq<u8>), CodecError>((x.is_internal, s4)),
        common::p_array(metadata::partition_parser(v), s4, v >= 9) == Ok::<(Seq<metadata::PartitionModel>, Seq<u8>), CodecError>((x.partitions, s5)),
        v >= 8 ==> common::p_i32(s5) == Ok::<(i32, Seq<u8>), CodecError>((x.topic_authorized_operations, s6)),
        v < 8 ==> x.topic_authorized_operations == 0 && s6 == s5,
        v >= 9 ==> common::p_tagged(s6) == Ok::<((), Seq<u8>), CodecError>(((), rest)),
        v < 9 ==> rest == s6,
    ensures
        metadata::p_topic(s, v) == Ok::<(metadata::TopicModel, Seq<u8>), CodecError>((x, rest)),
{
    assert(metadata::NULL_TOPIC_ID@ =~= Seq::new(16, |k: int| 0u8));
}

/// So is a broker.
pub proof fn law_broker_is_read_in_order(
    x: metadata::BrokerModel,
    v: i16,
    s: Seq<u8>,
    s1: Seq<u8>,
    s2: Seq<u8>,
    s3: Seq<u8>,
    s4: Seq<u8>,
    rest: Seq<u8>,
)
    requires
        v >= 1,
        common::p_i32(s) == Ok::<(i32, Seq<u8>), CodecError>((x.node_id, s1)),
        common::p_str(s1, v >= 9) == Ok::<(Seq<char>, Seq<u8>), CodecError>((x.host, s2)),
        common::p_i32(s2) == Ok::<(i32, Seq<u8>), CodecError>((x.port, s3)),
        common::p_nullable_str(s3, v >= 9) == Ok::<(Option<Seq<char>>, Seq<u8>), CodecError>((x.rack, s4)),
        v >= 9 ==> common::p_tagged(s4) == Ok::<((), Seq<u8>), CodecError>(((), rest)),
        v < 9 ==> rest == s4,
    ensures
        metadata::p_broker(s, v) == Ok::<(metadata::BrokerModel, Seq<u8>), CodecError>((x, rest)),
{
}

/// So is a response.
pub proof fn law_response_is_read_in_order(
    x: metadata::ResponseModel,
    v: i16,
    s: Seq<u8>,
    s1: Seq<u8>,
    s2: Seq<u8>,
    s3: Seq<u8>,
    s4: Seq<u8>,
    s5: Seq<u8>,
    s6: Seq<u8>,
    rest: Seq<u8>,
)
    requires
        1 <= v <= 10,
        v >= 3 ==> common::p_i32(s) == Ok::<(i32, Seq<u8>), CodecError>((x.throttle_time_ms, s1)),
        v < 3 ==> x.throttle_time_ms == 0 && s1 == s,
        common::p_array(metadata::broker_parser(v), s1, v >= 9) == Ok::<(Seq<metadata::BrokerModel>, Seq<u8>), CodecError>((x.brokers, s2)),
        v >= 2 ==> common::p_nullable_str(s2, v >= 9) == Ok::<(Option<Seq<char>>, Seq<u8>), CodecError>((x.cluster_id, s3)),
        v < 2 ==> x.cluster_id is None && s3 == s2,
        common::p_i32(s3) == Ok::<(i32, Seq<u8>), CodecError>((x.controller_id, s4)),
        common::p_array(metadata::topic_parser(v), s4, v >= 9) == Ok::<(Seq<metadata::TopicModel>, Seq<u8>), CodecError>((x.topics, s5)),
        v >= 8 ==> common::p_i32(s5) == Ok::<(i32, Seq<u8>), CodecError>((x.cluster_authorized_operations, s6)),
        v < 8 ==> x.cluster_authorized_operations == 0 && s6 == s5,
        v >= 9 ==> common::p_tagged(s6) == Ok::<((), Seq<u8>), CodecError>(((), rest)),
        v < 9 ==> rest == s6,
    ensures
        metadata::p_response(s, v) == Ok::<(metadata::ResponseModel, Seq<u8>), CodecError>((x, rest)),
{
}

/// So is a request; topics without a name are left out.
pub proof fn law_request_is_read_in_order(
    x: metadata::RequestModel,
    names: Seq<Seq<char>>,
    v: i16,
    s: Seq<u8>,
    s1: Seq<u8>,
    s2: Seq<u8>,
    s3: Seq<u8>,
    s4: Seq<u8>,
    rest: Seq<u8>,
)
    requires
        1 <= v <= 10,
        common::p_array(metadata::name_parser(v), s, v >= 9) == Ok::<(Seq<Seq<char>>, Seq<u8>), CodecError>((names, s1)),
        x.topics == names.filter(|name: Seq<char>| name.len() > 0),
        v >= 4 ==> common::p_bool(s1) == Ok::<(bool, Seq<u8>), CodecError>((x.allow_auto_topic_creation, s2)),
        v < 4 ==> x.allow_auto_topic_creation && s2 == s1,
        v >= 8 ==> common::p_bool(s2) == Ok::<(bool, Seq<u8>), CodecError>((x.include_cluster_authorized_operations, s3)) && common::p_bool(s3)
            == Ok::<(bool, Seq<u8>), CodecError>((x.include_topic_authorized_operations, s4)),
        v < 8 ==> !x.include_cluster_authorized_operations && !x.include_topic_authorized_operations && s4 == s2,
        v >= 9 ==> common::p_tagged(s4) == Ok::<((), Seq<u8>), CodecError>(((), rest)),
        v < 9 ==> rest == s4,
    ensures
        metadata::p_request(s, v) == Ok::<(metadata::RequestModel, Seq<u8>), CodecError>((x, rest)),
{
    assert(metadata::is_named() =~= (|name: Seq<char>| name.len() > 0));
}

/// A topic that is asked about is its name, behind 16 bytes of identity from
/// version 10, where it may also be missing.
pub proof fn law_topic_name_is_read_in_order(name: Option<Seq<char>>, v: i16, s: Seq<u8>, s1: Seq<u8>, s2: Seq<u8>, rest: Seq<u8>)
    requires
        1 <= v <= 10,
        v == 10 ==> s.len() >= 16 && s1 == s.skip(16) && common::p_nullable_str(s1, true) == Ok::<(Option<Seq<char>>, Seq<u8>), CodecError>((name, s2)),
        v < 10 ==> s1 == s && name is Some && common::p_str(s1, v >= 9) == Ok::<(Seq<char>, Seq<u8>), CodecError>((name->0, s2)),
        v >= 9 ==> common::p_tagged(s2) == Ok::<((), Seq<u8>), CodecError>(((), rest)),
        v < 9 ==> rest == s2,
    ensures
        metadata::p_topic_name(s, v) == Ok::<(Seq<char>, Seq<u8>), CodecError>(
            (
                match name {
                    Some(n) => n,
                    None => Seq::empty(),
                },
                rest,
            ),
        ),
{
}

/// What cannot be written: a string or an array that is longer than its length
/// field can say.
pub proof fn law_what_fits(p: metadata::PartitionModel, b: metadata::BrokerModel, v: i16)
    ensures
        v < 9 ==> (metadata::partition_fits(p, v) <==> p.replica_nodes.len() <= 2147483647 && p.isr_nodes.len() <= 2147483647 && (v >= 5
            ==> p.offline_replicas.len() <= 2147483647)),
        1 <= v < 9 ==> (metadata::broker_fits(b, v) <==> utf8::encode_utf8(b.host).len() <= 32767 && (b.rack matches Some(r) ==> utf8::encode_utf8(r).len()
            <= 32767)),
        metadata::flexible(v) <==> v >= 9,
{
}

/// Nothing is read of bytes that break off or hold something else: where a
/// message is read, each of its fields was, one behind the other.
pub proof fn law_reading_takes_every_field(s: Seq<u8>, v: i16)
    requires
        1 <= v <= 10,
    ensures
        metadata::p_partition(s, v) matches Ok((x, rest)) ==> (common::p_i16(s) matches Ok((a, s1)) && a == x.error_code && (common::p_i32(s1) matches Ok(
            (b, s2),
        ) && b == x.partition_index && (common::p_i32(s2) matches Ok((c, s3)) && c == x.leader_id && ({
            let s4 = if v >= 7 { s3.skip(4) } else { s3 };
            &&& v >= 7 ==> s3.len() >= 4
            &&& common::p_i32s(s4, v >= 9) matches Ok((d, s5)) && d == x.replica_nodes && (common::p_i32s(s5, v >= 9) matches Ok((e, s6)) && e
                == x.isr_nodes && (v >= 5 ==> (common::p_i32s(s6, v >= 9) matches Ok((f, s7)) && f == x.offline_replicas)))
        })))),
        metadata::p_broker(s, v) matches Ok((x, rest)) ==> (common::p_i32(s) matches Ok((a, s1)) && a == x.node_id && (common::p_str(s1, v >= 9) matches Ok(
            (b, s2),
        ) && b == x.host && (common::p_i32(s2) matches Ok((c, s3)) && c == x.port && (common::p_nullable_str(s3, v >= 9) matches Ok((d, s4)) && d
            == x.rack)))),
        metadata::p_topic(s, v) matches Ok((x, rest)) ==> (common::p_i16(s) matches Ok((a, s1)) && a == x.error_code && (common::p_str(s1, v >= 9) matches Ok(
            (b, s2),
        ) && b == x.name && ({
            let s3 = if v >= 10 { s2.skip(16) } else { s2 };
            &&& v >= 10 ==> s2.len() >= 16 && x.topic_id == s2.take(16)
            &&& common::p_bool(s3) matches Ok((c, s4)) && c == x.is_internal && (common::p_array(metadata::partition_parser(v), s4, v >= 9) matches Ok(
                (d, s5),
            ) && d == x.partitions && (v >= 8 ==> (common::p_i32(s5) matches Ok((e, s6)) && e == x.topic_authorized_operations)))
        }))),
        metadata::p_response(s, v) matches Ok((x, rest)) ==> ({
            let s1 = if v >= 3 { s.skip(4) } else { s };
            &&& v >= 3 ==> s.len() >= 4 && x.throttle_time_ms == i32_at(s, 0)
            &&& common::p_array(metadata::broker_parser(v), s1, v >= 9) matches Ok((a, s2)) && a == x.brokers && (v >= 2 ==> (common::p_nullable_str(
                s2,
                v >= 9,
            ) matches Ok((b, s3)) && b == x.cluster_id && (common::p_i32(s3) matches Ok((c, s4)) && c == x.controller_id && (common::p_array(
                metadata::topic_parser(v),
                s4,
                v >= 9,
            ) matches Ok((d, s5)) && d == x.topics && (v >= 8 ==> (common::p_i32(s5) matches Ok((e, s6)) && e == x.cluster_authorized_operations))))))
        }),
        metadata::p_request(s, v) matches Ok((x, rest)) ==> (common::p_array(metadata::name_parser(v), s, v >= 9) matches Ok((a, s1)) && x.topics
            == a.filter(|name: Seq<char>| name.len() > 0) && (v >= 4 ==> (common::p_bool(s1) matches Ok((b, s2)) && b == x.allow_auto_topic_creation && (v >= 8
            ==> (common::p_bool(s2) matches Ok((c, s3)) && c == x.include_cluster_authorized_operations && (common::p_bool(s3) matches Ok((d, s4)) && d
            == x.include_topic_authorized_operations))))) && (v < 4 ==> x.allow_auto_topic_creation) && (v < 8 ==> !x.include_cluster_authorized_operations
            && !x.include_topic_authorized_operations)),
{
    assert(metadata::is_named() =~= (|name: Seq<char>| name.len() > 0));
    law_numbers_are_read_big_endian(s);
    if metadata::p_partition(s, v) is Ok {
        let s1 = common::p_i16(s)->Ok_0.1;
        let s2 = common::p_i32(s1)->Ok_0.1;
        let s3 = common::p_i32(s2)->Ok_0.1;
        law_numbers_are_read_big_endian(s3);
    }
}

} // verus!
