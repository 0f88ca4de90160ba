//! DescribeUserScramCredentials, version 0, flexible.
//!
//! Tells which mechanisms a user has credentials for and with how many
//! iterations, never the salt or the keys.

use vstd::prelude::*;
use bytes::{Bytes, BytesMut};
use crate::api::common;
use crate::api::common::{
    CodecError, HeaderVersion, read_array_len, read_i16, read_i32, read_i8, read_nullable_str, read_str, read_tagged,
    read_uvarint, write_array_len, write_i16, write_i32, write_i8, write_nullable_str, write_str, write_tagged,
    write_uvarint,
};
use crate::api::registry::{ApiSpec, HeaderRule};
use crate::order;
use crate::text;

verus! {

pub const VERSIONS: (i16, i16) = (0, 0);

pub const MIN_FLEXIBLE: i16 = 0;

pub fn request_hdr(version: i16) -> (h: HeaderVersion)
    ensures
        h == HeaderVersion::V2,
{
    HeaderVersion::V2
}

pub fn response_hdr(version: i16) -> (h: HeaderVersion)
    ensures
        h == HeaderVersion::V1,
{
    HeaderVersion::V1
}

/// The row of this kind.
pub open spec fn row() -> ApiSpec {
    ApiSpec {
        key: 50,
        min_version: 0,
        max_version: 0,
        min_flexible: Some(MIN_FLEXIBLE),
        request_hdr: HeaderRule { before: HeaderVersion::V2, from: HeaderVersion::V2, switch_at: MIN_FLEXIBLE },
        response_hdr: HeaderRule { before: HeaderVersion::V1, from: HeaderVersion::V1, switch_at: MIN_FLEXIBLE },
    }
}

pub fn spec() -> (s: ApiSpec)
    ensures
        s == row(),
{
    ApiSpec {
        key: 50,
        min_version: VERSIONS.0,
        max_version: VERSIONS.1,
        min_flexible: Some(MIN_FLEXIBLE),
        request_hdr: HeaderRule { before: HeaderVersion::V2, from: HeaderVersion::V2, switch_at: MIN_FLEXIBLE },
        response_hdr: HeaderRule { before: HeaderVersion::V1, from: HeaderVersion::V1, switch_at: MIN_FLEXIBLE },
    }
}

#[derive(Debug, Clone, PartialEq, Eq)]
pub struct Response {
    pub throttle_time_ms: i32,
    /// About the request as a whole.
    pub error_code: i16,
    pub error_message: Option<String>,
    pub results: Vec<DescribeUserResult>,
}

#[verifier::ext_equal]
pub struct ResponseModel {
    pub throttle_time_ms: i32,
    pub error_code: i16,
    pub error_message: Option<Seq<char>>,
    pub results: Seq<DescribeUserResultModel>,
}

impl View for Response {
    type V = ResponseModel;

    open spec fn view(&self) -> ResponseModel {
        ResponseModel {
            throttle_time_ms: self.throttle_time_ms,
            error_code: self.error_code,
            error_message: text::opt_text(self.error_message),
            results: result_models(self.results@),
        }
    }
}

impl Default for Response {
    fn default() -> (r: Self)
        ensures
            r@ == (ResponseModel {
                throttle_time_ms: 0,
                error_code: 0,
                error_message: None,
                results: Seq::empty(),
            }),
    {
        let r = Response {
            throttle_time_ms: 0,
            error_code: 0,
            error_message: None,
            results: Vec::new(),
        };
        assert(r@.results =~= Seq::empty());
        r
    }
}

#[derive(Debug, Clone, PartialEq, Eq)]
pub struct DescribeUserResult {
    pub user: String,
    pub error_code: i16,
    pub error_message: Option<String>,
    pub credential_infos: Vec<CredentialInfo>,
}

#[verifier::ext_equal]
pub struct DescribeUserResultModel {
    pub user: Seq<char>,
    pub error_code: i16,
    pub error_message: Option<Seq<char>>,
    pub credential_infos: Seq<CredentialInfoModel>,
}

impl View for DescribeUserResult {
    type V = DescribeUserResultModel;

    open spec fn view(&self) -> DescribeUserResultModel {
        DescribeUserResultModel {
            user: self.user@,
            error_code: self.error_code,
            error_message: text::opt_text(self.error_message),
            credential_infos: info_models(self.credential_infos@),
        }
    }
}

pub open spec fn result_models(s: Seq<DescribeUserResult>) -> Seq<DescribeUserResultModel> {
    s.map_values(|x: DescribeUserResult| x@)
}

#[derive(Debug, Clone, PartialEq, Eq)]
pub struct CredentialInfo {
    pub mechanism: i8,
    pub iterations: i32,
}

#[verifier::ext_equal]
pub struct CredentialInfoModel {
    pub mechanism: i8,
    pub iterations: i32,
}

impl View for CredentialInfo {
    type V = CredentialInfoModel;

    open spec fn view(&self) -> CredentialInfoModel {
        CredentialInfoModel {
            mechanism: self.mechanism,
            iterations: self.iterations,
        }
    }
}

pub open spec fn info_models(s: Seq<CredentialInfo>) -> Seq<CredentialInfoModel> {
    s.map_values(|x: CredentialInfo| x@)
}

// The format.

pub open spec fn p_info(s: Seq<u8>) -> common::Parsed<CredentialInfoModel> {
    match common::p_i8(s) {
        Err(e) => Err(e),
        Ok((mechanism, s)) => match common::p_i32(s) {
            Err(e) => Err(e),
            Ok((iterations, s)) => match common::p_tagged_if(s, true) {
                Err(e) => Err(e),
                Ok((t, s)) => Ok((CredentialInfoModel { mechanism, iterations }, s)),
            },
        },
    }
}

pub open spec fn info_parser() -> spec_fn(Seq<u8>) -> common::Parsed<CredentialInfoModel> {
    |s: Seq<u8>| p_info(s)
}

pub open spec fn e_info(x: CredentialInfoModel) -> Seq<u8> {
    common::e_i8(x.mechanism)
        + common::e_i32(x.iterations)
        + common::e_tagged_if(true)
}

pub open spec fn info_writer() -> spec_fn(CredentialInfoModel) -> Seq<u8> {
    |x: CredentialInfoModel| e_info(x)
}

/// Every length fits its field.
pub open spec fn info_fits(x: CredentialInfoModel) -> bool {
    true
}

pub open spec fn p_result(s: Seq<u8>) -> common::Parsed<DescribeUserResultModel> {
    match common::p_str(s, true) {
        Err(e) => Err(e),
        Ok((user, s)) => match common::p_i16(s) {
            Err(e) => Err(e),
            Ok((error_code, s)) => match common::p_nullable_str(s, true) {
                Err(e) => Err(e),
                Ok((error_message, s)) => match common::p_array(info_parser(), s, true) {
                    Err(e) => Err(e),
                    Ok((credential_infos, s)) => match common::p_tagged_if(s, true) {
                        Err(e) => Err(e),
                        Ok((t, s)) => Ok((DescribeUserResultModel { user, error_code, error_message, credential_infos }, s)),
                    },
                },
            },
        },
    }
}

pub open spec fn result_parser() -> spec_fn(Seq<u8>) -> common::Parsed<DescribeUserResultModel> {
    |s: Seq<u8>| p_result(s)
}

pub open spec fn e_result(x: DescribeUserResultModel) -> Seq<u8> {
    common::e_str(x.user, true)
        + common::e_i16(x.error_code)
        + common::e_nullable_str(x.error_message, true)
        + common::e_array(info_writer(), x.credential_infos, true)
        + common::e_tagged_if(true)
}

pub open spec fn result_writer() -> spec_fn(DescribeUserResultModel) -> Seq<u8> {
    |x: DescribeUserResultModel| e_result(x)
}

/// Every length fits its field.
pub open spec fn result_fits(x: DescribeUserResultModel) -> bool {
    &&& common::str_fits(x.user, true)
    &&& common::opt_fits(x.error_message, true)
    &&& common::array_fits(x.credential_infos.len(), true)
    &&& (forall|i: int| 0 <= i < x.credential_infos.len() ==> info_fits(#[trigger] x.credential_infos[i]))
}

pub open spec fn p_response(s: Seq<u8>) -> common::Parsed<ResponseModel> {
    match common::p_i32(s) {
        Err(e) => Err(e),
        Ok((throttle_time_ms, s)) => match common::p_i16(s) {
            Err(e) => Err(e),
            Ok((error_code, s)) => match common::p_nullable_str(s, true) {
                Err(e) => Err(e),
                Ok((error_message, s)) => match common::p_array(result_parser(), s, true) {
                    Err(e) => Err(e),
                    Ok((results, s)) => match common::p_tagged_if(s, true) {
                        Err(e) => Err(e),
                        Ok((t, s)) => Ok((ResponseModel { throttle_time_ms, error_code, error_message, results }, s)),
                    },
                },
            },
        },
    }
}

pub open spec fn e_response(x: ResponseModel) -> Seq<u8> {
    common::e_i32(x.throttle_time_ms)
        + common::e_i16(x.error_code)
        + common::e_nullable_str(x.error_message, true)
        + common::e_array(result_writer(), x.results, true)
        + common::e_tagged_if(true)
}

/// Every length fits its field.
pub open spec fn response_fits(x: ResponseModel) -> bool {
    &&& common::opt_fits(x.error_message, true)
    &&& common::array_fits(x.results.len(), true)
    &&& (forall|i: int| 0 <= i < x.results.len() ==> result_fits(#[trigger] x.results[i]))
}

// What reading gives back of writing.

proof fn lemma_info(x: CredentialInfoModel, rest: Seq<u8>)
    requires
        info_fits(x),
    ensures
        p_info(e_info(x) + rest) == Ok::<(CredentialInfoModel, Seq<u8>), CodecError>((x, rest)),
{
    broadcast use common::lemma_joined;
    let s2 = common::e_tagged_if(true) + rest;
    let s1 = common::e_i32(x.iterations) + s2;
    assert(e_info(x) + rest == common::e_i8(x.mechanism) + s1);
    common::lemma_i8(x.mechanism, s1);
    common::lemma_i32(x.iterations, s2);
    common::lemma_tagged(true, rest);
}

proof fn lemma_infos(xs: Seq<CredentialInfoModel>, rest: Seq<u8>)
    requires
        common::array_fits(xs.len(), true),
        forall|i: int| 0 <= i < xs.len() ==> info_fits(#[trigger] xs[i]),
    ensures
        common::p_array(info_parser(), common::e_array(info_writer(), xs, true) + rest, true) == Ok::<
            (Seq<CredentialInfoModel>, Seq<u8>),
            CodecError,
        >((xs, rest)),
{
    let seen = xs;
    let p = info_parser();
    let enc = info_writer();
    assert forall|i: int, t: Seq<u8>| 0 <= i < xs.len() implies #[trigger] p(enc(xs[i]) + t) == Ok::<(CredentialInfoModel, Seq<u8>), CodecError>((seen[i], t)) by {
        lemma_info(xs[i], t);
    }
    common::lemma_array(p, enc, xs, seen, true, rest);
}

proof fn lemma_result(x: DescribeUserResultModel, rest: Seq<u8>)
    requires
        result_fits(x),
    ensures
        p_result(e_result(x) + rest) == Ok::<(DescribeUserResultModel, Seq<u8>), CodecError>((x, rest)),
{
    broadcast use common::lemma_joined;
    let s4 = common::e_tagged_if(true) + rest;
    let s3 = common::e_array(info_writer(), x.credential_infos, true) + s4;
    let s2 = common::e_nullable_str(x.error_message, true) + s3;
    let s1 = common::e_i16(x.error_code) + s2;
    assert(e_result(x) + rest == common::e_str(x.user, true) + s1);
    common::lemma_str(x.user, true, s1);
    common::lemma_i16(x.error_code, s2);
    common::lemma_nullable_str(x.error_message, true, s3);
    lemma_infos(x.credential_infos, s4);
    common::lemma_tagged(true, rest);
}

proof fn lemma_results(xs: Seq<DescribeUserResultModel>, rest: Seq<u8>)
    requires
        common::array_fits(xs.len(), true),
        forall|i: int| 0 <= i < xs.len() ==> result_fits(#[trigger] xs[i]),
    ensures
        common::p_array(result_parser(), common::e_array(result_writer(), xs, true) + rest, true) == Ok::<
            (Seq<DescribeUserResultModel>, Seq<u8>),
            CodecError,
        >((xs, rest)),
{
    let seen = xs;
    let p = result_parser();
    let enc = result_writer();
    assert forall|i: int, t: Seq<u8>| 0 <= i < xs.len() implies #[trigger] p(enc(xs[i]) + t) == Ok::<(DescribeUserResultModel, Seq<u8>), CodecError>((seen[i], t)) by {
        lemma_result(xs[i], t);
    }
    common::lemma_array(p, enc, xs, seen, true, rest);
}

/// Reading gives back a written response.
pub proof fn law_response_reads_back(x: ResponseModel, rest: Seq<u8>)
    requires
        response_fits(x),
    ensures
        p_response(e_response(x) + rest) == Ok::<(ResponseModel, Seq<u8>), CodecError>((x, rest)),
{
    broadcast use common::lemma_joined;
    let s4 = common::e_tagged_if(true) + rest;
    let s3 = common::e_array(result_writer(), x.results, true) + s4;
    let s2 = common::e_nullable_str(x.error_message, true) + s3;
    let s1 = common::e_i16(x.error_code) + s2;
    assert(e_response(x) + rest == common::e_i32(x.throttle_time_ms) + s1);
    common::lemma_i32(x.throttle_time_ms, s1);
    common::lemma_i16(x.error_code, s2);
    common::lemma_nullable_str(x.error_message, true, s3);
    lemma_results(x.results, s4);
    common::lemma_tagged(true, rest);
}

// Reading and writing.

fn write_info(buf: &mut BytesMut, x: &CredentialInfo) -> (r: Result<(), CodecError>)
    ensures
        r is Ok <==> info_fits(x@),
        r is Err ==> r == Err::<(), CodecError>(CodecError::InvalidLength),
        r is Ok ==> common::written(*final(buf)) == common::written(*old(buf)) + e_info(x@),
{
    broadcast use common::lemma_joined;
    broadcast use common::lemma_nothing;

    write_i8(buf, x.mechanism);
    write_i32(buf, x.iterations);
    write_tagged(buf, true);
    Ok(())
}

fn write_infos(buf: &mut BytesMut, xs: &Vec<CredentialInfo>) -> (r: Result<(), CodecError>)
    ensures
        r is Ok <==> common::array_fits(xs@.len(), true) && (forall|i: int| 0 <= i < xs@.len() ==> info_fits(#[trigger] info_models(xs@)[i])),
        r is Err ==> r == Err::<(), CodecError>(CodecError::InvalidLength),
        r is Ok ==> common::written(*final(buf)) == common::written(*old(buf)) + common::e_array(info_writer(), info_models(xs@), true),
{
    broadcast use common::lemma_joined;
    broadcast use common::lemma_nothing;

    proof {
        reveal(common::e_array);
    }
    let ghost all = info_models(xs@);
    let ghost enc = info_writer();
    match write_array_len(buf, xs.len(), true) {
        Ok(t) => {},
        Err(e) => {
            return Err(e);
        },
    }
    let ghost head = common::written(*buf);
    let mut i: usize = 0;
    assert(common::e_many(enc, all.take(0)) =~= Seq::empty());
    while i < xs.len()
        invariant
            i <= xs@.len(),
            all == info_models(xs@),
            enc == info_writer(),
            common::written(*buf) == head + common::e_many(enc, all.take(i as int)),
            forall|j: int| 0 <= j < i ==> info_fits(#[trigger] all[j]),
        decreases xs.len() - i,
    {
        assert(all[i as int] == xs@[i as int]@);
        match write_info(buf, &xs[i]) {
            Ok(t) => {},
            Err(e) => {
                assert(!info_fits(all[i as int]));
                return Err(e);
            },
        }
        i = i + 1;
        proof {
            assert(all.take(i as int).drop_last() =~= all.take(i - 1));
            common::lemma_joined(head, common::e_many(enc, all.take(i - 1)), enc(all[i - 1]));
        }
    }
    assert(all.take(i as int) =~= all);
    Ok(())
}

fn write_result(buf: &mut BytesMut, x: &DescribeUserResult) -> (r: Result<(), CodecError>)
    ensures
        r is Ok <==> result_fits(x@),
        r is Err ==> r == Err::<(), CodecError>(CodecError::InvalidLength),
        r is Ok ==> common::written(*final(buf)) == common::written(*old(buf)) + e_result(x@),
{
    broadcast use common::lemma_joined;
    broadcast use common::lemma_nothing;

    match write_str(buf, &x.user, true) {
        Ok(t) => {},
        Err(e) => {
            return Err(e);
        },
    }
    write_i16(buf, x.error_code);
    match write_nullable_str(buf, &x.error_message, true) {
        Ok(t) => {},
        Err(e) => {
            return Err(e);
        },
    }
    match write_infos(buf, &x.credential_infos) {
        Ok(t) => {},
        Err(e) => {
            return Err(e);
        },
    }
    write_tagged(buf, true);
    Ok(())
}

fn write_results(buf: &mut BytesMut, xs: &Vec<DescribeUserResult>) -> (r: Result<(), CodecError>)
    ensures
        r is Ok <==> common::array_fits(xs@.len(), true) && (forall|i: int| 0 <= i < xs@.len() ==> result_fits(#[trigger] result_models(xs@)[i])),
        r is Err ==> r == Err::<(), CodecError>(CodecError::InvalidLength),
        r is Ok ==> common::written(*final(buf)) == common::written(*old(buf)) + common::e_array(result_writer(), result_models(xs@), true),
{
    broadcast use common::lemma_joined;
    broadcast use common::lemma_nothing;

    proof {
        reveal(common::e_array);
    }
    let ghost all = result_models(xs@);
    let ghost enc = result_writer();
    match write_array_len(buf, xs.len(), true) {
        Ok(t) => {},
        Err(e) => {
            return Err(e);
        },
    }
    let ghost head = common::written(*buf);
    let mut i: usize = 0;
    assert(common::e_many(enc, all.take(0)) =~= Seq::empty());
    while i < xs.len()
        invariant
            i <= xs@.len(),
            all == result_models(xs@),
            enc == result_writer(),
            common::written(*buf) == head + common::e_many(enc, all.take(i as int)),
            forall|j: int| 0 <= j < i ==> result_fits(#[trigger] all[j]),
        decreases xs.len() - i,
    {
        assert(all[i as int] == xs@[i as int]@);
        match write_result(buf, &xs[i]) {
            Ok(t) => {},
            Err(e) => {
                assert(!result_fits(all[i as int]));
                return Err(e);
            },
        }
        i = i + 1;
        proof {
            assert(all.take(i as int).drop_last() =~= all.take(i - 1));
            common::lemma_joined(head, common::e_many(enc, all.take(i - 1)), enc(all[i - 1]));
        }
    }
    assert(all.take(i as int) =~= all);
    Ok(())
}

pub fn encode_response(buf: &mut BytesMut, x: &Response, version: i16) -> (r: Result<(), CodecError>)
    ensures
        r is Ok <==> response_fits(x@),
        r is Err ==> r == Err::<(), CodecError>(CodecError::InvalidLength),
        r is Ok ==> common::written(*final(buf)) == common::written(*old(buf)) + e_response(x@),
{
    broadcast use common::lemma_joined;
    broadcast use common::lemma_nothing;

    write_i32(buf, x.throttle_time_ms);
    write_i16(buf, x.error_code);
    match write_nullable_str(buf, &x.error_message, true) {
        Ok(t) => {},
        Err(e) => {
            return Err(e);
        },
    }
    match write_results(buf, &x.results) {
        Ok(t) => {},
        Err(e) => {
            return Err(e);
        },
    }
    write_tagged(buf, true);
    Ok(())
}

fn read_info(buf: &mut Bytes) -> (r: Result<CredentialInfo, CodecError>)
    ensures
        match p_info(common::left(*old(buf))) {
            Ok((m, rest)) => (r matches Ok(x) && x@ == m) && common::left(*final(buf)) == rest,
            Err(e) => r == Err::<CredentialInfo, CodecError>(e),
        },
{
    let mechanism: i8 = match read_i8(buf) {
        Ok(x) => x,
        Err(e) => {
            return Err(e);
        },
    };
    let iterations: i32 = match read_i32(buf) {
        Ok(x) => x,
        Err(e) => {
            return Err(e);
        },
    };
    match read_tagged(buf, true) {
        Ok(t) => {},
        Err(e) => {
            return Err(e);
        },
    }
    Ok(CredentialInfo { mechanism, iterations })
}

fn read_infos(buf: &mut Bytes) -> (r: Result<Vec<CredentialInfo>, CodecError>)
    ensures
        match common::p_array(info_parser(), common::left(*old(buf)), true) {
            Ok((ms, rest)) => (r matches Ok(v) && info_models(v@) == ms) && common::left(*final(buf)) == rest,
            Err(e) => r == Err::<Vec<CredentialInfo>, CodecError>(e),
        },
{
    proof {
        reveal(common::p_array);
    }
    let n: u64 = match read_array_len(buf, true) {
        Ok(x) => x,
        Err(e) => {
            return Err(e);
        },
    };
    let ghost p = info_parser();
    let ghost start = common::left(*buf);
    let mut out: Vec<CredentialInfo> = Vec::new();
    let mut i: u64 = 0;
    assert(info_models(out@) =~= Seq::empty());
    while i < n
        invariant
            i <= n,
            p == info_parser(),
            common::p_array(p, common::left(*old(buf)), true) == common::p_many(p, n as nat, start),
            common::p_many(p, i as nat, start) == Ok::<(Seq<CredentialInfoModel>, Seq<u8>), CodecError>(
                (info_models(out@), common::left(*buf)),
            ),
        decreases n - i,
    {
        let ghost before = out@;
        match read_info(buf) {
            Ok(x) => {
                out.push(x);
                assert(info_models(out@) =~= info_models(before).push(x@));
            },
            Err(e) => {
                proof {
                    common::lemma_many_fails(p, (i + 1) as nat, n as nat, start, e);
                }
                return Err(e);
            },
        }
        i = i + 1;
    }
    Ok(out)
}

fn read_result(buf: &mut Bytes) -> (r: Result<DescribeUserResult, CodecError>)
    ensures
        match p_result(common::left(*old(buf))) {
            Ok((m, rest)) => (r matches Ok(x) && x@ == m) && common::left(*final(buf)) == rest,
            Err(e) => r == Err::<DescribeUserResult, CodecError>(e),
        },
{
    let user = match read_str(buf, true) {
        Ok(x) => x,
        Err(e) => {
            return Err(e);
        },
    };
    let error_code: i16 = match read_i16(buf) {
        Ok(x) => x,
        Err(e) => {
            return Err(e);
        },
    };
    let error_message = match read_nullable_str(buf, true) {
        Ok(x) => x,
        Err(e) => {
            return Err(e);
        },
    };
    let credential_infos = match read_infos(buf) {
        Ok(x) => x,
        Err(e) => {
            return Err(e);
        },
    };
    match read_tagged(buf, true) {
        Ok(t) => {},
        Err(e) => {
            return Err(e);
        },
    }
    Ok(DescribeUserResult { user, error_code, error_message, credential_infos })
}

fn read_results(buf: &mut Bytes) -> (r: Result<Vec<DescribeUserResult>, CodecError>)
    ensures
        match common::p_array(result_parser(), common::left(*old(buf)), true) {
            Ok((ms, rest)) => (r matches Ok(v) && result_models(v@) == ms) && common::left(*final(buf)) == rest,
            Err(e) => r == Err::<Vec<DescribeUserResult>, CodecError>(e),
        },
{
    proof {
        reveal(common::p_array);
    }
    let n: u64 = match read_array_len(buf, true) {
        Ok(x) => x,
        Err(e) => {
            return Err(e);
        },
    };
    let ghost p = result_parser();
    let ghost start = common::left(*buf);
    let mut out: Vec<DescribeUserResult> = Vec::new();
    let mut i: u64 = 0;
    assert(result_models(out@) =~= Seq::empty());
    while i < n
        invariant
            i <= n,
            p == result_parser(),
            common::p_array(p, common::left(*old(buf)), true) == common::p_many(p, n as nat, start),
            common::p_many(p, i as nat, start) == Ok::<(Seq<DescribeUserResultModel>, Seq<u8>), CodecError>(
                (result_models(out@), common::left(*buf)),
            ),
        decreases n - i,
    {
        let ghost before = out@;
        match read_result(buf) {
            Ok(x) => {
                out.push(x);
                assert(result_models(out@) =~= result_models(before).push(x@));
            },
            Err(e) => {
                proof {
                    common::lemma_many_fails(p, (i + 1) as nat, n as nat, start, e);
                }
                return Err(e);
            },
        }
        i = i + 1;
    }
    Ok(out)
}

pub fn decode_response(buf: &mut Bytes, version: i16) -> (r: Result<Response, CodecError>)
    ensures
        match p_response(common::left(*old(buf))) {
            Ok((m, rest)) => (r matches Ok(x) && x@ == m) && common::left(*final(buf)) == rest,
            Err(e) => r == Err::<Response, CodecError>(e),
        },
{
    let throttle_time_ms: i32 = match read_i32(buf) {
        Ok(x) => x,
        Err(e) => {
            return Err(e);
        },
    };
    let error_code: i16 = match read_i16(buf) {
        Ok(x) => x,
        Err(e) => {
            return Err(e);
        },
    };
    let error_message = match read_nullable_str(buf, true) {
        Ok(x) => x,
        Err(e) => {
            return Err(e);
        },
    };
    let results = match read_results(buf) {
        Ok(x) => x,
        Err(e) => {
            return Err(e);
        },
    };
    match read_tagged(buf, true) {
        Ok(t) => {},
        Err(e) => {
            return Err(e);
        },
    }
    Ok(Response { throttle_time_ms, error_code, error_message, results })
}

// Requests.

#[derive(Debug, Clone, PartialEq, Eq)]
pub struct Request {
    /// None for every user with credentials; an empty list for nobody.
    pub users: Option<Vec<String>>,
}

impl View for Request {
    type V = Option<Seq<Seq<char>>>;

    open spec fn view(&self) -> Option<Seq<Seq<char>>> {
        match self.users {
            Some(v) => Some(order::texts(v@)),
            None => None,
        }
    }
}

impl Default for Request {
    fn default() -> (r: Self)
        ensures
            r@ == None::<Seq<Seq<char>>>,
    {
        Request { users: None }
    }
}

pub open spec fn p_name(s: Seq<u8>) -> common::Parsed<Seq<char>> {
    match common::p_str(s, true) {
        Err(e) => Err(e),
        Ok((name, s)) => match common::p_tagged(s) {
            Err(e) => Err(e),
            Ok((t, s)) => Ok((name, s)),
        },
    }
}

pub open spec fn name_parser() -> spec_fn(Seq<u8>) -> common::Parsed<Seq<char>> {
    |s: Seq<u8>| p_name(s)
}

pub open spec fn e_name(name: Seq<char>) -> Seq<u8> {
    common::e_str(name, true) + common::e_tagged_if(true)
}

pub open spec fn name_writer() -> spec_fn(Seq<char>) -> Seq<u8> {
    |name: Seq<char>| e_name(name)
}

/// The list is null for every user: a count of zero, where an empty list is
/// written with a count of one.
pub open spec fn p_request(s: Seq<u8>) -> common::Parsed<Option<Seq<Seq<char>>>> {
    match common::p_uvarint(s) {
        Err(e) => Err(e),
        Ok((n, s)) => match (if n == 0 {
            Ok((None, s))
        } else {
            match common::p_many(name_parser(), (n - 1) as nat, s) {
                Err(e) => Err(e),
                Ok((names, s)) => Ok((Some(names), s)),
            }
        }) {
            Err(e) => Err(e),
            Ok((users, s)) => match common::p_tagged(s) {
                Err(e) => Err(e),
                Ok((t, s)) => Ok((users, s)),
            },
        },
    }
}

pub open spec fn e_request(x: Option<Seq<Seq<char>>>) -> Seq<u8> {
    (match x {
        None => common::e_uvarint(0),
        Some(names) => common::e_uvarint(names.len() + 1) + common::e_many(name_writer(), names),
    }) + common::e_tagged_if(true)
}

/// Every length fits its field.
pub open spec fn request_fits(x: Option<Seq<Seq<char>>>) -> bool {
    match x {
        None => true,
        Some(names) => names.len() < u64::MAX && forall|i: int| 0 <= i < names.len() ==> common::str_fits(#[trigger] names[i], true),
    }
}

proof fn lemma_name(name: Seq<char>, rest: Seq<u8>)
    requires
        common::str_fits(name, true),
    ensures
        p_name(e_name(name) + rest) == Ok::<(Seq<char>, Seq<u8>), CodecError>((name, rest)),
{
    broadcast use common::lemma_joined;
    let s1 = common::e_tagged_if(true) + rest;
    assert(e_name(name) + rest == common::e_str(name, true) + s1);
    common::lemma_str(name, true, s1);
    common::lemma_tagged(true, rest);
}

/// Reading gives back a written request; a null list and an empty one stay
/// apart.
pub proof fn law_request_reads_back(x: Option<Seq<Seq<char>>>, rest: Seq<u8>)
    requires
        request_fits(x),
    ensures
        p_request(e_request(x) + rest) == Ok::<(Option<Seq<Seq<char>>>, Seq<u8>), CodecError>((x, rest)),
{
    broadcast use common::lemma_joined;
    let s2 = common::e_tagged_if(true) + rest;
    match x {
        None => {
            assert(e_request(x) + rest == common::e_uvarint(0) + s2);
            common::lemma_uvarint(0, s2);
        },
        Some(names) => {
            let s1 = common::e_many(name_writer(), names) + s2;
            assert(e_request(x) + rest == common::e_uvarint(names.len() + 1) + s1);
            common::lemma_uvarint((names.len() + 1) as u64, s1);
            assert forall|i: int, t: Seq<u8>| 0 <= i < names.len() implies #[trigger] name_parser()(name_writer()(names[i]) + t) == Ok::<(Seq<char>, Seq<u8>), CodecError>((names[i], t)) by {
                assert(common::str_fits(names[i], true));
                lemma_name(names[i], t);
            }
            common::lemma_many(name_parser(), name_writer(), names, names, s2);
        },
    }
    common::lemma_tagged(true, rest);
}

fn read_name(buf: &mut Bytes) -> (r: Result<String, CodecError>)
    ensures
        match p_name(common::left(*old(buf))) {
            Ok((m, rest)) => (r matches Ok(x) && x@ == m) && common::left(*final(buf)) == rest,
            Err(e) => r == Err::<String, CodecError>(e),
        },
{
    let name = match read_str(buf, true) {
        Ok(x) => x,
        Err(e) => {
            return Err(e);
        },
    };
    match read_tagged(buf, true) {
        Ok(t) => {},
        Err(e) => {
            return Err(e);
        },
    }
    Ok(name)
}

fn read_names(buf: &mut Bytes, n: u64) -> (r: Result<Vec<String>, CodecError>)
    ensures
        match common::p_many(name_parser(), n as nat, common::left(*old(buf))) {
            Ok((ms, rest)) => (r matches Ok(v) && order::texts(v@) == ms) && common::left(*final(buf)) == rest,
            Err(e) => r == Err::<Vec<String>, CodecError>(e),
        },
{
    let ghost p = name_parser();
    let ghost start = common::left(*buf);
    let mut out: Vec<String> = Vec::new();
    let mut i: u64 = 0;
    assert(order::texts(out@) =~= Seq::empty());
    while i < n
        invariant
            i <= n,
            p == name_parser(),
            start == common::left(*old(buf)),
            common::p_many(p, i as nat, start) == Ok::<(Seq<Seq<char>>, Seq<u8>), CodecError>(
                (order::texts(out@), common::left(*buf)),
            ),
        decreases n - i,
    {
        let ghost before = out@;
        match read_name(buf) {
            Ok(x) => {
                let ghost name = x@;
                out.push(x);
                assert(order::texts(out@) =~= order::texts(before).push(name));
            },
            Err(e) => {
                proof {
                    common::lemma_many_fails(p, (i + 1) as nat, n as nat, start, e);
                }
                return Err(e);
            },
        }
        i = i + 1;
    }
    Ok(out)
}

pub fn decode_request(buf: &mut Bytes, version: i16) -> (r: Result<Request, CodecError>)
    ensures
        match p_request(common::left(*old(buf))) {
            Ok((m, rest)) => (r matches Ok(x) && x@ == m) && common::left(*final(buf)) == rest,
            Err(e) => r == Err::<Request, CodecError>(e),
        },
{
    let n: u64 = match read_uvarint(buf) {
        Ok(x) => x,
        Err(e) => {
            return Err(e);
        },
    };
    let users: Option<Vec<String>> = if n == 0 {
        None
    } else {
        match read_names(buf, n - 1) {
            Ok(x) => Some(x),
            Err(e) => {
                return Err(e);
            },
        }
    };
    match read_tagged(buf, true) {
        Ok(t) => {},
        Err(e) => {
            return Err(e);
        },
    }
    Ok(Request { users })
}

fn write_names(buf: &mut BytesMut, users: &Vec<String>) -> (r: Result<(), CodecError>)
    ensures
        r is Ok <==> request_fits(Some(order::texts(users@))),
        r is Err ==> r == Err::<(), CodecError>(CodecError::InvalidLength),
        r is Ok ==> common::written(*final(buf)) == common::written(*old(buf)) + (common::e_uvarint(users@.len() + 1)
            + common::e_many(name_writer(), order::texts(users@))),
{
    broadcast use common::lemma_joined;
    broadcast use common::lemma_nothing;

    let ghost all = order::texts(users@);
    let ghost enc = name_writer();
    let n: u64 = users.len() as u64;
    if n == u64::MAX {
        return Err(CodecError::InvalidLength);
    }
    write_uvarint(buf, n + 1);
    let ghost head = common::written(*buf);
    let mut i: usize = 0;
    assert(common::e_many(enc, all.take(0)) =~= Seq::empty());
    while i < users.len()
        invariant
            i <= users@.len(),
            all == order::texts(users@),
            enc == name_writer(),
            common::written(*buf) == head + common::e_many(enc, all.take(i as int)),
            forall|j: int| 0 <= j < i ==> common::str_fits(#[trigger] all[j], true),
        decreases users.len() - i,
    {
        assert(all[i as int] == users@[i as int]@);
        let ghost at = common::written(*buf);
        match write_str(buf, &users[i], true) {
            Ok(t) => {},
            Err(e) => {
                assert(!common::str_fits(all[i as int], true));
                return Err(e);
            },
        }
        write_tagged(buf, true);
        i = i + 1;
        proof {
            common::lemma_joined(at, common::e_str(all[i - 1], true), common::e_tagged_if(true));
            assert(common::written(*buf) == at + enc(all[i - 1]));
            assert(all.take(i as int).drop_last() =~= all.take(i - 1));
            common::lemma_joined(head, common::e_many(enc, all.take(i - 1)), enc(all[i - 1]));
        }
    }
    assert(all.take(i as int) =~= all);
    Ok(())
}

pub fn encode_request(buf: &mut BytesMut, req: &Request, version: i16) -> (r: Result<(), CodecError>)
    ensures
        r is Ok <==> request_fits(req@),
        r is Err ==> r == Err::<(), CodecError>(CodecError::InvalidLength),
        r is Ok ==> common::written(*final(buf)) == common::written(*old(buf)) + e_request(req@),
{
    broadcast use common::lemma_joined;

    match &req.users {
        None => {
            write_uvarint(buf, 0);
        },
        Some(users) => match write_names(buf, users) {
            Ok(t) => {},
            Err(e) => {
                return Err(e);
            },
        },
    }
    write_tagged(buf, true);
    Ok(())
}

} // verus!
