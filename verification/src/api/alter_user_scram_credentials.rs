//! AlterUserScramCredentials, version 0, flexible.
//!
//! The client sends salted material and never the password. The response
//! has one row for each user that is affected.

use vstd::prelude::*;
use bytes::{Bytes, BytesMut};
use crate::api::common;
use crate::api::common::{
    CodecError, HeaderVersion, read_array_len, read_bytes, read_i16, read_i32, read_i8, read_nullable_str, read_str,
    read_tagged, write_array_len, write_bytes, write_i16, write_i32, write_i8, write_nullable_str, write_str,
    write_tagged,
};
use crate::api::registry::{ApiSpec, HeaderRule};
use crate::text;

verus! {

pub const VERSIONS: (i16, i16) = (0, 0);

pub const MIN_FLEXIBLE: i16 = 0;

pub fn request_hdr(version: i16) -> (h: HeaderVersion)
    ensures
        h == HeaderVersion::V2,
{
    HeaderVersion::V2
}

pub fn response_hdr(version: i16) -> (h: HeaderVersion)
    ensures
        h == HeaderVersion::V1,
{
    HeaderVersion::V1
}

/// The row of this kind.
pub open spec fn row() -> ApiSpec {
    ApiSpec {
        key: 51,
        min_version: 0,
        max_version: 0,
        min_flexible: Some(MIN_FLEXIBLE),
        request_hdr: HeaderRule { before: HeaderVersion::V2, from: HeaderVersion::V2, switch_at: MIN_FLEXIBLE },
        response_hdr: HeaderRule { before: HeaderVersion::V1, from: HeaderVersion::V1, switch_at: MIN_FLEXIBLE },
    }
}

pub fn spec() -> (s: ApiSpec)
    ensures
        s == row(),
{
    ApiSpec {
        key: 51,
        min_version: VERSIONS.0,
        max_version: VERSIONS.1,
        min_flexible: Some(MIN_FLEXIBLE),
        request_hdr: HeaderRule { before: HeaderVersion::V2, from: HeaderVersion::V2, switch_at: MIN_FLEXIBLE },
        response_hdr: HeaderRule { before: HeaderVersion::V1, from: HeaderVersion::V1, switch_at: MIN_FLEXIBLE },
    }
}

#[derive(Debug, Clone, PartialEq, Eq)]
pub struct Request {
    pub deletions: Vec<ScramCredentialDeletion>,
    pub upsertions: Vec<ScramCredentialUpsertion>,
}

#[verifier::ext_equal]
pub struct RequestModel {
    pub deletions: Seq<ScramCredentialDeletionModel>,
    pub upsertions: Seq<ScramCredentialUpsertionModel>,
}

impl View for Request {
    type V = RequestModel;

    open spec fn view(&self) -> RequestModel {
        RequestModel {
            deletions: deletion_models(self.deletions@),
            upsertions: upsertion_models(self.upsertions@),
        }
    }
}

impl Default for Request {
    fn default() -> (r: Self)
        ensures
            r@ == (RequestModel {
                deletions: Seq::empty(),
                upsertions: Seq::empty(),
            }),
    {
        let r = Request {
            deletions: Vec::new(),
            upsertions: Vec::new(),
        };
        assert(r@.deletions =~= Seq::empty());
        assert(r@.upsertions =~= Seq::empty());
        r
    }
}

#[derive(Debug, Clone, PartialEq, Eq)]
pub struct Response {
    pub throttle_time_ms: i32,
    pub results: Vec<AlterUserResult>,
}

#[verifier::ext_equal]
pub struct ResponseModel {
    pub throttle_time_ms: i32,
    pub results: Seq<AlterUserResultModel>,
}

impl View for Response {
    type V = ResponseModel;

    open spec fn view(&self) -> ResponseModel {
        ResponseModel {
            throttle_time_ms: self.throttle_time_ms,
            results: result_models(self.results@),
        }
    }
}

impl Default for Response {
    fn default() -> (r: Self)
        ensures
            r@ == (ResponseModel {
                throttle_time_ms: 0,
                results: Seq::empty(),
            }),
    {
        let r = Response {
            throttle_time_ms: 0,
            results: Vec::new(),
        };
        assert(r@.results =~= Seq::empty());
        r
    }
}

#[derive(Debug, Clone, PartialEq, Eq)]
pub struct ScramCredentialDeletion {
    pub name: String,
    pub mechanism: i8,
}

#[verifier::ext_equal]
pub struct ScramCredentialDeletionModel {
    pub name: Seq<char>,
    pub mechanism: i8,
}

impl View for ScramCredentialDeletion {
    type V = ScramCredentialDeletionModel;

    open spec fn view(&self) -> ScramCredentialDeletionModel {
        ScramCredentialDeletionModel {
            name: self.name@,
            mechanism: self.mechanism,
        }
    }
}

pub open spec fn deletion_models(s: Seq<ScramCredentialDeletion>) -> Seq<ScramCredentialDeletionModel> {
    s.map_values(|x: ScramCredentialDeletion| x@)
}

#[derive(Debug, Clone, PartialEq, Eq)]
pub struct ScramCredentialUpsertion {
    pub name: String,
    pub mechanism: i8,
    pub iterations: i32,
    pub salt: Vec<u8>,
    /// What the client derived from the password, which it keeps.
    pub salted_password: Vec<u8>,
}

#[verifier::ext_equal]
pub struct ScramCredentialUpsertionModel {
    pub name: Seq<char>,
    pub mechanism: i8,
    pub iterations: i32,
    pub salt: Seq<u8>,
    pub salted_password: Seq<u8>,
}

impl View for ScramCredentialUpsertion {
    type V = ScramCredentialUpsertionModel;

    open spec fn view(&self) -> ScramCredentialUpsertionModel {
        ScramCredentialUpsertionModel {
            name: self.name@,
            mechanism: self.mechanism,
            iterations: self.iterations,
            salt: self.salt@,
            salted_password: self.salted_password@,
        }
    }
}

pub open spec fn upsertion_models(s: Seq<ScramCredentialUpsertion>) -> Seq<ScramCredentialUpsertionModel> {
    s.map_values(|x: ScramCredentialUpsertion| x@)
}

#[derive(Debug, Clone, PartialEq, Eq)]
pub struct AlterUserResult {
    pub user: String,
    pub error_code: i16,
    pub error_message: Option<String>,
}

#[verifier::ext_equal]
pub struct AlterUserResultModel {
    pub user: Seq<char>,
    pub error_code: i16,
    pub error_message: Option<Seq<char>>,
}

impl View for AlterUserResult {
    type V = AlterUserResultModel;

    open spec fn view(&self) -> AlterUserResultModel {
        AlterUserResultModel {
            user: self.user@,
            error_code: self.error_code,
            error_message: text::opt_text(self.error_message),
        }
    }
}

pub open spec fn result_models(s: Seq<AlterUserResult>) -> Seq<AlterUserResultModel> {
    s.map_values(|x: AlterUserResult| x@)
}

// The format.

pub open spec fn p_result(s: Seq<u8>) -> common::Parsed<AlterUserResultModel> {
    match common::p_str(s, true) {
        Err(e) => Err(e),
        Ok((user, s)) => match common::p_i16(s) {
            Err(e) => Err(e),
            Ok((error_code, s)) => match common::p_nullable_str(s, true) {
                Err(e) => Err(e),
                Ok((error_message, s)) => match common::p_tagged_if(s, true) {
                    Err(e) => Err(e),
                    Ok((t, s)) => Ok((AlterUserResultModel { user, error_code, error_message }, s)),
                },
            },
        },
    }
}

pub open spec fn result_parser() -> spec_fn(Seq<u8>) -> common::Parsed<AlterUserResultModel> {
    |s: Seq<u8>| p_result(s)
}

pub open spec fn e_result(x: AlterUserResultModel) -> Seq<u8> {
    common::e_str(x.user, true)
        + common::e_i16(x.error_code)
        + common::e_nullable_str(x.error_message, true)
        + common::e_tagged_if(true)
}

pub open spec fn result_writer() -> spec_fn(AlterUserResultModel) -> Seq<u8> {
    |x: AlterUserResultModel| e_result(x)
}

/// Every length fits its field.
pub open spec fn result_fits(x: AlterUserResultModel) -> bool {
    &&& common::str_fits(x.user, true)
    &&& common::opt_fits(x.error_message, true)
}

pub open spec fn p_upsertion(s: Seq<u8>) -> common::Parsed<ScramCredentialUpsertionModel> {
    match common::p_str(s, true) {
        Err(e) => Err(e),
        Ok((name, s)) => match common::p_i8(s) {
            Err(e) => Err(e),
            Ok((mechanism, s)) => match common::p_i32(s) {
                Err(e) => Err(e),
                Ok((iterations, s)) => match common::p_bytes(s, true) {
                    Err(e) => Err(e),
                    Ok((salt, s)) => match common::p_bytes(s, true) {
                        Err(e) => Err(e),
                        Ok((salted_password, s)) => match common::p_tagged_if(s, true) {
                            Err(e) => Err(e),
                            Ok((t, s)) => Ok((ScramCredentialUpsertionModel { name, mechanism, iterations, salt, salted_password }, s)),
                        },
                    },
                },
            },
        },
    }
}

pub open spec fn upsertion_parser() -> spec_fn(Seq<u8>) -> common::Parsed<ScramCredentialUpsertionModel> {
    |s: Seq<u8>| p_upsertion(s)
}

pub open spec fn e_upsertion(x: ScramCredentialUpsertionModel) -> Seq<u8> {
    common::e_str(x.name, true)
        + common::e_i8(x.mechanism)
        + common::e_i32(x.iterations)
        + common::e_bytes(x.salt, true)
        + common::e_bytes(x.salted_password, true)
        + common::e_tagged_if(true)
}

pub open spec fn upsertion_writer() -> spec_fn(ScramCredentialUpsertionModel) -> Seq<u8> {
    |x: ScramCredentialUpsertionModel| e_upsertion(x)
}

/// Every length fits its field.
pub open spec fn upsertion_fits(x: ScramCredentialUpsertionModel) -> bool {
    &&& common::str_fits(x.name, true)
    &&& common::bytes_fits(x.salt.len(), true)
    &&& common::bytes_fits(x.salted_password.len(), true)
}

pub open spec fn p_deletion(s: Seq<u8>) -> common::Parsed<ScramCredentialDeletionModel> {
    match common::p_str(s, true) {
        Err(e) => Err(e),
        Ok((name, s)) => match common::p_i8(s) {
            Err(e) => Err(e),
            Ok((mechanism, s)) => match common::p_tagged_if(s, true) {
                Err(e) => Err(e),
                Ok((t, s)) => Ok((ScramCredentialDeletionModel { name, mechanism }, s)),
            },
        },
    }
}

pub open spec fn deletion_parser() -> spec_fn(Seq<u8>) -> common::Parsed<ScramCredentialDeletionModel> {
    |s: Seq<u8>| p_deletion(s)
}

pub open spec fn e_deletion(x: ScramCredentialDeletionModel) -> Seq<u8> {
    common::e_str(x.name, true)
        + common::e_i8(x.mechanism)
        + common::e_tagged_if(true)
}

pub open spec fn deletion_writer() -> spec_fn(ScramCredentialDeletionModel) -> Seq<u8> {
    |x: ScramCredentialDeletionModel| e_deletion(x)
}

/// Every length fits its field.
pub open spec fn deletion_fits(x: ScramCredentialDeletionModel) -> bool {
    &&& common::str_fits(x.name, true)
}

pub open spec fn p_response(s: Seq<u8>) -> common::Parsed<ResponseModel> {
    match common::p_i32(s) {
        Err(e) => Err(e),
        Ok((throttle_time_ms, s)) => match common::p_array(result_parser(), s, true) {
            Err(e) => Err(e),
            Ok((results, s)) => match common::p_tagged_if(s, true) {
                Err(e) => Err(e),
                Ok((t, s)) => Ok((ResponseModel { throttle_time_ms, results }, s)),
            },
        },
    }
}

pub open spec fn e_response(x: ResponseModel) -> Seq<u8> {
    common::e_i32(x.throttle_time_ms)
        + common::e_array(result_writer(), x.results, true)
        + common::e_tagged_if(true)
}

/// Every length fits its field.
pub open spec fn response_fits(x: ResponseModel) -> bool {
    &&& common::array_fits(x.results.len(), true)
    &&& (forall|i: int| 0 <= i < x.results.len() ==> result_fits(#[trigger] x.results[i]))
}

pub open spec fn p_request(s: Seq<u8>) -> common::Parsed<RequestModel> {
    match common::p_array(deletion_parser(), s, true) {
        Err(e) => Err(e),
        Ok((deletions, s)) => match common::p_array(upsertion_parser(), s, true) {
            Err(e) => Err(e),
            Ok((upsertions, s)) => match common::p_tagged_if(s, true) {
                Err(e) => Err(e),
                Ok((t, s)) => Ok((RequestModel { deletions, upsertions }, s)),
            },
        },
    }
}

pub open spec fn e_request(x: RequestModel) -> Seq<u8> {
    common::e_array(deletion_writer(), x.deletions, true)
        + common::e_array(upsertion_writer(), x.upsertions, true)
        + common::e_tagged_if(true)
}

/// Every length fits its field.
pub open spec fn request_fits(x: RequestModel) -> bool {
    &&& common::array_fits(x.deletions.len(), true)
    &&& (forall|i: int| 0 <= i < x.deletions.len() ==> deletion_fits(#[trigger] x.deletions[i]))
    &&& common::array_fits(x.upsertions.len(), true)
    &&& (forall|i: int| 0 <= i < x.upsertions.len() ==> upsertion_fits(#[trigger] x.upsertions[i]))
}

// What reading gives back of writing.

proof fn lemma_result(x: AlterUserResultModel, rest: Seq<u8>)
    requires
        result_fits(x),
    ensures
        p_result(e_result(x) + rest) == Ok::<(AlterUserResultModel, Seq<u8>), CodecError>((x, rest)),
{
    broadcast use common::lemma_joined;
    let s3 = common::e_tagged_if(true) + rest;
    let s2 = common::e_nullable_str(x.error_message, true) + s3;
    let s1 = common::e_i16(x.error_code) + s2;
    assert(e_result(x) + rest == common::e_str(x.user, true) + s1);
    common::lemma_str(x.user, true, s1);
    common::lemma_i16(x.error_code, s2);
    common::lemma_nullable_str(x.error_message, true, s3);
    common::lemma_tagged(true, rest);
}

proof fn lemma_results(xs: Seq<AlterUserResultModel>, rest: Seq<u8>)
    requires
        common::array_fits(xs.len(), true),
        forall|i: int| 0 <= i < xs.len() ==> result_fits(#[trigger] xs[i]),
    ensures
        common::p_array(result_parser(), common::e_array(result_writer(), xs, true) + rest, true) == Ok::<
            (Seq<AlterUserResultModel>, Seq<u8>),
            CodecError,
        >((xs, rest)),
{
    let seen = xs;
    let p = result_parser();
    let enc = result_writer();
    assert forall|i: int, t: Seq<u8>| 0 <= i < xs.len() implies #[trigger] p(enc(xs[i]) + t) == Ok::<(AlterUserResultModel, Seq<u8>), CodecError>((seen[i], t)) by {
        lemma_result(xs[i], t);
    }
    common::lemma_array(p, enc, xs, seen, true, rest);
}

proof fn lemma_upsertion(x: ScramCredentialUpsertionModel, rest: Seq<u8>)
    requires
        upsertion_fits(x),
    ensures
        p_upsertion(e_upsertion(x) + rest) == Ok::<(ScramCredentialUpsertionModel, Seq<u8>), CodecError>((x, rest)),
{
    broadcast use common::lemma_joined;
    let s5 = common::e_tagged_if(true) + rest;
    let s4 = common::e_bytes(x.salted_password, true) + s5;
    let s3 = common::e_bytes(x.salt, true) + s4;
    let s2 = common::e_i32(x.iterations) + s3;
    let s1 = common::e_i8(x.mechanism) + s2;
    assert(e_upsertion(x) + rest == common::e_str(x.name, true) + s1);
    common::lemma_str(x.name, true, s1);
    common::lemma_i8(x.mechanism, s2);
    common::lemma_i32(x.iterations, s3);
    common::lemma_bytes(x.salt, true, s4);
    common::lemma_bytes(x.salted_password, true, s5);
    common::lemma_tagged(true, rest);
}

proof fn lemma_upsertions(xs: Seq<ScramCredentialUpsertionModel>, rest: Seq<u8>)
    requires
        common::array_fits(xs.len(), true),
        forall|i: int| 0 <= i < xs.len() ==> upsertion_fits(#[trigger] xs[i]),
    ensures
        common::p_array(upsertion_parser(), common::e_array(upsertion_writer(), xs, true) + rest, true) == Ok::<
            (Seq<ScramCredentialUpsertionModel>, Seq<u8>),
            CodecError,
        >((xs, rest)),
{
    let seen = xs;
    let p = upsertion_parser();
    let enc = upsertion_writer();
    assert forall|i: int, t: Seq<u8>| 0 <= i < xs.len() implies #[trigger] p(enc(xs[i]) + t) == Ok::<(ScramCredentialUpsertionModel, Seq<u8>), CodecError>((seen[i], t)) by {
        lemma_upsertion(xs[i], t);
    }
    common::lemma_array(p, enc, xs, seen, true, rest);
}

proof fn lemma_deletion(x: ScramCredentialDeletionModel, rest: Seq<u8>)
    requires
        deletion_fits(x),
    ensures
        p_deletion(e_deletion(x) + rest) == Ok::<(ScramCredentialDeletionModel, Seq<u8>), CodecError>((x, rest)),
{
    broadcast use common::lemma_joined;
    let s2 = common::e_tagged_if(true) + rest;
    let s1 = common::e_i8(x.mechanism) + s2;
    assert(e_deletion(x) + rest == common::e_str(x.name, true) + s1);
    common::lemma_str(x.name, true, s1);
    common::lemma_i8(x.mechanism, s2);
    common::lemma_tagged(true, rest);
}

proof fn lemma_deletions(xs: Seq<ScramCredentialDeletionModel>, rest: Seq<u8>)
    requires
        common::array_fits(xs.len(), true),
        forall|i: int| 0 <= i < xs.len() ==> deletion_fits(#[trigger] xs[i]),
    ensures
        common::p_array(deletion_parser(), common::e_array(deletion_writer(), xs, true) + rest, true) == Ok::<
            (Seq<ScramCredentialDeletionModel>, Seq<u8>),
            CodecError,
        >((xs, rest)),
{
    let seen = xs;
    let p = deletion_parser();
    let enc = deletion_writer();
    assert forall|i: int, t: Seq<u8>| 0 <= i < xs.len() implies #[trigger] p(enc(xs[i]) + t) == Ok::<(ScramCredentialDeletionModel, Seq<u8>), CodecError>((seen[i], t)) by {
        lemma_deletion(xs[i], t);
    }
    common::lemma_array(p, enc, xs, seen, true, rest);
}

/// Reading gives back a written response.
pub proof fn law_response_reads_back(x: ResponseModel, rest: Seq<u8>)
    requires
        response_fits(x),
    ensures
        p_response(e_response(x) + rest) == Ok::<(ResponseModel, Seq<u8>), CodecError>((x, rest)),
{
    broadcast use common::lemma_joined;
    let s2 = common::e_tagged_if(true) + rest;
    let s1 = common::e_array(result_writer(), x.results, true) + s2;
    assert(e_response(x) + rest == common::e_i32(x.throttle_time_ms) + s1);
    common::lemma_i32(x.throttle_time_ms, s1);
    lemma_results(x.results, s2);
    common::lemma_tagged(true, rest);
}

/// Reading gives back a written request.
pub proof fn law_request_reads_back(x: RequestModel, rest: Seq<u8>)
    requires
        request_fits(x),
    ensures
        p_request(e_request(x) + rest) == Ok::<(RequestModel, Seq<u8>), CodecError>((x, rest)),
{
    broadcast use common::lemma_joined;
    let s2 = common::e_tagged_if(true) + rest;
    let s1 = common::e_array(upsertion_writer(), x.upsertions, true) + s2;
    assert(e_request(x) + rest == common::e_array(deletion_writer(), x.deletions, true) + s1);
    lemma_deletions(x.deletions, s1);
    lemma_upsertions(x.upsertions, s2);
    common::lemma_tagged(true, rest);
}

// Reading and writing.

fn write_result(buf: &mut BytesMut, x: &AlterUserResult) -> (r: Result<(), CodecError>)
    ensures
        r is Ok <==> result_fits(x@),
        r is Err ==> r == Err::<(), CodecError>(CodecError::InvalidLength),
        r is Ok ==> common::written(*final(buf)) == common::written(*old(buf)) + e_result(x@),
{
    broadcast use common::lemma_joined;
    broadcast use common::lemma_nothing;

    match write_str(buf, &x.user, true) {
        Ok(t) => {},
        Err(e) => {
            return Err(e);
        },
    }
    write_i16(buf, x.error_code);
    match write_nullable_str(buf, &x.error_message, true) {
        Ok(t) => {},
        Err(e) => {
            return Err(e);
        },
    }
    write_tagged(buf, true);
    Ok(())
}

fn write_results(buf: &mut BytesMut, xs: &Vec<AlterUserResult>) -> (r: Result<(), CodecError>)
    ensures
        r is Ok <==> common::array_fits(xs@.len(), true) && (forall|i: int| 0 <= i < xs@.len() ==> result_fits(#[trigger] result_models(xs@)[i])),
        r is Err ==> r == Err::<(), CodecError>(CodecError::InvalidLength),
        r is Ok ==> common::written(*final(buf)) == common::written(*old(buf)) + common::e_array(result_writer(), result_models(xs@), true),
{
    broadcast use common::lemma_joined;
    broadcast use common::lemma_nothing;

    proof {
        reveal(common::e_array);
    }
    let ghost all = result_models(xs@);
    let ghost enc = result_writer();
    match write_array_len(buf, xs.len(), true) {
        Ok(t) => {},
        Err(e) => {
            return Err(e);
        },
    }
    let ghost head = common::written(*buf);
    let mut i: usize = 0;
    assert(common::e_many(enc, all.take(0)) =~= Seq::empty());
    while i < xs.len()
        invariant
            i <= xs@.len(),
            all == result_models(xs@),
            enc == result_writer(),
            common::written(*buf) == head + common::e_many(enc, all.take(i as int)),
            forall|j: int| 0 <= j < i ==> result_fits(#[trigger] all[j]),
        decreases xs.len() - i,
    {
        assert(all[i as int] == xs@[i as int]@);
        match write_result(buf, &xs[i]) {
            Ok(t) => {},
            Err(e) => {
                assert(!result_fits(all[i as int]));
                return Err(e);
            },
        }
        i = i + 1;
        proof {
            assert(all.take(i as int).drop_last() =~= all.take(i - 1));
            common::lemma_joined(head, common::e_many(enc, all.take(i - 1)), enc(all[i - 1]));
        }
    }
    assert(all.take(i as int) =~= all);
    Ok(())
}

fn write_upsertion(buf: &mut BytesMut, x: &ScramCredentialUpsertion) -> (r: Result<(), CodecError>)
    ensures
        r is Ok <==> upsertion_fits(x@),
        r is Err ==> r == Err::<(), CodecError>(CodecError::InvalidLength),
        r is Ok ==> common::written(*final(buf)) == common::written(*old(buf)) + e_upsertion(x@),
{
    broadcast use common::lemma_joined;
    broadcast use common::lemma_nothing;

    match write_str(buf, &x.name, true) {
        Ok(t) => {},
        Err(e) => {
            return Err(e);
        },
    }
    write_i8(buf, x.mechanism);
    write_i32(buf, x.iterations);
    match write_bytes(buf, &x.salt, true) {
        Ok(t) => {},
        Err(e) => {
            return Err(e);
        },
    }
    match write_bytes(buf, &x.salted_password, true) {
        Ok(t) => {},
        Err(e) => {
            return Err(e);
        },
    }
    write_tagged(buf, true);
    Ok(())
}

fn write_upsertions(buf: &mut BytesMut, xs: &Vec<ScramCredentialUpsertion>) -> (r: Result<(), CodecError>)
    ensures
        r is Ok <==> common::array_fits(xs@.len(), true) && (forall|i: int| 0 <= i < xs@.len() ==> upsertion_fits(#[trigger] upsertion_models(xs@)[i])),
        r is Err ==> r == Err::<(), CodecError>(CodecError::InvalidLength),
        r is Ok ==> common::written(*final(buf)) == common::written(*old(buf)) + common::e_array(upsertion_writer(), upsertion_models(xs@), true),
{
    broadcast use common::lemma_joined;
    broadcast use common::lemma_nothing;

    proof {
        reveal(common::e_array);
    }
    let ghost all = upsertion_models(xs@);
    let ghost enc = upsertion_writer();
    match write_array_len(buf, xs.len(), true) {
        Ok(t) => {},
        Err(e) => {
            return Err(e);
        },
    }
    let ghost head = common::written(*buf);
    let mut i: usize = 0;
    assert(common::e_many(enc, all.take(0)) =~= Seq::empty());
    while i < xs.len()
        invariant
            i <= xs@.len(),
            all == upsertion_models(xs@),
            enc == upsertion_writer(),
            common::written(*buf) == head + common::e_many(enc, all.take(i as int)),
            forall|j: int| 0 <= j < i ==> upsertion_fits(#[trigger] all[j]),
        decreases xs.len() - i,
    {
        assert(all[i as int] == xs@[i as int]@);
        match write_upsertion(buf, &xs[i]) {
            Ok(t) => {},
            Err(e) => {
                assert(!upsertion_fits(all[i as int]));
                return Err(e);
            },
        }
        i = i + 1;
        proof {
            assert(all.take(i as int).drop_last() =~= all.take(i - 1));
            common::lemma_joined(head, common::e_many(enc, all.take(i - 1)), enc(all[i - 1]));
        }
    }
    assert(all.take(i as int) =~= all);
    Ok(())
}

fn write_deletion(buf: &mut BytesMut, x: &ScramCredentialDeletion) -> (r: Result<(), CodecError>)
    ensures
        r is Ok <==> deletion_fits(x@),
        r is Err ==> r == Err::<(), CodecError>(CodecError::InvalidLength),
        r is Ok ==> common::written(*final(buf)) == common::written(*old(buf)) + e_deletion(x@),
{
    broadcast use common::lemma_joined;
    broadcast use common::lemma_nothing;

    match write_str(buf, &x.name, true) {
        Ok(t) => {},
        Err(e) => {
            return Err(e);
        },
    }
    write_i8(buf, x.mechanism);
    write_tagged(buf, true);
    Ok(())
}

fn write_deletions(buf: &mut BytesMut, xs: &Vec<ScramCredentialDeletion>) -> (r: Result<(), CodecError>)
    ensures
        r is Ok <==> common::array_fits(xs@.len(), true) && (forall|i: int| 0 <= i < xs@.len() ==> deletion_fits(#[trigger] deletion_models(xs@)[i])),
        r is Err ==> r == Err::<(), CodecError>(CodecError::InvalidLength),
        r is Ok ==> common::written(*final(buf)) == common::written(*old(buf)) + common::e_array(deletion_writer(), deletion_models(xs@), true),
{
    broadcast use common::lemma_joined;
    broadcast use common::lemma_nothing;

    proof {
        reveal(common::e_array);
    }
    let ghost all = deletion_models(xs@);
    let ghost enc = deletion_writer();
    match write_array_len(buf, xs.len(), true) {
        Ok(t) => {},
        Err(e) => {
            return Err(e);
        },
    }
    let ghost head = common::written(*buf);
    let mut i: usize = 0;
    assert(common::e_many(enc, all.take(0)) =~= Seq::empty());
    while i < xs.len()
        invariant
            i <= xs@.len(),
            all == deletion_models(xs@),
            enc == deletion_writer(),
            common::written(*buf) == head + common::e_many(enc, all.take(i as int)),
            forall|j: int| 0 <= j < i ==> deletion_fits(#[trigger] all[j]),
        decreases xs.len() - i,
    {
        assert(all[i as int] == xs@[i as int]@);
        match write_deletion(buf, &xs[i]) {
            Ok(t) => {},
            Err(e) => {
                assert(!deletion_fits(all[i as int]));
                return Err(e);
            },
        }
        i = i + 1;
        proof {
            assert(all.take(i as int).drop_last() =~= all.take(i - 1));
            common::lemma_joined(head, common::e_many(enc, all.take(i - 1)), enc(all[i - 1]));
        }
    }
    assert(all.take(i as int) =~= all);
    Ok(())
}

pub fn encode_response(buf: &mut BytesMut, x: &Response, version: i16) -> (r: Result<(), CodecError>)
    ensures
        r is Ok <==> response_fits(x@),
        r is Err ==> r == Err::<(), CodecError>(CodecError::InvalidLength),
        r is Ok ==> common::written(*final(buf)) == common::written(*old(buf)) + e_response(x@),
{
    broadcast use common::lemma_joined;
    broadcast use common::lemma_nothing;

    write_i32(buf, x.throttle_time_ms);
    match write_results(buf, &x.results) {
        Ok(t) => {},
        Err(e) => {
            return Err(e);
        },
    }
    write_tagged(buf, true);
    Ok(())
}

pub fn encode_request(buf: &mut BytesMut, x: &Request, version: i16) -> (r: Result<(), CodecError>)
    ensures
        r is Ok <==> request_fits(x@),
        r is Err ==> r == Err::<(), CodecError>(CodecError::InvalidLength),
        r is Ok ==> common::written(*final(buf)) == common::written(*old(buf)) + e_request(x@),
{
    broadcast use common::lemma_joined;
    broadcast use common::lemma_nothing;

    match write_deletions(buf, &x.deletions) {
        Ok(t) => {},
        Err(e) => {
            return Err(e);
        },
    }
    match write_upsertions(buf, &x.upsertions) {
        Ok(t) => {},
        Err(e) => {
            return Err(e);
        },
    }
    write_tagged(buf, true);
    Ok(())
}

fn read_result(buf: &mut Bytes) -> (r: Result<AlterUserResult, CodecError>)
    ensures
        match p_result(common::left(*old(buf))) {
            Ok((m, rest)) => (r matches Ok(x) && x@ == m) && common::left(*final(buf)) == rest,
            Err(e) => r == Err::<AlterUserResult, CodecError>(e),
        },
{
    let user = match read_str(buf, true) {
        Ok(x) => x,
        Err(e) => {
            return Err(e);
        },
    };
    let error_code: i16 = match read_i16(buf) {
        Ok(x) => x,
        Err(e) => {
            return Err(e);
        },
    };
    let error_message = match read_nullable_str(buf, true) {
        Ok(x) => x,
        Err(e) => {
            return Err(e);
        },
    };
    match read_tagged(buf, true) {
        Ok(t) => {},
        Err(e) => {
            return Err(e);
        },
    }
    Ok(AlterUserResult { user, error_code, error_message })
}

fn read_results(buf: &mut Bytes) -> (r: Result<Vec<AlterUserResult>, CodecError>)
    ensures
        match common::p_array(result_parser(), common::left(*old(buf)), true) {
            Ok((ms, rest)) => (r matches Ok(v) && result_models(v@) == ms) && common::left(*final(buf)) == rest,
            Err(e) => r == Err::<Vec<AlterUserResult>, CodecError>(e),
        },
{
    proof {
        reveal(common::p_array);
    }
    let n: u64 = match read_array_len(buf, true) {
        Ok(x) => x,
        Err(e) => {
            return Err(e);
        },
    };
    let ghost p = result_parser();
    let ghost start = common::left(*buf);
    let mut out: Vec<AlterUserResult> = Vec::new();
    let mut i: u64 = 0;
    assert(result_models(out@) =~= Seq::empty());
    while i < n
        invariant
            i <= n,
            p == result_parser(),
            common::p_array(p, common::left(*old(buf)), true) == common::p_many(p, n as nat, start),
            common::p_many(p, i as nat, start) == Ok::<(Seq<AlterUserResultModel>, Seq<u8>), CodecError>(
                (result_models(out@), common::left(*buf)),
            ),
        decreases n - i,
    {
        let ghost before = out@;
        match read_result(buf) {
            Ok(x) => {
                out.push(x);
                assert(result_models(out@) =~= result_models(before).push(x@));
            },
            Err(e) => {
                proof {
                    common::lemma_many_fails(p, (i + 1) as nat, n as nat, start, e);
                }
                return Err(e);
            },
        }
        i = i + 1;
    }
    Ok(out)
}

fn read_upsertion(buf: &mut Bytes) -> (r: Result<ScramCredentialUpsertion, CodecError>)
    ensures
        match p_upsertion(common::left(*old(buf))) {
            Ok((m, rest)) => (r matches Ok(x) && x@ == m) && common::left(*final(buf)) == rest,
            Err(e) => r == Err::<ScramCredentialUpsertion, CodecError>(e),
        },
{
    let name = match read_str(buf, true) {
        Ok(x) => x,
        Err(e) => {
            return Err(e);
        },
    };
    let mechanism: i8 = match read_i8(buf) {
        Ok(x) => x,
        Err(e) => {
            return Err(e);
        },
    };
    let iterations: i32 = match read_i32(buf) {
        Ok(x) => x,
        Err(e) => {
            return Err(e);
        },
    };
    let salt = match read_bytes(buf, true) {
        Ok(x) => x,
        Err(e) => {
            return Err(e);
        },
    };
    let salted_password = match read_bytes(buf, true) {
        Ok(x) => x,
        Err(e) => {
            return Err(e);
        },
    };
    match read_tagged(buf, true) {
        Ok(t) => {},
        Err(e) => {
            return Err(e);
        },
    }
    Ok(ScramCredentialUpsertion { name, mechanism, iterations, salt, salted_password })
}

fn read_upsertions(buf: &mut Bytes) -> (r: Result<Vec<ScramCredentialUpsertion>, CodecError>)
    ensures
        match common::p_array(upsertion_parser(), common::left(*old(buf)), true) {
            Ok((ms, rest)) => (r matches Ok(v) && upsertion_models(v@) == ms) && common::left(*final(buf)) == rest,
            Err(e) => r == Err::<Vec<ScramCredentialUpsertion>, CodecError>(e),
        },
{
    proof {
        reveal(common::p_array);
    }
    let n: u64 = match read_array_len(buf, true) {
        Ok(x) => x,
        Err(e) => {
            return Err(e);
        },
    };
    let ghost p = upsertion_parser();
    let ghost start = common::left(*buf);
    let mut out: Vec<ScramCredentialUpsertion> = Vec::new();
    let mut i: u64 = 0;
    assert(upsertion_models(out@) =~= Seq::empty());
    while i < n
        invariant
            i <= n,
            p == upsertion_parser(),
            common::p_array(p, common::left(*old(buf)), true) == common::p_many(p, n as nat, start),
            common::p_many(p, i as nat, start) == Ok::<(Seq<ScramCredentialUpsertionModel>, Seq<u8>), CodecError>(
                (upsertion_models(out@), common::left(*buf)),
            ),
        decreases n - i,
    {
        let ghost before = out@;
        match read_upsertion(buf) {
            Ok(x) => {
                out.push(x);
                assert(upsertion_models(out@) =~= upsertion_models(before).push(x@));
            },
            Err(e) => {
                proof {
                    common::lemma_many_fails(p, (i + 1) as nat, n as nat, start, e);
                }
                return Err(e);
            },
        }
        i = i + 1;
    }
    Ok(out)
}

fn read_deletion(buf: &mut Bytes) -> (r: Result<ScramCredentialDeletion, CodecError>)
    ensures
        match p_deletion(common::left(*old(buf))) {
            Ok((m, rest)) => (r matches Ok(x) && x@ == m) && common::left(*final(buf)) == rest,
            Err(e) => r == Err::<ScramCredentialDeletion, CodecError>(e),
        },
{
    let name = match read_str(buf, true) {
        Ok(x) => x,
        Err(e) => {
            return Err(e);
        },
    };
    let mechanism: i8 = match read_i8(buf) {
        Ok(x) => x,
        Err(e) => {
            return Err(e);
        },
    };
    match read_tagged(buf, true) {
        Ok(t) => {},
        Err(e) => {
            return Err(e);
        },
    }
    Ok(ScramCredentialDeletion { name, mechanism })
}

fn read_deletions(buf: &mut Bytes) -> (r: Result<Vec<ScramCredentialDeletion>, CodecError>)
    ensures
        match common::p_array(deletion_parser(), common::left(*old(buf)), true) {
            Ok((ms, rest)) => (r matches Ok(v) && deletion_models(v@) == ms) && common::left(*final(buf)) == rest,
            Err(e) => r == Err::<Vec<ScramCredentialDeletion>, CodecError>(e),
        },
{
    proof {
        reveal(common::p_array);
    }
    let n: u64 = match read_array_len(buf, true) {
        Ok(x) => x,
        Err(e) => {
            return Err(e);
        },
    };
    let ghost p = deletion_parser();
    let ghost start = common::left(*buf);
    let mut out: Vec<ScramCredentialDeletion> = Vec::new();
    let mut i: u64 = 0;
    assert(deletion_models(out@) =~= Seq::empty());
    while i < n
        invariant
            i <= n,
            p == deletion_parser(),
            common::p_array(p, common::left(*old(buf)), true) == common::p_many(p, n as nat, start),
            common::p_many(p, i as nat, start) == Ok::<(Seq<ScramCredentialDeletionModel>, Seq<u8>), CodecError>(
                (deletion_models(out@), common::left(*buf)),
            ),
        decreases n - i,
    {
        let ghost before = out@;
        match read_deletion(buf) {
            Ok(x) => {
                out.push(x);
                assert(deletion_models(out@) =~= deletion_models(before).push(x@));
            },
            Err(e) => {
                proof {
                    common::lemma_many_fails(p, (i + 1) as nat, n as nat, start, e);
                }
                return Err(e);
            },
        }
        i = i + 1;
    }
    Ok(out)
}

pub fn decode_response(buf: &mut Bytes, version: i16) -> (r: Result<Response, CodecError>)
    ensures
        match p_response(common::left(*old(buf))) {
            Ok((m, rest)) => (r matches Ok(x) && x@ == m) && common::left(*final(buf)) == rest,
            Err(e) => r == Err::<Response, CodecError>(e),
        },
{
    let throttle_time_ms: i32 = match read_i32(buf) {
        Ok(x) => x,
        Err(e) => {
            return Err(e);
        },
    };
    let results = match read_results(buf) {
        Ok(x) => x,
        Err(e) => {
            return Err(e);
        },
    };
    match read_tagged(buf, true) {
        Ok(t) => {},
        Err(e) => {
            return Err(e);
        },
    }
    Ok(Response { throttle_time_ms, results })
}

pub fn decode_request(buf: &mut Bytes, version: i16) -> (r: Result<Request, CodecError>)
    ensures
        match p_request(common::left(*old(buf))) {
            Ok((m, rest)) => (r matches Ok(x) && x@ == m) && common::left(*final(buf)) == rest,
            Err(e) => r == Err::<Request, CodecError>(e),
        },
{
    let deletions = match read_deletions(buf) {
        Ok(x) => x,
        Err(e) => {
            return Err(e);
        },
    };
    let upsertions = match read_upsertions(buf) {
        Ok(x) => x,
        Err(e) => {
            return Err(e);
        },
    };
    match read_tagged(buf, true) {
        Ok(t) => {},
        Err(e) => {
            return Err(e);
        },
    }
    Ok(Request { deletions, upsertions })
}

} // verus!
