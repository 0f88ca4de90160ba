//! DescribeCluster, versions 0 to 2, flexible from the first.

use vstd::prelude::*;
use bytes::{Bytes, BytesMut};
use crate::api::common;
use crate::api::common::{
    CodecError, HeaderVersion, read_array_len, read_bool, read_i16, read_i32, read_i8, read_nullable_str, read_str,
    read_tagged, write_array_len, write_bool, write_i16, write_i32, write_i8, write_nullable_str, write_str,
    write_tagged,
};
use crate::api::endpoint_type;
use crate::api::registry::{ApiSpec, HeaderRule};
use crate::text;

verus! {

pub const VERSIONS: (i16, i16) = (0, 2);

pub const MIN_FLEXIBLE: i16 = 0;

/// Authorized operations where the client did not ask for them.
pub const NOT_REQUESTED: i32 = -0x8000_0000;

pub fn request_hdr(version: i16) -> (h: HeaderVersion)
    ensures
        h == HeaderVersion::V2,
{
    HeaderVersion::V2
}

pub fn response_hdr(version: i16) -> (h: HeaderVersion)
    ensures
        h == HeaderVersion::V1,
{
    HeaderVersion::V1
}

/// The row of DescribeCluster.
pub open spec fn row() -> ApiSpec {
    ApiSpec {
        key: 60,
        min_version: 0,
        max_version: 2,
        min_flexible: Some(MIN_FLEXIBLE),
        request_hdr: HeaderRule { before: HeaderVersion::V2, from: HeaderVersion::V2, switch_at: MIN_FLEXIBLE },
        response_hdr: HeaderRule { before: HeaderVersion::V1, from: HeaderVersion::V1, switch_at: MIN_FLEXIBLE },
    }
}

pub fn spec() -> (s: ApiSpec)
    ensures
        s == row(),
{
    ApiSpec {
        key: 60,
        min_version: VERSIONS.0,
        max_version: VERSIONS.1,
        min_flexible: Some(MIN_FLEXIBLE),
        request_hdr: HeaderRule { before: HeaderVersion::V2, from: HeaderVersion::V2, switch_at: MIN_FLEXIBLE },
        response_hdr: HeaderRule { before: HeaderVersion::V1, from: HeaderVersion::V1, switch_at: MIN_FLEXIBLE },
    }
}

#[derive(Debug, Clone, Copy, PartialEq, Eq, Structural)]
pub struct Request {
    pub include_cluster_authorized_operations: bool,
    /// From version 1; else brokers are meant.
    pub endpoint_type: i8,
    /// From version 2.
    pub include_fenced_brokers: bool,
}

impl Default for Request {
    fn default() -> (r: Self)
        ensures
            r == (Request {
                include_cluster_authorized_operations: false,
                endpoint_type: endpoint_type::BROKER,
                include_fenced_brokers: false,
            }),
    {
        Request {
            include_cluster_authorized_operations: false,
            endpoint_type: endpoint_type::BROKER,
            include_fenced_brokers: false,
        }
    }
}

#[derive(Debug, Clone, PartialEq, Eq)]
pub struct Response {
    pub throttle_time_ms: i32,
    pub error_code: i16,
    pub error_message: Option<String>,
    /// From version 1.
    pub endpoint_type: i8,
    pub cluster_id: String,
    pub controller_id: i32,
    pub brokers: Vec<Broker>,
    pub cluster_authorized_operations: i32,
}

#[verifier::ext_equal]
pub struct ResponseModel {
    pub throttle_time_ms: i32,
    pub error_code: i16,
    pub error_message: Option<Seq<char>>,
    pub endpoint_type: i8,
    pub cluster_id: Seq<char>,
    pub controller_id: i32,
    pub brokers: Seq<BrokerModel>,
    pub cluster_authorized_operations: i32,
}

impl View for Response {
    type V = ResponseModel;

    open spec fn view(&self) -> ResponseModel {
        ResponseModel {
            throttle_time_ms: self.throttle_time_ms,
            error_code: self.error_code,
            error_message: text::opt_text(self.error_message),
            endpoint_type: self.endpoint_type,
            cluster_id: self.cluster_id@,
            controller_id: self.controller_id,
            brokers: broker_models(self.brokers@),
            cluster_authorized_operations: self.cluster_authorized_operations,
        }
    }
}

impl Default for Response {
    fn default() -> (r: Self)
        ensures
            r@ == (ResponseModel {
                throttle_time_ms: 0,
                error_code: 0,
                error_message: None,
                endpoint_type: endpoint_type::BROKER,
                cluster_id: Seq::empty(),
                controller_id: -1i32,
                brokers: Seq::empty(),
                cluster_authorized_operations: NOT_REQUESTED,
            }),
    {
        let r = Response {
            throttle_time_ms: 0,
            error_code: 0,
            error_message: None,
            endpoint_type: endpoint_type::BROKER,
            cluster_id: String::new(),
            controller_id: -1,
            brokers: Vec::new(),
            cluster_authorized_operations: NOT_REQUESTED,
        };
        assert(broker_models(r.brokers@) =~= Seq::empty());
        r
    }
}

#[derive(Debug, Clone, PartialEq, Eq)]
pub struct Broker {
    pub broker_id: i32,
    pub host: String,
    pub port: i32,
    pub rack: Option<String>,
    /// Registered but not serving; from version 2.
    pub is_fenced: bool,
}

impl Default for Broker {
    fn default() -> (r: Self)
        ensures
            r@ == (BrokerModel { broker_id: 0, host: Seq::empty(), port: 0, rack: None, is_fenced: false }),
    {
        Broker { broker_id: 0, host: String::new(), port: 0, rack: None, is_fenced: false }
    }
}

#[verifier::ext_equal]
pub struct BrokerModel {
    pub broker_id: i32,
    pub host: Seq<char>,
    pub port: i32,
    pub rack: Option<Seq<char>>,
    pub is_fenced: bool,
}

impl View for Broker {
    type V = BrokerModel;

    open spec fn view(&self) -> BrokerModel {
        BrokerModel {
            broker_id: self.broker_id,
            host: self.host@,
            port: self.port,
            rack: text::opt_text(self.rack),
            is_fenced: self.is_fenced,
        }
    }
}

pub open spec fn broker_models(s: Seq<Broker>) -> Seq<BrokerModel> {
    s.map_values(|b: Broker| b@)
}

// The format.

pub open spec fn p_request(s: Seq<u8>, version: i16) -> common::Parsed<Request> {
    match common::p_bool(s) {
        Err(e) => Err(e),
        Ok((ops, s)) => match (if version >= 1 { common::p_i8(s) } else { Ok((endpoint_type::BROKER, s)) }) {
            Err(e) => Err(e),
            Ok((kind, s)) => match (if version >= 2 { common::p_bool(s) } else { Ok((false, s)) }) {
                Err(e) => Err(e),
                Ok((fenced, s)) => match common::p_tagged(s) {
                    Err(e) => Err(e),
                    Ok((t, s)) => Ok(
                        (
                            Request {
                                include_cluster_authorized_operations: ops,
                                endpoint_type: kind,
                                include_fenced_brokers: fenced,
                            },
                            s,
                        ),
                    ),
                },
            },
        },
    }
}

pub open spec fn e_request(r: Request, version: i16) -> Seq<u8> {
    common::e_bool(r.include_cluster_authorized_operations) + (if version >= 1 {
        common::e_i8(r.endpoint_type)
    } else {
        Seq::empty()
    }) + (if version >= 2 { common::e_bool(r.include_fenced_brokers) } else { Seq::empty() }) + common::e_tagged_if(true)
}

/// A request as a reader of that version sees it.
pub open spec fn request_at(r: Request, version: i16) -> Request {
    Request {
        include_cluster_authorized_operations: r.include_cluster_authorized_operations,
        endpoint_type: if version >= 1 { r.endpoint_type } else { endpoint_type::BROKER },
        include_fenced_brokers: version >= 2 && r.include_fenced_brokers,
    }
}

pub open spec fn p_broker(s: Seq<u8>, version: i16) -> common::Parsed<BrokerModel> {
    match common::p_i32(s) {
        Err(e) => Err(e),
        Ok((broker_id, s)) => match common::p_str(s, true) {
            Err(e) => Err(e),
            Ok((host, s)) => match common::p_i32(s) {
                Err(e) => Err(e),
                Ok((port, s)) => match common::p_nullable_str(s, true) {
                    Err(e) => Err(e),
                    Ok((rack, s)) => match (if version >= 2 { common::p_bool(s) } else { Ok((false, s)) }) {
                        Err(e) => Err(e),
                        Ok((is_fenced, s)) => match common::p_tagged(s) {
                            Err(e) => Err(e),
                            Ok((t, s)) => Ok((BrokerModel { broker_id, host, port, rack, is_fenced }, s)),
                        },
                    },
                },
            },
        },
    }
}

pub open spec fn broker_parser(version: i16) -> spec_fn(Seq<u8>) -> common::Parsed<BrokerModel> {
    |s: Seq<u8>| p_broker(s, version)
}

pub open spec fn e_broker(b: BrokerModel, version: i16) -> Seq<u8> {
    common::e_i32(b.broker_id) + common::e_str(b.host, true) + common::e_i32(b.port) + common::e_nullable_str(b.rack, true) + (
    if version >= 2 { common::e_bool(b.is_fenced) } else { Seq::empty() }) + common::e_tagged_if(true)
}

pub open spec fn broker_writer(version: i16) -> spec_fn(BrokerModel) -> Seq<u8> {
    |b: BrokerModel| e_broker(b, version)
}

pub open spec fn broker_fits(b: BrokerModel) -> bool {
    common::str_fits(b.host, true) && common::opt_fits(b.rack, true)
}

pub open spec fn broker_at(b: BrokerModel, version: i16) -> BrokerModel {
    BrokerModel { is_fenced: version >= 2 && b.is_fenced, ..b }
}

pub open spec fn p_response(s: Seq<u8>, version: i16) -> common::Parsed<ResponseModel> {
    match common::p_i32(s) {
        Err(e) => Err(e),
        Ok((throttle_time_ms, s)) => match common::p_i16(s) {
            Err(e) => Err(e),
            Ok((error_code, s)) => match common::p_nullable_str(s, true) {
                Err(e) => Err(e),
                Ok((error_message, s)) => match (if version >= 1 { common::p_i8(s) } else { Ok((endpoint_type::BROKER, s)) }) {
                    Err(e) => Err(e),
                    Ok((kind, s)) => match common::p_str(s, true) {
                        Err(e) => Err(e),
                        Ok((cluster_id, s)) => match common::p_i32(s) {
                            Err(e) => Err(e),
                            Ok((controller_id, s)) => match common::p_array(broker_parser(version), s, true) {
                                Err(e) => Err(e),
                                Ok((brokers, s)) => match common::p_i32(s) {
                                    Err(e) => Err(e),
                                    Ok((ops, s)) => match common::p_tagged(s) {
                                        Err(e) => Err(e),
                                        Ok((t, s)) => Ok(
                                            (
                                                ResponseModel {
                                                    throttle_time_ms,
                                                    error_code,
                                                    error_message,
                                                    endpoint_type: kind,
                                                    cluster_id,
                                                    controller_id,
                                                    brokers,
                                                    cluster_authorized_operations: ops,
                                                },
                                                s,
                                            ),
                                        ),
                                    },
                                },
                            },
                        },
                    },
                },
            },
        },
    }
}

pub open spec fn e_response(r: ResponseModel, version: i16) -> Seq<u8> {
    common::e_i32(r.throttle_time_ms) + common::e_i16(r.error_code) + common::e_nullable_str(r.error_message, true) + (
    if version >= 1 { common::e_i8(r.endpoint_type) } else { Seq::empty() }) + common::e_str(r.cluster_id, true)
        + common::e_i32(r.controller_id) + common::e_array(broker_writer(version), r.brokers, true) + common::e_i32(
        r.cluster_authorized_operations,
    ) + common::e_tagged_if(true)
}

pub open spec fn response_fits(r: ResponseModel) -> bool {
    &&& common::opt_fits(r.error_message, true)
    &&& common::str_fits(r.cluster_id, true)
    &&& common::array_fits(r.brokers.len(), true)
    &&& forall|i: int| 0 <= i < r.brokers.len() ==> broker_fits(#[trigger] r.brokers[i])
}

/// A response as a reader of that version sees it.
pub open spec fn response_at(r: ResponseModel, version: i16) -> ResponseModel {
    ResponseModel {
        endpoint_type: if version >= 1 { r.endpoint_type } else { endpoint_type::BROKER },
        brokers: r.brokers.map_values(|b: BrokerModel| broker_at(b, version)),
        ..r
    }
}

/// Reading gives back a written request, without what its version does not
/// carry.
pub proof fn law_request_reads_back(r: Request, version: i16, rest: Seq<u8>)
    ensures
        p_request(e_request(r, version) + rest, version) == Ok::<(Request, Seq<u8>), CodecError>((request_at(r, version), rest)),
{
    let d = common::e_tagged_if(true) + rest;
    let c = (if version >= 2 { common::e_bool(r.include_fenced_brokers) } else { Seq::empty() }) + d;
    let b = (if version >= 1 { common::e_i8(r.endpoint_type) } else { Seq::empty() }) + c;
    assert(e_request(r, version) + rest =~= common::e_bool(r.include_cluster_authorized_operations) + b);
    common::lemma_bool(r.include_cluster_authorized_operations, b);
    common::lemma_i8(r.endpoint_type, c);
    common::lemma_bool(r.include_fenced_brokers, d);
    common::lemma_tagged(true, rest);
    assert(version < 1 ==> b =~= c);
    assert(version < 2 ==> c =~= d);
}

proof fn lemma_broker(b: BrokerModel, version: i16, rest: Seq<u8>)
    requires
        broker_fits(b),
    ensures
        p_broker(e_broker(b, version) + rest, version) == Ok::<(BrokerModel, Seq<u8>), CodecError>((broker_at(b, version), rest)),
{
    broadcast use common::lemma_joined;
    let s5 = common::e_tagged_if(true) + rest;
    let s4 = (if version >= 2 { common::e_bool(b.is_fenced) } else { Seq::empty() }) + s5;
    let s3 = common::e_nullable_str(b.rack, true) + s4;
    let s2 = common::e_i32(b.port) + s3;
    let s1 = common::e_str(b.host, true) + s2;
    assert(e_broker(b, version) + rest == common::e_i32(b.broker_id) + s1);
    common::lemma_i32(b.broker_id, s1);
    common::lemma_str(b.host, true, s2);
    common::lemma_i32(b.port, s3);
    common::lemma_nullable_str(b.rack, true, s4);
    common::lemma_bool(b.is_fenced, s5);
    assert(version < 2 ==> s4 =~= s5);
    common::lemma_tagged(true, rest);
}

/// Reading gives back a written response, without what its version does not
/// carry.
pub proof fn law_response_reads_back(r: ResponseModel, version: i16, rest: Seq<u8>)
    requires
        response_fits(r),
    ensures
        p_response(e_response(r, version) + rest, version) == Ok::<(ResponseModel, Seq<u8>), CodecError>((response_at(r, version), rest)),
{
    broadcast use common::lemma_joined;
    let seen = response_at(r, version).brokers;
    let s8 = common::e_tagged_if(true) + rest;
    let s7 = common::e_i32(r.cluster_authorized_operations) + s8;
    let s6 = common::e_array(broker_writer(version), r.brokers, true) + s7;
    let s5 = common::e_i32(r.controller_id) + s6;
    let s4 = common::e_str(r.cluster_id, true) + s5;
    let s3 = (if version >= 1 { common::e_i8(r.endpoint_type) } else { Seq::empty() }) + s4;
    let s2 = common::e_nullable_str(r.error_message, true) + s3;
    let s1 = common::e_i16(r.error_code) + s2;
    assert(e_response(r, version) + rest == common::e_i32(r.throttle_time_ms) + s1);
    common::lemma_i32(r.throttle_time_ms, s1);
    common::lemma_i16(r.error_code, s2);
    common::lemma_nullable_str(r.error_message, true, s3);
    common::lemma_i8(r.endpoint_type, s4);
    assert(version < 1 ==> s3 =~= s4);
    common::lemma_str(r.cluster_id, true, s5);
    common::lemma_i32(r.controller_id, s6);
    let p = broker_parser(version);
    let enc = broker_writer(version);
    assert forall|i: int, t: Seq<u8>| 0 <= i < seen.len() implies #[trigger] p(enc(r.brokers[i]) + t) == Ok::<(BrokerModel, Seq<u8>), CodecError>((seen[i], t)) by {
        assert(broker_fits(r.brokers[i]));
        lemma_broker(r.brokers[i], version, t);
    }
    common::lemma_array(p, enc, r.brokers, seen, true, s7);
    common::lemma_i32(r.cluster_authorized_operations, s8);
    common::lemma_tagged(true, rest);
}

// Reading and writing.

pub fn decode_request(buf: &mut Bytes, version: i16) -> (r: Result<Request, CodecError>)
    ensures
        match p_request(common::left(*old(buf)), version) {
            Ok((x, rest)) => r == Ok::<Request, CodecError>(x) && common::left(*final(buf)) == rest,
            Err(e) => r == Err::<Request, CodecError>(e),
        },
{
    let ops: bool = match read_bool(buf) {
        Ok(x) => x,
        Err(e) => {
            return Err(e);
        },
    };
    let kind: i8 = if version >= 1 {
        match read_i8(buf) {
            Ok(x) => x,
            Err(e) => {
                return Err(e);
            },
        }
    } else {
        endpoint_type::BROKER
    };
    let fenced: bool = if version >= 2 {
        match read_bool(buf) {
            Ok(x) => x,
            Err(e) => {
                return Err(e);
            },
        }
    } else {
        false
    };
    match read_tagged(buf, true) {
        Ok(t) => {},
        Err(e) => {
            return Err(e);
        },
    }
    Ok(Request { include_cluster_authorized_operations: ops, endpoint_type: kind, include_fenced_brokers: fenced })
}

pub fn encode_request(buf: &mut BytesMut, req: &Request, version: i16) -> (r: Result<(), CodecError>)
    ensures
        r is Ok,
        common::written(*final(buf)) == common::written(*old(buf)) + e_request(*req, version),
{
    write_bool(buf, req.include_cluster_authorized_operations);
    if version >= 1 {
        write_i8(buf, req.endpoint_type);
    }
    if version >= 2 {
        write_bool(buf, req.include_fenced_brokers);
    }
    write_tagged(buf, true);
    assert(common::written(*buf) =~= common::written(*old(buf)) + e_request(*req, version));
    Ok(())
}

fn write_broker(buf: &mut BytesMut, b: &Broker, version: i16) -> (r: Result<(), CodecError>)
    ensures
        r is Ok <==> broker_fits(b@),
        r is Err ==> r == Err::<(), CodecError>(CodecError::InvalidLength),
        r is Ok ==> common::written(*final(buf)) == common::written(*old(buf)) + e_broker(b@, version),
{
    write_i32(buf, b.broker_id);
    match write_str(buf, &b.host, true) {
        Ok(t) => {},
        Err(e) => {
            return Err(e);
        },
    }
    write_i32(buf, b.port);
    match write_nullable_str(buf, &b.rack, true) {
        Ok(t) => {},
        Err(e) => {
            return Err(e);
        },
    }
    if version >= 2 {
        write_bool(buf, b.is_fenced);
    }
    write_tagged(buf, true);
    assert(common::written(*buf) =~= common::written(*old(buf)) + e_broker(b@, version));
    Ok(())
}

pub fn encode_response(buf: &mut BytesMut, resp: &Response, version: i16) -> (r: Result<(), CodecError>)
    ensures
        r is Ok <==> response_fits(resp@),
        r is Err ==> r == Err::<(), CodecError>(CodecError::InvalidLength),
        r is Ok ==> common::written(*final(buf)) == common::written(*old(buf)) + e_response(resp@, version),
{
    broadcast use common::lemma_joined;
    write_i32(buf, resp.throttle_time_ms);
    write_i16(buf, resp.error_code);
    match write_nullable_str(buf, &resp.error_message, true) {
        Ok(t) => {},
        Err(e) => {
            return Err(e);
        },
    }
    if version >= 1 {
        write_i8(buf, resp.endpoint_type);
    }
    match write_str(buf, &resp.cluster_id, true) {
        Ok(t) => {},
        Err(e) => {
            return Err(e);
        },
    }
    write_i32(buf, resp.controller_id);
    proof {
        reveal(common::e_array);
    }
    let ghost all = broker_models(resp.brokers@);
    match write_array_len(buf, resp.brokers.len(), true) {
        Ok(t) => {},
        Err(e) => {
            return Err(e);
        },
    }
    let ghost head = common::written(*buf);
    let ghost enc = broker_writer(version);
    let mut i: usize = 0;
    assert(head =~= head + common::e_many(enc, all.take(0)));
    while i < resp.brokers.len()
        invariant
            i <= resp.brokers@.len(),
            all == broker_models(resp.brokers@),
            all == resp@.brokers,
            enc == broker_writer(version),
            common::written(*buf) == head + common::e_many(enc, all.take(i as int)),
            forall|j: int| 0 <= j < i ==> broker_fits(#[trigger] all[j]),
        decreases resp.brokers.len() - i,
    {
        assert(all[i as int] == resp.brokers@[i as int]@);
        match write_broker(buf, &resp.brokers[i], version) {
            Ok(t) => {},
            Err(e) => {
                assert(!broker_fits(resp@.brokers[i as int]));
                return Err(e);
            },
        }
        i = i + 1;
        proof {
            assert(all.take(i as int).drop_last() =~= all.take(i - 1));
            assert(common::written(*buf) =~= head + common::e_many(enc, all.take(i as int)));
        }
    }
    assert(all.take(i as int) =~= all);
    write_i32(buf, resp.cluster_authorized_operations);
    write_tagged(buf, true);
    assert(common::written(*buf) =~= common::written(*old(buf)) + e_response(resp@, version));
    Ok(())
}

fn read_broker(buf: &mut Bytes, version: i16) -> (r: Result<Broker, CodecError>)
    ensures
        match p_broker(common::left(*old(buf)), version) {
            Ok((x, rest)) => (r matches Ok(b) && b@ == x) && common::left(*final(buf)) == rest,
            Err(e) => r == Err::<Broker, CodecError>(e),
        },
{
    let broker_id: i32 = match read_i32(buf) {
        Ok(x) => x,
        Err(e) => {
            return Err(e);
        },
    };
    let host = match read_str(buf, true) {
        Ok(x) => x,
        Err(e) => {
            return Err(e);
        },
    };
    let port: i32 = match read_i32(buf) {
        Ok(x) => x,
        Err(e) => {
            return Err(e);
        },
    };
    let rack = match read_nullable_str(buf, true) {
        Ok(x) => x,
        Err(e) => {
            return Err(e);
        },
    };
    let is_fenced: bool = if version >= 2 {
        match read_bool(buf) {
            Ok(x) => x,
            Err(e) => {
                return Err(e);
            },
        }
    } else {
        false
    };
    match read_tagged(buf, true) {
        Ok(t) => {},
        Err(e) => {
            return Err(e);
        },
    }
    Ok(Broker { broker_id, host, port, rack, is_fenced })
}

fn read_brokers(buf: &mut Bytes, version: i16) -> (r: Result<Vec<Broker>, CodecError>)
    ensures
        match common::p_array(broker_parser(version), common::left(*old(buf)), true) {
            Ok((x, rest)) => (r matches Ok(v) && broker_models(v@) == x) && common::left(*final(buf)) == rest,
            Err(e) => r == Err::<Vec<Broker>, CodecError>(e),
        },
{
    proof {
        reveal(common::p_array);
    }
    let n: u64 = match read_array_len(buf, true) {
        Ok(x) => x,
        Err(e) => {
            return Err(e);
        },
    };
    let ghost p = broker_parser(version);
    let ghost start = common::left(*buf);
    let mut out: Vec<Broker> = Vec::new();
    let mut i: u64 = 0;
    assert(broker_models(out@) =~= Seq::empty());
    while i < n
        invariant
            i <= n,
            p == broker_parser(version),
            common::p_array(p, common::left(*old(buf)), true) == common::p_many(p, n as nat, start),
            common::p_many(p, i as nat, start) == Ok::<(Seq<BrokerModel>, Seq<u8>), CodecError>((broker_models(out@), common::left(*buf))),
        decreases n - i,
    {
        let ghost before = out@;
        match read_broker(buf, version) {
            Ok(b) => {
                out.push(b);
                assert(broker_models(out@) =~= broker_models(before).push(b@));
            },
            Err(e) => {
                proof {
                    common::lemma_many_fails(p, (i + 1) as nat, n as nat, start, e);
                }
                return Err(e);
            },
        }
        i = i + 1;
    }
    Ok(out)
}

pub fn decode_response(buf: &mut Bytes, version: i16) -> (r: Result<Response, CodecError>)
    ensures
        match p_response(common::left(*old(buf)), version) {
            Ok((x, rest)) => (r matches Ok(v) && v@ == x) && common::left(*final(buf)) == rest,
            Err(e) => r == Err::<Response, CodecError>(e),
        },
{
    let throttle_time_ms: i32 = match read_i32(buf) {
        Ok(x) => x,
        Err(e) => {
            return Err(e);
        },
    };
    let error_code: i16 = match read_i16(buf) {
        Ok(x) => x,
        Err(e) => {
            return Err(e);
        },
    };
    let error_message = match read_nullable_str(buf, true) {
        Ok(x) => x,
        Err(e) => {
            return Err(e);
        },
    };
    let kind: i8 = if version >= 1 {
        match read_i8(buf) {
            Ok(x) => x,
            Err(e) => {
                return Err(e);
            },
        }
    } else {
        endpoint_type::BROKER
    };
    let cluster_id = match read_str(buf, true) {
        Ok(x) => x,
        Err(e) => {
            return Err(e);
        },
    };
    let controller_id: i32 = match read_i32(buf) {
        Ok(x) => x,
        Err(e) => {
            return Err(e);
        },
    };
    let brokers = match read_brokers(buf, version) {
        Ok(x) => x,
        Err(e) => {
            return Err(e);
        },
    };
    let cluster_authorized_operations: i32 = match read_i32(buf) {
        Ok(x) => x,
        Err(e) => {
            return Err(e);
        },
    };
    match read_tagged(buf, true) {
        Ok(t) => {},
        Err(e) => {
            return Err(e);
        },
    }
    Ok(Response {
        throttle_time_ms,
        error_code,
        error_message,
        endpoint_type: kind,
        cluster_id,
        controller_id,
        brokers,
        cluster_authorized_operations,
    })
}

} // verus!
