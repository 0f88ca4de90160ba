//! Metadata, versions 1 to 10, flexible from version 9.
//!
//! | version | adds                                                     |
//! |--------:|----------------------------------------------------------|
//! | 1       | rack, internal flag and controller id in the response    |
//! | 2       | cluster id in the response                               |
//! | 3       | throttle time in the response                            |
//! | 4       | whether topics may be created, in the request            |
//! | 5       | offline replicas in the response                         |
//! | 7       | leader epoch in the response                             |
//! | 8       | authorized operations, asked for and answered            |
//! | 9       | the compact encoding                                     |
//! | 10      | the identity of each topic                               |

use vstd::prelude::*;
use bytes::{Bytes, BytesMut};
use crate::api::common;
use crate::api::common::{
    CodecError, HeaderVersion, read_array_len, read_bool, read_i16, read_i32, read_i32s, read_nullable_str, read_raw,
    read_str, read_tagged, read_uuid, write_array_len, write_bool, write_i16, write_i32, write_i32s,
    write_nullable_str, write_str, write_tagged, write_uuid,
};
use crate::api::registry::{ApiSpec, HeaderRule};
use crate::order;
use crate::text;

verus! {

pub const VERSIONS: (i16, i16) = (1, 10);

pub const MIN_FLEXIBLE: i16 = 9;

/// The identity of a topic that has none.
pub const NULL_TOPIC_ID: [u8; 16] = [0, 0, 0, 0, 0, 0, 0, 0, 0, 0, 0, 0, 0, 0, 0, 0];

pub open spec fn flexible(version: i16) -> bool {
    version >= MIN_FLEXIBLE
}

/// The row of Metadata in the table of request kinds.
pub open spec fn row() -> ApiSpec {
    ApiSpec {
        key: 3,
        min_version: 1,
        max_version: 10,
        min_flexible: Some(MIN_FLEXIBLE),
        request_hdr: HeaderRule { before: HeaderVersion::V1, from: HeaderVersion::V2, switch_at: MIN_FLEXIBLE },
        response_hdr: HeaderRule { before: HeaderVersion::V1, from: HeaderVersion::V2, switch_at: MIN_FLEXIBLE },
    }
}

pub fn request_hdr(version: i16) -> (h: HeaderVersion)
    ensures
        h == row().request_hdr.layout(version),
{
    header_for(version)
}

pub fn response_hdr(version: i16) -> (h: HeaderVersion)
    ensures
        h == row().response_hdr.layout(version),
{
    header_for(version)
}

fn header_for(version: i16) -> (h: HeaderVersion)
    ensures
        h == (if flexible(version) { HeaderVersion::V2 } else { HeaderVersion::V1 }),
{
    if version >= MIN_FLEXIBLE {
        HeaderVersion::V2
    } else {
        HeaderVersion::V1
    }
}

pub fn spec() -> (s: ApiSpec)
    ensures
        s == row(),
{
    ApiSpec {
        key: 3,
        min_version: VERSIONS.0,
        max_version: VERSIONS.1,
        min_flexible: Some(MIN_FLEXIBLE),
        request_hdr: HeaderRule { before: HeaderVersion::V1, from: HeaderVersion::V2, switch_at: MIN_FLEXIBLE },
        response_hdr: HeaderRule { before: HeaderVersion::V1, from: HeaderVersion::V2, switch_at: MIN_FLEXIBLE },
    }
}

#[derive(Debug, Clone, PartialEq, Eq)]
pub struct Request {
    /// Empty where all topics are meant.
    pub topics: Vec<String>,
    /// From version 4; else topics may be created.
    pub allow_auto_topic_creation: bool,
    /// Versions 8 to 10.
    pub include_cluster_authorized_operations: bool,
    /// From version 8.
    pub include_topic_authorized_operations: bool,
}

#[verifier::ext_equal]
pub struct RequestModel {
    pub topics: Seq<Seq<char>>,
    pub allow_auto_topic_creation: bool,
    pub include_cluster_authorized_operations: bool,
    pub include_topic_authorized_operations: bool,
}

impl View for Request {
    type V = RequestModel;

    open spec fn view(&self) -> RequestModel {
        RequestModel {
            topics: order::texts(self.topics@),
            allow_auto_topic_creation: self.allow_auto_topic_creation,
            include_cluster_authorized_operations: self.include_cluster_authorized_operations,
            include_topic_authorized_operations: self.include_topic_authorized_operations,
        }
    }
}

#[derive(Debug, Clone, PartialEq, Eq)]
pub struct Response {
    /// From version 3.
    pub throttle_time_ms: i32,
    pub brokers: Vec<Broker>,
    /// From version 2.
    pub cluster_id: Option<String>,
    /// From version 1; -1 where there is no controller.
    pub controller_id: i32,
    pub topics: Vec<Topic>,
    /// Versions 8 to 10.
    pub cluster_authorized_operations: i32,
}

#[verifier::ext_equal]
pub struct ResponseModel {
    pub throttle_time_ms: i32,
    pub brokers: Seq<BrokerModel>,
    pub cluster_id: Option<Seq<char>>,
    pub controller_id: i32,
    pub topics: Seq<TopicModel>,
    pub cluster_authorized_operations: i32,
}

impl View for Response {
    type V = ResponseModel;

    open spec fn view(&self) -> ResponseModel {
        ResponseModel {
            throttle_time_ms: self.throttle_time_ms,
            brokers: broker_models(self.brokers@),
            cluster_id: text::opt_text(self.cluster_id),
            controller_id: self.controller_id,
            topics: topic_models(self.topics@),
            cluster_authorized_operations: self.cluster_authorized_operations,
        }
    }
}

#[derive(Debug, Clone, PartialEq, Eq)]
pub struct Broker {
    pub node_id: i32,
    pub host: String,
    pub port: i32,
    /// From version 1.
    pub rack: Option<String>,
}

#[verifier::ext_equal]
pub struct BrokerModel {
    pub node_id: i32,
    pub host: Seq<char>,
    pub port: i32,
    pub rack: Option<Seq<char>>,
}

impl View for Broker {
    type V = BrokerModel;

    open spec fn view(&self) -> BrokerModel {
        BrokerModel {
            node_id: self.node_id,
            host: self.host@,
            port: self.port,
            rack: text::opt_text(self.rack),
        }
    }
}

pub open spec fn broker_models(s: Seq<Broker>) -> Seq<BrokerModel> {
    s.map_values(|x: Broker| x@)
}

#[derive(Debug, Clone, PartialEq, Eq)]
pub struct Topic {
    pub error_code: i16,
    pub name: String,
    /// From version 10; all zero until the topic has an identity.
    pub topic_id: [u8; 16],
    /// From version 1.
    pub is_internal: bool,
    pub partitions: Vec<Partition>,
    /// From version 8.
    pub topic_authorized_operations: i32,
}

#[verifier::ext_equal]
pub struct TopicModel {
    pub error_code: i16,
    pub name: Seq<char>,
    pub topic_id: Seq<u8>,
    pub is_internal: bool,
    pub partitions: Seq<PartitionModel>,
    pub topic_authorized_operations: i32,
}

impl View for Topic {
    type V = TopicModel;

    open spec fn view(&self) -> TopicModel {
        TopicModel {
            error_code: self.error_code,
            name: self.name@,
            topic_id: self.topic_id@,
            is_internal: self.is_internal,
            partitions: partition_models(self.partitions@),
            topic_authorized_operations: self.topic_authorized_operations,
        }
    }
}

pub open spec fn topic_models(s: Seq<Topic>) -> Seq<TopicModel> {
    s.map_values(|x: Topic| x@)
}

#[derive(Debug, Clone, PartialEq, Eq)]
pub struct Partition {
    pub error_code: i16,
    pub partition_index: i32,
    pub leader_id: i32,
    /// From version 7; -1 where unknown.
    pub leader_epoch: i32,
    pub replica_nodes: Vec<i32>,
    pub isr_nodes: Vec<i32>,
    /// From version 5.
    pub offline_replicas: Vec<i32>,
}

#[verifier::ext_equal]
pub struct PartitionModel {
    pub error_code: i16,
    pub partition_index: i32,
    pub leader_id: i32,
    pub leader_epoch: i32,
    pub replica_nodes: Seq<i32>,
    pub isr_nodes: Seq<i32>,
    pub offline_replicas: Seq<i32>,
}

impl View for Partition {
    type V = PartitionModel;

    open spec fn view(&self) -> PartitionModel {
        PartitionModel {
            error_code: self.error_code,
            partition_index: self.partition_index,
            leader_id: self.leader_id,
            leader_epoch: self.leader_epoch,
            replica_nodes: self.replica_nodes@,
            isr_nodes: self.isr_nodes@,
            offline_replicas: self.offline_replicas@,
        }
    }
}

pub open spec fn partition_models(s: Seq<Partition>) -> Seq<PartitionModel> {
    s.map_values(|x: Partition| x@)
}

// The format.

pub open spec fn p_partition(s: Seq<u8>, version: i16) -> common::Parsed<PartitionModel> {
    match common::p_i16(s) {
        Err(e) => Err(e),
        Ok((error_code, s)) => match common::p_i32(s) {
            Err(e) => Err(e),
            Ok((partition_index, s)) => match common::p_i32(s) {
                Err(e) => Err(e),
                Ok((leader_id, s)) => match (if version >= 7 { common::p_i32(s) } else { Ok((-1i32, s)) }) {
                    Err(e) => Err(e),
                    Ok((leader_epoch, s)) => match common::p_i32s(s, flexible(version)) {
                        Err(e) => Err(e),
                        Ok((replica_nodes, s)) => match common::p_i32s(s, flexible(version)) {
                            Err(e) => Err(e),
                            Ok((isr_nodes, s)) => match (if version >= 5 { common::p_i32s(s, flexible(version)) } else { Ok((Seq::empty(), s)) }) {
                                Err(e) => Err(e),
                                Ok((offline_replicas, s)) => match common::p_tagged_if(s, flexible(version)) {
                                    Err(e) => Err(e),
                                    Ok((t, s)) => Ok((PartitionModel { error_code, partition_index, leader_id, leader_epoch, replica_nodes, isr_nodes, offline_replicas }, s)),
                                },
                            },
                        },
                    },
                },
            },
        },
    }
}

pub open spec fn partition_parser(version: i16) -> spec_fn(Seq<u8>) -> common::Parsed<PartitionModel> {
    |s: Seq<u8>| p_partition(s, version)
}

pub open spec fn e_partition(x: PartitionModel, version: i16) -> Seq<u8> {
    common::e_i16(x.error_code)
        + common::e_i32(x.partition_index)
        + common::e_i32(x.leader_id)
        + (if version >= 7 { common::e_i32(x.leader_epoch) } else { Seq::empty() })
        + common::e_i32s(x.replica_nodes, flexible(version))
        + common::e_i32s(x.isr_nodes, flexible(version))
        + (if version >= 5 { common::e_i32s(x.offline_replicas, flexible(version)) } else { Seq::empty() })
        + common::e_tagged_if(flexible(version))
}

pub open spec fn partition_writer(version: i16) -> spec_fn(PartitionModel) -> Seq<u8> {
    |x: PartitionModel| e_partition(x, version)
}

/// Every length fits its field.
pub open spec fn partition_fits(x: PartitionModel, version: i16) -> bool {
    &&& common::array_fits(x.replica_nodes.len(), flexible(version))
    &&& common::array_fits(x.isr_nodes.len(), flexible(version))
    &&& version >= 5 ==> common::array_fits(x.offline_replicas.len(), flexible(version))
}

/// What a reader of that version sees.
pub open spec fn partition_at(x: PartitionModel, version: i16) -> PartitionModel {
    PartitionModel {
        error_code: x.error_code,
        partition_index: x.partition_index,
        leader_id: x.leader_id,
        leader_epoch: if version >= 7 { x.leader_epoch } else { -1i32 },
        replica_nodes: x.replica_nodes,
        isr_nodes: x.isr_nodes,
        offline_replicas: if version >= 5 { x.offline_replicas } else { Seq::empty() },
    }
}

pub open spec fn p_topic(s: Seq<u8>, version: i16) -> common::Parsed<TopicModel> {
    match common::p_i16(s) {
        Err(e) => Err(e),
        Ok((error_code, s)) => match common::p_str(s, flexible(version)) {
            Err(e) => Err(e),
            Ok((name, s)) => match (if version >= 10 { common::p_raw(s, 16) } else { Ok((NULL_TOPIC_ID@, s)) }) {
                Err(e) => Err(e),
                Ok((topic_id, s)) => match (if version >= 1 { common::p_bool(s) } else { Ok((false, s)) }) {
                    Err(e) => Err(e),
                    Ok((is_internal, s)) => match common::p_array(partition_parser(version), s, flexible(version)) {
                        Err(e) => Err(e),
                        Ok((partitions, s)) => match (if version >= 8 { common::p_i32(s) } else { Ok((0i32, s)) }) {
                            Err(e) => Err(e),
                            Ok((topic_authorized_operations, s)) => match common::p_tagged_if(s, flexible(version)) {
                                Err(e) => Err(e),
                                Ok((t, s)) => Ok((TopicModel { error_code, name, topic_id, is_internal, partitions, topic_authorized_operations }, s)),
                            },
                        },
                    },
                },
            },
        },
    }
}

pub open spec fn topic_parser(version: i16) -> spec_fn(Seq<u8>) -> common::Parsed<TopicModel> {
    |s: Seq<u8>| p_topic(s, version)
}

pub open spec fn e_topic(x: TopicModel, version: i16) -> Seq<u8> {
    common::e_i16(x.error_code)
        + common::e_str(x.name, flexible(version))
        + (if version >= 10 { x.topic_id } else { Seq::empty() })
        + (if version >= 1 { common::e_bool(x.is_internal) } else { Seq::empty() })
        + common::e_array(partition_writer(version), x.partitions, flexible(version))
        + (if version >= 8 { common::e_i32(x.topic_authorized_operations) } else { Seq::empty() })
        + common::e_tagged_if(flexible(version))
}

pub open spec fn topic_writer(version: i16) -> spec_fn(TopicModel) -> Seq<u8> {
    |x: TopicModel| e_topic(x, version)
}

/// Every length fits its field.
pub open spec fn topic_fits(x: TopicModel, version: i16) -> bool {
    &&& common::str_fits(x.name, flexible(version))
    &&& version >= 10 ==> x.topic_id.len() == 16
    &&& common::array_fits(x.partitions.len(), flexible(version))
    &&& (forall|i: int| 0 <= i < x.partitions.len() ==> partition_fits(#[trigger] x.partitions[i], version))
}

/// What a reader of that version sees.
pub open spec fn topic_at(x: TopicModel, version: i16) -> TopicModel {
    TopicModel {
        error_code: x.error_code,
        name: x.name,
        topic_id: if version >= 10 { x.topic_id } else { NULL_TOPIC_ID@ },
        is_internal: if version >= 1 { x.is_internal } else { false },
        partitions: x.partitions.map_values(|y: PartitionModel| partition_at(y, version)),
        topic_authorized_operations: if version >= 8 { x.topic_authorized_operations } else { 0i32 },
    }
}

pub open spec fn p_broker(s: Seq<u8>, version: i16) -> common::Parsed<BrokerModel> {
    match common::p_i32(s) {
        Err(e) => Err(e),
        Ok((node_id, s)) => match common::p_str(s, flexible(version)) {
            Err(e) => Err(e),
            Ok((host, s)) => match common::p_i32(s) {
                Err(e) => Err(e),
                Ok((port, s)) => match (if version >= 1 { common::p_nullable_str(s, flexible(version)) } else { Ok((None, s)) }) {
                    Err(e) => Err(e),
                    Ok((rack, s)) => match common::p_tagged_if(s, flexible(version)) {
                        Err(e) => Err(e),
                        Ok((t, s)) => Ok((BrokerModel { node_id, host, port, rack }, s)),
                    },
                },
            },
        },
    }
}

pub open spec fn broker_parser(version: i16) -> spec_fn(Seq<u8>) -> common::Parsed<BrokerModel> {
    |s: Seq<u8>| p_broker(s, version)
}

pub open spec fn e_broker(x: BrokerModel, version: i16) -> Seq<u8> {
    common::e_i32(x.node_id)
        + common::e_str(x.host, flexible(version))
        + common::e_i32(x.port)
        + (if version >= 1 { common::e_nullable_str(x.rack, flexible(version)) } else { Seq::empty() })
        + common::e_tagged_if(flexible(version))
}

pub open spec fn broker_writer(version: i16) -> spec_fn(BrokerModel) -> Seq<u8> {
    |x: BrokerModel| e_broker(x, version)
}

/// Every length fits its field.
pub open spec fn broker_fits(x: BrokerModel, version: i16) -> bool {
    &&& common::str_fits(x.host, flexible(version))
    &&& version >= 1 ==> common::opt_fits(x.rack, flexible(version))
}

/// What a reader of that version sees.
pub open spec fn broker_at(x: BrokerModel, version: i16) -> BrokerModel {
    BrokerModel {
        node_id: x.node_id,
        host: x.host,
        port: x.port,
        rack: if version >= 1 { x.rack } else { None },
    }
}

pub open spec fn p_response(s: Seq<u8>, version: i16) -> common::Parsed<ResponseModel> {
    match (if version >= 3 { common::p_i32(s) } else { Ok((0i32, s)) }) {
        Err(e) => Err(e),
        Ok((throttle_time_ms, s)) => match common::p_array(broker_parser(version), s, flexible(version)) {
            Err(e) => Err(e),
            Ok((brokers, s)) => match (if version >= 2 { common::p_nullable_str(s, flexible(version)) } else { Ok((None, s)) }) {
                Err(e) => Err(e),
                Ok((cluster_id, s)) => match (if version >= 1 { common::p_i32(s) } else { Ok((-1i32, s)) }) {
                    Err(e) => Err(e),
                    Ok((controller_id, s)) => match common::p_array(topic_parser(version), s, flexible(version)) {
                        Err(e) => Err(e),
                        Ok((topics, s)) => match (if version >= 8 && version <= 10 { common::p_i32(s) } else { Ok((0i32, s)) }) {
                            Err(e) => Err(e),
                            Ok((cluster_authorized_operations, s)) => match common::p_tagged_if(s, flexible(version)) {
                                Err(e) => Err(e),
                                Ok((t, s)) => Ok((ResponseModel { throttle_time_ms, brokers, cluster_id, controller_id, topics, cluster_authorized_operations }, s)),
                            },
                        },
                    },
                },
            },
        },
    }
}

pub open spec fn e_response(x: ResponseModel, version: i16) -> Seq<u8> {
    (if version >= 3 { common::e_i32(x.throttle_time_ms) } else { Seq::empty() })
        + common::e_array(broker_writer(version), x.brokers, flexible(version))
        + (if version >= 2 { common::e_nullable_str(x.cluster_id, flexible(version)) } else { Seq::empty() })
        + (if version >= 1 { common::e_i32(x.controller_id) } else { Seq::empty() })
        + common::e_array(topic_writer(version), x.topics, flexible(version))
        + (if version >= 8 && version <= 10 { common::e_i32(x.cluster_authorized_operations) } else { Seq::empty() })
        + common::e_tagged_if(flexible(version))
}

/// Every length fits its field.
pub open spec fn response_fits(x: ResponseModel, version: i16) -> bool {
    &&& common::array_fits(x.brokers.len(), flexible(version))
    &&& (forall|i: int| 0 <= i < x.brokers.len() ==> broker_fits(#[trigger] x.brokers[i], version))
    &&& version >= 2 ==> common::opt_fits(x.cluster_id, flexible(version))
    &&& common::array_fits(x.topics.len(), flexible(version))
    &&& (forall|i: int| 0 <= i < x.topics.len() ==> topic_fits(#[trigger] x.topics[i], version))
}

/// What a reader of that version sees.
pub open spec fn response_at(x: ResponseModel, version: i16) -> ResponseModel {
    ResponseModel {
        throttle_time_ms: if version >= 3 { x.throttle_time_ms } else { 0i32 },
        brokers: x.brokers.map_values(|y: BrokerModel| broker_at(y, version)),
        cluster_id: if version >= 2 { x.cluster_id } else { None },
        controller_id: if version >= 1 { x.controller_id } else { -1i32 },
        topics: x.topics.map_values(|y: TopicModel| topic_at(y, version)),
        cluster_authorized_operations: if version >= 8 && version <= 10 { x.cluster_authorized_operations } else { 0i32 },
    }
}

// What reading gives back of writing.

proof fn lemma_partition(x: PartitionModel, version: i16, rest: Seq<u8>)
    requires
        partition_fits(x, version),
    ensures
        p_partition(e_partition(x, version) + rest, version) == Ok::<(PartitionModel, Seq<u8>), CodecError>((partition_at(x, version), rest)),
{
    broadcast use common::lemma_joined;
    let s7 = common::e_tagged_if(flexible(version)) + rest;
    let s6 = (if version >= 5 { common::e_i32s(x.offline_replicas, flexible(version)) } else { Seq::empty() }) + s7;
    let s5 = common::e_i32s(x.isr_nodes, flexible(version)) + s6;
    let s4 = common::e_i32s(x.replica_nodes, flexible(version)) + s5;
    let s3 = (if version >= 7 { common::e_i32(x.leader_epoch) } else { Seq::empty() }) + s4;
    let s2 = common::e_i32(x.leader_id) + s3;
    let s1 = common::e_i32(x.partition_index) + s2;
    assert(e_partition(x, version) + rest == common::e_i16(x.error_code) + s1);
    common::lemma_i16(x.error_code, s1);
    common::lemma_i32(x.partition_index, s2);
    common::lemma_i32(x.leader_id, s3);
    if version >= 7 {
        common::lemma_i32(x.leader_epoch, s4);
    } else {
        assert(s3 =~= s4);
    }
    common::lemma_i32s(x.replica_nodes, flexible(version), s5);
    common::lemma_i32s(x.isr_nodes, flexible(version), s6);
    if version >= 5 {
        common::lemma_i32s(x.offline_replicas, flexible(version), s7);
    } else {
        assert(s6 =~= s7);
    }
    common::lemma_tagged(flexible(version), rest);
}

proof fn lemma_partitions(xs: Seq<PartitionModel>, version: i16, rest: Seq<u8>)
    requires
        common::array_fits(xs.len(), flexible(version)),
        forall|i: int| 0 <= i < xs.len() ==> partition_fits(#[trigger] xs[i], version),
    ensures
        common::p_array(partition_parser(version), common::e_array(partition_writer(version), xs, flexible(version)) + rest, flexible(version)) == Ok::<
            (Seq<PartitionModel>, Seq<u8>),
            CodecError,
        >((xs.map_values(|y: PartitionModel| partition_at(y, version)), rest)),
{
    let seen = xs.map_values(|y: PartitionModel| partition_at(y, version));
    let p = partition_parser(version);
    let enc = partition_writer(version);
    assert forall|i: int, t: Seq<u8>| 0 <= i < xs.len() implies #[trigger] p(enc(xs[i]) + t) == Ok::<(PartitionModel, Seq<u8>), CodecError>((seen[i], t)) by {
        lemma_partition(xs[i], version, t);
    }
    common::lemma_array(p, enc, xs, seen, flexible(version), rest);
}

proof fn lemma_topic(x: TopicModel, version: i16, rest: Seq<u8>)
    requires
        topic_fits(x, version),
    ensures
        p_topic(e_topic(x, version) + rest, version) == Ok::<(TopicModel, Seq<u8>), CodecError>((topic_at(x, version), rest)),
{
    broadcast use common::lemma_joined;
    let s6 = common::e_tagged_if(flexible(version)) + rest;
    let s5 = (if version >= 8 { common::e_i32(x.topic_authorized_operations) } else { Seq::empty() }) + s6;
    let s4 = common::e_array(partition_writer(version), x.partitions, flexible(version)) + s5;
    let s3 = (if version >= 1 { common::e_bool(x.is_internal) } else { Seq::empty() }) + s4;
    let s2 = (if version >= 10 { x.topic_id } else { Seq::empty() }) + s3;
    let s1 = common::e_str(x.name, flexible(version)) + s2;
    assert(e_topic(x, version) + rest == common::e_i16(x.error_code) + s1);
    common::lemma_i16(x.error_code, s1);
    common::lemma_str(x.name, flexible(version), s2);
    if version >= 10 {
        common::lemma_raw(x.topic_id, s3);
    } else {
        assert(s2 =~= s3);
    }
    if version >= 1 {
        common::lemma_bool(x.is_internal, s4);
    } else {
        assert(s3 =~= s4);
    }
    lemma_partitions(x.partitions, version, s5);
    if version >= 8 {
        common::lemma_i32(x.topic_authorized_operations, s6);
    } else {
        assert(s5 =~= s6);
    }
    common::lemma_tagged(flexible(version), rest);
}

proof fn lemma_topics(xs: Seq<TopicModel>, version: i16, rest: Seq<u8>)
    requires
        common::array_fits(xs.len(), flexible(version)),
        forall|i: int| 0 <= i < xs.len() ==> topic_fits(#[trigger] xs[i], version),
    ensures
        common::p_array(topic_parser(version), common::e_array(topic_writer(version), xs, flexible(version)) + rest, flexible(version)) == Ok::<
            (Seq<TopicModel>, Seq<u8>),
            CodecError,
        >((xs.map_values(|y: TopicModel| topic_at(y, version)), rest)),
{
    let seen = xs.map_values(|y: TopicModel| topic_at(y, version));
    let p = topic_parser(version);
    let enc = topic_writer(version);
    assert forall|i: int, t: Seq<u8>| 0 <= i < xs.len() implies #[trigger] p(enc(xs[i]) + t) == Ok::<(TopicModel, Seq<u8>), CodecError>((seen[i], t)) by {
        lemma_topic(xs[i], version, t);
    }
    common::lemma_array(p, enc, xs, seen, flexible(version), rest);
}

proof fn lemma_broker(x: BrokerModel, version: i16, rest: Seq<u8>)
    requires
        broker_fits(x, version),
    ensures
        p_broker(e_broker(x, version) + rest, version) == Ok::<(BrokerModel, Seq<u8>), CodecError>((broker_at(x, version), rest)),
{
    broadcast use common::lemma_joined;
    let s4 = common::e_tagged_if(flexible(version)) + rest;
    let s3 = (if version >= 1 { common::e_nullable_str(x.rack, flexible(version)) } else { Seq::empty() }) + s4;
    let s2 = common::e_i32(x.port) + s3;
    let s1 = common::e_str(x.host, flexible(version)) + s2;
    assert(e_broker(x, version) + rest == common::e_i32(x.node_id) + s1);
    common::lemma_i32(x.node_id, s1);
    common::lemma_str(x.host, flexible(version), s2);
    common::lemma_i32(x.port, s3);
    if version >= 1 {
        common::lemma_nullable_str(x.rack, flexible(version), s4);
    } else {
        assert(s3 =~= s4);
    }
    common::lemma_tagged(flexible(version), rest);
}

proof fn lemma_brokers(xs: Seq<BrokerModel>, version: i16, rest: Seq<u8>)
    requires
        common::array_fits(xs.len(), flexible(version)),
        forall|i: int| 0 <= i < xs.len() ==> broker_fits(#[trigger] xs[i], version),
    ensures
        common::p_array(broker_parser(version), common::e_array(broker_writer(version), xs, flexible(version)) + rest, flexible(version)) == Ok::<
            (Seq<BrokerModel>, Seq<u8>),
            CodecError,
        >((xs.map_values(|y: BrokerModel| broker_at(y, version)), rest)),
{
    let seen = xs.map_values(|y: BrokerModel| broker_at(y, version));
    let p = broker_parser(version);
    let enc = broker_writer(version);
    assert forall|i: int, t: Seq<u8>| 0 <= i < xs.len() implies #[trigger] p(enc(xs[i]) + t) == Ok::<(BrokerModel, Seq<u8>), CodecError>((seen[i], t)) by {
        lemma_broker(xs[i], version, t);
    }
    common::lemma_array(p, enc, xs, seen, flexible(version), rest);
}

/// Reading gives back a written response, without what its version does not
/// carry.
pub proof fn law_response_reads_back(x: ResponseModel, version: i16, rest: Seq<u8>)
    requires
        response_fits(x, version),
    ensures
        p_response(e_response(x, version) + rest, version) == Ok::<(ResponseModel, Seq<u8>), CodecError>((response_at(x, version), rest)),
{
    broadcast use common::lemma_joined;
    let s6 = common::e_tagged_if(flexible(version)) + rest;
    let s5 = (if version >= 8 && version <= 10 { common::e_i32(x.cluster_authorized_operations) } else { Seq::empty() }) + s6;
    let s4 = common::e_array(topic_writer(version), x.topics, flexible(version)) + s5;
    let s3 = (if version >= 1 { common::e_i32(x.controller_id) } else { Seq::empty() }) + s4;
    let s2 = (if version >= 2 { common::e_nullable_str(x.cluster_id, flexible(version)) } else { Seq::empty() }) + s3;
    let s1 = common::e_array(broker_writer(version), x.brokers, flexible(version)) + s2;
    assert(e_response(x, version) + rest == (if version >= 3 { common::e_i32(x.throttle_time_ms) } else { Seq::empty() }) + s1);
    if version >= 3 {
        common::lemma_i32(x.throttle_time_ms, s1);
    } else {
        assert(Seq::<u8>::empty() + s1 =~= s1);
    }
    lemma_brokers(x.brokers, version, s2);
    if version >= 2 {
        common::lemma_nullable_str(x.cluster_id, flexible(version), s3);
    } else {
        assert(s2 =~= s3);
    }
    if version >= 1 {
        common::lemma_i32(x.controller_id, s4);
    } else {
        assert(s3 =~= s4);
    }
    lemma_topics(x.topics, version, s5);
    if version >= 8 && version <= 10 {
        common::lemma_i32(x.cluster_authorized_operations, s6);
    } else {
        assert(s5 =~= s6);
    }
    common::lemma_tagged(flexible(version), rest);
}

// Reading and writing.

fn write_partition(buf: &mut BytesMut, x: &Partition, version: i16) -> (r: Result<(), CodecError>)
    ensures
        r is Ok <==> partition_fits(x@, version),
        r is Err ==> r == Err::<(), CodecError>(CodecError::InvalidLength),
        r is Ok ==> common::written(*final(buf)) == common::written(*old(buf)) + e_partition(x@, version),
{
    broadcast use common::lemma_joined;
    broadcast use common::lemma_nothing;

    let flexible: bool = version >= MIN_FLEXIBLE;
    write_i16(buf, x.error_code);
    write_i32(buf, x.partition_index);
    write_i32(buf, x.leader_id);
    if version >= 7 {
        write_i32(buf, x.leader_epoch);
    }
    match write_i32s(buf, &x.replica_nodes, flexible) {
        Ok(t) => {},
        Err(e) => {
            return Err(e);
        },
    }
    match write_i32s(buf, &x.isr_nodes, flexible) {
        Ok(t) => {},
        Err(e) => {
            return Err(e);
        },
    }
    if version >= 5 {
        match write_i32s(buf, &x.offline_replicas, flexible) {
            Ok(t) => {},
            Err(e) => {
                return Err(e);
            },
        }
    }
    write_tagged(buf, flexible);
    Ok(())
}

fn write_partitions(buf: &mut BytesMut, xs: &Vec<Partition>, version: i16) -> (r: Result<(), CodecError>)
    ensures
        r is Ok <==> common::array_fits(xs@.len(), flexible(version)) && (forall|i: int| 0 <= i < xs@.len() ==> partition_fits(#[trigger] partition_models(xs@)[i], version)),
        r is Err ==> r == Err::<(), CodecError>(CodecError::InvalidLength),
        r is Ok ==> common::written(*final(buf)) == common::written(*old(buf)) + common::e_array(partition_writer(version), partition_models(xs@), flexible(version)),
{
    broadcast use common::lemma_joined;
    broadcast use common::lemma_nothing;

    proof {
        reveal(common::e_array);
    }
    let ghost all = partition_models(xs@);
    let ghost enc = partition_writer(version);
    match write_array_len(buf, xs.len(), version >= MIN_FLEXIBLE) {
        Ok(t) => {},
        Err(e) => {
            return Err(e);
        },
    }
    let ghost head = common::written(*buf);
    let mut i: usize = 0;
    assert(common::e_many(enc, all.take(0)) =~= Seq::empty());
    while i < xs.len()
        invariant
            i <= xs@.len(),
            all == partition_models(xs@),
            enc == partition_writer(version),
            common::written(*buf) == head + common::e_many(enc, all.take(i as int)),
            forall|j: int| 0 <= j < i ==> partition_fits(#[trigger] all[j], version),
        decreases xs.len() - i,
    {
        assert(all[i as int] == xs@[i as int]@);
        match write_partition(buf, &xs[i], version) {
            Ok(t) => {},
            Err(e) => {
                assert(!partition_fits(all[i as int], version));
                return Err(e);
            },
        }
        i = i + 1;
        proof {
            assert(all.take(i as int).drop_last() =~= all.take(i - 1));
            common::lemma_joined(head, common::e_many(enc, all.take(i - 1)), enc(all[i - 1]));
        }
    }
    assert(all.take(i as int) =~= all);
    Ok(())
}

fn write_topic(buf: &mut BytesMut, x: &Topic, version: i16) -> (r: Result<(), CodecError>)
    ensures
        r is Ok <==> topic_fits(x@, version),
        r is Err ==> r == Err::<(), CodecError>(CodecError::InvalidLength),
        r is Ok ==> common::written(*final(buf)) == common::written(*old(buf)) + e_topic(x@, version),
{
    broadcast use common::lemma_joined;
    broadcast use common::lemma_nothing;

    let flexible: bool = version >= MIN_FLEXIBLE;
    write_i16(buf, x.error_code);
    match write_str(buf, &x.name, flexible) {
        Ok(t) => {},
        Err(e) => {
            return Err(e);
        },
    }
    if version >= 10 {
        write_uuid(buf, &x.topic_id);
    }
    if version >= 1 {
        write_bool(buf, x.is_internal);
    }
    match write_partitions(buf, &x.partitions, version) {
        Ok(t) => {},
        Err(e) => {
            return Err(e);
        },
    }
    if version >= 8 {
        write_i32(buf, x.topic_authorized_operations);
    }
    write_tagged(buf, flexible);
    Ok(())
}

fn write_topics(buf: &mut BytesMut, xs: &Vec<Topic>, version: i16) -> (r: Result<(), CodecError>)
    ensures
        r is Ok <==> common::array_fits(xs@.len(), flexible(version)) && (forall|i: int| 0 <= i < xs@.len() ==> topic_fits(#[trigger] topic_models(xs@)[i], version)),
        r is Err ==> r == Err::<(), CodecError>(CodecError::InvalidLength),
        r is Ok ==> common::written(*final(buf)) == common::written(*old(buf)) + common::e_array(topic_writer(version), topic_models(xs@), flexible(version)),
{
    broadcast use common::lemma_joined;
    broadcast use common::lemma_nothing;

    proof {
        reveal(common::e_array);
    }
    let ghost all = topic_models(xs@);
    let ghost enc = topic_writer(version);
    match write_array_len(buf, xs.len(), version >= MIN_FLEXIBLE) {
        Ok(t) => {},
        Err(e) => {
            return Err(e);
        },
    }
    let ghost head = common::written(*buf);
    let mut i: usize = 0;
    assert(common::e_many(enc, all.take(0)) =~= Seq::empty());
    while i < xs.len()
        invariant
            i <= xs@.len(),
            all == topic_models(xs@),
            enc == topic_writer(version),
            common::written(*buf) == head + common::e_many(enc, all.take(i as int)),
            forall|j: int| 0 <= j < i ==> topic_fits(#[trigger] all[j], version),
        decreases xs.len() - i,
    {
        assert(all[i as int] == xs@[i as int]@);
        match write_topic(buf, &xs[i], version) {
            Ok(t) => {},
            Err(e) => {
                assert(!topic_fits(all[i as int], version));
                return Err(e);
            },
        }
        i = i + 1;
        proof {
            assert(all.take(i as int).drop_last() =~= all.take(i - 1));
            common::lemma_joined(head, common::e_many(enc, all.take(i - 1)), enc(all[i - 1]));
        }
    }
    assert(all.take(i as int) =~= all);
    Ok(())
}

fn write_broker(buf: &mut BytesMut, x: &Broker, version: i16) -> (r: Result<(), CodecError>)
    ensures
        r is Ok <==> broker_fits(x@, version),
        r is Err ==> r == Err::<(), CodecError>(CodecError::InvalidLength),
        r is Ok ==> common::written(*final(buf)) == common::written(*old(buf)) + e_broker(x@, version),
{
    broadcast use common::lemma_joined;
    broadcast use common::lemma_nothing;

    let flexible: bool = version >= MIN_FLEXIBLE;
    write_i32(buf, x.node_id);
    match write_str(buf, &x.host, flexible) {
        Ok(t) => {},
        Err(e) => {
            return Err(e);
        },
    }
    write_i32(buf, x.port);
    if version >= 1 {
        match write_nullable_str(buf, &x.rack, flexible) {
            Ok(t) => {},
            Err(e) => {
                return Err(e);
            },
        }
    }
    write_tagged(buf, flexible);
    Ok(())
}

fn write_brokers(buf: &mut BytesMut, xs: &Vec<Broker>, version: i16) -> (r: Result<(), CodecError>)
    ensures
        r is Ok <==> common::array_fits(xs@.len(), flexible(version)) && (forall|i: int| 0 <= i < xs@.len() ==> broker_fits(#[trigger] broker_models(xs@)[i], version)),
        r is Err ==> r == Err::<(), CodecError>(CodecError::InvalidLength),
        r is Ok ==> common::written(*final(buf)) == common::written(*old(buf)) + common::e_array(broker_writer(version), broker_models(xs@), flexible(version)),
{
    broadcast use common::lemma_joined;
    broadcast use common::lemma_nothing;

    proof {
        reveal(common::e_array);
    }
    let ghost all = broker_models(xs@);
    let ghost enc = broker_writer(version);
    match write_array_len(buf, xs.len(), version >= MIN_FLEXIBLE) {
        Ok(t) => {},
        Err(e) => {
            return Err(e);
        },
    }
    let ghost head = common::written(*buf);
    let mut i: usize = 0;
    assert(common::e_many(enc, all.take(0)) =~= Seq::empty());
    while i < xs.len()
        invariant
            i <= xs@.len(),
            all == broker_models(xs@),
            enc == broker_writer(version),
            common::written(*buf) == head + common::e_many(enc, all.take(i as int)),
            forall|j: int| 0 <= j < i ==> broker_fits(#[trigger] all[j], version),
        decreases xs.len() - i,
    {
        assert(all[i as int] == xs@[i as int]@);
        match write_broker(buf, &xs[i], version) {
            Ok(t) => {},
            Err(e) => {
                assert(!broker_fits(all[i as int], version));
                return Err(e);
            },
        }
        i = i + 1;
        proof {
            assert(all.take(i as int).drop_last() =~= all.take(i - 1));
            common::lemma_joined(head, common::e_many(enc, all.take(i - 1)), enc(all[i - 1]));
        }
    }
    assert(all.take(i as int) =~= all);
    Ok(())
}

pub fn encode_response(buf: &mut BytesMut, x: &Response, version: i16) -> (r: Result<(), CodecError>)
    ensures
        r is Ok <==> response_fits(x@, version),
        r is Err ==> r == Err::<(), CodecError>(CodecError::InvalidLength),
        r is Ok ==> common::written(*final(buf)) == common::written(*old(buf)) + e_response(x@, version),
{
    broadcast use common::lemma_joined;
    broadcast use common::lemma_nothing;

    let flexible: bool = version >= MIN_FLEXIBLE;
    if version >= 3 {
        write_i32(buf, x.throttle_time_ms);
    }
    match write_brokers(buf, &x.brokers, version) {
        Ok(t) => {},
        Err(e) => {
            return Err(e);
        },
    }
    if version >= 2 {
        match write_nullable_str(buf, &x.cluster_id, flexible) {
            Ok(t) => {},
            Err(e) => {
                return Err(e);
            },
        }
    }
    if version >= 1 {
        write_i32(buf, x.controller_id);
    }
    match write_topics(buf, &x.topics, version) {
        Ok(t) => {},
        Err(e) => {
            return Err(e);
        },
    }
    if version >= 8 && version <= 10 {
        write_i32(buf, x.cluster_authorized_operations);
    }
    write_tagged(buf, flexible);
    Ok(())
}

fn read_partition(buf: &mut Bytes, version: i16) -> (r: Result<Partition, CodecError>)
    ensures
        match p_partition(common::left(*old(buf)), version) {
            Ok((m, rest)) => (r matches Ok(x) && x@ == m) && common::left(*final(buf)) == rest,
            Err(e) => r == Err::<Partition, CodecError>(e),
        },
{
    let flexible: bool = version >= MIN_FLEXIBLE;
    let error_code: i16 = match read_i16(buf) {
        Ok(x) => x,
        Err(e) => {
            return Err(e);
        },
    };
    let partition_index: i32 = match read_i32(buf) {
        Ok(x) => x,
        Err(e) => {
            return Err(e);
        },
    };
    let leader_id: i32 = match read_i32(buf) {
        Ok(x) => x,
        Err(e) => {
            return Err(e);
        },
    };
    let leader_epoch: i32 = if version >= 7 {
        match read_i32(buf) {
            Ok(x) => x,
            Err(e) => {
                return Err(e);
            },
        }
    } else {
        -1
    };
    let replica_nodes = match read_i32s(buf, flexible) {
        Ok(x) => x,
        Err(e) => {
            return Err(e);
        },
    };
    let isr_nodes = match read_i32s(buf, flexible) {
        Ok(x) => x,
        Err(e) => {
            return Err(e);
        },
    };
    let offline_replicas = if version >= 5 {
        match read_i32s(buf, flexible) {
            Ok(x) => x,
            Err(e) => {
                return Err(e);
            },
        }
    } else {
        Vec::new()
    };
    match read_tagged(buf, flexible) {
        Ok(t) => {},
        Err(e) => {
            return Err(e);
        },
    }
    Ok(Partition { error_code, partition_index, leader_id, leader_epoch, replica_nodes, isr_nodes, offline_replicas })
}

fn read_partitions(buf: &mut Bytes, version: i16) -> (r: Result<Vec<Partition>, CodecError>)
    ensures
        match common::p_array(partition_parser(version), common::left(*old(buf)), flexible(version)) {
            Ok((ms, rest)) => (r matches Ok(v) && partition_models(v@) == ms) && common::left(*final(buf)) == rest,
            Err(e) => r == Err::<Vec<Partition>, CodecError>(e),
        },
{
    proof {
        reveal(common::p_array);
    }
    let n: u64 = match read_array_len(buf, version >= MIN_FLEXIBLE) {
        Ok(x) => x,
        Err(e) => {
            return Err(e);
        },
    };
    let ghost p = partition_parser(version);
    let ghost start = common::left(*buf);
    let mut out: Vec<Partition> = Vec::new();
    let mut i: u64 = 0;
    assert(partition_models(out@) =~= Seq::empty());
    while i < n
        invariant
            i <= n,
            p == partition_parser(version),
            common::p_array(p, common::left(*old(buf)), flexible(version)) == common::p_many(p, n as nat, start),
            common::p_many(p, i as nat, start) == Ok::<(Seq<PartitionModel>, Seq<u8>), CodecError>(
                (partition_models(out@), common::left(*buf)),
            ),
        decreases n - i,
    {
        let ghost before = out@;
        match read_partition(buf, version) {
            Ok(x) => {
                out.push(x);
                assert(partition_models(out@) =~= partition_models(before).push(x@));
            },
            Err(e) => {
                proof {
                    common::lemma_many_fails(p, (i + 1) as nat, n as nat, start, e);
                }
                return Err(e);
            },
        }
        i = i + 1;
    }
    Ok(out)
}

fn read_topic(buf: &mut Bytes, version: i16) -> (r: Result<Topic, CodecError>)
    ensures
        match p_topic(common::left(*old(buf)), version) {
            Ok((m, rest)) => (r matches Ok(x) && x@ == m) && common::left(*final(buf)) == rest,
            Err(e) => r == Err::<Topic, CodecError>(e),
        },
{
    let flexible: bool = version >= MIN_FLEXIBLE;
    let error_code: i16 = match read_i16(buf) {
        Ok(x) => x,
        Err(e) => {
            return Err(e);
        },
    };
    let name = match read_str(buf, flexible) {
        Ok(x) => x,
        Err(e) => {
            return Err(e);
        },
    };
    let topic_id = if version >= 10 {
        match read_uuid(buf) {
            Ok(x) => x,
            Err(e) => {
                return Err(e);
            },
        }
    } else {
        NULL_TOPIC_ID
    };
    let is_internal: bool = if version >= 1 {
        match read_bool(buf) {
            Ok(x) => x,
            Err(e) => {
                return Err(e);
            },
        }
    } else {
        false
    };
    let partitions = match read_partitions(buf, version) {
        Ok(x) => x,
        Err(e) => {
            return Err(e);
        },
    };
    let topic_authorized_operations: i32 = if version >= 8 {
        match read_i32(buf) {
            Ok(x) => x,
            Err(e) => {
                return Err(e);
            },
        }
    } else {
        0
    };
    match read_tagged(buf, flexible) {
        Ok(t) => {},
        Err(e) => {
            return Err(e);
        },
    }
    Ok(Topic { error_code, name, topic_id, is_internal, partitions, topic_authorized_operations })
}

fn read_topics(buf: &mut Bytes, version: i16) -> (r: Result<Vec<Topic>, CodecError>)
    ensures
        match common::p_array(topic_parser(version), common::left(*old(buf)), flexible(version)) {
            Ok((ms, rest)) => (r matches Ok(v) && topic_models(v@) == ms) && common::left(*final(buf)) == rest,
            Err(e) => r == Err::<Vec<Topic>, CodecError>(e),
        },
{
    proof {
        reveal(common::p_array);
    }
    let n: u64 = match read_array_len(buf, version >= MIN_FLEXIBLE) {
        Ok(x) => x,
        Err(e) => {
            return Err(e);
        },
    };
    let ghost p = topic_parser(version);
    let ghost start = common::left(*buf);
    let mut out: Vec<Topic> = Vec::new();
    let mut i: u64 = 0;
    assert(topic_models(out@) =~= Seq::empty());
    while i < n
        invariant
            i <= n,
            p == topic_parser(version),
            common::p_array(p, common::left(*old(buf)), flexible(version)) == common::p_many(p, n as nat, start),
            common::p_many(p, i as nat, start) == Ok::<(Seq<TopicModel>, Seq<u8>), CodecError>(
                (topic_models(out@), common::left(*buf)),
            ),
        decreases n - i,
    {
        let ghost before = out@;
        match read_topic(buf, version) {
            Ok(x) => {
                out.push(x);
                assert(topic_models(out@) =~= topic_models(before).push(x@));
            },
            Err(e) => {
                proof {
                    common::lemma_many_fails(p, (i + 1) as nat, n as nat, start, e);
                }
                return Err(e);
            },
        }
        i = i + 1;
    }
    Ok(out)
}

fn read_broker(buf: &mut Bytes, version: i16) -> (r: Result<Broker, CodecError>)
    ensures
        match p_broker(common::left(*old(buf)), version) {
            Ok((m, rest)) => (r matches Ok(x) && x@ == m) && common::left(*final(buf)) == rest,
            Err(e) => r == Err::<Broker, CodecError>(e),
        },
{
    let flexible: bool = version >= MIN_FLEXIBLE;
    let node_id: i32 = match read_i32(buf) {
        Ok(x) => x,
        Err(e) => {
            return Err(e);
        },
    };
    let host = match read_str(buf, flexible) {
        Ok(x) => x,
        Err(e) => {
            return Err(e);
        },
    };
    let port: i32 = match read_i32(buf) {
        Ok(x) => x,
        Err(e) => {
            return Err(e);
        },
    };
    let rack = if version >= 1 {
        match read_nullable_str(buf, flexible) {
            Ok(x) => x,
            Err(e) => {
                return Err(e);
            },
        }
    } else {
        None
    };
    match read_tagged(buf, flexible) {
        Ok(t) => {},
        Err(e) => {
            return Err(e);
        },
    }
    Ok(Broker { node_id, host, port, rack })
}

fn read_brokers(buf: &mut Bytes, version: i16) -> (r: Result<Vec<Broker>, CodecError>)
    ensures
        match common::p_array(broker_parser(version), common::left(*old(buf)), flexible(version)) {
            Ok((ms, rest)) => (r matches Ok(v) && broker_models(v@) == ms) && common::left(*final(buf)) == rest,
            Err(e) => r == Err::<Vec<Broker>, CodecError>(e),
        },
{
    proof {
        reveal(common::p_array);
    }
    let n: u64 = match read_array_len(buf, version >= MIN_FLEXIBLE) {
        Ok(x) => x,
        Err(e) => {
            return Err(e);
        },
    };
    let ghost p = broker_parser(version);
    let ghost start = common::left(*buf);
    let mut out: Vec<Broker> = Vec::new();
    let mut i: u64 = 0;
    assert(broker_models(out@) =~= Seq::empty());
    while i < n
        invariant
            i <= n,
            p == broker_parser(version),
            common::p_array(p, common::left(*old(buf)), flexible(version)) == common::p_many(p, n as nat, start),
            common::p_many(p, i as nat, start) == Ok::<(Seq<BrokerModel>, Seq<u8>), CodecError>(
                (broker_models(out@), common::left(*buf)),
            ),
        decreases n - i,
    {
        let ghost before = out@;
        match read_broker(buf, version) {
            Ok(x) => {
                out.push(x);
                assert(broker_models(out@) =~= broker_models(before).push(x@));
            },
            Err(e) => {
                proof {
                    common::lemma_many_fails(p, (i + 1) as nat, n as nat, start, e);
                }
                return Err(e);
            },
        }
        i = i + 1;
    }
    Ok(out)
}

pub fn decode_response(buf: &mut Bytes, version: i16) -> (r: Result<Response, CodecError>)
    ensures
        match p_response(common::left(*old(buf)), version) {
            Ok((m, rest)) => (r matches Ok(x) && x@ == m) && common::left(*final(buf)) == rest,
            Err(e) => r == Err::<Response, CodecError>(e),
        },
{
    let flexible: bool = version >= MIN_FLEXIBLE;
    let throttle_time_ms: i32 = if version >= 3 {
        match read_i32(buf) {
            Ok(x) => x,
            Err(e) => {
                return Err(e);
            },
        }
    } else {
        0
    };
    let brokers = match read_brokers(buf, version) {
        Ok(x) => x,
        Err(e) => {
            return Err(e);
        },
    };
    let cluster_id = if version >= 2 {
        match read_nullable_str(buf, flexible) {
            Ok(x) => x,
            Err(e) => {
                return Err(e);
            },
        }
    } else {
        None
    };
    let controller_id: i32 = if version >= 1 {
        match read_i32(buf) {
            Ok(x) => x,
            Err(e) => {
                return Err(e);
            },
        }
    } else {
        -1
    };
    let topics = match read_topics(buf, version) {
        Ok(x) => x,
        Err(e) => {
            return Err(e);
        },
    };
    let cluster_authorized_operations: i32 = if version >= 8 && version <= 10 {
        match read_i32(buf) {
            Ok(x) => x,
            Err(e) => {
                return Err(e);
            },
        }
    } else {
        0
    };
    match read_tagged(buf, flexible) {
        Ok(t) => {},
        Err(e) => {
            return Err(e);
        },
    }
    Ok(Response { throttle_time_ms, brokers, cluster_id, controller_id, topics, cluster_authorized_operations })
}

// Requests.

/// One topic that is asked about. From version 10 its identity comes first
/// and is passed over, and the name may be null.
pub open spec fn p_topic_name(s: Seq<u8>, version: i16) -> common::Parsed<Seq<char>> {
    match (if version >= 10 {
        match common::p_raw(s, 16) {
            Err(e) => Err(e),
            Ok((id, s)) => match common::p_nullable_str(s, true) {
                Err(e) => Err(e),
                Ok((None, s)) => Ok((Seq::<char>::empty(), s)),
                Ok((Some(name), s)) => Ok((name, s)),
            },
        }
    } else {
        common::p_str(s, flexible(version))
    }) {
        Err(e) => Err(e),
        Ok((name, s)) => match common::p_tagged_if(s, flexible(version)) {
            Err(e) => Err(e),
            Ok((t, s)) => Ok((name, s)),
        },
    }
}

pub open spec fn name_parser(version: i16) -> spec_fn(Seq<u8>) -> common::Parsed<Seq<char>> {
    |s: Seq<u8>| p_topic_name(s, version)
}

pub open spec fn is_named() -> spec_fn(Seq<char>) -> bool {
    |name: Seq<char>| name.len() > 0
}

/// A request; topics without a name are left out.
pub open spec fn p_request(s: Seq<u8>, version: i16) -> common::Parsed<RequestModel> {
    match common::p_array(name_parser(version), s, flexible(version)) {
        Err(e) => Err(e),
        Ok((names, s)) => match (if version >= 4 { common::p_bool(s) } else { Ok((true, s)) }) {
            Err(e) => Err(e),
            Ok((create, s)) => match (if version >= 8 && version <= 10 { common::p_bool(s) } else { Ok((false, s)) }) {
                Err(e) => Err(e),
                Ok((cluster_ops, s)) => match (if version >= 8 { common::p_bool(s) } else { Ok((false, s)) }) {
                    Err(e) => Err(e),
                    Ok((topic_ops, s)) => match common::p_tagged_if(s, flexible(version)) {
                        Err(e) => Err(e),
                        Ok((t, s)) => Ok(
                            (
                                RequestModel {
                                    topics: names.filter(is_named()),
                                    allow_auto_topic_creation: create,
                                    include_cluster_authorized_operations: cluster_ops,
                                    include_topic_authorized_operations: topic_ops,
                                },
                                s,
                            ),
                        ),
                    },
                },
            },
        },
    }
}

/// One topic as a client writes it, with the null identity.
pub open spec fn e_topic_name(name: Seq<char>, version: i16) -> Seq<u8> {
    (if version >= 10 {
        NULL_TOPIC_ID@ + common::e_nullable_str(Some(name), true)
    } else {
        common::e_str(name, flexible(version))
    }) + common::e_tagged_if(flexible(version))
}

pub open spec fn name_writer(version: i16) -> spec_fn(Seq<char>) -> Seq<u8> {
    |name: Seq<char>| e_topic_name(name, version)
}

/// A request as a client writes it.
pub open spec fn e_request(x: RequestModel, version: i16) -> Seq<u8> {
    common::e_array(name_writer(version), x.topics, flexible(version))
        + (if version >= 4 { common::e_bool(x.allow_auto_topic_creation) } else { Seq::empty() })
        + (if version >= 8 && version <= 10 { common::e_bool(x.include_cluster_authorized_operations) } else { Seq::empty() })
        + (if version >= 8 { common::e_bool(x.include_topic_authorized_operations) } else { Seq::empty() })
        + common::e_tagged_if(flexible(version))
}

/// Every topic has a name, and every length fits its field.
pub open spec fn request_fits(x: RequestModel, version: i16) -> bool {
    &&& common::array_fits(x.topics.len(), flexible(version))
    &&& forall|i: int| 0 <= i < x.topics.len() ==> (#[trigger] x.topics[i]).len() > 0 && common::str_fits(x.topics[i], flexible(version))
}

/// A request as the broker understands it: topics may be created where the
/// version cannot say.
pub open spec fn request_at(x: RequestModel, version: i16) -> RequestModel {
    RequestModel {
        topics: x.topics,
        allow_auto_topic_creation: version < 4 || x.allow_auto_topic_creation,
        include_cluster_authorized_operations: version >= 8 && version <= 10 && x.include_cluster_authorized_operations,
        include_topic_authorized_operations: version >= 8 && x.include_topic_authorized_operations,
    }
}

proof fn lemma_topic_name(name: Seq<char>, version: i16, rest: Seq<u8>)
    requires
        common::str_fits(name, flexible(version)),
    ensures
        p_topic_name(e_topic_name(name, version) + rest, version) == Ok::<(Seq<char>, Seq<u8>), CodecError>((name, rest)),
{
    broadcast use common::lemma_joined;
    let s2 = common::e_tagged_if(flexible(version)) + rest;
    if version >= 10 {
        let s1 = common::e_nullable_str(Some(name), true) + s2;
        assert(e_topic_name(name, version) + rest == NULL_TOPIC_ID@ + s1);
        common::lemma_raw(NULL_TOPIC_ID@, s1);
        common::lemma_nullable_str(Some(name), true, s2);
    } else {
        assert(e_topic_name(name, version) + rest == common::e_str(name, flexible(version)) + s2);
        common::lemma_str(name, flexible(version), s2);
    }
    common::lemma_tagged(flexible(version), rest);
}

proof fn lemma_all_named(names: Seq<Seq<char>>)
    requires
        forall|i: int| 0 <= i < names.len() ==> (#[trigger] names[i]).len() > 0,
    ensures
        names.filter(is_named()) == names,
    decreases names.len(),
{
    reveal(Seq::filter);
    if names.len() > 0 {
        assert(names.last().len() > 0);
        assert forall|i: int| 0 <= i < names.drop_last().len() implies (#[trigger] names.drop_last()[i]).len() > 0 by {
            assert(names[i].len() > 0);
        }
        lemma_all_named(names.drop_last());
        assert(names.drop_last().push(names.last()) =~= names);
    }
}

/// The broker understands what a client wrote: the topics that it named, in
/// their order, and what its version can say.
pub proof fn law_request_reads_back(x: RequestModel, version: i16, rest: Seq<u8>)
    requires
        request_fits(x, version),
    ensures
        p_request(e_request(x, version) + rest, version) == Ok::<(RequestModel, Seq<u8>), CodecError>(
            (request_at(x, version), rest),
        ),
{
    broadcast use common::lemma_joined;
    let s4 = common::e_tagged_if(flexible(version)) + rest;
    let s3 = (if version >= 8 { common::e_bool(x.include_topic_authorized_operations) } else { Seq::empty() }) + s4;
    let s2 = (if version >= 8 && version <= 10 { common::e_bool(x.include_cluster_authorized_operations) } else { Seq::empty() })
        + s3;
    let s1 = (if version >= 4 { common::e_bool(x.allow_auto_topic_creation) } else { Seq::empty() }) + s2;
    assert(e_request(x, version) + rest == common::e_array(name_writer(version), x.topics, flexible(version)) + s1);
    assert forall|i: int, t: Seq<u8>| 0 <= i < x.topics.len() implies #[trigger] name_parser(version)(name_writer(version)(x.topics[i]) + t) == Ok::<(Seq<char>, Seq<u8>), CodecError>((x.topics[i], t)) by {
        assert(x.topics[i].len() > 0);
        lemma_topic_name(x.topics[i], version, t);
    }
    common::lemma_array(name_parser(version), name_writer(version), x.topics, x.topics, flexible(version), s1);
    lemma_all_named(x.topics);
    if version >= 4 {
        common::lemma_bool(x.allow_auto_topic_creation, s2);
    } else {
        assert(s1 =~= s2);
    }
    if version >= 8 && version <= 10 {
        common::lemma_bool(x.include_cluster_authorized_operations, s3);
    } else {
        assert(s2 =~= s3);
    }
    if version >= 8 {
        common::lemma_bool(x.include_topic_authorized_operations, s4);
    } else {
        assert(s3 =~= s4);
    }
    common::lemma_tagged(flexible(version), rest);
}

// Topic identities in requests.

/// What follows the identity of a topic that is asked about.
pub open spec fn p_topic_body(s: Seq<u8>) -> common::Parsed<Seq<char>> {
    match common::p_nullable_str(s, true) {
        Err(e) => Err(e),
        Ok((name, s)) => match common::p_tagged_if(s, true) {
            Err(e) => Err(e),
            Ok((t, s)) => Ok(
                (
                    match name {
                        Some(n) => n,
                        None => Seq::empty(),
                    },
                    s,
                ),
            ),
        },
    }
}

/// Topics one after the other, each an identity and what follows it.
pub open spec fn with_ids(ids: Seq<Seq<u8>>, bodies: Seq<Seq<u8>>) -> Seq<u8>
    decreases bodies.len(),
{
    if bodies.len() == 0 {
        Seq::empty()
    } else {
        with_ids(ids, bodies.drop_last()) + (ids[bodies.len() - 1] + bodies.last())
    }
}

/// Whether identities and what follows them make up the topics of these names.
pub open spec fn make_topics(ids: Seq<Seq<u8>>, bodies: Seq<Seq<u8>>, names: Seq<Seq<char>>) -> bool {
    &&& ids.len() == bodies.len()
    &&& names.len() == bodies.len()
    &&& forall|i: int| 0 <= i < ids.len() ==> (#[trigger] ids[i]).len() == 16
    &&& forall|i: int|
        0 <= i < bodies.len() ==> p_topic_body(#[trigger] bodies[i]) == Ok::<(Seq<char>, Seq<u8>), CodecError>((names[i], Seq::empty()))
}

proof fn lemma_topic_with_id(id: Seq<u8>, body: Seq<u8>, name: Seq<char>, rest: Seq<u8>)
    requires
        id.len() == 16,
        p_topic_body(body) == Ok::<(Seq<char>, Seq<u8>), CodecError>((name, Seq::empty())),
    ensures
        p_topic_name((id + body) + rest, 10) == Ok::<(Seq<char>, Seq<u8>), CodecError>((name, rest)),
{
    broadcast use common::lemma_joined;
    common::lemma_raw(id, body + rest);
    common::lemma_compact_str_extend(body, rest);
    let after = common::p_nullable_str(body, true)->Ok_0.1;
    common::lemma_tagged_extend(after, rest);
    assert(Seq::<u8>::empty() + rest =~= rest);
}

proof fn lemma_topics_with_ids(ids: Seq<Seq<u8>>, bodies: Seq<Seq<u8>>, names: Seq<Seq<char>>, n: int, rest: Seq<u8>)
    requires
        make_topics(ids, bodies, names),
        0 <= n <= bodies.len(),
    ensures
        common::p_many(name_parser(10), n as nat, with_ids(ids, bodies.take(n)) + rest) == Ok::<(Seq<Seq<char>>, Seq<u8>), CodecError>(
            (names.take(n), rest),
        ),
    decreases n,
{
    if n == 0 {
        assert(with_ids(ids, bodies.take(0)) + rest =~= rest);
        assert(names.take(0) =~= Seq::empty());
    } else {
        let d = bodies.take(n).drop_last();
        assert(d =~= bodies.take(n - 1));
        let one = ids[n - 1] + bodies[n - 1];
        lemma_topics_with_ids(ids, bodies, names, n - 1, one + rest);
        assert(with_ids(ids, bodies.take(n)) + rest =~= with_ids(ids, d) + (one + rest));
        assert(p_topic_body(bodies[n - 1]) is Ok);
        lemma_topic_with_id(ids[n - 1], bodies[n - 1], names[n - 1], rest);
        assert(names.take(n) =~= names.take(n - 1).push(names[n - 1]));
    }
}

/// The identities of topics in a request are ignored: requests of version 10
/// that differ in them only are understood alike, as the topics that they
/// name, in their order. `tail` is what follows the topics: three flags and a
/// block of tagged fields.
pub proof fn law_topic_ids_are_ignored(
    head: Seq<u8>,
    ids: Seq<Seq<u8>>,
    others: Seq<Seq<u8>>,
    bodies: Seq<Seq<u8>>,
    names: Seq<Seq<char>>,
    tail: Seq<u8>,
)
    requires
        common::p_array_len(head, true) == Ok::<(nat, Seq<u8>), CodecError>((bodies.len(), Seq::empty())),
        make_topics(ids, bodies, names),
        make_topics(others, bodies, names),
    ensures
        p_request(head + (with_ids(ids, bodies) + tail), 10) == p_request(head + (with_ids(others, bodies) + tail), 10),
        p_request(head + (with_ids(ids, bodies) + tail), 10) matches Ok((x, rest)) ==> x.topics == names.filter(is_named()),
        tail.len() >= 3 && common::p_tagged(tail.skip(3)) == Ok::<((), Seq<u8>), CodecError>(((), Seq::empty())) ==> p_request(
            head + (with_ids(ids, bodies) + tail),
            10,
        ) == Ok::<(RequestModel, Seq<u8>), CodecError>(
            (
                RequestModel {
                    topics: names.filter(is_named()),
                    allow_auto_topic_creation: tail[0] != 0,
                    include_cluster_authorized_operations: tail[1] != 0,
                    include_topic_authorized_operations: tail[2] != 0,
                },
                Seq::empty(),
            ),
        ),
{
    lemma_topics_of_request(head, ids, bodies, names, tail);
    lemma_topics_of_request(head, others, bodies, names, tail);
    reveal(common::p_bool);
    if tail.len() >= 3 {
        assert(tail.skip(1).skip(1) =~= tail.skip(2));
        assert(tail.skip(2).skip(1) =~= tail.skip(3));
    }
}

proof fn lemma_topics_of_request(head: Seq<u8>, ids: Seq<Seq<u8>>, bodies: Seq<Seq<u8>>, names: Seq<Seq<char>>, tail: Seq<u8>)
    requires
        common::p_array_len(head, true) == Ok::<(nat, Seq<u8>), CodecError>((bodies.len(), Seq::empty())),
        make_topics(ids, bodies, names),
    ensures
        common::p_array(name_parser(10), head + (with_ids(ids, bodies) + tail), true) == Ok::<(Seq<Seq<char>>, Seq<u8>), CodecError>(
            (names, tail),
        ),
{
    reveal(common::p_array);
    let topics = with_ids(ids, bodies) + tail;
    common::lemma_compact_len_extend(head, topics);
    assert(Seq::<u8>::empty() + topics =~= topics);
    lemma_topics_with_ids(ids, bodies, names, bodies.len() as int, tail);
    assert(bodies.take(bodies.len() as int) =~= bodies);
    assert(names.take(names.len() as int) =~= names);
}

fn read_topic_name(buf: &mut Bytes, version: i16) -> (r: Result<String, CodecError>)
    ensures
        match p_topic_name(common::left(*old(buf)), version) {
            Ok((m, rest)) => (r matches Ok(x) && x@ == m) && common::left(*final(buf)) == rest,
            Err(e) => r == Err::<String, CodecError>(e),
        },
{
    let name: String = if version >= 10 {
        match read_raw(buf, 16) {
            Ok(id) => {},
            Err(e) => {
                return Err(e);
            },
        }
        match read_nullable_str(buf, true) {
            Ok(Some(x)) => x,
            Ok(None) => String::new(),
            Err(e) => {
                return Err(e);
            },
        }
    } else {
        match read_str(buf, version >= MIN_FLEXIBLE) {
            Ok(x) => x,
            Err(e) => {
                return Err(e);
            },
        }
    };
    match read_tagged(buf, version >= MIN_FLEXIBLE) {
        Ok(t) => {},
        Err(e) => {
            return Err(e);
        },
    }
    Ok(name)
}

fn read_topic_names(buf: &mut Bytes, version: i16) -> (r: Result<Vec<String>, CodecError>)
    ensures
        match common::p_array(name_parser(version), common::left(*old(buf)), flexible(version)) {
            Ok((ms, rest)) => (r matches Ok(v) && order::texts(v@) == ms.filter(is_named())) && common::left(*final(buf)) == rest,
            Err(e) => r == Err::<Vec<String>, CodecError>(e),
        },
{
    proof {
        reveal(common::p_array);
    }
    let n: u64 = match read_array_len(buf, version >= MIN_FLEXIBLE) {
        Ok(x) => x,
        Err(e) => {
            return Err(e);
        },
    };
    let ghost p = name_parser(version);
    let ghost start = common::left(*buf);
    let ghost mut seen: Seq<Seq<char>> = Seq::empty();
    let mut out: Vec<String> = Vec::new();
    let mut i: u64 = 0;
    proof {
        reveal(Seq::filter);
        assert(order::texts(out@) =~= seen.filter(is_named()));
    }
    while i < n
        invariant
            i <= n,
            p == name_parser(version),
            common::p_array(p, common::left(*old(buf)), flexible(version)) == common::p_many(p, n as nat, start),
            common::p_many(p, i as nat, start) == Ok::<(Seq<Seq<char>>, Seq<u8>), CodecError>((seen, common::left(*buf))),
            order::texts(out@) == seen.filter(is_named()),
        decreases n - i,
    {
        let ghost before = out@;
        match read_topic_name(buf, version) {
            Ok(x) => {
                proof {
                    reveal(Seq::filter);
                    assert(seen.push(x@).drop_last() =~= seen);
                    seen = seen.push(x@);
                }
                if !x.as_str().is_empty() {
                    let ghost name = x@;
                    out.push(x);
                    assert(order::texts(out@) =~= order::texts(before).push(name));
                }
            },
            Err(e) => {
                proof {
                    common::lemma_many_fails(p, (i + 1) as nat, n as nat, start, e);
                }
                return Err(e);
            },
        }
        i = i + 1;
    }
    Ok(out)
}

pub fn decode_request(buf: &mut Bytes, version: i16) -> (r: Result<Request, CodecError>)
    ensures
        match p_request(common::left(*old(buf)), version) {
            Ok((m, rest)) => (r matches Ok(x) && x@ == m) && common::left(*final(buf)) == rest,
            Err(e) => r == Err::<Request, CodecError>(e),
        },
{
    let topics = match read_topic_names(buf, version) {
        Ok(x) => x,
        Err(e) => {
            return Err(e);
        },
    };
    let allow_auto_topic_creation: bool = if version >= 4 {
        match read_bool(buf) {
            Ok(x) => x,
            Err(e) => {
                return Err(e);
            },
        }
    } else {
        true
    };
    let include_cluster_authorized_operations: bool = if version >= 8 && version <= 10 {
        match read_bool(buf) {
            Ok(x) => x,
            Err(e) => {
                return Err(e);
            },
        }
    } else {
        false
    };
    let include_topic_authorized_operations: bool = if version >= 8 {
        match read_bool(buf) {
            Ok(x) => x,
            Err(e) => {
                return Err(e);
            },
        }
    } else {
        false
    };
    match read_tagged(buf, version >= MIN_FLEXIBLE) {
        Ok(t) => {},
        Err(e) => {
            return Err(e);
        },
    }
    Ok(Request {
        topics,
        allow_auto_topic_creation,
        include_cluster_authorized_operations,
        include_topic_authorized_operations,
    })
}

} // verus!
