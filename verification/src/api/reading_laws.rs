//! In which order the fields of the smaller messages are read, whatever wrote
//! them, how the items of their arrays are laid out, and what the table of
//! request kinds says of each.

use vstd::prelude::*;
use crate::api::alter_user_scram_credentials as alter;
use crate::api::common;
use crate::api::common::{CodecError, HeaderVersion};
use crate::api::describe_cluster as cluster;
use crate::api::describe_user_scram_credentials as describe;
use crate::api::metadata;
use crate::api::registry;
use crate::api::registry::{ApiSpec, HeaderRule};

verus! {

/// The items of arrays are written one by one as they are on their own.
pub proof fn law_items_are_written_alike(
    a: metadata::BrokerModel,
    b: metadata::TopicModel,
    c: metadata::PartitionModel,
    d: cluster::BrokerModel,
    e: describe::DescribeUserResultModel,
    f: describe::CredentialInfoModel,
    g: alter::AlterUserResultModel,
    h: alter::ScramCredentialUpsertionModel,
    i: alter::ScramCredentialDeletionModel,
    name: Seq<char>,
    v: i16,
)
    ensures
        metadata::broker_writer(v)(a) == metadata::e_broker(a, v),
        metadata::topic_writer(v)(b) == metadata::e_topic(b, v),
        metadata::partition_writer(v)(c) == metadata::e_partition(c, v),
        metadata::name_writer(v)(name) == metadata::e_topic_name(name, v),
        cluster::broker_writer(v)(d) == cluster::e_broker(d, v),
        describe::result_writer()(e) == describe::e_result(e),
        describe::info_writer()(f) == describe::e_info(f),
        describe::name_writer()(name) == common::e_str(name, true) + seq![0u8],
        alter::result_writer()(g) == alter::e_result(g),
        alter::upsertion_writer()(h) == alter::e_upsertion(h),
        alter::deletion_writer()(i) == alter::e_deletion(i),
{
    reveal(common::e_tagged_if);
}

/// The items of arrays are read one by one as they are on their own.
pub proof fn law_items_are_read_alike(s: Seq<u8>, v: i16)
    ensures
        metadata::broker_parser(v)(s) == metadata::p_broker(s, v),
        metadata::topic_parser(v)(s) == metadata::p_topic(s, v),
        metadata::partition_parser(v)(s) == metadata::p_partition(s, v),
        metadata::name_parser(v)(s) == metadata::p_topic_name(s, v),
        cluster::broker_parser(v)(s) == cluster::p_broker(s, v),
        describe::result_parser()(s) == describe::p_result(s),
        describe::info_parser()(s) == describe::p_info(s),
        describe::name_parser()(s) == describe::p_name(s),
        alter::result_parser()(s) == alter::p_result(s),
        alter::upsertion_parser()(s) == alter::p_upsertion(s),
        alter::deletion_parser()(s) == alter::p_deletion(s),
{
}

/// A request to describe credentials: a null list for all users, else the
/// number of users above one, the users, and the tagged fields.
pub proof fn law_describe_request_layout(names: Seq<Seq<char>>)
    ensures
        describe::e_request(None) == common::e_uvarint(0) + seq![0u8],
        describe::e_request(Some(names)) == common::e_uvarint(names.len() + 1) + common::e_many(describe::name_writer(), names) + seq![0u8],
{
    reveal(common::e_tagged_if);
}

/// A DescribeCluster request is read field by field; a version without a field
/// takes brokers, and no fenced ones.
pub proof fn law_cluster_request_is_read_in_order(r: cluster::Request, v: i16, s: Seq<u8>, s1: Seq<u8>, s2: Seq<u8>, s3: Seq<u8>, rest: Seq<u8>)
    requires
        0 <= v,
        common::p_bool(s) == Ok::<(bool, Seq<u8>), CodecError>((r.include_cluster_authorized_operations, s1)),
        v >= 1 ==> common::p_i8(s1) == Ok::<(i8, Seq<u8>), CodecError>((r.endpoint_type, s2)),
        v < 1 ==> r.endpoint_type == 1 && s2 == s1,
        v >= 2 ==> common::p_bool(s2) == Ok::<(bool, Seq<u8>), CodecError>((r.include_fenced_brokers, s3)),
        v < 2 ==> !r.include_fenced_brokers && s3 == s2,
        common::p_tagged(s3) == Ok::<((), Seq<u8>), CodecError>(((), rest)),
    ensures
        cluster::p_request(s, v) == Ok::<(cluster::Request, Seq<u8>), CodecError>((r, rest)),
{
}

/// So is a broker of a DescribeCluster response.
pub proof fn law_cluster_broker_is_read_in_order(
    b: cluster::BrokerModel,
    v: i16,
    s: Seq<u8>,
    s1: Seq<u8>,
    s2: Seq<u8>,
    s3: Seq<u8>,
    s4: Seq<u8>,
    s5: Seq<u8>,
    rest: Seq<u8>,
)
    requires
        common::p_i32(s) == Ok::<(i32, Seq<u8>), CodecError>((b.broker_id, s1)),
        common::p_str(s1, true) == Ok::<(Seq<char>, Seq<u8>), CodecError>((b.host, s2)),
        common::p_i32(s2) == Ok::<(i32, Seq<u8>), CodecError>((b.port, s3)),
        common::p_nullable_str(s3, true) == Ok::<(Option<Seq<char>>, Seq<u8>), CodecError>((b.rack, s4)),
        v >= 2 ==> common::p_bool(s4) == Ok::<(bool, Seq<u8>), CodecError>((b.is_fenced, s5)),
        v < 2 ==> !b.is_fenced && s5 == s4,
        common::p_tagged(s5) == Ok::<((), Seq<u8>), CodecError>(((), rest)),
    ensures
        cluster::p_broker(s, v) == Ok::<(cluster::BrokerModel, Seq<u8>), CodecError>((b, rest)),
{
}

/// So is a DescribeCluster response.
pub proof fn law_cluster_response_is_read_in_order(
    r: cluster::ResponseModel,
    v: i16,
    s: Seq<u8>,
    s1: Seq<u8>,
    s2: Seq<u8>,
    s3: Seq<u8>,
    s4: Seq<u8>,
    s5: Seq<u8>,
    s6: Seq<u8>,
    s7: Seq<u8>,
    s8: Seq<u8>,
    rest: Seq<u8>,
)
    requires
        common::p_i32(s) == Ok::<(i32, Seq<u8>), CodecError>((r.throttle_time_ms, s1)),
        common::p_i16(s1) == Ok::<(i16, Seq<u8>), CodecError>((r.error_code, s2)),
        common::p_nullable_str(s2, true) == Ok::<(Option<Seq<char>>, Seq<u8>), CodecError>((r.error_message, s3)),
        v >= 1 ==> common::p_i8(s3) == Ok::<(i8, Seq<u8>), CodecError>((r.endpoint_type, s4)),
        v < 1 ==> r.endpoint_type == 1 && s4 == s3,
        common::p_str(s4, true) == Ok::<(Seq<char>, Seq<u8>), CodecError>((r.cluster_id, s5)),
        common::p_i32(s5) == Ok::<(i32, Seq<u8>), CodecError>((r.controller_id, s6)),
        common::p_array(cluster::broker_parser(v), s6, true) == Ok::<(Seq<cluster::BrokerModel>, Seq<u8>), CodecError>((r.brokers, s7)),
        common::p_i32(s7) == Ok::<(i32, Seq<u8>), CodecError>((r.cluster_authorized_operations, s8)),
        common::p_tagged(s8) == Ok::<((), Seq<u8>), CodecError>(((), rest)),
    ensures
        cluster::p_response(s, v) == Ok::<(cluster::ResponseModel, Seq<u8>), CodecError>((r, rest)),
{
}

/// So is a request to describe credentials, and each user in it.
pub proof fn law_describe_request_is_read_in_order(
    name: Seq<char>,
    names: Seq<Seq<char>>,
    n: u64,
    s: Seq<u8>,
    s1: Seq<u8>,
    s2: Seq<u8>,
    rest: Seq<u8>,
)
    ensures
        common::p_str(s, true) == Ok::<(Seq<char>, Seq<u8>), CodecError>((name, s1)) && common::p_tagged(s1) == Ok::<((), Seq<u8>), CodecError>(
            ((), rest),
        ) ==> describe::p_name(s) == Ok::<(Seq<char>, Seq<u8>), CodecError>((name, rest)),
        common::p_uvarint(s) == Ok::<(u64, Seq<u8>), CodecError>((0u64, s1)) && common::p_tagged(s1) == Ok::<((), Seq<u8>), CodecError>(((), rest))
            ==> describe::p_request(s) == Ok::<(Option<Seq<Seq<char>>>, Seq<u8>), CodecError>((None, rest)),
        n > 0 && common::p_uvarint(s) == Ok::<(u64, Seq<u8>), CodecError>((n, s1)) && common::p_many(describe::name_parser(), (n - 1) as nat, s1)
            == Ok::<(Seq<Seq<char>>, Seq<u8>), CodecError>((names, s2)) && common::p_tagged(s2) == Ok::<((), Seq<u8>), CodecError>(((), rest))
            ==> describe::p_request(s) == Ok::<(Option<Seq<Seq<char>>>, Seq<u8>), CodecError>((Some(names), rest)),
{
}

/// So is a response that describes credentials, a user in it and a credential of
/// the user.
pub proof fn law_described_credentials_are_read_in_order(
    x: describe::ResponseModel,
    y: describe::DescribeUserResultModel,
    z: describe::CredentialInfoModel,
    s: Seq<u8>,
    s1: Seq<u8>,
    s2: Seq<u8>,
    s3: Seq<u8>,
    s4: Seq<u8>,
    rest: Seq<u8>,
)
    ensures
        common::p_i8(s) == Ok::<(i8, Seq<u8>), CodecError>((z.mechanism, s1)) && common::p_i32(s1) == Ok::<(i32, Seq<u8>), CodecError>(
            (z.iterations, s2),
        ) && common::p_tagged(s2) == Ok::<((), Seq<u8>), CodecError>(((), rest)) ==> describe::p_info(s) == Ok::<
            (describe::CredentialInfoModel, Seq<u8>),
            CodecError,
        >((z, rest)),
        common::p_str(s, true) == Ok::<(Seq<char>, Seq<u8>), CodecError>((y.user, s1)) && common::p_i16(s1) == Ok::<(i16, Seq<u8>), CodecError>(
            (y.error_code, s2),
        ) && common::p_nullable_str(s2, true) == Ok::<(Option<Seq<char>>, Seq<u8>), CodecError>((y.error_message, s3)) && common::p_array(
            describe::info_parser(),
            s3,
            true,
        ) == Ok::<(Seq<describe::CredentialInfoModel>, Seq<u8>), CodecError>((y.credential_infos, s4)) && common::p_tagged(s4) == Ok::<
            ((), Seq<u8>),
            CodecError,
        >(((), rest)) ==> describe::p_result(s) == Ok::<(describe::DescribeUserResultModel, Seq<u8>), CodecError>((y, rest)),
        common::p_i32(s) == Ok::<(i32, Seq<u8>), CodecError>((x.throttle_time_ms, s1)) && common::p_i16(s1) == Ok::<(i16, Seq<u8>), CodecError>(
            (x.error_code, s2),
        ) && common::p_nullable_str(s2, true) == Ok::<(Option<Seq<char>>, Seq<u8>), CodecError>((x.error_message, s3)) && common::p_array(
            describe::result_parser(),
            s3,
            true,
        ) == Ok::<(Seq<describe::DescribeUserResultModel>, Seq<u8>), CodecError>((x.results, s4)) && common::p_tagged(s4) == Ok::<
            ((), Seq<u8>),
            CodecError,
        >(((), rest)) ==> describe::p_response(s) == Ok::<(describe::ResponseModel, Seq<u8>), CodecError>((x, rest)),
{
}

/// So is a request to alter credentials: the deletions, then the upsertions.
pub proof fn law_alter_request_is_read_in_order(
    x: alter::RequestModel,
    d: alter::ScramCredentialDeletionModel,
    u: alter::ScramCredentialUpsertionModel,
    s: Seq<u8>,
    s1: Seq<u8>,
    s2: Seq<u8>,
    s3: Seq<u8>,
    s4: Seq<u8>,
    s5: Seq<u8>,
    rest: Seq<u8>,
)
    ensures
        common::p_array(alter::deletion_parser(), s, true) == Ok::<(Seq<alter::ScramCredentialDeletionModel>, Seq<u8>), CodecError>(
            (x.deletions, s1),
        ) && common::p_array(alter::upsertion_parser(), s1, true) == Ok::<(Seq<alter::ScramCredentialUpsertionModel>, Seq<u8>), CodecError>(
            (x.upsertions, s2),
        ) && common::p_tagged(s2) == Ok::<((), Seq<u8>), CodecError>(((), rest)) ==> alter::p_request(s) == Ok::<
            (alter::RequestModel, Seq<u8>),
            CodecError,
        >((x, rest)),
        common::p_str(s, true) == Ok::<(Seq<char>, Seq<u8>), CodecError>((d.name, s1)) && common::p_i8(s1) == Ok::<(i8, Seq<u8>), CodecError>(
            (d.mechanism, s2),
        ) && common::p_tagged(s2) == Ok::<((), Seq<u8>), CodecError>(((), rest)) ==> alter::p_deletion(s) == Ok::<
            (alter::ScramCredentialDeletionModel, Seq<u8>),
            CodecError,
        >((d, rest)),
        common::p_str(s, true) == Ok::<(Seq<char>, Seq<u8>), CodecError>((u.name, s1)) && common::p_i8(s1) == Ok::<(i8, Seq<u8>), CodecError>(
            (u.mechanism, s2),
        ) && common::p_i32(s2) == Ok::<(i32, Seq<u8>), CodecError>((u.iterations, s3)) && common::p_bytes(s3, true) == Ok::<
            (Seq<u8>, Seq<u8>),
            CodecError,
        >((u.salt, s4)) && common::p_bytes(s4, true) == Ok::<(Seq<u8>, Seq<u8>), CodecError>((u.salted_password, s5)) && common::p_tagged(s5)
            == Ok::<((), Seq<u8>), CodecError>(((), rest)) ==> alter::p_upsertion(s) == Ok::<
            (alter::ScramCredentialUpsertionModel, Seq<u8>),
            CodecError,
        >((u, rest)),
{
}

/// So is the response to it.
pub proof fn law_alter_response_is_read_in_order(
    x: alter::ResponseModel,
    y: alter::AlterUserResultModel,
    s: Seq<u8>,
    s1: Seq<u8>,
    s2: Seq<u8>,
    s3: Seq<u8>,
    rest: Seq<u8>,
)
    ensures
        common::p_i32(s) == Ok::<(i32, Seq<u8>), CodecError>((x.throttle_time_ms, s1)) && common::p_array(alter::result_parser(), s1, true) == Ok::<
            (Seq<alter::AlterUserResultModel>, Seq<u8>),
            CodecError,
        >((x.results, s2)) && common::p_tagged(s2) == Ok::<((), Seq<u8>), CodecError>(((), rest)) ==> alter::p_response(s) == Ok::<
            (alter::ResponseModel, Seq<u8>),
            CodecError,
        >((x, rest)),
        common::p_str(s, true) == Ok::<(Seq<char>, Seq<u8>), CodecError>((y.user, s1)) && common::p_i16(s1) == Ok::<(i16, Seq<u8>), CodecError>(
            (y.error_code, s2),
        ) && common::p_nullable_str(s2, true) == Ok::<(Option<Seq<char>>, Seq<u8>), CodecError>((y.error_message, s3)) && common::p_tagged(s3)
            == Ok::<((), Seq<u8>), CodecError>(((), rest)) ==> alter::p_result(s) == Ok::<(alter::AlterUserResultModel, Seq<u8>), CodecError>(
            (y, rest),
        ),
{
}

// The table.

/// A header has one layout below a version and another from it on.
pub proof fn law_header_switches_once(r: HeaderRule, version: i16)
    ensures
        version < r.switch_at ==> r.layout(version) == r.before,
        version >= r.switch_at ==> r.layout(version) == r.from,
{
}

/// The keys, the versions and the headers of the kinds whose messages are laid
/// out here.
pub proof fn law_rows_of_the_kinds(version: i16)
    requires
        version >= 0,
    ensures
        ({
            let r = metadata::row();
            &&& r.key == 3 && r.min_version == 1 && r.max_version == 10 && r.min_flexible == Some(9i16)
            &&& version < 9 ==> r.request_hdr.layout(version) == HeaderVersion::V1 && r.response_hdr.layout(version) == HeaderVersion::V1
            &&& version >= 9 ==> r.request_hdr.layout(version) == HeaderVersion::V2 && r.response_hdr.layout(version) == HeaderVersion::V2
        }),
        ({
            let r = cluster::row();
            &&& r.key == 60 && r.min_version == 0 && r.max_version == 2 && r.min_flexible == Some(0i16)
            &&& r.request_hdr.layout(version) == HeaderVersion::V2 && r.response_hdr.layout(version) == HeaderVersion::V1
        }),
        ({
            let r = describe::row();
            &&& r.key == 50 && r.min_version == 0 && r.max_version == 0 && r.min_flexible == Some(0i16)
            &&& r.request_hdr.layout(version) == HeaderVersion::V2 && r.response_hdr.layout(version) == HeaderVersion::V1
        }),
        ({
            let r = alter::row();
            &&& r.key == 51 && r.min_version == 0 && r.max_version == 0 && r.min_flexible == Some(0i16)
            &&& r.request_hdr.layout(version) == HeaderVersion::V2 && r.response_hdr.layout(version) == HeaderVersion::V1
        }),
{
}

/// The first row of a table with a key is found.
pub proof fn law_first_row_is_found(rows: Seq<ApiSpec>, key: i16, i: int, j: int)
    requires
        0 <= i <= j < rows.len(),
        rows[j].key == key,
        forall|n: int| i <= n < j ==> (#[trigger] rows[n]).key != key,
    ensures
        registry::row_for(rows, key, i) == Some(rows[j]),
    decreases j - i,
{
    if i < j {
        law_first_row_is_found(rows, key, i + 1, j);
    }
}

} // verus!
