use bytes::{Bytes, BytesMut};
use kaas::api::alter_user_scram_credentials as alter;
use kaas::api::common::{
    read_array_len, read_bool, read_bytes, read_i16, read_i32, read_i8, read_nullable_str, read_raw, read_str, read_tagged, read_u8, read_uuid,
    read_uvarint, write_array_len, write_bytes, write_i16, write_i32, write_i8, write_nullable_str, write_str, write_tagged, write_uuid,
    write_uvarint, CodecError, HeaderVersion,
};
use kaas::api::describe_cluster as cluster;
use kaas::api::describe_user_scram_credentials as describe;
use kaas::api::endpoint_type;
use kaas::api::mechanism;
use kaas::api::metadata;
use kaas::api::registry::{is_registered, lookup, whole, ApiSpec, HeaderRule, KEYS};

// The registry.

// One row for each request kind. What the versions of the kinds other than
// Metadata and ApiVersions are does not matter here.
fn table() -> Vec<ApiSpec> {
    let keys = [
        0, 1, 2, 3, 8, 9, 10, 11, 12, 13, 14, 15, 16, 17, 22, 24, 25, 26, 27, 28, 36, 18, 42, 47, 32, 37, 19, 44, 48, 49, 20, 21, 29, 30, 31, 34,
        35,
    ];
    let header = HeaderRule { before: HeaderVersion::V1, from: HeaderVersion::V2, switch_at: 3 };
    keys.iter()
        .map(|&key| match key {
            3 => metadata::spec(),
            18 => ApiSpec { key, min_version: 0, max_version: 4, min_flexible: Some(3), request_hdr: header, response_hdr: header },
            _ => ApiSpec { key, min_version: 0, max_version: key, min_flexible: None, request_hdr: header, response_hdr: header },
        })
        .collect()
}

#[test]
fn lookup_returns_known_key() {
    let spec = lookup(&table(), 18).expect("ApiVersions seeded in ALL");
    assert_eq!(spec.key, 18);
    assert_eq!(spec.min_version, 0);
    assert_eq!(spec.max_version, 4);
    assert_eq!(spec.min_flexible, Some(3));
}

#[test]
fn lookup_returns_none_for_unknown_key() {
    assert!(lookup(&table(), 999).is_none());
}

#[test]
fn flex_predicate() {
    let spec = lookup(&table(), 18).expect("seeded");
    assert!(!spec.is_flexible(2));
    assert!(spec.is_flexible(3));
    assert!(spec.is_flexible(4));
}

#[test]
fn registry_size_phase7() {
    let all = table();
    assert!(whole(&all), "the table is the broker's");
    assert_eq!(all.len(), 37);
    let mut keys: Vec<i16> = all.iter().map(|s| s.key).collect();
    keys.sort_unstable();
    assert_eq!(
        keys,
        vec![
            0, 1, 2, 3, 8, 9, 10, 11, 12, 13, 14, 15, 16, 17, 18, 19, 20, 21, 22, 24, 25, 26, 27, 28, 29, 30, 31, 32, 34, 35, 36, 37, 42, 44, 47,
            48, 49,
        ]
    );
    assert_eq!(keys, KEYS.to_vec());
    for key in -1..=100 {
        let found = lookup(&all, key);
        assert_eq!(found.is_some(), keys.contains(&key));
        assert_eq!(is_registered(key), keys.contains(&key));
        if let Some(s) = found {
            assert_eq!(s.key, key);
        }
    }
}

#[test]
fn a_table_with_a_gap_is_not_whole() {
    assert!(!whole(&[]));
    assert!(!whole(&table()[1..]));
    let mut twice = table();
    twice[0] = twice[1];
    assert!(!whole(&twice), "a kind stands twice and another is missing");
    let mut other = table();
    other[21].max_version = 5;
    assert!(!whole(&other), "ApiVersions goes up to version 4");
    let mut foreign = table();
    foreign[0].key = 23;
    assert!(!whole(&foreign));
}

#[test]
fn the_row_of_metadata_is_known() {
    let m = lookup(&table(), 3).unwrap();
    assert_eq!((m.min_version, m.max_version), (1, 10));
    assert_eq!(m.min_flexible, Some(9));
    assert_eq!(m.request_hdr.at(8), HeaderVersion::V1);
    assert_eq!(m.request_hdr.at(9), HeaderVersion::V2);
    assert_eq!(m.response_hdr.at(8), HeaderVersion::V1);
    assert_eq!(m.response_hdr.at(9), HeaderVersion::V2);
}

// DescribeCluster.

fn cluster_request() -> cluster::Request {
    cluster::Request {
        include_cluster_authorized_operations: true,
        endpoint_type: endpoint_type::BROKER,
        include_fenced_brokers: false,
    }
}

fn roundtrip(version: i16) {
    let req = cluster::Request {
        include_cluster_authorized_operations: true,
        endpoint_type: endpoint_type::BROKER,
        include_fenced_brokers: version >= 2,
    };
    let mut w = BytesMut::new();
    cluster::encode_request(&mut w, &req, version).unwrap();
    let mut r = w.freeze();
    assert_eq!(cluster::decode_request(&mut r, version).unwrap(), req, "request v{version}");
    assert!(r.is_empty());

    let resp = cluster::Response {
        throttle_time_ms: 0,
        error_code: 0,
        error_message: None,
        endpoint_type: endpoint_type::BROKER,
        cluster_id: "kaas-dev".into(),
        controller_id: 1,
        brokers: vec![
            cluster::Broker {
                broker_id: 0,
                host: "kaas-0.kaas-brokers".into(),
                port: 9092,
                rack: None,
                is_fenced: false,
            },
            cluster::Broker {
                broker_id: 1,
                host: "kaas-1.kaas-brokers".into(),
                port: 9092,
                rack: Some("zone-a".into()),
                is_fenced: version >= 2,
            },
        ],
        cluster_authorized_operations: 0b1010,
    };
    let mut w = BytesMut::new();
    cluster::encode_response(&mut w, &resp, version).unwrap();
    let mut r = w.freeze();
    let got = cluster::decode_response(&mut r, version).unwrap();
    assert_eq!(got, resp, "response v{version}");
    assert!(r.is_empty());
}

#[test]
fn all_versions_roundtrip() {
    for v in cluster::VERSIONS.0..=cluster::VERSIONS.1 {
        roundtrip(v);
    }
}

#[test]
fn endpoint_type_is_v1_gated() {
    let req = cluster::Request {
        include_cluster_authorized_operations: false,
        endpoint_type: endpoint_type::CONTROLLER,
        include_fenced_brokers: false,
    };
    let mut w = BytesMut::new();
    cluster::encode_request(&mut w, &req, 0).unwrap();
    assert_eq!(&w[..], &[0u8, 0u8]);
    let mut r = w.freeze();
    assert_eq!(cluster::decode_request(&mut r, 0).unwrap().endpoint_type, endpoint_type::BROKER);

    let mut w = BytesMut::new();
    cluster::encode_request(&mut w, &req, 1).unwrap();
    let mut r = w.freeze();
    assert_eq!(cluster::decode_request(&mut r, 1).unwrap().endpoint_type, endpoint_type::CONTROLLER);
}

#[test]
fn fenced_fields_are_v2_gated() {
    let resp = cluster::Response {
        cluster_id: "kaas-dev".into(),
        brokers: vec![cluster::Broker {
            broker_id: 1,
            host: "kaas-1".into(),
            port: 9092,
            rack: None,
            is_fenced: true,
        }],
        ..Default::default()
    };
    for v in [0, 1] {
        let mut w = BytesMut::new();
        cluster::encode_response(&mut w, &resp, v).unwrap();
        let got = cluster::decode_response(&mut w.freeze(), v).unwrap();
        assert!(!got.brokers[0].is_fenced, "v{v} carries no IsFenced");
    }
    let mut w = BytesMut::new();
    cluster::encode_response(&mut w, &resp, 2).unwrap();
    let got = cluster::decode_response(&mut w.freeze(), 2).unwrap();
    assert!(got.brokers[0].is_fenced);

    let req = cluster::Request {
        include_fenced_brokers: true,
        ..Default::default()
    };
    let mut w = BytesMut::new();
    cluster::encode_request(&mut w, &req, 1).unwrap();
    let got = cluster::decode_request(&mut w.freeze(), 1).unwrap();
    assert!(!got.include_fenced_brokers);
    let mut w = BytesMut::new();
    cluster::encode_request(&mut w, &req, 2).unwrap();
    let got = cluster::decode_request(&mut w.freeze(), 2).unwrap();
    assert!(got.include_fenced_brokers);
}

#[test]
fn not_requested_sentinel_survives() {
    let resp = cluster::Response {
        cluster_id: "kaas-dev".into(),
        ..Default::default()
    };
    assert_eq!(resp.cluster_authorized_operations, cluster::NOT_REQUESTED);
    let mut w = BytesMut::new();
    cluster::encode_response(&mut w, &resp, 1).unwrap();
    let got = cluster::decode_response(&mut w.freeze(), 1).unwrap();
    assert_eq!(got.cluster_authorized_operations, i32::MIN);
}

#[test]
fn headers_are_flexible_from_v0() {
    assert!(cluster::spec().is_flexible(0));
    assert_eq!(cluster::request_hdr(0), HeaderVersion::V2);
    assert_eq!(cluster::response_hdr(0), HeaderVersion::V1);
}

#[test]
fn truncated_cluster_request_is_refused() {
    let mut w = BytesMut::new();
    cluster::encode_request(&mut w, &cluster_request(), 2).unwrap();
    let whole = w.freeze();
    for n in 0..whole.len() {
        let mut part = whole.slice(0..n);
        assert_eq!(cluster::decode_request(&mut part, 2), Err(CodecError::UnexpectedEof), "{n} bytes");
    }
}

// AlterUserScramCredentials.

#[test]
fn request_round_trips() {
    let req = alter::Request {
        deletions: vec![alter::ScramCredentialDeletion {
            name: "old".into(),
            mechanism: mechanism::SCRAM_SHA_512,
        }],
        upsertions: vec![alter::ScramCredentialUpsertion {
            name: "alice".into(),
            mechanism: mechanism::SCRAM_SHA_512,
            iterations: 4096,
            salt: vec![1, 2, 3, 4],
            salted_password: vec![9; 64],
        }],
    };
    let mut buf = BytesMut::new();
    alter::encode_request(&mut buf, &req, 0).unwrap();
    let mut b = buf.freeze();
    assert_eq!(alter::decode_request(&mut b, 0).unwrap(), req);
    assert!(b.is_empty());
}

#[test]
fn alter_user_scram_credentials_response_round_trips() {
    let resp = alter::Response {
        throttle_time_ms: 0,
        results: vec![alter::AlterUserResult {
            user: "alice".into(),
            error_code: 0,
            error_message: None,
        }],
    };
    let mut buf = BytesMut::new();
    alter::encode_response(&mut buf, &resp, 0).unwrap();
    let mut b = buf.freeze();
    assert_eq!(alter::decode_response(&mut b, 0).unwrap(), resp);
    assert!(b.is_empty());
}

#[test]
fn alter_response_bytes_are_pinned() {
    let resp = alter::Response {
        throttle_time_ms: 258,
        results: vec![alter::AlterUserResult {
            user: "al".into(),
            error_code: -1,
            error_message: Some("no".into()),
        }],
    };
    let mut buf = BytesMut::new();
    alter::encode_response(&mut buf, &resp, 0).unwrap();
    assert_eq!(&buf[..], &[0, 0, 1, 2, 2, 3, b'a', b'l', 0xff, 0xff, 3, b'n', b'o', 0, 0]);
}

// DescribeUserScramCredentials.

#[test]
fn null_users_round_trips_distinct_from_empty() {
    for req in [
        describe::Request { users: None },
        describe::Request { users: Some(vec![]) },
        describe::Request {
            users: Some(vec!["alice".into(), "bob".into()]),
        },
    ] {
        let mut buf = BytesMut::new();
        describe::encode_request(&mut buf, &req, 0).unwrap();
        let mut b = buf.freeze();
        let got = describe::decode_request(&mut b, 0).unwrap();
        assert_eq!(got, req);
        assert!(b.is_empty());
    }
}

#[test]
fn describe_user_scram_credentials_response_round_trips() {
    let resp = describe::Response {
        throttle_time_ms: 0,
        error_code: 0,
        error_message: None,
        results: vec![describe::DescribeUserResult {
            user: "alice".into(),
            error_code: 0,
            error_message: None,
            credential_infos: vec![describe::CredentialInfo {
                mechanism: mechanism::SCRAM_SHA_512,
                iterations: 4096,
            }],
        }],
    };
    let mut buf = BytesMut::new();
    describe::encode_response(&mut buf, &resp, 0).unwrap();
    let mut b = buf.freeze();
    assert_eq!(describe::decode_response(&mut b, 0).unwrap(), resp);
    assert!(b.is_empty());
}

// Metadata.

fn sample_request(version: i16) -> metadata::Request {
    metadata::Request {
        topics: vec!["events".to_owned(), "audit".to_owned()],
        allow_auto_topic_creation: true,
        include_cluster_authorized_operations: (8..=10).contains(&version),
        include_topic_authorized_operations: version >= 8,
    }
}

fn sample_response(version: i16) -> metadata::Response {
    metadata::Response {
        throttle_time_ms: 0,
        brokers: vec![metadata::Broker {
            node_id: 0,
            host: "broker-0.cluster.local".to_owned(),
            port: 9092,
            rack: if version >= 1 { Some("rack-a".to_owned()) } else { None },
        }],
        cluster_id: if version >= 2 { Some("kaas-rust-dev".to_owned()) } else { None },
        controller_id: if version >= 1 { 0 } else { -1 },
        topics: vec![metadata::Topic {
            error_code: 0,
            name: "events".to_owned(),
            topic_id: if version >= 10 { [1; 16] } else { metadata::NULL_TOPIC_ID },
            is_internal: false,
            partitions: vec![metadata::Partition {
                error_code: 0,
                partition_index: 0,
                leader_id: 0,
                leader_epoch: if version >= 7 { 5 } else { -1 },
                replica_nodes: vec![0],
                isr_nodes: vec![0],
                offline_replicas: Vec::new(),
            }],
            topic_authorized_operations: 0,
        }],
        cluster_authorized_operations: 0,
    }
}

fn encode_request(req: &metadata::Request, version: i16) -> BytesMut {
    let flexible = version >= metadata::MIN_FLEXIBLE;
    let mut w = BytesMut::new();
    write_array_len(&mut w, req.topics.len(), flexible).unwrap();
    for name in &req.topics {
        if flexible && version >= 10 {
            write_uuid(&mut w, &metadata::NULL_TOPIC_ID);
            write_nullable_str(&mut w, &Some(name.clone()), true).unwrap();
        } else {
            write_str(&mut w, name, flexible).unwrap();
        }
        write_tagged(&mut w, flexible);
    }
    if version >= 4 {
        write_i8(&mut w, i8::from(req.allow_auto_topic_creation));
    }
    if (8..=10).contains(&version) {
        write_i8(&mut w, i8::from(req.include_cluster_authorized_operations));
    }
    if version >= 8 {
        write_i8(&mut w, i8::from(req.include_topic_authorized_operations));
    }
    write_tagged(&mut w, flexible);
    w
}

fn roundtrip_request(version: i16) {
    let req = sample_request(version);
    let w = encode_request(&req, version);
    let mut r = w.freeze();
    let got = metadata::decode_request(&mut r, version).unwrap();
    assert_eq!(got, req, "request v{version}");
    assert!(r.is_empty());
}

fn roundtrip_response(version: i16) {
    let resp = sample_response(version);
    let mut w = BytesMut::new();
    metadata::encode_response(&mut w, &resp, version).unwrap();
    let mut r = w.freeze();
    let got = metadata::decode_response(&mut r, version).unwrap();
    assert_eq!(got, resp, "response v{version}");
    assert!(r.is_empty());
}

#[test]
fn request_v1_roundtrip() {
    roundtrip_request(1);
}

#[test]
fn request_v4_auto_create_present() {
    roundtrip_request(4);
}

#[test]
fn request_below_v4_defaults_auto_create_true() {
    let w = encode_request(
        &metadata::Request {
            topics: vec!["events".to_owned()],
            allow_auto_topic_creation: false,
            include_cluster_authorized_operations: false,
            include_topic_authorized_operations: false,
        },
        3,
    );
    let mut r = w.freeze();
    assert!(metadata::decode_request(&mut r, 3).unwrap().allow_auto_topic_creation);
}

#[test]
fn request_v4_auto_create_false_is_preserved() {
    let w = encode_request(
        &metadata::Request {
            topics: vec!["events".to_owned()],
            allow_auto_topic_creation: false,
            include_cluster_authorized_operations: false,
            include_topic_authorized_operations: false,
        },
        4,
    );
    let mut r = w.freeze();
    assert!(!metadata::decode_request(&mut r, 4).unwrap().allow_auto_topic_creation);
}

#[test]
fn request_v8_authz_flags_present() {
    roundtrip_request(8);
}

#[test]
fn request_v9_flexible_roundtrip() {
    roundtrip_request(9);
}

#[test]
fn request_v10_topic_id_skipped_on_decode() {
    roundtrip_request(10);
}

#[test]
fn response_v1_roundtrip() {
    roundtrip_response(1);
}

#[test]
fn response_v3_throttle_present() {
    roundtrip_response(3);
}

#[test]
fn response_v5_offline_replicas_present() {
    roundtrip_response(5);
}

#[test]
fn response_v7_leader_epoch_present() {
    roundtrip_response(7);
}

#[test]
fn response_v8_authz_ops_present() {
    roundtrip_response(8);
}

#[test]
fn response_v9_flexible_roundtrip() {
    roundtrip_response(9);
}

#[test]
fn response_v10_topic_id_roundtrip() {
    let mut resp = sample_response(10);
    resp.topics[0].topic_id = [0xab; 16];
    let mut w = BytesMut::new();
    metadata::encode_response(&mut w, &resp, 10).unwrap();
    let mut r = w.freeze();
    let got = metadata::decode_response(&mut r, 10).unwrap();
    assert_eq!(got.topics[0].topic_id, [0xab; 16]);
}

#[test]
fn null_cluster_id_roundtrips() {
    let mut resp = sample_response(9);
    resp.cluster_id = None;
    let mut w = BytesMut::new();
    metadata::encode_response(&mut w, &resp, 9).unwrap();
    let mut r = w.freeze();
    let got = metadata::decode_response(&mut r, 9).unwrap();
    assert_eq!(got.cluster_id, None);
}

#[test]
fn metadata_request_bytes_are_pinned() {
    // Two names, no auto-create byte below version 4.
    let mut r = Bytes::from_static(&[0, 0, 0, 2, 0, 1, b'a', 0, 2, b'b', b'c']);
    let got = metadata::decode_request(&mut r, 1).unwrap();
    assert_eq!(got.topics, vec!["a".to_owned(), "bc".to_owned()]);
    assert!(got.allow_auto_topic_creation);
    assert!(r.is_empty());
}

// Primitives.

#[test]
fn big_endian_numbers() {
    let mut w = BytesMut::new();
    write_i8(&mut w, -2);
    write_i16(&mut w, -2);
    write_i32(&mut w, 0x0102_0304);
    assert_eq!(&w[..], &[0xfe, 0xff, 0xfe, 1, 2, 3, 4]);
    let mut r = w.freeze();
    assert_eq!(read_i8(&mut r), Ok(-2));
    assert_eq!(read_i16(&mut r), Ok(-2));
    assert_eq!(read_i32(&mut r), Ok(0x0102_0304));
    assert_eq!(read_u8(&mut r), Err(CodecError::UnexpectedEof));
}

#[test]
fn uvarint_is_seven_bits_at_a_time() {
    let mut w = BytesMut::new();
    write_uvarint(&mut w, 300);
    assert_eq!(&w[..], &[0xac, 0x02]);
    let mut r = w.freeze();
    assert_eq!(read_uvarint(&mut r), Ok(300));
    let mut endless = Bytes::from_static(&[0x80; 11]);
    assert_eq!(read_uvarint(&mut endless), Err(CodecError::InvalidUvarint));
    let mut cut = Bytes::from_static(&[0x80]);
    assert_eq!(read_uvarint(&mut cut), Err(CodecError::UnexpectedEof));
}

#[test]
fn strings_and_null() {
    for flexible in [false, true] {
        let mut w = BytesMut::new();
        write_str(&mut w, "näme", flexible).unwrap();
        write_nullable_str(&mut w, &None, flexible).unwrap();
        write_nullable_str(&mut w, &Some(String::new()), flexible).unwrap();
        write_bytes(&mut w, &[1, 2, 3], flexible).unwrap();
        write_uuid(&mut w, &[7; 16]);
        let mut r = w.freeze();
        assert_eq!(read_str(&mut r, flexible), Ok("näme".to_owned()));
        assert_eq!(read_nullable_str(&mut r, flexible), Ok(None));
        assert_eq!(read_nullable_str(&mut r, flexible), Ok(Some(String::new())));
        assert_eq!(read_bytes(&mut r, flexible), Ok(vec![1, 2, 3]));
        assert_eq!(read_uuid(&mut r), Ok([7; 16]));
        assert!(r.is_empty());
    }
}

#[test]
fn bad_text_and_bad_lengths_are_refused() {
    let mut bad = Bytes::from_static(&[0, 1, 0xff]);
    assert_eq!(read_str(&mut bad, false), Err(CodecError::InvalidUtf8));
    let mut null = Bytes::from_static(&[0xff, 0xff]);
    assert_eq!(read_str(&mut null, false), Err(CodecError::InvalidLength));
    let mut short = Bytes::from_static(&[0, 5, b'a']);
    assert_eq!(read_str(&mut short, false), Err(CodecError::UnexpectedEof));
    let mut raw = Bytes::from_static(&[1, 2, 3]);
    assert_eq!(read_raw(&mut raw, 2), Ok(vec![1, 2]));
    assert_eq!(read_raw(&mut raw, 2), Err(CodecError::UnexpectedEof));
}

#[test]
fn tagged_fields_are_skipped() {
    // One field, tag 5, two bytes long; then a byte that is left over.
    let mut r = Bytes::from_static(&[1, 5, 2, 9, 9, 42]);
    assert_eq!(read_tagged(&mut r, true), Ok(()));
    assert_eq!(read_u8(&mut r), Ok(42));
    let mut none = Bytes::from_static(&[42]);
    assert_eq!(read_tagged(&mut none, false), Ok(()));
    assert_eq!(read_bool(&mut none), Ok(true));
}

#[test]
fn array_lengths() {
    for (flexible, bytes) in [(false, vec![0u8, 0, 0, 3]), (true, vec![4u8])] {
        let mut w = BytesMut::new();
        write_array_len(&mut w, 3, flexible).unwrap();
        assert_eq!(w.to_vec(), bytes);
        let mut r = w.freeze();
        assert_eq!(read_array_len(&mut r, flexible), Ok(3));
    }
}

#[test]
fn topic_ids_in_requests_are_ignored() {
    let request = |id: [u8; 16]| {
        let mut w = BytesMut::new();
        write_array_len(&mut w, 4, true).unwrap();
        for name in [Some("a".to_owned()), None, Some(String::new()), Some("b".to_owned())] {
            write_uuid(&mut w, &id);
            write_nullable_str(&mut w, &name, true).unwrap();
            write_tagged(&mut w, true);
        }
        write_i8(&mut w, 1);
        write_i8(&mut w, 0);
        write_i8(&mut w, 1);
        write_tagged(&mut w, true);
        w.freeze()
    };
    let mut plain = request(metadata::NULL_TOPIC_ID);
    let mut other = request([0xa5; 16]);
    let want = metadata::decode_request(&mut plain, 10).unwrap();
    assert_eq!(metadata::decode_request(&mut other, 10).unwrap(), want);
    assert!(plain.is_empty() && other.is_empty());
    assert_eq!(want.topics, vec!["a".to_owned(), "b".to_owned()]);
    assert!(want.allow_auto_topic_creation && !want.include_cluster_authorized_operations && want.include_topic_authorized_operations);
}

#[test]
fn a_broker_is_empty_by_default() {
    let b = cluster::Broker::default();
    assert_eq!((b.broker_id, b.host.as_str(), b.port, b.rack, b.is_fenced), (0, "", 0, None, false));
}
