use kaas::json_object::ConfigValue;
use kaas::kafkauser::{KafkaUserAuthentication, KafkaUserSpec, GROUP, VERSION};
use kaas::topic_cr_writer::{
    build_cr, check_expansion, config_key_to_json_field, config_value_to_json, create_configs_to_spec, effective_topic_name, name_for_cr,
    ops_to_config_patch, placement_patch, synthetic_name, topic_write_error, ArgoCdConfig, ConfigOp, ConfigOpKind, ConfigOpWithValue,
    NoopTopicCRWriter, TopicCRWriter, TopicCall, TopicWriteError,
};
use kaas::user_cr_writer::{check_target, scram_patch, user_write_error, ScramCredentialSpec, UserWriteError};
use serde_json::Value;

fn argo() -> ArgoCdConfig {
    ArgoCdConfig {
        enabled: true,
        application_name: "kaas".into(),
        compare_options: "IgnoreExtraneous".into(),
        sync_options: "Delete=false".into(),
    }
}

#[test]
fn default_config_mints_plain_crs() {
    let cr = build_cr("kaas", &ArgoCdConfig::default(), "orders", 1, &[]).ok().expect("build");
    assert!(cr.annotations.is_none(), "a plain installation sees no marks");
}

#[test]
fn argocd_config_stamps_tracking_and_coexistence_annotations() {
    let cr = build_cr("kaas", &argo(), "orders", 1, &[]).ok().expect("build");
    let ann = cr.annotations.expect("annotations present");
    assert_eq!(
        ann.get("argocd.argoproj.io/tracking-id").map(String::as_str),
        Some("kaas:kaas.rs/KafkaTopic:kaas/orders")
    );
    assert_eq!(ann.get("argocd.argoproj.io/compare-options").map(String::as_str), Some("IgnoreExtraneous"));
    assert_eq!(ann.get("argocd.argoproj.io/sync-options").map(String::as_str), Some("Delete=false"));
}

#[test]
fn tracking_id_uses_the_synthesised_meta_name() {
    let kafka_name = "app-KSTREAM-AGGREGATE-STATE-STORE-repartition";
    let cr = build_cr("kaas", &argo(), kafka_name, 1, &[]).ok().expect("build");
    let (meta_name, _) = name_for_cr(kafka_name);
    assert!(meta_name.starts_with("kaas-topic-"), "precondition");
    let ann = cr.annotations.expect("annotations present");
    assert_eq!(
        ann.get("argocd.argoproj.io/tracking-id").map(String::as_str),
        Some(format!("kaas:kaas.rs/KafkaTopic:kaas/{meta_name}").as_str())
    );
}

#[test]
fn config_key_to_json_field_matches_known_keys() {
    assert_eq!(config_key_to_json_field("retention.ms"), Some("retentionMs"));
    assert_eq!(config_key_to_json_field("retentionMs"), Some("retentionMs"));
    assert_eq!(config_key_to_json_field("cleanup.policy"), Some("cleanupPolicy"));
    assert_eq!(config_key_to_json_field("min.compaction.lag.ms"), Some("minCompactionLagMs"));
    assert_eq!(config_key_to_json_field("unknown.key"), None);
}

#[test]
fn config_value_parses_integer_fields() {
    assert_eq!(config_value_to_json("retention.ms", "60000").unwrap(), ConfigValue::Number(60_000));
    assert_eq!(config_value_to_json("cleanup.policy", "compact").unwrap(), ConfigValue::Text("compact".into()));
    assert!(matches!(config_value_to_json("retention.ms", "huh"), Err(TopicWriteError::InvalidConfig(_))));
    assert!(matches!(config_value_to_json("cleanup.policy", "vacuum"), Err(TopicWriteError::InvalidConfig(_))));
}

#[test]
fn create_configs_land_in_spec_config_fields() {
    let spec = create_configs_to_spec(&[
        ("retention.ms".into(), "600000".into()),
        ("segment.bytes".into(), "16777216".into()),
        ("cleanup.policy".into(), "compact".into()),
    ])
    .unwrap();
    assert_eq!(spec["retentionMs"], Value::Number(600_000_i64.into()));
    assert_eq!(spec["segmentBytes"], Value::Number(16_777_216_i64.into()));
    assert_eq!(spec["cleanupPolicy"], Value::String("compact".into()));
}

#[test]
fn flush_messages_is_a_supported_create_config() {
    let spec = create_configs_to_spec(&[("flush.messages".into(), "1".into())]).unwrap();
    assert_eq!(spec["flushMessages"], Value::Number(1_i64.into()));
}

#[test]
fn create_config_with_unknown_key_is_invalid_config() {
    let err = create_configs_to_spec(&[("max.message.bytes".into(), "1000".into())]).unwrap_err();
    assert!(matches!(err, TopicWriteError::InvalidConfig(_)));
}

fn op(key: &str, kind: ConfigOpKind, value: Option<&str>) -> ConfigOpWithValue {
    ConfigOpWithValue { key: key.into(), kind, value: value.map(str::to_owned) }
}

#[test]
fn alter_ops_map_set_and_delete() {
    let patch = ops_to_config_patch(&[
        op("retention.ms", ConfigOpKind::SetTo, Some("1200000")),
        op("segment.ms", ConfigOpKind::Delete, None),
    ])
    .unwrap();
    assert_eq!(patch["retentionMs"], Value::Number(1_200_000_i64.into()));
    assert_eq!(patch["segmentMs"], Value::Null);
}

#[test]
fn alter_op_on_unknown_key_is_invalid_config() {
    let err = ops_to_config_patch(&[op("max.message.bytes", ConfigOpKind::SetTo, Some("1000"))]).unwrap_err();
    assert!(matches!(err, TopicWriteError::InvalidConfig(_)));
}

#[test]
fn noop_writer_returns_forbidden() {
    let w = NoopTopicCRWriter;
    let err = w.expand_topic("x", 4).unwrap_err();
    assert!(matches!(err, TopicWriteError::Forbidden(_)));
    let err = w.update_topic_config("x", &[op("retention.ms", ConfigOpKind::SetTo, Some("1000"))]).unwrap_err();
    assert!(matches!(err, TopicWriteError::Forbidden(_)));
    assert!(w.create_topic("x", 1, &[]).is_err());
    assert!(w.delete_topic("x").is_err());
    assert_eq!(
        w.set_partition_log_dir("x", 0, "d").unwrap_err().message(),
        "forbidden: broker is not running in cluster mode"
    );
}

#[test]
fn lists_cannot_be_altered_and_the_last_change_counts() {
    let err = ops_to_config_patch(&[op("retention.ms", ConfigOpKind::Append, Some("1"))]).unwrap_err();
    assert_eq!(err, TopicWriteError::UnsupportedOp(ConfigOpKind::Append));
    assert_eq!(err.message(), "unsupported config op: Append");
    let patch = ops_to_config_patch(&[
        op("retentionMs", ConfigOpKind::SetTo, Some("1")),
        op("retention.ms", ConfigOpKind::SetTo, None),
    ])
    .unwrap();
    assert_eq!(patch.len(), 1);
    assert_eq!(patch["retentionMs"], Value::Null);
    assert_eq!(ConfigOp::set("k".into(), "v".into()).kind, ConfigOpKind::SetTo);
    assert_eq!(ConfigOp::delete("k".into()).kind, ConfigOpKind::Delete);
}

#[test]
fn refusals_quote_the_value() {
    assert_eq!(
        config_value_to_json("retention.ms", "a\"b").unwrap_err().message(),
        "invalid config: retention.ms: not an integer: \"a\\\"b\""
    );
    assert_eq!(
        config_value_to_json("cleanup.policy", "vacuum").unwrap_err().message(),
        "invalid config: cleanup.policy: must be delete, compact, or compact,delete; got \"vacuum\""
    );
    assert_eq!(config_value_to_json("x", "1").unwrap_err().message(), "invalid config: unknown config key: x");
    assert_eq!(config_value_to_json("segmentMs", "-9223372036854775808").unwrap(), ConfigValue::Number(i64::MIN));
    assert!(config_value_to_json("segmentMs", "9223372036854775808").is_err());
    assert_eq!(config_value_to_json("segmentMs", "+7").unwrap(), ConfigValue::Number(7));
    assert!(config_value_to_json("segmentMs", "").is_err());
}

#[test]
fn names_of_resources() {
    assert_eq!(name_for_cr("orders.v1"), ("orders.v1".to_owned(), String::new()));
    for odd in ["Orders", "-a", "a-", "a..b", ".a", "a.", "a_b", "", "a-.b", "ä"] {
        let (name, topic) = name_for_cr(odd);
        assert_eq!(topic, odd);
        assert!(name.starts_with("kaas-topic-") && name.len() == 27, "{name}");
    }
    let long = "a".repeat(254);
    assert_eq!(name_for_cr(&long).1, long);
    let fits = "a".repeat(253);
    assert_eq!(name_for_cr(&fits), (fits.clone(), String::new()));
    // SHA-1 of the empty text begins da39a3ee5e6b4b0d.
    assert_eq!(name_for_cr("").0, "kaas-topic-da39a3ee5e6b4b0d");
    assert_eq!(synthetic_name(&[0, 1, 0x9f, 0xa0, 0xff, 16, 2, 3, 4]), "kaas-topic-00019fa0ff100203");
}

#[test]
fn kafkatopic_effective_topic_name_falls_back_to_metadata_name() {
    assert_eq!(effective_topic_name("topic-name-from-meta", "explicit-Kafka-Name"), "explicit-Kafka-Name");
    assert_eq!(effective_topic_name("only-meta", ""), "only-meta");
}

#[test]
fn group_and_version() {
    assert_eq!(GROUP, "kaas.rs");
    assert_eq!(VERSION, "v1alpha1");
}

#[test]
fn declarations_carry_the_settings() {
    let cr = build_cr("ns", &ArgoCdConfig::default(), "Orders", 3, &[("retention.ms".into(), "5".into())]).ok().unwrap();
    assert_eq!((cr.namespace.as_str(), cr.topic_name.as_str(), cr.partitions), ("ns", "Orders", 3));
    assert_eq!(cr.config["retentionMs"], Value::Number(5_i64.into()));
    assert!(build_cr("ns", &ArgoCdConfig::default(), "t", 3, &[("nope".into(), "5".into())]).is_err());
    assert_eq!(placement_patch(3, "dir-b")["3"], Value::String("dir-b".into()));
}

#[test]
fn partitions_are_not_taken_away() {
    assert!(check_expansion(3, 3).is_ok());
    assert_eq!(
        check_expansion(4, 3).unwrap_err().message(),
        "invalid partitions: current 4 → requested 3"
    );
}

#[test]
fn refusals_of_the_server() {
    let e = |c, code| topic_write_error(c, "t", code, "msg", "shown");
    assert_eq!(e(TopicCall::Create, Some(409)), TopicWriteError::AlreadyExists("t".into()));
    assert_eq!(e(TopicCall::Named, Some(404)), TopicWriteError::NotFound("t".into()));
    assert_eq!(e(TopicCall::Expand, Some(404)), TopicWriteError::NotFound("msg".into()));
    assert_eq!(e(TopicCall::Named, Some(403)), TopicWriteError::Forbidden("msg".into()));
    assert_eq!(e(TopicCall::Named, Some(409)), TopicWriteError::Other("shown".into()));
    assert_eq!(e(TopicCall::Named, None), TopicWriteError::Other("shown".into()));
    assert_eq!(user_write_error("u", Some(404), "msg", "shown"), UserWriteError::NotFound("u".into()));
    assert_eq!(user_write_error("u", Some(403), "msg", "shown"), UserWriteError::Forbidden("msg".into()));
    assert_eq!(user_write_error("u", None, "msg", "shown").message(), "other: shown");
}

fn user(kind: Option<&str>) -> KafkaUserSpec {
    KafkaUserSpec {
        authentication: kind.map(|k| KafkaUserAuthentication {
            kind: k.to_owned(),
            password: None,
            scram: None,
            certificate_ref: None,
            service_account_ref: None,
        }),
        authorization: None,
        quotas: None,
    }
}

#[test]
fn only_scram_users_are_rotated() {
    assert!(check_target("u", &user(Some("scram-sha-512"))).is_ok());
    assert!(check_target("u", &user(Some(""))).is_ok());
    assert_eq!(
        check_target("u", &user(Some("tls"))).unwrap_err().message(),
        "invalid target: KafkaUser u has authentication.type \"tls\"; SCRAM credential rotation applies to scram-sha-512 users only"
    );
    assert_eq!(
        check_target("u", &user(None)).unwrap_err().message(),
        "invalid target: KafkaUser u is authorization-only (no authentication); SCRAM credential rotation applies to scram-sha-512 users only"
    );
}

#[test]
fn credentials_are_written_in_base64() {
    let p = scram_patch(&ScramCredentialSpec {
        salt: b"f".to_vec(),
        stored_key: b"fo".to_vec(),
        server_key: b"foobar".to_vec(),
        iterations: 4096,
    });
    assert_eq!(p.salt, "Zg==");
    assert_eq!(p.stored_key, "Zm8=");
    assert_eq!(p.server_key, "Zm9vYmFy");
    assert_eq!(p.iterations, 4096);
    let q = scram_patch(&ScramCredentialSpec { salt: vec![0xfb, 0xff, 0xbf], stored_key: vec![], server_key: vec![0], iterations: 1 });
    assert_eq!(q.salt, "+/+/");
    assert_eq!(q.stored_key, "");
    assert_eq!(q.server_key, "AA==");
}

#[test]
fn the_refusing_writer_is_there_by_default() {
    assert!(NoopTopicCRWriter::default().delete_topic("t").is_err());
}
