use kaas::bootstrap::{duration_unit, ensure_scheme, export_endpoint, resource_attributes, split_num_unit, DurationUnit};
use kaas::config_type;
use kaas::endpoints::{parse_ordinal, BrokerEndpoint, BrokerRegistry, DnsConfig, EndpointSliceData, EndpointSliceEntry};
use kaas::health::{
    compute_ready, health_state, is_draining, main_alive, mark_draining, pos_i64, ready, ready_status, record_main_tick, set_ready, HealthGate,
    RuntimeSnapshot, MAIN_LIVENESS_THRESHOLD_MS,
};
use kaas::keyed::TextMap;
use kaas::listener_advert::{advertised_brokers, controller_id, trailing_ordinal, BindAddr, BrokerNode, ListenerAdvert, ListenerAdverts, ListenerEntry};
use kaas::topic_config_defaults::{all_keys, default_retention_ms, lookup};
use kaas::topic_registry::{
    ConfigError, PlacementResolver, TopicIdentityResolver, TopicIncarnation, TopicMeta, TopicRegistry, TopicSeedEntry,
};

// Listeners.

fn listener(name: &str, ip: &str, port: u16, unspecified: bool, advertised: Option<&str>) -> ListenerEntry {
    ListenerEntry {
        name: name.to_owned(),
        addr: Some(BindAddr { ip: ip.to_owned(), port, unspecified }),
        advertised_host: advertised.map(str::to_owned),
    }
}

#[test]
fn wildcard_bind_advertises_localhost() {
    let a = ListenerAdverts::new(&[listener("internal", "0.0.0.0", 9092, true, None)]);
    let got = a.for_listener("internal");
    assert_eq!(got.host, "127.0.0.1");
    assert_eq!(got.port, 9092);
}

#[test]
fn advertised_host_wins_over_bind_addr() {
    let a = ListenerAdverts::new(&[listener("external", "0.0.0.0", 9094, true, Some("broker-0.example.com"))]);
    assert_eq!(a.for_listener("external").host, "broker-0.example.com");
}

#[test]
fn unknown_listener_falls_back_to_the_first() {
    let a = ListenerAdverts::new(&[
        listener("internal", "0.0.0.0", 9092, true, None),
        listener("authed", "0.0.0.0", 9095, true, None),
    ]);
    assert_eq!(a.for_listener("nonexistent").port, 9092);
}

#[test]
fn empty_listener_table_still_answers() {
    let a = ListenerAdverts::new(&[]);
    let got = a.for_listener("internal");
    assert_eq!((got.host.as_str(), got.port), ("127.0.0.1", 9092));
}

#[test]
fn ordinal_parses_off_the_right() {
    assert_eq!(trailing_ordinal("kaas-2"), Some(2));
    assert_eq!(trailing_ordinal("kaas-preview-11"), Some(11));
    assert_eq!(trailing_ordinal("kaas"), None);
    assert_eq!(trailing_ordinal(""), None);
}

#[test]
fn controller_is_known_by_its_ordinal() {
    assert_eq!(controller_id(4, Some("kaas-2")), 2);
    assert_eq!(controller_id(4, Some("nobody")), 4);
    assert_eq!(controller_id(4, None), 4);
}

#[test]
fn the_broker_itself_is_advertised_under_its_listener() {
    let advert = ListenerAdvert { name: "external".to_owned(), host: "out.example.com".to_owned(), port: 9094 };
    let view = vec![
        BrokerNode { node_id: 0, host: "kaas-0".to_owned(), port: 9092, fenced: true },
        BrokerNode { node_id: 1, host: "kaas-1".to_owned(), port: 9092, fenced: true },
    ];
    let out = advertised_brokers(0, Some(&view), &advert);
    assert_eq!(out.len(), 2);
    assert_eq!((out[0].host.as_str(), out[0].port, out[0].fenced), ("out.example.com", 9094, false));
    assert_eq!((out[1].host.as_str(), out[1].port, out[1].fenced), ("kaas-1", 9094, true));
    let alone = advertised_brokers(3, None, &advert);
    assert_eq!(alone.len(), 1);
    assert_eq!(alone[0].node_id, 3);
}

// Settings.

#[test]
fn lookup_finds_known_keys() {
    assert_eq!(lookup("retention.ms").map(|e| e.config_type), Some(config_type::LONG));
    assert!(lookup("does.not.exist").is_none());
}

#[test]
fn every_entry_has_documentation() {
    for e in all_keys() {
        assert!(!e.documentation.is_empty(), "{} missing docs", e.dotted_name);
    }
}

#[test]
fn cleanup_policy_default_is_delete() {
    let e = lookup("cleanup.policy").unwrap();
    assert_eq!(e.default_value, Some("delete"));
}

#[test]
fn records_are_kept_for_seven_days() {
    assert_eq!(default_retention_ms(), 604_800_000);
    assert_eq!(lookup("retention.ms").unwrap().default_value, Some("604800000"));
    assert_eq!(all_keys().len(), 7);
}

// Topics.

fn seed(name: &str, partitions: i32) -> TopicSeedEntry {
    TopicSeedEntry { name: name.to_owned(), partitions }
}

#[test]
fn empty_json_is_empty_registry() {
    let r = TopicRegistry::from_seed(vec![]).ok().unwrap();
    assert!(r.is_empty());
}

#[test]
fn seed_parses_two_topics() {
    let r = TopicRegistry::from_seed(vec![seed("t1", 3), seed("t2", 1)]).ok().unwrap();
    assert_eq!(r.len(), 2);
    let t1 = r.get("t1").unwrap();
    assert_eq!(t1.partition_count, 3);
    assert_eq!(t1.topic_id, [0; 16]);
}

#[test]
fn zero_partitions_rejected() {
    let err = TopicRegistry::from_seed(vec![seed("x", 0)]).err().unwrap();
    assert!(matches!(err, ConfigError::InvalidPartitions(_)));
    assert_eq!(err.message(), "topics seed: partitions must be > 0 for topic x");
    assert_eq!(ConfigError::Json("eof".to_owned()).message(), "topics seed: eof");
}

#[test]
fn incarnation_distinguishes_unknown_from_unstamped() {
    let mut r = TopicRegistry::new();
    assert_eq!(r.incarnation("never-seen"), TopicIncarnation::Unknown);

    r.set_topic_id("t", None);
    assert_eq!(r.incarnation("t"), TopicIncarnation::Pending);

    r.mark_synced();
    assert_eq!(r.incarnation("never-seen"), TopicIncarnation::Pending);

    r.set_topic_id("t", Some("uuid-1"));
    assert_eq!(r.incarnation("t"), TopicIncarnation::Known("uuid-1".into()));
    assert_eq!(r.incarnation_of("t"), TopicIncarnation::Known("uuid-1".into()));

    r.remove("t");
    assert_eq!(r.incarnation("t"), TopicIncarnation::Pending);
}

#[test]
fn unsynced_registry_reports_everything_unknown() {
    let r = TopicRegistry::new();
    assert_eq!(r.incarnation("anything"), TopicIncarnation::Unknown);
}

#[test]
fn all_returns_sorted_by_name() {
    let r = TopicRegistry::from_seed(vec![seed("z", 1), seed("a", 1)]).ok().unwrap();
    let all = r.all();
    assert_eq!(all[0].name, "a");
    assert_eq!(all[1].name, "z");
}

#[test]
fn placements_of_partitions() {
    let mut r = TopicRegistry::default();
    assert_eq!(r.volume_assignment("t", 0), None);
    r.set_volume_assignment("t", 1, "dir-b");
    let mut m: TextMap<String> = TextMap::new();
    m.insert("0".to_owned(), "dir-a".to_owned());
    r.set_volume_assignments("u", m);
    assert_eq!(r.volume_assignment("t", 1), Some("dir-b".to_owned()));
    assert_eq!(r.volume_assignment("t", 0), None);
    assert_eq!(r.log_dir_of("u", 0), Some("dir-a".to_owned()));
    r.set_volume_assignments("u", TextMap::new());
    assert_eq!(r.volume_assignment("u", 0), None);
    r.insert(TopicMeta { name: "t".to_owned(), partition_count: 2, topic_id: [1; 16] });
    r.remove("t");
    assert_eq!(r.volume_assignment("t", 1), None);
    assert!(r.get("t").is_none());
}

// Brokers.

fn dns() -> DnsConfig {
    DnsConfig {
        namespace: "kaas".to_owned(),
        headless_service: "kaas-headless".to_owned(),
        pod_name_pattern: "kaas-{ordinal}".to_owned(),
        cluster_domain: "cluster.local".to_owned(),
    }
}

fn self_ep() -> BrokerEndpoint {
    BrokerEndpoint {
        node_id: 0,
        host: "kaas-0.kaas-headless.kaas.svc.cluster.local".to_owned(),
        port: 9092,
        ready: true,
    }
}

fn slice_with(entries: Vec<EndpointSliceEntry>) -> EndpointSliceData {
    named_slice("kaas-headless-abc", entries)
}

fn named_slice(name: &str, entries: Vec<EndpointSliceEntry>) -> EndpointSliceData {
    EndpointSliceData { name: name.to_owned(), entries, kafka_port: Some(9092) }
}

fn entry(hostname: &str, address: &str, ready: bool) -> EndpointSliceEntry {
    EndpointSliceEntry { hostname: hostname.to_owned(), address: address.to_owned(), ready }
}

#[test]
fn fresh_registry_has_self() {
    let r = BrokerRegistry::new(self_ep(), dns());
    assert_eq!(r.count(), 1);
    assert_eq!(r.all()[0], self_ep());
    assert_eq!(r.self_endpoint(), self_ep());
}

#[test]
fn apply_slice_adds_peers_with_fqdn_host() {
    let mut r = BrokerRegistry::new(self_ep(), dns());
    r.apply_slice(&slice_with(vec![entry("kaas-1", "10.0.0.5", true), entry("kaas-2", "10.0.0.6", true)]));
    let all = r.all();
    assert_eq!(all.len(), 3);
    assert_eq!(all[1].host, "kaas-1.kaas-headless.kaas.svc.cluster.local");
    assert_eq!(all[2].host, "kaas-2.kaas-headless.kaas.svc.cluster.local");
}

#[test]
fn not_ready_entries_are_kept_as_fenced() {
    let mut r = BrokerRegistry::new(self_ep(), dns());
    r.apply_slice(&slice_with(vec![entry("kaas-1", "10.0.0.5", true)]));
    assert_eq!((r.count(), r.ready_count()), (2, 2));

    r.apply_slice(&slice_with(vec![entry("kaas-1", "10.0.0.5", false)]));
    assert_eq!((r.count(), r.ready_count()), (2, 1), "still registered, no longer ready");
    let peer = r.all().into_iter().find(|e| e.node_id == 1).unwrap();
    assert!(!peer.ready);
    assert_eq!(peer.host, "kaas-1.kaas-headless.kaas.svc.cluster.local");

    r.apply_slice(&slice_with(vec![entry("kaas-1", "10.0.0.5", true)]));
    assert_eq!((r.count(), r.ready_count()), (2, 2));
}

#[test]
fn entry_absent_from_its_slice_is_deregistered() {
    let mut r = BrokerRegistry::new(self_ep(), dns());
    r.apply_slice(&slice_with(vec![entry("kaas-1", "10.0.0.5", true), entry("kaas-2", "10.0.0.6", true)]));
    assert_eq!(r.count(), 3);
    r.apply_slice(&slice_with(vec![entry("kaas-1", "10.0.0.5", true)]));
    assert_eq!(r.count(), 2);
    assert!(r.all().iter().all(|e| e.node_id != 2));
}

#[test]
fn sharded_slices_do_not_evict_each_other() {
    let mut r = BrokerRegistry::new(self_ep(), dns());
    r.apply_slice(&named_slice("shard-a", vec![entry("kaas-1", "10.0.0.5", true)]));
    r.apply_slice(&named_slice("shard-b", vec![entry("kaas-2", "10.0.0.6", true)]));
    assert_eq!(r.count(), 3);
    r.apply_slice(&named_slice("shard-a", vec![entry("kaas-1", "10.0.0.5", false)]));
    assert_eq!(r.count(), 3);
    assert!(r.all().iter().any(|e| e.node_id == 2 && e.ready));
}

#[test]
fn self_is_never_fenced_or_deregistered() {
    let mut r = BrokerRegistry::new(self_ep(), dns());
    r.apply_slice(&slice_with(vec![entry("kaas-0", "10.0.0.4", false)]));
    let me = r.all().into_iter().find(|e| e.node_id == 0).unwrap();
    assert!(me.ready, "self must stay ready");
    r.apply_slice(&slice_with(vec![entry("kaas-1", "10.0.0.5", true)]));
    assert!(r.all().iter().any(|e| e.node_id == 0 && e.ready));
    r.delete_slice(&slice_with(vec![entry("kaas-0", "10.0.0.4", true)]));
    assert!(r.all().iter().any(|e| e.node_id == 0 && e.ready));
}

#[test]
fn delete_slice_removes_every_ordinal() {
    let mut r = BrokerRegistry::new(self_ep(), dns());
    r.apply_slice(&slice_with(vec![entry("kaas-1", "10.0.0.5", true)]));
    r.delete_slice(&slice_with(vec![entry("kaas-1", "10.0.0.5", true)]));
    assert_eq!(r.count(), 1);
}

#[test]
fn empty_dns_falls_back_to_raw_address() {
    let empty_dns = DnsConfig {
        namespace: String::new(),
        headless_service: String::new(),
        pod_name_pattern: String::new(),
        cluster_domain: String::new(),
    };
    let mut r = BrokerRegistry::new(self_ep(), empty_dns);
    r.apply_slice(&slice_with(vec![entry("kaas-1", "10.0.0.5", true)]));
    let all = r.all();
    let peer = all.iter().find(|e| e.node_id == 1).unwrap();
    assert_eq!(peer.host, "10.0.0.5");
}

#[test]
fn on_change_fires_with_sorted_snapshot() {
    let mut r = BrokerRegistry::new(self_ep(), dns());
    let told = r.apply_slice(&slice_with(vec![entry("kaas-2", "10.0.0.6", true), entry("kaas-1", "10.0.0.5", true)]));
    let ids: Vec<i32> = told.iter().map(|e| e.node_id).collect();
    assert_eq!(ids, vec![0, 1, 2]);
}

#[test]
fn unparseable_hostnames_are_skipped() {
    let mut r = BrokerRegistry::new(self_ep(), dns());
    r.apply_slice(&slice_with(vec![entry("noordinal", "10.0.0.7", true)]));
    assert_eq!(r.count(), 1);
}

#[test]
fn the_port_of_the_slice_or_of_self() {
    let mut r = BrokerRegistry::new(self_ep(), dns());
    let mut s = slice_with(vec![entry("kaas-1", "10.0.0.5", true)]);
    s.kafka_port = Some(19092);
    r.apply_slice(&s);
    assert_eq!(r.all()[1].port, 19092);
    s.kafka_port = None;
    r.apply_slice(&s);
    assert_eq!(r.all()[1].port, 9092);
    let told = r.upsert(BrokerEndpoint { node_id: 7, host: "h".to_owned(), port: 1, ready: false });
    assert_eq!(told.len(), 3);
    assert_eq!(r.ready_count(), 2);
}

#[test]
fn names_of_pods() {
    assert_eq!(dns().fqdn(12), "kaas-12.kaas-headless.kaas.svc.cluster.local");
    let mut d = dns();
    d.pod_name_pattern = "{ordinal}-a{ordinal}{".to_owned();
    assert_eq!(d.fqdn(3), "3-a3{.kaas-headless.kaas.svc.cluster.local");
    assert_eq!(parse_ordinal("kaas-0"), Some(0));
    assert_eq!(parse_ordinal("kaas-preview-11"), Some(11));
    assert_eq!(parse_ordinal("kaas-x"), None);
    assert_eq!(parse_ordinal("7"), None);
}

// Health.

#[test]
fn set_ready_round_trips() {
    let mut g = HealthGate::default();
    set_ready(&mut g, true);
    assert!(ready(&g));
    set_ready(&mut g, false);
    assert!(!ready(&g));
}

#[test]
fn pos_i64_folds_negatives_to_none() {
    assert_eq!(pos_i64(0), Some(0));
    assert_eq!(pos_i64(42), Some(42));
    assert_eq!(pos_i64(-1), None);
}

#[test]
fn readiness_requires_base_gate_main_alive_and_serving() {
    let mut g = HealthGate::default();
    set_ready(&mut g, false);
    record_main_tick(&mut g, 10);
    assert!(!compute_ready(&g, "", "", 10, true, Some(true)));

    set_ready(&mut g, true);
    record_main_tick(&mut g, 10);
    assert!(!compute_ready(&g, "", "", 10, true, Some(false)));
    assert!(compute_ready(&g, "", "", 10, true, Some(true)));
    assert!(compute_ready(&g, "", "", 10, false, Some(false)));
    assert!(!compute_ready(&g, "", "", 10, true, None));
}

#[test]
fn main_alive_is_false_without_a_recent_tick() {
    let mut g = HealthGate::default();
    assert!(!main_alive(&g, 0));
    record_main_tick(&mut g, 0);
    assert!(main_alive(&g, 0));
    assert!(main_alive(&g, MAIN_LIVENESS_THRESHOLD_MS));
    assert!(!main_alive(&g, MAIN_LIVENESS_THRESHOLD_MS + 1));
}

#[test]
fn outside_listener_needs_a_host() {
    let mut g = HealthGate::default();
    set_ready(&mut g, true);
    record_main_tick(&mut g, 1);
    assert!(!compute_ready(&g, "9093", "", 1, false, None));
    assert!(compute_ready(&g, "9093", "b-{ordinal}.example.com", 1, false, None));
    assert_eq!(ready_status(true), 200);
    assert_eq!(ready_status(false), 503);
}

#[test]
fn draining_is_kept() {
    let mut g = HealthGate::default();
    assert!(!is_draining(&g));
    mark_draining(&mut g);
    set_ready(&mut g, true);
    assert!(is_draining(&g));
}

#[test]
fn unmeasured_times_are_left_out() {
    let s = RuntimeSnapshot {
        is_controller: true,
        controller_id: "kaas-1".to_owned(),
        controller_epoch: 4,
        heartbeat_rtt_ms: -1,
        heartbeat_age_ms: 12,
        assignment_version: 9,
        assignment_age_ms: -1,
        partitions_led: 3,
        partitions_assigned: 4,
        partitions_recovering: 1,
        storage_stalled: false,
        serving: true,
    };
    let h = health_state(Some(&s));
    assert_eq!(h.status, "ok");
    assert_eq!(h.heartbeat_rtt_ms, None);
    assert_eq!(h.heartbeat_age_ms, Some(12));
    assert_eq!(h.controller_id, "kaas-1");
    assert_eq!((h.partitions_led, h.partitions_assigned, h.partitions_recovering), (3, 4, 1));
    let none = health_state(None);
    assert_eq!(none.controller_epoch, 0);
    assert_eq!(none.assignment_age_ms, None);
    assert!(!none.is_controller);
}

// Export of metrics.

#[test]
fn ensure_scheme_variants() {
    assert_eq!(ensure_scheme("foo:4317"), "http://foo:4317");
    assert_eq!(ensure_scheme("http://foo:4318"), "http://foo:4318");
    assert_eq!(ensure_scheme("https://foo:4318"), "https://foo:4318");
    assert_eq!(ensure_scheme("grpc://foo:4317"), "http://foo:4317");
    assert_eq!(
        ensure_scheme("http://prom:9090/api/v1/otlp/v1/metrics"),
        "http://prom:9090/api/v1/otlp/v1/metrics"
    );
}

#[test]
fn durations_part_into_number_and_unit() {
    assert_eq!(split_num_unit("30s"), Some(("30".to_owned(), "s".to_owned())));
    assert_eq!(split_num_unit("1.5ms"), Some(("1.5".to_owned(), "ms".to_owned())));
    assert_eq!(split_num_unit("-1s"), Some(("-1".to_owned(), "s".to_owned())));
    assert_eq!(split_num_unit("100"), Some(("100".to_owned(), "".to_owned())));
    assert_eq!(split_num_unit("abc"), None);
    assert_eq!(split_num_unit(""), None);
    assert_eq!(duration_unit("µs"), Some(DurationUnit::Microseconds));
    assert_eq!(duration_unit(""), Some(DurationUnit::Seconds));
    assert_eq!(duration_unit("h"), Some(DurationUnit::Hours));
    assert_eq!(duration_unit("years"), None);
    assert_eq!(export_endpoint(Some("")), None);
    assert_eq!(export_endpoint(None), None);
    assert_eq!(export_endpoint(Some("prom:9090")).as_deref(), Some("http://prom:9090"));
}

#[test]
fn attributes_of_a_pod() {
    let a = resource_attributes("kaas", Some(""), Some("kaas-0"), Some("prod"));
    let want: Vec<(&str, &str)> = vec![
        ("service.name", "kaas"),
        ("k8s.pod.name", "kaas-0"),
        ("service.instance.id", "kaas-0"),
        ("k8s.namespace.name", "prod"),
    ];
    let got: Vec<(&str, &str)> = a.iter().map(|(k, v)| (*k, v.as_str())).collect();
    assert_eq!(got, want);
    assert_eq!(resource_attributes("kaas", None, None, None).len(), 1);
    assert_eq!(resource_attributes("kaas", Some("1.0"), None, None)[1].0, "service.version");
}

#[test]
fn adverts_are_copied_whole() {
    let a = ListenerAdverts::new(&[listener("external", "0.0.0.0", 9094, true, Some("broker-0.example.com"))]);
    assert_eq!(format!("{:?}", a.clone()), format!("{a:?}"));
}
