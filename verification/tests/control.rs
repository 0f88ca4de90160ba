use kaas::assignment::{Assignment, BrokerAssignment, BrokerHealth, PartitionAssignment, PartitionRole};
use kaas::assignment_writer::GroupSource;
use kaas::election::{next_transitions, Campaign, CampaignAction, CampaignEvent, Election, LeaseRecord, Phase, RenewOutcome};
use kaas::heartbeat::{
    backoff_next, dial_endpoint, BrokerStatus, ClientStep, CommandType, ConnectError, HeartbeatClient, HeartbeatServer, SendError, StreamEvent, SEND_BUFFER,
};
use kaas::endpoints::{BrokerEndpoint, BrokerRegistry, DnsConfig};
use kaas::keyed::TextMap;
use kaas::kube_watchers::{
    condition_status, convert_slice, handle_endpoint_event, next_backoff, KubeLeaseEpoch, LeaseEpochSource, LeaseSpec, SliceEndpoint, SliceEvent,
    SliceObject, SlicePort, TopicAction, TopicEvent, TopicObject, TopicStatus, TopicStream, TopicWatch, TopicWatchState, WatchStep, MIGRATE_TO_VOLUME_ANNOTATION, TOPIC_WATCH_BACKOFF_MAX, TOPIC_WATCH_BACKOFF_MIN,
};
use kaas::takeover::{OpenPartition, TakeoverDriver};
use std::collections::HashSet;

// The election.

#[test]
fn a_self_reacquire_after_release_keeps_the_epoch() {
    assert_eq!(next_transitions(Some("kaas-1"), "kaas-1", 42), 42);
}

#[test]
fn a_real_handover_bumps_the_epoch() {
    assert_eq!(next_transitions(Some("kaas-0"), "kaas-1", 42), 43);
}

#[test]
fn an_unknown_previous_holder_bumps_conservatively() {
    assert_eq!(next_transitions(None, "kaas-1", 0), 1);
}

#[test]
fn a_renew_while_holding_keeps_the_epoch() {
    assert_eq!(next_transitions(Some("kaas-2"), "kaas-2", 7), 7);
}

const SECOND: i64 = 1_000_000_000;

fn held_by(holder: &str, transitions: i32, renewed_ns: i64) -> Option<LeaseRecord> {
    Some(LeaseRecord {
        holder_identity: Some(holder.to_owned()),
        lease_transitions: Some(transitions),
        renew_time_ns: Some(renewed_ns),
        lease_duration_seconds: Some(15),
        last_holder: None,
    })
}

#[test]
fn a_live_lease_is_left_alone_and_a_stale_one_is_taken() {
    let e = Election::new("kaas-1".to_owned());
    assert!(e.try_acquire(&held_by("kaas-0", 4, 100 * SECOND), 101 * SECOND).is_none());
    let p = e.try_acquire(&held_by("kaas-0", 4, 100 * SECOND), 500 * SECOND).unwrap();
    assert_eq!(p.holder_identity, "kaas-1");
    assert_eq!(p.lease_transitions, 5);
    assert!(p.acquires);
    let fresh = e.try_acquire(&None, 0).unwrap();
    assert_eq!(fresh.lease_transitions, 1);
}

#[test]
fn a_released_lease_remembers_its_holder() {
    let mut e = Election::new("kaas-1".to_owned());
    assert_eq!(e.holds(5), 5);
    let gone = e.release();
    assert_eq!(gone.holder_identity, "");
    assert_eq!(gone.last_holder, Some("kaas-1".to_owned()));
    let lease = Some(LeaseRecord {
        holder_identity: Some(String::new()),
        lease_transitions: Some(gone.lease_transitions),
        renew_time_ns: Some(0),
        lease_duration_seconds: Some(15),
        last_holder: gone.last_holder,
    });
    assert_eq!(e.try_acquire(&lease, SECOND).unwrap().lease_transitions, 5);
    let other = Election::new("kaas-2".to_owned());
    assert_eq!(other.try_acquire(&lease, SECOND).unwrap().lease_transitions, 6);
}

#[test]
fn renewing_goes_on_until_the_deadline() {
    let mut e = Election::new("kaas-1".to_owned()).with_timings(15_000, 10_000, 2_000);
    assert!(e.try_renew(&held_by("kaas-0", 4, 0)).is_none());
    assert_eq!(e.try_renew(&held_by("kaas-1", 4, 0)).unwrap().lease_transitions, 4);
    assert!(e.after_renewal(RenewOutcome::Failed, 1_000));
    assert!(e.after_renewal(RenewOutcome::Failed, 11_000));
    assert!(!e.after_renewal(RenewOutcome::Failed, 11_001));
    assert!(e.after_renewal(RenewOutcome::Renewed, 12_000));
    assert!(e.after_renewal(RenewOutcome::Failed, 30_000));
    assert!(!e.after_renewal(RenewOutcome::Lost, 30_001));
    assert_eq!(e.attempt_budget_ms(), 10_000);
    assert_eq!(Election::new("x".to_owned()).with_timings(15_000, 1, 2_000).attempt_budget_ms(), 3_000);
}

#[test]
fn a_window_is_not_cut_to_whole_seconds() {
    let e = Election::new("kaas-1".to_owned()).with_timings(2_500, 10_000, 2_000);
    let mut lease = held_by("kaas-0", 4, 0).unwrap();
    lease.lease_duration_seconds = None;
    let lease = Some(lease);
    assert!(e.try_acquire(&lease, 2_500_000_000).is_none());
    let taken = e.try_acquire(&lease, 2_500_000_001).unwrap();
    assert_eq!((taken.lease_transitions, taken.lease_duration_seconds), (5, 2));
    // What the lease says itself goes first.
    assert!(e.try_acquire(&held_by("kaas-0", 4, 0), 2_500_000_001).is_none());
    let brief = Election::new("kaas-1".to_owned()).with_timings(999, 10_000, 2_000);
    assert!(brief.try_acquire(&lease, 999_000_000).is_none());
    assert_eq!(brief.try_acquire(&lease, 999_000_001).unwrap().lease_duration_seconds, 0);
    let long = Election::new("kaas-1".to_owned()).with_timings(u64::MAX, 10_000, 2_000);
    assert_eq!(long.try_acquire(&None, 0).unwrap().lease_duration_seconds, i32::MAX);
}

fn steps(actions: &[CampaignAction]) -> Vec<&'static str> {
    actions
        .iter()
        .map(|a| match a {
            CampaignAction::Attempt => "attempt",
            CampaignAction::Wait => "wait",
            CampaignAction::Renew => "renew",
            CampaignAction::OnAcquired(_) => "acquired",
            CampaignAction::OnLost => "lost",
            CampaignAction::EndTerm => "end",
            CampaignAction::Release(_) => "release",
        })
        .collect()
}

#[test]
fn a_campaign_leads_loses_and_leads_again() {
    let (mut c, first) = Campaign::campaign(Election::new("kaas-1".to_owned()));
    assert_eq!(steps(&first), ["attempt"]);
    assert_eq!(steps(&c.on_event(CampaignEvent::NotAcquired)), ["wait", "attempt"]);
    let begun = c.on_event(CampaignEvent::Acquired(5));
    assert_eq!(steps(&begun), ["acquired", "wait", "renew"]);
    assert!(matches!(begun[0], CampaignAction::OnAcquired(5)));
    assert_eq!(steps(&c.on_event(CampaignEvent::Renewed(5))), ["wait", "renew"]);
    assert_eq!(steps(&c.on_event(CampaignEvent::RenewFailed(1_000))), ["wait", "renew"]);
    assert_eq!(steps(&c.on_event(CampaignEvent::RenewFailed(11_000))), ["wait", "renew"]);
    assert_eq!(steps(&c.on_event(CampaignEvent::RenewFailed(11_001))), ["lost", "end", "attempt"]);
    assert_eq!(c.phase(), Phase::Candidate);
    // A new term forgets the failures of the last one.
    c.on_event(CampaignEvent::Acquired(7));
    assert_eq!(steps(&c.on_event(CampaignEvent::RenewFailed(90_000))), ["wait", "renew"]);
    assert_eq!(steps(&c.on_event(CampaignEvent::Lost)), ["lost", "end", "attempt"]);
}

#[test]
fn a_campaign_lets_go_of_the_lease_under_its_epoch() {
    let (mut c, _) = Campaign::campaign(Election::new("kaas-1".to_owned()));
    assert!(c.on_event(CampaignEvent::StackEnded).is_empty());
    c.on_event(CampaignEvent::Acquired(5));
    let ended = c.on_event(CampaignEvent::StackEnded);
    assert_eq!(steps(&ended), ["release", "lost", "end", "attempt"]);
    assert!(matches!(&ended[0], CampaignAction::Release(p) if p.lease_transitions == 5 && p.holder_identity.is_empty()));
    c.on_event(CampaignEvent::Acquired(5));
    assert_eq!(steps(&c.on_event(CampaignEvent::Shutdown)), ["lost", "end", "release"]);
    assert_eq!(c.phase(), Phase::Stopped);
    assert!(c.on_event(CampaignEvent::Acquired(9)).is_empty());
    let (mut idle, _) = Campaign::campaign(Election::new("kaas-2".to_owned()));
    assert!(idle.on_event(CampaignEvent::Shutdown).is_empty());
}

// The heartbeat.

fn status(broker: &str, groups: &[&str], draining: bool) -> BrokerStatus {
    BrokerStatus {
        broker_id: broker.to_owned(),
        timestamp_ms: 17,
        last_seen_assignment_version: 3,
        active_groups: groups.iter().map(|g| (*g).to_owned()).collect(),
        healthy: true,
        draining,
    }
}

#[test]
fn fresh_server_has_no_clients() {
    let s = HeartbeatServer::new();
    assert!(s.connected_brokers().is_empty());
    assert!(s.active_groups().is_empty());
    assert_eq!(s.broker_last_seen("kaas-0"), None);
}

#[test]
fn push_assignment_changed_updates_pending_version() {
    let mut s = HeartbeatServer::new();
    let c = s.push_assignment_changed(7, 5);
    assert_eq!(s.pending_version(), 7);
    assert_eq!(c.command, CommandType::AssignmentChanged);
    assert_eq!(c.assignment_version, 7);
}

#[test]
fn push_leaving_against_zero_clients_is_no_op() {
    let s = HeartbeatServer::new();
    let c = s.push_leaving(5);
    assert_eq!(c.command, CommandType::Leaving);
    assert!(s.connected_brokers().is_empty());
}

#[test]
fn a_pending_version_is_told_at_the_connection() {
    let mut s = HeartbeatServer::new();
    s.push_assignment_changed(42, 5);
    let (stream, told) = s.connect(Some(status("kaas-1", &["g"], false)), 1, 6).unwrap();
    let told = told.expect("a version is pending");
    assert_eq!(stream.broker_id(), "kaas-1");
    assert_eq!(told.command, CommandType::AssignmentChanged);
    assert_eq!(told.assignment_version, 42);
    assert_eq!(told.broker_status_timestamp_ms, 17);
    assert_eq!(s.connected_brokers(), vec!["kaas-1".to_owned()]);
    assert_eq!(s.broker_last_seen("kaas-1"), Some(6));
}

#[test]
fn connections_are_refused_without_an_identity() {
    let mut s = HeartbeatServer::new();
    assert_eq!(s.connect(None, 1, 0).err(), Some(ConnectError::MissingFirstStatus));
    assert_eq!(s.connect(Some(status("", &[], false)), 1, 0).err(), Some(ConnectError::MissingBrokerId));
    assert!(s.connected_brokers().is_empty());
}

#[test]
fn a_reconnect_outlives_the_old_connection() {
    let mut s = HeartbeatServer::new();
    let (mut first, _) = s.connect(Some(status("kaas-1", &["b"], false)), 1, 0).unwrap();
    let (mut second, _) = s.connect(Some(status("kaas-1", &["a"], false)), 2, 10).unwrap();
    s.closed(&first);
    assert_eq!(s.connected_brokers(), vec!["kaas-1".to_owned()]);
    s.received(&mut first, status("kaas-1", &["z"], true), 20);
    assert_eq!(s.broker_last_seen("kaas-1"), Some(10));
    s.connect(Some(status("kaas-0", &["c", "a"], true)), 3, 30).unwrap();
    assert_eq!(GroupSource::active_groups(&s), vec!["a".to_owned(), "c".to_owned()]);
    let live = s.broker_liveness();
    assert_eq!(live.iter().filter(|b| b.draining).map(|b| b.id.as_str()).collect::<Vec<&str>>(), vec!["kaas-0"]);
    let mut later = status("kaas-1", &["a"], false);
    later.timestamp_ms = 31;
    s.received(&mut second, later, 40);
    assert_eq!(s.broker_last_seen("kaas-1"), Some(40));
    let ping = second.ping(41);
    assert_eq!((ping.command, ping.timestamp_ms, ping.broker_status_timestamp_ms), (CommandType::Ping, 41, 31));
    s.closed(&second);
    assert_eq!(s.connected_brokers(), vec!["kaas-0".to_owned()]);
}

#[test]
fn fresh_client_is_not_connected() {
    let c = HeartbeatClient::new("kaas-0".to_owned());
    assert!(!c.is_connected());
    assert_eq!(c.last_received(), None);
}

#[test]
fn send_without_stream_returns_err() {
    let c = HeartbeatClient::new("kaas-0".to_owned());
    let r = c.send(BrokerStatus {
        broker_id: String::new(),
        timestamp_ms: 0,
        last_seen_assignment_version: 0,
        active_groups: Vec::new(),
        healthy: false,
        draining: false,
    }, 0);
    assert!(r.is_err());
    assert_eq!(SendError::Disconnected.message(), "heartbeat: not connected");
    assert_eq!(SendError::OutboxFull.message(), "heartbeat: outbox full");
}

#[test]
fn target_resolver_overrides_static_target() {
    let mut c = HeartbeatClient::new("kaas-0".to_owned());
    c.set_target("static:9094".to_owned());
    assert_eq!(c.resolve_target(Some(Some("dynamic:9095".to_owned()))).as_deref(), Some("dynamic:9095"));
    assert_eq!(c.resolve_target(None).as_deref(), Some("static:9094"));
}

#[test]
fn an_empty_target_is_resolved_and_not_dialled() {
    let mut c = HeartbeatClient::new("kaas-0".to_owned());
    assert_eq!(c.resolve_target(None), None);
    c.set_target(String::new());
    assert_eq!(c.resolve_target(None).as_deref(), Some(""));
    assert_eq!(c.resolve_target(Some(Some(String::new()))).as_deref(), Some(""));
    assert_eq!(c.resolve_target(Some(None)), None);
    assert!(matches!(c.run(None, false), ClientStep::Wait { .. }));
    assert!(matches!(c.run(Some(Some(String::new())), false), ClientStep::Wait { .. }));
    assert!(matches!(c.run(Some(Some("kaas-1:9094".to_owned())), false), ClientStep::Dial { .. }));
}

#[test]
fn record_received_advances_last_received() {
    let mut c = HeartbeatClient::new("kaas-0".to_owned());
    assert_eq!(c.last_received(), None);
    c.record_received(0);
    assert!(c.last_received().is_some());
}

#[test]
fn outgoing_statuses_carry_the_broker() {
    let mut c = HeartbeatClient::new("kaas-7".to_owned());
    let first = c.stream_opening(true, false, 99);
    assert_eq!((first.broker_id.as_str(), first.timestamp_ms, first.healthy), ("kaas-7", 99, true));
    assert!(c.is_connected());
    assert_eq!(c.send(status("", &[], false), 0).unwrap().broker_id, "kaas-7");
    assert_eq!(c.send(status("kaas-8", &[], false), SEND_BUFFER - 1).unwrap().broker_id, "kaas-8");
    assert_eq!(c.send(status("", &[], false), SEND_BUFFER).err(), Some(SendError::OutboxFull));
}

#[test]
fn a_client_dials_waits_and_dials_again() {
    let mut c = HeartbeatClient::new("kaas-0".to_owned());
    for want in [500, 1_000, 2_000, 4_000, 5_000, 5_000] {
        assert!(matches!(c.run(None, false), ClientStep::Wait { ms } if ms == want));
    }
    assert!(matches!(c.run(Some(Some("kaas-1:9094".to_owned())), false), ClientStep::Dial { endpoint } if endpoint == "http://kaas-1:9094"));
    assert!(matches!(c.run(Some(Some(String::new())), false), ClientStep::Wait { ms: 5_000 }));
    c.stream_opening(true, false, 0);
    assert_eq!(c.on_stream_event(StreamEvent::Command { elapsed_ms: 7 }), (true, false));
    assert_eq!(c.last_received(), Some(7));
    assert_eq!(c.on_stream_event(StreamEvent::Silence), (false, true));
    assert_eq!(c.on_stream_event(StreamEvent::Closed), (false, true));
    assert_eq!(c.on_stream_event(StreamEvent::Broken), (false, false));
    assert_eq!(c.last_received(), Some(7));
    assert!(matches!(c.stream_ended(false), ClientStep::Wait { ms: 5_000 }));
    assert!(!c.is_connected());
    assert!(matches!(c.stream_ended(true), ClientStep::Stop));
    assert!(matches!(c.run(None, true), ClientStep::Stop));
}

#[test]
fn waits_and_endpoints() {
    assert_eq!(backoff_next(500), 1_000);
    assert_eq!(backoff_next(3_000), 5_000);
    assert_eq!(dial_endpoint("kaas-0:9094"), "http://kaas-0:9094");
    assert_eq!(dial_endpoint("https://kaas-0:9094"), "https://kaas-0:9094");
}

// The takeover.

fn assignment(self_id: &str, parts: &[(&str, i32)]) -> Assignment {
    Assignment {
        controller_epoch: 1,
        assignment_version: 1,
        generated_at: String::new(),
        controller: self_id.to_owned(),
        brokers: vec![BrokerAssignment { id: self_id.to_owned(), health: BrokerHealth::Alive, last_seen: String::new() }],
        partitions: parts
            .iter()
            .map(|(t, p)| PartitionAssignment {
                topic: (*t).to_owned(),
                partition: *p,
                broker: self_id.to_owned(),
                epoch: 5,
                role: PartitionRole::Leader,
            })
            .collect(),
        consumer_groups: Vec::new(),
    }
}

fn open(topic: &str, partition: i32, epoch: Option<i64>) -> OpenPartition {
    OpenPartition { topic: topic.to_owned(), partition, epoch }
}

#[test]
fn reconcile_redrives_only_unopened_owned_partitions() {
    let driver = TakeoverDriver::new("kaas-0".to_owned());
    let mut opened = vec![open("t", 0, Some(5))];
    let a = assignment("kaas-0", &[("t", 0), ("t", 1), ("t", 2)]);
    let again = driver.reconcile(&a, &opened);
    assert_eq!(again.len(), 2);
    for r in &again {
        opened.push(open(&r.topic, r.partition, Some(i64::from(r.epoch))));
    }
    let keys: HashSet<(String, i32)> = opened.iter().map(|o| (o.topic.clone(), o.partition)).collect();
    assert!(keys.contains(&("t".to_owned(), 1)));
    assert!(keys.contains(&("t".to_owned(), 2)));
    assert_eq!(driver.reconcile(&a, &opened).len(), 0);
}

#[test]
fn reconcile_redrives_a_partition_open_at_a_stale_epoch() {
    let driver = TakeoverDriver::new("kaas-0".to_owned());
    let at_5 = assignment("kaas-0", &[("t", 0)]);
    assert_eq!(driver.reconcile(&at_5, &vec![open("t", 0, Some(5))]).len(), 0, "open at the assignment's epoch is converged");
    let mut at_9 = assignment("kaas-0", &[("t", 0)]);
    at_9.partitions[0].epoch = 9;
    let again = driver.reconcile(&at_9, &vec![open("t", 0, Some(5))]);
    assert_eq!(again.len(), 1, "open at a stale epoch must be re-driven");
    assert_eq!(again[0].epoch, 9);
    assert_eq!(driver.reconcile(&at_9, &vec![open("t", 0, Some(9))]).len(), 0);
}

#[test]
fn reconcile_ignores_partitions_owned_by_peers() {
    let driver = TakeoverDriver::new("kaas-0".to_owned());
    let mut a = assignment("kaas-0", &[("t", 0)]);
    a.partitions.push(PartitionAssignment {
        topic: "t".to_owned(),
        partition: 1,
        broker: "kaas-1".to_owned(),
        epoch: 5,
        role: PartitionRole::Leader,
    });
    assert_eq!(driver.reconcile(&a, &vec![]).len(), 1);
}

#[test]
fn a_change_takes_and_gives_up() {
    let driver = TakeoverDriver::new("kaas-0".to_owned());
    let before = assignment("kaas-0", &[("a", 0), ("b", 0)]);
    let mut after = assignment("kaas-0", &[("b", 0), ("c", 0)]);
    after.partitions[0].epoch = 6;
    let (take, give_up) = driver.on_change(Some(&before), &after);
    let names: Vec<(&str, u32)> = take.iter().map(|r| (r.topic.as_str(), r.epoch)).collect();
    assert_eq!(names, vec![("b", 6), ("c", 5)]);
    assert_eq!(give_up.len(), 1);
    assert_eq!(give_up[0].topic, "a");
    let (first, none) = driver.on_change(None, &before);
    assert_eq!(first.len(), 2);
    assert!(none.is_empty());
}

// The watches.

fn slice_endpoint(hostname: Option<&str>, address: &str, ready: Option<bool>) -> SliceEndpoint {
    SliceEndpoint { hostname: hostname.map(str::to_owned), addresses: vec![address.to_owned()], ready }
}

#[test]
fn convert_slice_extracts_kafka_port_when_named() {
    let slice = SliceObject {
        name: None,
        endpoints: vec![slice_endpoint(Some("kaas-1"), "10.0.0.5", Some(true))],
        ports: Some(vec![
            SlicePort { name: Some("kafka".to_owned()), port: Some(9092) },
            SlicePort { name: Some("metrics".to_owned()), port: Some(9090) },
        ]),
    };
    let data = convert_slice(&slice);
    assert_eq!(data.kafka_port, Some(9092));
    assert_eq!(data.entries.len(), 1);
    assert_eq!(data.entries[0].hostname, "kaas-1");
    assert_eq!(data.entries[0].address, "10.0.0.5");
    assert!(data.entries[0].ready);
}

#[test]
fn convert_slice_skips_entries_without_hostname() {
    let slice = SliceObject { name: None, endpoints: vec![slice_endpoint(None, "10.0.0.5", None)], ports: None };
    assert!(convert_slice(&slice).entries.is_empty());
}

#[test]
fn convert_slice_keeps_the_name_and_reads_silence_as_not_ready() {
    let mut lost = slice_endpoint(Some("kaas-2"), "x", Some(true));
    lost.addresses.clear();
    let slice = SliceObject {
        name: Some("shard-a".to_owned()),
        endpoints: vec![lost, slice_endpoint(Some("kaas-1"), "10.0.0.5", None)],
        ports: Some(vec![SlicePort { name: None, port: Some(1) }]),
    };
    let d = convert_slice(&slice);
    assert_eq!(d.name, "shard-a");
    assert_eq!(d.kafka_port, None);
    assert_eq!(d.entries.len(), 1);
    assert!(!d.entries[0].ready);
}

#[test]
fn kube_lease_epoch_starts_at_zero() {
    let e = KubeLeaseEpoch::new();
    assert_eq!(e.current_epoch(), 0);
    assert!(e.current_holder().is_none());
}

#[test]
fn kube_lease_epoch_stores_value() {
    let mut e = KubeLeaseEpoch::new();
    e.store(7, Some("kaas-0".to_owned()));
    assert_eq!(e.current_epoch(), 7);
    assert_eq!(e.current_holder().as_deref(), Some("kaas-0"));
}

#[test]
fn a_poll_that_finds_nothing_changes_nothing() {
    let mut e = KubeLeaseEpoch::default();
    e.polled(Some(Some(LeaseSpec { transitions: Some(3), holder: Some("kaas-1".to_owned()) })));
    e.polled(None);
    assert_eq!(e.epoch(), 3);
    e.polled(Some(Some(LeaseSpec { transitions: None, holder: None })));
    assert_eq!(e.epoch(), 0);
    assert_eq!(e.current_holder(), None);
    assert_eq!(condition_status(true), "True");
    assert_eq!(condition_status(false), "False");
}

fn topic(name: &str, partitions: i32) -> TopicObject {
    TopicObject { metadata_name: name.to_owned(), topic_name: String::new(), partitions, annotations: None, status: None }
}

fn topic_with_spec_name(meta_name: &str, kafka_name: &str, partitions: i32) -> TopicObject {
    TopicObject { topic_name: kafka_name.to_owned(), ..topic(meta_name, partitions) }
}

fn deletes_from(events: Vec<TopicEvent>) -> Vec<String> {
    let mut state = TopicWatchState::new();
    let mut out = Vec::new();
    for e in events {
        for a in state.handle_topic_event(e) {
            if let TopicAction::Delete(n) = a {
                out.push(n);
            }
        }
    }
    out
}

fn applies_from(events: Vec<TopicEvent>) -> Vec<(String, i32)> {
    let mut state = TopicWatchState::new();
    let mut out = Vec::new();
    for e in events {
        for a in state.handle_topic_event(e) {
            if let TopicAction::Apply(t) = a {
                out.push((t.name, t.partitions));
            }
        }
    }
    out
}

#[test]
fn registers_synthetic_named_topic_under_effective_kafka_name() {
    let real = "app-KSTREAM-AGGREGATE-STATE-STORE-0000000003-repartition";
    let applied = applies_from(vec![TopicEvent::Apply(topic_with_spec_name("kaas-topic-deadbeef", real, 4))]);
    assert_eq!(applied, vec![(real.to_owned(), 4)]);
    let deleted = deletes_from(vec![TopicEvent::Delete(topic_with_spec_name("kaas-topic-deadbeef", real, 4))]);
    assert_eq!(deleted, vec![real.to_owned()]);
}

#[test]
fn relist_retracts_topics_deleted_while_disconnected() {
    let deleted = deletes_from(vec![
        TopicEvent::Apply(topic("t1", 1)),
        TopicEvent::Apply(topic("t2", 1)),
        TopicEvent::Init,
        TopicEvent::InitApply(topic("t1", 1)),
        TopicEvent::InitDone,
    ]);
    assert_eq!(deleted, vec!["t2".to_owned()]);
}

#[test]
fn first_relist_retracts_nothing() {
    let deleted = deletes_from(vec![
        TopicEvent::Init,
        TopicEvent::InitApply(topic("t1", 1)),
        TopicEvent::InitApply(topic("t2", 1)),
        TopicEvent::InitDone,
    ]);
    assert!(deleted.is_empty(), "got {deleted:?}");
}

#[test]
fn explicit_delete_is_not_repeated_on_next_relist() {
    let deleted = deletes_from(vec![
        TopicEvent::Apply(topic("t1", 1)),
        TopicEvent::Delete(topic("t1", 1)),
        TopicEvent::Init,
        TopicEvent::InitDone,
    ]);
    assert_eq!(deleted, vec!["t1".to_owned()]);
}

#[test]
fn init_done_without_init_retracts_nothing() {
    let deleted = deletes_from(vec![
        TopicEvent::Apply(topic("t1", 1)),
        TopicEvent::Apply(topic("t2", 1)),
        TopicEvent::InitDone,
    ]);
    assert!(deleted.is_empty(), "got {deleted:?}");
}

#[test]
fn apply_carries_the_status_topic_id() {
    let mut state = TopicWatchState::new();
    let unstamped = topic("t1", 1);
    let mut stamped = topic("t2", 1);
    stamped.status = Some(TopicStatus { topic_id: "uuid-1".to_owned(), volume_assignments: TextMap::new() });
    let mut empty = topic("t3", 1);
    empty.status = Some(TopicStatus { topic_id: String::new(), volume_assignments: TextMap::new() });
    let mut seen = Vec::new();
    for e in [TopicEvent::Apply(unstamped), TopicEvent::Apply(stamped), TopicEvent::Apply(empty)] {
        for a in state.handle_topic_event(e) {
            if let TopicAction::Apply(t) = a {
                seen.push((t.name, t.topic_id));
            }
        }
    }
    assert_eq!(
        seen,
        vec![("t1".to_owned(), None), ("t2".to_owned(), Some("uuid-1".to_owned())), ("t3".to_owned(), None)]
    );
}

#[test]
fn synced_latches_on_the_first_completed_list() {
    let mut state = TopicWatchState::new();
    state.handle_topic_event(TopicEvent::Apply(topic("t1", 1)));
    assert!(!state.is_synced(), "an Apply alone is not a completed list");
    state.handle_topic_event(TopicEvent::InitDone);
    assert!(!state.is_synced(), "InitDone without Init must not latch");
    for e in [TopicEvent::Init, TopicEvent::InitApply(topic("t1", 1)), TopicEvent::InitDone] {
        state.handle_topic_event(e);
    }
    assert!(state.is_synced());
    state.handle_topic_event(TopicEvent::Init);
    assert!(state.is_synced(), "a fresh relist must not clear synced");
}

#[test]
fn relist_keeps_surviving_topics_tracked() {
    let deleted = deletes_from(vec![
        TopicEvent::Apply(topic("t1", 1)),
        TopicEvent::Apply(topic("t2", 1)),
        TopicEvent::Init,
        TopicEvent::InitApply(topic("t1", 1)),
        TopicEvent::InitDone,
        TopicEvent::Init,
        TopicEvent::InitApply(topic("t1", 1)),
        TopicEvent::InitDone,
    ]);
    assert_eq!(deleted, vec!["t2".to_owned()]);
}

#[test]
fn a_new_stream_drops_a_listing_cut_short() {
    let mut state = TopicWatchState::new();
    state.handle_topic_event(TopicEvent::Apply(topic("t1", 1)));
    state.handle_topic_event(TopicEvent::Init);
    state.begin_stream();
    assert!(state.handle_topic_event(TopicEvent::InitDone).is_empty());
    assert!(!state.is_synced());
    assert_eq!(next_backoff(TOPIC_WATCH_BACKOFF_MIN), 2_000);
    assert_eq!(next_backoff(16_000), TOPIC_WATCH_BACKOFF_MAX);
}

#[test]
fn apply_carries_placement_and_migration() {
    let mut t = topic("t", 2);
    let mut v: TextMap<String> = TextMap::new();
    v.insert("0".to_owned(), "dir-a".to_owned());
    t.status = Some(TopicStatus { topic_id: String::new(), volume_assignments: v });
    let mut a: TextMap<String> = TextMap::new();
    a.insert(MIGRATE_TO_VOLUME_ANNOTATION.to_owned(), "dir-b".to_owned());
    t.annotations = Some(a);
    let mut state = TopicWatchState::new();
    let out = state.handle_topic_event(TopicEvent::Apply(t));
    match &out[0] {
        TopicAction::Apply(x) => {
            assert_eq!(x.volume_assignments.get("0").map(String::as_str), Some("dir-a"));
            assert_eq!(x.migrate_to.as_deref(), Some("dir-b"));
        }
        TopicAction::Delete(_) => panic!("the topic is there"),
    }
    assert!(state.handle_topic_event(TopicEvent::Apply(topic("", 1))).is_empty());
}

fn declared(name: &str) -> TopicObject {
    TopicObject { metadata_name: name.to_owned(), topic_name: String::new(), partitions: 3, annotations: None, status: None }
}

#[test]
fn a_topic_watch_waits_longer_until_a_stream_is_sound() {
    let mut w = TopicWatch::new();
    for want in [1_000, 2_000, 4_000] {
        assert!(matches!(w.run_topic_watch(TopicStream::End), WatchStep::Reopen { after_ms } if after_ms == want));
    }
    assert!(matches!(w.run_topic_watch(TopicStream::Error), WatchStep::Continue));
    assert!(matches!(w.run_topic_watch(TopicStream::Event(TopicEvent::Init)), WatchStep::Report { first_sync: false, .. }));
    let seen = w.run_topic_watch(TopicStream::Event(TopicEvent::InitApply(declared("orders"))));
    assert!(matches!(seen, WatchStep::Report { actions, .. } if matches!(&actions[..], [TopicAction::Apply(t)] if t.name == "orders")));
    assert!(matches!(w.run_topic_watch(TopicStream::Event(TopicEvent::InitDone)), WatchStep::Report { first_sync: true, .. }));
    assert!(matches!(w.run_topic_watch(TopicStream::End), WatchStep::Reopen { after_ms: 1_000 }));
    // A listing that does not name the topic takes it back, and is not the first.
    w.run_topic_watch(TopicStream::Event(TopicEvent::Init));
    let done = w.run_topic_watch(TopicStream::Event(TopicEvent::InitDone));
    assert!(matches!(done, WatchStep::Report { actions, first_sync: false } if matches!(&actions[..], [TopicAction::Delete(n)] if n == "orders")));
}

#[test]
fn slices_reach_the_registry() {
    let me = BrokerEndpoint { node_id: 0, host: "kaas-0".to_owned(), port: 9092, ready: true };
    let dns = DnsConfig {
        namespace: "kaas".to_owned(),
        headless_service: String::new(),
        pod_name_pattern: String::new(),
        cluster_domain: "cluster.local".to_owned(),
    };
    let mut r = BrokerRegistry::new(me, dns);
    let slice = || SliceObject {
        name: Some("kaas-abc".to_owned()),
        endpoints: vec![SliceEndpoint { hostname: Some("kaas-1".to_owned()), addresses: vec!["10.0.0.5".to_owned()], ready: Some(true) }],
        ports: Some(vec![SlicePort { name: Some("kafka".to_owned()), port: Some(9093) }]),
    };
    assert!(handle_endpoint_event(&mut r, SliceEvent::Init).is_none());
    let rows = handle_endpoint_event(&mut r, SliceEvent::InitApply(slice())).unwrap();
    assert_eq!(rows.len(), 2);
    assert!(rows.iter().any(|b| b.node_id == 1 && b.host == "10.0.0.5" && b.port == 9093));
    assert!(handle_endpoint_event(&mut r, SliceEvent::InitDone).is_none());
    assert_eq!(handle_endpoint_event(&mut r, SliceEvent::Delete(slice())).unwrap().len(), 1);
}

#[test]
fn an_own_lease_can_be_kept_at_the_last_epoch() {
    assert_eq!(next_transitions(Some("kaas-1"), "kaas-1", i32::MAX), i32::MAX);
    let e = Election::new("kaas-1".to_owned());
    let own = held_by("kaas-1", i32::MAX, 100 * SECOND);
    assert!(!e.epoch_rises(&own));
    assert_eq!(e.try_acquire(&own, 101 * SECOND).unwrap().lease_transitions, i32::MAX);
    let other = held_by("kaas-0", i32::MAX, 100 * SECOND);
    assert!(e.epoch_rises(&other));
    assert!(e.try_acquire(&other, 101 * SECOND).is_none());
    assert!(e.epoch_rises(&None));
    let mut let_go = held_by("", 4, 0);
    assert!(e.epoch_rises(&let_go));
    let_go.as_mut().unwrap().last_holder = Some("kaas-1".to_owned());
    assert!(!e.epoch_rises(&let_go));
}

#[test]
fn a_watch_begins_unsynced_by_default() {
    assert!(!TopicWatchState::default().is_synced());
}
