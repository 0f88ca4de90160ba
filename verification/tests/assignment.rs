use kaas::assignment::{Assignment, BrokerAssignment, BrokerHealth};
use kaas::assignment_writer::{
    build_broker_entries, compute_epoch_floor, floor_candidates, AssignmentLoop, AssignmentReason, BrokerSource, GroupSource, RecomputeInputs,
    StaticSources, TopicSource,
};
use kaas::balancer::{GroupSpec, TopicSpec};
use kaas::keyed::TextMap;

fn topics(n: i32) -> Vec<TopicSpec> {
    (0..n).map(|i| TopicSpec { name: format!("t{i}"), partition_count: 3 }).collect()
}

fn brokers(n: usize) -> Vec<String> {
    (0..n).map(|i| format!("kaas-{i}")).collect()
}

fn health_of(entries: &[BrokerAssignment], id: &str) -> BrokerHealth {
    entries.iter().find(|e| e.id == id).map(|e| e.health).expect("broker present in the reported list")
}

#[test]
fn registered_but_not_alive_is_reported_dead_not_dropped() {
    let entries = build_broker_entries(&brokers(3), &["kaas-0".to_owned(), "kaas-1".to_owned()], &[], "now", None);
    assert_eq!(entries.len(), 3, "a dead broker keeps its row");
    assert_eq!(health_of(&entries, "kaas-0"), BrokerHealth::Alive);
    assert_eq!(health_of(&entries, "kaas-1"), BrokerHealth::Alive);
    assert_eq!(health_of(&entries, "kaas-2"), BrokerHealth::Dead);
}

#[test]
fn draining_outranks_alive_in_the_reported_health() {
    let entries = build_broker_entries(
        &brokers(2),
        &["kaas-0".to_owned(), "kaas-1".to_owned()],
        &["kaas-1".to_owned()],
        "now",
        None,
    );
    assert_eq!(health_of(&entries, "kaas-1"), BrokerHealth::Draining);
}

fn assignment_of(brokers: Vec<BrokerAssignment>) -> Assignment {
    Assignment {
        controller_epoch: 0,
        assignment_version: 1,
        generated_at: String::new(),
        controller: "kaas-0".to_owned(),
        brokers,
        partitions: vec![],
        consumer_groups: vec![],
    }
}

#[test]
fn broker_loss_does_not_shrink_the_coordinator_divisor() {
    let all = brokers(3);
    let healthy = build_broker_entries(&all, &all, &[], "now", None);
    let degraded = build_broker_entries(&all, &["kaas-0".to_owned(), "kaas-1".to_owned()], &[], "now", None);
    assert_eq!(healthy.len(), degraded.len());
    let (names_h, alive_h) = assignment_of(healthy).broker_sets();
    let (names_d, alive_d) = assignment_of(degraded).broker_sets();
    assert_eq!(names_h, names_d, "divisor set is stable across the loss");
    assert_eq!(alive_h.len(), 3);
    let alive = names_d.iter().filter(|n| alive_d.get(n) == Some(&true)).count();
    assert_eq!(alive, 2);
}

#[test]
fn dead_broker_keeps_its_last_seen() {
    let prev = build_broker_entries(&brokers(2), &brokers(2), &[], "T1", None);
    let now = build_broker_entries(&brokers(2), &["kaas-0".to_owned()], &[], "T2", Some(&prev));
    assert_eq!(now.iter().find(|e| e.id == "kaas-1").unwrap().last_seen, "T1");
    assert_eq!(now.iter().find(|e| e.id == "kaas-0").unwrap().last_seen, "T2");
}

#[test]
fn alive_but_unregistered_broker_is_still_listed() {
    let entries = build_broker_entries(
        &["kaas-0".to_owned()],
        &["kaas-0".to_owned(), "kaas-1".to_owned()],
        &[],
        "now",
        None,
    );
    assert_eq!(entries.len(), 2);
    assert_eq!(health_of(&entries, "kaas-1"), BrokerHealth::Alive);
}

fn inputs(brokers_n: usize, topics_n: i32) -> RecomputeInputs {
    let s = StaticSources { topics: topics(topics_n), brokers: brokers(brokers_n), groups: vec!["g1".to_owned()] };
    RecomputeInputs {
        alive: s.alive_brokers(),
        registered: s.registered_brokers(),
        draining: s.draining_brokers(),
        topics: s.topics(),
        groups: s.active_groups().into_iter().map(|group_id| GroupSpec { group_id }).collect(),
        epoch_floor: TextMap::new(),
        now: "now".to_owned(),
    }
}

#[test]
fn initial_recompute_writes_a_valid_file() {
    let mut l = AssignmentLoop::new("kaas-0".to_owned());
    l.start(7, None);
    let v = l.update_assignment(&inputs(3, 2));
    l.write_finished(true);
    assert_eq!(v, 1, "first write is version 1");
    let snap = l.snapshot().expect("snapshot present after start");
    assert_eq!(snap.controller_epoch, 7);
    assert_eq!(snap.controller, "kaas-0");
    assert_eq!(snap.partitions.len(), 6);
    assert_eq!(snap.consumer_groups.len(), 1);
}

#[test]
fn version_increments_on_each_update() {
    let mut l = AssignmentLoop::new("kaas-0".to_owned());
    l.start(1, None);
    let v1 = l.update_assignment(&inputs(3, 2));
    l.write_finished(true);
    let v2 = l.update_assignment(&inputs(3, 2));
    l.write_finished(true);
    let v3 = l.update_assignment(&inputs(3, 2));
    l.write_finished(true);
    assert!(v3 > v2 && v2 > v1);
    assert_eq!((v1, v2, v3), (1, 2, 3));
}

#[test]
fn bootstraps_version_counter_from_existing_file() {
    let prior = Assignment {
        controller_epoch: 9,
        assignment_version: 42,
        generated_at: "2024-12-31T23:59:59Z".to_owned(),
        controller: "kaas-old".to_owned(),
        brokers: vec![],
        partitions: vec![],
        consumer_groups: vec![],
    };
    let mut l = AssignmentLoop::new("kaas-0".to_owned());
    l.start(10, Some(prior));
    let v = l.update_assignment(&inputs(3, 1));
    l.write_finished(true);
    assert_eq!(v, 43);
}

#[test]
fn snapshot_is_a_clone_not_a_reference_to_state() {
    let mut l = AssignmentLoop::new("kaas-0".to_owned());
    l.start(0, None);
    l.update_assignment(&inputs(3, 1));
    l.write_finished(true);
    let snap = l.snapshot().unwrap();
    l.update_assignment(&inputs(3, 1));
    l.write_finished(true);
    let snap2 = l.snapshot().unwrap();
    assert!(snap2.assignment_version > snap.assignment_version);
}

#[test]
fn no_brokers_yields_empty_partitions() {
    let mut l = AssignmentLoop::new("kaas-0".to_owned());
    l.start(0, None);
    l.update_assignment(&inputs(0, 2));
    l.write_finished(true);
    let snap = l.snapshot().unwrap();
    assert!(snap.partitions.is_empty());
    assert!(snap.consumer_groups.is_empty());
}

#[test]
fn nothing_is_assigned_before_the_first_recompute() {
    let mut l = AssignmentLoop::new("kaas-0".to_owned());
    l.start(3, None);
    assert!(l.snapshot().is_none());
}

#[test]
fn snapshot_waits_for_the_write() {
    let mut l = AssignmentLoop::new("kaas-0".to_owned());
    l.start(3, None);
    l.update_assignment(&inputs(3, 1));
    assert!(l.snapshot().is_none(), "computed, not written");
    l.write_finished(false);
    assert!(l.snapshot().is_none(), "a failed write is no write");
    assert_eq!(l.computed().unwrap().assignment_version, 1);
    l.update_assignment(&inputs(3, 1));
    l.write_finished(true);
    assert_eq!(l.snapshot().unwrap().assignment_version, 2);
    l.update_assignment(&inputs(3, 1));
    l.write_finished(false);
    assert_eq!(l.snapshot().unwrap().assignment_version, 2);
    assert_eq!(l.computed().unwrap().assignment_version, 3);
}

#[test]
fn snapshot_is_what_was_on_disk_at_the_start() {
    let prior = Assignment {
        controller_epoch: 9,
        assignment_version: 42,
        generated_at: "2024-12-31T23:59:59Z".to_owned(),
        controller: "kaas-old".to_owned(),
        brokers: vec![],
        partitions: vec![],
        consumer_groups: vec![],
    };
    let mut l = AssignmentLoop::new("kaas-0".to_owned());
    l.start(10, Some(prior));
    assert_eq!(l.snapshot().unwrap().assignment_version, 42);
}

#[test]
fn reasons_have_names() {
    assert_eq!(AssignmentReason::BrokerJoined.as_str(), "broker_joined");
    assert_eq!(AssignmentReason::TopicResized.as_str(), "topic_resized");
    assert_eq!(AssignmentReason::InitialRecompute.as_str(), "initial_recompute");
}

#[test]
fn floor_is_read_for_partitions_without_an_epoch() {
    let mut l = AssignmentLoop::new("kaas-0".to_owned());
    l.start(1, None);
    l.update_assignment(&inputs(2, 1));
    l.write_finished(true);
    let a = l.snapshot().unwrap();
    let missing = floor_candidates(&a.partitions, &topics(2));
    assert_eq!(missing, vec![("t1".to_owned(), 0), ("t1".to_owned(), 1), ("t1".to_owned(), 2)]);
    let floor = compute_epoch_floor(&vec![("t1".to_owned(), 0, 4), ("t1".to_owned(), 1, 0)]);
    assert_eq!(floor.get("t1/0"), Some(&4));
    assert_eq!(floor.get("t1/1"), None);
}

#[test]
fn versions_run_out() {
    let last = Assignment {
        controller_epoch: 9,
        assignment_version: i64::MAX,
        generated_at: "2024-12-31T23:59:59Z".to_owned(),
        controller: "kaas-old".to_owned(),
        brokers: vec![],
        partitions: vec![],
        consumer_groups: vec![],
    };
    let mut l = AssignmentLoop::new("kaas-0".to_owned());
    assert_eq!(l.checked_update_assignment(&inputs(3, 1)), Some(1));
    l.start(10, Some(last));
    assert_eq!(l.checked_update_assignment(&inputs(3, 1)), None);
    assert_eq!(l.computed().unwrap().assignment_version, i64::MAX);
}

#[test]
fn static_sources_can_be_empty_and_copied() {
    let none = StaticSources::default();
    assert!(none.topics().is_empty() && none.alive_brokers().is_empty() && none.active_groups().is_empty());
    let s = StaticSources { topics: topics(2), brokers: brokers(3), groups: vec!["g1".to_owned()] };
    let c = s.clone();
    assert_eq!(c.topics(), s.topics());
    assert_eq!(c.alive_brokers(), brokers(3));
    assert_eq!(c.active_groups(), vec!["g1".to_owned()]);
}

struct OnlyAlive;

impl BrokerSource for OnlyAlive {
    fn alive_brokers(&self) -> Vec<String> {
        vec!["kaas-0".to_owned(), "kaas-1".to_owned()]
    }
}

#[test]
fn a_source_that_says_no_more_registers_the_alive_brokers() {
    assert_eq!(OnlyAlive.registered_brokers(), vec!["kaas-0".to_owned(), "kaas-1".to_owned()]);
    assert!(OnlyAlive.draining_brokers().is_empty());
    let s = StaticSources { topics: Vec::new(), brokers: brokers(2), groups: Vec::new() };
    assert_eq!(s.registered_brokers(), brokers(2));
    assert!(s.draining_brokers().is_empty());
}
