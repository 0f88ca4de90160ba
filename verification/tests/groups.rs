use kaas::error_codes;
use kaas::group::{
    generate_member_id, Group, GroupAction, GroupSnapshot, GroupState, HeartbeatRequest, JoinOutcome, JoinRequest, JoinedMember, MemberSnapshot,
    ProtocolMetadata, SyncAssignment, SyncOutcome,
    SyncRequest, INITIAL_REBALANCE_DELAY_MS,
};
use kaas::keyed::TextMap;
use kaas::manager::{
    build_fetch_specs, build_offset_key, commit_code, delete_reply, BrokerEndpoint, BrokerLookup, FnLookup, GroupAssignmentSource, LocalGroupSource, LocalTxnSource,
    purge_tally, FileRead, Manager, PurgeStep, TxnAssignmentSource, WriteOutcome,
};
use kaas::offset_store::{offset_key, FetchSpec, GroupOffsets, OffsetStore};

fn join_req(member_id: &str, client_id: &str, protocol: &str) -> JoinRequest {
    JoinRequest {
        member_id: member_id.to_owned(),
        group_instance_id: None,
        session_timeout_ms: 30_000,
        rebalance_timeout_ms: 30_000,
        protocol_type: "consumer".to_owned(),
        protocols: vec![ProtocolMetadata { name: protocol.to_owned(), metadata: b"meta".to_vec() }],
        version: 9,
        client_id: client_id.to_owned(),
        client_host: "/127.0.0.1".to_owned(),
    }
}

fn sync_req(member_id: &str, generation_id: i32, assignments: Vec<SyncAssignment>) -> SyncRequest {
    SyncRequest {
        member_id: member_id.to_owned(),
        generation_id,
        group_instance_id: None,
        protocol_type: None,
        protocol_name: None,
        assignments,
    }
}

fn join_reply(out: &[GroupAction], t: u64) -> Option<&JoinOutcome> {
    out.iter().find_map(|a| match a {
        GroupAction::JoinReply { ticket, outcome } if *ticket == t => Some(outcome),
        _ => None,
    })
}

fn sync_reply(out: &[GroupAction], t: u64) -> Option<&SyncOutcome> {
    out.iter().find_map(|a| match a {
        GroupAction::SyncReply { ticket, reply } if *ticket == t => Some(reply),
        _ => None,
    })
}

fn armed(out: &[GroupAction]) -> Option<u64> {
    out.iter().find_map(|a| match a {
        GroupAction::ArmRebalance { after_ms } => Some(*after_ms),
        _ => None,
    })
}

// Joins one member and lets the rebalance timer fire.
fn joined(g: &mut Group, client: &str) -> (String, i32) {
    let out = g.join(join_req("", client, "range"), 1, 7, 0);
    assert!(join_reply(&out, 1).is_none(), "the answer waits for the timer");
    let out = g.rebalance_timer_fired();
    let j = join_reply(&out, 1).expect("the timer answers the join");
    assert_eq!(j.error_code, error_codes::NONE);
    (j.member_id.clone(), j.generation_id)
}

#[test]
fn single_member_rebalance_completes_via_initial_delay() {
    let mut g = Group::new("g1".to_owned());
    let out = g.join(join_req("", "consumer-1", "range"), 1, 7, 0);
    assert_eq!(armed(&out), Some(INITIAL_REBALANCE_DELAY_MS));
    assert!(join_reply(&out, 1).is_none());
    let out = g.rebalance_timer_fired();
    let outcome = join_reply(&out, 1).unwrap();
    assert_eq!(outcome.error_code, error_codes::NONE);
    assert_eq!(outcome.generation_id, 1);
    assert_eq!(outcome.leader, outcome.member_id);
    assert_eq!(outcome.protocol_name, "range");
    assert_eq!(outcome.members.len(), 1);
}

#[test]
fn sync_returns_leader_supplied_assignment() {
    let mut g = Group::new("g1".to_owned());
    let (member, generation) = joined(&mut g, "consumer-1");
    let mut req = sync_req(
        &member,
        generation,
        vec![SyncAssignment { member_id: member.clone(), assignment: b"\x01\x02\x03".to_vec() }],
    );
    req.protocol_type = Some("consumer".to_owned());
    req.protocol_name = Some("range".to_owned());
    let out = g.sync(req, 2);
    let s = sync_reply(&out, 2).unwrap();
    assert_eq!(s.error_code, error_codes::NONE);
    assert_eq!(s.assignment, b"\x01\x02\x03".to_vec());
    assert_eq!(g.state(), GroupState::Stable);
}

#[test]
fn heartbeat_unknown_member_for_empty_group() {
    let mut g = Group::new("g1".to_owned());
    let (code, _) = g.heartbeat(HeartbeatRequest { member_id: "ghost".to_owned(), generation_id: 0, group_instance_id: None });
    assert_eq!(code, error_codes::UNKNOWN_MEMBER_ID);
}

#[test]
fn leave_drops_state_back_to_empty() {
    let mut g = Group::new("g1".to_owned());
    let (member, generation) = joined(&mut g, "consumer-1");
    g.sync(sync_req(&member, generation, vec![SyncAssignment { member_id: member.clone(), assignment: vec![] }]), 2);
    let (out, _) = g.leave(&[member]);
    assert_eq!(out.len(), 1);
    assert_eq!(out[0].1, error_codes::NONE);
    assert_eq!(g.state(), GroupState::Empty);
}

#[test]
fn shutdown_fires_pending_joiners_with_unknown_member() {
    let mut g = Group::new("g1".to_owned());
    g.join(join_req("", "consumer-1", "range"), 5, 7, 0);
    let out = g.shutdown();
    assert_eq!(join_reply(&out, 5).unwrap().error_code, error_codes::UNKNOWN_MEMBER_ID);
    assert_eq!(g.state(), GroupState::Dead);
}

#[test]
fn a_second_member_waits_for_the_first_to_join_again() {
    let mut g = Group::new("g1".to_owned());
    let (a, gen1) = joined(&mut g, "a");
    g.sync(sync_req(&a, gen1, vec![SyncAssignment { member_id: a.clone(), assignment: vec![1] }]), 2);
    assert_eq!(g.state(), GroupState::Stable);
    let out = g.join(join_req("", "b", "range"), 3, 8, 10);
    assert!(join_reply(&out, 3).is_none());
    assert_eq!(g.state(), GroupState::PreparingRebalance);
    let (code, _) = g.heartbeat(HeartbeatRequest { member_id: a.clone(), generation_id: gen1, group_instance_id: None });
    assert_eq!(code, error_codes::REBALANCE_IN_PROGRESS);
    let out = g.join(join_req(&a, "a", "range"), 4, 9, 20);
    let ja = join_reply(&out, 4).unwrap();
    let jb = join_reply(&out, 3).unwrap();
    assert_eq!((ja.generation_id, jb.generation_id), (2, 2));
    assert_eq!(ja.leader, jb.leader);
    assert_eq!(ja.members.len() + jb.members.len(), 2, "only the leader is told the members");
    // The old generation is refused.
    let (code, _) = g.heartbeat(HeartbeatRequest { member_id: a, generation_id: gen1, group_instance_id: None });
    assert_eq!(code, error_codes::ILLEGAL_GENERATION);
}

#[test]
fn a_member_that_falls_silent_is_dropped() {
    let mut g = Group::new("g1".to_owned());
    let (a, gen1) = joined(&mut g, "a");
    g.sync(sync_req(&a, gen1, vec![]), 2);
    g.session_expired(&a);
    assert_eq!(g.state(), GroupState::Empty);
    let (code, _) = g.heartbeat(HeartbeatRequest { member_id: a, generation_id: gen1, group_instance_id: None });
    assert_eq!(code, error_codes::UNKNOWN_MEMBER_ID);
}

#[test]
fn descriptions_name_the_members() {
    let mut g = Group::new("g1".to_owned());
    let (a, gen1) = joined(&mut g, "consumer");
    g.sync(sync_req(&a, gen1, vec![SyncAssignment { member_id: a.clone(), assignment: vec![9] }]), 2);
    let s = g.describe();
    assert_eq!(s.id, "g1");
    assert_eq!(s.state, "Stable");
    assert_eq!(s.generation_id, 1);
    assert_eq!(s.members.len(), 1);
    assert_eq!(s.members[0].member_id, a);
    assert_eq!(s.members[0].client_id, "consumer");
    assert_eq!(s.members[0].assignment, vec![9]);
}

#[test]
fn descriptions_show_what_the_last_round_gave() {
    let mut g = Group::new("g1".to_owned());
    let (a, gen1) = joined(&mut g, "a");
    assert!(g.describe().members[0].assignment.is_empty(), "the leader has published nothing yet");
    g.sync(sync_req(&a, gen1, vec![SyncAssignment { member_id: a.clone(), assignment: vec![1, 2, 3] }]), 2);
    assert_eq!(g.describe().members[0].assignment, vec![1, 2, 3]);
    // The leader publishes again and leaves the member out.
    g.sync(sync_req(&a, gen1, vec![SyncAssignment { member_id: "x".to_owned(), assignment: vec![7] }]), 3);
    assert_eq!(g.describe().members[0].assignment, vec![1, 2, 3]);
    // A new round begins without assignments; whom the leader leaves out has none.
    g.join(join_req(&a, "a", "range"), 4, 9, 5000);
    assert_eq!(g.state(), GroupState::CompletingRebalance);
    assert!(g.describe().members[0].assignment.is_empty());
    g.sync(sync_req(&a, gen1 + 1, vec![]), 5);
    assert_eq!(g.describe().state, "Stable");
    assert!(g.describe().members[0].assignment.is_empty());
}

#[test]
fn member_ids_carry_the_client() {
    assert_eq!(generate_member_id("c", 0x0102_0304_0506_0708), "c-0807060504030201");
    assert_eq!(generate_member_id("", 255), "-ff00000000000000");
}

// The manager.

fn endpoint(id: &str) -> Option<BrokerEndpoint> {
    if id == "kaas-0" {
        Some(BrokerEndpoint { node_id: 0, host: "kaas-0.example.com".to_owned(), port: 9092 })
    } else {
        None
    }
}

type Local = Manager<LocalGroupSource, LocalTxnSource, FnLookup<fn(&str) -> Option<BrokerEndpoint>>>;

fn manager() -> Local {
    let f: fn(&str) -> Option<BrokerEndpoint> = endpoint;
    Manager::new("kaas-0".to_owned(), OffsetStore::new(), FnLookup::new(f), LocalGroupSource::new("kaas-0".to_owned()))
}

#[test]
fn find_coordinator_resolves_self() {
    let m = manager();
    let r = m.find_coordinator("g1", 0);
    assert_eq!(r.error_code, 0);
    assert_eq!(r.host, "kaas-0.example.com");
    assert_eq!(r.port, 9092);
}

#[test]
fn find_coordinator_unknown_key_type_is_invalid_request() {
    let m = manager();
    let r = m.find_coordinator("g1", 7);
    assert_eq!(r.error_code, 42);
}

#[test]
fn find_coordinator_txn_with_no_source_is_unavailable() {
    let m = manager();
    let r = m.find_coordinator("tx1", 1);
    assert_eq!(r.error_code, 15);
}

#[test]
fn find_coordinator_txn_with_source_resolves() {
    let mut m = manager();
    m.set_txn_assignment_source(LocalTxnSource::new("kaas-0".to_owned()));
    let r = m.find_coordinator("tx1", 1);
    assert_eq!(r.error_code, 0);
    assert_eq!(r.host, "kaas-0.example.com");
}

// Owns the groups that it names.
struct Owner {
    groups: Vec<&'static str>,
    all: bool,
}

impl GroupAssignmentSource for Owner {
    fn owns_group(&self, group_id: &str) -> bool {
        self.all || self.groups.contains(&group_id)
    }
    fn group_coordinator(&self, group_id: &str) -> Option<String> {
        if self.owns_group(group_id) {
            Some("kaas-0".to_owned())
        } else {
            None
        }
    }
}

struct NoTxns;

impl TxnAssignmentSource for NoTxns {
    fn owns_txn(&self, _transactional_id: &str) -> bool {
        false
    }
    fn txn_coordinator(&self, _transactional_id: &str) -> Option<String> {
        None
    }
}

struct Nobody;

impl BrokerLookup for Nobody {
    fn lookup(&self, _broker_id: &str) -> Option<BrokerEndpoint> {
        None
    }
}

fn owning(groups: Vec<&'static str>, all: bool) -> Manager<Owner, NoTxns, Nobody> {
    Manager::new("kaas-0".to_owned(), OffsetStore::new(), Nobody, Owner { groups, all })
}

fn offsets(rows: &[(&str, i32, i64)]) -> TextMap<i64> {
    let mut m: TextMap<i64> = TextMap::new();
    for (t, p, o) in rows {
        m.insert(offset_key(t, *p), *o);
    }
    m
}

#[test]
fn purge_topic_offsets_skips_groups_this_broker_does_not_coordinate() {
    let mut m = owning(vec![], true);
    let rows = [("gone", 0, 51_607), ("stays", 0, 7)];
    for g in ["mine", "theirs"] {
        m.offset_commit(g, &offsets(&rows), &TextMap::new()).ok().unwrap();
    }
    m.set_group_assignment_source(Owner { groups: vec!["mine"], all: false });
    let file = |rows: &[(&str, i32, i64)]| FileRead::Read(GroupOffsets { offsets: offsets(rows), metadata: TextMap::new() });
    let mut files: TextMap<FileRead> = TextMap::new();
    files.insert("theirs".to_owned(), file(&rows));
    files.insert("mine".to_owned(), file(&rows));
    let steps = m.purge_topic_offsets("gone", files);
    let done: Vec<(String, Option<usize>)> = steps
        .iter()
        .map(|p| match p {
            PurgeStep::Write { group_id, count, .. } => (group_id.clone(), Some(*count)),
            PurgeStep::Failed { group_id } => (group_id.clone(), None),
        })
        .collect();
    let (removed, failed) = purge_tally(&done);
    assert_eq!(removed, 1, "purged {removed} entries");
    assert!(failed.is_empty());
    for (g, want) in [("mine", -1), ("theirs", 51_607)] {
        let got = m.offsets.fetch(g, &[FetchSpec { topic: "gone".to_owned(), partitions: vec![0] }]);
        assert_eq!(got.get("gone/0"), Some(&want), "group {g}");
    }
}

#[test]
fn a_purge_reaches_files_and_names_those_it_cannot_read() {
    let mut m = owning(vec![], true);
    let rows = [("gone", 0, 5), ("gone", 1, 6), ("stays", 0, 7)];
    m.offset_commit("held", &offsets(&rows), &TextMap::new()).ok().unwrap();
    let mut files: TextMap<FileRead> = TextMap::new();
    files.insert("cold".to_owned(), FileRead::Read(GroupOffsets { offsets: offsets(&rows), metadata: TextMap::new() }));
    files.insert("other".to_owned(), FileRead::Read(GroupOffsets { offsets: offsets(&[("stays", 0, 7)]), metadata: TextMap::new() }));
    files.insert("torn".to_owned(), FileRead::Unreadable);
    files.insert("held".to_owned(), FileRead::Unreadable);
    let steps = m.purge_topic_offsets("gone", files);
    assert_eq!(steps.len(), 3);
    assert!(matches!(&steps[0], PurgeStep::Write { group_id, count: 2, group } if group_id == "cold" && group.offsets.len() == 1));
    assert!(matches!(&steps[1], PurgeStep::Write { group_id, count: 2, .. } if group_id == "held"));
    assert!(matches!(&steps[2], PurgeStep::Failed { group_id } if group_id == "torn"));
    assert!(!m.offsets.has_group("cold"), "a purge must not bring the group in");
    let done = vec![("cold".to_owned(), Some(2)), ("held".to_owned(), None), ("torn".to_owned(), None)];
    assert_eq!(purge_tally(&done), (2, vec!["held".to_owned(), "torn".to_owned()]));
}

#[test]
fn latecomers_are_turned_out_and_static_members_stay() {
    let mut g = Group::new("g1".to_owned());
    let mut fixed = join_req("fixed", "c", "range");
    fixed.group_instance_id = Some("rack-1".to_owned());
    // The first rebalance waits for its timer, however many have joined.
    assert!(join_reply(&g.join(fixed, 1, 0, 0), 1).is_none());
    assert!(join_reply(&g.join(join_req("slow", "c", "range"), 2, 1, 0), 2).is_none());
    assert!(join_reply(&g.join(join_req("quick", "c", "range"), 3, 2, 0), 3).is_none());
    assert_eq!(g.state(), GroupState::PreparingRebalance);
    g.rebalance_timer_fired();
    // Only one of the three joins again in time.
    g.join(join_req("quick", "c", "range"), 4, 3, 10);
    let out = g.rebalance_timer_fired();
    assert_eq!(join_reply(&out, 4).unwrap().error_code, error_codes::NONE);
    let ids: Vec<String> = g.describe().members.into_iter().map(|m| m.member_id).collect();
    assert_eq!(ids, vec!["fixed".to_owned(), "quick".to_owned()]);
}

#[test]
fn a_waiting_member_that_falls_silent_is_told() {
    let mut g = Group::new("g1".to_owned());
    g.join(join_req("m1", "c", "range"), 1, 0, 0);
    let out = g.session_expired("m1");
    assert_eq!(join_reply(&out, 1).unwrap().error_code, error_codes::UNKNOWN_MEMBER_ID);
    assert_eq!(g.state(), GroupState::Empty);
}

#[test]
fn waiting_syncs_are_answered_once() {
    let mut g = Group::new("g1".to_owned());
    g.join(join_req("m1", "c", "range"), 1, 0, 0);
    g.join(join_req("m2", "c", "range"), 2, 1, 0);
    g.rebalance_timer_fired();
    assert!(g.sync(sync_req("m2", 1, vec![]), 3).is_empty());
    // A new member cancels the round.
    let out = g.join(join_req("m3", "c", "range"), 4, 2, 0);
    assert_eq!(sync_reply(&out, 3).unwrap().error_code, error_codes::REBALANCE_IN_PROGRESS);
    let out = g.shutdown();
    assert!(sync_reply(&out, 3).is_none());
}

#[test]
fn a_shut_down_group_answers_every_waiting_request() {
    let mut g = Group::new("g1".to_owned());
    g.join(join_req("m1", "c", "range"), 1, 0, 0);
    g.join(join_req("m1", "c", "range"), 2, 1, 0);
    g.join(join_req("m2", "c", "range"), 3, 2, 0);
    let out = g.shutdown();
    for t in [1, 2, 3] {
        assert_eq!(join_reply(&out, t).unwrap().error_code, error_codes::UNKNOWN_MEMBER_ID, "request {t}");
    }
    assert_eq!(g.state(), GroupState::Dead);
}

#[test]
fn not_coordinator_on_offset_commit_when_source_says_no() {
    let mut m = owning(vec![], false);
    assert_eq!(m.offset_commit("g1", &offsets(&[("t1", 0, 42)]), &TextMap::new()).err(), Some(16));
    let (code, _) = m.heartbeat("g1", HeartbeatRequest { member_id: "m".into(), generation_id: 0, group_instance_id: None });
    assert_eq!(code, 16);
    assert!(m.offset_fetch("g1", &[]).is_none());
    let out = m.join_group("g1", join_req("m", "c", "range"), None, 3, 1, 0);
    assert_eq!(join_reply(&out, 3).unwrap().error_code, 16);
    assert_eq!(m.delete_group("g1").0, 16);
}

#[test]
fn join_then_sync_then_offset_commit_then_fetch_roundtrip() {
    let mut m = manager();
    assert!(m.needs_load("g1"));
    let out = m.join_group("g1", join_req("", "consumer-1", "range"), None, 1, 7, 0);
    assert_eq!(armed(&out), Some(INITIAL_REBALANCE_DELAY_MS));
    let out = m.rebalance_timer_fired("g1");
    let j = join_reply(&out, 1).unwrap();
    assert_eq!(j.error_code, 0);
    let out = m.sync_group(
        "g1",
        sync_req(
            &j.member_id,
            j.generation_id,
            vec![SyncAssignment { member_id: j.member_id.clone(), assignment: b"\xde\xad".to_vec() }],
        ),
        2,
    );
    let s = sync_reply(&out, 2).unwrap();
    assert_eq!(s.error_code, 0);
    assert_eq!(s.assignment, b"\xde\xad".to_vec());

    let written = m.offset_commit("g1", &offsets(&[("t1", 0, 42)]), &TextMap::new()).ok().unwrap();
    assert!(written.is_some());
    assert_eq!(commit_code(WriteOutcome::Written), 0);
    let (got_offsets, _) = m.offset_fetch("g1", &[FetchSpec { topic: "t1".into(), partitions: vec![0] }]).unwrap();
    assert_eq!(got_offsets.get("t1/0"), Some(&42));
    assert_eq!(m.local_groups(), vec!["g1".to_owned()]);
}

#[test]
fn delete_group_non_empty_when_state_is_stable() {
    let mut m = manager();
    m.join_group("g1", join_req("", "c1", "range"), None, 1, 7, 0);
    let out = m.rebalance_timer_fired("g1");
    let j = join_reply(&out, 1).unwrap();
    m.sync_group(
        "g1",
        sync_req(&j.member_id, j.generation_id, vec![SyncAssignment { member_id: j.member_id.clone(), assignment: vec![] }]),
        2,
    );
    assert_eq!(m.delete_group("g1").0, 67);
    m.leave_group("g1", &[j.member_id.clone()]);
    assert_eq!(m.delete_group("g1").0, 0);
}

#[test]
fn delete_group_unknown_returns_group_id_not_found() {
    let mut m = manager();
    assert_eq!(m.delete_group("never-existed").0, 69);
}

#[test]
fn groups_are_held_and_given_up() {
    let mut m = manager();
    for g in ["b", "a"] {
        m.join_group(g, join_req("", "c", "range"), None, 1, 7, 0);
    }
    let mut held = m.resident_groups();
    held.sort();
    assert_eq!(held, vec!["a".to_owned(), "b".to_owned()]);
    let out = m.relinquish_group("a");
    assert_eq!(join_reply(&out, 1).unwrap().error_code, error_codes::UNKNOWN_MEMBER_ID);
    assert_eq!(m.resident_groups(), vec!["b".to_owned()]);
    assert_eq!(m.list_groups().len(), 1);
    let d = m.describe_groups(&["b".to_owned(), "x".to_owned()]);
    assert_eq!(d[0].as_ref().unwrap().state, "PreparingRebalance");
    assert_eq!(d[1].as_ref().unwrap().state, "Empty");
}

#[test]
fn a_group_takes_in_its_file_when_it_comes() {
    let mut m = manager();
    let file = GroupOffsets { offsets: offsets(&[("t", 0, 5)]), metadata: TextMap::new() };
    m.join_group("g", join_req("", "c", "range"), Some(file), 1, 7, 0);
    let (got, _) = m.offset_fetch("g", &[FetchSpec { topic: "t".into(), partitions: vec![0] }]).unwrap();
    assert_eq!(got.get("t/0"), Some(&5));
    assert!(!m.needs_load("g"));
}

#[test]
fn codes_of_writes_and_keys() {
    assert_eq!(commit_code(WriteOutcome::Fenced), 16);
    assert_eq!(commit_code(WriteOutcome::Failed), 0);
    let gone = || vec!["t/0".to_owned()];
    assert_eq!(delete_reply(gone(), WriteOutcome::Written), (0, gone()));
    assert_eq!(delete_reply(gone(), WriteOutcome::Fenced), (16, vec![]));
    assert_eq!(delete_reply(gone(), WriteOutcome::Failed), (0, vec![]));
    assert_eq!(build_offset_key("t", 3), "t/3");
    let specs = build_fetch_specs(vec![("t".to_owned(), vec![1, 2])]);
    assert_eq!(specs[0].topic, "t");
    assert_eq!(specs[0].partitions, vec![1, 2]);
}

fn shown<T: std::fmt::Debug>(v: &T) -> String {
    format!("{v:?}")
}

#[test]
fn requests_and_replies_are_copied_whole() {
    let join = join_req("m1", "c1", "range");
    assert_eq!(shown(&join.clone()), shown(&join));
    let sync = sync_req("m1", 3, vec![SyncAssignment { member_id: "m1".to_owned(), assignment: vec![1, 2] }]);
    assert_eq!(shown(&sync.clone()), shown(&sync));
    assert_eq!(shown(&sync.assignments[0].clone()), shown(&sync.assignments[0]));
    let beat = HeartbeatRequest { member_id: "m1".to_owned(), generation_id: 3, group_instance_id: Some("i1".to_owned()) };
    assert_eq!(shown(&beat.clone()), shown(&beat));
    let joined = JoinOutcome {
        error_code: 0,
        generation_id: 3,
        leader: "m1".to_owned(),
        member_id: "m1".to_owned(),
        protocol_type: "consumer".to_owned(),
        protocol_name: "range".to_owned(),
        members: vec![JoinedMember { member_id: "m1".to_owned(), group_instance_id: None, metadata: vec![7] }],
    };
    assert_eq!(shown(&joined.clone()), shown(&joined));
    let snapshot = GroupSnapshot {
        id: "g".to_owned(),
        state: "Stable",
        protocol_type: "consumer".to_owned(),
        protocol_name: "range".to_owned(),
        generation_id: 3,
        members: vec![MemberSnapshot {
            member_id: "m1".to_owned(),
            client_id: "c1".to_owned(),
            group_instance_id: Some("i1".to_owned()),
            assignment: vec![1, 2],
        }],
    };
    assert_eq!(shown(&snapshot.clone()), shown(&snapshot));
    let none = SyncOutcome::default();
    assert_eq!((none.error_code, none.protocol_type.as_str(), none.protocol_name.as_str()), (0, "", ""));
    assert!(none.assignment.is_empty());
    assert_eq!(shown(&none.clone()), shown(&none));
}
