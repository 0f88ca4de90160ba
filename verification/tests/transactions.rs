use kaas::keyed::TextMap;
use kaas::txn_markers::{
    dispatch_markers, owed_partitions, reconcile_pending_markers, MarkerDispatch, MarkerStep, OwedMarker, ERR_COORDINATOR_NOT_AVAILABLE,
};
use kaas::txn_state::{
    fnv1a_32, EndTxnOutcome, OffsetSignal, PendingMarkerDispatch, TxnAbortRecord, TxnEntry, TxnState, TxnStateError, TxnStateStore, TxnTopic, DEFAULT_NUM_SLOTS,
};
use std::collections::HashSet;

fn store() -> TxnStateStore {
    TxnStateStore::open(DEFAULT_NUM_SLOTS)
}

// Producer ids from 100 on.
struct Pids(i64);

impl Pids {
    fn next(&mut self) -> i64 {
        let n = self.0;
        self.0 += 1;
        n
    }
}

fn allocate(s: &mut TxnStateStore, p: &mut Pids, id: &str) -> Result<(i64, i16), TxnStateError> {
    s.get_or_allocate(id, || p.next())
}

fn topic(name: &str, partitions: Vec<i32>) -> TxnTopic {
    TxnTopic { topic: name.to_owned(), partitions }
}

fn entry(s: &TxnStateStore, id: &str) -> TxnEntry {
    let snap = s.snapshot();
    snap.get(id).expect("the transaction is on record").clone()
}

fn signal(group: &str, pid: i64, commit: bool) -> OffsetSignal {
    OffsetSignal { group_id: group.to_owned(), producer_id: pid, commit }
}

#[test]
fn empty_txn_id_rejected() {
    let mut s = store();
    let mut a = Pids(100);
    assert!(matches!(allocate(&mut s, &mut a, ""), Err(TxnStateError::EmptyTxnId)));
}

#[test]
fn first_call_allocates_epoch_zero_rejoin_bumps() {
    let mut s = store();
    let mut a = Pids(100);
    let (pid1, e1) = allocate(&mut s, &mut a, "tx-1").unwrap();
    assert_eq!(e1, 0);
    let (pid2, e2) = allocate(&mut s, &mut a, "tx-1").unwrap();
    assert_eq!(pid1, pid2);
    assert_eq!(e2, 1);
    let (pid3, e3) = allocate(&mut s, &mut a, "tx-1").unwrap();
    assert_eq!(pid1, pid3);
    assert_eq!(e3, 2);
}

#[test]
fn distinct_txn_ids_get_distinct_pids() {
    let mut s = store();
    let mut a = Pids(100);
    let (p1, _) = allocate(&mut s, &mut a, "tx-a").unwrap();
    let (p2, _) = allocate(&mut s, &mut a, "tx-b").unwrap();
    assert_ne!(p1, p2);
}

#[test]
fn add_partitions_unknown_producer() {
    let mut s = store();
    let err = s.add_partitions("tx-1", 1, 0, &[topic("t", vec![0])], 0).unwrap_err();
    assert!(matches!(err, TxnStateError::UnknownProducer));
}

#[test]
fn add_partitions_happy_path_then_idempotent() {
    let mut s = store();
    let mut a = Pids(100);
    let (pid, epoch) = allocate(&mut s, &mut a, "tx-1").unwrap();
    s.add_partitions("tx-1", pid, epoch, &[topic("t", vec![0, 1])], 1_000).unwrap();
    s.add_partitions("tx-1", pid, epoch, &[topic("t", vec![0])], 2_000).unwrap();
    let e = entry(&s, "tx-1");
    assert_eq!(e.state, TxnState::Ongoing);
    assert_eq!(e.partitions, vec![topic("t", vec![0, 1])]);
    assert_eq!(e.ongoing_since_ms, 1_000);
}

#[test]
fn add_partitions_unions_across_calls() {
    let mut s = store();
    let mut a = Pids(100);
    let (pid, epoch) = allocate(&mut s, &mut a, "tx-1").unwrap();
    s.add_partitions("tx-1", pid, epoch, &[topic("t", vec![0])], 10).unwrap();
    s.add_partitions("tx-1", pid, epoch, &[topic("t", vec![1]), topic("u", vec![5])], 20).unwrap();
    assert_eq!(entry(&s, "tx-1").partitions, vec![topic("t", vec![0, 1]), topic("u", vec![5])]);
}

#[test]
fn epoch_mismatch_fences() {
    let mut s = store();
    let mut a = Pids(100);
    let (pid, _) = allocate(&mut s, &mut a, "tx-1").unwrap();
    let err = s.add_partitions("tx-1", pid, 7, &[topic("t", vec![0])], 0).unwrap_err();
    assert!(matches!(err, TxnStateError::EpochFenced));
}

#[test]
fn prepare_retains_the_dispatch_set_until_complete() {
    let mut s = store();
    let mut a = Pids(100);
    let (pid, epoch) = allocate(&mut s, &mut a, "tx-1").unwrap();
    s.add_partitions("tx-1", pid, epoch, &[topic("t", vec![0, 1])], 100).unwrap();
    let out = s.prepare_end_txn("tx-1", pid, epoch, true).unwrap();
    assert!(out.transition_fired);
    assert_eq!(out.partitions.len(), 1);
    let e = entry(&s, "tx-1");
    assert_eq!(e.state, TxnState::PrepareCommit);
    assert_eq!(e.partitions.len(), 1, "dispatch set must survive prepare");
    s.complete_end_txn("tx-1", pid, epoch, true).unwrap();
    let e = entry(&s, "tx-1");
    assert_eq!(e.state, TxnState::CompleteCommit);
    assert!(e.partitions.is_empty());
}

#[test]
fn prepare_is_re_drivable_with_the_same_dispatch_set() {
    let mut s = store();
    let mut a = Pids(100);
    let (pid, epoch) = allocate(&mut s, &mut a, "tx-1").unwrap();
    s.add_partitions("tx-1", pid, epoch, &[topic("t", vec![0])], 100).unwrap();
    let first = s.prepare_end_txn("tx-1", pid, epoch, true).unwrap();
    let second = s.prepare_end_txn("tx-1", pid, epoch, true).unwrap();
    assert!(second.transition_fired);
    assert_eq!(first.partitions, second.partitions);
}

#[test]
fn prepare_rejects_the_opposite_outcome() {
    let mut s = store();
    let mut a = Pids(100);
    let (pid, epoch) = allocate(&mut s, &mut a, "tx-1").unwrap();
    s.add_partitions("tx-1", pid, epoch, &[topic("t", vec![0])], 100).unwrap();
    s.prepare_end_txn("tx-1", pid, epoch, true).unwrap();
    assert!(matches!(s.prepare_end_txn("tx-1", pid, epoch, false), Err(TxnStateError::InvalidState)));
    assert!(matches!(s.complete_end_txn("tx-1", pid, epoch, false), Err(TxnStateError::InvalidState)));
}

#[test]
fn offset_hook_fires_on_complete_not_on_prepare() {
    let mut s = store();
    let mut a = Pids(100);
    let (pid, epoch) = allocate(&mut s, &mut a, "tx-1").unwrap();
    s.add_offsets_to_txn("tx-1", pid, epoch, "g1", 100).unwrap();
    let out = s.prepare_end_txn("tx-1", pid, epoch, true).unwrap();
    assert_eq!(out.groups, vec!["g1".to_owned()]);
    let fired = s.complete_end_txn("tx-1", pid, epoch, true).unwrap();
    assert_eq!(fired, vec![signal("g1", pid, true)]);
}

#[test]
fn complete_without_prepare_is_invalid() {
    let mut s = store();
    let mut a = Pids(100);
    let (pid, epoch) = allocate(&mut s, &mut a, "tx-1").unwrap();
    s.add_partitions("tx-1", pid, epoch, &[topic("t", vec![0])], 100).unwrap();
    assert!(matches!(s.complete_end_txn("tx-1", pid, epoch, true), Err(TxnStateError::InvalidState)));
}

#[test]
fn end_txn_happy_commit_clears_partitions_and_fires_hook() {
    let mut s = store();
    let mut a = Pids(100);
    let (pid, epoch) = allocate(&mut s, &mut a, "tx-1").unwrap();
    s.add_partitions("tx-1", pid, epoch, &[topic("t", vec![0])], 100).unwrap();
    s.add_offsets_to_txn("tx-1", pid, epoch, "g1", 110).unwrap();
    s.add_offsets_to_txn("tx-1", pid, epoch, "g2", 120).unwrap();
    let (_, fired) = s.end_txn("tx-1", pid, epoch, true).unwrap();
    let e = entry(&s, "tx-1");
    assert_eq!(e.state, TxnState::CompleteCommit);
    assert!(e.partitions.is_empty());
    assert!(e.groups.is_empty());
    assert_eq!(e.ongoing_since_ms, 0);
    assert_eq!(fired, vec![signal("g1", pid, true), signal("g2", pid, true)]);
}

#[test]
fn end_txn_idempotent_retry_returns_ok() {
    let mut s = store();
    let mut a = Pids(100);
    let (pid, epoch) = allocate(&mut s, &mut a, "tx-1").unwrap();
    s.add_partitions("tx-1", pid, epoch, &[topic("t", vec![0])], 0).unwrap();
    s.end_txn("tx-1", pid, epoch, true).unwrap();
    s.end_txn("tx-1", pid, epoch, true).unwrap();
    assert!(matches!(s.end_txn("tx-1", pid, epoch, false), Err(TxnStateError::InvalidState)));
}

#[test]
fn end_txn_against_empty_is_invalid() {
    let mut s = store();
    let mut a = Pids(100);
    let (pid, epoch) = allocate(&mut s, &mut a, "tx-1").unwrap();
    let err = s.end_txn("tx-1", pid, epoch, true).unwrap_err();
    assert!(matches!(err, TxnStateError::InvalidState));
}

#[test]
fn reaper_aborts_overdue_bumps_epoch_fires_hook() {
    let mut s = store();
    let mut a = Pids(100);
    let (pid, epoch) = s.get_or_allocate_with_timeout("tx-1", 1_000, || a.next()).unwrap();
    s.add_partitions("tx-1", pid, epoch, &[topic("t", vec![0])], 10_000).unwrap();
    s.add_offsets_to_txn("tx-1", pid, epoch, "g1", 10_000).unwrap();

    let aborted = s.abort_overdue(10_500);
    assert!(aborted.is_empty());

    let aborted = s.abort_overdue(20_000);
    assert_eq!(aborted.len(), 1);
    assert_eq!(aborted[0].pid, pid);
    assert_eq!(aborted[0].old_epoch, epoch);
    assert_eq!(aborted[0].new_epoch, epoch + 1);
    assert_eq!(aborted[0].groups, vec!["g1".to_owned()]);

    let e = entry(&s, "tx-1");
    assert_eq!(e.state, TxnState::PrepareAbort);
    assert_eq!(e.epoch, epoch + 1);
    assert_eq!(e.partitions, vec![topic("t", vec![0])], "dispatch set must survive for the marker reconcile");

    let pending = s.pending_marker_dispatches(None);
    assert_eq!(pending.len(), 1);
    assert_eq!(pending[0].txn_id, "tx-1");
    assert_eq!(pending[0].pid, pid);
    assert_eq!(pending[0].epoch, epoch + 1);
    assert!(!pending[0].commit, "timed-out txn aborts");

    let fired = s.complete_end_txn("tx-1", pid, epoch + 1, false).unwrap();
    let e = entry(&s, "tx-1");
    assert_eq!(e.state, TxnState::CompleteAbort);
    assert!(e.partitions.is_empty());
    assert_eq!(fired, vec![signal("g1", pid, false)]);
    assert!(s.pending_marker_dispatches(None).is_empty());
}

#[test]
fn reaper_owns_gate_filters() {
    let mut s = store();
    let mut a = Pids(100);
    let (pid, epoch) = s.get_or_allocate_with_timeout("tx-mine", 1_000, || a.next()).unwrap();
    s.add_partitions("tx-mine", pid, epoch, &[topic("t", vec![0])], 5_000).unwrap();
    let (pid2, e2) = s.get_or_allocate_with_timeout("tx-theirs", 1_000, || a.next()).unwrap();
    s.add_partitions("tx-theirs", pid2, e2, &[topic("t", vec![0])], 5_000).unwrap();
    let aborted = s.abort_overdue_owned(10_000, Some(&vec!["tx-mine".to_owned()]));
    assert_eq!(aborted.len(), 1);
    assert_eq!(aborted[0].txn_id, "tx-mine");
}

#[test]
fn slot_hashing_distributes_consistently() {
    let s = store();
    assert_eq!(s.slot_for("tx-1"), s.slot_for("tx-1"));
    let slots: Vec<usize> = (0..20).map(|i| s.slot_for(&format!("tx-{i}"))).collect();
    let distinct: HashSet<usize> = slots.iter().copied().collect();
    assert!(distinct.len() > 10, "expected reasonable spread, got {distinct:?}");
}

#[test]
fn epoch_overflow_rotates_to_fresh_pid() {
    let mut s = store();
    let slot = s.slot_for("tx-1");
    let mut state: TextMap<TxnEntry> = TextMap::new();
    state.insert(
        "tx-1".to_owned(),
        TxnEntry {
            pid: 42,
            epoch: i16::MAX,
            partitions: vec![],
            ongoing_since_ms: 0,
            transaction_timeout_ms: 5_000,
            state: TxnState::Empty,
            groups: vec![],
        },
    );
    s.put_slot(slot, state);
    let mut a = Pids(100);
    let (pid, epoch) = allocate(&mut s, &mut a, "tx-1").unwrap();
    assert_ne!(pid, 42);
    assert_eq!(epoch, 0);
    assert_eq!(entry(&s, "tx-1").transaction_timeout_ms, 5_000);
}

#[test]
fn persistence_round_trip_across_open() {
    let mut a = Pids(100);
    let mut s = store();
    let (pid, _) = allocate(&mut s, &mut a, "tx-1").unwrap();
    s.add_partitions("tx-1", pid, 0, &[topic("t", vec![0, 1])], 100).unwrap();
    let slot = s.slot_for("tx-1");
    assert!(s.take_dirty(slot), "the slot has to be written");
    assert!(!s.take_dirty(slot));
    // The slot moves to another store, as a file would carry it.
    let mut carried: TextMap<TxnEntry> = TextMap::new();
    for id in s.slot(slot).sorted_keys() {
        let e = s.slot(slot).get(&id).unwrap().clone();
        carried.insert(id, e);
    }
    let mut s2 = store();
    s2.put_slot(slot, carried);
    let e = entry(&s2, "tx-1");
    assert_eq!(e.pid, pid);
    assert_eq!(e.epoch, 0);
    assert_eq!(e.state, TxnState::Ongoing);
    assert_eq!(e.partitions, vec![topic("t", vec![0, 1])]);
}

#[test]
fn add_partitions_concurrent_transition_rejected() {
    let mut s = store();
    let mut a = Pids(100);
    let (pid, epoch) = allocate(&mut s, &mut a, "tx-1").unwrap();
    let slot = s.slot_for("tx-1");
    let mut e = entry(&s, "tx-1");
    e.state = TxnState::PrepareCommit;
    let mut state: TextMap<TxnEntry> = TextMap::new();
    state.insert("tx-1".to_owned(), e);
    s.put_slot(slot, state);
    let err = s.add_partitions("tx-1", pid, epoch, &[topic("t", vec![0])], 0).unwrap_err();
    assert!(matches!(err, TxnStateError::Concurrent));
}

#[test]
fn errors_in_words() {
    assert_eq!(TxnStateError::EmptyTxnId.message(), "txn state: empty transactional id");
    assert_eq!(TxnStateError::UnknownProducer.message(), "txn state: unknown txn id or pid mismatch");
    assert_eq!(TxnStateError::EpochFenced.message(), "txn state: producer epoch fenced");
    assert_eq!(TxnStateError::Concurrent.message(), "txn state: concurrent transition in progress");
    assert_eq!(TxnStateError::InvalidState.message(), "txn state: invalid state transition");
    assert_eq!(TxnStateError::Io("disk".to_owned()).message(), "txn state: i/o: disk");
    assert_eq!(TxnStateError::Decode("eof".to_owned()).message(), "txn state: decode: eof");
}

#[test]
fn fnv_of_known_texts() {
    assert_eq!(fnv1a_32(b""), 0x811c_9dc5);
    assert_eq!(fnv1a_32(b"a"), 0xe40c_292c);
    assert_eq!(fnv1a_32(b"foobar"), 0xbf9c_f968);
}

// Markers.

fn owed(topics: &[TxnTopic], leader: impl Fn(&str, i32) -> Option<String>) -> Vec<OwedMarker> {
    owed_partitions(topics)
        .into_iter()
        .map(|(topic, partition)| {
            let l = leader(&topic, partition);
            OwedMarker { topic, partition, leader: l }
        })
        .collect()
}

// Runs a dispatch in which every step goes through.
fn drive(mut d: MarkerDispatch) -> (Result<(), i16>, Vec<(String, i32)>, Vec<(String, Vec<TxnTopic>)>) {
    let mut appended: Vec<(String, i32)> = Vec::new();
    let mut queued: Vec<(String, Vec<TxnTopic>)> = Vec::new();
    loop {
        match d.step() {
            MarkerStep::Append(t, p) => {
                assert!(queued.is_empty(), "appends come first");
                appended.push((t, p));
            }
            MarkerStep::Enqueue(k) => {
                let (target, e) = d.queued(k);
                queued.push((target.clone(), e.partitions.clone()));
            }
            MarkerStep::Finished(r) => return (r, appended, queued),
        }
        d.record(true);
    }
}

// One sweep on a broker that runs on its own.
fn sweep(s: &mut TxnStateStore, owned: Option<&Vec<String>>) -> (usize, usize) {
    let pending = s.prepared_transactions(owned);
    let mut appends = 0;
    let mut placed: Vec<bool> = Vec::new();
    for p in &pending {
        let d = dispatch_markers("self", &p.txn_id, p.pid, p.epoch, p.commit, &owed(&p.partitions, |_, _| None), false);
        let (r, appended, _) = drive(d);
        appends += appended.len();
        placed.push(r.is_ok());
    }
    (reconcile_pending_markers(s, &pending, &placed).0, appends)
}

#[test]
fn reconcile_completes_a_reaper_prepared_abort() {
    let mut s = store();
    let (pid, epoch) = s.get_or_allocate_with_timeout("tx-1", 1_000, || 1).unwrap();
    s.add_partitions("tx-1", pid, epoch, &[topic("t", vec![0])], 10_000).unwrap();
    assert_eq!(s.abort_overdue(20_000).len(), 1);
    assert_eq!(entry(&s, "tx-1").state, TxnState::PrepareAbort);
    let (completed, appends) = sweep(&mut s, None);
    assert_eq!(completed, 1);
    assert_eq!(appends, 1, "the sweep must append the marker");
    let e = entry(&s, "tx-1");
    assert_eq!(e.state, TxnState::CompleteAbort);
    assert!(e.partitions.is_empty());
    assert_eq!(sweep(&mut s, None).0, 0);
}

#[test]
fn reconcile_completes_a_stranded_commit() {
    let mut s = store();
    let (pid, epoch) = s.get_or_allocate("tx-1", || 1).unwrap();
    s.add_partitions("tx-1", pid, epoch, &[topic("t", vec![0])], 100).unwrap();
    s.prepare_end_txn("tx-1", pid, epoch, true).unwrap();
    assert_eq!(sweep(&mut s, None).0, 1);
    assert_eq!(entry(&s, "tx-1").state, TxnState::CompleteCommit, "a stranded commit must be driven to completion");
}

#[test]
fn reconcile_honours_the_ownership_gate() {
    let mut s = store();
    let (pid, epoch) = s.get_or_allocate("tx-theirs", || 1).unwrap();
    s.add_partitions("tx-theirs", pid, epoch, &[topic("t", vec![0])], 100).unwrap();
    s.prepare_end_txn("tx-theirs", pid, epoch, true).unwrap();
    assert_eq!(sweep(&mut s, Some(&vec!["tx-mine".to_owned()])).0, 0);
    assert_eq!(entry(&s, "tx-theirs").state, TxnState::PrepareCommit, "another broker's transaction must be left alone");
}

#[test]
fn markers_go_to_their_leaders() {
    let topics = [topic("t", vec![0, 1, 2, 3]), topic("u", vec![0])];
    let leader = |t: &str, p: i32| match (t, p) {
        ("t", 0) => Some("kaas-0".to_owned()),
        ("t", 1) => Some("kaas-2".to_owned()),
        ("t", 2) => Some("kaas-1".to_owned()),
        ("t", 3) => Some("kaas-2".to_owned()),
        ("u", 0) => Some("kaas-2".to_owned()),
        _ => None,
    };
    let d = dispatch_markers("kaas-0", "tx", 7, 3, true, &owed(&topics, leader), true);
    let (target, e) = d.queued(0);
    assert_eq!(target, "kaas-1");
    assert_eq!((e.transactional_id.as_str(), e.producer_id, e.producer_epoch, e.commit, e.coordinator_epoch), ("tx", 7, 3, true, 0));
    let (r, appended, queued) = drive(d);
    assert_eq!(r, Ok(()));
    assert_eq!(appended, vec![("t".to_owned(), 0)]);
    assert_eq!(
        queued,
        vec![
            ("kaas-1".to_owned(), vec![topic("t", vec![2])]),
            ("kaas-2".to_owned(), vec![topic("t", vec![1, 3]), topic("u", vec![0])]),
        ]
    );
}

#[test]
fn a_marker_that_cannot_be_placed_fails_the_dispatch() {
    let topics = [topic("t", vec![0, 1])];
    let mut d = dispatch_markers("kaas-0", "tx", 7, 3, false, &owed(&topics, |_, _| None), false);
    assert_eq!(d.step(), MarkerStep::Append("t".to_owned(), 0));
    d.record(false);
    assert_eq!(d.step(), MarkerStep::Finished(Err(ERR_COORDINATOR_NOT_AVAILABLE)));
    d.record(true);
    assert_eq!(d.step(), MarkerStep::Finished(Err(15)));

    // Another leader, and no queue to reach it.
    let d = dispatch_markers("kaas-0", "tx", 7, 3, false, &owed(&topics, |_, _| Some("kaas-1".to_owned())), false);
    assert_eq!(d.step(), MarkerStep::Finished(Err(15)));

    // Nothing owed.
    let d = dispatch_markers("kaas-0", "tx", 7, 3, false, &vec![], false);
    assert_eq!(d.step(), MarkerStep::Finished(Ok(())));
}

#[test]
fn a_failed_dispatch_leaves_the_transaction_prepared() {
    let mut s = store();
    let (pid, epoch) = s.get_or_allocate("tx-1", || 1).unwrap();
    s.add_partitions("tx-1", pid, epoch, &[topic("t", vec![0])], 100).unwrap();
    s.prepare_end_txn("tx-1", pid, epoch, true).unwrap();
    let pending = s.pending_marker_dispatches(None);
    let (n, signals) = reconcile_pending_markers(&mut s, &pending, &vec![false]);
    assert_eq!(n, 0);
    assert!(signals.is_empty());
    assert_eq!(entry(&s, "tx-1").state, TxnState::PrepareCommit);
    assert_eq!(s.pending_marker_dispatches(None).len(), 1);
}

#[test]
fn a_prepared_transaction_has_no_start_time() {
    for commit in [true, false] {
        let mut s = store();
        let mut a = Pids(100);
        let (pid, epoch) = allocate(&mut s, &mut a, "tx-1").unwrap();
        s.add_partitions("tx-1", pid, epoch, &[topic("t", vec![0])], 1000).unwrap();
        assert_eq!(entry(&s, "tx-1").ongoing_since_ms, 1000);
        s.prepare_end_txn("tx-1", pid, epoch, commit).unwrap();
        let e = entry(&s, "tx-1");
        assert_eq!(e.state, if commit { TxnState::PrepareCommit } else { TxnState::PrepareAbort });
        assert_eq!(e.ongoing_since_ms, 0);
    }
}

#[test]
fn a_topic_without_partitions_adds_nothing() {
    let mut s = store();
    let mut a = Pids(100);
    let (pid, epoch) = allocate(&mut s, &mut a, "tx-1").unwrap();
    s.add_partitions("tx-1", pid, epoch, &[topic("t", vec![0])], 1000).unwrap();
    let k = s.slot_for("tx-1");
    assert!(s.take_dirty(k));
    s.add_partitions("tx-1", pid, epoch, &[topic("u", vec![]), topic("t", vec![0, 0])], 2000).unwrap();
    assert!(!s.take_dirty(k), "every pair was recorded");
    assert_eq!(entry(&s, "tx-1").partitions, vec![topic("t", vec![0])]);
    s.add_partitions("tx-1", pid, epoch, &[topic("u", vec![3, 1]), topic("t", vec![2, 0])], 2000).unwrap();
    assert!(s.take_dirty(k));
    assert_eq!(entry(&s, "tx-1").partitions, vec![topic("t", vec![0, 2]), topic("u", vec![3, 1])]);
}

#[test]
fn a_transaction_of_empty_topics_owes_no_markers() {
    let mut s = store();
    let mut a = Pids(100);
    let (pid, epoch) = allocate(&mut s, &mut a, "tx-1").unwrap();
    s.add_partitions("tx-1", pid, epoch, &[topic("u", vec![])], 1000).unwrap();
    assert_eq!(entry(&s, "tx-1").state, TxnState::Ongoing);
    s.prepare_end_txn("tx-1", pid, epoch, true).unwrap();
    assert!(s.pending_marker_dispatches(None).is_empty());
}

#[test]
fn a_partition_recorded_under_any_row_is_not_new() {
    let mut s = store();
    let k = s.slot_for("tx-1");
    let mut m: TextMap<TxnEntry> = TextMap::new();
    m.insert(
        "tx-1".to_owned(),
        TxnEntry {
            pid: 7,
            epoch: 0,
            partitions: vec![topic("t", vec![0]), topic("t", vec![1])],
            ongoing_since_ms: 5,
            transaction_timeout_ms: 0,
            state: TxnState::Ongoing,
            groups: vec![],
        },
    );
    s.put_slot(k, m);
    s.add_partitions("tx-1", 7, 0, &[topic("t", vec![1])], 9).unwrap();
    assert!(!s.take_dirty(k));
    assert_eq!(entry(&s, "tx-1").partitions, vec![topic("t", vec![0]), topic("t", vec![1])]);
}

#[test]
fn a_second_sweep_finds_nothing() {
    let mut s = store();
    let mut a = Pids(100);
    for (id, timeout) in [("tx-1", 1_000), ("tx-2", 1_000), ("tx-3", 1_000_000)] {
        let (pid, epoch) = s.get_or_allocate_with_timeout(id, timeout, || a.next()).unwrap();
        s.add_partitions(id, pid, epoch, &[topic("t", vec![0])], 10_000).unwrap();
    }
    let mut ids: Vec<String> = s.abort_overdue(20_000).into_iter().map(|r| r.txn_id).collect();
    ids.sort();
    assert_eq!(ids, vec!["tx-1".to_owned(), "tx-2".to_owned()]);
    assert_eq!(entry(&s, "tx-1").ongoing_since_ms, 0);
    assert_eq!(entry(&s, "tx-3").state, TxnState::Ongoing);
    assert_eq!(entry(&s, "tx-3").ongoing_since_ms, 10_000);
    assert!(s.abort_overdue(20_000).is_empty());
}

#[test]
fn the_sweep_completes_a_transaction_without_partitions() {
    let mut s = store();
    let (pid, epoch) = s.get_or_allocate_with_timeout("tx-1", 1_000, || 1).unwrap();
    s.add_offsets_to_txn("tx-1", pid, epoch, "g1", 10_000).unwrap();
    assert_eq!(s.abort_overdue(20_000).len(), 1);
    assert!(s.pending_marker_dispatches(None).is_empty(), "there is nothing to dispatch");
    let prepared = s.prepared_transactions(None);
    assert_eq!(prepared.len(), 1);
    assert!(s.prepared_transactions(Some(&vec!["tx-2".to_owned()])).is_empty());
    let (n, signals) = reconcile_pending_markers(&mut s, &prepared, &vec![true]);
    assert_eq!((n, signals), (1, vec![signal("g1", pid, false)]));
    assert_eq!(entry(&s, "tx-1").state, TxnState::CompleteAbort);
    assert_eq!(sweep(&mut s, None), (0, 0));
}

#[test]
fn outcomes_are_copied_whole() {
    let parts = || vec![TxnTopic { topic: "t".to_owned(), partitions: vec![0, 2] }];
    let end = EndTxnOutcome { partitions: parts(), groups: vec!["g".to_owned()], transition_fired: true };
    assert_eq!(end.clone(), end);
    let owed = PendingMarkerDispatch { txn_id: "x".to_owned(), pid: 100, epoch: 1, commit: true, partitions: parts() };
    assert_eq!(owed.clone(), owed);
    let gone = TxnAbortRecord { txn_id: "x".to_owned(), pid: 100, old_epoch: 1, new_epoch: 2, groups: vec!["g".to_owned()] };
    assert_eq!(gone.clone(), gone);
}
