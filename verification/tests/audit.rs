use kaas::group::GroupState;
use kaas::metrics::{Instrument, InstrumentKind, LATENCY_BOUNDARIES_MICROS};
use std::collections::HashSet;

// Instruments that are recorded somewhere.
const EXPECTED_WIRED: &[&str] = &[
    "request_latency",
    "write_latency",
    "read_latency",
    "fsync_latency",
    "controller_failovers",
    "controller_failover_duration",
    "assignment_changes",
    "assignment_file_writes",
    "assignment_file_write_latency",
    "assignment_pushes",
    "assignment_polls",
    "stale_assignments_rejected",
    "heartbeat_misses",
    "group_rebalances",
    "auth_success",
    "auth_failure",
    "acl_deny",
    "quota_throttle",
    "tls_handshakes",
    "connections",
    "connections_open",
    "cleaner_runs",
    "cleaner_duration",
    "cleaner_segments_deleted",
    "cleaner_bytes_reclaimed",
    "produce_errors",
    "fetch_errors",
    "operator_reconciles",
    "operator_reconcile_duration",
];

// Instruments that nothing records.
const EXPECTED_ZERO: &[&str] = &[
    "codec_record_decode",
    "codec_batch_reencode",
    "self_fence_events",
    "heartbeat_rtt",
    "cert_reloads",
    "compaction_runs",
    "compaction_duration",
    "compaction_records_kept",
    "compaction_records_dropped",
    "compaction_bytes_in",
    "compaction_bytes_out",
    "otlp_push_success",
    "otlp_push_failure",
    "otlp_push_duration",
];

#[test]
fn expected_zero_and_wired_are_disjoint() {
    let wired: HashSet<&str> = EXPECTED_WIRED.iter().copied().collect();
    let zero: HashSet<&str> = EXPECTED_ZERO.iter().copied().collect();
    let overlap: Vec<_> = wired.intersection(&zero).collect();
    assert!(overlap.is_empty(), "instrument in both lists: {overlap:?}");
}

#[test]
fn states_have_names() {
    assert_eq!(GroupState::Empty.as_str(), "Empty");
    assert_eq!(GroupState::CompletingRebalance.as_str(), "CompletingRebalance");
}

#[test]
fn instruments_keep_their_names_and_units() {
    let all = Instrument::all();
    assert_eq!(all.len(), 45);
    assert_eq!(all.iter().map(|i| i.name()).collect::<HashSet<&str>>().len(), 45);
    assert!(all.iter().all(|i| i.name().starts_with("kaas.") && !i.description().is_empty()));
    let i = Instrument::RequestLatency;
    assert_eq!((i.name(), i.kind(), i.unit()), ("kaas.request.latency", InstrumentKind::LatencyHistogram, Some("s")));
    let i = Instrument::CleanerBytesReclaimed;
    assert_eq!((i.name(), i.kind(), i.unit()), ("kaas.cleaner.bytes.reclaimed", InstrumentKind::Counter, Some("By")));
    let i = Instrument::ConnectionsOpen;
    assert_eq!((i.name(), i.kind(), i.unit()), ("kaas.connections.open", InstrumentKind::UpDownCounter, None));
    assert_eq!(i.description(), "Currently open client connections");
    assert!(LATENCY_BOUNDARIES_MICROS.windows(2).all(|w| w[0] < w[1]));
}
