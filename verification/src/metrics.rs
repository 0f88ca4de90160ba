//! The instruments that the broker and the operator report with.
//!
//! Names, descriptions and units are fixed: dashboards and alert rules are
//! written against them.

use vstd::prelude::*;

verus! {

/// The bounds of the buckets of every latency histogram, in microseconds: from
/// a hot path inside a process to a failover.
pub const LATENCY_BOUNDARIES_MICROS: [u64; 15] = [
    100,
    500,
    1_000,
    5_000,
    10_000,
    25_000,
    50_000,
    100_000,
    250_000,
    500_000,
    1_000_000,
    2_500_000,
    5_000_000,
    10_000_000,
    30_000_000,
];

/// What an instrument measures with.
#[derive(Debug, Clone, Copy, PartialEq, Eq, Structural)]
pub enum InstrumentKind {
    /// Counts up.
    Counter,
    /// Counts up and down.
    UpDownCounter,
    /// Sorts seconds into the latency buckets.
    LatencyHistogram,
}

/// An instrument.
#[derive(Debug, Clone, Copy, PartialEq, Eq, Structural)]
pub enum Instrument {
    RequestLatency,
    WriteLatency,
    ReadLatency,
    FsyncLatency,
    ControllerFailovers,
    ControllerFailoverDuration,
    AssignmentChanges,
    AssignmentFileWrites,
    AssignmentFileWriteLatency,
    AssignmentPushes,
    AssignmentPolls,
    StaleAssignmentsRejected,
    HeartbeatRtt,
    HeartbeatMisses,
    SelfFenceEvents,
    CodecRecordDecode,
    CodecBatchReencode,
    GroupRebalances,
    AuthSuccess,
    AuthFailure,
    AclDeny,
    QuotaThrottle,
    TlsHandshakes,
    CertReloads,
    Connections,
    ConnectionsOpen,
    ProduceErrors,
    FetchErrors,
    CleanerRuns,
    CleanerDuration,
    CleanerSegmentsDeleted,
    CleanerBytesReclaimed,
    CompactionRuns,
    CompactionDuration,
    CompactionRecordsKept,
    CompactionRecordsDropped,
    CompactionBytesIn,
    CompactionBytesOut,
    OtlpPushSuccess,
    OtlpPushFailure,
    OtlpPushDuration,
    OperatorReconciles,
    OperatorReconcileDuration,
    K8sApiCalls,
    K8sApiLatency,
}

/// The name that an instrument is registered under.
pub open spec fn name_of(i: Instrument) -> Seq<char> {
    match i {
        Instrument::RequestLatency => "kaas.request.latency"@,
        Instrument::WriteLatency => "kaas.storage.write.latency"@,
        Instrument::ReadLatency => "kaas.storage.read.latency"@,
        Instrument::FsyncLatency => "kaas.storage.fsync.latency"@,
        Instrument::ControllerFailovers => "kaas.controller.failovers"@,
        Instrument::ControllerFailoverDuration => "kaas.controller.failover.duration"@,
        Instrument::AssignmentChanges => "kaas.assignment.changes"@,
        Instrument::AssignmentFileWrites => "kaas.assignment.file.writes"@,
        Instrument::AssignmentFileWriteLatency => "kaas.assignment.file.write.latency"@,
        Instrument::AssignmentPushes => "kaas.assignment.pushes"@,
        Instrument::AssignmentPolls => "kaas.assignment.polls"@,
        Instrument::StaleAssignmentsRejected => "kaas.stale.assignments.rejected"@,
        Instrument::HeartbeatRtt => "kaas.heartbeat.rtt"@,
        Instrument::HeartbeatMisses => "kaas.heartbeat.misses"@,
        Instrument::SelfFenceEvents => "kaas.self.fence.events"@,
        Instrument::CodecRecordDecode => "kaas.codec.record.decode"@,
        Instrument::CodecBatchReencode => "kaas.codec.batch.reencode"@,
        Instrument::GroupRebalances => "kaas.group.rebalances"@,
        Instrument::AuthSuccess => "kaas.auth.success"@,
        Instrument::AuthFailure => "kaas.auth.failure"@,
        Instrument::AclDeny => "kaas.acl.deny"@,
        Instrument::QuotaThrottle => "kaas.quota.throttle"@,
        Instrument::TlsHandshakes => "kaas.tls.handshakes"@,
        Instrument::CertReloads => "kaas.cert.reloads"@,
        Instrument::Connections => "kaas.connections"@,
        Instrument::ConnectionsOpen => "kaas.connections.open"@,
        Instrument::ProduceErrors => "kaas.produce.errors"@,
        Instrument::FetchErrors => "kaas.fetch.errors"@,
        Instrument::CleanerRuns => "kaas.cleaner.runs"@,
        Instrument::CleanerDuration => "kaas.cleaner.duration"@,
        Instrument::CleanerSegmentsDeleted => "kaas.cleaner.segments.deleted"@,
        Instrument::CleanerBytesReclaimed => "kaas.cleaner.bytes.reclaimed"@,
        Instrument::CompactionRuns => "kaas.compaction.runs"@,
        Instrument::CompactionDuration => "kaas.compaction.duration"@,
        Instrument::CompactionRecordsKept => "kaas.compaction.records.kept"@,
        Instrument::CompactionRecordsDropped => "kaas.compaction.records.dropped"@,
        Instrument::CompactionBytesIn => "kaas.compaction.bytes.in"@,
        Instrument::CompactionBytesOut => "kaas.compaction.bytes.out"@,
        Instrument::OtlpPushSuccess => "kaas.otlp.push.success"@,
        Instrument::OtlpPushFailure => "kaas.otlp.push.failure"@,
        Instrument::OtlpPushDuration => "kaas.otlp.push.duration"@,
        Instrument::OperatorReconciles => "kaas.operator.reconciles"@,
        Instrument::OperatorReconcileDuration => "kaas.operator.reconcile.duration"@,
        Instrument::K8sApiCalls => "kaas.k8s.api.calls"@,
        Instrument::K8sApiLatency => "kaas.k8s.api.latency"@,
    }
}

/// What an instrument reports, in words.
pub open spec fn description_of(i: Instrument) -> Seq<char> {
    match i {
        Instrument::RequestLatency => "Kafka request handler latency"@,
        Instrument::WriteLatency => "Partition append latency"@,
        Instrument::ReadLatency => "Partition read latency"@,
        Instrument::FsyncLatency => "Segment fsync latency"@,
        Instrument::ControllerFailovers => "Times this broker won the cluster controller lease"@,
        Instrument::ControllerFailoverDuration => "Seconds from winning the lease to the first AssignmentLoop write"@,
        Instrument::AssignmentChanges => "AssignmentLoop recompute+write iterations"@,
        Instrument::AssignmentFileWrites => "AssignmentStore.Write attempts (result=ok|error)"@,
        Instrument::AssignmentFileWriteLatency => "AssignmentStore.Write tmp+rename duration"@,
        Instrument::AssignmentPushes => "ASSIGNMENT_CHANGED broadcasts via heartbeat server"@,
        Instrument::AssignmentPolls => "assignment.json mtime poll iterations (change_detected=true|false)"@,
        Instrument::StaleAssignmentsRejected => "assignment.json reads dropped because controllerEpoch was behind"@,
        Instrument::HeartbeatRtt => "Broker→controller→broker heartbeat round-trip"@,
        Instrument::HeartbeatMisses => "Heartbeats not received within heartbeatTimeout"@,
        Instrument::SelfFenceEvents => "Times this broker self-fenced due to stale heartbeat"@,
        Instrument::CodecRecordDecode => "Tripwire: code path decoded an individual record. MUST stay at zero — alert if non-zero"@,
        Instrument::CodecBatchReencode => "Tripwire: code path re-encoded a RecordBatch. MUST stay at zero — alert if non-zero"@,
        Instrument::GroupRebalances => "Consumer group rebalance completions"@,
        Instrument::AuthSuccess => "Successful SASL / mTLS authentications"@,
        Instrument::AuthFailure => "Failed authentication attempts"@,
        Instrument::AclDeny => "Authorization denials"@,
        Instrument::QuotaThrottle => "Requests that hit a quota and were throttled"@,
        Instrument::TlsHandshakes => "TLS handshakes completed"@,
        Instrument::CertReloads => "TLS certificate hot-reloads (result=ok|error). Failures stay visible — cert-manager mid-rotation or stale Secret mounts surface as result=error and don't go silent."@,
        Instrument::Connections => "New client connections accepted"@,
        Instrument::ConnectionsOpen => "Currently open client connections"@,
        Instrument::ProduceErrors => "Per-partition Produce failures (labels: topic, error_code). Bumped on every error path — storage stalled, not leader, corrupt batch, auth denied, out-of-order sequence, fenced producer epoch."@,
        Instrument::FetchErrors => "Per-partition Fetch failures (labels: topic, error_code). Bumped on every error path — not leader, read failure, auth denied."@,
        Instrument::CleanerRuns => "Retention cleaner partition-pass completions (result=ok|error)"@,
        Instrument::CleanerDuration => "Wall-clock per retention cleaner partition pass"@,
        Instrument::CleanerSegmentsDeleted => "Segments deleted by the retention cleaner (reason=time|size)"@,
        Instrument::CleanerBytesReclaimed => "Bytes freed by retention deletes (reason=time|size). Approximates disk-pressure relief; on NFS the actual unlink may lag if another broker held the fd."@,
        Instrument::CompactionRuns => "Log compactor partition-pass completions (result=ok|error|aborted)"@,
        Instrument::CompactionDuration => "Wall-clock per log compactor partition pass"@,
        Instrument::CompactionRecordsKept => "Records surviving the compactor's keep-latest-per-key pass"@,
        Instrument::CompactionRecordsDropped => "Records superseded by a later write for the same key — the dedup win"@,
        Instrument::CompactionBytesIn => "Source-segment bytes scanned by the compactor (before dedup)"@,
        Instrument::CompactionBytesOut => "Replacement-segment bytes written by the compactor (after dedup). bytes.in - bytes.out is the size savings."@,
        Instrument::OtlpPushSuccess => "OTLP metric exports that succeeded"@,
        Instrument::OtlpPushFailure => "OTLP metric exports that failed (err_class=timeout|refused|other)"@,
        Instrument::OtlpPushDuration => "Time spent in Exporter.Export — high values suggest backend pressure"@,
        Instrument::OperatorReconciles => "Operator reconcile completions (kind=CR kind, result=ok|requeue|error)"@,
        Instrument::OperatorReconcileDuration => "Operator Reconcile() wall-clock per call (kind=...)"@,
        Instrument::K8sApiCalls => "Apiserver calls from the broker (operation=Get|List|Watch|Patch|Update|Create, resource=KafkaTopic|EndpointSlice|Lease|Pod, result=ok|error)"@,
        Instrument::K8sApiLatency => "Apiserver call wall-clock per (operation, resource)"@,
    }
}

/// What an instrument measures with.
pub open spec fn kind_of(i: Instrument) -> InstrumentKind {
    match i {
        Instrument::RequestLatency
        | Instrument::WriteLatency
        | Instrument::ReadLatency
        | Instrument::FsyncLatency
        | Instrument::ControllerFailoverDuration
        | Instrument::AssignmentFileWriteLatency
        | Instrument::HeartbeatRtt
        | Instrument::CleanerDuration
        | Instrument::CompactionDuration
        | Instrument::OtlpPushDuration
        | Instrument::OperatorReconcileDuration
        | Instrument::K8sApiLatency => InstrumentKind::LatencyHistogram,
        Instrument::ConnectionsOpen => InstrumentKind::UpDownCounter,
        _ => InstrumentKind::Counter,
    }
}

/// The unit of what an instrument counts, where it has one.
pub open spec fn unit_of(i: Instrument) -> Option<Seq<char>> {
    if kind_of(i) is LatencyHistogram {
        Some("s"@)
    } else {
        match i {
            Instrument::ProduceErrors
            | Instrument::FetchErrors => Some("{error}"@),
            Instrument::CleanerSegmentsDeleted => Some("{segment}"@),
            Instrument::CleanerBytesReclaimed
            | Instrument::CompactionBytesIn
            | Instrument::CompactionBytesOut => Some("By"@),
            Instrument::CompactionRecordsKept
            | Instrument::CompactionRecordsDropped => Some("{record}"@),
            _ => None,
        }
    }
}

/// All instruments, in the order in which they are registered.
pub open spec fn all_of() -> Seq<Instrument> {
    seq![
        Instrument::RequestLatency,
        Instrument::WriteLatency,
        Instrument::ReadLatency,
        Instrument::FsyncLatency,
        Instrument::ControllerFailovers,
        Instrument::ControllerFailoverDuration,
        Instrument::AssignmentChanges,
        Instrument::AssignmentFileWrites,
        Instrument::AssignmentFileWriteLatency,
        Instrument::AssignmentPushes,
        Instrument::AssignmentPolls,
        Instrument::StaleAssignmentsRejected,
        Instrument::HeartbeatRtt,
        Instrument::HeartbeatMisses,
        Instrument::SelfFenceEvents,
        Instrument::CodecRecordDecode,
        Instrument::CodecBatchReencode,
        Instrument::GroupRebalances,
        Instrument::AuthSuccess,
        Instrument::AuthFailure,
        Instrument::AclDeny,
        Instrument::QuotaThrottle,
        Instrument::TlsHandshakes,
        Instrument::CertReloads,
        Instrument::Connections,
        Instrument::ConnectionsOpen,
        Instrument::ProduceErrors,
        Instrument::FetchErrors,
        Instrument::CleanerRuns,
        Instrument::CleanerDuration,
        Instrument::CleanerSegmentsDeleted,
        Instrument::CleanerBytesReclaimed,
        Instrument::CompactionRuns,
        Instrument::CompactionDuration,
        Instrument::CompactionRecordsKept,
        Instrument::CompactionRecordsDropped,
        Instrument::CompactionBytesIn,
        Instrument::CompactionBytesOut,
        Instrument::OtlpPushSuccess,
        Instrument::OtlpPushFailure,
        Instrument::OtlpPushDuration,
        Instrument::OperatorReconciles,
        Instrument::OperatorReconcileDuration,
        Instrument::K8sApiCalls,
        Instrument::K8sApiLatency,
    ]
}

impl Instrument {
    pub fn name(self) -> (s: &'static str)
        ensures
            s@ == name_of(self),
    {
        match self {
            Instrument::RequestLatency => "kaas.request.latency",
            Instrument::WriteLatency => "kaas.storage.write.latency",
            Instrument::ReadLatency => "kaas.storage.read.latency",
            Instrument::FsyncLatency => "kaas.storage.fsync.latency",
            Instrument::ControllerFailovers => "kaas.controller.failovers",
            Instrument::ControllerFailoverDuration => "kaas.controller.failover.duration",
            Instrument::AssignmentChanges => "kaas.assignment.changes",
            Instrument::AssignmentFileWrites => "kaas.assignment.file.writes",
            Instrument::AssignmentFileWriteLatency => "kaas.assignment.file.write.latency",
            Instrument::AssignmentPushes => "kaas.assignment.pushes",
            Instrument::AssignmentPolls => "kaas.assignment.polls",
            Instrument::StaleAssignmentsRejected => "kaas.stale.assignments.rejected",
            Instrument::HeartbeatRtt => "kaas.heartbeat.rtt",
            Instrument::HeartbeatMisses => "kaas.heartbeat.misses",
            Instrument::SelfFenceEvents => "kaas.self.fence.events",
            Instrument::CodecRecordDecode => "kaas.codec.record.decode",
            Instrument::CodecBatchReencode => "kaas.codec.batch.reencode",
            Instrument::GroupRebalances => "kaas.group.rebalances",
            Instrument::AuthSuccess => "kaas.auth.success",
            Instrument::AuthFailure => "kaas.auth.failure",
            Instrument::AclDeny => "kaas.acl.deny",
            Instrument::QuotaThrottle => "kaas.quota.throttle",
            Instrument::TlsHandshakes => "kaas.tls.handshakes",
            Instrument::CertReloads => "kaas.cert.reloads",
            Instrument::Connections => "kaas.connections",
            Instrument::ConnectionsOpen => "kaas.connections.open",
            Instrument::ProduceErrors => "kaas.produce.errors",
            Instrument::FetchErrors => "kaas.fetch.errors",
            Instrument::CleanerRuns => "kaas.cleaner.runs",
            Instrument::CleanerDuration => "kaas.cleaner.duration",
            Instrument::CleanerSegmentsDeleted => "kaas.cleaner.segments.deleted",
            Instrument::CleanerBytesReclaimed => "kaas.cleaner.bytes.reclaimed",
            Instrument::CompactionRuns => "kaas.compaction.runs",
            Instrument::CompactionDuration => "kaas.compaction.duration",
            Instrument::CompactionRecordsKept => "kaas.compaction.records.kept",
            Instrument::CompactionRecordsDropped => "kaas.compaction.records.dropped",
            Instrument::CompactionBytesIn => "kaas.compaction.bytes.in",
            Instrument::CompactionBytesOut => "kaas.compaction.bytes.out",
            Instrument::OtlpPushSuccess => "kaas.otlp.push.success",
            Instrument::OtlpPushFailure => "kaas.otlp.push.failure",
            Instrument::OtlpPushDuration => "kaas.otlp.push.duration",
            Instrument::OperatorReconciles => "kaas.operator.reconciles",
            Instrument::OperatorReconcileDuration => "kaas.operator.reconcile.duration",
            Instrument::K8sApiCalls => "kaas.k8s.api.calls",
            Instrument::K8sApiLatency => "kaas.k8s.api.latency",
        }
    }

    pub fn description(self) -> (s: &'static str)
        ensures
            s@ == description_of(self),
    {
        match self {
            Instrument::RequestLatency => "Kafka request handler latency",
            Instrument::WriteLatency => "Partition append latency",
            Instrument::ReadLatency => "Partition read latency",
            Instrument::FsyncLatency => "Segment fsync latency",
            Instrument::ControllerFailovers => "Times this broker won the cluster controller lease",
            Instrument::ControllerFailoverDuration => "Seconds from winning the lease to the first AssignmentLoop write",
            Instrument::AssignmentChanges => "AssignmentLoop recompute+write iterations",
            Instrument::AssignmentFileWrites => "AssignmentStore.Write attempts (result=ok|error)",
            Instrument::AssignmentFileWriteLatency => "AssignmentStore.Write tmp+rename duration",
            Instrument::AssignmentPushes => "ASSIGNMENT_CHANGED broadcasts via heartbeat server",
            Instrument::AssignmentPolls => "assignment.json mtime poll iterations (change_detected=true|false)",
            Instrument::StaleAssignmentsRejected => "assignment.json reads dropped because controllerEpoch was behind",
            Instrument::HeartbeatRtt => "Broker→controller→broker heartbeat round-trip",
            Instrument::HeartbeatMisses => "Heartbeats not received within heartbeatTimeout",
            Instrument::SelfFenceEvents => "Times this broker self-fenced due to stale heartbeat",
            Instrument::CodecRecordDecode => "Tripwire: code path decoded an individual record. MUST stay at zero — alert if non-zero",
            Instrument::CodecBatchReencode => "Tripwire: code path re-encoded a RecordBatch. MUST stay at zero — alert if non-zero",
            Instrument::GroupRebalances => "Consumer group rebalance completions",
            Instrument::AuthSuccess => "Successful SASL / mTLS authentications",
            Instrument::AuthFailure => "Failed authentication attempts",
            Instrument::AclDeny => "Authorization denials",
            Instrument::QuotaThrottle => "Requests that hit a quota and were throttled",
            Instrument::TlsHandshakes => "TLS handshakes completed",
            Instrument::CertReloads => "TLS certificate hot-reloads (result=ok|error). Failures stay visible — cert-manager mid-rotation or stale Secret mounts surface as result=error and don't go silent.",
            Instrument::Connections => "New client connections accepted",
            Instrument::ConnectionsOpen => "Currently open client connections",
            Instrument::ProduceErrors => "Per-partition Produce failures (labels: topic, error_code). Bumped on every error path — storage stalled, not leader, corrupt batch, auth denied, out-of-order sequence, fenced producer epoch.",
            Instrument::FetchErrors => "Per-partition Fetch failures (labels: topic, error_code). Bumped on every error path — not leader, read failure, auth denied.",
            Instrument::CleanerRuns => "Retention cleaner partition-pass completions (result=ok|error)",
            Instrument::CleanerDuration => "Wall-clock per retention cleaner partition pass",
            Instrument::CleanerSegmentsDeleted => "Segments deleted by the retention cleaner (reason=time|size)",
            Instrument::CleanerBytesReclaimed => "Bytes freed by retention deletes (reason=time|size). Approximates disk-pressure relief; on NFS the actual unlink may lag if another broker held the fd.",
            Instrument::CompactionRuns => "Log compactor partition-pass completions (result=ok|error|aborted)",
            Instrument::CompactionDuration => "Wall-clock per log compactor partition pass",
            Instrument::CompactionRecordsKept => "Records surviving the compactor's keep-latest-per-key pass",
            Instrument::CompactionRecordsDropped => "Records superseded by a later write for the same key — the dedup win",
            Instrument::CompactionBytesIn => "Source-segment bytes scanned by the compactor (before dedup)",
            Instrument::CompactionBytesOut => "Replacement-segment bytes written by the compactor (after dedup). bytes.in - bytes.out is the size savings.",
            Instrument::OtlpPushSuccess => "OTLP metric exports that succeeded",
            Instrument::OtlpPushFailure => "OTLP metric exports that failed (err_class=timeout|refused|other)",
            Instrument::OtlpPushDuration => "Time spent in Exporter.Export — high values suggest backend pressure",
            Instrument::OperatorReconciles => "Operator reconcile completions (kind=CR kind, result=ok|requeue|error)",
            Instrument::OperatorReconcileDuration => "Operator Reconcile() wall-clock per call (kind=...)",
            Instrument::K8sApiCalls => "Apiserver calls from the broker (operation=Get|List|Watch|Patch|Update|Create, resource=KafkaTopic|EndpointSlice|Lease|Pod, result=ok|error)",
            Instrument::K8sApiLatency => "Apiserver call wall-clock per (operation, resource)",
        }
    }

    pub fn kind(self) -> (k: InstrumentKind)
        ensures
            k == kind_of(self),
    {
        match self {
            Instrument::RequestLatency
            | Instrument::WriteLatency
            | Instrument::ReadLatency
            | Instrument::FsyncLatency
            | Instrument::ControllerFailoverDuration
            | Instrument::AssignmentFileWriteLatency
            | Instrument::HeartbeatRtt
            | Instrument::CleanerDuration
            | Instrument::CompactionDuration
            | Instrument::OtlpPushDuration
            | Instrument::OperatorReconcileDuration
            | Instrument::K8sApiLatency => InstrumentKind::LatencyHistogram,
            Instrument::ConnectionsOpen => InstrumentKind::UpDownCounter,
            _ => InstrumentKind::Counter,
        }
    }

    pub fn unit(self) -> (u: Option<&'static str>)
        ensures
            match u {
                Some(s) => unit_of(self) == Some(s@),
                None => unit_of(self) is None,
            },
    {
        match self.kind() {
            InstrumentKind::LatencyHistogram => Some("s"),
            _ => match self {
                Instrument::ProduceErrors
                | Instrument::FetchErrors => Some("{error}"),
                Instrument::CleanerSegmentsDeleted => Some("{segment}"),
                Instrument::CleanerBytesReclaimed
                | Instrument::CompactionBytesIn
                | Instrument::CompactionBytesOut => Some("By"),
                Instrument::CompactionRecordsKept
                | Instrument::CompactionRecordsDropped => Some("{record}"),
                _ => None,
            },
        }
    }

    /// All instruments, in the order in which they are registered.
    pub fn all() -> (v: Vec<Instrument>)
        ensures
            v@ == all_of(),
    {
        let v: Vec<Instrument> = vec![
            Instrument::RequestLatency,
            Instrument::WriteLatency,
            Instrument::ReadLatency,
            Instrument::FsyncLatency,
            Instrument::ControllerFailovers,
            Instrument::ControllerFailoverDuration,
            Instrument::AssignmentChanges,
            Instrument::AssignmentFileWrites,
            Instrument::AssignmentFileWriteLatency,
            Instrument::AssignmentPushes,
            Instrument::AssignmentPolls,
            Instrument::StaleAssignmentsRejected,
            Instrument::HeartbeatRtt,
            Instrument::HeartbeatMisses,
            Instrument::SelfFenceEvents,
            Instrument::CodecRecordDecode,
            Instrument::CodecBatchReencode,
            Instrument::GroupRebalances,
            Instrument::AuthSuccess,
            Instrument::AuthFailure,
            Instrument::AclDeny,
            Instrument::QuotaThrottle,
            Instrument::TlsHandshakes,
            Instrument::CertReloads,
            Instrument::Connections,
            Instrument::ConnectionsOpen,
            Instrument::ProduceErrors,
            Instrument::FetchErrors,
            Instrument::CleanerRuns,
            Instrument::CleanerDuration,
            Instrument::CleanerSegmentsDeleted,
            Instrument::CleanerBytesReclaimed,
            Instrument::CompactionRuns,
            Instrument::CompactionDuration,
            Instrument::CompactionRecordsKept,
            Instrument::CompactionRecordsDropped,
            Instrument::CompactionBytesIn,
            Instrument::CompactionBytesOut,
            Instrument::OtlpPushSuccess,
            Instrument::OtlpPushFailure,
            Instrument::OtlpPushDuration,
            Instrument::OperatorReconciles,
            Instrument::OperatorReconcileDuration,
            Instrument::K8sApiCalls,
            Instrument::K8sApiLatency,
        ];
        assert(v@ =~= all_of());
        v
    }
}

/// The place of an instrument among all, told from its name.
spec fn place_of(s: Seq<char>) -> int {
    if s.len() == 13 {
        20
    } else if s.len() == 16 {
        24
    } else if s.len() == 17 {
        if s[10] == 's' {
            18
        } else if s[10] == 'f' {
            19
        } else if s[10] == 'r' {
            23
        } else if s[10] == '.' {
            27
        } else {
            28
        }
    } else if s.len() == 18 {
        if s[5] == 'h' {
            12
        } else {
            43
        }
    } else if s.len() == 19 {
        if s[5] == 'q' {
            21
        } else if s[5] == 't' {
            22
        } else {
            26
        }
    } else if s.len() == 20 {
        if s[5] == 'r' {
            0
        } else if s[5] == 'c' {
            32
        } else {
            44
        }
    } else if s.len() == 21 {
        if s[6] == 's' {
            10
        } else if s[6] == 'e' {
            13
        } else if s[6] == 'r' {
            17
        } else if s[6] == 'o' {
            25
        } else {
            29
        }
    } else if s.len() == 22 {
        if s[16] == 'p' {
            9
        } else if s[16] == 'e' {
            14
        } else if s[16] == 'u' {
            38
        } else {
            39
        }
    } else if s.len() == 23 {
        if s[5] == 'a' {
            6
        } else {
            40
        }
    } else if s.len() == 24 {
        if s[17] == '.' {
            15
        } else if s[17] == 'u' {
            33
        } else if s[17] == 'y' {
            36
        } else {
            41
        }
    } else if s.len() == 25 {
        if s[7] == 'o' {
            2
        } else if s[7] == 'n' {
            4
        } else if s[7] == 'd' {
            16
        } else {
            37
        }
    } else if s.len() == 26 {
        if s[13] == 'w' {
            1
        } else {
            3
        }
    } else if s.len() == 27 {
        7
    } else if s.len() == 28 {
        if s[6] == 'l' {
            31
        } else {
            34
        }
    } else if s.len() == 29 {
        30
    } else if s.len() == 31 {
        if s[5] == 's' {
            11
        } else {
            35
        }
    } else if s.len() == 32 {
        42
    } else if s.len() == 33 {
        5
    } else {
        8
    }
}

proof fn lemma_place(i: Instrument) -> (at: int)
    ensures
        at == place_of(name_of(i)),
        0 <= at < all_of().len(),
        all_of()[at] == i,
{
    match i {
        Instrument::RequestLatency => {
            reveal_strlit("kaas.request.latency");
            0
        },
        Instrument::WriteLatency => {
            reveal_strlit("kaas.storage.write.latency");
            1
        },
        Instrument::ReadLatency => {
            reveal_strlit("kaas.storage.read.latency");
            2
        },
        Instrument::FsyncLatency => {
            reveal_strlit("kaas.storage.fsync.latency");
            3
        },
        Instrument::ControllerFailovers => {
            reveal_strlit("kaas.controller.failovers");
            4
        },
        Instrument::ControllerFailoverDuration => {
            reveal_strlit("kaas.controller.failover.duration");
            5
        },
        Instrument::AssignmentChanges => {
            reveal_strlit("kaas.assignment.changes");
            6
        },
        Instrument::AssignmentFileWrites => {
            reveal_strlit("kaas.assignment.file.writes");
            7
        },
        Instrument::AssignmentFileWriteLatency => {
            reveal_strlit("kaas.assignment.file.write.latency");
            8
        },
        Instrument::AssignmentPushes => {
            reveal_strlit("kaas.assignment.pushes");
            9
        },
        Instrument::AssignmentPolls => {
            reveal_strlit("kaas.assignment.polls");
            10
        },
        Instrument::StaleAssignmentsRejected => {
            reveal_strlit("kaas.stale.assignments.rejected");
            11
        },
        Instrument::HeartbeatRtt => {
            reveal_strlit("kaas.heartbeat.rtt");
            12
        },
        Instrument::HeartbeatMisses => {
            reveal_strlit("kaas.heartbeat.misses");
            13
        },
        Instrument::SelfFenceEvents => {
            reveal_strlit("kaas.self.fence.events");
            14
        },
        Instrument::CodecRecordDecode => {
            reveal_strlit("kaas.codec.record.decode");
            15
        },
        Instrument::CodecBatchReencode => {
            reveal_strlit("kaas.codec.batch.reencode");
            16
        },
        Instrument::GroupRebalances => {
            reveal_strlit("kaas.group.rebalances");
            17
        },
        Instrument::AuthSuccess => {
            reveal_strlit("kaas.auth.success");
            18
        },
        Instrument::AuthFailure => {
            reveal_strlit("kaas.auth.failure");
            19
        },
        Instrument::AclDeny => {
            reveal_strlit("kaas.acl.deny");
            20
        },
        Instrument::QuotaThrottle => {
            reveal_strlit("kaas.quota.throttle");
            21
        },
        Instrument::TlsHandshakes => {
            reveal_strlit("kaas.tls.handshakes");
            22
        },
        Instrument::CertReloads => {
            reveal_strlit("kaas.cert.reloads");
            23
        },
        Instrument::Connections => {
            reveal_strlit("kaas.connections");
            24
        },
        Instrument::ConnectionsOpen => {
            reveal_strlit("kaas.connections.open");
            25
        },
        Instrument::ProduceErrors => {
            reveal_strlit("kaas.produce.errors");
            26
        },
        Instrument::FetchErrors => {
            reveal_strlit("kaas.fetch.errors");
            27
        },
        Instrument::CleanerRuns => {
            reveal_strlit("kaas.cleaner.runs");
            28
        },
        Instrument::CleanerDuration => {
            reveal_strlit("kaas.cleaner.duration");
            29
        },
        Instrument::CleanerSegmentsDeleted => {
            reveal_strlit("kaas.cleaner.segments.deleted");
            30
        },
        Instrument::CleanerBytesReclaimed => {
            reveal_strlit("kaas.cleaner.bytes.reclaimed");
            31
        },
        Instrument::CompactionRuns => {
            reveal_strlit("kaas.compaction.runs");
            32
        },
        Instrument::CompactionDuration => {
            reveal_strlit("kaas.compaction.duration");
            33
        },
        Instrument::CompactionRecordsKept => {
            reveal_strlit("kaas.compaction.records.kept");
            34
        },
        Instrument::CompactionRecordsDropped => {
            reveal_strlit("kaas.compaction.records.dropped");
            35
        },
        Instrument::CompactionBytesIn => {
            reveal_strlit("kaas.compaction.bytes.in");
            36
        },
        Instrument::CompactionBytesOut => {
            reveal_strlit("kaas.compaction.bytes.out");
            37
        },
        Instrument::OtlpPushSuccess => {
            reveal_strlit("kaas.otlp.push.success");
            38
        },
        Instrument::OtlpPushFailure => {
            reveal_strlit("kaas.otlp.push.failure");
            39
        },
        Instrument::OtlpPushDuration => {
            reveal_strlit("kaas.otlp.push.duration");
            40
        },
        Instrument::OperatorReconciles => {
            reveal_strlit("kaas.operator.reconciles");
            41
        },
        Instrument::OperatorReconcileDuration => {
            reveal_strlit("kaas.operator.reconcile.duration");
            42
        },
        Instrument::K8sApiCalls => {
            reveal_strlit("kaas.k8s.api.calls");
            43
        },
        Instrument::K8sApiLatency => {
            reveal_strlit("kaas.k8s.api.latency");
            44
        },
    }
}

// Laws.

/// Every instrument is listed once.
pub proof fn law_every_instrument_is_listed_once(i: Instrument)
    ensures
        all_of().contains(i),
        all_of().no_duplicates(),
{
    let at = lemma_place(i);
}

/// No two instruments share a name.
pub proof fn law_names_are_distinct(a: Instrument, b: Instrument)
    requires
        name_of(a) == name_of(b),
    ensures
        a == b,
{
    let i = lemma_place(a);
    let j = lemma_place(b);
}

/// The bounds of the latency buckets ascend.
pub proof fn law_latency_bounds_ascend(i: int, j: int)
    requires
        0 <= i < j < LATENCY_BOUNDARIES_MICROS@.len(),
    ensures
        LATENCY_BOUNDARIES_MICROS@[i] < LATENCY_BOUNDARIES_MICROS@[j],
{
}

} // verus!
