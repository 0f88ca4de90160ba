//! Health and readiness of a broker.

use vstd::prelude::*;

verus! {

/// What a broker tells of itself. A time that was not measured yet is -1.
pub trait RuntimeState {
    fn is_controller(&self) -> bool;

    fn controller_id(&self) -> String;

    fn controller_epoch(&self) -> i64;

    fn heartbeat_rtt_ms(&self) -> i64;

    fn heartbeat_age_ms(&self) -> i64;

    fn assignment_version(&self) -> u64;

    fn assignment_age_ms(&self) -> i64;

    fn partitions_led(&self) -> i32;

    fn partitions_assigned(&self) -> i32;

    fn partitions_recovering(&self) -> i32;

    /// Whether a partition's last write to disk ran out of time.
    fn storage_stalled(&self) -> bool;

    /// Whether every partition that was assigned is taken over.
    fn serving(&self) -> (r: bool)
        default_ensures
            r,
    {
        true
    }
}

/// The outside listener.
#[derive(Debug, PartialEq, Eq)]
pub struct TlsInfo {
    pub enabled: bool,
    pub external_host: String,
}

impl Clone for TlsInfo {
    fn clone(&self) -> (r: Self)
        ensures
            r == *self,
    {
        TlsInfo { enabled: self.enabled, external_host: self.external_host.clone() }
    }
}

/// What a broker told of itself at one time.
#[derive(Debug, Clone, PartialEq, Eq)]
pub struct RuntimeSnapshot {
    pub is_controller: bool,
    pub controller_id: String,
    pub controller_epoch: i64,
    pub heartbeat_rtt_ms: i64,
    pub heartbeat_age_ms: i64,
    pub assignment_version: u64,
    pub assignment_age_ms: i64,
    pub partitions_led: i32,
    pub partitions_assigned: i32,
    pub partitions_recovering: i32,
    pub storage_stalled: bool,
    pub serving: bool,
}

/// What a health response is made of.
#[derive(Debug, Clone, PartialEq, Eq)]
pub struct HealthConfig {
    pub broker_id: String,
    pub listeners: Vec<String>,
    pub tls: Option<TlsInfo>,
    /// Whether readiness also asks that the partitions are taken over.
    pub cluster_mode: bool,
}

/// A health response. A time that was not measured is none.
#[derive(Debug, PartialEq, Eq)]
pub struct HealthState {
    pub status: &'static str,
    pub is_controller: bool,
    pub controller_id: String,
    pub controller_epoch: i64,
    pub heartbeat_rtt_ms: Option<i64>,
    pub heartbeat_age_ms: Option<i64>,
    pub assignment_version: u64,
    pub assignment_age_ms: Option<i64>,
    pub partitions_led: i32,
    pub partitions_assigned: i32,
    pub partitions_recovering: i32,
    pub storage_stalled: bool,
}

/// A measurement; none for a negative number.
pub open spec fn measured(v: i64) -> Option<i64> {
    if v >= 0 {
        Some(v)
    } else {
        None
    }
}

pub fn pos_i64(v: i64) -> (r: Option<i64>)
    ensures
        r == measured(v),
{
    if v >= 0 {
        Some(v)
    } else {
        None
    }
}

/// The part of a health response that is measured. Without a source it is
/// that of a broker that runs on its own.
pub fn health_state(source: Option<&RuntimeSnapshot>) -> (h: HealthState)
    ensures
        h.status@ == "ok"@,
        match source {
            Some(s) => {
                &&& h.is_controller == s.is_controller
                &&& h.controller_id@ == s.controller_id@
                &&& h.controller_epoch == s.controller_epoch
                &&& h.heartbeat_rtt_ms == measured(s.heartbeat_rtt_ms)
                &&& h.heartbeat_age_ms == measured(s.heartbeat_age_ms)
                &&& h.assignment_version == s.assignment_version
                &&& h.assignment_age_ms == measured(s.assignment_age_ms)
                &&& h.partitions_led == s.partitions_led
                &&& h.partitions_assigned == s.partitions_assigned
                &&& h.partitions_recovering == s.partitions_recovering
                &&& h.storage_stalled == s.storage_stalled
            },
            None => {
                &&& !h.is_controller
                &&& h.controller_id@ == Seq::<char>::empty()
                &&& h.controller_epoch == 0
                &&& h.heartbeat_rtt_ms is None
                &&& h.heartbeat_age_ms is None
                &&& h.assignment_version == 0
                &&& h.assignment_age_ms is None
                &&& h.partitions_led == 0
                &&& h.partitions_assigned == 0
                &&& h.partitions_recovering == 0
                &&& !h.storage_stalled
            },
        },
{
    match source {
        Some(s) => HealthState {
            status: "ok",
            is_controller: s.is_controller,
            controller_id: s.controller_id.clone(),
            controller_epoch: s.controller_epoch,
            heartbeat_rtt_ms: pos_i64(s.heartbeat_rtt_ms),
            heartbeat_age_ms: pos_i64(s.heartbeat_age_ms),
            assignment_version: s.assignment_version,
            assignment_age_ms: pos_i64(s.assignment_age_ms),
            partitions_led: s.partitions_led,
            partitions_assigned: s.partitions_assigned,
            partitions_recovering: s.partitions_recovering,
            storage_stalled: s.storage_stalled,
        },
        None => HealthState {
            status: "ok",
            is_controller: false,
            controller_id: String::new(),
            controller_epoch: 0,
            heartbeat_rtt_ms: None,
            heartbeat_age_ms: None,
            assignment_version: 0,
            assignment_age_ms: None,
            partitions_led: 0,
            partitions_assigned: 0,
            partitions_recovering: 0,
            storage_stalled: false,
        },
    }
}

/// After how many milliseconds without progress the runtime is taken to be
/// stuck.
pub const MAIN_LIVENESS_THRESHOLD_MS: i64 = 5_000;

/// What a process knows of its own readiness.
#[derive(Debug)]
pub struct HealthGate {
    ready: bool,
    /// When there was progress last, on a clock that only goes forward;
    /// zero for never.
    tick_ms: i64,
    draining: bool,
}

#[verifier::ext_equal]
pub struct GateModel {
    pub ready: bool,
    pub tick: Option<int>,
    pub draining: bool,
}

impl View for HealthGate {
    type V = GateModel;

    closed spec fn view(&self) -> GateModel {
        GateModel {
            ready: self.ready,
            tick: if self.tick_ms > 0 {
                Some(self.tick_ms as int)
            } else {
                None
            },
            draining: self.draining,
        }
    }
}

impl Default for HealthGate {
    fn default() -> (g: Self)
        ensures
            g@ == (GateModel { ready: false, tick: None, draining: false }),
    {
        HealthGate { ready: false, tick_ms: 0, draining: false }
    }
}

/// What the process tells of itself.
pub enum GateEvent {
    Ready(bool),
    Progress(i64),
    Draining,
}

/// The state after an event.
pub open spec fn gate_after(g: GateModel, e: GateEvent) -> GateModel {
    match e {
        GateEvent::Ready(v) => GateModel { ready: v, ..g },
        GateEvent::Progress(now_ms) => GateModel { tick: Some(if now_ms >= 1 { now_ms as int } else { 1 }), ..g },
        GateEvent::Draining => GateModel { draining: true, ..g },
    }
}

/// Sets whether the listeners are up.
pub fn set_ready(gate: &mut HealthGate, v: bool)
    ensures
        final(gate)@ == gate_after(old(gate)@, GateEvent::Ready(v)),
{
    gate.ready = v;
}

/// Whether the listeners are up. It is not all that readiness asks.
pub fn ready(gate: &HealthGate) -> (r: bool)
    ensures
        r == gate@.ready,
{
    gate.ready
}

/// Records progress of the main runtime. The first millisecond of the clock
/// counts as its second, so that progress is never taken for none.
pub fn record_main_tick(gate: &mut HealthGate, now_ms: i64)
    ensures
        final(gate)@ == gate_after(old(gate)@, GateEvent::Progress(now_ms)),
{
    gate.tick_ms = if now_ms >= 1 {
        now_ms
    } else {
        1
    };
}

/// Whether there was progress within the threshold.
pub open spec fn alive_at(g: GateModel, now_ms: int) -> bool {
    g.tick matches Some(t) && now_ms - t < MAIN_LIVENESS_THRESHOLD_MS
}

/// Whether the main runtime still makes progress.
pub fn main_alive(gate: &HealthGate, now_ms: i64) -> (r: bool)
    requires
        now_ms >= 0,
    ensures
        r == alive_at(gate@, now_ms as int),
{
    gate.tick_ms > 0 && now_ms - gate.tick_ms < MAIN_LIVENESS_THRESHOLD_MS
}

/// Records that the broker is shutting down. It is never taken back.
pub fn mark_draining(gate: &mut HealthGate)
    ensures
        final(gate)@ == gate_after(old(gate)@, GateEvent::Draining),
{
    gate.draining = true;
}

pub fn is_draining(gate: &HealthGate) -> (r: bool)
    ensures
        r == gate@.draining,
{
    gate.draining
}

/// When a broker is ready: its listeners are up, an outside listener has a
/// host to advertise, the main runtime makes progress and, in a cluster, its
/// partitions are taken over.
pub open spec fn is_ready(g: GateModel, tls_port: Seq<char>, external_host: Seq<char>, now_ms: int, cluster_mode: bool, serving: Option<bool>) -> bool {
    &&& g.ready
    &&& tls_port.len() == 0 || external_host.len() > 0
    &&& alive_at(g, now_ms)
    &&& cluster_mode ==> serving == Some(true)
}

/// Whether a broker is ready. `serving` is none without a source.
pub fn compute_ready(gate: &HealthGate, tls_port: &str, external_host: &str, now_ms: i64, cluster_mode: bool, serving: Option<bool>) -> (r: bool)
    requires
        now_ms >= 0,
    ensures
        r == is_ready(gate@, tls_port@, external_host@, now_ms as int, cluster_mode, serving),
{
    if !ready(gate) {
        return false;
    }
    if !tls_port.is_empty() && external_host.is_empty() {
        return false;
    }
    if !main_alive(gate, now_ms) {
        return false;
    }
    if cluster_mode {
        return match serving {
            Some(b) => b,
            None => false,
        };
    }
    true
}

/// The status of a readiness response.
pub fn ready_status(ready: bool) -> (s: u16)
    ensures
        s == (if ready {
            200u16
        } else {
            503u16
        }),
{
    if ready {
        200
    } else {
        503
    }
}

/// Progress keeps the runtime alive for the whole threshold, and no longer.
pub proof fn law_progress_keeps_alive(g: GateModel, tick: int, now: int)
    requires
        g.tick == Some(tick),
    ensures
        now < tick + MAIN_LIVENESS_THRESHOLD_MS <==> alive_at(g, now),
{
}

/// A runtime that is stuck is not ready, whatever else holds; nor is one that
/// never made progress.
pub proof fn law_stuck_is_not_ready(g: GateModel, tls: Seq<char>, host: Seq<char>, now: int, cluster: bool, serving: Option<bool>)
    requires
        !alive_at(g, now),
    ensures
        !is_ready(g, tls, host, now, cluster, serving),
{
}

/// Shutting down does not touch readiness.
pub proof fn law_draining_broker_still_serves(g: GateModel, tls: Seq<char>, host: Seq<char>, now: int, cluster: bool, serving: Option<bool>)
    ensures
        is_ready(GateModel { draining: true, ..g }, tls, host, now, cluster, serving) == is_ready(g, tls, host, now, cluster, serving),
{
}

/// A broker that has begun to shut down does not take that back.
pub proof fn law_draining_is_not_taken_back(g: GateModel, e: GateEvent)
    requires
        g.draining,
    ensures
        gate_after(g, e).draining,
{
}

/// Progress that was recorded is never taken for none.
pub proof fn law_progress_is_not_forgotten(g: GateModel, e: GateEvent)
    requires
        g.tick is Some || e is Progress,
    ensures
        gate_after(g, e).tick is Some,
{
}

} // verus!
