//! Election of the controller over a lease.
//!
//! Candidates look at a shared lease record. A candidate takes the lease where
//! it holds it already, where its holder has let go of it, or where it was not
//! renewed for longer than it lasts. The number of transitions on the lease is
//! the controller's epoch: it counts handovers, not acquisitions.

use vstd::prelude::*;
use crate::text::text_eq;
use crate::text;

verus! {

/// How long a lease lasts, in seconds.
pub const DEFAULT_LEASE_DURATION: u64 = 15;

/// For how long renewing may fail before the holder gives up, in seconds.
pub const DEFAULT_RENEW_DEADLINE: u64 = 10;

/// How long to wait between attempts, in seconds.
pub const DEFAULT_RETRY_PERIOD: u64 = 2;

/// The least time that one attempt to renew may take, in seconds.
pub const MIN_ATTEMPT_BUDGET: u64 = 3;

/// The annotation under which a holder that lets go leaves its name.
pub const LAST_HOLDER_ANNOTATION: &'static str = "kaas.rs/last-holder";

/// What the election reads of a lease.
#[derive(Debug)]
pub struct LeaseRecord {
    pub holder_identity: Option<String>,
    pub lease_transitions: Option<i32>,
    /// When it was last renewed, in nanoseconds.
    pub renew_time_ns: Option<i64>,
    pub lease_duration_seconds: Option<i32>,
    /// Who let go of it last, as noted in the annotation.
    pub last_holder: Option<String>,
}

#[verifier::ext_equal]
pub struct LeaseModel {
    pub holder: Option<Seq<char>>,
    pub transitions: Option<i32>,
    pub renewed_ns: Option<i64>,
    pub duration: Option<i32>,
    pub last_holder: Option<Seq<char>>,
}

impl View for LeaseRecord {
    type V = LeaseModel;

    open spec fn view(&self) -> LeaseModel {
        LeaseModel {
            holder: text::opt_text(self.holder_identity),
            transitions: self.lease_transitions,
            renewed_ns: self.renew_time_ns,
            duration: self.lease_duration_seconds,
            last_holder: text::opt_text(self.last_holder),
        }
    }
}

/// What is to be written to the lease. Fields that are not named here are
/// dropped from it.
#[derive(Debug)]
pub struct LeasePatch {
    pub holder_identity: String,
    pub lease_duration_seconds: i32,
    pub lease_transitions: i32,
    /// The annotation of a holder that lets go.
    pub last_holder: Option<String>,
    /// Whether the time of acquisition is stamped.
    pub acquires: bool,
}

/// The lease after a patch that is applied at a time.
pub open spec fn patched(p: LeasePatch, now_ns: i64) -> LeaseModel {
    LeaseModel {
        holder: Some(p.holder_identity@),
        transitions: Some(p.lease_transitions),
        renewed_ns: Some(now_ns),
        duration: Some(p.lease_duration_seconds),
        last_holder: text::opt_text(p.last_holder),
    }
}

/// The epoch after an acquisition: a handover from somebody else, or from
/// somebody unknown, is a transition.
pub open spec fn transitions_after(prev_holder: Option<Seq<char>>, identity: Seq<char>, current: i32) -> int {
    if prev_holder == Some(identity) {
        current as int
    } else {
        current + 1
    }
}

pub open spec fn holder_view(holder: Option<&str>) -> Option<Seq<char>> {
    match holder {
        Some(h) => Some(h@),
        None => None,
    }
}

pub fn next_transitions(prev_holder: Option<&str>, identity: &str, current: i32) -> (r: i32)
    requires
        transitions_after(holder_view(prev_holder), identity@, current) <= i32::MAX,
    ensures
        r == transitions_after(holder_view(prev_holder), identity@, current),
{
    match prev_holder {
        Some(prev) => {
            if text_eq(prev, identity) {
                current
            } else {
                current + 1
            }
        },
        None => current + 1,
    }
}

pub open spec fn is_released(l: LeaseModel) -> bool {
    match l.holder {
        Some(h) => h.len() == 0,
        None => true,
    }
}

/// How long the lease lasts, in nanoseconds: what it says itself in seconds,
/// else the candidate's own setting in milliseconds.
pub open spec fn window_ns(l: LeaseModel, own_ms: u64) -> int {
    match l.duration {
        Some(s) => if s < 0 {
            0
        } else {
            s * 1_000_000_000
        },
        None => own_ms * 1_000_000,
    }
}

/// Whether the lease was not renewed for longer than it lasts.
pub open spec fn is_stale(l: LeaseModel, own_ms: u64, now_ns: i64) -> bool {
    match l.renewed_ns {
        Some(t) => now_ns - t > window_ns(l, own_ms),
        None => true,
    }
}

/// Whether a candidate may take the lease.
pub open spec fn may_take(l: LeaseModel, identity: Seq<char>, own_ms: u64, now_ns: i64) -> bool {
    l.holder == Some(identity) || is_released(l) || is_stale(l, own_ms, now_ns)
}

/// Who held the lease before: its holder, else the one who let go of it.
pub open spec fn previous_holder(l: LeaseModel) -> Option<Seq<char>> {
    if is_released(l) {
        l.last_holder
    } else {
        l.holder
    }
}

pub open spec fn epoch_on(l: LeaseModel) -> i32 {
    match l.transitions {
        Some(t) => t,
        None => 0,
    }
}

/// The lease of nobody.
pub open spec fn no_lease() -> LeaseModel {
    LeaseModel { holder: None, transitions: None, renewed_ns: None, duration: None, last_holder: None }
}

pub open spec fn seen(l: Option<LeaseRecord>) -> LeaseModel {
    match l {
        Some(x) => x@,
        None => no_lease(),
    }
}

/// The duration as the lease carries it, in whole seconds.
pub open spec fn written_duration(ms: u64) -> i32 {
    if ms / 1000 > i32::MAX {
        i32::MAX
    } else {
        (ms / 1000) as i32
    }
}

/// What came of an attempt to renew.
#[derive(Debug, Clone, Copy, PartialEq, Eq, Structural)]
pub enum RenewOutcome {
    Renewed,
    /// The lease is gone or somebody else's.
    Lost,
    /// The attempt failed or took too long.
    Failed,
}

/// A candidate for the lease.
#[derive(Debug)]
pub struct Election {
    identity: String,
    lease_duration_ms: u64,
    renew_deadline_ms: u64,
    retry_period_ms: u64,
    last_transitions: i32,
    first_failure_ms: Option<u64>,
}

#[verifier::ext_equal]
pub struct ElectionModel {
    pub identity: Seq<char>,
    pub lease_duration_ms: u64,
    pub renew_deadline_ms: u64,
    pub retry_period_ms: u64,
    pub epoch: i32,
    /// Since when renewing has failed.
    pub failing_since: Option<u64>,
}

impl View for Election {
    type V = ElectionModel;

    closed spec fn view(&self) -> ElectionModel {
        ElectionModel {
            identity: self.identity@,
            lease_duration_ms: self.lease_duration_ms,
            renew_deadline_ms: self.renew_deadline_ms,
            retry_period_ms: self.retry_period_ms,
            epoch: self.last_transitions,
            failing_since: self.first_failure_ms,
        }
    }
}

/// Whether a patch takes the lease as a candidate should.
pub open spec fn takes(p: LeasePatch, e: ElectionModel, l: LeaseModel) -> bool {
    &&& p.holder_identity@ == e.identity
    &&& p.lease_duration_seconds == written_duration(e.lease_duration_ms)
    &&& p.lease_transitions == transitions_after(previous_holder(l), e.identity, epoch_on(l))
    &&& p.last_holder is None
    &&& p.acquires
}

/// Whether a patch renews the lease and leaves its epoch.
pub open spec fn renews(p: LeasePatch, e: ElectionModel, l: LeaseModel) -> bool {
    &&& p.holder_identity@ == e.identity
    &&& p.lease_duration_seconds == written_duration(e.lease_duration_ms)
    &&& p.lease_transitions == epoch_on(l)
    &&& p.last_holder is None
    &&& !p.acquires
}

/// Whether a patch lets go of the lease, leaves its epoch and notes who held
/// it.
pub open spec fn releases(p: LeasePatch, e: ElectionModel) -> bool {
    &&& p.holder_identity@.len() == 0
    &&& p.lease_duration_seconds == written_duration(e.lease_duration_ms)
    &&& p.lease_transitions == e.epoch
    &&& text::opt_text(p.last_holder) == Some(e.identity)
    &&& !p.acquires
}

impl Election {
    pub fn new(identity: String) -> (e: Self)
        ensures
            e@ == (ElectionModel {
                identity: identity@,
                lease_duration_ms: 15_000,
                renew_deadline_ms: 10_000,
                retry_period_ms: 2_000,
                epoch: 0,
                failing_since: None,
            }),
    {
        Election {
            identity,
            lease_duration_ms: DEFAULT_LEASE_DURATION * 1000,
            renew_deadline_ms: DEFAULT_RENEW_DEADLINE * 1000,
            retry_period_ms: DEFAULT_RETRY_PERIOD * 1000,
            last_transitions: 0,
            first_failure_ms: None,
        }
    }

    /// Replaces the timings: how long the lease lasts, the deadline for renewing
    /// and the time between attempts.
    pub fn with_timings(self, lease_duration_ms: u64, renew_deadline_ms: u64, retry_period_ms: u64) -> (e: Self)
        ensures
            e@ == (ElectionModel { lease_duration_ms, renew_deadline_ms, retry_period_ms, ..self@ }),
    {
        Election {
            identity: self.identity,
            lease_duration_ms,
            renew_deadline_ms,
            retry_period_ms,
            last_transitions: self.last_transitions,
            first_failure_ms: self.first_failure_ms,
        }
    }

    pub fn identity(&self) -> (s: String)
        ensures
            s@ == self@.identity,
    {
        self.identity.clone()
    }

    fn duration_seconds(&self) -> (s: i32)
        ensures
            s == written_duration(self@.lease_duration_ms),
    {
        let seconds: u64 = self.lease_duration_ms / 1000;
        if seconds > i32::MAX as u64 {
            i32::MAX
        } else {
            seconds as i32
        }
    }

    /// Whether taking a lease that was looked at raises its epoch.
    pub fn epoch_rises(&self, lease: &Option<LeaseRecord>) -> (r: bool)
        ensures
            r == (previous_holder(seen(*lease)) != Some(self@.identity)),
    {
        match lease {
            None => true,
            Some(x) => {
                let held: bool = match &x.holder_identity {
                    Some(h) => !h.as_str().is_empty(),
                    None => false,
                };
                let previous: &Option<String> = if held {
                    &x.holder_identity
                } else {
                    &x.last_holder
                };
                match previous {
                    Some(h) => !text_eq(h, &self.identity),
                    None => true,
                }
            },
        }
    }

    /// Decides on a lease that was looked at: how to take it, or none where
    /// somebody else still renews it.
    pub fn try_acquire(&self, lease: &Option<LeaseRecord>, now_ns: i64) -> (r: Option<LeasePatch>)
        requires
            may_take(seen(*lease), self@.identity, self@.lease_duration_ms, now_ns) ==> transitions_after(
                previous_holder(seen(*lease)),
                self@.identity,
                epoch_on(seen(*lease)),
            ) <= i32::MAX,
        ensures
            r is Some <==> may_take(seen(*lease), self@.identity, self@.lease_duration_ms, now_ns),
            r matches Some(p) ==> takes(p, self@, seen(*lease)),
    {
        let ghost l = seen(*lease);
        let mut transitions: i32 = 0;
        let mut holder: Option<&str> = None;
        let mut last: Option<&str> = None;
        let mut stale: bool = true;
        match lease {
            None => {},
            Some(x) => {
                match x.lease_transitions {
                    Some(t) => {
                        transitions = t;
                    },
                    None => {},
                }
                match &x.holder_identity {
                    Some(h) => {
                        holder = Some(h.as_str());
                    },
                    None => {},
                }
                match &x.last_holder {
                    Some(h) => {
                        last = Some(h.as_str());
                    },
                    None => {},
                }
                match x.renew_time_ns {
                    Some(t) => {
                        let window: i128 = match x.lease_duration_seconds {
                            Some(s) => {
                                if s < 0 {
                                    0
                                } else {
                                    (s as i128) * 1_000_000_000
                                }
                            },
                            None => (self.lease_duration_ms as i128) * 1_000_000,
                        };
                        stale = (now_ns as i128) - (t as i128) > window;
                    },
                    None => {},
                }
            },
        }
        assert(stale == is_stale(l, self@.lease_duration_ms, now_ns));
        assert(match holder {
            Some(h) => l.holder == Some(h@),
            None => l.holder is None,
        });
        assert(match last {
            Some(h) => l.last_holder == Some(h@),
            None => l.last_holder is None,
        });
        let mut ours: bool = false;
        let mut released: bool = true;
        match holder {
            Some(h) => {
                ours = text_eq(h, &self.identity);
                released = h.is_empty();
            },
            None => {},
        }
        if !ours && !stale && !released {
            return None;
        }
        let previous: Option<&str> = if released {
            last
        } else {
            holder
        };
        let next: i32 = next_transitions(previous, &self.identity, transitions);
        Some(LeasePatch {
            holder_identity: self.identity.clone(),
            lease_duration_seconds: self.duration_seconds(),
            lease_transitions: next,
            last_holder: None,
            acquires: true,
        })
    }

    /// Takes down that the lease was taken or renewed under that epoch.
    pub fn holds(&mut self, transitions: i32) -> (epoch: i64)
        ensures
            epoch == transitions,
            final(self)@ == (ElectionModel { epoch: transitions, ..old(self)@ }),
    {
        self.last_transitions = transitions;
        transitions as i64
    }

    /// Decides on a lease that is to be renewed: how, or none where it is
    /// lost.
    pub fn try_renew(&self, lease: &Option<LeaseRecord>) -> (r: Option<LeasePatch>)
        ensures
            r is Some <==> seen(*lease).holder == Some(self@.identity),
            r matches Some(p) ==> renews(p, self@, seen(*lease)),
    {
        match lease {
            None => None,
            Some(x) => {
                let ours: bool = match &x.holder_identity {
                    Some(h) => text_eq(h, &self.identity),
                    None => false,
                };
                if !ours {
                    return None;
                }
                let transitions: i32 = match x.lease_transitions {
                    Some(t) => t,
                    None => 0,
                };
                Some(LeasePatch {
                    holder_identity: self.identity.clone(),
                    lease_duration_seconds: self.duration_seconds(),
                    lease_transitions: transitions,
                    last_holder: None,
                    acquires: false,
                })
            },
        }
    }

    /// How to let go of the lease.
    pub fn release(&self) -> (p: LeasePatch)
        ensures
            releases(p, self@),
    {
        LeasePatch {
            holder_identity: String::new(),
            lease_duration_seconds: self.duration_seconds(),
            lease_transitions: self.last_transitions,
            last_holder: Some(self.identity.clone()),
            acquires: false,
        }
    }

    /// How long to wait between attempts, in milliseconds.
    pub fn retry_period_ms(&self) -> (ms: u64)
        ensures
            ms == self@.retry_period_ms,
    {
        self.retry_period_ms
    }

    /// How long one attempt to renew may take, in milliseconds.
    pub fn attempt_budget_ms(&self) -> (ms: u64)
        ensures
            ms == (if self@.renew_deadline_ms > 3000 {
                self@.renew_deadline_ms
            } else {
                3000
            }),
    {
        let least: u64 = MIN_ATTEMPT_BUDGET * 1000;
        if self.renew_deadline_ms > least {
            self.renew_deadline_ms
        } else {
            least
        }
    }

    /// Takes down the outcome of an attempt to renew. Returns whether the
    /// holder goes on: it gives up where the lease is lost, or where renewing
    /// has failed for longer than the deadline.
    pub fn after_renewal(&mut self, outcome: RenewOutcome, now_ms: u64) -> (goes_on: bool)
        ensures
            match outcome {
                RenewOutcome::Renewed => goes_on && final(self)@ == (ElectionModel { failing_since: None, ..old(self)@ }),
                RenewOutcome::Lost => !goes_on && final(self)@ == old(self)@,
                RenewOutcome::Failed => {
                    let since = match old(self)@.failing_since {
                        Some(t) => t,
                        None => now_ms,
                    };
                    &&& final(self)@ == (ElectionModel { failing_since: Some(since), ..old(self)@ })
                    &&& goes_on == (now_ms - since <= old(self)@.renew_deadline_ms)
                },
            },
    {
        match outcome {
            RenewOutcome::Renewed => {
                self.first_failure_ms = None;
                true
            },
            RenewOutcome::Lost => false,
            RenewOutcome::Failed => {
                let since: u64 = match self.first_failure_ms {
                    Some(t) => t,
                    None => now_ms,
                };
                self.first_failure_ms = Some(since);
                now_ms < since || now_ms - since <= self.renew_deadline_ms
            },
        }
    }

    /// Forgets failed attempts; a new term begins.
    pub fn begin_term(&mut self)
        ensures
            final(self)@ == (ElectionModel { failing_since: None, ..old(self)@ }),
    {
        self.first_failure_ms = None;
    }
}

/// Where a campaign stands.
#[derive(Debug, Clone, Copy, PartialEq, Eq, Structural)]
pub enum Phase {
    /// It tries to take the lease.
    Candidate,
    /// It holds the lease and renews it.
    Leading,
    /// It was shut down.
    Stopped,
}

/// What happens to a campaign.
#[derive(Debug, Clone, Copy, PartialEq, Eq, Structural)]
pub enum CampaignEvent {
    /// An attempt took the lease under that epoch.
    Acquired(i32),
    /// An attempt found the lease held, or failed.
    NotAcquired,
    /// The lease was renewed under that epoch.
    Renewed(i32),
    /// The lease is gone or somebody else's.
    Lost,
    /// Renewing failed or took too long; that is the time, in milliseconds.
    RenewFailed(u64),
    /// What the leader runs has ended by itself.
    StackEnded,
    Shutdown,
}

/// What a campaign asks for. The actions of one step are done in order.
#[derive(Debug)]
pub enum CampaignAction {
    /// Try to take the lease.
    Attempt,
    /// Wait for the retry period.
    Wait,
    /// Try to renew the lease, within the budget of one attempt.
    Renew,
    /// Leadership begins under that epoch.
    OnAcquired(i64),
    /// Leadership is over.
    OnLost,
    /// End what the leader runs.
    EndTerm,
    /// Let go of the lease.
    Release(LeasePatch),
}

#[verifier::ext_equal]
pub struct CampaignModel {
    pub election: ElectionModel,
    pub phase: Phase,
}

/// An action, with what is written to the lease left out.
pub enum Step {
    Attempt,
    Wait,
    Renew,
    OnAcquired(int),
    OnLost,
    EndTerm,
    Release,
}

pub open spec fn step_of(a: CampaignAction) -> Step {
    match a {
        CampaignAction::Attempt => Step::Attempt,
        CampaignAction::Wait => Step::Wait,
        CampaignAction::Renew => Step::Renew,
        CampaignAction::OnAcquired(epoch) => Step::OnAcquired(epoch as int),
        CampaignAction::OnLost => Step::OnLost,
        CampaignAction::EndTerm => Step::EndTerm,
        CampaignAction::Release(p) => Step::Release,
    }
}

/// Whether renewing has failed for longer than the deadline.
pub open spec fn past_deadline(e: ElectionModel, now_ms: u64) -> bool {
    match e.failing_since {
        Some(t) => now_ms - t > e.renew_deadline_ms,
        None => false,
    }
}

/// The state after an event.
pub open spec fn campaign_after(c: CampaignModel, ev: CampaignEvent) -> CampaignModel {
    match (c.phase, ev) {
        (Phase::Candidate, CampaignEvent::Acquired(t)) => CampaignModel {
            phase: Phase::Leading,
            election: ElectionModel { epoch: t, failing_since: None, ..c.election },
        },
        (Phase::Candidate, CampaignEvent::Shutdown) => CampaignModel { phase: Phase::Stopped, ..c },
        (Phase::Leading, CampaignEvent::Renewed(t)) => CampaignModel {
            election: ElectionModel { epoch: t, failing_since: None, ..c.election },
            ..c
        },
        (Phase::Leading, CampaignEvent::Lost) => CampaignModel { phase: Phase::Candidate, ..c },
        (Phase::Leading, CampaignEvent::StackEnded) => CampaignModel { phase: Phase::Candidate, ..c },
        (Phase::Leading, CampaignEvent::RenewFailed(now)) => CampaignModel {
            phase: if past_deadline(c.election, now) {
                Phase::Candidate
            } else {
                Phase::Leading
            },
            election: ElectionModel {
                failing_since: match c.election.failing_since {
                    Some(t) => Some(t),
                    None => Some(now),
                },
                ..c.election
            },
        },
        (Phase::Leading, CampaignEvent::Shutdown) => CampaignModel { phase: Phase::Stopped, ..c },
        _ => c,
    }
}

/// What is done at an event.
pub open spec fn campaign_steps(c: CampaignModel, ev: CampaignEvent) -> Seq<Step> {
    match (c.phase, ev) {
        (Phase::Candidate, CampaignEvent::Acquired(t)) => seq![Step::OnAcquired(t as int), Step::Wait, Step::Renew],
        (Phase::Candidate, CampaignEvent::NotAcquired) => seq![Step::Wait, Step::Attempt],
        (Phase::Leading, CampaignEvent::Renewed(t)) => seq![Step::Wait, Step::Renew],
        (Phase::Leading, CampaignEvent::Lost) => seq![Step::OnLost, Step::EndTerm, Step::Attempt],
        (Phase::Leading, CampaignEvent::StackEnded) => seq![
            Step::Release,
            Step::OnLost,
            Step::EndTerm,
            Step::Attempt,
        ],
        (Phase::Leading, CampaignEvent::RenewFailed(now)) => if past_deadline(c.election, now) {
            seq![Step::OnLost, Step::EndTerm, Step::Attempt]
        } else {
            seq![Step::Wait, Step::Renew]
        },
        (Phase::Leading, CampaignEvent::Shutdown) => seq![Step::OnLost, Step::EndTerm, Step::Release],
        _ => Seq::empty(),
    }
}

/// A candidate that campaigns for the lease until it is shut down: it takes the
/// lease, renews it, and campaigns again where it is lost.
#[derive(Debug)]
pub struct Campaign {
    election: Election,
    phase: Phase,
}

impl View for Campaign {
    type V = CampaignModel;

    closed spec fn view(&self) -> CampaignModel {
        CampaignModel { election: self.election@, phase: self.phase }
    }
}

impl Campaign {
    /// Begins a campaign, with an attempt to take the lease.
    pub fn campaign(election: Election) -> (r: (Self, Vec<CampaignAction>))
        ensures
            r.0@ == (CampaignModel { election: election@, phase: Phase::Candidate }),
            r.1@.map_values(|a: CampaignAction| step_of(a)) == seq![Step::Attempt],
    {
        let mut actions: Vec<CampaignAction> = Vec::new();
        actions.push(CampaignAction::Attempt);
        (Campaign { election, phase: Phase::Candidate }, actions)
    }

    pub fn phase(&self) -> (p: Phase)
        ensures
            p == self@.phase,
    {
        self.phase
    }

    /// The candidate, which decides on the leases that the attempts find.
    pub fn election(&self) -> (e: &Election)
        ensures
            e@ == self@.election,
    {
        &self.election
    }

    /// Takes an event. An event that does not concern the phase changes
    /// nothing.
    pub fn on_event(&mut self, event: CampaignEvent) -> (actions: Vec<CampaignAction>)
        ensures
            final(self)@ == campaign_after(old(self)@, event),
            actions@.map_values(|a: CampaignAction| step_of(a)) == campaign_steps(old(self)@, event),
            forall|i: int|
                #![trigger actions@[i]]
                0 <= i < actions@.len() ==> (actions@[i] matches CampaignAction::Release(p) ==> releases(
                    p,
                    old(self)@.election,
                )),
    {
        let mut actions: Vec<CampaignAction> = Vec::new();
        let ghost before = self@;
        match self.phase {
            Phase::Candidate => match event {
                CampaignEvent::Acquired(transitions) => {
                    let epoch: i64 = self.election.holds(transitions);
                    self.election.begin_term();
                    self.phase = Phase::Leading;
                    actions.push(CampaignAction::OnAcquired(epoch));
                    actions.push(CampaignAction::Wait);
                    actions.push(CampaignAction::Renew);
                },
                CampaignEvent::NotAcquired => {
                    actions.push(CampaignAction::Wait);
                    actions.push(CampaignAction::Attempt);
                },
                CampaignEvent::Shutdown => {
                    self.phase = Phase::Stopped;
                },
                _ => {},
            },
            Phase::Leading => match event {
                CampaignEvent::Renewed(transitions) => {
                    self.election.holds(transitions);
                    self.election.after_renewal(RenewOutcome::Renewed, 0);
                    actions.push(CampaignAction::Wait);
                    actions.push(CampaignAction::Renew);
                },
                CampaignEvent::Lost => {
                    self.phase = Phase::Candidate;
                    actions.push(CampaignAction::OnLost);
                    actions.push(CampaignAction::EndTerm);
                    actions.push(CampaignAction::Attempt);
                },
                CampaignEvent::RenewFailed(now_ms) => {
                    if self.election.after_renewal(RenewOutcome::Failed, now_ms) {
                        actions.push(CampaignAction::Wait);
                        actions.push(CampaignAction::Renew);
                    } else {
                        self.phase = Phase::Candidate;
                        actions.push(CampaignAction::OnLost);
                        actions.push(CampaignAction::EndTerm);
                        actions.push(CampaignAction::Attempt);
                    }
                },
                CampaignEvent::StackEnded => {
                    self.phase = Phase::Candidate;
                    actions.push(CampaignAction::Release(self.election.release()));
                    actions.push(CampaignAction::OnLost);
                    actions.push(CampaignAction::EndTerm);
                    actions.push(CampaignAction::Attempt);
                },
                CampaignEvent::Shutdown => {
                    self.phase = Phase::Stopped;
                    actions.push(CampaignAction::OnLost);
                    actions.push(CampaignAction::EndTerm);
                    actions.push(CampaignAction::Release(self.election.release()));
                },
                _ => {},
            },
            Phase::Stopped => {},
        }
        assert(self@ == campaign_after(before, event));
        assert(actions@.map_values(|a: CampaignAction| step_of(a)) =~= campaign_steps(before, event));
        actions
    }
}

// Laws.

/// A candidate that takes back the lease which it let go of keeps its epoch.
pub proof fn law_own_reacquisition_keeps_the_epoch(e: ElectionModel, gone: LeasePatch, back: LeasePatch, now_ns: i64)
    requires
        releases(gone, e),
        takes(back, e, patched(gone, now_ns)),
    ensures
        back.lease_transitions == e.epoch,
{
}

/// A holder that takes its own live lease again keeps its epoch.
pub proof fn law_taking_an_own_lease_keeps_the_epoch(e: ElectionModel, l: LeaseModel, p: LeasePatch)
    requires
        l.holder == Some(e.identity),
        e.identity.len() > 0,
        takes(p, e, l),
    ensures
        p.lease_transitions == epoch_on(l),
{
}

/// Taking the lease from somebody else, or from somebody unknown, raises the
/// epoch by one.
pub proof fn law_handover_raises_the_epoch(e: ElectionModel, l: LeaseModel, p: LeasePatch)
    requires
        previous_holder(l) != Some(e.identity),
        takes(p, e, l),
    ensures
        p.lease_transitions == epoch_on(l) + 1,
{
}

/// The epoch on the lease never goes back, whichever candidate writes it: the
/// holder knows the epoch that it took or renewed the lease with.
pub proof fn law_epoch_never_goes_back(e: ElectionModel, l: LeaseModel, p: LeasePatch, now_ns: i64)
    requires
        takes(p, e, l) || renews(p, e, l) || (releases(p, e) && e.epoch == epoch_on(l)),
    ensures
        epoch_on(patched(p, now_ns)) >= epoch_on(l),
{
}

/// A lease that was let go of is free at once.
pub proof fn law_released_lease_is_free(e: ElectionModel, gone: LeasePatch, at_ns: i64, other: Seq<char>, own_ms: u64, now_ns: i64)
    requires
        releases(gone, e),
    ensures
        may_take(patched(gone, at_ns), other, own_ms, now_ns),
{
}

/// Nobody takes a lease that somebody else keeps renewing.
pub proof fn law_live_lease_is_safe(e: ElectionModel, l: LeaseModel, p: LeasePatch, at_ns: i64, other: Seq<char>, own_ms: u64, now_ns: i64)
    requires
        renews(p, e, l) || takes(p, e, l),
        e.identity.len() > 0,
        other != e.identity,
        now_ns - at_ns <= written_duration(e.lease_duration_ms) * 1_000_000_000,
    ensures
        !may_take(patched(p, at_ns), other, own_ms, now_ns),
{
}

/// Between two terms of leadership its loss is announced and what the leader
/// runs is ended, before anything else is tried: a campaign that stops leading
/// does both at that event, in that order, and an attempt to take the lease
/// comes after them.
pub proof fn law_loss_precedes_the_next_term(c: CampaignModel, ev: CampaignEvent)
    requires
        c.phase is Leading,
        !(campaign_after(c, ev).phase is Leading),
    ensures
        exists|i: int|
            0 <= i < campaign_steps(c, ev).len() - 1 && (#[trigger] campaign_steps(c, ev)[i]) == Step::OnLost
                && campaign_steps(c, ev)[i + 1] == Step::EndTerm && forall|j: int|
                0 <= j < campaign_steps(c, ev).len() && campaign_steps(c, ev)[j] == Step::Attempt ==> j > i + 1,
{
    let s = campaign_steps(c, ev);
    match ev {
        CampaignEvent::StackEnded => {
            assert(s[1] == Step::OnLost && s[2] == Step::EndTerm);
        },
        _ => {
            assert(s[0] == Step::OnLost && s[1] == Step::EndTerm);
        },
    }
}

/// A campaign that was shut down does nothing more.
pub proof fn law_stopped_campaign_rests(c: CampaignModel, ev: CampaignEvent)
    requires
        c.phase is Stopped,
    ensures
        campaign_after(c, ev) == c,
        campaign_steps(c, ev).len() == 0,
{
}

/// Failures to renew are borne for no longer than the deadline: a leader stays
/// one after a failure exactly where renewing has not failed for longer.
pub proof fn law_failures_are_borne_until_the_deadline(c: CampaignModel, now_ms: u64)
    requires
        c.phase is Leading,
    ensures
        campaign_after(c, CampaignEvent::RenewFailed(now_ms)).phase is Leading <==> (c.election.failing_since matches Some(t)
            ==> now_ms - t <= c.election.renew_deadline_ms),
{
}

} // verus!
