//! What the lease says after each step of an election, and what a campaign
//! does at each event.

use vstd::prelude::*;
use crate::election;
use crate::election::{CampaignEvent, CampaignModel, ElectionModel, LeaseModel, LeasePatch, Step};

verus! {

/// A candidate may take a lease that carries its own name, no name or an empty
/// one, and one that was never renewed. It may take any other only where more
/// nanoseconds have passed since the last renewal than the lease lasts by its
/// own seconds, or by the candidate's milliseconds where it says nothing.
pub proof fn law_who_may_take(l: LeaseModel, me: Seq<char>, own_ms: u64, now_ns: i64)
    ensures
        l.holder is None ==> election::may_take(l, me, own_ms, now_ns),
        l.holder == Some(me) ==> election::may_take(l, me, own_ms, now_ns),
        l.holder == Some(Seq::<char>::empty()) ==> election::may_take(l, me, own_ms, now_ns),
        l.renewed_ns is None ==> election::may_take(l, me, own_ms, now_ns),
        l.holder is Some && l.holder->0.len() > 0 && l.holder->0 != me && l.renewed_ns is Some ==> {
            let t = l.renewed_ns->0;
            &&& (l.duration matches Some(s) ==> (s >= 0 ==> (election::may_take(l, me, own_ms, now_ns) <==> now_ns - t > s
                * 1_000_000_000)))
            &&& (l.duration matches Some(s) ==> (s < 0 ==> (election::may_take(l, me, own_ms, now_ns) <==> now_ns > t)))
            &&& (l.duration is None ==> (election::may_take(l, me, own_ms, now_ns) <==> now_ns - t > own_ms * 1_000_000))
        },
{
}

/// What a candidate writes when it takes the lease: its own name and whole
/// seconds, and the epoch of the lease, one more where the lease was last held
/// by another or by nobody known. The name that was left on it goes.
pub proof fn law_taken_lease(p: LeasePatch, e: ElectionModel, l: LeaseModel, now_ns: i64)
    requires
        election::takes(p, e, l),
    ensures
        ({
            let r = election::patched(p, now_ns);
            let was: int = match l.transitions {
                Some(t) => t as int,
                None => 0,
            };
            let mine = match l.holder {
                Some(h) => if h.len() > 0 {
                    h == e.identity
                } else {
                    l.last_holder == Some(e.identity)
                },
                None => l.last_holder == Some(e.identity),
            };
            &&& r.holder == Some(e.identity)
            &&& r.renewed_ns == Some(now_ns)
            &&& r.last_holder is None
            &&& (r.transitions matches Some(t) && t == (if mine {
                was
            } else {
                was + 1
            }))
            &&& e.lease_duration_ms / 1000 <= i32::MAX ==> (r.duration matches Some(s) && s * 1000 <= e.lease_duration_ms
                && e.lease_duration_ms < s * 1000 + 1000)
            &&& p.acquires
        }),
{
}

/// What a holder writes when it renews the lease: its own name again, under the
/// epoch that the lease has.
pub proof fn law_renewed_lease(p: LeasePatch, e: ElectionModel, l: LeaseModel, now_ns: i64)
    requires
        election::renews(p, e, l),
    ensures
        ({
            let r = election::patched(p, now_ns);
            &&& r.holder == Some(e.identity)
            &&& r.renewed_ns == Some(now_ns)
            &&& r.last_holder is None
            &&& (l.transitions matches Some(t) ==> r.transitions == Some(t))
            &&& l.transitions is None ==> r.transitions == Some(0i32)
            &&& e.lease_duration_ms / 1000 <= i32::MAX ==> (r.duration matches Some(s) && s * 1000 <= e.lease_duration_ms
                && e.lease_duration_ms < s * 1000 + 1000)
            &&& !p.acquires
        }),
{
}

/// What a holder writes when it lets go: no name, its epoch, and its own name
/// as the one who held it last.
pub proof fn law_released_lease(p: LeasePatch, e: ElectionModel, now_ns: i64)
    requires
        election::releases(p, e),
    ensures
        ({
            let r = election::patched(p, now_ns);
            &&& r.holder == Some(Seq::<char>::empty())
            &&& r.last_holder == Some(e.identity)
            &&& r.transitions == Some(e.epoch)
            &&& r.renewed_ns == Some(now_ns)
            &&& !p.acquires
        }),
{
    assert(p.holder_identity@ =~= Seq::<char>::empty());
}

/// A candidate that takes the lease leads under the epoch on it, announces
/// that epoch first, and goes on to renew after a wait. One that does not get
/// it waits and tries again.
pub proof fn law_candidate_steps(c: CampaignModel, t: i32)
    requires
        c.phase is Candidate,
    ensures
        ({
            let after = election::campaign_after(c, CampaignEvent::Acquired(t));
            let steps = election::campaign_steps(c, CampaignEvent::Acquired(t));
            &&& after.phase is Leading
            &&& after.election.epoch == t
            &&& after.election.failing_since is None
            &&& after.election.identity == c.election.identity
            &&& steps.len() == 3 && steps[0] == Step::OnAcquired(t as int) && steps[1] == Step::Wait && steps[2] == Step::Renew
        }),
        ({
            let steps = election::campaign_steps(c, CampaignEvent::NotAcquired);
            &&& election::campaign_after(c, CampaignEvent::NotAcquired) == c
            &&& steps.len() == 2 && steps[0] == Step::Wait && steps[1] == Step::Attempt
        }),
        election::campaign_after(c, CampaignEvent::Shutdown).phase is Stopped,
        election::campaign_steps(c, CampaignEvent::Shutdown).len() == 0,
{
}

/// A leader that renewed the lease goes on renewing, and failures before that
/// are forgotten. One that lost it announces that and campaigns again; it
/// releases nothing. One that stops leading by itself, or is shut down, lets
/// go of the lease.
pub proof fn law_leader_steps(c: CampaignModel, t: i32)
    requires
        c.phase is Leading,
    ensures
        ({
            let after = election::campaign_after(c, CampaignEvent::Renewed(t));
            let steps = election::campaign_steps(c, CampaignEvent::Renewed(t));
            &&& after.phase is Leading && after.election.epoch == t && after.election.failing_since is None
            &&& steps.len() == 2 && steps[0] == Step::Wait && steps[1] == Step::Renew
        }),
        ({
            let steps = election::campaign_steps(c, CampaignEvent::Lost);
            &&& election::campaign_after(c, CampaignEvent::Lost).phase is Candidate
            &&& steps.len() == 3 && steps[0] == Step::OnLost && steps[1] == Step::EndTerm && steps[2] == Step::Attempt
        }),
        ({
            let steps = election::campaign_steps(c, CampaignEvent::StackEnded);
            &&& election::campaign_after(c, CampaignEvent::StackEnded).phase is Candidate
            &&& steps.len() == 4 && steps[0] == Step::Release && steps[1] == Step::OnLost && steps[2] == Step::EndTerm && steps[3]
                == Step::Attempt
        }),
        ({
            let steps = election::campaign_steps(c, CampaignEvent::Shutdown);
            &&& election::campaign_after(c, CampaignEvent::Shutdown).phase is Stopped
            &&& steps.len() == 3 && steps[0] == Step::OnLost && steps[1] == Step::EndTerm && steps[2] == Step::Release
        }),
{
}

/// The first failure to renew starts the clock and later ones do not move it.
/// The leader gives up at the first failure that comes later than its deadline
/// after that.
pub proof fn law_failing_leader(c: CampaignModel, now_ms: u64)
    requires
        c.phase is Leading,
    ensures
        ({
            let after = election::campaign_after(c, CampaignEvent::RenewFailed(now_ms));
            let steps = election::campaign_steps(c, CampaignEvent::RenewFailed(now_ms));
            &&& after.election.epoch == c.election.epoch
            &&& c.election.failing_since is None ==> after.election.failing_since == Some(now_ms) && after.phase is Leading
            &&& (c.election.failing_since matches Some(since) ==> {
                &&& after.election.failing_since == Some(since)
                &&& after.phase is Leading <==> now_ms - since <= c.election.renew_deadline_ms
            })
            &&& after.phase is Leading ==> steps.len() == 2 && steps[0] == Step::Wait && steps[1] == Step::Renew
            &&& !(after.phase is Leading) ==> after.phase is Candidate && steps.len() == 3 && steps[0] == Step::OnLost && steps[1]
                == Step::EndTerm && steps[2] == Step::Attempt
        }),
{
}

} // verus!
