//! What a consumer group answers to each request, and what it keeps of it.

use vstd::prelude::*;
use crate::group;
use crate::group::{Act, GroupModel, GroupState, JoinRequestModel, JoinedModel, MemberModel, SyncRequestModel, WaiterModel};
use crate::group_laws;
use crate::order;

verus! {

// SyncGroup.

/// What the round of a group has for a member: nothing where it has none.
pub open spec fn share_of(g: GroupModel, k: Seq<char>) -> Seq<u8> {
    match g.round {
        Some(r) => if r.assignments.contains_key(k) {
            r.assignments[k]
        } else {
            Seq::empty()
        },
        None => Seq::empty(),
    }
}

/// Whether `a` answers a SyncGroup request under a ticket: without error, with
/// that assignment and under that protocol.
pub open spec fn hands_out(a: Act, ticket: u64, assignment: Seq<u8>, protocol_type: Seq<char>, protocol_name: Seq<char>) -> bool {
    a matches Act::SyncReply { ticket: t, reply } && t == ticket && reply.error_code == 0 && reply.assignment == assignment
        && reply.protocol_type == protocol_type && reply.protocol_name == protocol_name
}

/// Whether `a` refuses a SyncGroup request under a ticket.
pub open spec fn refuses_sync(a: Act, ticket: u64, code: int) -> bool {
    a matches Act::SyncReply { ticket: t, reply } && t == ticket && reply.error_code == code && reply.assignment.len() == 0
        && reply.protocol_type.len() == 0 && reply.protocol_name.len() == 0
}

/// A SyncGroup request is refused, and changes nothing: of a stranger with
/// code 25, of another generation with code 22, and with code 27 while no round
/// is under way.
pub proof fn law_sync_refusals(g: GroupModel, req: SyncRequestModel, ticket: u64)
    ensures
        ({
            let (h, acts) = group::sync_next(g, req, ticket);
            let known = g.members.contains_key(req.member_id);
            let current = req.generation == g.generation;
            let under_way = (g.state == GroupState::CompletingRebalance || g.state == GroupState::Stable) && g.round is Some;
            &&& !known ==> h == g && acts.len() == 1 && refuses_sync(acts[0], ticket, 25)
            &&& known && !current ==> h == g && acts.len() == 1 && refuses_sync(acts[0], ticket, 22)
            &&& known && current && !under_way ==> h == g && acts.len() == 1 && refuses_sync(acts[0], ticket, 27)
            &&& group::sync_error(g, req) is None <==> known && current && under_way
        }),
{
}

/// A SyncGroup request that is not refused. The leader's is answered at once,
/// behind those that waited for it, and each of them with what the round has
/// for its member; the round is then delivered, nobody waits for it, and the
/// group is stable. A follower's is answered at once from a round that was
/// delivered, and changes nothing; else it waits, and is not answered.
pub proof fn law_sync_hands_out_the_round(g: GroupModel, req: SyncRequestModel, ticket: u64, j: int)
    requires
        group::sync_error(g, req) is None,
    ensures
        ({
            let (h, acts) = group::sync_next(g, req, ticket);
            let r = g.round->0;
            &&& req.member_id == g.leader ==> {
                &&& h.state == GroupState::Stable
                &&& h.round matches Some(x) && x.delivered && x.parked.len() == 0
                &&& acts.len() == r.parked.len() + 2
                &&& acts[0] == Act::CountRebalance
                &&& 0 <= j < r.parked.len() ==> hands_out(
                    acts[1 + j],
                    r.parked[j].ticket,
                    share_of(h, r.parked[j].member_id),
                    r.parked[j].protocol_type,
                    r.parked[j].protocol_name,
                )
                &&& hands_out(acts[acts.len() - 1], ticket, share_of(h, req.member_id), g.protocol_type, g.protocol_name)
                &&& h.generation == g.generation && h.leader == g.leader && h.protocol_name == g.protocol_name && h.protocol_type == g.protocol_type
                &&& h.waiters == g.waiters && h.id == g.id && h.initial == g.initial && h.deadline == g.deadline
            }
            &&& req.member_id != g.leader && r.delivered ==> {
                &&& h == g
                &&& acts.len() == 1
                &&& hands_out(acts[0], ticket, share_of(g, req.member_id), g.protocol_type, g.protocol_name)
            }
            &&& req.member_id != g.leader && !r.delivered ==> {
                &&& acts.len() == 0
                &&& h.round matches Some(x) && x.assignments == r.assignments && !x.delivered && x.parked.len() == r.parked.len() + 1
                    && x.parked.take(r.parked.len() as int) == r.parked && x.parked.last().member_id == req.member_id && x.parked.last().ticket == ticket
                    && x.parked.last().protocol_type == g.protocol_type && x.parked.last().protocol_name == g.protocol_name
                &&& h == (GroupModel { round: h.round, ..g })
            }
        }),
{
    let (h, acts) = group::sync_next(g, req, ticket);
    let r = g.round->0;
    if req.member_id != g.leader && !r.delivered {
        let x = h.round->0;
        assert(x.parked.take(r.parked.len() as int) =~= r.parked);
    }
}

/// A follower gets the bytes that the leader listed last for it, and none
/// where the leader listed none, whichever of the two syncs first: one that
/// waited is answered by the leader's request, and one that comes later is
/// answered at once.
pub proof fn law_follower_gets_what_the_leader_gave(
    g: GroupModel,
    led: SyncRequestModel,
    led_ticket: u64,
    req: SyncRequestModel,
    ticket: u64,
    j: int,
    i: int,
)
    requires
        group::sync_error(g, led) is None,
        led.member_id == g.leader,
        (g.round->0).assignments == Map::<Seq<char>, Seq<u8>>::empty(),
        req.member_id != g.leader,
        g.members.contains_key(req.member_id),
        req.generation == g.generation,
        -1 <= i < led.assignments.len(),
        i >= 0 ==> led.assignments[i].0 == req.member_id,
        forall|n: int| i < n < led.assignments.len() ==> (#[trigger] led.assignments[n]).0 != req.member_id,
    ensures
        ({
            let given = if i >= 0 { led.assignments[i].1 } else { Seq::empty() };
            let (h, first) = group::sync_next(g, led, led_ticket);
            let (after, acts) = group::sync_next(h, req, ticket);
            let parked = (g.round->0).parked;
            &&& after == h
            &&& acts.len() == 1
            &&& hands_out(acts[0], ticket, given, g.protocol_type, g.protocol_name)
            &&& 0 <= j < parked.len() && parked[j].member_id == req.member_id ==> hands_out(
                first[1 + j],
                parked[j].ticket,
                given,
                parked[j].protocol_type,
                parked[j].protocol_name,
            )
            &&& h.members.contains_key(req.member_id) && h.members[req.member_id].assignment == given
        }),
{
    let k = req.member_id;
    let h = group::sync_next(g, led, led_ticket).0;
    group_laws::law_leader_sync_assigns_everyone(g, led, led_ticket, k);
    if i >= 0 {
        assert(led.assignments[i].0 == k);
    }
    assert(h.members.contains_key(k));
    law_sync_hands_out_the_round(g, led, led_ticket, j);
    assert(group::sync_error(h, req) is None);
    law_sync_hands_out_the_round(h, req, ticket, 0);
}

/// What the leader gets back for itself, and what a request of the leader that
/// comes again leaves of the round: an entry that it lists replaces the one
/// there was, and any other stays.
pub proof fn law_leader_may_sync_again(g: GroupModel, req: SyncRequestModel, ticket: u64, k: Seq<char>, i: int)
    requires
        group::sync_error(g, req) is None,
        req.member_id == g.leader,
        -1 <= i < req.assignments.len(),
        i >= 0 ==> req.assignments[i].0 == k,
        forall|n: int| i < n < req.assignments.len() ==> (#[trigger] req.assignments[n]).0 != k,
    ensures
        share_of(group::sync_next(g, req, ticket).0, k) == (if i >= 0 {
            req.assignments[i].1
        } else {
            share_of(g, k)
        }),
{
    lemma_last_wins((g.round->0).assignments, req.assignments, k, i);
}

proof fn lemma_last_wins(m: Map<Seq<char>, Seq<u8>>, list: Seq<(Seq<char>, Seq<u8>)>, k: Seq<char>, i: int)
    requires
        -1 <= i < list.len(),
        i >= 0 ==> list[i].0 == k,
        forall|n: int| i < n < list.len() ==> (#[trigger] list[n]).0 != k,
    ensures
        i >= 0 ==> group::with_assignments(m, list).contains_key(k) && group::with_assignments(m, list)[k] == list[i].1,
        i < 0 ==> group::with_assignments(m, list).contains_key(k) == m.contains_key(k) && (m.contains_key(k) ==> group::with_assignments(m, list)[k]
            == m[k]),
    decreases list.len(),
{
    if list.len() > 0 && i < list.len() - 1 {
        let d = list.drop_last();
        assert forall|n: int| i < n < d.len() implies (#[trigger] d[n]).0 != k by {
            assert(list[n].0 != k);
        }
        assert(list[list.len() - 1].0 != k);
        lemma_last_wins(m, d, k, i);
    }
}

// JoinGroup.

/// The joining member: under the id that it gives, or under a new one that
/// begins with its client id. It is in the group afterwards with what its
/// request says; what the group had of its client is kept. Every other member
/// stays, and keeps all but its assignment, which goes when a rebalance
/// completes.
pub proof fn law_joining_member_is_in(g: GroupModel, req: JoinRequestModel, ticket: u64, fresh: u64, now_ms: u64, k: Seq<char>)
    ensures
        ({
            let (h, acts) = group::join_next(g, req, ticket, fresh, now_ms);
            let id = group::joining_id(req, fresh);
            let known = g.members.contains_key(id);
            &&& req.member_id.len() > 0 ==> id == req.member_id
            &&& h.members.contains_key(id)
            &&& h.members[id].instance == req.instance
            &&& h.members[id].session_timeout == req.session_timeout
            &&& h.members[id].rebalance_timeout == req.rebalance_timeout
            &&& h.members[id].protocols == req.protocols
            &&& known ==> h.members[id].id == g.members[id].id && h.members[id].client_id == g.members[id].client_id && h.members[id].client_host
                == g.members[id].client_host
            &&& !known ==> h.members[id].id == id && h.members[id].client_id == req.client_id && h.members[id].client_host == req.client_host
                && h.members[id].assignment.len() == 0
            &&& k != id ==> h.members.contains_key(k) == g.members.contains_key(k)
            &&& k != id && g.members.contains_key(k) ==> h.members[k] == (MemberModel { assignment: h.members[k].assignment, ..g.members[k] })
            &&& h.state != GroupState::CompletingRebalance && g.members.contains_key(k) ==> h.members[k].assignment == g.members[k].assignment
            &&& h.state == GroupState::CompletingRebalance && h.members.contains_key(k) ==> h.members[k].assignment.len() == 0
            &&& h.protocol_type == (if req.protocol_type.len() > 0 {
                req.protocol_type
            } else {
                g.protocol_type
            })
            &&& h.id == g.id
            &&& acts.len() >= 1
            &&& acts[0] matches Act::ArmSession { member_id, after_ms } && member_id == id && after_ms == (if req.session_timeout > 0 {
                req.session_timeout as int
            } else {
                30000
            })
        }),
{
}

/// Whether this is the first rebalance of a group or it is given up, a request
/// completes no rebalance; else it does where as many requests wait, this one
/// among them, as there are members.
pub open spec fn is_last_awaited(g: GroupModel, id: Seq<char>) -> bool {
    !g.initial && g.state != GroupState::Dead && g.waiters.len() + 1 >= g.members.dom().insert(id).len()
}

/// What a JoinGroup request does to a group that is not given up: the request
/// waits behind the others while a rebalance is under way, or, where it is the
/// last that is awaited, the rebalance completes and all of them are welcomed
/// to the next generation, in the order in which they came.
pub proof fn law_join_waits_or_completes(g: GroupModel, req: JoinRequestModel, ticket: u64, fresh: u64, now_ms: u64, i: int)
    requires
        g.state != GroupState::Dead,
        is_last_awaited(g, group::joining_id(req, fresh)) ==> g.generation < i32::MAX,
        g.members.dom().finite(),
    ensures
        ({
            let (h, acts) = group::join_next(g, req, ticket, fresh, now_ms);
            let id = group::joining_id(req, fresh);
            let all = g.waiters.push(WaiterModel { member_id: id, ticket });
            let members = group::with_member(g, req, id).members;
            let n = acts.len() - all.len();
            &&& !is_last_awaited(g, id) ==> h.state == GroupState::PreparingRebalance && h.waiters == all && h.generation == g.generation && h.leader
                == g.leader && h.protocol_name == g.protocol_name && h.initial == g.initial
            &&& is_last_awaited(g, id) ==> {
                &&& h.state == GroupState::CompletingRebalance && h.waiters.len() == 0 && h.generation == g.generation + 1 && h.leader == all[0].member_id
                &&& h.round matches Some(r) && !r.delivered && r.parked.len() == 0 && r.assignments == Map::<Seq<char>, Seq<u8>>::empty()
                &&& n >= 1 && acts[n - 1] == Act::DisarmRebalance
                &&& 0 <= i < all.len() ==> welcomes(acts[n + i], members, all, h.protocol_type, g.generation + 1, i)
                &&& is_choice(members, all, h.protocol_name)
            }
        }),
{
    let (h, acts) = group::join_next(g, req, ticket, fresh, now_ms);
    let id = group::joining_id(req, fresh);
    let all = g.waiters.push(WaiterModel { member_id: id, ticket });
    let g1 = group::with_member(g, req, id);
    assert(g1.members.dom() =~= g.members.dom().insert(id));
    if is_last_awaited(g, id) {
        let g2 = match g.state {
            GroupState::PreparingRebalance => GroupModel { waiters: all, ..g1 },
            GroupState::Empty => {
                let cap = group::max_timeout(g1.members);
                GroupModel {
                    state: GroupState::PreparingRebalance,
                    deadline: Some(if now_ms + cap <= u64::MAX { (now_ms + cap) as u64 } else { u64::MAX }),
                    waiters: all,
                    ..g1
                }
            },
            _ => GroupModel { state: GroupState::PreparingRebalance, round: None, waiters: all, ..g1 },
        };
        law_completion_welcomes_everyone(g2, i);
        assert(h == group::completed(g2).0);
        let more = group::completed(g2).1;
        let n = acts.len() - all.len();
        assert(more.len() == all.len() + 1);
        assert(acts.skip(acts.len() - more.len()) =~= more);
        assert(acts[n - 1] == acts.skip(acts.len() - more.len())[0]);
        if 0 <= i < all.len() {
            assert(acts[n + i] == acts.skip(acts.len() - more.len())[1 + i]);
        }
    }
}

/// A request that comes while members work or sync breaks off their round:
/// those that wait for its leader are told, with code 27, and the round is
/// gone unless a new one begins at once.
pub proof fn law_join_breaks_off_the_round(g: GroupModel, req: JoinRequestModel, ticket: u64, fresh: u64, now_ms: u64, j: int)
    requires
        g.state == GroupState::Stable || g.state == GroupState::CompletingRebalance,
        g.round matches Some(r) && !r.delivered && 0 <= j < r.parked.len(),
    ensures
        ({
            let (h, acts) = group::join_next(g, req, ticket, fresh, now_ms);
            &&& acts.len() > 2 + j
            &&& refuses_sync(acts[2 + j], (g.round->0).parked[j].ticket, 27)
            &&& h.round matches Some(r) ==> r.parked.len() == 0 && !r.delivered && h.state == GroupState::CompletingRebalance
        }),
{
}

/// Where a rebalance begins, its timer is set: for the greatest timeout of the
/// members, or for the first rebalance of a group for no more than three
/// seconds and no longer than until the first member's would have run out.
pub proof fn law_join_sets_the_timer(g: GroupModel, req: JoinRequestModel, ticket: u64, fresh: u64, now_ms: u64)
    ensures
        ({
            let (h, acts) = group::join_next(g, req, ticket, fresh, now_ms);
            let id = group::joining_id(req, fresh);
            let most = group::max_timeout(group::with_member(g, req, id).members) as int;
            let left = match g.deadline {
                Some(d) => if d > now_ms {
                    d - now_ms
                } else {
                    0
                },
                None => most,
            };
            &&& g.state == GroupState::Stable || g.state == GroupState::CompletingRebalance ==> acts.len() >= 2 && (acts[1] matches Act::ArmRebalance {
                after_ms,
            } && after_ms == most as u64)
            &&& g.state == GroupState::Empty && most > 0 ==> acts.len() >= 2 && (acts[1] matches Act::ArmRebalance { after_ms } && after_ms == (if most
                < 3000 { most } else { 3000 }) || now_ms + most > u64::MAX)
            &&& g.state == GroupState::Empty && g.initial ==> (h.deadline matches Some(d) && (most > 0 ==> d == (if now_ms + most <= u64::MAX {
                now_ms + most
            } else {
                u64::MAX as int
            })))
            &&& g.state == GroupState::PreparingRebalance && g.initial && !g.members.contains_key(id) && most > 0 ==> acts.len() >= 2 && (acts[1] matches Act::ArmRebalance {
                after_ms,
            } && after_ms == (if g.deadline is Some && left < most && left < 3000 {
                left
            } else if most < 3000 {
                most
            } else {
                3000
            }))
            &&& g.state == GroupState::PreparingRebalance && (!g.initial || g.members.contains_key(id)) ==> (forall|n: int|
                0 <= n < acts.len() ==> !(#[trigger] acts[n] is ArmRebalance))
        }),
{
}

/// A group that was given up takes nobody in: the request is refused with code
/// 25.
pub proof fn law_dead_group_refuses(g: GroupModel, req: JoinRequestModel, ticket: u64, fresh: u64, now_ms: u64)
    requires
        g.state == GroupState::Dead,
    ensures
        ({
            let (h, acts) = group::join_next(g, req, ticket, fresh, now_ms);
            &&& h.state == GroupState::Dead && h.waiters == g.waiters && h.round == g.round && h.generation == g.generation
            &&& acts.len() == 2
            &&& acts[1] matches Act::JoinReply { ticket: t, outcome } && t == ticket && outcome.error_code == 25 && outcome.member_id
                == group::joining_id(req, fresh) && outcome.members.len() == 0 && outcome.generation_id == 0 && outcome.leader.len() == 0
        }),
{
}

/// The greatest timeout of a group is that of one of its members and exceeded
/// by none; where no member has a positive one it is half a minute.
pub proof fn law_greatest_timeout(members: Map<Seq<char>, MemberModel>, k: Seq<char>)
    requires
        members.dom().finite(),
    ensures
        ({
            let r = group::max_timeout(members);
            &&& r > 0
            &&& members.contains_key(k) ==> members[k].rebalance_timeout <= r
            &&& members.contains_key(k) && members[k].rebalance_timeout > 0 ==> exists|m: Seq<char>|
                #[trigger] members.contains_key(m) && members[m].rebalance_timeout == r
            &&& (forall|m: Seq<char>| #[trigger] members.contains_key(m) ==> members[m].rebalance_timeout <= 0) ==> r == 30000
        }),
{
    if exists|m: Seq<char>| #[trigger] members.contains_key(m) && members[m].rebalance_timeout > 0 {
        let m = choose|m: Seq<char>| #[trigger] members.contains_key(m) && members[m].rebalance_timeout > 0;
        let t = lemma_greatest(members, members.dom());
        assert(members.contains_key(t));
        assert(members[m].rebalance_timeout <= members[t].rebalance_timeout);
        let r = members[t].rebalance_timeout;
        assert(group::greatest_timeout(members, r));
        let c = group::max_timeout(members);
        assert(c > 0 && group::greatest_timeout(members, c));
    } else {
        if exists|r: i32| r > 0 && #[trigger] group::greatest_timeout(members, r) {
            let r = choose|r: i32| r > 0 && #[trigger] group::greatest_timeout(members, r);
            assert(group::greatest_timeout(members, r));
        }
    }
}

proof fn lemma_greatest(members: Map<Seq<char>, MemberModel>, s: Set<Seq<char>>) -> (t: Seq<char>)
    requires
        s.finite(),
        s.len() > 0,
        s.subset_of(members.dom()),
    ensures
        s.contains(t),
        forall|m: Seq<char>| #[trigger] s.contains(m) ==> members[m].rebalance_timeout <= members[t].rebalance_timeout,
    decreases s.len(),
{
    let x = s.choose();
    assert(s.contains(x)) by {
        if forall|y: Seq<char>| !s.contains(y) {
            assert(s =~= Set::empty());
        }
    }
    let rest = s.remove(x);
    if rest.len() == 0 {
        assert forall|m: Seq<char>| #[trigger] s.contains(m) implies members[m].rebalance_timeout <= members[x].rebalance_timeout by {
            if m != x {
                assert(rest.contains(m));
                rest.lemma_len0_is_empty();
            }
        }
        x
    } else {
        let y = lemma_greatest(members, rest);
        let t = if members[x].rebalance_timeout > members[y].rebalance_timeout { x } else { y };
        assert forall|m: Seq<char>| #[trigger] s.contains(m) implies members[m].rebalance_timeout <= members[t].rebalance_timeout by {
            if m != x {
                assert(rest.contains(m));
            }
        }
        t
    }
}

// The end of a rebalance.

/// Whether a member lists a protocol.
pub open spec fn supports(members: Map<Seq<char>, MemberModel>, k: Seq<char>, p: Seq<char>) -> bool {
    members.contains_key(k) && exists|n: int| 0 <= n < members[k].protocols.len() && (#[trigger] members[k].protocols[n]).name == p
}

pub open spec fn everyone_supports(members: Map<Seq<char>, MemberModel>, waiters: Seq<WaiterModel>, p: Seq<char>) -> bool {
    forall|i: int| 0 <= i < waiters.len() ==> supports(members, (#[trigger] waiters[i]).member_id, p)
}

/// Whether `p` is the protocol for the members that wait: the first of those
/// that the first of them lists that all of them list; empty where there is
/// none.
pub open spec fn is_choice(members: Map<Seq<char>, MemberModel>, waiters: Seq<WaiterModel>, p: Seq<char>) -> bool {
    if waiters.len() > 0 && members.contains_key(waiters[0].member_id) {
        let list = members[waiters[0].member_id].protocols;
        ||| exists|n: int|
            0 <= n < list.len() && (#[trigger] list[n]).name == p && everyone_supports(members, waiters, p) && forall|m: int|
                0 <= m < n ==> !everyone_supports(members, waiters, (#[trigger] list[m]).name)
        ||| p.len() == 0 && forall|m: int| 0 <= m < list.len() ==> !everyone_supports(members, waiters, (#[trigger] list[m]).name)
    } else {
        p.len() == 0
    }
}

/// Whether an entry of the roster is that of a member that waits: with what it
/// gave along for the protocol, at the first place where it lists it.
pub open spec fn is_entry(members: Map<Seq<char>, MemberModel>, w: WaiterModel, p: Seq<char>, e: JoinedModel) -> bool {
    &&& e.member_id == w.member_id
    &&& members.contains_key(w.member_id) ==> e.instance == members[w.member_id].instance
    &&& forall|n: int|
        supports(members, w.member_id, p) && 0 <= n < members[w.member_id].protocols.len() && (#[trigger] members[w.member_id].protocols[n]).name == p && (
        forall|m: int| 0 <= m < n ==> (#[trigger] members[w.member_id].protocols[m]).name != p) ==> e.metadata == members[w.member_id].protocols[n].metadata
    &&& !supports(members, w.member_id, p) ==> e.metadata.len() == 0
}

/// Whether `a` welcomes the member that waits at place `i` to a generation.
/// The one that came first leads, and it alone gets the roster.
pub open spec fn welcomes(
    a: Act,
    members: Map<Seq<char>, MemberModel>,
    waiters: Seq<WaiterModel>,
    protocol_type: Seq<char>,
    generation: int,
    i: int,
) -> bool {
    a matches Act::JoinReply { ticket, outcome } && ticket == waiters[i].ticket && outcome.error_code == 0 && outcome.generation_id == generation
        && outcome.leader == waiters[0].member_id && outcome.member_id == waiters[i].member_id && outcome.protocol_type == protocol_type && is_choice(
        members,
        waiters,
        outcome.protocol_name,
    ) && (waiters[i].member_id == waiters[0].member_id ==> outcome.members.len() == waiters.len() && forall|j: int|
        0 <= j < waiters.len() ==> is_entry(members, waiters[j], outcome.protocol_name, #[trigger] outcome.members[j])) && (waiters[i].member_id
        != waiters[0].member_id ==> outcome.members.len() == 0)
}

proof fn lemma_choice(members: Map<Seq<char>, MemberModel>, waiters: Seq<WaiterModel>, list: Seq<group::ProtocolModel>, i: int)
    requires
        waiters.len() > 0,
        members.contains_key(waiters[0].member_id),
        list == members[waiters[0].member_id].protocols,
        0 <= i <= list.len(),
        forall|m: int| 0 <= m < i ==> !everyone_supports(members, waiters, (#[trigger] list[m]).name),
    ensures
        is_choice(
            members,
            waiters,
            match group::shared_protocol(members, waiters, list, i) {
                Some(p) => p,
                None => Seq::empty(),
            },
        ),
    decreases list.len() - i,
{
    if i < list.len() {
        let p = list[i].name;
        assert(supports(members, waiters[0].member_id, p)) by {
            assert(members[waiters[0].member_id].protocols[i].name == p);
        }
        assert(everyone_supports(members, waiters, p) <==> group::all_list(members, waiters, p)) by {
            if group::all_list(members, waiters, p) {
                assert forall|n: int| 0 <= n < waiters.len() implies supports(members, (#[trigger] waiters[n]).member_id, p) by {
                    if n > 0 {
                        assert(group::lists_protocol(members[waiters[n].member_id], p));
                    }
                }
            }
            if everyone_supports(members, waiters, p) {
                assert forall|n: int| 1 <= n < waiters.len() implies members.contains_key((#[trigger] waiters[n]).member_id) && group::lists_protocol(
                    members[waiters[n].member_id],
                    p,
                ) by {
                    assert(supports(members, waiters[n].member_id, p));
                }
            }
        }
        if group::all_list(members, waiters, p) {
            assert(list[i].name == p);
        } else {
            lemma_choice(members, waiters, list, i + 1);
        }
    }
}

proof fn lemma_metadata(list: Seq<group::ProtocolModel>, p: Seq<char>, i: int, n: int)
    requires
        0 <= i <= list.len(),
    ensures
        i <= n < list.len() && list[n].name == p && (forall|m: int| i <= m < n ==> (#[trigger] list[m]).name != p) ==> group::metadata_for(list, p, i)
            == list[n].metadata,
        (forall|m: int| i <= m < list.len() ==> (#[trigger] list[m]).name != p) ==> group::metadata_for(list, p, i).len() == 0,
    decreases list.len() - i,
{
    if i < list.len() {
        lemma_metadata(list, p, i + 1, n);
        if list[i].name == p && i < n {
            assert(!(forall|m: int| i <= m < n ==> (#[trigger] list[m]).name != p));
        }
    }
}

/// When a rebalance completes the timer stops and every request that waited is
/// answered, in the order in which they came: the one that came first leads,
/// and the protocol is the first of its own that all support. The members stay
/// as they were, without an assignment, and a new round awaits its leader.
pub proof fn law_completion_welcomes_everyone(g: GroupModel, i: int)
    requires
        g.generation < i32::MAX,
    ensures
        ({
            let (h, acts) = group::completed(g);
            &&& acts.len() == g.waiters.len() + 1
            &&& acts[0] == Act::DisarmRebalance
            &&& 0 <= i < g.waiters.len() ==> welcomes(acts[1 + i], g.members, g.waiters, g.protocol_type, g.generation + 1, i)
            &&& is_choice(g.members, g.waiters, h.protocol_name)
            &&& h.generation == g.generation + 1
            &&& h.state == GroupState::CompletingRebalance
            &&& h.waiters.len() == 0
            &&& g.waiters.len() > 0 ==> h.leader == g.waiters[0].member_id
            &&& h.round matches Some(r) && !r.delivered && r.parked.len() == 0 && r.assignments == Map::<Seq<char>, Seq<u8>>::empty()
            &&& !h.initial && h.deadline is None
            &&& h.id == g.id && h.protocol_type == g.protocol_type
            &&& h.members.dom() == g.members.dom()
            &&& forall|k: Seq<char>| #[trigger] g.members.contains_key(k) ==> h.members[k] == (MemberModel { assignment: Seq::empty(), ..g.members[k] })
        }),
{
    let (h, acts) = group::completed(g);
    let p = h.protocol_name;
    assert(h.members.dom() =~= g.members.dom());
    if g.waiters.len() > 0 && g.members.contains_key(g.waiters[0].member_id) {
        lemma_choice(g.members, g.waiters, g.members[g.waiters[0].member_id].protocols, 0);
    }
    if 0 <= i < g.waiters.len() {
        assert(acts[1 + i] == group::join_reply(g, i));
        let outcome = acts[1 + i]->JoinReply_outcome;
        if g.waiters[i].member_id == g.waiters[0].member_id {
            assert forall|j: int| 0 <= j < g.waiters.len() implies is_entry(g.members, g.waiters[j], p, #[trigger] outcome.members[j]) by {
                let w = g.waiters[j];
                let e = outcome.members[j];
                assert(e == group::joined_entry(g.members, w, p));
                if g.members.contains_key(w.member_id) {
                    let list = g.members[w.member_id].protocols;
                    assert forall|n: int|
                        supports(g.members, w.member_id, p) && 0 <= n < list.len() && (#[trigger] list[n]).name == p && (forall|m: int|
                            0 <= m < n ==> (#[trigger] list[m]).name != p) implies e.metadata == list[n].metadata by {
                        lemma_metadata(list, p, 0, n);
                    }
                    if !supports(g.members, w.member_id, p) {
                        assert forall|m: int| 0 <= m < list.len() implies (#[trigger] list[m]).name != p by {
                            if list[m].name == p {
                                assert(g.members[w.member_id].protocols[m].name == p);
                            }
                        }
                        lemma_metadata(list, p, 0, 0);
                    }
                }
            }
        }
    }
}

/// When the timer of a rebalance fires, everybody whose request waits is
/// welcomed to the next generation. A timer that fires at another time, or
/// while nobody waits, does nothing.
pub proof fn law_timer_welcomes_who_waits(g: GroupModel, i: int)
    requires
        g.members.dom().finite(),
        g.generation < i32::MAX,
    ensures
        ({
            let (h, acts) = group::timer_next(g);
            let n = acts.len() - g.waiters.len();
            &&& g.state != GroupState::PreparingRebalance || g.waiters.len() == 0 ==> h == g && acts.len() == 0
            &&& g.state == GroupState::PreparingRebalance && g.waiters.len() > 0 ==> {
                &&& h.state == GroupState::CompletingRebalance && h.generation == g.generation + 1 && h.leader == g.waiters[0].member_id && h.waiters.len()
                    == 0
                &&& n >= 1 && acts[n - 1] == Act::DisarmRebalance
                &&& 0 <= i < g.waiters.len() ==> welcomes(acts[n + i], group::evicted(g).0.members, g.waiters, g.protocol_type, g.generation + 1, i)
                &&& forall|k: Seq<char>| #[trigger] h.members.contains_key(k) <==> group::evicted(g).0.members.contains_key(k)
                &&& forall|m: int| 0 <= m < n - 1 ==> #[trigger] acts[m] is DisarmSession
            }
        }),
{
    if g.state == GroupState::PreparingRebalance && g.waiters.len() > 0 {
        let (e, first) = group::evicted(g);
        let ids = order::in_order(group::stale_members(g));
        let stale = group::stale_members(g);
        assert(stale.subset_of(g.members.dom()));
        vstd::set_lib::lemma_set_subset_finite(g.members.dom(), stale);
        stale.lemma_to_seq_to_set_id();
        order::lemma_in_order_exists(stale.to_seq());
        assert forall|j: int| 0 <= j < ids.len() implies group::first_waiter(g.waiters, #[trigger] ids[j]) is None by {
            assert(ids.to_set().contains(ids[j]));
        }
        lemma_nobody_waited(g, ids);
        group::lemma_without_members(g, ids);
        law_completion_welcomes_everyone(e, i);
        let (h, more) = group::completed(e);
        let acts = first + more;
        let n = acts.len() - g.waiters.len();
        assert(e.waiters == g.waiters);
        assert(acts[n - 1] == more[0]);
        if 0 <= i < g.waiters.len() {
            assert(acts[n + i] == more[1 + i]);
        }
        assert forall|m: int| 0 <= m < n - 1 implies #[trigger] acts[m] is DisarmSession by {
            assert(acts[m] == first[m]);
        }
    }
}

proof fn lemma_nobody_waited(g: GroupModel, ids: Seq<Seq<char>>)
    requires
        forall|j: int| 0 <= j < ids.len() ==> group::first_waiter(g.waiters, #[trigger] ids[j]) is None,
    ensures
        group::without_members(g, ids).0.waiters == g.waiters,
        forall|j: int| 0 <= j < group::without_members(g, ids).1.len() ==> #[trigger] group::without_members(g, ids).1[j] is DisarmSession,
    decreases ids.len(),
{
    if ids.len() > 0 {
        let d = ids.drop_last();
        assert forall|j: int| 0 <= j < d.len() implies group::first_waiter(g.waiters, #[trigger] d[j]) is None by {
            assert(d[j] == ids[j]);
        }
        lemma_nobody_waited(g, d);
        let (h, acts) = group::without_members(g, d);
        assert(group::first_waiter(g.waiters, ids[ids.len() - 1]) is None);
        let more = group::without_member(h, ids.last()).1;
        let all = group::without_members(g, ids).1;
        assert(all == acts + more);
        assert forall|j: int| 0 <= j < all.len() implies #[trigger] all[j] is DisarmSession by {
            if j < acts.len() {
                assert(all[j] == acts[j]);
            } else {
                assert(all[j] == more[j - acts.len()]);
            }
        }
    }
}

// Heartbeats and departures.

/// The answer to a heartbeat: code 25 to a stranger and in a group that rests
/// or was given up, code 22 to another generation, code 27 during a rebalance,
/// and none else. A member that is in the present generation has its session
/// prolonged by its timeout.
pub proof fn law_heartbeat(g: GroupModel, id: Seq<char>, generation: i32)
    ensures
        ({
            let code = group::heartbeat_code(g, id, generation);
            let acts = group::heartbeat_acts(g, id, generation);
            let inside = g.members.contains_key(id) && g.state != GroupState::Empty && g.state != GroupState::Dead;
            &&& !inside ==> code == 25 && acts.len() == 0
            &&& inside && generation != g.generation ==> code == 22 && acts.len() == 0
            &&& inside && generation == g.generation ==> {
                &&& g.state == GroupState::Stable ==> code == 0
                &&& g.state != GroupState::Stable ==> code == 27
                &&& acts.len() == 1
                &&& acts[0] matches Act::ArmSession { member_id, after_ms } && member_id == id && after_ms == (if g.members[id].session_timeout > 0 {
                    g.members[id].session_timeout as int
                } else {
                    30000
                })
            }
        }),
{
}

/// Members that leave are gone afterwards, and nobody else is; each that is
/// named is told whether it was a member until then, with code 25 where not.
pub proof fn law_leaving_members_are_gone(g: GroupModel, ids: Seq<Seq<char>>, k: Seq<char>, i: int)
    ensures
        ({
            let (h, acts, codes) = group::leave_next(g, ids);
            &&& codes.len() == ids.len()
            &&& 0 <= i < ids.len() ==> codes[i] == (if g.members.contains_key(ids[i]) && (forall|j: int| 0 <= j < i ==> #[trigger] ids[j] != ids[i]) {
                0int
            } else {
                25
            })
            &&& h.members.contains_key(k) <==> g.members.contains_key(k) && (forall|j: int| 0 <= j < ids.len() ==> #[trigger] ids[j] != k)
            &&& h.members.contains_key(k) ==> h.members[k] == g.members[k]
            &&& h.generation == g.generation && h.leader == g.leader && h.protocol_name == g.protocol_name && h.protocol_type == g.protocol_type && h.round
                == g.round && h.id == g.id
        }),
{
    lemma_departed_members(g, ids, k);
    lemma_departed_codes(g, ids, i);
}

proof fn lemma_departed_members(g: GroupModel, ids: Seq<Seq<char>>, k: Seq<char>)
    ensures
        ({
            let h = group::departed(g, ids).0;
            &&& h.members.contains_key(k) <==> g.members.contains_key(k) && (forall|j: int| 0 <= j < ids.len() ==> #[trigger] ids[j] != k)
            &&& h.members.contains_key(k) ==> h.members[k] == g.members[k]
            &&& h == (GroupModel { members: h.members, waiters: h.waiters, ..g })
        }),
    decreases ids.len(),
{
    if ids.len() > 0 {
        let d = ids.drop_last();
        lemma_departed_members(g, d, k);
        if forall|j: int| 0 <= j < d.len() ==> #[trigger] d[j] != k {
            if ids.last() != k {
                assert forall|j: int| 0 <= j < ids.len() implies #[trigger] ids[j] != k by {
                    if j < d.len() {
                        assert(d[j] != k);
                    }
                }
            } else {
                assert(ids[ids.len() - 1] == k);
            }
        } else {
            let j = choose|j: int| 0 <= j < d.len() && #[trigger] d[j] == k;
            assert(ids[j] == k);
        }
    }
}

proof fn lemma_departed_codes(g: GroupModel, ids: Seq<Seq<char>>, i: int)
    ensures
        group::departed(g, ids).2.len() == ids.len(),
        0 <= i < ids.len() ==> group::departed(g, ids).2[i] == (if g.members.contains_key(ids[i]) && (forall|j: int|
            0 <= j < i ==> #[trigger] ids[j] != ids[i]) {
            0int
        } else {
            25
        }),
    decreases ids.len(),
{
    if ids.len() > 0 {
        let d = ids.drop_last();
        lemma_departed_codes(g, d, i);
        if 0 <= i < d.len() {
            assert(d[i] == ids[i]);
            assert((forall|j: int| 0 <= j < i ==> #[trigger] d[j] != d[i]) <==> (forall|j: int| 0 <= j < i ==> #[trigger] ids[j] != ids[i])) by {
                assert(forall|j: int| 0 <= j < i ==> #[trigger] d[j] == ids[j]);
                assert(forall|j: int| 0 <= j < i ==> #[trigger] ids[j] == d[j]);
            }
        } else if i == d.len() {
            lemma_departed_members(g, d, ids[i]);
            assert((forall|j: int| 0 <= j < d.len() ==> #[trigger] d[j] != ids[i]) <==> (forall|j: int| 0 <= j < i ==> #[trigger] ids[j] != ids[i])) by {
                assert(forall|j: int| 0 <= j < i ==> #[trigger] d[j] == ids[j]);
                assert(forall|j: int| 0 <= j < i ==> #[trigger] ids[j] == d[j]);
            }
        }
    }
}

/// What becomes of a group that members left, or whose sessions ran out: it
/// rests once nobody is left, and its timer stops; else a group that was stable
/// begins a rebalance, with a timer for the greatest timeout, and any other
/// goes on.
pub proof fn law_state_after_departures(g: GroupModel, ids: Seq<Seq<char>>, id: Seq<char>)
    requires
        g.members.dom().finite(),
    ensures
        settles(g, group::leave_next(g, ids).0, group::leave_next(g, ids).1),
        g.members.contains_key(id) ==> settles(g, group::expired_next(g, id).0, group::expired_next(g, id).1),
        !g.members.contains_key(id) ==> group::expired_next(g, id).0 == g && group::expired_next(g, id).1.len() == 0,
{
    let h = group::departed(g, ids).0;
    group_laws::lemma_departed(g, ids);
    vstd::set_lib::lemma_set_subset_finite(g.members.dom(), h.members.dom());
    lemma_settles(g, h, group::departed(g, ids).1);
    if g.members.contains_key(id) {
        let (x, acts) = group::without_member(g, id);
        assert(x.members.dom() =~= g.members.dom().remove(id));
        lemma_settles(g, x, acts);
    }
}

/// Whether a group that was `g` has become `h` with `acts` as departures ask.
pub open spec fn settles(g: GroupModel, h: GroupModel, acts: Seq<Act>) -> bool {
    let none_left = forall|k: Seq<char>| !h.members.contains_key(k);
    &&& none_left ==> h.state == GroupState::Empty && acts.len() > 0 && acts.last() == Act::DisarmRebalance
    &&& !none_left && g.state == GroupState::Stable ==> h.state == GroupState::PreparingRebalance && acts.len() > 0 && (acts.last() matches Act::ArmRebalance {
        after_ms,
    } && after_ms == group::max_timeout(h.members) as u64)
    &&& !none_left && g.state != GroupState::Stable ==> h.state == g.state
}

proof fn lemma_settles(g: GroupModel, h: GroupModel, acts: Seq<Act>)
    requires
        h.members.dom().finite(),
        h.state == g.state,
    ensures
        settles(g, group::after_departure(h).0, acts + group::after_departure(h).1),
{
    let after = group::after_departure(h).0;
    assert(after.members == h.members);
    if h.members.dom().len() == 0 {
        h.members.dom().lemma_len0_is_empty();
        assert forall|k: Seq<char>| !after.members.contains_key(k) by {
            assert(!h.members.dom().contains(k));
        }
    } else {
        if forall|k: Seq<char>| !after.members.contains_key(k) {
            assert(h.members.dom() =~= Set::empty()) by {
                assert forall|k: Seq<char>| !h.members.dom().contains(k) by {
                    assert(!after.members.contains_key(k));
                }
            }
        }
    }
    let more = group::after_departure(h).1;
    if more.len() > 0 {
        assert((acts + more).last() == more.last());
    }
}

/// A member whose session runs out is gone, with its first waiting request,
/// and its session timer stops; the others stay, and so does what else waits.
pub proof fn law_expired_member_is_gone(g: GroupModel, id: Seq<char>, k: Seq<char>)
    requires
        g.members.contains_key(id),
    ensures
        ({
            let (h, acts) = group::expired_next(g, id);
            &&& !h.members.contains_key(id)
            &&& k != id ==> h.members.contains_key(k) == g.members.contains_key(k)
            &&& k != id && g.members.contains_key(k) ==> h.members[k] == g.members[k]
            &&& acts.len() >= 1 && acts[0] == (Act::DisarmSession { member_id: id })
            &&& (forall|i: int| 0 <= i < g.waiters.len() ==> (#[trigger] g.waiters[i]).member_id != id) ==> h.waiters == g.waiters
            &&& h.generation == g.generation && h.leader == g.leader && h.round == g.round
        }),
{
    group_laws::lemma_first_waiter(g.waiters, id);
    let (h, acts) = group::without_member(g, id);
    let more = group::after_departure(h).1;
    assert((acts + more)[0] == acts[0]);
}

/// A group begins at rest: with no members, no generation and nothing that
/// waits.
pub proof fn law_new_group_rests(id: Seq<char>, k: Seq<char>)
    ensures
        ({
            let g = group::new_group(id);
            &&& g.id == id && g.state == GroupState::Empty && g.generation == 0
            &&& !g.members.contains_key(k) && g.waiters.len() == 0 && g.round is None
            &&& g.initial && g.deadline is None
            &&& g.leader.len() == 0 && g.protocol_name.len() == 0 && g.protocol_type.len() == 0
        }),
{
}

/// New member ids begin with the client id and a dash, have sixteen
/// hexadecimal digits behind them, and tell sequence numbers apart.
pub proof fn law_new_ids_are_apart(client: Seq<char>, m: u64, n: u64, i: int)
    ensures
        ({
            let a = group::fresh_member_id(client, m);
            &&& a.len() == client.len() + 17
            &&& a.take(client.len() as int) == client
            &&& a[client.len() as int] == '-'
            &&& client.len() < i < a.len() ==> '0' <= a[i] <= '9' || 'a' <= a[i] <= 'f'
            &&& a == group::fresh_member_id(client, n) ==> m == n
        }),
{
    let a = group::fresh_member_id(client, m);
    let b = group::fresh_member_id(client, n);
    lemma_le_hex(m as nat, 8, i - client.len() - 1);
    lemma_le_hex(n as nat, 8, 0);
    assert(a.take(client.len() as int) =~= client);
    if a == b {
        let x = group::le_hex(m as nat, 8);
        let y = group::le_hex(n as nat, 8);
        assert(x =~= a.skip(client.len() as int + 1));
        assert(y =~= b.skip(client.len() as int + 1));
        assert(pow256(8) == 0x1_0000_0000_0000_0000) by {
            reveal_with_fuel(pow256, 9);
            assert(256 * 256 * 256 * 256 * 256 * 256 * 256 * 256int == 0x1_0000_0000_0000_0000int);
        }
        lemma_le_hex_apart(m as nat, n as nat, 8);
    }
}

spec fn pow256(k: nat) -> nat
    decreases k,
{
    if k == 0 {
        1
    } else {
        256 * pow256((k - 1) as nat)
    }
}

proof fn lemma_le_hex(n: nat, count: nat, i: int)
    ensures
        group::le_hex(n, count).len() == 2 * count,
        0 <= i < 2 * count ==> '0' <= group::le_hex(n, count)[i] <= '9' || 'a' <= group::le_hex(n, count)[i] <= 'f',
    decreases count,
{
    if count > 0 {
        lemma_le_hex(n / 256, (count - 1) as nat, i - 2);
        let head = seq![group::hex_char((n / 16 % 16) as int), group::hex_char((n % 16) as int)];
        let s = group::le_hex(n, count);
        assert(s == head + group::le_hex(n / 256, (count - 1) as nat));
        if 2 <= i < 2 * count {
            assert(s[i] == group::le_hex(n / 256, (count - 1) as nat)[i - 2]);
        }
    }
}

proof fn lemma_le_hex_apart(m: nat, n: nat, count: nat)
    requires
        group::le_hex(m, count) == group::le_hex(n, count),
        m < pow256(count),
        n < pow256(count),
    ensures
        m == n,
    decreases count,
{
    if count > 0 {
        let x = group::le_hex(m, count);
        let y = group::le_hex(n, count);
        let c = (count - 1) as nat;
        lemma_le_hex(m / 256, c, 0);
        lemma_le_hex(n / 256, c, 0);
        assert(x.skip(2) =~= group::le_hex(m / 256, c));
        assert(y.skip(2) =~= group::le_hex(n / 256, c));
        assert(x[0] == group::hex_char((m / 16 % 16) as int) && x[1] == group::hex_char((m % 16) as int));
        assert(y[0] == group::hex_char((n / 16 % 16) as int) && y[1] == group::hex_char((n % 16) as int));
        assert(m / 16 % 16 == n / 16 % 16);
        assert(m % 16 == n % 16);
        assert(m % 256 == n % 256);
        assert(pow256(count) == 256 * pow256(c));
        lemma_le_hex_apart(m / 256, n / 256, c);
    }
}

/// When a group is given up, those that wait for its round are told with code
/// 27, and everybody that waits to join is refused with code 25.
pub proof fn law_shutdown_tells_everyone(g: GroupModel, j: int, a: Act)
    ensures
        ({
            let (h, acts) = group::shutdown_next(g);
            &&& g.round matches Some(r) ==> (!r.delivered && 0 <= j < r.parked.len() ==> acts.len() >= r.parked.len() && refuses_sync(
                acts[acts.len() - r.parked.len() + j],
                r.parked[j].ticket,
                27,
            ))
            &&& acts.contains(a) && a is JoinReply ==> a->JoinReply_outcome.error_code == 25 && a->JoinReply_outcome.members.len() == 0
        }),
{
    let ids = order::in_order(g.members.dom());
    let (x, first) = group::without_members(g, ids);
    let (h, acts) = group::shutdown_next(g);
    let told = (first + group::refusals(x.waiters)).push(Act::DisarmRebalance);
    let tail = group::cancel_replies(g.round);
    assert(acts == told + tail);
    if let Some(r) = g.round {
        if !r.delivered && 0 <= j < r.parked.len() {
            assert(acts[acts.len() - r.parked.len() + j] == tail[j]);
        }
    }
    if acts.contains(a) && a is JoinReply {
        let n = choose|n: int| 0 <= n < acts.len() && acts[n] == a;
        if n < first.len() {
            assert(first[n] == a);
            lemma_refused_members(g, ids, n);
        } else if n < told.len() {
            assert(told[n] == a);
        } else {
            assert(tail[n - told.len()] == a);
        }
    }
}

proof fn lemma_refused_members(g: GroupModel, ids: Seq<Seq<char>>, n: int)
    requires
        0 <= n < group::without_members(g, ids).1.len(),
    ensures
        group::without_members(g, ids).1[n] is JoinReply ==> group::without_members(g, ids).1[n]->JoinReply_outcome.error_code == 25
            && group::without_members(g, ids).1[n]->JoinReply_outcome.members.len() == 0,
    decreases ids.len(),
{
    if ids.len() > 0 {
        let d = ids.drop_last();
        let (h, acts) = group::without_members(g, d);
        let more = group::without_member(h, ids.last()).1;
        if n < acts.len() {
            lemma_refused_members(g, d, n);
            assert((acts + more)[n] == acts[n]);
        } else {
            assert((acts + more)[n] == more[n - acts.len()]);
        }
    }
}

/// The request of a member that waits first is found, where there is one.
pub proof fn law_first_request_is_found(waiters: Seq<WaiterModel>, id: Seq<char>, j: int)
    ensures
        match group::first_waiter(waiters, id) {
            Some(i) => 0 <= i < waiters.len() && waiters[i].member_id == id && (0 <= j < i ==> waiters[j].member_id != id),
            None => 0 <= j < waiters.len() ==> waiters[j].member_id != id,
        },
    decreases waiters.len(),
{
    if waiters.len() > 0 {
        let d = waiters.drop_last();
        law_first_request_is_found(d, id, j);
        assert(0 <= j < d.len() ==> d[j] == waiters[j]);
        group_laws::lemma_first_waiter(d, id);
    }
}

/// A description shows the group as it is: its id, its state by name, its
/// protocol and generation, and each member once, with its client, its static
/// identity and its assignment.
pub proof fn law_description_is_of_the_group(s: group::GroupSnapshot, g: GroupModel, k: Seq<char>, i: int)
    requires
        group::shows(s, g),
        g.members.dom().finite(),
    ensures
        s.id@ == g.id,
        s.protocol_type@ == g.protocol_type,
        s.protocol_name@ == g.protocol_name,
        s.generation_id == g.generation,
        s.state@ == (match g.state {
            GroupState::Empty => "Empty"@,
            GroupState::PreparingRebalance => "PreparingRebalance"@,
            GroupState::CompletingRebalance => "CompletingRebalance"@,
            GroupState::Stable => "Stable"@,
            GroupState::Dead => "Dead"@,
        }),
        s.members@.len() == g.members.dom().len(),
        g.members.contains_key(k) ==> exists|n: int| 0 <= n < s.members@.len() && is_shown(#[trigger] s.members@[n], g.members[k]),
        0 <= i < s.members@.len() ==> exists|m: Seq<char>| #[trigger] g.members.contains_key(m) && is_shown(s.members@[i], g.members[m]),
{
    let ids = order::in_order(g.members.dom());
    g.members.dom().lemma_to_seq_to_set_id();
    order::lemma_in_order_exists(g.members.dom().to_seq());
    order::lemma_increasing_distinct(ids);
    ids.unique_seq_to_set();
    let rows = s.members@.map_values(|m: group::MemberSnapshot| m@);
    assert(rows.len() == ids.len());
    if g.members.contains_key(k) {
        assert(ids.to_set().contains(k));
        let n = choose|n: int| 0 <= n < ids.len() && ids[n] == k;
        assert(rows[n] == s.members@[n]@);
        assert(is_shown(s.members@[n], g.members[k]));
    }
    if 0 <= i < s.members@.len() {
        assert(ids.to_set().contains(ids[i]));
        assert(rows[i] == s.members@[i]@);
        assert(g.members.contains_key(ids[i]) && is_shown(s.members@[i], g.members[ids[i]]));
    }
}

pub open spec fn is_shown(s: group::MemberSnapshot, m: MemberModel) -> bool {
    s.member_id@ == m.id && s.client_id@ == m.client_id && crate::text::opt_text(s.group_instance_id) == m.instance && s.assignment@ == m.assignment
}

} // verus!
