//! What holds of a consumer group over every event.

use vstd::prelude::*;
use vstd::multiset::Multiset;
use crate::group;
use crate::group::{
    Act, GroupModel, GroupSnapshot, GroupState, JoinRequestModel, MemberModel, MemberSnapshot, ParkedModel, RoundModel, SyncRequestModel, WaiterModel,
};
use crate::order;

verus! {

/// An event: a request or a timer.
pub enum Event {
    Join { join: JoinRequestModel, ticket: u64, fresh: u64, now_ms: u64 },
    Sync { req: SyncRequestModel, ticket: u64 },
    Leave { ids: Seq<Seq<char>> },
    SessionExpired { id: Seq<char> },
    RebalanceTimer,
    Shutdown,
}

/// The group after an event, and what is to be done. A heartbeat leaves the
/// group as it is.
pub open spec fn next(g: GroupModel, e: Event) -> (GroupModel, Seq<Act>) {
    match e {
        Event::Join { join: req, ticket, fresh, now_ms } => group::join_next(g, req, ticket, fresh, now_ms),
        Event::Sync { req, ticket } => group::sync_next(g, req, ticket),
        Event::Leave { ids } => {
            let (h, acts, codes) = group::leave_next(g, ids);
            (h, acts)
        },
        Event::SessionExpired { id } => group::expired_next(g, id),
        Event::RebalanceTimer => group::timer_next(g),
        Event::Shutdown => group::shutdown_next(g),
    }
}

pub proof fn lemma_departed(g: GroupModel, ids: Seq<Seq<char>>)
    ensures
        ({
            let (h, acts, codes) = group::departed(g, ids);
            &&& h == (GroupModel { members: h.members, waiters: h.waiters, ..g })
            &&& h.members.dom().subset_of(g.members.dom())
            &&& codes.len() == ids.len()
        }),
    decreases ids.len(),
{
    if ids.len() > 0 {
        lemma_departed(g, ids.drop_last());
    }
}

/// A group that rests has no members.
pub open spec fn rests_empty(g: GroupModel) -> bool {
    g.state == GroupState::Empty ==> g.members.dom() == Set::<Seq<char>>::empty()
}

proof fn lemma_finite_members(g: GroupModel, e: Event)
    requires
        g.members.dom().finite(),
    ensures
        next(g, e).0.members.dom().finite(),
{
    match e {
        Event::Join { join: req, ticket, fresh, now_ms } => {
            let id = group::joining_id(req, fresh);
            let members = group::with_member(g, req, id).members;
            assert(members.dom() =~= g.members.dom().insert(id));
            assert(group::assigned(members, Map::empty()).dom() =~= members.dom());
        },
        Event::Sync { req, ticket } => {
            let r = g.round->0;
            let all = group::filled(group::with_assignments(r.assignments, req.assignments), g.members.dom());
            assert(group::assigned(g.members, all).dom() =~= g.members.dom());
        },
        Event::Leave { ids } => {
            lemma_departed(g, ids);
            vstd::set_lib::lemma_set_subset_finite(g.members.dom(), group::departed(g, ids).0.members.dom());
        },
        Event::SessionExpired { id } => {
            assert(group::without_member(g, id).0.members.dom() =~= g.members.dom().remove(id));
        },
        Event::RebalanceTimer => {
            group::lemma_without_members(g, order::in_order(group::stale_members(g)));
            let h = group::without_members(g, order::in_order(group::stale_members(g))).0;
            vstd::set_lib::lemma_set_subset_finite(g.members.dom(), h.members.dom());
            assert(group::assigned(h.members, Map::empty()).dom() =~= h.members.dom());
            assert(group::assigned(g.members, Map::empty()).dom() =~= g.members.dom());
        },
        Event::Shutdown => {},
    }
}

/// Whatever happens to a group, it is in the state of an empty group only
/// while it has no members.
pub proof fn law_empty_state_means_no_members(g: GroupModel, e: Event)
    requires
        g.members.dom().finite(),
        rests_empty(g),
    ensures
        next(g, e).0.members.dom().finite(),
        rests_empty(next(g, e).0),
{
    lemma_finite_members(g, e);
    match e {
        Event::Leave { ids } => {
            lemma_departed(g, ids);
            let h = group::departed(g, ids).0;
            vstd::set_lib::lemma_set_subset_finite(g.members.dom(), h.members.dom());
            if h.members.dom().len() == 0 {
                h.members.dom().lemma_len0_is_empty();
            } else if h.state == GroupState::Empty {
                assert(h.members.dom() =~= Set::empty());
            }
        },
        Event::SessionExpired { id } => {
            let h = group::without_member(g, id).0;
            assert(h.members.dom() =~= g.members.dom().remove(id));
            if h.members.dom().len() == 0 {
                h.members.dom().lemma_len0_is_empty();
            }
        },
        _ => {},
    }
}

/// Whether a rebalance completes with an event.
pub open spec fn completes(g: GroupModel, e: Event) -> bool {
    match e {
        Event::Join { join: req, ticket, fresh, now_ms } => group::join_completes(g, req, fresh),
        Event::RebalanceTimer => group::timer_completes(g),
        _ => false,
    }
}

/// The generation rises by one when a rebalance completes and stays as it is
/// otherwise.
pub proof fn law_generation_counts_rebalances(g: GroupModel, e: Event)
    requires
        completes(g, e) ==> g.generation < i32::MAX,
    ensures
        ({
            let h = next(g, e).0;
            &&& !completes(g, e) ==> h.generation == g.generation
            &&& completes(g, e) ==> h.generation == g.generation + 1 && h.state == GroupState::CompletingRebalance && h.waiters.len() == 0
                && h.round == Some(group::RoundModel { assignments: Map::empty(), delivered: false, parked: Seq::empty() })
        }),
{
    match e {
        Event::Leave { ids } => {
            lemma_departed(g, ids);
        },
        Event::RebalanceTimer => {
            group::lemma_without_members(g, order::in_order(group::stale_members(g)));
        },
        Event::Shutdown => {
            group::lemma_without_members(g, order::in_order(g.members.dom()));
        },
        _ => {},
    }
}

/// The tickets of the JoinGroup requests that wait.
pub open spec fn waiting(waiters: Seq<WaiterModel>) -> Multiset<u64> {
    waiters.map_values(|w: WaiterModel| w.ticket).to_multiset()
}

/// The tickets of the JoinGroup requests that are answered.
pub open spec fn answered(acts: Seq<Act>) -> Multiset<u64>
    decreases acts.len(),
{
    if acts.len() == 0 {
        Multiset::empty()
    } else {
        match acts.last() {
            Act::JoinReply { ticket, outcome } => answered(acts.drop_last()).insert(ticket),
            _ => answered(acts.drop_last()),
        }
    }
}

/// The ticket that an event brings in.
pub open spec fn arriving(e: Event) -> Multiset<u64> {
    match e {
        Event::Join { join: req, ticket, fresh, now_ms } => Multiset::singleton(ticket),
        _ => Multiset::empty(),
    }
}

proof fn lemma_answered_add(a: Seq<Act>, b: Seq<Act>)
    ensures
        answered(a + b) == answered(a).add(answered(b)),
    decreases b.len(),
{
    if b.len() == 0 {
        assert(a + b =~= a);
        assert(answered(a) =~= answered(a).add(answered(b)));
    } else {
        lemma_answered_add(a, b.drop_last());
        assert((a + b).drop_last() =~= a + b.drop_last());
        assert((a + b).last() == b.last());
        match b.last() {
            Act::JoinReply { ticket, outcome } => {
                assert(answered(a).add(answered(b.drop_last())).insert(ticket) =~= answered(a).add(answered(b.drop_last()).insert(ticket)));
            },
            _ => {},
        }
    }
}

proof fn lemma_answered_push(a: Seq<Act>, x: Act)
    ensures
        x matches Act::JoinReply { ticket, outcome } ==> answered(a.push(x)) == answered(a).insert(ticket),
        !(x is JoinReply) ==> answered(a.push(x)) == answered(a),
{
    assert(a.push(x).drop_last() =~= a);
}

pub proof fn lemma_first_waiter(waiters: Seq<WaiterModel>, id: Seq<char>)
    ensures
        match group::first_waiter(waiters, id) {
            Some(i) => 0 <= i < waiters.len() && waiters[i].member_id == id,
            None => forall|i: int| 0 <= i < waiters.len() ==> (#[trigger] waiters[i]).member_id != id,
        },
    decreases waiters.len(),
{
    if waiters.len() > 0 {
        lemma_first_waiter(waiters.drop_last(), id);
        assert(forall|i: int| 0 <= i < waiters.len() - 1 ==> waiters.drop_last()[i] == waiters[i]);
    }
}

proof fn lemma_without_tickets(g: GroupModel, id: Seq<char>)
    ensures
        ({
            let (h, acts) = group::without_member(g, id);
            waiting(g.waiters) == waiting(h.waiters).add(answered(acts))
        }),
{
    let f = |w: WaiterModel| w.ticket;
    let (h, acts) = group::without_member(g, id);
    let stopped = if g.members.contains_key(id) {
        seq![Act::DisarmSession { member_id: id }]
    } else {
        Seq::empty()
    };
    assert(answered(stopped) =~= Multiset::empty()) by {
        reveal_with_fuel(answered, 2);
    }
    lemma_first_waiter(g.waiters, id);
    match group::first_waiter(g.waiters, id) {
        Some(i) => {
            lemma_answered_push(stopped, Act::JoinReply { ticket: g.waiters[i].ticket, outcome: group::join_refused(id) });
            let ts = g.waiters.map_values(f);
            assert(h.waiters.map_values(f) =~= ts.remove(i));
            vstd::seq_lib::to_multiset_remove(ts, i);
            ts.to_multiset_ensures();
            assert(ts.contains(ts[i]));
            assert(waiting(g.waiters) =~= waiting(h.waiters).add(answered(acts)));
        },
        None => {
            assert(waiting(g.waiters) =~= waiting(h.waiters).add(answered(acts)));
        },
    }
}

proof fn lemma_without_all_tickets(g: GroupModel, ids: Seq<Seq<char>>)
    ensures
        ({
            let (h, acts) = group::without_members(g, ids);
            waiting(g.waiters) == waiting(h.waiters).add(answered(acts))
        }),
    decreases ids.len(),
{
    if ids.len() == 0 {
        assert(waiting(g.waiters) =~= waiting(g.waiters).add(answered(Seq::empty())));
    } else {
        lemma_without_all_tickets(g, ids.drop_last());
        let (h, acts) = group::without_members(g, ids.drop_last());
        lemma_without_tickets(h, ids.last());
        let (h2, more) = group::without_member(h, ids.last());
        lemma_answered_add(acts, more);
        assert(waiting(h2.waiters).add(answered(more)).add(answered(acts)) =~= waiting(h2.waiters).add(answered(acts).add(answered(more))));
    }
}

proof fn lemma_departed_tickets(g: GroupModel, ids: Seq<Seq<char>>)
    ensures
        ({
            let (h, acts, codes) = group::departed(g, ids);
            waiting(g.waiters) == waiting(h.waiters).add(answered(acts))
        }),
    decreases ids.len(),
{
    if ids.len() == 0 {
        assert(waiting(g.waiters) =~= waiting(g.waiters).add(answered(Seq::empty())));
    } else {
        lemma_departed_tickets(g, ids.drop_last());
        let (h, acts, codes) = group::departed(g, ids.drop_last());
        if h.members.contains_key(ids.last()) {
            lemma_without_tickets(h, ids.last());
            let (h2, more) = group::without_member(h, ids.last());
            lemma_answered_add(acts, more);
            assert(waiting(h2.waiters).add(answered(more)).add(answered(acts)) =~= waiting(h2.waiters).add(answered(acts).add(answered(more))));
        }
    }
}

proof fn lemma_no_joins(acts: Seq<Act>)
    requires
        forall|i: int| 0 <= i < acts.len() ==> !(#[trigger] acts[i] is JoinReply),
    ensures
        answered(acts) == Multiset::<u64>::empty(),
    decreases acts.len(),
{
    if acts.len() > 0 {
        assert(!(acts[acts.len() - 1] is JoinReply));
        assert forall|i: int| 0 <= i < acts.drop_last().len() implies !(#[trigger] acts.drop_last()[i] is JoinReply) by {
            assert(acts.drop_last()[i] == acts[i]);
        }
        lemma_no_joins(acts.drop_last());
    }
}

proof fn lemma_replies(g: GroupModel, n: nat)
    requires
        n <= g.waiters.len(),
    ensures
        answered(Seq::new(n, |i: int| group::join_reply(g, i))) == waiting(g.waiters.take(n as int)),
    decreases n,
{
    let f = |w: WaiterModel| w.ticket;
    let s = Seq::new(n, |i: int| group::join_reply(g, i));
    if n > 0 {
        lemma_replies(g, (n - 1) as nat);
        assert(s.drop_last() =~= Seq::new((n - 1) as nat, |i: int| group::join_reply(g, i)));
        let ts = g.waiters.take(n - 1).map_values(f);
        assert(g.waiters.take(n as int).map_values(f) =~= ts.push(g.waiters[n - 1].ticket));
        vstd::seq_lib::to_multiset_build(ts, g.waiters[n - 1].ticket);
    } else {
        assert(g.waiters.take(0).map_values(f) =~= Seq::<u64>::empty());
        Seq::<u64>::empty().to_multiset_ensures();
        assert(waiting(g.waiters.take(0)) =~= Multiset::empty());
    }
}

proof fn lemma_completed_tickets(g: GroupModel)
    ensures
        waiting(g.waiters) == waiting(group::completed(g).0.waiters).add(answered(group::completed(g).1)),
{
    let f = |w: WaiterModel| w.ticket;
    let n = g.waiters.len();
    lemma_replies(g, n);
    assert(g.waiters.take(n as int) =~= g.waiters);
    lemma_answered_add(seq![Act::DisarmRebalance], Seq::new(n, |i: int| group::join_reply(g, i)));
    reveal_with_fuel(answered, 2);
    assert(Seq::<WaiterModel>::empty().map_values(f) =~= Seq::<u64>::empty());
    Seq::<u64>::empty().to_multiset_ensures();
    assert(waiting(g.waiters) =~= waiting(group::completed(g).0.waiters).add(answered(group::completed(g).1)));
}

proof fn lemma_parked_tickets(g: GroupModel, acts: Seq<Act>, id: Seq<char>, ticket: u64)
    requires
        answered(acts) == Multiset::<u64>::empty(),
    ensures
        ({
            let (h, all) = group::parked_join(g, acts, id, ticket);
            waiting(g.waiters).add(Multiset::singleton(ticket)) == waiting(h.waiters).add(answered(all))
        }),
{
    let f = |w: WaiterModel| w.ticket;
    let w = WaiterModel { member_id: id, ticket };
    let g2 = GroupModel { waiters: g.waiters.push(w), ..g };
    let ts = g.waiters.map_values(f);
    assert(g2.waiters.map_values(f) =~= ts.push(ticket));
    vstd::seq_lib::to_multiset_build(ts, ticket);
    assert(waiting(g2.waiters) =~= waiting(g.waiters).add(Multiset::singleton(ticket)));
    let (h, more) = group::completed_if_due(g2);
    lemma_answered_add(acts, more);
    if !g2.initial && g2.state == GroupState::PreparingRebalance && g2.waiters.len() >= g2.members.dom().len() {
        lemma_completed_tickets(g2);
    } else {
        assert(answered(Seq::<Act>::empty()) =~= Multiset::empty());
    }
    assert(answered(acts + more) =~= answered(more));
    assert(waiting(g2.waiters) =~= waiting(h.waiters).add(answered(more)));
}

proof fn lemma_refusals(waiters: Seq<WaiterModel>, n: nat)
    requires
        n <= waiters.len(),
    ensures
        answered(group::refusals(waiters.take(n as int))) == waiting(waiters.take(n as int)),
    decreases n,
{
    let f = |w: WaiterModel| w.ticket;
    let part = waiters.take(n as int);
    let acts = group::refusals(part);
    if n > 0 {
        lemma_refusals(waiters, (n - 1) as nat);
        assert(acts.drop_last() =~= group::refusals(waiters.take(n - 1)));
        let ts = waiters.take(n - 1).map_values(f);
        assert(part.map_values(f) =~= ts.push(waiters[n - 1].ticket));
        vstd::seq_lib::to_multiset_build(ts, waiters[n - 1].ticket);
    } else {
        assert(part =~= Seq::empty());
        assert(acts =~= Seq::empty());
        lemma_nobody_waits();
    }
}

proof fn lemma_nobody_waits()
    ensures
        waiting(Seq::empty()) == Multiset::<u64>::empty(),
{
    assert(Seq::<WaiterModel>::empty().map_values(|w: WaiterModel| w.ticket) =~= Seq::<u64>::empty());
    Seq::<u64>::empty().to_multiset_ensures();
    assert(waiting(Seq::empty()) =~= Multiset::empty());
}

/// No JoinGroup request gets lost or is answered twice: over every event, the
/// tickets that waited before, and the one that came in, are those that wait
/// after it and those that it answers.
pub proof fn law_join_requests_are_kept_or_answered(g: GroupModel, e: Event)
    ensures
        waiting(g.waiters).add(arriving(e)) == waiting(next(g, e).0.waiters).add(answered(next(g, e).1)),
{
    match e {
        Event::Join { join: req, ticket, fresh, now_ms } => {
            let id = group::joining_id(req, fresh);
            let g1 = group::with_member(g, req, id);
            let armed = seq![Act::ArmSession { member_id: id, after_ms: group::session_ms(req.session_timeout) }];
            lemma_no_joins(armed);
            match g.state {
                GroupState::Empty => {
                    let cap = group::max_timeout(g1.members);
                    let g2 = GroupModel {
                        state: GroupState::PreparingRebalance,
                        deadline: Some(if now_ms + cap <= u64::MAX { (now_ms + cap) as u64 } else { u64::MAX }),
                        ..g1
                    };
                    let acts = armed.push(Act::ArmRebalance { after_ms: group::rebalance_budget(g2, true, now_ms) });
                    lemma_no_joins(acts);
                    lemma_parked_tickets(g2, acts, id, ticket);
                },
                GroupState::Stable | GroupState::CompletingRebalance => {
                    let g2 = GroupModel { state: GroupState::PreparingRebalance, round: None, ..g1 };
                    let acts = armed.push(Act::ArmRebalance { after_ms: group::rebalance_budget(g2, false, now_ms) }) + group::cancel_replies(g1.round);
                    lemma_no_joins(acts);
                    lemma_parked_tickets(g2, acts, id, ticket);
                },
                GroupState::PreparingRebalance => {
                    let acts = armed.push(Act::ArmRebalance { after_ms: group::rebalance_budget(g1, true, now_ms) });
                    lemma_no_joins(acts);
                    lemma_parked_tickets(g1, acts, id, ticket);
                    lemma_parked_tickets(g1, armed, id, ticket);
                },
                GroupState::Dead => {
                    lemma_answered_push(armed, Act::JoinReply { ticket, outcome: group::join_refused(id) });
                    assert(waiting(g.waiters).add(arriving(e)) =~= waiting(next(g, e).0.waiters).add(answered(next(g, e).1)));
                },
            }
        },
        Event::Sync { req, ticket } => {
            lemma_no_joins(next(g, e).1);
            assert(waiting(g.waiters).add(arriving(e)) =~= waiting(next(g, e).0.waiters).add(answered(next(g, e).1)));
        },
        Event::Leave { ids } => {
            lemma_departed_tickets(g, ids);
            let (h, acts, codes) = group::departed(g, ids);
            let (h2, more) = group::after_departure(h);
            lemma_no_joins(more);
            lemma_answered_add(acts, more);
            assert(waiting(g.waiters).add(arriving(e)) =~= waiting(next(g, e).0.waiters).add(answered(next(g, e).1)));
        },
        Event::SessionExpired { id } => {
            lemma_without_tickets(g, id);
            let (h, acts) = group::without_member(g, id);
            let (h2, more) = group::after_departure(h);
            lemma_no_joins(more);
            lemma_no_joins(Seq::<Act>::empty());
            lemma_answered_add(acts, more);
            assert(waiting(g.waiters).add(arriving(e)) =~= waiting(next(g, e).0.waiters).add(answered(next(g, e).1)));
        },
        Event::RebalanceTimer => {
            lemma_without_all_tickets(g, order::in_order(group::stale_members(g)));
            lemma_no_joins(Seq::<Act>::empty());
            let (h, acts) = group::evicted(g);
            let (h2, more) = group::completed(h);
            lemma_completed_tickets(h);
            lemma_answered_add(acts, more);
            assert(waiting(g.waiters).add(arriving(e)) =~= waiting(next(g, e).0.waiters).add(answered(next(g, e).1)));
        },
        Event::Shutdown => {
            let ids = order::in_order(g.members.dom());
            lemma_without_all_tickets(g, ids);
            let (h, acts) = group::without_members(g, ids);
            let tail = group::cancel_replies(g.round);
            lemma_no_joins(tail);
            lemma_refusals(h.waiters, h.waiters.len());
            assert(h.waiters.take(h.waiters.len() as int) =~= h.waiters);
            let told = acts + group::refusals(h.waiters);
            lemma_answered_add(acts, group::refusals(h.waiters));
            lemma_answered_push(told, Act::DisarmRebalance);
            lemma_answered_add(told.push(Act::DisarmRebalance), tail);
            lemma_nobody_waits();
            assert(waiting(g.waiters).add(arriving(e)) =~= waiting(next(g, e).0.waiters).add(answered(next(g, e).1)));
        },
    }
}

/// The protocol of a generation is one that every waiting member supports.
pub proof fn law_protocol_is_shared(members: Map<Seq<char>, MemberModel>, waiters: Seq<WaiterModel>, i: int)
    requires
        0 <= i < waiters.len(),
    ensures
        group::chosen_protocol(members, waiters) matches Some(p) ==> members.contains_key(waiters[i].member_id) && group::lists_protocol(
            members[waiters[i].member_id],
            p,
        ),
{
    if members.contains_key(waiters[0].member_id) {
        lemma_shared(members, waiters, members[waiters[0].member_id], 0);
    }
}

proof fn lemma_shared(members: Map<Seq<char>, MemberModel>, waiters: Seq<WaiterModel>, leader: MemberModel, i: int)
    requires
        0 <= i <= leader.protocols.len(),
    ensures
        group::shared_protocol(members, waiters, leader.protocols, i) matches Some(p) ==> group::all_list(members, waiters, p) && group::lists_protocol(leader, p),
    decreases leader.protocols.len() - i,
{
    if i < leader.protocols.len() {
        if group::all_list(members, waiters, leader.protocols[i].name) {
            assert(leader.protocols[i].name == leader.protocols[i].name);
        } else {
            lemma_shared(members, waiters, leader, i + 1);
        }
    }
}

/// After the leader has synced, every member has an assignment, the one that
/// the leader last gave it or an empty one, and nobody waits.
pub proof fn law_leader_sync_assigns_everyone(g: GroupModel, req: SyncRequestModel, ticket: u64, k: Seq<char>)
    requires
        group::sync_error(g, req) is None,
        req.member_id == g.leader,
        g.members.contains_key(k),
    ensures
        ({
            let h = group::sync_next(g, req, ticket).0;
            h.state == GroupState::Stable && h.members.contains_key(k) && (h.round matches Some(r) && r.delivered && r.parked.len() == 0 && r.assignments.contains_key(k)
                && (forall|i: int| 0 <= i < req.assignments.len() && (#[trigger] req.assignments[i]).0 == k && (
            forall|j: int| i < j < req.assignments.len() ==> (#[trigger] req.assignments[j]).0 != k)
                ==> r.assignments[k] == req.assignments[i].1) && (!(g.round->0).assignments.contains_key(k) && (
            forall|i: int| 0 <= i < req.assignments.len() ==> (#[trigger] req.assignments[i]).0 != k)
                ==> r.assignments[k] == Seq::<u8>::empty()) && h.members[k] == (MemberModel {
                assignment: r.assignments[k],
                ..g.members[k]
            }))
        }),
{
    let r = g.round->0;
    assert forall|i: int| 0 <= i < req.assignments.len() && (#[trigger] req.assignments[i]).0 == k && (
        forall|j: int| i < j < req.assignments.len() ==> (#[trigger] req.assignments[j]).0 != k)
        implies group::with_assignments(r.assignments, req.assignments).contains_key(k) && group::with_assignments(r.assignments, req.assignments)[k] == req.assignments[i].1 by {
        lemma_last_assignment(r.assignments, req.assignments, k, i);
    }
    if forall|i: int| 0 <= i < req.assignments.len() ==> (#[trigger] req.assignments[i]).0 != k {
        lemma_omitted(r.assignments, req.assignments, k);
    }
}

proof fn lemma_omitted(m: Map<Seq<char>, Seq<u8>>, list: Seq<(Seq<char>, Seq<u8>)>, k: Seq<char>)
    requires
        forall|i: int| 0 <= i < list.len() ==> (#[trigger] list[i]).0 != k,
    ensures
        group::with_assignments(m, list).contains_key(k) == m.contains_key(k),
    decreases list.len(),
{
    if list.len() > 0 {
        let d = list.drop_last();
        assert forall|i: int| 0 <= i < d.len() implies (#[trigger] d[i]).0 != k by {
            assert(d[i] == list[i]);
        }
        assert(list[list.len() - 1].0 != k);
        lemma_omitted(m, d, k);
    }
}

/// Once the leader has synced, a description of the group shows every member
/// with the assignment that the round gives it.
pub proof fn law_description_shows_the_assignments(
    g: GroupModel,
    req: SyncRequestModel,
    ticket: u64,
    s: GroupSnapshot,
    k: Seq<char>,
)
    requires
        g.members.dom().finite(),
        group::sync_error(g, req) is None,
        req.member_id == g.leader,
        g.members.contains_key(k),
        group::shows(s, group::sync_next(g, req, ticket).0),
    ensures
        s.state@ == GroupState::Stable.name(),
        s.generation_id == g.generation,
        s.members@.len() == g.members.dom().len(),
        exists|i: int|
            0 <= i < s.members@.len() && (#[trigger] s.members@[i])@.member_id == g.members[k].id && s.members@[i]@.assignment
                == (group::sync_next(g, req, ticket).0.round->0).assignments[k],
{
    let h = group::sync_next(g, req, ticket).0;
    law_leader_sync_assigns_everyone(g, req, ticket, k);
    assert(h.members.dom() =~= g.members.dom());
    let ids = lemma_shown(h, k);
    let rows = s.members@.map_values(|m: MemberSnapshot| m@);
    let i = choose|i: int| 0 <= i < ids.len() && ids[i] == k;
    assert(rows.len() == ids.len());
    assert(rows[i] == s.members@[i]@);
}

/// While a new round awaits its leader, a description of the group shows no
/// assignments.
pub proof fn law_new_round_shows_no_assignments(g: GroupModel, e: Event, s: GroupSnapshot, i: int)
    requires
        completes(g, e),
        g.members.dom().finite(),
        group::shows(s, next(g, e).0),
        0 <= i < s.members@.len(),
    ensures
        s.state@ == GroupState::CompletingRebalance.name(),
        s.members@[i]@.assignment == Seq::<u8>::empty(),
{
    let h = next(g, e).0;
    lemma_finite_members(g, e);
    h.members.dom().lemma_to_seq_to_set_id();
    order::lemma_in_order_exists(h.members.dom().to_seq());
    let ids = order::in_order(h.members.dom());
    let rows = s.members@.map_values(|m: MemberSnapshot| m@);
    assert(rows.len() == ids.len());
    assert(rows[i] == s.members@[i]@);
    assert(ids.to_set().contains(ids[i]));
    assert(h.members.contains_key(ids[i]));
}

proof fn lemma_shown(h: GroupModel, k: Seq<char>) -> (ids: Seq<Seq<char>>)
    requires
        h.members.dom().finite(),
        h.members.contains_key(k),
    ensures
        ids == order::in_order(h.members.dom()),
        ids.contains(k),
        ids.len() == h.members.dom().len(),
{
    let ids = order::in_order(h.members.dom());
    h.members.dom().lemma_to_seq_to_set_id();
    order::lemma_in_order_exists(h.members.dom().to_seq());
    order::lemma_increasing_distinct(ids);
    ids.unique_seq_to_set();
    assert(ids.to_set().contains(k));
    ids
}

proof fn lemma_last_assignment(m: Map<Seq<char>, Seq<u8>>, list: Seq<(Seq<char>, Seq<u8>)>, k: Seq<char>, i: int)
    requires
        0 <= i < list.len(),
        list[i].0 == k,
        forall|j: int| i < j < list.len() ==> (#[trigger] list[j]).0 != k,
    ensures
        group::with_assignments(m, list).contains_key(k),
        group::with_assignments(m, list)[k] == list[i].1,
    decreases list.len(),
{
    if i < list.len() - 1 {
        let d = list.drop_last();
        assert forall|j: int| i < j < d.len() implies (#[trigger] d[j]).0 != k by {
            assert(d[j] == list[j]);
        }
        assert(list[list.len() - 1].0 != k);
        lemma_last_assignment(m, d, k, i);
    }
}

/// A group that was given up is dead and has nothing left: no members, no
/// waiting requests, no round.
pub proof fn law_shutdown_leaves_nothing(g: GroupModel)
    ensures
        ({
            let h = group::shutdown_next(g).0;
            &&& h.state == GroupState::Dead
            &&& h.members == Map::<Seq<char>, MemberModel>::empty()
            &&& h.waiters.len() == 0
            &&& h.round is None
        }),
{
}

/// The tickets of the SyncGroup requests that wait for a round.
pub open spec fn parked(round: Option<RoundModel>) -> Multiset<u64> {
    match round {
        Some(r) => r.parked.map_values(|p: ParkedModel| p.ticket).to_multiset(),
        None => Multiset::empty(),
    }
}

/// The tickets of the SyncGroup requests that are answered.
pub open spec fn synced(acts: Seq<Act>) -> Multiset<u64>
    decreases acts.len(),
{
    if acts.len() == 0 {
        Multiset::empty()
    } else {
        match acts.last() {
            Act::SyncReply { ticket, reply } => synced(acts.drop_last()).insert(ticket),
            _ => synced(acts.drop_last()),
        }
    }
}

/// The ticket of the SyncGroup request that an event brings in.
pub open spec fn syncing(e: Event) -> Multiset<u64> {
    match e {
        Event::Sync { req, ticket } => Multiset::singleton(ticket),
        _ => Multiset::empty(),
    }
}

/// Whether requests wait for a round only while it is to be delivered.
pub open spec fn waits_for_a_round(g: GroupModel) -> bool {
    match g.round {
        Some(r) => r.parked.len() > 0 ==> !r.delivered && g.state == GroupState::CompletingRebalance,
        None => true,
    }
}

proof fn lemma_synced_add(a: Seq<Act>, b: Seq<Act>)
    ensures
        synced(a + b) == synced(a).add(synced(b)),
    decreases b.len(),
{
    if b.len() == 0 {
        assert(a + b =~= a);
        assert(synced(a) =~= synced(a).add(synced(b)));
    } else {
        lemma_synced_add(a, b.drop_last());
        assert((a + b).drop_last() =~= a + b.drop_last());
        assert((a + b).last() == b.last());
        match b.last() {
            Act::SyncReply { ticket, reply } => {
                assert(synced(a).add(synced(b.drop_last())).insert(ticket) =~= synced(a).add(synced(b.drop_last()).insert(ticket)));
            },
            _ => {},
        }
    }
}

proof fn lemma_no_syncs(acts: Seq<Act>)
    requires
        forall|i: int| 0 <= i < acts.len() ==> !(#[trigger] acts[i] is SyncReply),
    ensures
        synced(acts) == Multiset::<u64>::empty(),
    decreases acts.len(),
{
    if acts.len() > 0 {
        assert(!(acts[acts.len() - 1] is SyncReply));
        assert forall|i: int| 0 <= i < acts.drop_last().len() implies !(#[trigger] acts.drop_last()[i] is SyncReply) by {
            assert(acts.drop_last()[i] == acts[i]);
        }
        lemma_no_syncs(acts.drop_last());
    }
}

proof fn lemma_sync_replies(acts: Seq<Act>, tickets: Seq<u64>)
    requires
        acts.len() == tickets.len(),
        forall|i: int| 0 <= i < acts.len() ==> (#[trigger] acts[i]) is SyncReply && acts[i]->SyncReply_ticket == tickets[i],
    ensures
        synced(acts) == tickets.to_multiset(),
    decreases acts.len(),
{
    if acts.len() > 0 {
        let a = acts.drop_last();
        let t = tickets.drop_last();
        assert forall|i: int| 0 <= i < a.len() implies (#[trigger] a[i]) is SyncReply && a[i]->SyncReply_ticket == t[i] by {
            assert(a[i] == acts[i]);
        }
        lemma_sync_replies(a, t);
        assert(acts[acts.len() - 1] is SyncReply);
        assert(tickets =~= t.push(tickets.last()));
        vstd::seq_lib::to_multiset_build(t, tickets.last());
    } else {
        tickets.to_multiset_ensures();
        assert(tickets.to_multiset() =~= Multiset::empty());
    }
}

proof fn lemma_nobody_parked(round: Option<RoundModel>)
    requires
        round matches Some(r) ==> r.parked.len() == 0,
    ensures
        parked(round) == Multiset::<u64>::empty(),
{
    if let Some(r) = round {
        let ts = r.parked.map_values(|p: ParkedModel| p.ticket);
        ts.to_multiset_ensures();
        assert(ts.to_multiset() =~= Multiset::empty());
    }
}

proof fn lemma_cancelled(round: Option<RoundModel>)
    requires
        round matches Some(r) ==> (r.parked.len() > 0 ==> !r.delivered),
    ensures
        synced(group::cancel_replies(round)) == parked(round),
{
    let acts = group::cancel_replies(round);
    match round {
        Some(r) => {
            if r.parked.len() > 0 {
                lemma_sync_replies(acts, r.parked.map_values(|p: ParkedModel| p.ticket));
            } else {
                assert(acts =~= Seq::empty());
                lemma_nobody_parked(round);
            }
        },
        None => {},
    }
}

proof fn lemma_departed_syncs(g: GroupModel, ids: Seq<Seq<char>>)
    ensures
        synced(group::departed(g, ids).1) == Multiset::<u64>::empty(),
        group::departed(g, ids).0.round == g.round,
    decreases ids.len(),
{
    if ids.len() > 0 {
        lemma_departed_syncs(g, ids.drop_last());
        let (h, acts, codes) = group::departed(g, ids.drop_last());
        if h.members.contains_key(ids.last()) {
            let more = group::without_member(h, ids.last()).1;
            lemma_no_syncs(more);
            lemma_synced_add(acts, more);
            assert(synced(acts + more) =~= Multiset::empty());
        }
    }
}

proof fn lemma_without_syncs(g: GroupModel, ids: Seq<Seq<char>>)
    ensures
        synced(group::without_members(g, ids).1) == Multiset::<u64>::empty(),
        group::without_members(g, ids).0.round == g.round,
    decreases ids.len(),
{
    if ids.len() > 0 {
        lemma_without_syncs(g, ids.drop_last());
        let (h, acts) = group::without_members(g, ids.drop_last());
        let more = group::without_member(h, ids.last()).1;
        lemma_no_syncs(more);
        lemma_synced_add(acts, more);
        assert(synced(acts + more) =~= Multiset::empty());
    }
}

proof fn lemma_parked_syncs(g: GroupModel, acts: Seq<Act>, id: Seq<char>, ticket: u64)
    requires
        g.round matches Some(r) ==> r.parked.len() == 0,
    ensures
        synced(group::parked_join(g, acts, id, ticket).1) == synced(acts),
        parked(group::parked_join(g, acts, id, ticket).0.round) == Multiset::<u64>::empty(),
{
    let g2 = GroupModel { waiters: g.waiters.push(WaiterModel { member_id: id, ticket }), ..g };
    let (h, more) = group::completed_if_due(g2);
    lemma_no_syncs(more);
    lemma_synced_add(acts, more);
    assert(synced(acts + more) =~= synced(acts));
    lemma_nobody_parked(h.round);
}

/// No SyncGroup request gets lost or is answered twice: where requests wait
/// only for a round that is to be delivered, the tickets that waited before an
/// event, and the one that came in, are those that wait after it and those that
/// it answers.
pub proof fn law_sync_requests_are_kept_or_answered(g: GroupModel, e: Event)
    requires
        waits_for_a_round(g),
    ensures
        parked(g.round).add(syncing(e)) == parked(next(g, e).0.round).add(synced(next(g, e).1)),
{
    let (h, acts) = (next(g, e).0, next(g, e).1);
    match e {
        Event::Join { join: req, ticket, fresh, now_ms } => {
            let id = group::joining_id(req, fresh);
            let g1 = group::with_member(g, req, id);
            let armed = seq![Act::ArmSession { member_id: id, after_ms: group::session_ms(req.session_timeout) }];
            match g.state {
                GroupState::Empty => {
                    let cap = group::max_timeout(g1.members);
                    let g2 = GroupModel {
                        state: GroupState::PreparingRebalance,
                        deadline: Some(if now_ms + cap <= u64::MAX { (now_ms + cap) as u64 } else { u64::MAX }),
                        ..g1
                    };
                    let first = armed.push(Act::ArmRebalance { after_ms: group::rebalance_budget(g2, true, now_ms) });
                    lemma_no_syncs(first);
                    lemma_parked_syncs(g2, first, id, ticket);
                    lemma_nobody_parked(g.round);
                },
                GroupState::Stable | GroupState::CompletingRebalance => {
                    let g2 = GroupModel { state: GroupState::PreparingRebalance, round: None, ..g1 };
                    let first = armed.push(Act::ArmRebalance { after_ms: group::rebalance_budget(g2, false, now_ms) });
                    let told = group::cancel_replies(g1.round);
                    lemma_no_syncs(first);
                    lemma_cancelled(g1.round);
                    lemma_synced_add(first, told);
                    lemma_parked_syncs(g2, first + told, id, ticket);
                },
                GroupState::PreparingRebalance => {
                    let first = if g.initial && !g.members.contains_key(id) {
                        armed.push(Act::ArmRebalance { after_ms: group::rebalance_budget(g1, true, now_ms) })
                    } else {
                        armed
                    };
                    lemma_no_syncs(first);
                    lemma_parked_syncs(g1, first, id, ticket);
                    lemma_nobody_parked(g.round);
                },
                GroupState::Dead => {
                    lemma_no_syncs(acts);
                },
            }
        },
        Event::Sync { req, ticket } => {
            lemma_synced_next(g, req, ticket);
        },
        Event::Leave { ids } => {
            lemma_departed_syncs(g, ids);
            let (h1, first, codes) = group::departed(g, ids);
            let more = group::after_departure(h1).1;
            lemma_no_syncs(more);
            lemma_synced_add(first, more);
        },
        Event::SessionExpired { id } => {
            if g.members.contains_key(id) {
                let (h1, first) = group::without_member(g, id);
                let more = group::after_departure(h1).1;
                lemma_no_syncs(first);
                lemma_no_syncs(more);
                lemma_synced_add(first, more);
            }
        },
        Event::RebalanceTimer => {
            if g.state == GroupState::PreparingRebalance && g.waiters.len() > 0 {
                lemma_without_syncs(g, order::in_order(group::stale_members(g)));
                let (h1, first) = group::evicted(g);
                let more = group::completed(h1).1;
                lemma_no_syncs(Seq::<Act>::empty());
                lemma_no_syncs(more);
                lemma_synced_add(first, more);
                lemma_nobody_parked(g.round);
                lemma_nobody_parked(h.round);
            }
        },
        Event::Shutdown => {
            let ids = order::in_order(g.members.dom());
            lemma_without_syncs(g, ids);
            let (h1, first) = group::without_members(g, ids);
            let told = (first + group::refusals(h1.waiters)).push(Act::DisarmRebalance);
            let rest = group::refusals(h1.waiters).push(Act::DisarmRebalance);
            assert(told =~= first + rest);
            lemma_no_syncs(rest);
            lemma_synced_add(first, rest);
            lemma_cancelled(g.round);
            lemma_synced_add(told, group::cancel_replies(g.round));
        },
    }
    assert(parked(g.round).add(syncing(e)) =~= parked(h.round).add(synced(acts)));
}

proof fn lemma_synced_next(g: GroupModel, req: SyncRequestModel, ticket: u64)
    requires
        waits_for_a_round(g),
    ensures
        parked(g.round).add(Multiset::singleton(ticket)) == parked(group::sync_next(g, req, ticket).0.round).add(
            synced(group::sync_next(g, req, ticket).1),
        ),
{
    let f = |p: ParkedModel| p.ticket;
    let (h, acts) = group::sync_next(g, req, ticket);
    match group::sync_error(g, req) {
        Some(code) => {
            lemma_sync_replies(acts, seq![ticket]);
            lemma_one(ticket);
        },
        None => {
            let r = g.round->0;
            let me = ParkedModel {
                member_id: req.member_id,
                ticket,
                protocol_type: g.protocol_type,
                protocol_name: g.protocol_name,
            };
            let ts = r.parked.map_values(f);
            vstd::seq_lib::to_multiset_build(ts, ticket);
            assert(r.parked.push(me).map_values(f) =~= ts.push(ticket));
            if req.member_id == g.leader {
                let all = group::filled(group::with_assignments(r.assignments, req.assignments), g.members.dom());
                let told = r.parked.push(me).map_values(|p: ParkedModel| group::sync_reply(p, all));
                lemma_sync_replies(told, ts.push(ticket));
                lemma_no_syncs(seq![Act::CountRebalance]);
                lemma_synced_add(seq![Act::CountRebalance], told);
                lemma_nobody_parked(h.round);
            } else if r.delivered {
                lemma_sync_replies(acts, seq![ticket]);
                lemma_one(ticket);
            }
        },
    }
    assert(parked(g.round).add(Multiset::singleton(ticket)) =~= parked(h.round).add(synced(acts)));
}

proof fn lemma_one(ticket: u64)
    ensures
        seq![ticket].to_multiset() == Multiset::singleton(ticket),
{
    assert(seq![ticket] =~= Seq::<u64>::empty().push(ticket));
    vstd::seq_lib::to_multiset_build(Seq::<u64>::empty(), ticket);
    Seq::<u64>::empty().to_multiset_ensures();
    assert(seq![ticket].to_multiset() =~= Multiset::singleton(ticket));
}

/// The first rebalance is left to its timer: however many members join, it
/// does not complete, and every request waits.
pub proof fn law_first_rebalance_waits_for_its_timer(g: GroupModel, req: JoinRequestModel, ticket: u64, fresh: u64, now_ms: u64)
    requires
        g.initial,
        g.state == GroupState::Empty || g.state == GroupState::PreparingRebalance,
    ensures
        ({
            let h = group::join_next(g, req, ticket, fresh, now_ms).0;
            &&& h.initial
            &&& h.generation == g.generation
            &&& h.state == GroupState::PreparingRebalance
            &&& h.waiters == g.waiters.push(WaiterModel { member_id: group::joining_id(req, fresh), ticket })
        }),
{
}

/// A member whose session runs out while its JoinGroup request waits is told
/// that it is unknown.
pub proof fn law_departing_member_is_told(g: GroupModel, id: Seq<char>)
    requires
        g.members.contains_key(id),
        group::first_waiter(g.waiters, id) is Some,
    ensures
        ({
            let i = group::first_waiter(g.waiters, id)->0;
            &&& 0 <= i < g.waiters.len()
            &&& group::expired_next(g, id).1.contains(
                Act::JoinReply { ticket: g.waiters[i].ticket, outcome: group::join_refused(id) },
            )
            &&& !group::expired_next(g, id).0.members.contains_key(id)
        }),
{
    lemma_first_waiter(g.waiters, id);
    let (h, acts) = group::without_member(g, id);
    let all = group::expired_next(g, id).1;
    assert(all[1] == acts[1]);
}

/// When the rebalance timer fires, a member stays exactly where it rejoined in
/// time, has a static identity, or everybody's requests are in; and a member
/// that stays is as it was, but for its assignment, which awaits the new round.
pub proof fn law_only_latecomers_are_turned_out(g: GroupModel, k: Seq<char>)
    requires
        g.state == GroupState::PreparingRebalance,
        g.waiters.len() > 0,
        g.members.dom().finite(),
        g.members.contains_key(k),
    ensures
        ({
            let h = group::timer_next(g).0;
            &&& h.members.contains_key(k) <==> (g.members.dom().len() == g.waiters.len() || group::first_waiter(g.waiters, k) is Some
                || g.members[k].instance is Some)
            &&& h.members.contains_key(k) ==> h.members[k] == (MemberModel { assignment: Seq::empty(), ..g.members[k] })
        }),
{
    let stale = group::stale_members(g);
    assert(stale.subset_of(g.members.dom()));
    vstd::set_lib::lemma_set_subset_finite(g.members.dom(), stale);
    stale.lemma_to_seq_to_set_id();
    order::lemma_in_order_exists(stale.to_seq());
    group::lemma_without_members(g, order::in_order(stale));
}

} // verus!
