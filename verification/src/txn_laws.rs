//! What holds of transactions over several requests.

use vstd::prelude::*;
use crate::order;
use crate::txn_state;
use crate::txn_state::{AbortModel, EntryModel, StoreModel, TopicParts, TxnState, TxnStateError};

verus! {

/// A producer that registers again keeps its producer id and gets the next
/// epoch, until the epochs are used up; then it starts over with a new id.
pub proof fn law_registering_again_raises_the_epoch(prior: Option<EntryModel>, t1: i32, t2: i32, p1: i64, p2: i64)
    ensures
        ({
            let first = txn_state::registered(prior, t1, p1);
            let again = txn_state::registered(Some(first), t2, p2);
            &&& first.epoch < i16::MAX ==> again.pid == first.pid && again.epoch == first.epoch + 1 && again.state == first.state
            &&& first.epoch == i16::MAX ==> again.pid == p2 && again.epoch == 0 && again.state == TxnState::Empty
            &&& again.timeout == (if t2 > 0 { t2 } else { first.timeout })
        }),
{
}

/// Registering fences the producer's earlier epoch: requests under it are
/// turned away.
pub proof fn law_registering_fences_the_old_epoch(e: EntryModel, timeout: i32, fresh: i64)
    requires
        fresh != e.pid,
    ensures
        txn_state::admitted(Some(txn_state::registered(Some(e), timeout, fresh)), e.pid, e.epoch) is Err,
{
}

/// A retry of the first half of EndTxn gets the lists of the first try, and
/// the entry keeps them.
pub proof fn law_prepare_can_be_retried(e: EntryModel, commit: bool)
    requires
        txn_state::prepare(e, commit) is Ok,
    ensures
        ({
            let (e1, owed) = txn_state::prepare(e, commit)->Ok_0;
            &&& txn_state::prepare(e1, commit) == Ok::<(EntryModel, txn_state::OutcomeModel), TxnStateError>((e1, owed))
            &&& e1.partitions == e.partitions
            &&& e1.groups == e.groups
        }),
{
}

/// Once the outcome is decided it cannot be turned round.
pub proof fn law_outcome_cannot_be_flipped(e: EntryModel, commit: bool)
    requires
        txn_state::prepare(e, commit) is Ok,
    ensures
        ({
            let e1 = txn_state::prepare(e, commit)->Ok_0.0;
            &&& txn_state::prepare(e1, !commit) == Err::<(EntryModel, txn_state::OutcomeModel), TxnStateError>(TxnStateError::InvalidState)
            &&& txn_state::complete(e1, !commit) is Err
        }),
{
}

/// A transaction completes only after it was prepared, completing twice is
/// completing once, and the hook is due the first time only.
pub proof fn law_complete_follows_prepare_once(e: EntryModel, commit: bool)
    ensures
        e.state == TxnState::Ongoing ==> txn_state::complete(e, commit) is Err,
        txn_state::complete(e, commit) matches Ok((e1, calls)) ==> {
            &&& txn_state::complete(e1, commit) == Ok::<(EntryModel, Seq<txn_state::SignalModel>), TxnStateError>((e1, Seq::empty()))
            &&& e1.state == txn_state::complete_state(commit)
            &&& txn_state::prepare(e1, commit) == Ok::<(EntryModel, txn_state::OutcomeModel), TxnStateError>((e1, txn_state::nothing_to_do()))
        },
{
}

/// A transaction that ran out of time keeps what it owes, owes an abort, and
/// its old epoch is fenced.
pub proof fn law_reaped_transaction_owes_its_aborts(e: EntryModel)
    ensures
        ({
            let r = txn_state::reaped(e);
            &&& r.partitions == e.partitions
            &&& r.groups == e.groups
            &&& r.state == TxnState::PrepareAbort
            &&& txn_state::admitted(Some(r), e.pid, e.epoch) == Err::<EntryModel, TxnStateError>(TxnStateError::EpochFenced)
            &&& txn_state::complete(r, false) is Ok
        }),
{
}

/// Whether an entry has a start time only while its transaction is ongoing.
pub open spec fn timed(e: EntryModel) -> bool {
    e.state != TxnState::Ongoing ==> e.since == 0
}

/// Only an ongoing transaction has a start time: every step of a producer's
/// life keeps that so.
pub proof fn law_only_ongoing_has_a_start(e: EntryModel, timeout: i32, fresh: i64, adds: Seq<TopicParts>, group: Seq<char>, now_ms: i64, commit: bool)
    requires
        timed(e),
    ensures
        timed(txn_state::registered(None, timeout, fresh)),
        timed(txn_state::registered(Some(e), timeout, fresh)),
        timed(txn_state::with_partitions(e, adds, now_ms)),
        timed(txn_state::with_group(e, group, now_ms)),
        txn_state::prepare(e, commit) matches Ok((e1, owed)) ==> timed(e1),
        txn_state::complete(e, commit) matches Ok((e1, calls)) ==> timed(e1),
        timed(txn_state::reaped(e)),
{
}

// Merging.

/// Adding partitions to a transaction is set union: afterwards it names what
/// it named and what was added, and nothing else.
pub proof fn law_merging_is_union(parts: Seq<TopicParts>, adds: Seq<TopicParts>, t: Seq<char>, p: i32)
    ensures
        txn_state::recorded(txn_state::merged(parts, adds), t, p) <==> txn_state::recorded(parts, t, p) || txn_state::recorded(adds, t, p),
    decreases adds.len(),
{
    if adds.len() > 0 {
        let d = adds.drop_last();
        law_merging_is_union(parts, d, t, p);
        txn_state::lemma_with_topic(txn_state::merged(parts, d), adds.last());
        if txn_state::recorded(d, t, p) {
            let i = choose|i: int| 0 <= i < d.len() && (#[trigger] d[i]).topic == t && d[i].partitions.contains(p);
            assert(adds[i].topic == t && adds[i].partitions.contains(p));
        }
        if adds.last().topic == t && adds.last().partitions.contains(p) {
            assert(adds[adds.len() - 1].topic == t);
        }
        if txn_state::recorded(adds, t, p) {
            let i = choose|i: int| 0 <= i < adds.len() && (#[trigger] adds[i]).topic == t && adds[i].partitions.contains(p);
            if i < d.len() {
                assert(d[i].topic == t && d[i].partitions.contains(p));
            }
        }
    }
}

/// Partitions that are all recorded already change nothing, whatever topics
/// they come under.
pub proof fn law_recorded_partitions_change_nothing(parts: Seq<TopicParts>, adds: Seq<TopicParts>)
    requires
        !txn_state::names_more(txn_state::merged(parts, adds), parts),
    ensures
        txn_state::merged(parts, adds) == parts,
{
    assert forall|i: int, p: i32| 0 <= i < adds.len() && #[trigger] adds[i].partitions.contains(p) implies txn_state::recorded(parts, adds[i].topic, p) by {
        assert(txn_state::recorded(adds, adds[i].topic, p));
        law_merging_is_union(parts, adds, adds[i].topic, p);
    }
    lemma_merge_known(parts, adds);
}

/// Adding what is there changes nothing, so a retry is not written.
pub proof fn law_adding_again_changes_nothing(e: EntryModel, adds: Seq<TopicParts>, t1: i64, t2: i64)
    ensures
        ({
            let once = txn_state::with_partitions(e, adds, t1);
            txn_state::with_partitions(once, adds, t2) == once
        }),
{
    let once = txn_state::with_partitions(e, adds, t1);
    let m = once.partitions;
    assert forall|i: int, p: i32| 0 <= i < adds.len() && #[trigger] adds[i].partitions.contains(p) implies txn_state::recorded(m, adds[i].topic, p) by {
        assert(txn_state::recorded(adds, adds[i].topic, p));
        law_merging_is_union(e.partitions, adds, adds[i].topic, p);
    }
    lemma_merge_known(m, adds);
    assert(txn_state::with_partitions(once, adds, t2) =~= once);
}

proof fn lemma_numbers_known(parts: Seq<TopicParts>, topic: Seq<char>, list: Seq<i32>, more: Seq<i32>)
    requires
        forall|x: i32| more.contains(x) ==> #[trigger] txn_state::recorded(parts, topic, x),
    ensures
        txn_state::with_numbers(parts, topic, list, more) == list,
    decreases more.len(),
{
    if more.len() > 0 {
        let d = more.drop_last();
        assert forall|x: i32| d.contains(x) implies #[trigger] txn_state::recorded(parts, topic, x) by {
            let i = choose|i: int| 0 <= i < d.len() && d[i] == x;
            assert(more[i] == x);
        }
        lemma_numbers_known(parts, topic, list, d);
        assert(more.contains(more.last()));
    }
}

proof fn lemma_merge_known(parts: Seq<TopicParts>, adds: Seq<TopicParts>)
    requires
        forall|i: int, p: i32| 0 <= i < adds.len() && #[trigger] adds[i].partitions.contains(p) ==> txn_state::recorded(parts, adds[i].topic, p),
    ensures
        txn_state::merged(parts, adds) == parts,
    decreases adds.len(),
{
    if adds.len() > 0 {
        let d = adds.drop_last();
        assert forall|i: int, p: i32| 0 <= i < d.len() && #[trigger] d[i].partitions.contains(p) implies txn_state::recorded(parts, d[i].topic, p) by {
            assert(adds[i].partitions.contains(p));
        }
        lemma_merge_known(parts, d);
        let a = adds[adds.len() - 1];
        assert forall|p: i32| a.partitions.contains(p) implies #[trigger] txn_state::recorded(parts, a.topic, p) by {
            assert(adds[adds.len() - 1].partitions.contains(p));
        }
        txn_state::lemma_topic_index(parts, a.topic);
        match txn_state::topic_index(parts, a.topic) {
            Some(k) => {
                lemma_numbers_known(parts, a.topic, parts[k].partitions, a.partitions);
                assert(txn_state::with_topic(parts, a) =~= parts);
            },
            None => {
                if a.partitions.len() > 0 {
                    assert(a.partitions.contains(a.partitions[0]));
                    assert(txn_state::recorded(parts, a.topic, a.partitions[0]));
                }
            },
        }
    }
}

/// A request on one transactional id leaves every other entry as it was.
pub proof fn law_entries_are_independent(s: StoreModel, id: Seq<char>, e: EntryModel, other: Seq<char>)
    requires
        s.wf(),
    ensures
        s.with_entry(id, e).entry(id) == Some(e),
        other != id ==> s.with_entry(id, e).entry(other) == s.entry(other),
        s.with_entry(id, e).wf(),
{
    txn_state::lemma_slot_range(id, s.slots.len() as int);
    txn_state::lemma_slot_range(other, s.slots.len() as int);
}

/// Every prepared transaction in scope is reported: with those that owe markers
/// where it owes any, else with those that owe none.
pub proof fn law_pending_dispatches_are_complete(
    slots: Seq<Map<Seq<char>, EntryModel>>,
    owned: Option<Seq<Seq<char>>>,
    owing: bool,
    n: int,
    k: int,
    id: Seq<char>,
)
    requires
        0 <= k < n <= slots.len(),
        slots[k].dom().finite(),
        slots[k].contains_key(id),
        txn_state::awaits(slots[k][id], owing),
        txn_state::in_scope(owned, id),
    ensures
        txn_state::pending_upto(slots, owned, owing, n).contains(txn_state::pending_of(id, slots[k][id])),
    decreases n,
{
    let m = slots[n - 1];
    let a = txn_state::pending_upto(slots, owned, owing, n - 1);
    let b = txn_state::pending_in(m, owned, owing, order::in_order(m.dom()));
    let p = txn_state::pending_of(id, slots[k][id]);
    if k < n - 1 {
        law_pending_dispatches_are_complete(slots, owned, owing, n - 1, k, id);
        let i = choose|i: int| 0 <= i < a.len() && a[i] == p;
        assert((a + b)[i] == p);
    } else {
        let s = m.dom().to_seq();
        m.dom().lemma_to_seq_to_set_id();
        order::lemma_in_order_exists(s);
        let ids = order::in_order(m.dom());
        assert(ids.to_set().contains(id));
        let j = choose|j: int| 0 <= j < ids.len() && ids[j] == id;
        lemma_pending_in(m, owned, owing, ids, j);
        let i = choose|i: int| 0 <= i < b.len() && b[i] == p;
        assert((a + b)[a.len() + i] == p);
    }
}

proof fn lemma_pending_in(m: Map<Seq<char>, EntryModel>, owned: Option<Seq<Seq<char>>>, owing: bool, ids: Seq<Seq<char>>, j: int)
    requires
        0 <= j < ids.len(),
        txn_state::awaits(m[ids[j]], owing),
        txn_state::in_scope(owned, ids[j]),
    ensures
        txn_state::pending_in(m, owned, owing, ids).contains(txn_state::pending_of(ids[j], m[ids[j]])),
    decreases ids.len(),
{
    let d = ids.drop_last();
    let all = txn_state::pending_in(m, owned, owing, ids);
    let p = txn_state::pending_of(ids[j], m[ids[j]]);
    if j < d.len() {
        lemma_pending_in(m, owned, owing, d, j);
        let rest = txn_state::pending_in(m, owned, owing, d);
        let i = choose|i: int| 0 <= i < rest.len() && rest[i] == p;
        assert(all[i] == p);
    } else {
        assert(all[all.len() - 1] == p);
    }
}

/// Only prepared transactions in scope are reported, those that owe markers
/// apart from those that owe none.
pub proof fn law_pending_dispatches_are_owed(
    s: StoreModel,
    owned: Option<Seq<Seq<char>>>,
    owing: bool,
    n: int,
    i: int,
)
    requires
        s.wf(),
        0 <= n <= s.slots.len(),
        0 <= i < txn_state::pending_upto(s.slots, owned, owing, n).len(),
    ensures
        exists|k: int, id: Seq<char>|
            0 <= k < n && #[trigger] s.slots[k].contains_key(id) && txn_state::awaits(s.slots[k][id], owing) && txn_state::in_scope(
                owned,
                id,
            ) && txn_state::pending_upto(s.slots, owned, owing, n)[i] == txn_state::pending_of(id, s.slots[k][id]),
    decreases n,
{
    if n > 0 {
        let m = s.slots[n - 1];
        let a = txn_state::pending_upto(s.slots, owned, owing, n - 1);
        let ids = lemma_ids(s, n - 1);
        let b = txn_state::pending_in(m, owned, owing, ids);
        if i < a.len() {
            law_pending_dispatches_are_owed(s, owned, owing, n - 1, i);
            let (k, id) = choose|k: int, id: Seq<char>|
                0 <= k < n - 1 && #[trigger] s.slots[k].contains_key(id) && txn_state::awaits(s.slots[k][id], owing) && txn_state::in_scope(
                    owned,
                    id,
                ) && a[i] == txn_state::pending_of(id, s.slots[k][id]);
            assert(s.slots[k].contains_key(id) && (a + b)[i] == a[i]);
        } else {
            let j = lemma_pending_from(m, owned, owing, ids, i - a.len());
            assert(ids.to_set().contains(ids[j]));
            assert(s.slots[n - 1].contains_key(ids[j]) && (a + b)[i] == b[i - a.len()]);
        }
    }
}

proof fn lemma_pending_from(m: Map<Seq<char>, EntryModel>, owned: Option<Seq<Seq<char>>>, owing: bool, ids: Seq<Seq<char>>, i: int) -> (j: int)
    requires
        0 <= i < txn_state::pending_in(m, owned, owing, ids).len(),
    ensures
        0 <= j < ids.len(),
        txn_state::awaits(m[ids[j]], owing) && txn_state::in_scope(owned, ids[j]),
        txn_state::pending_in(m, owned, owing, ids)[i] == txn_state::pending_of(ids[j], m[ids[j]]),
    decreases ids.len(),
{
    let d = ids.drop_last();
    let rest = txn_state::pending_in(m, owned, owing, d);
    if i < rest.len() {
        lemma_pending_from(m, owned, owing, d, i)
    } else {
        ids.len() - 1
    }
}

proof fn lemma_ids(s: StoreModel, k: int) -> (ids: Seq<Seq<char>>)
    requires
        s.wf(),
        0 <= k < s.slots.len(),
    ensures
        ids == order::in_order(s.slots[k].dom()),
        ids.to_set() == s.slots[k].dom(),
        ids.no_duplicates(),
{
    let ids = order::in_order(s.slots[k].dom());
    s.slots[k].dom().lemma_to_seq_to_set_id();
    order::lemma_in_order_exists(s.slots[k].dom().to_seq());
    order::lemma_increasing_distinct(ids);
    ids
}

// The sweep.

/// Whether an id is due in a slot: its transaction ran out of time and is in
/// scope.
pub open spec fn is_due(m: Map<Seq<char>, EntryModel>, owned: Option<Seq<Seq<char>>>, now_ms: i64) -> spec_fn(Seq<char>) -> bool {
    |id: Seq<char>| txn_state::reaps(m[id], owned, id, now_ms)
}

/// A sweep of a slot reports one abort for each entry that is due and none
/// beside, by id.
pub proof fn law_sweep_reports_each_overdue_entry_once(s: StoreModel, owned: Option<Seq<Seq<char>>>, now_ms: i64, k: int)
    requires
        s.wf(),
        0 <= k < s.slots.len(),
    ensures
        ({
            let m = s.slots[k];
            let due = order::in_order(m.dom()).filter(is_due(m, owned, now_ms));
            &&& txn_state::aborts_in(m, owned, now_ms, order::in_order(m.dom())) == due.map_values(
                |id: Seq<char>| txn_state::abort_record(id, m[id]),
            )
            &&& due.no_duplicates()
            &&& forall|id: Seq<char>| #[trigger] due.contains(id) <==> m.contains_key(id) && txn_state::reaps(m[id], owned, id, now_ms)
        }),
{
    let m = s.slots[k];
    let ids = lemma_ids(s, k);
    let f = is_due(m, owned, now_ms);
    let due = ids.filter(f);
    lemma_aborts_in(m, owned, now_ms, ids);
    lemma_filter(ids, f);
    assert forall|id: Seq<char>| #[trigger] due.contains(id) <==> m.contains_key(id) && txn_state::reaps(m[id], owned, id, now_ms) by {
        assert(ids.to_set().contains(id) <==> m.contains_key(id));
        assert(f(id) == txn_state::reaps(m[id], owned, id, now_ms));
    }
}

proof fn lemma_filter(ids: Seq<Seq<char>>, f: spec_fn(Seq<char>) -> bool)
    ensures
        forall|id: Seq<char>| #[trigger] ids.filter(f).contains(id) <==> ids.contains(id) && f(id),
        ids.no_duplicates() ==> ids.filter(f).no_duplicates(),
    decreases ids.len(),
{
    reveal(Seq::filter);
    if ids.len() > 0 {
        let d = ids.drop_last();
        let x = ids.last();
        let rest = d.filter(f);
        lemma_filter(d, f);
        assert forall|id: Seq<char>| #[trigger] ids.filter(f).contains(id) <==> ids.contains(id) && f(id) by {
            if ids.contains(id) {
                let i = choose|i: int| 0 <= i < ids.len() && ids[i] == id;
                if i < d.len() {
                    assert(d[i] == id);
                }
            }
            if d.contains(id) {
                let i = choose|i: int| 0 <= i < d.len() && d[i] == id;
                assert(ids[i] == id);
            }
            if rest.contains(id) {
                let i = choose|i: int| 0 <= i < rest.len() && rest[i] == id;
                assert(ids.filter(f)[i] == id);
            }
            if ids.filter(f).contains(id) && !rest.contains(id) {
                let i = choose|i: int| 0 <= i < ids.filter(f).len() && ids.filter(f)[i] == id;
                assert(ids[ids.len() - 1] == id);
            }
            if f(x) {
                assert(ids.filter(f)[rest.len() as int] == x);
            }
        }
        if ids.no_duplicates() {
            assert(d.no_duplicates());
            assert(!d.contains(x)) by {
                if d.contains(x) {
                    let i = choose|i: int| 0 <= i < d.len() && d[i] == x;
                    assert(ids[i] == ids[ids.len() - 1]);
                }
            }
            assert(!rest.contains(x));
        }
    }
}

proof fn lemma_aborts_in(m: Map<Seq<char>, EntryModel>, owned: Option<Seq<Seq<char>>>, now_ms: i64, ids: Seq<Seq<char>>)
    ensures
        txn_state::aborts_in(m, owned, now_ms, ids) == ids.filter(is_due(m, owned, now_ms)).map_values(
            |id: Seq<char>| txn_state::abort_record(id, m[id]),
        ),
    decreases ids.len(),
{
    reveal(Seq::filter);
    let f = is_due(m, owned, now_ms);
    let g = |id: Seq<char>| txn_state::abort_record(id, m[id]);
    if ids.len() > 0 {
        lemma_aborts_in(m, owned, now_ms, ids.drop_last());
        assert(f(ids.last()) == txn_state::reaps(m[ids.last()], owned, ids.last(), now_ms));
    }
    assert(txn_state::aborts_in(m, owned, now_ms, ids) =~= ids.filter(f).map_values(g));
}

/// A sweep reports exactly the entries that are due, each in its slot.
pub proof fn law_sweep_reports_exactly_the_overdue(s: StoreModel, owned: Option<Seq<Seq<char>>>, now_ms: i64, a: AbortModel)
    requires
        s.wf(),
    ensures
        txn_state::aborts_upto(s.slots, owned, now_ms, s.slots.len() as int).contains(a) <==> exists|k: int, id: Seq<char>|
            0 <= k < s.slots.len() && #[trigger] s.slots[k].contains_key(id) && txn_state::reaps(s.slots[k][id], owned, id, now_ms) && a
                == txn_state::abort_record(id, s.slots[k][id]),
{
    lemma_aborts_upto(s, owned, now_ms, s.slots.len() as int, a);
}

spec fn reported(s: StoreModel, owned: Option<Seq<Seq<char>>>, now_ms: i64, n: int, a: AbortModel) -> bool {
    exists|k: int, id: Seq<char>|
        0 <= k < n && #[trigger] s.slots[k].contains_key(id) && txn_state::reaps(s.slots[k][id], owned, id, now_ms) && a
            == txn_state::abort_record(id, s.slots[k][id])
}

proof fn lemma_aborts_upto(s: StoreModel, owned: Option<Seq<Seq<char>>>, now_ms: i64, n: int, a: AbortModel)
    requires
        s.wf(),
        0 <= n <= s.slots.len(),
    ensures
        txn_state::aborts_upto(s.slots, owned, now_ms, n).contains(a) <==> reported(s, owned, now_ms, n, a),
    decreases n,
{
    if n > 0 {
        lemma_aborts_upto(s, owned, now_ms, n - 1, a);
        law_sweep_reports_each_overdue_entry_once(s, owned, now_ms, n - 1);
        let m = s.slots[n - 1];
        let due = order::in_order(m.dom()).filter(is_due(m, owned, now_ms));
        let g = |id: Seq<char>| txn_state::abort_record(id, m[id]);
        let x = txn_state::aborts_upto(s.slots, owned, now_ms, n - 1);
        let y = due.map_values(g);
        if (x + y).contains(a) {
            let i = choose|i: int| 0 <= i < (x + y).len() && (x + y)[i] == a;
            if i < x.len() {
                assert(x[i] == a);
                let (k, id) = choose|k: int, id: Seq<char>|
                    0 <= k < n - 1 && #[trigger] s.slots[k].contains_key(id) && txn_state::reaps(s.slots[k][id], owned, id, now_ms) && a
                        == txn_state::abort_record(id, s.slots[k][id]);
                assert(s.slots[k].contains_key(id));
            } else {
                let id = due[i - x.len()];
                assert(due.contains(id));
                assert(y[i - x.len()] == a);
                assert(s.slots[n - 1].contains_key(id));
            }
        }
        if reported(s, owned, now_ms, n, a) {
            let (k, id) = choose|k: int, id: Seq<char>|
                0 <= k < n && #[trigger] s.slots[k].contains_key(id) && txn_state::reaps(s.slots[k][id], owned, id, now_ms) && a
                    == txn_state::abort_record(id, s.slots[k][id]);
            if k < n - 1 {
                assert(s.slots[k].contains_key(id));
                assert(reported(s, owned, now_ms, n - 1, a));
                let i = choose|i: int| 0 <= i < x.len() && x[i] == a;
                assert((x + y)[i] == a);
            } else {
                assert(due.contains(id));
                let i = choose|i: int| 0 <= i < due.len() && due[i] == id;
                assert((x + y)[x.len() + i] == a);
            }
        }
    }
}

/// A sweep prepares the abort of each entry that is due and leaves every other
/// as it was.
pub proof fn law_sweep_touches_only_the_overdue(s: StoreModel, owned: Option<Seq<Seq<char>>>, now_ms: i64, k: int, id: Seq<char>)
    requires
        s.wf(),
        0 <= k < s.slots.len(),
    ensures
        ({
            let after = txn_state::swept_store(s, owned, now_ms);
            &&& after.wf()
            &&& after.slots.len() == s.slots.len()
            &&& after.slots[k].contains_key(id) == s.slots[k].contains_key(id)
            &&& s.slots[k].contains_key(id) ==> after.slots[k][id] == (if txn_state::reaps(s.slots[k][id], owned, id, now_ms) {
                EntryModel {
                    state: TxnState::PrepareAbort,
                    since: 0,
                    epoch: if s.slots[k][id].epoch == i16::MAX {
                        0
                    } else {
                        (s.slots[k][id].epoch + 1) as i16
                    },
                    ..s.slots[k][id]
                }
            } else {
                s.slots[k][id]
            })
        }),
{
    lemma_swept_wf(s, owned, now_ms);
}

proof fn lemma_swept_wf(s: StoreModel, owned: Option<Seq<Seq<char>>>, now_ms: i64)
    requires
        s.wf(),
    ensures
        txn_state::swept_store(s, owned, now_ms).wf(),
{
    let after = txn_state::swept_store(s, owned, now_ms);
    assert forall|j: int| 0 <= j < after.slots.len() implies (#[trigger] after.slots[j]).dom().finite() by {
        assert(after.slots[j].dom() =~= s.slots[j].dom());
    }
}

/// A second sweep at the same time reports nothing and changes nothing.
pub proof fn law_second_sweep_finds_nothing(s: StoreModel, owned: Option<Seq<Seq<char>>>, now_ms: i64)
    requires
        s.wf(),
    ensures
        ({
            let after = txn_state::swept_store(s, owned, now_ms);
            &&& txn_state::aborts_upto(after.slots, owned, now_ms, after.slots.len() as int) == Seq::<AbortModel>::empty()
            &&& txn_state::swept_store(after, owned, now_ms) == after
        }),
{
    let after = txn_state::swept_store(s, owned, now_ms);
    lemma_swept_wf(s, owned, now_ms);
    let all = txn_state::aborts_upto(after.slots, owned, now_ms, after.slots.len() as int);
    if all.len() > 0 {
        let a = all[0];
        assert(all.contains(a));
        law_sweep_reports_exactly_the_overdue(after, owned, now_ms, a);
        let (k, id) = choose|k: int, id: Seq<char>|
            0 <= k < after.slots.len() && #[trigger] after.slots[k].contains_key(id) && txn_state::reaps(after.slots[k][id], owned, id, now_ms)
                && a == txn_state::abort_record(id, after.slots[k][id]);
        law_sweep_touches_only_the_overdue(s, owned, now_ms, k, id);
        assert(false);
    }
    assert(all =~= Seq::empty());
    let again = txn_state::swept_store(after, owned, now_ms);
    assert forall|k: int| 0 <= k < after.slots.len() implies #[trigger] again.slots[k] == after.slots[k] && again.dirty[k] == after.dirty[k] by {
        assert(again.slots[k] =~= after.slots[k]);
        law_sweep_reports_each_overdue_entry_once(after, owned, now_ms, k);
        let due = order::in_order(after.slots[k].dom()).filter(is_due(after.slots[k], owned, now_ms));
        if due.len() > 0 {
            assert(due.contains(due[0]));
            assert(!txn_state::reaps(after.slots[k][due[0]], owned, due[0], now_ms));
        }
    }
    assert(again.slots =~= after.slots);
    assert(again.dirty =~= after.dirty);
}

// What each request comes to.

/// Whether partition `p` of a topic stands somewhere in a list.
pub open spec fn lists(parts: Seq<TopicParts>, t: Seq<char>, p: i32) -> bool {
    exists|i: int, j: int|
        0 <= i < parts.len() && parts[i].topic == t && 0 <= j < parts[i].partitions.len() && #[trigger] parts[i].partitions[j] == p
}

proof fn lemma_lists(parts: Seq<TopicParts>, t: Seq<char>, p: i32)
    ensures
        lists(parts, t, p) <==> txn_state::recorded(parts, t, p),
{
    if lists(parts, t, p) {
        let (i, j) = choose|i: int, j: int|
            0 <= i < parts.len() && parts[i].topic == t && 0 <= j < parts[i].partitions.len() && #[trigger] parts[i].partitions[j] == p;
        assert(parts[i].partitions.contains(p));
    }
    if txn_state::recorded(parts, t, p) {
        let i = choose|i: int| 0 <= i < parts.len() && (#[trigger] parts[i]).topic == t && parts[i].partitions.contains(p);
        let j = choose|j: int| 0 <= j < parts[i].partitions.len() && parts[i].partitions[j] == p;
        assert(parts[i].partitions[j] == p);
    }
}

/// After an AddPartitionsToTxn that is accepted the transaction is under way,
/// whatever ended before it: since the request where it was not, else since
/// whenever it was. It lists what it listed and what the request names, and
/// nothing else of the producer changes. To end it then owes all of that.
pub proof fn law_added_partitions_are_under_way(
    e: EntryModel,
    adds: Seq<TopicParts>,
    now_ms: i64,
    t: Seq<char>,
    p: i32,
    commit: bool,
)
    ensures
        ({
            let a = txn_state::with_partitions(e, adds, now_ms);
            &&& a.state == TxnState::Ongoing
            &&& e.state == TxnState::Ongoing ==> a.since == e.since
            &&& e.state != TxnState::Ongoing ==> a.since == now_ms
            &&& lists(a.partitions, t, p) <==> lists(e.partitions, t, p) || lists(adds, t, p)
            &&& a.groups == e.groups
            &&& a.pid == e.pid
            &&& a.epoch == e.epoch
            &&& a.timeout == e.timeout
            &&& txn_state::prepare(a, commit) matches Ok((n, owed)) && owed.fired && owed.partitions == a.partitions && owed.groups
                == e.groups && (commit ==> n.state == TxnState::PrepareCommit) && (!commit ==> n.state == TxnState::PrepareAbort)
        }),
{
    law_merging_is_union(e.partitions, adds, t, p);
    lemma_lists(txn_state::merged(e.partitions, adds), t, p);
    lemma_lists(e.partitions, t, p);
    lemma_lists(adds, t, p);
}

/// After an AddOffsetsToTxn that is accepted the transaction is under way in
/// the same way, with the group behind those that it had.
pub proof fn law_added_group_is_under_way(e: EntryModel, group: Seq<char>, now_ms: i64, g: Seq<char>, commit: bool)
    ensures
        ({
            let a = txn_state::with_group(e, group, now_ms);
            &&& a.state == TxnState::Ongoing
            &&& e.state == TxnState::Ongoing ==> a.since == e.since
            &&& e.state != TxnState::Ongoing ==> a.since == now_ms
            &&& a.groups.contains(g) <==> e.groups.contains(g) || g == group
            &&& e.groups.is_prefix_of(a.groups)
            &&& e.groups.no_duplicates() ==> a.groups.no_duplicates()
            &&& a.partitions == e.partitions
            &&& a.pid == e.pid
            &&& a.epoch == e.epoch
            &&& a.timeout == e.timeout
            &&& txn_state::prepare(a, commit) matches Ok((n, owed)) && owed.fired && owed.partitions == e.partitions && owed.groups
                == a.groups && (commit ==> n.state == TxnState::PrepareCommit) && (!commit ==> n.state == TxnState::PrepareAbort)
        }),
{
    let a = txn_state::with_group(e, group, now_ms);
    if !e.groups.contains(group) {
        assert(a.groups[e.groups.len() as int] == group);
        assert forall|x: Seq<char>| e.groups.contains(x) implies a.groups.contains(x) by {
            let i = choose|i: int| 0 <= i < e.groups.len() && e.groups[i] == x;
            assert(a.groups[i] == x);
        }
        if a.groups.contains(g) && g != group {
            let i = choose|i: int| 0 <= i < a.groups.len() && a.groups[i] == g;
            assert(e.groups[i] == g);
        }
        if e.groups.no_duplicates() {
            assert forall|i: int, j: int| 0 <= i < a.groups.len() && 0 <= j < a.groups.len() && i != j implies a.groups[i] != a.groups[j] by {
                if i < e.groups.len() {
                    assert(e.groups[i] != group);
                }
                if j < e.groups.len() {
                    assert(e.groups[j] != group);
                }
            }
        }
    }
}

/// Partitions are listed in the order in which they came: every topic keeps
/// its place, with its partitions first and those that were added behind them.
pub proof fn law_lists_grow_at_the_end(parts: Seq<TopicParts>, adds: Seq<TopicParts>, i: int)
    requires
        0 <= i < parts.len(),
    ensures
        txn_state::merged(parts, adds).len() >= parts.len(),
        txn_state::merged(parts, adds)[i].topic == parts[i].topic,
        parts[i].partitions.is_prefix_of(txn_state::merged(parts, adds)[i].partitions),
    decreases adds.len(),
{
    if adds.len() > 0 {
        let d = adds.drop_last();
        law_lists_grow_at_the_end(parts, d, i);
        let m = txn_state::merged(parts, d);
        let a = adds.last();
        txn_state::lemma_topic_index(m, a.topic);
        match txn_state::topic_index(m, a.topic) {
            Some(k) => {
                lemma_numbers_grow(m, a.topic, m[k].partitions, a.partitions);
            },
            None => {},
        }
    }
}

proof fn lemma_numbers_grow(parts: Seq<TopicParts>, topic: Seq<char>, list: Seq<i32>, more: Seq<i32>)
    ensures
        list.is_prefix_of(txn_state::with_numbers(parts, topic, list, more)),
    decreases more.len(),
{
    if more.len() > 0 {
        lemma_numbers_grow(parts, topic, list, more.drop_last());
    }
}

/// A request is served for the producer that registered last, under its epoch;
/// another producer is not known, and another epoch of this one is fenced.
pub proof fn law_only_the_last_registration_is_served(e: EntryModel, timeout: i32, fresh: i64, pid: i64, epoch: i16)
    ensures
        txn_state::admitted(None, pid, epoch) == Err::<EntryModel, TxnStateError>(TxnStateError::UnknownProducer),
        txn_state::admitted(Some(e), pid, epoch) == (if pid != e.pid {
            Err::<EntryModel, TxnStateError>(TxnStateError::UnknownProducer)
        } else if epoch != e.epoch {
            Err(TxnStateError::EpochFenced)
        } else {
            Ok(e)
        }),
        ({
            let r = txn_state::registered(Some(e), timeout, fresh);
            txn_state::admitted(Some(r), r.pid, r.epoch) == Ok::<EntryModel, TxnStateError>(r)
        }),
{
}

/// Registering: a first call gets epoch zero of the new producer id, with
/// nothing under way. Another call gets the next epoch of the same id, and
/// what was under way stays with it; after the last epoch it starts over with
/// a new id and nothing under way. A timeout is kept unless another is given.
pub proof fn law_registration(e: EntryModel, timeout: i32, fresh: i64)
    ensures
        txn_state::needs_pid(None),
        txn_state::needs_pid(Some(e)) <==> e.epoch == 32767,
        ({
            let r = txn_state::registered(None, timeout, fresh);
            &&& r.pid == fresh && r.epoch == 0 && r.state == TxnState::Empty && r.since == 0
            &&& r.partitions.len() == 0 && r.groups.len() == 0
            &&& r.timeout == (if timeout > 0 { timeout as int } else { 0 })
        }),
        ({
            let r = txn_state::registered(Some(e), timeout, fresh);
            &&& r.timeout == (if timeout > 0 { timeout } else { e.timeout })
            &&& e.epoch == 32767 ==> r.pid == fresh && r.epoch == 0 && r.state == TxnState::Empty && r.since == 0
                && r.partitions.len() == 0 && r.groups.len() == 0
            &&& e.epoch < 32767 ==> r.pid == e.pid && r.epoch == e.epoch + 1 && r.state == e.state && r.since == e.since
                && r.partitions == e.partitions && r.groups == e.groups
        }),
{
}

/// What the first half of EndTxn comes to from each state. A transaction that
/// is under way is prepared for the outcome asked for; one that is prepared or
/// complete for that outcome stays as it is, and the latter owes nothing; all
/// else is refused. What is owed is what the transaction lists.
pub proof fn law_first_half_of_the_end(e: EntryModel, commit: bool)
    ensures
        ({
            let refused = Err::<(EntryModel, txn_state::OutcomeModel), TxnStateError>(TxnStateError::InvalidState);
            let r = txn_state::prepare(e, commit);
            match e.state {
                TxnState::Empty => r == refused,
                TxnState::Ongoing => r matches Ok((n, o)) && n.state == (if commit {
                    TxnState::PrepareCommit
                } else {
                    TxnState::PrepareAbort
                }) && n.since == 0 && o.fired && o.partitions == e.partitions && o.groups == e.groups && n.partitions == e.partitions
                    && n.groups == e.groups && n.pid == e.pid && n.epoch == e.epoch && n.timeout == e.timeout,
                TxnState::PrepareCommit => if commit {
                    r matches Ok((n, o)) && n == e && o.fired && o.partitions == e.partitions && o.groups == e.groups
                } else {
                    r == refused
                },
                TxnState::PrepareAbort => if commit {
                    r == refused
                } else {
                    r matches Ok((n, o)) && n == e && o.fired && o.partitions == e.partitions && o.groups == e.groups
                },
                TxnState::CompleteCommit => if commit {
                    r matches Ok((n, o)) && n == e && !o.fired && o.partitions.len() == 0 && o.groups.len() == 0
                } else {
                    r == refused
                },
                TxnState::CompleteAbort => if commit {
                    r == refused
                } else {
                    r matches Ok((n, o)) && n == e && !o.fired && o.partitions.len() == 0 && o.groups.len() == 0
                },
            }
        }),
{
}

/// What the second half comes to: only what was prepared for the outcome
/// completes with it, its lists are dropped, and each group that it listed is
/// told of the outcome under the producer's id, in their order.
pub proof fn law_second_half_of_the_end(e: EntryModel, commit: bool, i: int)
    ensures
        ({
            let r = txn_state::complete(e, commit);
            let ready = if commit { TxnState::PrepareCommit } else { TxnState::PrepareAbort };
            let done = if commit { TxnState::CompleteCommit } else { TxnState::CompleteAbort };
            &&& e.state == ready ==> (r matches Ok((n, calls)) && n.state == done && n.partitions.len() == 0 && n.groups.len() == 0
                && n.since == 0 && n.pid == e.pid && n.epoch == e.epoch && n.timeout == e.timeout && calls.len() == e.groups.len() && (0
                <= i < calls.len() ==> calls[i].group_id == e.groups[i] && calls[i].producer_id == e.pid && calls[i].commit == commit))
            &&& e.state == done ==> (r matches Ok((n, calls)) && n == e && calls.len() == 0)
            &&& e.state != ready && e.state != done ==> r == Err::<(EntryModel, Seq<txn_state::SignalModel>), TxnStateError>(
                TxnStateError::InvalidState,
            )
        }),
{
}

/// Transactions of a producer follow each other with nothing carried over: one
/// that begins once another is complete lists what its own requests name, and
/// its end owes that and nothing else.
pub proof fn law_next_transaction_starts_clean(
    e: EntryModel,
    commit: bool,
    adds: Seq<TopicParts>,
    now_ms: i64,
    again: bool,
    t: Seq<char>,
    p: i32,
)
    requires
        e.state == (if commit {
            TxnState::PrepareCommit
        } else {
            TxnState::PrepareAbort
        }),
    ensures
        ({
            let done = txn_state::complete(e, commit)->Ok_0.0;
            let next = txn_state::with_partitions(done, adds, now_ms);
            &&& next.since == now_ms
            &&& txn_state::prepare(next, again) matches Ok((n, o)) && o.fired && o.groups.len() == 0 && (lists(o.partitions, t, p) <==> lists(
                adds,
                t,
                p,
            ))
        }),
{
    let done = txn_state::complete(e, commit)->Ok_0.0;
    law_added_partitions_are_under_way(done, adds, now_ms, t, p, again);
}

/// A transaction that is prepared waits for its second half: a request to add
/// to it would find it prepared, until it is complete.
pub proof fn law_prepared_until_complete(e: EntryModel, adds: Seq<TopicParts>, now_ms: i64, commit: bool)
    ensures
        txn_state::prepared(e) <==> e.state == TxnState::PrepareCommit || e.state == TxnState::PrepareAbort,
        !txn_state::prepared(txn_state::with_partitions(e, adds, now_ms)),
        e.state == TxnState::Ongoing ==> txn_state::prepared(txn_state::prepare(e, commit)->Ok_0.0),
        txn_state::complete(e, commit) matches Ok((n, calls)) ==> !txn_state::prepared(n),
        txn_state::prepared(txn_state::reaped(e)),
{
}

/// A transaction runs out of time when it has been under way for as long as
/// its timeout; it must have one, and a start. The abort that is reported
/// names the producer, the epoch that is fenced, the one after it and the
/// groups.
pub proof fn law_out_of_time(e: EntryModel, id: Seq<char>, owned: Option<Seq<Seq<char>>>, now_ms: i64)
    ensures
        txn_state::reaps(e, owned, id, now_ms) <==> e.state == TxnState::Ongoing && e.since != 0 && e.timeout > 0 && now_ms - e.since
            >= e.timeout && (owned matches Some(ids) ==> exists|i: int| 0 <= i < ids.len() && #[trigger] ids[i] == id),
        ({
            let a = txn_state::abort_record(id, e);
            &&& a.txn_id == id
            &&& a.pid == e.pid
            &&& a.old_epoch == e.epoch
            &&& a.new_epoch == (if e.epoch == 32767 { 0int } else { e.epoch + 1 })
            &&& a.groups == e.groups
            &&& txn_state::reaped(e).epoch == a.new_epoch
            &&& txn_state::reaped(e).pid == e.pid
            &&& txn_state::reaped(e).timeout == e.timeout
            &&& txn_state::reaped(e).since == 0
        }),
{
    if let Some(ids) = owned {
        if ids.contains(id) {
            let i = choose|i: int| 0 <= i < ids.len() && ids[i] == id;
            assert(ids[i] == id);
        }
    }
}

/// The slots with an abort in them, and those that were to be written before,
/// are to be written after a sweep.
pub proof fn law_swept_slots_are_written(s: StoreModel, owned: Option<Seq<Seq<char>>>, now_ms: i64, k: int)
    requires
        s.wf(),
        0 <= k < s.slots.len(),
    ensures
        txn_state::swept_store(s, owned, now_ms).dirty[k] <==> s.dirty[k] || exists|id: Seq<char>|
            #[trigger] s.slots[k].contains_key(id) && txn_state::reaps(s.slots[k][id], owned, id, now_ms),
{
    law_sweep_reports_each_overdue_entry_once(s, owned, now_ms, k);
    let m = s.slots[k];
    let due = order::in_order(m.dom()).filter(is_due(m, owned, now_ms));
    if due.len() > 0 {
        assert(due.contains(due[0]));
        assert(s.slots[k].contains_key(due[0]));
    }
    if exists|id: Seq<char>| #[trigger] s.slots[k].contains_key(id) && txn_state::reaps(s.slots[k][id], owned, id, now_ms) {
        let id = choose|id: Seq<char>| #[trigger] s.slots[k].contains_key(id) && txn_state::reaps(s.slots[k][id], owned, id, now_ms);
        assert(due.contains(id));
    }
}

/// A dispatch that is reported names the transaction, its producer and epoch,
/// the outcome that it was prepared for, and the partitions that it lists.
pub proof fn law_dispatch_is_of_its_transaction(id: Seq<char>, e: EntryModel)
    ensures
        ({
            let d = txn_state::pending_of(id, e);
            &&& d.txn_id == id
            &&& d.pid == e.pid
            &&& d.epoch == e.epoch
            &&& d.partitions == e.partitions
            &&& d.commit <==> e.state == TxnState::PrepareCommit
        }),
        txn_state::awaits(e, true) <==> (e.state == TxnState::PrepareCommit || e.state == TxnState::PrepareAbort) && e.partitions.len() > 0,
        txn_state::awaits(e, false) <==> (e.state == TxnState::PrepareCommit || e.state == TxnState::PrepareAbort) && e.partitions.len() == 0,
{
}

/// The hash of an id takes in one byte after the other, beginning with the
/// offset basis; the slot is what it leaves over the number of slots.
pub proof fn law_slot_goes_by_the_hash(bytes: Seq<u8>, b: u8, id: Seq<char>, n: int)
    requires
        n > 0,
    ensures
        txn_state::fnv1a(Seq::empty()) == 2166136261,
        txn_state::fnv1a(bytes.push(b)) == ((txn_state::fnv1a(bytes) ^ (b as u32)) * 16777619) % 4294967296,
        txn_state::slot_index(id, n) == txn_state::fnv1a(vstd::utf8::encode_utf8(id)) as int % n,
{
    assert(bytes.push(b).drop_last() =~= bytes);
}

/// A slot that is put holds the entry under its id and keeps the rest; it is
/// to be written, and no other slot is touched.
pub proof fn law_entry_is_put_in_its_slot(s: StoreModel, id: Seq<char>, e: EntryModel, k: int, other: Seq<char>)
    requires
        s.wf(),
        0 <= k < s.slots.len(),
    ensures
        ({
            let after = s.with_entry(id, e);
            let at = txn_state::slot_index(id, s.slots.len() as int);
            &&& after.slots.len() == s.slots.len()
            &&& k != at ==> after.slots[k] == s.slots[k] && after.dirty[k] == s.dirty[k]
            &&& k == at ==> after.dirty[k] && after.slots[k].contains_key(id) && after.slots[k][id] == e
            &&& other != id ==> after.slots[k].contains_key(other) == s.slots[k].contains_key(other)
            &&& other != id && s.slots[k].contains_key(other) ==> after.slots[k][other] == s.slots[k][other]
        }),
{
    txn_state::lemma_slot_range(id, s.slots.len() as int);
}

/// A snapshot holds every entry of every slot, and nothing else.
pub proof fn law_snapshot_holds_every_entry(slots: Seq<Map<Seq<char>, EntryModel>>, n: int, id: Seq<char>)
    requires
        0 <= n <= slots.len(),
    ensures
        txn_state::all_entries(slots, n).contains_key(id) <==> exists|k: int| 0 <= k < n && #[trigger] slots[k].contains_key(id),
        txn_state::all_entries(slots, n).contains_key(id) ==> exists|k: int|
            0 <= k < n && #[trigger] slots[k].contains_key(id) && txn_state::all_entries(slots, n)[id] == slots[k][id],
    decreases n,
{
    if n > 0 {
        law_snapshot_holds_every_entry(slots, n - 1, id);
        if slots[n - 1].contains_key(id) {
            assert(slots[n - 1].contains_key(id));
        } else if txn_state::all_entries(slots, n).contains_key(id) {
            let k = choose|k: int|
                0 <= k < n - 1 && #[trigger] slots[k].contains_key(id) && txn_state::all_entries(slots, n - 1)[id] == slots[k][id];
            assert(slots[k].contains_key(id) && txn_state::all_entries(slots, n)[id] == slots[k][id]);
        }
    }
}

} // verus!
