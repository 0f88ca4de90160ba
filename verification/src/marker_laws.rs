//! Which markers go where, in what order, and what a sweep completes.

use vstd::prelude::*;
use crate::order;
use crate::txn_markers;
use crate::txn_markers::{DispatchModel, Due, Ending, Owed};
use crate::txn_state;
use crate::txn_state::{EntryModel, PendingModel, StoreModel, TopicParts, TxnState};

verus! {

/// Every partition of every topic is owed a marker, one after the other.
pub proof fn law_partitions_are_owed_one_by_one(topics: Seq<TopicParts>, more: TopicParts, n: int)
    requires
        0 <= n < more.partitions.len(),
    ensures
        txn_markers::flattened(Seq::empty()).len() == 0,
        ({
            let before = txn_markers::flattened(topics);
            let all = txn_markers::flattened(topics.push(more));
            &&& all.len() == before.len() + more.partitions.len()
            &&& all.take(before.len() as int) == before
            &&& all[before.len() + n] == (more.topic, more.partitions[n])
        }),
{
    assert(topics.push(more).drop_last() =~= topics);
    let before = txn_markers::flattened(topics);
    let all = txn_markers::flattened(topics.push(more));
    assert(all.take(before.len() as int) =~= before);
}

/// A marker is appended here where nobody else leads its partition, in the
/// order in which they are owed.
pub proof fn law_own_markers_are_appended(self_id: Seq<char>, owed: Seq<Owed>, o: Owed)
    ensures
        txn_markers::local_places(self_id, Seq::empty()).len() == 0,
        o.leader is None || o.leader == Some(self_id) ==> txn_markers::local_places(self_id, owed.push(o)) == txn_markers::local_places(
            self_id,
            owed,
        ).push((o.topic, o.partition)),
        o.leader is Some && o.leader != Some(self_id) ==> txn_markers::local_places(self_id, owed.push(o)) == txn_markers::local_places(
            self_id,
            owed,
        ),
{
    reveal(Seq::filter);
    assert(owed.push(o).drop_last() =~= owed);
    let before = txn_markers::local_places(self_id, owed);
    let after = txn_markers::local_places(self_id, owed.push(o));
    if o.leader is None || o.leader == Some(self_id) {
        assert(after =~= before.push((o.topic, o.partition)));
    } else {
        assert(after =~= before);
    }
}

/// A leader is handed the partitions of a topic in the order in which they are
/// owed to it.
pub proof fn law_markers_of_a_leader_are_in_order(target: Seq<char>, topic: Seq<char>, owed: Seq<Owed>, o: Owed)
    ensures
        txn_markers::numbers_for(target, topic, Seq::empty()).len() == 0,
        o.leader == Some(target) && o.topic == topic ==> txn_markers::numbers_for(target, topic, owed.push(o))
            == txn_markers::numbers_for(target, topic, owed).push(o.partition),
        !(o.leader == Some(target) && o.topic == topic) ==> txn_markers::numbers_for(target, topic, owed.push(o))
            == txn_markers::numbers_for(target, topic, owed),
{
    reveal(Seq::filter);
    assert(owed.push(o).drop_last() =~= owed);
    let before = txn_markers::numbers_for(target, topic, owed);
    let after = txn_markers::numbers_for(target, topic, owed.push(o));
    if o.leader == Some(target) && o.topic == topic {
        assert(after =~= before.push(o.partition));
    } else {
        assert(after =~= before);
    }
}

/// One entry goes to each other leader, in the order of their names, and says
/// whose transaction ended and how.
pub proof fn law_entry_says_how_it_ended(e: Ending, self_id: Seq<char>, owed: Seq<Owed>, i: int, j: int)
    requires
        0 <= i < txn_markers::queue_entries(e, self_id, owed).len(),
    ensures
        ({
            let all = txn_markers::queue_entries(e, self_id, owed);
            let (to, m) = all[i];
            &&& m.transactional_id == e.txn_id
            &&& m.producer_id == e.pid
            &&& m.producer_epoch == e.epoch
            &&& m.commit == e.commit
            &&& m.coordinator_epoch == 0
            &&& to != self_id
            &&& i < j < all.len() ==> crate::text::text_less(to, all[j].0)
            &&& forall|t: int| 0 <= t < m.partitions.len() ==> (#[trigger] m.partitions[t]).partitions == txn_markers::numbers_for(
                to,
                m.partitions[t].topic,
                owed,
            ) && m.partitions[t].partitions.len() > 0
            &&& forall|t: int, u: int|
                0 <= t < u < m.partitions.len() ==> crate::text::text_less((#[trigger] m.partitions[t]).topic, (#[trigger] m.partitions[u]).topic)
        }),
{
    let all = txn_markers::queue_entries(e, self_id, owed);
    let (to, m) = all[i];
    txn_markers::law_markers_are_placed_as_often_as_owed(self_id, owed, to, Seq::empty(), 0);
    let ts = txn_markers::targets(self_id, owed);
    order::lemma_in_order_exists(owed.filter(txn_markers::is_peer(self_id)).map_values(txn_markers::leader_name()));
    assert(ts[i] == to);
    let by = txn_markers::led_by(to);
    let names = owed.filter(by).map_values(txn_markers::topic_name());
    order::lemma_in_order_exists(names);
    let topics = txn_markers::topics_for(to, owed);
    assert forall|t: int| 0 <= t < m.partitions.len() implies (#[trigger] m.partitions[t]).partitions == txn_markers::numbers_for(
        to,
        m.partitions[t].topic,
        owed,
    ) && m.partitions[t].partitions.len() > 0 by {
        let topic = topics[t];
        assert(topics.to_set().contains(topic));
        assert(names.contains(topic));
        let k = choose|k: int| 0 <= k < names.len() && names[k] == topic;
        let o = owed.filter(by)[k];
        assert(owed.filter(by).contains(o));
        order::lemma_filtered(owed, by, o);
        let of = txn_markers::led_in(to, topic);
        order::lemma_filtered(owed, of, o);
        assert(owed.filter(of).contains(o));
    }
}

/// A dispatch appends what is to be appended here, in order, then hands out the
/// entries, in order; where there is no queue it fails at the first entry.
pub proof fn law_dispatch_goes_in_order(d: DispatchModel)
    requires
        d.wf(),
    ensures
        d.failed ==> d.due() == Due::Finished(Err(15i16)),
        !d.failed && d.appended < d.local.len() ==> {
            &&& d.due() == Due::Append(d.local[d.appended as int].0, d.local[d.appended as int].1)
            &&& d.after(true).appended == d.appended + 1 && d.after(true).handed == d.handed && !d.after(true).failed
            &&& d.after(false).failed
        },
        !d.failed && d.appended == d.local.len() && d.handed < d.queued.len() ==> {
            &&& d.has_queue ==> d.due() == Due::Enqueue(d.handed) && d.after(true).handed == d.handed + 1 && d.after(true).appended
                == d.appended && !d.after(true).failed && d.after(false).failed
            &&& !d.has_queue ==> d.due() == Due::Finished(Err(15i16))
        },
        !d.failed && d.appended == d.local.len() && d.handed == d.queued.len() ==> d.due() == Due::Finished(Ok(())),
        d.after(true).local == d.local && d.after(true).queued == d.queued && d.after(true).has_queue == d.has_queue,
{
}

/// A dispatch starts with nothing done.
pub proof fn law_dispatch_starts_afresh(e: Ending, self_id: Seq<char>, owed: Seq<Owed>, has_queue: bool)
    ensures
        ({
            let d = txn_markers::dispatch(e, self_id, owed, has_queue);
            &&& d.local == txn_markers::local_places(self_id, owed)
            &&& d.queued == txn_markers::queue_entries(e, self_id, owed)
            &&& d.appended == 0 && d.handed == 0 && !d.failed && d.has_queue == has_queue
        }),
{
}

/// The sweep leaves a transaction alone where its markers are not placed, or
/// where its producer, its epoch or its state is no longer what was found. It
/// never touches another.
pub proof fn law_sweep_completes_what_was_found(s: StoreModel, p: PendingModel, placed: bool, e: EntryModel, other: Seq<char>)
    requires
        s.wf(),
        s.entry(p.txn_id) == Some(e),
        other != p.txn_id,
    ensures
        !placed ==> txn_markers::swept(s, p, placed) is None,
        e.pid != p.pid || e.epoch != p.epoch ==> txn_markers::swept(s, p, placed) is None,
        e.state == TxnState::Ongoing || e.state == TxnState::Empty ==> txn_markers::swept(s, p, placed) is None,
        p.commit && (e.state == TxnState::PrepareAbort || e.state == TxnState::CompleteAbort) ==> txn_markers::swept(s, p, placed) is None,
        !p.commit && (e.state == TxnState::PrepareCommit || e.state == TxnState::CompleteCommit) ==> txn_markers::swept(s, p, placed) is None,
        txn_markers::swept(s, p, placed) matches Some((t, calls)) ==> t.entry(other) == s.entry(other),
{
    if let Some((t, calls)) = txn_markers::swept(s, p, placed) {
        if t != s {
            let f = txn_state::complete(e, p.commit)->Ok_0.0;
            assert(t == s.with_entry(p.txn_id, f));
            assert(0 <= s.slot(p.txn_id) < s.slots.len());
            assert(0 <= s.slot(other) < s.slots.len());
        }
    }
}

/// The sweep takes one transaction after the other, each in what the ones
/// before it left, and counts those that it completes.
pub proof fn law_sweep_takes_one_after_the_other(s: StoreModel, pending: Seq<PendingModel>, placed: Seq<bool>, n: int)
    requires
        0 <= n < pending.len(),
    ensures
        txn_markers::swept_upto(s, pending, placed, 0).0 == s,
        txn_markers::swept_upto(s, pending, placed, 0).1 == 0,
        txn_markers::swept_upto(s, pending, placed, 0).2.len() == 0,
        ({
            let a = txn_markers::swept_upto(s, pending, placed, n);
            let b = txn_markers::swept_upto(s, pending, placed, n + 1);
            match txn_markers::swept(a.0, pending[n], placed[n]) {
                Some((t, calls)) => b.0 == t && b.1 == a.1 + 1 && b.2 == a.2 + calls,
                None => b == a,
            }
        }),
{
}

} // verus!
