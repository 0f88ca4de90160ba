//! What a recomputed assignment says of the brokers, and what a change of it
//! asks of one of them.

use vstd::prelude::*;
use crate::assignment::{AssignmentModel, BrokerHealth, BrokerRow, PartitionRow};
use crate::assignment_writer;
use crate::assignment_writer::{InputsModel, LoopModel};
use crate::balancer;
use crate::balancer::TopicRow;
use crate::group_balancer;
use crate::order;
use crate::takeover;
use crate::takeover::{OpenPartition, OwnedRow};
use crate::text;

verus! {

/// Whether row `j` is the first one of a broker.
pub open spec fn is_first_of(rows: Seq<BrokerRow>, j: int, id: Seq<char>) -> bool {
    0 <= j < rows.len() && rows[j].id == id && forall|n: int| 0 <= n < j ==> (#[trigger] rows[n]).id != id
}

proof fn lemma_seen(rows: Seq<BrokerRow>, id: Seq<char>, i: int, j: int)
    requires
        0 <= i <= rows.len(),
    ensures
        is_first_of(rows, j, id) && i <= j ==> assignment_writer::seen_in(rows, id, i) == Some(rows[j].last_seen),
        (forall|n: int| i <= n < rows.len() ==> (#[trigger] rows[n]).id != id) ==> assignment_writer::seen_in(rows, id, i) is None,
    decreases rows.len() - i,
{
    if i < rows.len() {
        lemma_seen(rows, id, i + 1, j);
        if is_first_of(rows, j, id) && i < j {
            assert(rows[i].id != id);
        }
        if forall|n: int| i <= n < rows.len() ==> (#[trigger] rows[n]).id != id {
            assert(rows[i].id != id);
        }
    }
}

/// A row shows its broker as draining where it is registered and drains, else
/// as alive where it is alive, else as dead. It was seen now, unless it is dead
/// and has been seen before: then it keeps the time of the first row that it
/// had.
pub proof fn law_broker_row_tells_what_is_known(
    registered: Seq<Seq<char>>,
    alive: Seq<Seq<char>>,
    draining: Seq<Seq<char>>,
    now: Seq<char>,
    prev: Seq<BrokerRow>,
    i: int,
    j: int,
)
    requires
        0 <= i < assignment_writer::broker_list(registered, alive, draining, now, prev).len(),
    ensures
        ({
            let row = assignment_writer::broker_list(registered, alive, draining, now, prev)[i];
            let drains = registered.contains(row.id) && draining.contains(row.id);
            &&& drains ==> row.health == BrokerHealth::Draining
            &&& !drains && alive.contains(row.id) ==> row.health == BrokerHealth::Alive
            &&& !drains && !alive.contains(row.id) ==> row.health == BrokerHealth::Dead
            &&& row.health != BrokerHealth::Dead ==> row.last_seen == now
            &&& row.health == BrokerHealth::Dead && is_first_of(prev, j, row.id) ==> row.last_seen == prev[j].last_seen
            &&& (forall|n: int| 0 <= n < prev.len() ==> (#[trigger] prev[n]).id != row.id) ==> row.last_seen == now
        }),
{
    let row = assignment_writer::broker_list(registered, alive, draining, now, prev)[i];
    assignment_writer::law_no_broker_is_dropped(registered, alive, draining, now, prev, row.id);
    lemma_seen(prev, row.id, 0, j);
}

/// The rows of the brokers are in the order of their names, and no broker has
/// two where none is registered twice.
pub proof fn law_broker_rows_are_in_order(
    registered: Seq<Seq<char>>,
    alive: Seq<Seq<char>>,
    draining: Seq<Seq<char>>,
    now: Seq<char>,
    prev: Seq<BrokerRow>,
    i: int,
    j: int,
)
    requires
        0 <= i < j < assignment_writer::broker_list(registered, alive, draining, now, prev).len(),
    ensures
        ({
            let rows = assignment_writer::broker_list(registered, alive, draining, now, prev);
            &&& rows[i].id == rows[j].id || text::text_less(rows[i].id, rows[j].id)
            &&& registered.no_duplicates() ==> rows[i].id != rows[j].id
        }),
{
    let rows = assignment_writer::broker_list(registered, alive, draining, now, prev);
    let names = assignment_writer::listed(registered, alive);
    order::lemma_text_leq_total();
    names.lemma_sort_by_ensures(order::text_leq());
    let sorted = names.sort_by(order::text_leq());
    assert(rows[i].id == sorted[i] && rows[j].id == sorted[j]);
    assert(order::text_leq()(sorted[i], sorted[j]));
    if registered.no_duplicates() {
        lemma_listed_once(registered, alive);
        names.lemma_multiset_has_no_duplicates();
        assert(sorted.to_multiset() == names.to_multiset());
        sorted.lemma_multiset_has_no_duplicates_conv();
    }
}

proof fn lemma_listed_once(registered: Seq<Seq<char>>, alive: Seq<Seq<char>>)
    requires
        registered.no_duplicates(),
    ensures
        assignment_writer::listed(registered, alive).no_duplicates(),
    decreases alive.len(),
{
    if alive.len() > 0 {
        lemma_listed_once(registered, alive.drop_last());
    }
}

/// A recompute counts the version on by one, carries the epoch, the name and
/// the time of its controller, and places the partitions among the brokers that
/// are alive and the groups among all that are listed.
pub proof fn law_recompute_is_of_its_inputs(s: LoopModel, x: InputsModel)
    requires
        s.version < i64::MAX,
    ensures
        ({
            let t = assignment_writer::updated(s, x);
            let parts = match s.current {
                Some(a) => a.partitions,
                None => Seq::empty(),
            };
            let groups = match s.current {
                Some(a) => a.consumer_groups,
                None => Seq::empty(),
            };
            let brokers = match s.current {
                Some(a) => a.brokers,
                None => Seq::empty(),
            };
            let rows = assignment_writer::broker_list(x.registered, x.alive, x.draining, x.now, brokers);
            &&& t.version == s.version + 1
            &&& t.epoch == s.epoch && t.controller == s.controller && t.written == s.written
            &&& (t.current matches Some(a) && a.assignment_version == s.version + 1 && a.controller_epoch == s.epoch && a.controller
                == s.controller && a.generated_at == x.now && a.brokers == rows && a.partitions == balancer::balanced(
                parts,
                x.alive,
                x.topics,
                x.epoch_floor,
            ) && a.consumer_groups == group_balancer::placed(groups, rows, x.groups))
        }),
{
}

/// A new reign has its own epoch, takes over what is on disk where something
/// is, and counts on from the later of the two versions.
pub proof fn law_reign_takes_over_what_is_on_disk(s: LoopModel, epoch: i64, on_disk: Option<AssignmentModel>)
    ensures
        ({
            let t = assignment_writer::bootstrapped(s, epoch, on_disk);
            &&& t.epoch == epoch
            &&& t.controller == s.controller
            &&& t.version >= s.version
            &&& (on_disk matches Some(a) ==> t.current == Some(a) && t.written == Some(a) && t.version >= a.assignment_version && (t.version
                == s.version || t.version == a.assignment_version))
            &&& on_disk is None ==> t.current == s.current && t.written == s.written && t.version == s.version
        }),
{
}

/// A partition of the catalogue is looked up on disk exactly where the
/// assignment does not list it.
pub proof fn law_unlisted_partitions_are_looked_up(prev: Seq<PartitionRow>, topics: Seq<TopicRow>, t: int, p: i32)
    requires
        0 <= t < topics.len(),
        0 <= p < topics[t].partition_count,
    ensures
        assignment_writer::unassigned(prev, topics).contains((topics[t].name, p)) <==> forall|i: int|
            0 <= i < prev.len() ==> (#[trigger] prev[i]).topic != topics[t].name || prev[i].partition != p,
{
    let k = (topics[t].name, p);
    let listed = assignment_writer::assigned(prev, k.0, k.1);
    if listed {
        lemma_not_looked_up(prev, topics, k);
    } else {
        lemma_looked_up(prev, topics, t, p);
    }
    assert(listed <==> exists|i: int| 0 <= i < prev.len() && (#[trigger] prev[i]).topic == topics[t].name && prev[i].partition == p);
}

proof fn lemma_looked_up(prev: Seq<PartitionRow>, topics: Seq<TopicRow>, t: int, p: i32)
    requires
        0 <= t < topics.len(),
        0 <= p < topics[t].partition_count,
        !assignment_writer::assigned(prev, topics[t].name, p),
    ensures
        assignment_writer::unassigned(prev, topics).contains((topics[t].name, p)),
    decreases topics.len(),
{
    let k = (topics[t].name, p);
    let d = topics.drop_last();
    let a = assignment_writer::unassigned(prev, d);
    let b = assignment_writer::unassigned_from(prev, topics.last().name, 0, topics.last().partition_count as int);
    if t < d.len() {
        lemma_looked_up(prev, d, t, p);
        let i = choose|i: int| 0 <= i < a.len() && a[i] == k;
        assert((a + b)[i] == k);
    } else {
        lemma_found_from(prev, topics.last().name, 0, topics.last().partition_count as int, p);
        let i = choose|i: int| 0 <= i < b.len() && b[i] == k;
        assert((a + b)[a.len() + i] == k);
    }
}

proof fn lemma_found_from(prev: Seq<PartitionRow>, topic: Seq<char>, n: int, count: int, p: i32)
    requires
        0 <= n <= p < count <= i32::MAX,
        !assignment_writer::assigned(prev, topic, p),
    ensures
        assignment_writer::unassigned_from(prev, topic, n, count).contains((topic, p)),
    decreases count - n,
{
    let all = assignment_writer::unassigned_from(prev, topic, n, count);
    let rest = assignment_writer::unassigned_from(prev, topic, n + 1, count);
    if n == p {
        assert(all[0] == (topic, p));
    } else {
        lemma_found_from(prev, topic, n + 1, count, p);
        let i = choose|i: int| 0 <= i < rest.len() && rest[i] == (topic, p);
        if assignment_writer::assigned(prev, topic, n as i32) {
            assert(all[i] == (topic, p));
        } else {
            assert(all[i + 1] == (topic, p));
        }
    }
}

proof fn lemma_not_looked_up(prev: Seq<PartitionRow>, topics: Seq<TopicRow>, k: (Seq<char>, i32))
    requires
        assignment_writer::assigned(prev, k.0, k.1),
    ensures
        !assignment_writer::unassigned(prev, topics).contains(k),
    decreases topics.len(),
{
    if topics.len() > 0 {
        let d = topics.drop_last();
        lemma_not_looked_up(prev, d, k);
        lemma_not_found_from(prev, topics.last().name, 0, topics.last().partition_count as int, k);
        let a = assignment_writer::unassigned(prev, d);
        let b = assignment_writer::unassigned_from(prev, topics.last().name, 0, topics.last().partition_count as int);
        if (a + b).contains(k) {
            let i = choose|i: int| 0 <= i < (a + b).len() && (a + b)[i] == k;
            if i < a.len() {
                assert(a[i] == k);
            } else {
                assert(b[i - a.len()] == k);
            }
        }
    }
}

proof fn lemma_not_found_from(prev: Seq<PartitionRow>, topic: Seq<char>, n: int, count: int, k: (Seq<char>, i32))
    requires
        assignment_writer::assigned(prev, k.0, k.1),
    ensures
        !assignment_writer::unassigned_from(prev, topic, n, count).contains(k),
    decreases count - n,
{
    if n < count {
        lemma_not_found_from(prev, topic, n + 1, count, k);
        let all = assignment_writer::unassigned_from(prev, topic, n, count);
        let rest = assignment_writer::unassigned_from(prev, topic, n + 1, count);
        if all.contains(k) && !assignment_writer::assigned(prev, topic, n as i32) {
            let i = choose|i: int| 0 <= i < all.len() && all[i] == k;
            if i > 0 {
                assert(rest[i - 1] == k);
            }
        }
    }
}

/// Whether reading `j` is the last one of a partition that is above zero and
/// fits an epoch.
pub open spec fn is_last_reading(read: Seq<(Seq<char>, i32, i64)>, j: int, topic: Seq<char>, p: i32) -> bool {
    &&& 0 <= j < read.len() && read[j].0 == topic && read[j].1 == p && 0 < read[j].2 <= u32::MAX
    &&& forall|n: int| j < n < read.len() ==> !((#[trigger] read[n]).0 == topic && read[n].1 == p && 0 < read[n].2 <= u32::MAX)
}

/// The floor of a partition is its last reading that counts; one without such a
/// reading has none.
pub proof fn law_floor_is_the_last_reading(read: Seq<(Seq<char>, i32, i64)>, topic: Seq<char>, p: i32, j: int)
    ensures
        ({
            let m = assignment_writer::floors(read);
            let k = text::slash_key(topic, p as int);
            &&& is_last_reading(read, j, topic, p) ==> m.contains_key(k) && m[k] == read[j].2
            &&& (forall|n: int| 0 <= n < read.len() ==> !((#[trigger] read[n]).0 == topic && read[n].1 == p && 0 < read[n].2 <= u32::MAX))
                ==> !m.contains_key(k)
        }),
    decreases read.len(),
{
    let k = text::slash_key(topic, p as int);
    if read.len() > 0 {
        let d = read.drop_last();
        let last = read.len() - 1;
        law_floor_is_the_last_reading(d, topic, p, j);
        if text::slash_key(read[last].0, read[last].1 as int) == k {
            text::lemma_slash_key_injective(read[last].0, read[last].1 as int, topic, p as int);
        }
        if is_last_reading(read, j, topic, p) && j < last {
            assert(!(read[last].0 == topic && read[last].1 == p && 0 < read[last].2 <= u32::MAX));
            assert forall|n: int| j < n < d.len() implies !((#[trigger] d[n]).0 == topic && d[n].1 == p && 0 < d[n].2 <= u32::MAX) by {
                assert(d[n] == read[n]);
            }
            assert(is_last_reading(d, j, topic, p));
        }
        if forall|n: int| 0 <= n < read.len() ==> !((#[trigger] read[n]).0 == topic && read[n].1 == p && 0 < read[n].2 <= u32::MAX) {
            assert(!(read[last].0 == topic && read[last].1 == p && 0 < read[last].2 <= u32::MAX));
            assert forall|n: int| 0 <= n < d.len() implies !((#[trigger] d[n]).0 == topic && d[n].1 == p && 0 < d[n].2 <= u32::MAX) by {
                assert(d[n] == read[n]);
            }
        }
    }
}

/// Whether row `j` is the last one that gives a partition to a broker.
pub open spec fn is_last_given(parts: Seq<PartitionRow>, j: int, broker: Seq<char>, topic: Seq<char>, p: i32) -> bool {
    &&& 0 <= j < parts.len() && parts[j].broker == broker && parts[j].topic == topic && parts[j].partition == p
    &&& forall|n: int| j < n < parts.len() ==> !((#[trigger] parts[n]).broker == broker && parts[n].topic == topic && parts[n].partition == p)
}

/// A partition is led under the epoch of the last row that gives it to the
/// broker.
pub proof fn law_led_under_its_epoch(parts: Seq<PartitionRow>, broker: Seq<char>, topic: Seq<char>, p: i32, j: int)
    requires
        is_last_given(parts, j, broker, topic, p),
    ensures
        takeover::led_by(parts, broker).contains_key(text::slash_key(topic, p as int)),
        takeover::led_by(parts, broker)[text::slash_key(topic, p as int)] == (OwnedRow { topic, partition: p, epoch: parts[j].epoch }),
    decreases parts.len(),
{
    let d = parts.drop_last();
    let last = parts.len() - 1;
    if j < last {
        assert forall|n: int| j < n < d.len() implies !((#[trigger] d[n]).broker == broker && d[n].topic == topic && d[n].partition == p) by {
            assert(d[n] == parts[n]);
        }
        assert(d[j] == parts[j]);
        law_led_under_its_epoch(d, broker, topic, p, j);
        assert(!(parts[last].broker == broker && parts[last].topic == topic && parts[last].partition == p));
        if text::slash_key(parts[last].topic, parts[last].partition as int) == text::slash_key(topic, p as int) {
            text::lemma_slash_key_injective(parts[last].topic, parts[last].partition as int, topic, p as int);
        }
    }
}

/// A change asks to take over what is led now and was not, or was under another
/// epoch; and to give up what was led and is not any more. Nothing is both
/// taken and given up.
pub proof fn law_change_asks_for_the_difference(before: Map<Seq<char>, OwnedRow>, after: Map<Seq<char>, OwnedRow>, k: Seq<char>)
    ensures
        takeover::to_take(before, after).contains(k) <==> after.contains_key(k) && (before.contains_key(k) ==> before[k].epoch
            != after[k].epoch),
        takeover::to_give_up(before, after).contains(k) <==> before.contains_key(k) && !after.contains_key(k),
        !(takeover::to_take(before, after).contains(k) && takeover::to_give_up(before, after).contains(k)),
{
}

/// A takeover is tried again exactly where no open partition of that topic and
/// number is at the epoch or past it, or at one that nobody knows.
pub proof fn law_unfinished_takeover_is_tried_again(owned: Map<Seq<char>, OwnedRow>, open: Seq<OpenPartition>, k: Seq<char>)
    ensures
        takeover::to_redrive(owned, open).contains(k) <==> owned.contains_key(k) && forall|i: int|
            0 <= i < open.len() ==> !((#[trigger] open[i]).topic@ == owned[k].topic && open[i].partition == owned[k].partition && (
            open[i].epoch is None || open[i].epoch->0 >= owned[k].epoch)),
{
    if owned.contains_key(k) {
        if takeover::has_converged(open, owned[k]) {
            let i = choose|i: int|
                0 <= i < open.len() && (#[trigger] open[i]).topic@ == owned[k].topic && open[i].partition == owned[k].partition && (
                open[i].epoch matches Some(e) ==> e >= owned[k].epoch);
            assert(open[i].topic@ == owned[k].topic);
        }
    }
}

} // verus!
