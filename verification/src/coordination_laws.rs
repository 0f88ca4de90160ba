//! Who coordinates which group, from the brokers, the groups and what was
//! before.

use vstd::prelude::*;
use vstd::arithmetic::div_mod;
use vstd::utf8;
use crate::assignment;
use crate::assignment::{BrokerHealth, BrokerRow, GroupRow};
use crate::group_balancer;
use crate::group_hash;
use crate::txn_state;

verus! {

/// Whether row `j` is the last one of a broker.
pub open spec fn is_last_of(rows: Seq<BrokerRow>, j: int, id: Seq<char>) -> bool {
    0 <= j < rows.len() && rows[j].id == id && forall|n: int| j < n < rows.len() ==> (#[trigger] rows[n]).id != id
}

/// A broker is alive where the last row of it says so, and nowhere else.
pub proof fn law_last_row_tells_who_is_alive(rows: Seq<BrokerRow>, id: Seq<char>, j: int)
    ensures
        is_last_of(rows, j, id) ==> (assignment::alive_in(rows, id) <==> rows[j].health == BrokerHealth::Alive),
        (forall|n: int| 0 <= n < rows.len() ==> (#[trigger] rows[n]).id != id) ==> !assignment::alive_in(rows, id),
    decreases rows.len(),
{
    if rows.len() > 0 {
        let d = rows.drop_last();
        let last = rows.len() - 1;
        law_last_row_tells_who_is_alive(d, id, j);
        if is_last_of(rows, j, id) && j < last {
            assert(rows[last].id != id);
            assert forall|n: int| j < n < d.len() implies (#[trigger] d[n]).id != id by {
                assert(d[n] == rows[n]);
            }
            assert(is_last_of(d, j, id));
        }
        if forall|n: int| 0 <= n < rows.len() ==> (#[trigger] rows[n]).id != id {
            assert(rows[last].id != id);
            assert forall|n: int| 0 <= n < d.len() implies (#[trigger] d[n]).id != id by {
                assert(d[n] == rows[n]);
            }
        }
    }
}

/// Where nothing is written of a group it is coordinated by the broker in the
/// place that the hash of its name leaves over the number of registered
/// brokers, dead ones among them, where that broker is alive.
pub proof fn law_hash_names_the_coordinator(group: Seq<char>, rows: Seq<BrokerRow>)
    requires
        rows.len() > 0,
    ensures
        ({
            let at = txn_state::fnv1a(utf8::encode_utf8(group)) as int % rows.len() as int;
            &&& 0 <= at < rows.len()
            &&& assignment::alive_in(rows, rows[at].id) ==> group_hash::coordinator(group, rows) == Some(rows[at].id)
        }),
        group_hash::coordinator(group, Seq::empty()) is None,
{
    let n = rows.len() as int;
    let h = txn_state::fnv1a(utf8::encode_utf8(group)) as int;
    div_mod::lemma_mod_bound(h, n);
    let at = h % n;
    div_mod::lemma_small_mod(at as nat, n as nat);
}

/// Whether row `j` is the last one of a group.
pub open spec fn is_last_entry(rows: Seq<GroupRow>, j: int, g: Seq<char>) -> bool {
    0 <= j < rows.len() && rows[j].group_id == g && forall|n: int| j < n < rows.len() ==> (#[trigger] rows[n]).group_id != g
}

pub open spec fn is_new(rows: Seq<GroupRow>, g: Seq<char>) -> bool {
    forall|n: int| 0 <= n < rows.len() ==> (#[trigger] rows[n]).group_id != g
}

proof fn lemma_entry(rows: Seq<GroupRow>, j: int, g: Seq<char>)
    ensures
        is_last_entry(rows, j, g) ==> group_balancer::entry_of(rows, g) == Some(rows[j]),
        is_new(rows, g) ==> group_balancer::entry_of(rows, g) is None,
    decreases rows.len(),
{
    if rows.len() > 0 {
        let d = rows.drop_last();
        let last = rows.len() - 1;
        lemma_entry(d, j, g);
        if is_last_entry(rows, j, g) && j < last {
            assert(rows[last].group_id != g);
            assert forall|n: int| j < n < d.len() implies (#[trigger] d[n]).group_id != g by {
                assert(d[n] == rows[n]);
            }
            assert(is_last_entry(d, j, g));
        }
        if is_new(rows, g) {
            assert(rows[last].group_id != g);
            assert forall|n: int| 0 <= n < d.len() implies (#[trigger] d[n]).group_id != g by {
                assert(d[n] == rows[n]);
            }
        }
    }
}

/// The entry of a group that is reported: the one that it had where its broker
/// is alive; else one for the broker that the hash names, with an epoch higher
/// by one, or one where it had none.
pub proof fn law_reported_group_stays_or_moves(prev: Seq<GroupRow>, brokers: Seq<BrokerRow>, groups: Seq<Seq<char>>, g: Seq<char>, j: int)
    requires
        brokers.len() > 0,
        groups.contains(g),
    ensures
        exists|i: int| 0 <= i < group_balancer::placed(prev, brokers, groups).len() && entry_is(
            prev,
            brokers,
            g,
            j,
            #[trigger] group_balancer::placed(prev, brokers, groups)[i],
        ),
{
    let rows = group_balancer::placed(prev, brokers, groups);
    let place = |x: Seq<char>| group_balancer::placed_row(prev, brokers, x);
    let here = group_balancer::first_ones(groups);
    group_balancer::lemma_first_ones(groups);
    assert(here.contains(g));
    let i = choose|i: int| 0 <= i < here.len() && here[i] == g;
    assert(rows[i] == here.map_values(place)[i]);
    assert(rows[i] == group_balancer::placed_row(prev, brokers, g));
    lemma_entry(prev, j, g);
    assert(entry_is(prev, brokers, g, j, rows[i]));
}

/// Whether a row is the entry that a group gets whose last row was `j`, or that
/// had none.
pub open spec fn entry_is(prev: Seq<GroupRow>, brokers: Seq<BrokerRow>, g: Seq<char>, j: int, row: GroupRow) -> bool {
    let hashed = match group_hash::coordinator(g, brokers) {
        Some(b) => b,
        None => Seq::empty(),
    };
    &&& is_last_entry(prev, j, g) && assignment::alive_in(brokers, prev[j].broker) ==> row == prev[j]
    &&& is_last_entry(prev, j, g) && !assignment::alive_in(brokers, prev[j].broker) ==> row.group_id == g && row.broker == hashed && (prev[j].epoch < u32::MAX
        ==> row.epoch == prev[j].epoch + 1)
    &&& is_new(prev, g) ==> row.group_id == g && row.broker == hashed && row.epoch == 1
}

/// A group that is not reported keeps its entry while its broker is alive, and
/// has none after that.
pub proof fn law_unreported_group_stays_or_goes(prev: Seq<GroupRow>, brokers: Seq<BrokerRow>, groups: Seq<Seq<char>>, g: Seq<char>, j: int)
    requires
        brokers.len() > 0,
        !groups.contains(g),
        is_last_entry(prev, j, g),
    ensures
        assignment::alive_in(brokers, prev[j].broker) ==> group_balancer::placed(prev, brokers, groups).contains(prev[j]),
        !assignment::alive_in(brokers, prev[j].broker) ==> is_new(group_balancer::placed(prev, brokers, groups), g),
{
    let rows = group_balancer::placed(prev, brokers, groups);
    lemma_entry(prev, j, g);
    group_balancer::law_one_entry_for_each_group(prev, brokers, groups, g);
    group_balancer::lemma_entry_of(rows, g);
    if !assignment::alive_in(brokers, prev[j].broker) {
        assert forall|n: int| 0 <= n < rows.len() implies (#[trigger] rows[n]).group_id != g by {
            if rows[n].group_id == g {
                lemma_has_entry(rows, n, g);
            }
        }
    }
}

proof fn lemma_has_entry(rows: Seq<GroupRow>, n: int, g: Seq<char>)
    requires
        0 <= n < rows.len(),
        rows[n].group_id == g,
    ensures
        group_balancer::entry_of(rows, g) is Some,
    decreases rows.len(),
{
    if rows.last().group_id != g {
        assert(rows.drop_last()[n] == rows[n]);
        lemma_has_entry(rows.drop_last(), n, g);
    }
}

/// The groups that are reported come first, each once and in the order in
/// which they are reported first; without brokers there are no entries.
pub proof fn law_entries_follow_the_reports(prev: Seq<GroupRow>, brokers: Seq<BrokerRow>, groups: Seq<Seq<char>>, more: Seq<char>)
    ensures
        group_balancer::placed(prev, Seq::empty(), groups).len() == 0,
        group_balancer::first_ones(Seq::empty()).len() == 0,
        groups.contains(more) ==> group_balancer::first_ones(groups.push(more)) == group_balancer::first_ones(groups),
        !groups.contains(more) ==> group_balancer::first_ones(groups.push(more)) == group_balancer::first_ones(groups).push(more),
        brokers.len() > 0 ==> group_balancer::placed(prev, brokers, groups).len() >= group_balancer::first_ones(groups).len(),
{
    assert(groups.push(more).drop_last() =~= groups);
}

} // verus!
