//! Who leads which partition: what the balancer returns, from what it is given.

use vstd::prelude::*;
use vstd::utf8;
use crate::assignment::{PartitionRole, PartitionRow};
use crate::balancer;
use crate::balancer::{SlotRow, TopicRow};
use crate::balancer_laws;
use crate::balancer_laws::{all_placed, cluster_level, distinct_topics, same_partitions, topic_level};
use crate::hashing;
use crate::order;
use crate::text;

verus! {

/// Whether row `j` is the last that there is of a partition.
pub open spec fn is_last_row(prev: Seq<PartitionRow>, j: int, t: Seq<char>, p: i32) -> bool {
    0 <= j < prev.len() && prev[j].topic == t && prev[j].partition == p && forall|n: int|
        j < n < prev.len() ==> (#[trigger] prev[n]).topic != t || prev[n].partition != p
}

/// Whether there is no row of a partition.
pub open spec fn is_unlisted(prev: Seq<PartitionRow>, t: Seq<char>, p: i32) -> bool {
    forall|n: int| 0 <= n < prev.len() ==> (#[trigger] prev[n]).topic != t || prev[n].partition != p
}

proof fn lemma_last_row(prev: Seq<PartitionRow>, j: int, t: Seq<char>, p: i32)
    requires
        is_last_row(prev, j, t, p),
    ensures
        balancer::prev_entry(prev, t, p) == Some(prev[j]),
    decreases prev.len(),
{
    if j < prev.len() - 1 {
        let d = prev.drop_last();
        assert(prev[prev.len() - 1].topic != t || prev[prev.len() - 1].partition != p);
        assert forall|n: int| j < n < d.len() implies (#[trigger] d[n]).topic != t || d[n].partition != p by {
            assert(d[n] == prev[n]);
        }
        lemma_last_row(d, j, t, p);
    }
}

proof fn lemma_unlisted(prev: Seq<PartitionRow>, t: Seq<char>, p: i32)
    requires
        is_unlisted(prev, t, p),
    ensures
        balancer::prev_entry(prev, t, p) is None,
    decreases prev.len(),
{
    if prev.len() > 0 {
        let d = prev.drop_last();
        assert(prev[prev.len() - 1].topic != t || prev[prev.len() - 1].partition != p);
        assert forall|n: int| 0 <= n < d.len() implies (#[trigger] d[n]).topic != t || d[n].partition != p by {
            assert(d[n] == prev[n]);
        }
        lemma_unlisted(d, t, p);
    }
}

proof fn lemma_listed_or_not(prev: Seq<PartitionRow>, t: Seq<char>, p: i32) -> (j: int)
    ensures
        j >= 0 ==> is_last_row(prev, j, t, p),
        j < 0 ==> is_unlisted(prev, t, p),
    decreases prev.len(),
{
    if prev.len() == 0 {
        -1
    } else {
        let d = prev.drop_last();
        let last = prev.len() - 1;
        if prev[last].topic == t && prev[last].partition == p {
            last
        } else {
            let j = lemma_listed_or_not(d, t, p);
            assert forall|n: int| j < n < prev.len() && 0 <= n implies (#[trigger] prev[n]).topic != t || prev[n].partition != p by {
                if n < last {
                    assert(d[n] == prev[n]);
                }
            }
            if j >= 0 {
                assert(d[j] == prev[j]);
            }
            j
        }
    }
}

// Before placement.

/// A partition whose leader is alive enters the placement on that leader,
/// whatever became of the other partitions and brokers; one whose leader is
/// gone, or that never had one, enters it without.
pub proof fn law_live_leader_is_pinned(prev: Seq<PartitionRow>, alive: Seq<Seq<char>>, topics: Seq<TopicRow>, i: int, j: int)
    requires
        0 <= i < balancer::pinned(prev, alive, topics).len(),
    ensures
        ({
            let s = balancer::pinned(prev, alive, topics)[i];
            &&& is_last_row(prev, j, s.topic, s.partition) && alive.contains(prev[j].broker) ==> s.sticky && (prev[j].broker.len() > 0 ==> s.broker
                == Some(prev[j].broker))
            &&& is_last_row(prev, j, s.topic, s.partition) && !alive.contains(prev[j].broker) ==> !s.sticky && s.broker is None
            &&& is_unlisted(prev, s.topic, s.partition) ==> !s.sticky && s.broker is None
        }),
{
    balancer_laws::lemma_pinned(prev, alive, topics);
    let s = balancer::pinned(prev, alive, topics)[i];
    if is_last_row(prev, j, s.topic, s.partition) {
        lemma_last_row(prev, j, s.topic, s.partition);
    }
    if is_unlisted(prev, s.topic, s.partition) {
        lemma_unlisted(prev, s.topic, s.partition);
    }
}

/// Where the partitions of a topic stand in the catalogue.
pub open spec fn place_of(topics: Seq<TopicRow>, k: int) -> int
    decreases k,
{
    if k <= 0 {
        0
    } else {
        place_of(topics, k - 1) + (if topics[k - 1].partition_count > 0 {
            topics[k - 1].partition_count as int
        } else {
            0
        })
    }
}

proof fn lemma_pinned_places(prev: Seq<PartitionRow>, alive: Seq<Seq<char>>, topics: Seq<TopicRow>, k: int, p: int)
    ensures
        balancer::pinned(prev, alive, topics).len() == place_of(topics, topics.len() as int),
        0 <= k < topics.len() && 0 <= p < topics[k].partition_count ==> 0 <= place_of(topics, k) && place_of(topics, k) + p < balancer::pinned(
            prev,
            alive,
            topics,
        ).len() && balancer::pinned(prev, alive, topics)[place_of(topics, k) + p].topic == topics[k].name && balancer::pinned(prev, alive, topics)[place_of(
            topics,
            k,
        ) + p].partition == p,
    decreases topics.len(),
{
    if topics.len() > 0 {
        let d = topics.drop_last();
        lemma_pinned_places(prev, alive, d, k, p);
        lemma_same_places(topics, d, topics.len() - 1);
        let head = balancer::pinned(prev, alive, d);
        let all = balancer::pinned(prev, alive, topics);
        if 0 <= k < topics.len() && 0 <= p < topics[k].partition_count {
            if k < d.len() {
                lemma_same_places(topics, d, k);
                assert(d[k] == topics[k]);
                assert(all[place_of(topics, k) + p] == head[place_of(topics, k) + p]);
            } else {
                assert(place_of(topics, k) == head.len());
            }
        }
    }
}

proof fn lemma_same_places(a: Seq<TopicRow>, b: Seq<TopicRow>, k: int)
    requires
        a.len() > 0,
        b == a.drop_last(),
        k <= b.len(),
    ensures
        place_of(a, k) == place_of(b, k),
    decreases k,
{
    if k > 0 {
        lemma_same_places(a, b, k - 1);
        assert(a[k - 1] == b[k - 1]);
    }
}

/// There is one row for each partition of the catalogue, topic by topic in its
/// order and partition by partition, and none without a broker.
pub proof fn law_rows_follow_the_catalogue(
    prev: Seq<PartitionRow>,
    brokers: Seq<Seq<char>>,
    topics: Seq<TopicRow>,
    floor: Map<Seq<char>, u32>,
    k: int,
    p: int,
)
    ensures
        brokers.len() == 0 ==> balancer::balanced(prev, brokers, topics, floor).len() == 0,
        brokers.len() > 0 ==> {
            let rows = balancer::balanced(prev, brokers, topics, floor);
            &&& rows.len() == place_of(topics, topics.len() as int)
            &&& 0 <= k < topics.len() && 0 <= p < topics[k].partition_count ==> 0 <= place_of(topics, k) + p < rows.len() && rows[place_of(topics, k) + p].topic
                == topics[k].name && rows[place_of(topics, k) + p].partition == p && brokers.contains(rows[place_of(topics, k) + p].broker)
        },
{
    if brokers.len() > 0 {
        balancer_laws::law_every_partition_is_led(prev, brokers, topics, floor);
        lemma_pinned_places(Seq::empty(), brokers, topics, k, p);
    }
}

// From slots to rows.

proof fn lemma_row(prev: Seq<PartitionRow>, brokers: Seq<Seq<char>>, topics: Seq<TopicRow>, floor: Map<Seq<char>, u32>, i: int)
    requires
        0 <= i < balancer::balanced(prev, brokers, topics, floor).len(),
    ensures
        ({
            let alive = balancer::ordered(brokers);
            let slots = balancer::layout(prev, alive, topics);
            let row = balancer::balanced(prev, brokers, topics, floor)[i];
            &&& brokers.len() > 0
            &&& slots.len() == balancer::balanced(prev, brokers, topics, floor).len()
            &&& slots.len() == balancer::pinned(prev, alive, topics).len()
            &&& row == balancer::settled_row(prev, alive, floor, slots[i])
            &&& row.topic == slots[i].topic && row.partition == slots[i].partition && Some(row.broker) == slots[i].broker
            &&& row.topic == balancer::pinned(prev, alive, topics)[i].topic && row.partition == balancer::pinned(prev, alive, topics)[i].partition
            &&& alive.contains(row.broker) && brokers.contains(row.broker)
        }),
{
    let alive = balancer::ordered(brokers);
    balancer::lemma_ordered(brokers);
    balancer_laws::law_layout(prev, alive, topics);
    let slots = balancer::layout(prev, alive, topics);
    assert(slots[i].broker is Some);
    assert(balancer::pinned(prev, alive, topics)[i].topic == slots[i].topic);
    balancer_laws::lemma_settled_row(prev, alive, floor, slots[i]);
}

/// The epoch that a partition may not be led below.
pub open spec fn least_epoch(floor: Map<Seq<char>, u32>, t: Seq<char>, p: i32) -> int {
    let key = t.push('/') + text::int_text(p as int);
    if floor.contains_key(key) {
        floor[key] as int
    } else {
        0
    }
}

pub open spec fn greater(a: int, b: int) -> int {
    if a >= b {
        a
    } else {
        b
    }
}

/// The row of a partition is the one that it had where its leader stays and
/// its epoch is not too low. Else its epoch is by one higher than it was, or
/// one where it had none, and the least that is asked for where that is more.
pub proof fn law_row_stays_or_rises_by_one(
    prev: Seq<PartitionRow>,
    brokers: Seq<Seq<char>>,
    topics: Seq<TopicRow>,
    floor: Map<Seq<char>, u32>,
    i: int,
    j: int,
)
    requires
        0 <= i < balancer::balanced(prev, brokers, topics, floor).len(),
    ensures
        ({
            let row = balancer::balanced(prev, brokers, topics, floor)[i];
            let least = least_epoch(floor, row.topic, row.partition);
            &&& is_last_row(prev, j, row.topic, row.partition) ==> {
                let kept = prev[j].broker == row.broker && prev[j].epoch >= least;
                &&& kept ==> row == prev[j]
                &&& !kept && prev[j].epoch < u32::MAX ==> row.epoch == greater(prev[j].epoch + 1, least) && row.role == PartitionRole::Leader
            }
            &&& is_unlisted(prev, row.topic, row.partition) ==> row.epoch == greater(1, least) && row.role == PartitionRole::Leader
        }),
{
    lemma_row(prev, brokers, topics, floor, i);
    let row = balancer::balanced(prev, brokers, topics, floor)[i];
    if is_last_row(prev, j, row.topic, row.partition) {
        lemma_last_row(prev, j, row.topic, row.partition);
    }
    if is_unlisted(prev, row.topic, row.partition) {
        lemma_unlisted(prev, row.topic, row.partition);
    }
}

/// How many rows a broker leads.
pub open spec fn led_by(rows: Seq<PartitionRow>, b: Seq<char>) -> int
    decreases rows.len(),
{
    if rows.len() == 0 {
        0
    } else {
        led_by(rows.drop_last(), b) + (if rows.last().broker == b {
            1int
        } else {
            0
        })
    }
}

/// How many rows of a topic a broker leads.
pub open spec fn led_of(rows: Seq<PartitionRow>, t: Seq<char>, b: Seq<char>) -> int
    decreases rows.len(),
{
    if rows.len() == 0 {
        0
    } else {
        led_of(rows.drop_last(), t, b) + (if rows.last().broker == b && rows.last().topic == t {
            1int
        } else {
            0
        })
    }
}

proof fn lemma_led(rows: Seq<PartitionRow>, slots: Seq<SlotRow>, t: Seq<char>, b: Seq<char>)
    requires
        rows.len() == slots.len(),
        forall|i: int| 0 <= i < rows.len() ==> (#[trigger] rows[i]).topic == slots[i].topic && Some(rows[i].broker) == slots[i].broker,
    ensures
        led_by(rows, b) == balancer::total_on(slots, b),
        led_of(rows, t, b) == balancer::topic_on(slots, t, b),
    decreases rows.len(),
{
    if rows.len() > 0 {
        let r = rows.drop_last();
        let s = slots.drop_last();
        assert forall|i: int| 0 <= i < r.len() implies (#[trigger] r[i]).topic == s[i].topic && Some(r[i].broker) == s[i].broker by {
            assert(r[i] == rows[i]);
        }
        lemma_led(r, s, t, b);
        assert(balancer::brokers_of(slots).drop_last() =~= balancer::brokers_of(s));
        assert(balancer::spots_of(slots).drop_last() =~= balancer::spots_of(s));
        let last = slots.len() - 1;
        assert(rows[last].topic == slots[last].topic);
        assert(balancer::brokers_of(slots).last() == slots[last].broker);
        assert(balancer::spots_of(slots).last() == (slots[last].topic, slots[last].broker));
    }
}

/// The rows are level: of any two alive brokers neither leads more than one
/// partition more than the other, in all and of each topic.
pub proof fn law_rows_are_level(
    prev: Seq<PartitionRow>,
    brokers: Seq<Seq<char>>,
    topics: Seq<TopicRow>,
    floor: Map<Seq<char>, u32>,
    a: Seq<char>,
    b: Seq<char>,
    t: Seq<char>,
)
    requires
        brokers.contains(a),
        brokers.contains(b),
    ensures
        led_by(balancer::balanced(prev, brokers, topics, floor), a) <= led_by(balancer::balanced(prev, brokers, topics, floor), b) + 1,
        led_of(balancer::balanced(prev, brokers, topics, floor), t, a) <= led_of(balancer::balanced(prev, brokers, topics, floor), t, b) + 1,
{
    let alive = balancer::ordered(brokers);
    balancer::lemma_ordered(brokers);
    balancer_laws::law_layout(prev, alive, topics);
    let slots = balancer::layout(prev, alive, topics);
    let rows = balancer::balanced(prev, brokers, topics, floor);
    assert forall|i: int| 0 <= i < rows.len() implies (#[trigger] rows[i]).topic == slots[i].topic && Some(rows[i].broker) == slots[i].broker by {
        lemma_row(prev, brokers, topics, floor, i);
    }
    lemma_led(rows, slots, t, a);
    lemma_led(rows, slots, t, b);
    assert(topic_level(slots, alive, t));
    assert(balancer::topic_on(slots, t, a) <= balancer::topic_on(slots, t, b) + 1);
    assert(balancer::total_on(slots, a) <= balancer::total_on(slots, b) + 1);
}

// Who stays.

/// Where the partitions with live leaders, and the others as they are placed
/// beside them, are level already, every partition whose leader is alive keeps
/// it, and with it its row unless its epoch is too low: also where other
/// brokers have died.
pub proof fn law_live_leaders_stay(
    prev: Seq<PartitionRow>,
    brokers: Seq<Seq<char>>,
    topics: Seq<TopicRow>,
    floor: Map<Seq<char>, u32>,
    i: int,
    j: int,
)
    requires
        0 <= i < balancer::balanced(prev, brokers, topics, floor).len(),
        ({
            let alive = balancer::ordered(brokers);
            let placed = balancer::place_from(balancer::pinned(prev, alive, topics), alive, 0);
            cluster_level(placed, alive) && forall|t: Seq<char>| #[trigger] topic_level(placed, alive, t)
        }),
        ({
            let row = balancer::balanced(prev, brokers, topics, floor)[i];
            is_last_row(prev, j, row.topic, row.partition)
        }),
        brokers.contains(prev[j].broker),
        prev[j].broker.len() > 0,
    ensures
        ({
            let row = balancer::balanced(prev, brokers, topics, floor)[i];
            &&& row.broker == prev[j].broker
            &&& prev[j].epoch >= least_epoch(floor, row.topic, row.partition) ==> row == prev[j]
        }),
{
    let alive = balancer::ordered(brokers);
    balancer::lemma_ordered(brokers);
    lemma_row(prev, brokers, topics, floor, i);
    let slots = balancer::pinned(prev, alive, topics);
    let placed = balancer::place_from(slots, alive, 0);
    lemma_pins_alive(prev, alive, topics);
    balancer_laws::lemma_place_from(slots, alive, 0);
    balancer_laws::lemma_smoothed_fixed(placed, alive);
    balancer_laws::lemma_levelled_fixed(placed, alive);
    law_live_leader_is_pinned(prev, alive, topics, i, j);
    assert(slots[i].broker is Some);
    assert(placed[i] == slots[i]);
    law_row_stays_or_rises_by_one(prev, brokers, topics, floor, i, j);
}

proof fn lemma_pins_alive(prev: Seq<PartitionRow>, alive: Seq<Seq<char>>, topics: Seq<TopicRow>)
    ensures
        forall|i: int|
            0 <= i < balancer::pinned(prev, alive, topics).len() ==> ((#[trigger] balancer::pinned(prev, alive, topics)[i]).broker matches Some(b)
                ==> alive.contains(b)),
{
    balancer_laws::lemma_pinned(prev, alive, topics);
    let a = balancer::pinned(prev, alive, topics);
    assert forall|i: int| 0 <= i < a.len() implies ((#[trigger] a[i]).broker matches Some(b) ==> alive.contains(b)) by {
        assert(a[i] == balancer::pinned_slot(prev, alive, a[i].topic, a[i].partition));
    }
}

/// Whether a broker led a partition, by the last row that there is of it.
pub open spec fn was_led_by(prev: Seq<PartitionRow>, t: Seq<char>, p: i32, b: Seq<char>) -> bool {
    exists|j: int| #[trigger] is_last_row(prev, j, t, p) && prev[j].broker == b
}

/// How many of the first `n` partitions of a topic a broker led.
pub open spec fn held(prev: Seq<PartitionRow>, t: Seq<char>, n: int, b: Seq<char>) -> int
    decreases n,
{
    if n <= 0 {
        0
    } else {
        held(prev, t, n - 1, b) + (if was_led_by(prev, t, (n - 1) as i32, b) {
            1int
        } else {
            0
        })
    }
}

/// The death of brokers, or new partitions, take nothing from the living:
/// where no alive broker led more than its share of any topic, and at most one
/// topic leaves a remainder when it is shared out, every partition whose leader
/// is alive keeps it, and with it its row unless its epoch is too low.
pub proof fn law_nobody_loses_within_its_share(
    prev: Seq<PartitionRow>,
    brokers: Seq<Seq<char>>,
    topics: Seq<TopicRow>,
    floor: Map<Seq<char>, u32>,
    uneven: int,
    i: int,
    j: int,
)
    requires
        brokers.len() > 0,
        brokers.no_duplicates(),
        forall|n: int| 0 <= n < brokers.len() ==> (#[trigger] brokers[n]).len() > 0,
        distinct_topics(topics),
        forall|k: int| 0 <= k < topics.len() ==> (#[trigger] topics[k]).partition_count >= 0,
        forall|k: int| 0 <= k < topics.len() && k != uneven ==> (#[trigger] topics[k]).partition_count as int % brokers.len() as int == 0,
        forall|k: int, b: Seq<char>|
            0 <= k < topics.len() && brokers.contains(b) ==> #[trigger] held(prev, topics[k].name, topics[k].partition_count as int, b)
                <= topics[k].partition_count as int / brokers.len() as int,
        0 <= i < balancer::balanced(prev, brokers, topics, floor).len(),
        ({
            let row = balancer::balanced(prev, brokers, topics, floor)[i];
            is_last_row(prev, j, row.topic, row.partition)
        }),
        brokers.contains(prev[j].broker),
    ensures
        ({
            let row = balancer::balanced(prev, brokers, topics, floor)[i];
            &&& row.broker == prev[j].broker
            &&& prev[j].epoch >= least_epoch(floor, row.topic, row.partition) ==> row == prev[j]
        }),
{
    let alive = balancer::ordered(brokers);
    balancer::lemma_ordered(brokers);
    lemma_ordered_distinct(brokers);
    let slots = balancer::pinned(prev, alive, topics);
    let n = alive.len() as int;
    lemma_pins_alive(prev, alive, topics);
    assert forall|t: Seq<char>, b: Seq<char>| alive.contains(b) implies #[trigger] balancer::topic_on(slots, t, b) <= count_of_topic(slots, t) / n by {
        if exists|k: int| 0 <= k < topics.len() && (#[trigger] topics[k]).name == t {
            let k = choose|k: int| 0 <= k < topics.len() && (#[trigger] topics[k]).name == t;
            assert(b.len() > 0) by {
                assert(brokers.contains(b));
                let m = choose|m: int| 0 <= m < brokers.len() && brokers[m] == b;
                assert(brokers[m].len() > 0);
            }
            lemma_pinned_counts(prev, alive, topics, k, b);
            assert(held(prev, topics[k].name, topics[k].partition_count as int, b) <= topics[k].partition_count as int / n);
        } else {
            lemma_pinned_other(prev, alive, topics, t, b);
            assert(0int / n == 0) by (nonlinear_arith)
                requires
                    n > 0,
            ;
        }
    }
    lemma_place_shares(slots, alive, 0);
    let placed = balancer::place_from(slots, alive, 0);
    balancer_laws::lemma_place_from(slots, alive, 0);
    assert(balancer_laws::topic_seq(placed) =~= balancer_laws::topic_seq(slots)) by {
        assert forall|x: int| 0 <= x < slots.len() implies balancer_laws::topic_seq(placed)[x] == balancer_laws::topic_seq(slots)[x] by {
            assert(slots[x].topic == placed[x].topic);
        }
    }
    assert forall|t: Seq<char>| #[trigger] topic_level(placed, alive, t) by {
        lemma_shared_out(placed, alive, t);
    }
    assert(cluster_level(placed, alive)) by {
        let names = topics.map_values(|t: TopicRow| t.name);
        assert(names.no_duplicates()) by {
            assert forall|x: int, y: int| 0 <= x < names.len() && 0 <= y < names.len() && x != y implies names[x] != names[y] by {
                if x < y {
                    assert(topics[x].name != topics[y].name);
                } else {
                    assert(topics[y].name != topics[x].name);
                }
            }
        }
        balancer_laws::lemma_pinned(prev, alive, topics);
        assert forall|x: int| 0 <= x < placed.len() implies names.contains((#[trigger] placed[x]).topic) by {
            assert(slots[x].topic == placed[x].topic);
            let k = choose|k: int| 0 <= k < topics.len() && (#[trigger] topics[k]).name == slots[x].topic;
            assert(names[k] == placed[x].topic);
        }
        assert forall|a: Seq<char>, b: Seq<char>| alive.contains(a) && alive.contains(b) implies #[trigger] balancer::total_on(placed, a)
            <= #[trigger] balancer::total_on(placed, b) + 1 by {
            balancer_laws::lemma_total_is_sum(placed, names, a);
            balancer_laws::lemma_total_is_sum(placed, names, b);
            assert forall|k: int| 0 <= k < names.len() implies balancer::topic_on(placed, #[trigger] names[k], a) <= balancer::topic_on(placed, names[k], b) + (
            if k == uneven {
                1int
            } else {
                0
            }) by {
                assert(topic_level(placed, alive, names[k]));
                assert(balancer::topic_on(placed, names[k], a) <= balancer::topic_on(placed, names[k], b) + 1);
                if k != uneven {
                    assert(topics[k].partition_count as int % brokers.len() as int == 0);
                    lemma_pinned_counts(prev, alive, topics, k, a);
                    assert(topics[k].name == names[k]);
                    lemma_evenly_out(placed, alive, names[k]);
                }
            }
            lemma_sums(placed, names, a, b, uneven, names.len() as int);
            assert(names.take(names.len() as int) =~= names);
        }
    }
    lemma_row(prev, brokers, topics, floor, i);
    assert(prev[j].broker.len() > 0) by {
        let m = choose|m: int| 0 <= m < brokers.len() && brokers[m] == prev[j].broker;
        assert(brokers[m].len() > 0);
    }
    law_live_leaders_stay(prev, brokers, topics, floor, i, j);
}

pub open spec fn count_of_topic(slots: Seq<SlotRow>, t: Seq<char>) -> int {
    order::count_of(balancer_laws::topic_seq(slots), t) as int
}

proof fn lemma_ordered_distinct(brokers: Seq<Seq<char>>)
    requires
        brokers.no_duplicates(),
    ensures
        balancer::ordered(brokers).no_duplicates(),
{
    balancer::lemma_ordered(brokers);
    let s = balancer::ordered(brokers);
    brokers.lemma_multiset_has_no_duplicates();
    s.lemma_multiset_has_no_duplicates_conv();
}

proof fn lemma_count_add<K>(a: Seq<K>, b: Seq<K>, k: K)
    ensures
        order::count_of(a + b, k) == order::count_of(a, k) + order::count_of(b, k),
    decreases b.len(),
{
    if b.len() == 0 {
        assert(a + b =~= a);
    } else {
        lemma_count_add(a, b.drop_last(), k);
        assert((a + b).drop_last() =~= a + b.drop_last());
        assert((a + b).last() == b.last());
    }
}

/// A topic that the catalogue does not have is nowhere.
proof fn lemma_pinned_other(prev: Seq<PartitionRow>, alive: Seq<Seq<char>>, topics: Seq<TopicRow>, t: Seq<char>, b: Seq<char>)
    requires
        forall|k: int| 0 <= k < topics.len() ==> (#[trigger] topics[k]).name != t,
    ensures
        balancer::topic_on(balancer::pinned(prev, alive, topics), t, b) == 0,
        count_of_topic(balancer::pinned(prev, alive, topics), t) == 0,
{
    balancer_laws::lemma_pinned(prev, alive, topics);
    let slots = balancer::pinned(prev, alive, topics);
    let spots = balancer::spots_of(slots);
    let names = balancer_laws::topic_seq(slots);
    assert forall|x: int| 0 <= x < slots.len() implies (#[trigger] slots[x]).topic != t by {
        let k = choose|k: int| 0 <= k < topics.len() && (#[trigger] topics[k]).name == slots[x].topic;
        assert(topics[k].name != t);
    }
    lemma_count_none(spots, (t, Some(b)));
    lemma_count_none(names, t);
}

proof fn lemma_count_none<K>(s: Seq<K>, k: K)
    requires
        forall|x: int| 0 <= x < s.len() ==> #[trigger] s[x] != k,
    ensures
        order::count_of(s, k) == 0,
    decreases s.len(),
{
    if s.len() > 0 {
        assert(s[s.len() - 1] != k);
        assert forall|x: int| 0 <= x < s.drop_last().len() implies #[trigger] s.drop_last()[x] != k by {
            assert(s[x] != k);
        }
        lemma_count_none(s.drop_last(), k);
    }
}

/// What a broker holds of a topic before placement is what it led of it.
proof fn lemma_pinned_counts(prev: Seq<PartitionRow>, alive: Seq<Seq<char>>, topics: Seq<TopicRow>, k: int, b: Seq<char>)
    requires
        0 <= k < topics.len(),
        distinct_topics(topics),
        alive.contains(b),
        b.len() > 0,
        topics[k].partition_count >= 0,
    ensures
        balancer::topic_on(balancer::pinned(prev, alive, topics), topics[k].name, b) == held(prev, topics[k].name, topics[k].partition_count as int, b),
        count_of_topic(balancer::pinned(prev, alive, topics), topics[k].name) == topics[k].partition_count,
    decreases topics.len(),
{
    let d = topics.drop_last();
    let last = topics.last();
    let t = topics[k].name;
    let head = balancer::pinned(prev, alive, d);
    let tail = balancer::pinned_topic(prev, alive, last.name, last.partition_count as int);
    let all = balancer::pinned(prev, alive, topics);
    assert(balancer::spots_of(all) =~= balancer::spots_of(head) + balancer::spots_of(tail));
    assert(balancer_laws::topic_seq(all) =~= balancer_laws::topic_seq(head) + balancer_laws::topic_seq(tail));
    lemma_count_add(balancer::spots_of(head), balancer::spots_of(tail), (t, Some(b)));
    lemma_count_add(balancer_laws::topic_seq(head), balancer_laws::topic_seq(tail), t);
    assert(distinct_topics(d)) by {
        assert forall|x: int, y: int| 0 <= x < y < d.len() implies (#[trigger] d[x]).name != (#[trigger] d[y]).name by {
            assert(topics[x].name != topics[y].name);
        }
    }
    if k < d.len() {
        assert(d[k] == topics[k]);
        assert(topics[k].name != topics[topics.len() - 1].name);
        lemma_pinned_counts(prev, alive, d, k, b);
        lemma_count_none(balancer::spots_of(tail), (t, Some(b)));
        lemma_count_none(balancer_laws::topic_seq(tail), t);
    } else {
        assert forall|x: int| 0 <= x < d.len() implies (#[trigger] d[x]).name != t by {
            assert(topics[x].name != topics[k].name);
        }
        lemma_pinned_other(prev, alive, d, t, b);
        lemma_topic_counts(prev, alive, t, last.partition_count as int, b);
    }
}

proof fn lemma_topic_counts(prev: Seq<PartitionRow>, alive: Seq<Seq<char>>, t: Seq<char>, n: int, b: Seq<char>)
    requires
        0 <= n <= i32::MAX,
        alive.contains(b),
        b.len() > 0,
    ensures
        balancer::topic_on(balancer::pinned_topic(prev, alive, t, n), t, b) == held(prev, t, n, b),
        count_of_topic(balancer::pinned_topic(prev, alive, t, n), t) == n,
    decreases n,
{
    let all = balancer::pinned_topic(prev, alive, t, n);
    if n > 0 {
        lemma_topic_counts(prev, alive, t, n - 1, b);
        let d = balancer::pinned_topic(prev, alive, t, n - 1);
        assert(balancer::spots_of(all).drop_last() =~= balancer::spots_of(d));
        assert(balancer_laws::topic_seq(all).drop_last() =~= balancer_laws::topic_seq(d));
        let p = (n - 1) as i32;
        let s = balancer::pinned_slot(prev, alive, t, p);
        assert(all[n - 1] == s);
        assert(balancer::spots_of(all).last() == (t, s.broker));
        assert(balancer_laws::topic_seq(all).last() == t);
        let j = lemma_listed_or_not(prev, t, p);
        if j >= 0 {
            lemma_last_row(prev, j, t, p);
            if was_led_by(prev, t, p, b) {
                let m = choose|m: int| #[trigger] is_last_row(prev, m, t, p) && prev[m].broker == b;
                lemma_last_row(prev, m, t, p);
            }
            if prev[j].broker == b {
                assert(is_last_row(prev, j, t, p));
            }
        } else {
            lemma_unlisted(prev, t, p);
            if was_led_by(prev, t, p, b) {
                let m = choose|m: int| #[trigger] is_last_row(prev, m, t, p) && prev[m].broker == b;
                assert(prev[m].topic == t);
            }
        }
    }
}

/// Whether no broker holds more of a topic than its share and one, and one
/// holds more than its share only where all have theirs.
spec fn within_share(slots: Seq<SlotRow>, alive: Seq<Seq<char>>, t: Seq<char>) -> bool {
    let q = count_of_topic(slots, t) / alive.len() as int;
    &&& forall|b: Seq<char>| alive.contains(b) ==> #[trigger] balancer::topic_on(slots, t, b) <= q + 1
    &&& forall|a: Seq<char>, b: Seq<char>|
        alive.contains(a) && alive.contains(b) && #[trigger] balancer::topic_on(slots, t, a) > q ==> #[trigger] balancer::topic_on(slots, t, b) >= q
}

proof fn lemma_place_shares(slots: Seq<SlotRow>, alive: Seq<Seq<char>>, i: int)
    requires
        0 <= i <= slots.len(),
        alive.len() > 0,
        alive.no_duplicates(),
        forall|j: int| 0 <= j < slots.len() ==> ((#[trigger] slots[j]).broker matches Some(b) ==> alive.contains(b)),
        forall|t: Seq<char>| #[trigger] within_share(slots, alive, t) || forall|b: Seq<char>|
            alive.contains(b) ==> #[trigger] balancer::topic_on(slots, t, b) <= count_of_topic(slots, t) / alive.len() as int,
    ensures
        forall|t: Seq<char>| #[trigger] within_share(balancer::place_from(slots, alive, i), alive, t),
    decreases slots.len() - i,
{
    assert forall|t: Seq<char>| #[trigger] within_share(slots, alive, t) by {}
    if i < slots.len() {
        balancer_laws::lemma_place_at(slots, alive, i);
        let next = balancer::place_at(slots, alive, i);
        assert(balancer_laws::topic_seq(next) =~= balancer_laws::topic_seq(slots)) by {
            assert forall|x: int| 0 <= x < slots.len() implies balancer_laws::topic_seq(next)[x] == balancer_laws::topic_seq(slots)[x] by {
                assert(slots[x].topic == next[x].topic);
            }
        }
        if slots[i].broker is None {
            let t = slots[i].topic;
            let b = next[i].broker->0;
            let n = alive.len() as int;
            let total = count_of_topic(slots, t);
            let q = total / n;
            let better = balancer::better_place(slots, t, slots[i].partition);
            balancer_laws::lemma_picked_max(alive, better);
            balancer_laws::lemma_move_counts(slots, i, b);
            assert forall|y: Seq<char>| alive.contains(y) implies balancer::topic_on(slots, t, b) <= #[trigger] balancer::topic_on(slots, t, y) by {
                assert(!better(y, b));
            }
            assert(within_share(slots, alive, t));
            assert(balancer::topic_on(slots, t, b) <= q) by {
                if balancer::topic_on(slots, t, b) > q {
                    balancer_laws::lemma_sum_bounds(slots, alive, t, q + 1);
                    lemma_sum_below(slots, alive, t, i);
                    assert((q + 1) * n > total) by (nonlinear_arith)
                        requires
                            q == total / n,
                            n > 0,
                    ;
                }
            }
            assert forall|u: Seq<char>| #[trigger] within_share(next, alive, u) by {
                assert(within_share(slots, alive, u));
                if u == t {
                    assert forall|a: Seq<char>, c: Seq<char>|
                        alive.contains(a) && alive.contains(c) && #[trigger] balancer::topic_on(next, t, a) > q implies #[trigger] balancer::topic_on(next, t, c) >= q by {
                        assert(balancer::topic_on(slots, t, b) <= balancer::topic_on(slots, t, c));
                        assert(balancer::topic_on(slots, t, b) <= balancer::topic_on(slots, t, a));
                        if balancer::topic_on(slots, t, a) > q {
                            assert(balancer::topic_on(slots, t, c) >= q);
                        }
                    }
                } else {
                    assert forall|c: Seq<char>| #[trigger] balancer::topic_on(next, u, c) == balancer::topic_on(slots, u, c) by {}
                }
            }
        }
        assert forall|j: int| 0 <= j < next.len() implies ((#[trigger] next[j]).broker matches Some(b) ==> alive.contains(b)) by {
            if j != i {
                assert(next[j] == slots[j]);
            }
        }
        lemma_place_shares(next, alive, i + 1);
        assert(balancer::place_from(slots, alive, i) == balancer::place_from(next, alive, i + 1));
    } else {
        assert(balancer::place_from(slots, alive, i) == slots);
    }
}

/// While a partition of a topic has no broker, the brokers hold fewer of it
/// than there are.
proof fn lemma_sum_below(slots: Seq<SlotRow>, alive: Seq<Seq<char>>, t: Seq<char>, i: int)
    requires
        alive.no_duplicates(),
        0 <= i < slots.len(),
        slots[i].topic == t,
        slots[i].broker is None,
    ensures
        balancer_laws::sum_on(slots, alive, t) < count_of_topic(slots, t),
{
    let keys = Seq::new(alive.len(), |x: int| (t, Some(alive[x])));
    assert(keys.no_duplicates()) by {
        assert forall|x: int, y: int| 0 <= x < keys.len() && 0 <= y < keys.len() && x != y implies keys[x] != keys[y] by {
            assert(alive[x] != alive[y]);
        }
    }
    order::lemma_sum_counts(balancer::spots_of(slots), keys);
    balancer_laws::lemma_sum_on(slots, alive, t, alive.len() as int, keys);
    assert(keys.take(alive.len() as int) =~= keys);
    assert(alive.take(alive.len() as int) =~= alive);
    lemma_fewer_spots(slots, t, keys, slots.len() as int, i);
    assert(balancer::spots_of(slots).take(slots.len() as int) =~= balancer::spots_of(slots));
    assert(balancer_laws::topic_seq(slots).take(slots.len() as int) =~= balancer_laws::topic_seq(slots));
}

proof fn lemma_fewer_spots(slots: Seq<SlotRow>, t: Seq<char>, keys: Seq<(Seq<char>, Option<Seq<char>>)>, n: int, i: int)
    requires
        0 <= n <= slots.len(),
        0 <= i < slots.len(),
        slots[i].topic == t,
        slots[i].broker is None,
        forall|x: int| 0 <= x < keys.len() ==> (#[trigger] keys[x]).0 == t && keys[x].1 is Some,
    ensures
        order::count_if(balancer::spots_of(slots).take(n), order::in_list(keys)) + (if i < n {
            1int
        } else {
            0
        }) <= order::count_of(balancer_laws::topic_seq(slots).take(n), t),
    decreases n,
{
    let spots = balancer::spots_of(slots);
    let names = balancer_laws::topic_seq(slots);
    if n > 0 {
        lemma_fewer_spots(slots, t, keys, n - 1, i);
        assert(spots.take(n).drop_last() =~= spots.take(n - 1));
        assert(names.take(n).drop_last() =~= names.take(n - 1));
        let s = slots[n - 1];
        assert(spots.take(n).last() == (s.topic, s.broker));
        assert(names.take(n).last() == s.topic);
        if keys.contains((s.topic, s.broker)) {
            let x = choose|x: int| 0 <= x < keys.len() && keys[x] == (s.topic, s.broker);
            assert(keys[x].0 == t && keys[x].1 is Some);
        }
    }
}

/// A topic that is shared out wholly is level.
proof fn lemma_shared_out(placed: Seq<SlotRow>, alive: Seq<Seq<char>>, t: Seq<char>)
    requires
        alive.len() > 0,
        alive.no_duplicates(),
        all_placed(placed, alive),
        within_share(placed, alive, t),
    ensures
        topic_level(placed, alive, t),
{
    let n = alive.len() as int;
    let total = count_of_topic(placed, t);
    let q = total / n;
    balancer_laws::lemma_topic_is_sum(placed, alive, t);
    balancer_laws::lemma_sum_bounds(placed, alive, t, q);
    assert(q * n <= total) by (nonlinear_arith)
        requires
            q == total / n,
            n > 0,
            total >= 0,
    ;
    assert forall|a: Seq<char>, b: Seq<char>| alive.contains(a) && alive.contains(b) implies #[trigger] balancer::topic_on(placed, t, a)
        <= #[trigger] balancer::topic_on(placed, t, b) + 1 by {
        if balancer::topic_on(placed, t, a) <= q && balancer::topic_on(placed, t, b) < q {
            if forall|x: Seq<char>| alive.contains(x) ==> #[trigger] balancer::topic_on(placed, t, x) <= q {
                assert(false);
            } else {
                let x = choose|x: Seq<char>| alive.contains(x) && #[trigger] balancer::topic_on(placed, t, x) > q;
                assert(balancer::topic_on(placed, t, b) >= q);
            }
        }
    }
}

/// One that leaves no remainder is the same everywhere.
proof fn lemma_evenly_out(placed: Seq<SlotRow>, alive: Seq<Seq<char>>, t: Seq<char>)
    requires
        alive.len() > 0,
        alive.no_duplicates(),
        all_placed(placed, alive),
        within_share(placed, alive, t),
        count_of_topic(placed, t) % alive.len() as int == 0,
    ensures
        forall|b: Seq<char>| alive.contains(b) ==> #[trigger] balancer::topic_on(placed, t, b) == count_of_topic(placed, t) / alive.len() as int,
{
    let n = alive.len() as int;
    let total = count_of_topic(placed, t);
    let q = total / n;
    balancer_laws::lemma_topic_is_sum(placed, alive, t);
    balancer_laws::lemma_sum_bounds(placed, alive, t, q);
    assert(q * n == total) by (nonlinear_arith)
        requires
            q == total / n,
            n > 0,
            total % n == 0,
    ;
    assert forall|b: Seq<char>| alive.contains(b) implies #[trigger] balancer::topic_on(placed, t, b) == q by {
        if balancer::topic_on(placed, t, b) > q {
            lemma_sum_above(placed, alive, t, q, b);
        } else if balancer::topic_on(placed, t, b) < q {
            if forall|x: Seq<char>| alive.contains(x) ==> #[trigger] balancer::topic_on(placed, t, x) <= q {
                assert(false);
            } else {
                let x = choose|x: Seq<char>| alive.contains(x) && #[trigger] balancer::topic_on(placed, t, x) > q;
                assert(balancer::topic_on(placed, t, b) >= q);
            }
        }
    }
}

proof fn lemma_sum_above(slots: Seq<SlotRow>, alive: Seq<Seq<char>>, t: Seq<char>, m: int, b: Seq<char>)
    requires
        alive.contains(b),
        balancer::topic_on(slots, t, b) > m,
        forall|a: Seq<char>| alive.contains(a) ==> #[trigger] balancer::topic_on(slots, t, a) >= m,
    ensures
        balancer_laws::sum_on(slots, alive, t) > m * alive.len(),
    decreases alive.len(),
{
    let d = alive.drop_last();
    assert forall|a: Seq<char>| d.contains(a) implies alive.contains(a) by {
        let k = choose|k: int| 0 <= k < d.len() && d[k] == a;
        assert(alive[k] == a);
    }
    assert(alive.contains(alive.last()));
    assert(m * alive.len() == m * d.len() + m) by (nonlinear_arith)
        requires
            alive.len() == d.len() + 1,
    ;
    if b == alive.last() {
        balancer_laws::lemma_sum_bounds(slots, d, t, m);
    } else {
        let k = choose|k: int| 0 <= k < alive.len() && alive[k] == b;
        assert(d[k] == b);
        lemma_sum_above(slots, d, t, m, b);
    }
}

proof fn lemma_sums(slots: Seq<SlotRow>, names: Seq<Seq<char>>, a: Seq<char>, b: Seq<char>, uneven: int, n: int)
    requires
        0 <= n <= names.len(),
        forall|k: int| 0 <= k < names.len() ==> balancer::topic_on(slots, #[trigger] names[k], a) <= balancer::topic_on(slots, names[k], b) + (if k == uneven {
            1int
        } else {
            0
        }),
    ensures
        order::sum_counts(balancer::spots_of(slots), balancer_laws::spot_list(names.take(n), a)) <= order::sum_counts(
            balancer::spots_of(slots),
            balancer_laws::spot_list(names.take(n), b),
        ) + (if 0 <= uneven < n {
            1int
        } else {
            0
        }),
    decreases n,
{
    if n > 0 {
        lemma_sums(slots, names, a, b, uneven, n - 1);
        let x = balancer_laws::spot_list(names.take(n), a);
        let y = balancer_laws::spot_list(names.take(n), b);
        assert(x.drop_last() =~= balancer_laws::spot_list(names.take(n - 1), a));
        assert(y.drop_last() =~= balancer_laws::spot_list(names.take(n - 1), b));
        assert(x.last() == (names[n - 1], Some(a)));
        assert(y.last() == (names[n - 1], Some(b)));
        assert(balancer::topic_on(slots, names[n - 1], a) <= balancer::topic_on(slots, names[n - 1], b) + (if n - 1 == uneven {
            1int
        } else {
            0
        }));
    }
}

// How a place is chosen, and what is moved.

/// A partition without a leader goes to the broker that holds the fewest of
/// its topic; of those to one that holds the fewest in all; of those to one
/// with the highest score for it; and of those to the first. No other
/// partition is touched, and one with a leader stays.
pub proof fn law_place_is_the_least_loaded(slots: Seq<SlotRow>, alive: Seq<Seq<char>>, i: int, m: int)
    requires
        0 <= i < slots.len(),
        0 <= m < alive.len(),
    ensures
        ({
            let next = balancer::place_at(slots, alive, i);
            let t = slots[i].topic;
            let y = alive[m];
            &&& next.len() == slots.len()
            &&& forall|x: int| 0 <= x < slots.len() && x != i ==> #[trigger] next[x] == slots[x]
            &&& slots[i].broker is Some ==> next == slots
            &&& slots[i].broker is None ==> (next[i].broker matches Some(b) && alive.contains(b) && next[i].topic == t && next[i].partition
                == slots[i].partition && next[i].sticky == slots[i].sticky && balancer::topic_on(slots, t, b) <= balancer::topic_on(slots, t, y) && (
            balancer::topic_on(slots, t, b) == balancer::topic_on(slots, t, y) ==> balancer::total_on(slots, b) <= balancer::total_on(slots, y) && (
            balancer::total_on(slots, b) == balancer::total_on(slots, y) ==> balancer::rendezvous(t, slots[i].partition, b) >= balancer::rendezvous(
                t,
                slots[i].partition,
                y,
            ) && (balancer::rendezvous(t, slots[i].partition, b) == balancer::rendezvous(t, slots[i].partition, y) ==> exists|n: int|
                0 <= n <= m && #[trigger] alive[n] == b))))
        }),
{
    balancer_laws::lemma_place_at(slots, alive, i);
    if slots[i].broker is None {
        let better = balancer::better_place(slots, slots[i].topic, slots[i].partition);
        order::lemma_scan_best(alive, order::every(), better);
        assert(order::every()(alive[m]));
        let k = order::scan_best(alive, order::every(), better)->0;
        assert(alive[k] == alive[k]);
        assert(!better(alive[m], alive[k]));
        if m < k {
            assert(better(alive[k], alive[m]));
        }
    }
}

/// What a broker holds: one more for each partition on it, of its topic.
pub proof fn law_loads_are_counted(slots: Seq<SlotRow>, s: SlotRow, t: Seq<char>, b: Seq<char>)
    ensures
        balancer::total_on(Seq::empty(), b) == 0,
        balancer::topic_on(Seq::empty(), t, b) == 0,
        balancer::total_on(slots.push(s), b) == balancer::total_on(slots, b) + (if s.broker == Some(b) {
            1int
        } else {
            0
        }),
        balancer::topic_on(slots.push(s), t, b) == balancer::topic_on(slots, t, b) + (if s.broker == Some(b) && s.topic == t {
            1int
        } else {
            0
        }),
{
    let next = slots.push(s);
    assert(balancer::brokers_of(next).drop_last() =~= balancer::brokers_of(slots));
    assert(balancer::spots_of(next).drop_last() =~= balancer::spots_of(slots));
    assert(balancer::brokers_of(next).last() == s.broker);
    assert(balancer::spots_of(next).last() == (s.topic, s.broker));
    assert(balancer::brokers_of(Seq::<SlotRow>::empty()) =~= Seq::empty());
    assert(balancer::spots_of(Seq::<SlotRow>::empty()) =~= Seq::empty());
}

/// Whether `next` is `slots` with partition `v` moved.
pub open spec fn differs_at(slots: Seq<SlotRow>, next: Seq<SlotRow>, v: int, lo: Seq<char>) -> bool {
    &&& next.len() == slots.len()
    &&& 0 <= v < slots.len()
    &&& next[v] == (SlotRow { broker: Some(lo), ..slots[v] })
    &&& forall|x: int| 0 <= x < slots.len() && x != v ==> #[trigger] next[x] == slots[x]
}

/// Whether the cluster pass may move partition `v` from `hi` to `lo`: from a
/// broker that holds the most to one that holds the fewest, by two or more.
/// One whose leader would change goes only where there is no other on `hi`;
/// among its like the topic comes first of which `hi` holds more than `lo`, and
/// then the higher score for `lo`.
pub open spec fn is_cheapest(slots: Seq<SlotRow>, alive: Seq<Seq<char>>, v: int, hi: Seq<char>, lo: Seq<char>) -> bool {
    &&& alive.contains(hi) && alive.contains(lo)
    &&& slots[v].broker == Some(hi)
    &&& balancer::total_on(slots, hi) >= balancer::total_on(slots, lo) + 2
    &&& forall|y: Seq<char>| alive.contains(y) ==> balancer::total_on(slots, lo) <= #[trigger] balancer::total_on(slots, y) <= balancer::total_on(slots, hi)
    &&& forall|x: int|
        0 <= x < slots.len() && (#[trigger] slots[x]).broker == Some(hi) ==> {
            let vh = balancer::topic_on(slots, slots[v].topic, hi) > balancer::topic_on(slots, slots[v].topic, lo);
            let xh = balancer::topic_on(slots, slots[x].topic, hi) > balancer::topic_on(slots, slots[x].topic, lo);
            &&& slots[v].sticky ==> slots[x].sticky
            &&& slots[v].sticky == slots[x].sticky && xh ==> vh
            &&& slots[v].sticky == slots[x].sticky && xh == vh ==> balancer::rendezvous(slots[v].topic, slots[v].partition, lo) >= balancer::rendezvous(
                slots[x].topic,
                slots[x].partition,
                lo,
            )
        }
}

/// A step of the cluster pass moves one partition, the cheapest; none is made
/// exactly where the loads of any two brokers differ by one at most.
pub proof fn law_cluster_pass_moves_the_cheapest(slots: Seq<SlotRow>, alive: Seq<Seq<char>>)
    requires
        alive.len() > 0,
        all_placed(slots, alive),
    ensures
        balancer::smooth_step(slots, alive) is None <==> cluster_level(slots, alive),
        balancer::smooth_step(slots, alive) matches Some(next) ==> exists|v: int, hi: Seq<char>, lo: Seq<char>|
            differs_at(slots, next, v, lo) && #[trigger] is_cheapest(slots, alive, v, hi, lo),
{
    balancer_laws::lemma_picked_max(alive, balancer::heavier(slots));
    balancer_laws::lemma_picked_max(alive, balancer::lighter(slots));
    let hi = balancer::picked(alive, balancer::heavier(slots))->0;
    let lo = balancer::picked(alive, balancer::lighter(slots))->0;
    assert forall|y: Seq<char>| alive.contains(y) implies balancer::total_on(slots, lo) <= #[trigger] balancer::total_on(slots, y) <= balancer::total_on(slots, hi) by {
        assert(!balancer::heavier(slots)(y, hi));
        assert(!balancer::lighter(slots)(y, lo));
    }
    if balancer::total_on(slots, hi) > balancer::total_on(slots, lo) + 1 {
        assert(!cluster_level(slots, alive));
        let better = balancer::cheaper_move(slots, hi, lo);
        lemma_cheaper_ranks(slots, hi, lo);
        order::lemma_scan_best(slots, balancer::on_broker(hi), better);
        match order::scan_best(slots, balancer::on_broker(hi), better) {
            Some(v) => {
                let next = balancer::moved(slots, v, lo);
                assert(differs_at(slots, next, v, lo));
                assert forall|x: int| 0 <= x < slots.len() && (#[trigger] slots[x]).broker == Some(hi) implies ({
                    let vh = balancer::topic_on(slots, slots[v].topic, hi) > balancer::topic_on(slots, slots[v].topic, lo);
                    let xh = balancer::topic_on(slots, slots[x].topic, hi) > balancer::topic_on(slots, slots[x].topic, lo);
                    &&& slots[v].sticky ==> slots[x].sticky
                    &&& slots[v].sticky == slots[x].sticky && xh ==> vh
                    &&& slots[v].sticky == slots[x].sticky && xh == vh ==> balancer::rendezvous(slots[v].topic, slots[v].partition, lo) >= balancer::rendezvous(
                        slots[x].topic,
                        slots[x].partition,
                        lo,
                    )
                }) by {
                    assert(balancer::on_broker(hi)(slots[x]));
                    assert(!better(slots[x], slots[v]));
                }
                assert(is_cheapest(slots, alive, v, hi, lo));
                assert(balancer::smooth_step(slots, alive) == Some(next));
            },
            None => {
                let i = balancer_laws::lemma_some_on(slots, hi);
                assert(balancer::on_broker(hi)(slots[i]));
            },
        }
    } else {
        assert forall|a: Seq<char>, b: Seq<char>| alive.contains(a) && alive.contains(b) implies #[trigger] balancer::total_on(slots, a)
            <= #[trigger] balancer::total_on(slots, b) + 1 by {}
    }
}

proof fn lemma_cheaper_ranks(slots: Seq<SlotRow>, hi: Seq<char>, lo: Seq<char>)
    ensures
        order::ranks(balancer::cheaper_move(slots, hi, lo)),
{
    let better = balancer::cheaper_move(slots, hi, lo);
    assert forall|a: SlotRow, b: SlotRow| #[trigger] better(a, b) implies !better(b, a) by {
        text::lemma_text_less_total(a.topic, b.topic);
    }
    assert forall|a: SlotRow, b: SlotRow, c: SlotRow| !#[trigger] better(a, b) && !#[trigger] better(b, c) implies !better(a, c) by {
        if !balancer::slot_before(a, b) && !balancer::slot_before(b, c) {
            lemma_slot_order(a, b, c);
        }
    }
}

proof fn lemma_slot_order(a: SlotRow, b: SlotRow, c: SlotRow)
    requires
        !balancer::slot_before(a, b),
        !balancer::slot_before(b, c),
    ensures
        !balancer::slot_before(a, c),
{
    text::lemma_text_less_total(a.topic, b.topic);
    text::lemma_text_less_total(b.topic, c.topic);
    text::lemma_text_less_total(a.topic, c.topic);
    if text::text_less(c.topic, b.topic) && text::text_less(b.topic, a.topic) {
        text::lemma_text_less_transitive(c.topic, b.topic, a.topic);
    }
}

// Who is spared while the cluster is levelled.

spec fn marks_of(slots: Seq<SlotRow>) -> Seq<(Option<Seq<char>>, bool)> {
    slots.map_values(|s: SlotRow| (s.broker, s.sticky))
}

/// How many partitions on a broker have it as their leader from before.
spec fn kept_on(slots: Seq<SlotRow>, b: Seq<char>) -> int {
    order::count_of(marks_of(slots), (Some(b), true)) as int
}

proof fn lemma_kept_within(slots: Seq<SlotRow>, b: Seq<char>)
    ensures
        kept_on(slots, b) <= balancer::total_on(slots, b),
        (forall|x: int| 0 <= x < slots.len() && (#[trigger] slots[x]).broker == Some(b) ==> slots[x].sticky) ==> kept_on(slots, b) == balancer::total_on(
            slots,
            b,
        ),
    decreases slots.len(),
{
    if slots.len() > 0 {
        let d = slots.drop_last();
        lemma_kept_within(d, b);
        assert(marks_of(slots).drop_last() =~= marks_of(d));
        assert(balancer::brokers_of(slots).drop_last() =~= balancer::brokers_of(d));
        let last = slots[slots.len() - 1];
        assert(marks_of(slots).last() == (last.broker, last.sticky));
        assert(balancer::brokers_of(slots).last() == last.broker);
        if forall|x: int| 0 <= x < slots.len() && (#[trigger] slots[x]).broker == Some(b) ==> slots[x].sticky {
            assert forall|x: int| 0 <= x < d.len() && (#[trigger] d[x]).broker == Some(b) implies d[x].sticky by {
                assert(d[x] == slots[x]);
            }
            assert(slots[slots.len() - 1].broker == Some(b) ==> slots[slots.len() - 1].sticky);
        }
    }
}

/// The sum of the loads of the brokers.
spec fn sum_total(slots: Seq<SlotRow>, alive: Seq<Seq<char>>) -> int
    decreases alive.len(),
{
    if alive.len() == 0 {
        0
    } else {
        sum_total(slots, alive.drop_last()) + balancer::total_on(slots, alive.last())
    }
}

proof fn lemma_sum_total(slots: Seq<SlotRow>, alive: Seq<Seq<char>>)
    requires
        alive.no_duplicates(),
        all_placed(slots, alive),
    ensures
        sum_total(slots, alive) == slots.len(),
{
    let keys = alive.map_values(|a: Seq<char>| Some(a));
    assert(keys.no_duplicates()) by {
        assert forall|x: int, y: int| 0 <= x < keys.len() && 0 <= y < keys.len() && x != y implies keys[x] != keys[y] by {
            assert(alive[x] != alive[y]);
        }
    }
    let s = balancer::brokers_of(slots);
    order::lemma_sum_counts(s, keys);
    assert forall|x: int| 0 <= x < s.len() implies order::in_list(keys)(#[trigger] s[x]) by {
        assert(slots[x].broker is Some);
        let b = slots[x].broker->0;
        let k = choose|k: int| 0 <= k < alive.len() && alive[k] == b;
        assert(keys[k] == s[x]);
    }
    order::lemma_count_if_bound(s, order::in_list(keys));
    lemma_sum_total_keys(slots, alive, alive.len() as int);
    assert(alive.take(alive.len() as int) =~= alive);
}

proof fn lemma_sum_total_keys(slots: Seq<SlotRow>, alive: Seq<Seq<char>>, n: int)
    requires
        0 <= n <= alive.len(),
    ensures
        sum_total(slots, alive.take(n)) == order::sum_counts(balancer::brokers_of(slots), alive.take(n).map_values(|a: Seq<char>| Some(a))),
    decreases n,
{
    let f = |a: Seq<char>| Some(a);
    if n > 0 {
        lemma_sum_total_keys(slots, alive, n - 1);
        assert(alive.take(n).drop_last() =~= alive.take(n - 1));
        assert(alive.take(n).map_values(f).drop_last() =~= alive.take(n - 1).map_values(f));
        assert(alive.take(n).map_values(f).last() == Some(alive[n - 1]));
    }
}

/// Loads that are nowhere above `m`, and somewhere below it, add up to less.
proof fn lemma_total_bound(slots: Seq<SlotRow>, alive: Seq<Seq<char>>, m: int)
    requires
        forall|a: Seq<char>| alive.contains(a) ==> #[trigger] balancer::total_on(slots, a) <= m,
    ensures
        sum_total(slots, alive) <= m * alive.len(),
        (exists|a: Seq<char>| alive.contains(a) && #[trigger] balancer::total_on(slots, a) < m) ==> sum_total(slots, alive) < m * alive.len(),
    decreases alive.len(),
{
    if alive.len() > 0 {
        let d = alive.drop_last();
        assert forall|a: Seq<char>| d.contains(a) implies alive.contains(a) by {
            let k = choose|k: int| 0 <= k < d.len() && d[k] == a;
            assert(alive[k] == a);
        }
        lemma_total_bound(slots, d, m);
        assert(alive.contains(alive.last()));
        assert(m * alive.len() == m * d.len() + m) by (nonlinear_arith)
            requires
                alive.len() == d.len() + 1,
        ;
        if exists|a: Seq<char>| alive.contains(a) && #[trigger] balancer::total_on(slots, a) < m {
            let a = choose|a: Seq<char>| alive.contains(a) && #[trigger] balancer::total_on(slots, a) < m;
            if a != alive.last() {
                let k = choose|k: int| 0 <= k < alive.len() && alive[k] == a;
                assert(d[k] == a);
            }
        }
    } else {
        assert(m * 0 == 0) by (nonlinear_arith);
    }
}

/// Whether a broker is to be spared: it holds no more from before than its
/// share, or it is among the least loaded.
spec fn spared(slots: Seq<SlotRow>, alive: Seq<Seq<char>>, b: Seq<char>) -> bool {
    ||| kept_on(slots, b) <= slots.len() as int / alive.len() as int
    ||| forall|y: Seq<char>| alive.contains(y) ==> balancer::total_on(slots, b) <= #[trigger] balancer::total_on(slots, y) + 1
}

proof fn lemma_step_spares(slots: Seq<SlotRow>, alive: Seq<Seq<char>>, b: Seq<char>, i: int)
    requires
        alive.len() > 0,
        alive.no_duplicates(),
        alive.contains(b),
        all_placed(slots, alive),
        spared(slots, alive, b),
    ensures
        balancer::smooth_step(slots, alive) matches Some(next) ==> spared(next, alive, b) && all_placed(next, alive) && next.len() == slots.len() && (0 <= i
            < slots.len() && slots[i].sticky && slots[i].broker == Some(b) ==> next[i] == slots[i]),
{
    law_cluster_pass_moves_the_cheapest(slots, alive);
    if let Some(next) = balancer::smooth_step(slots, alive) {
        let (v, hi, lo) = choose|v: int, hi: Seq<char>, lo: Seq<char>|
            differs_at(slots, next, v, lo) && #[trigger] is_cheapest(slots, alive, v, hi, lo);
        let n = alive.len() as int;
        assert(next =~= balancer::moved(slots, v, lo));
        balancer_laws::lemma_move_counts(slots, v, lo);
        assert forall|x: int| 0 <= x < next.len() implies ((#[trigger] next[x]).broker matches Some(c) && alive.contains(c)) by {
            if x != v {
                assert(next[x] == slots[x]);
            }
        }
        assert(marks_of(next) =~= marks_of(slots).update(v, (Some(lo), slots[v].sticky)));
        order::lemma_count_update(marks_of(slots), v, (Some(lo), slots[v].sticky), (Some(b), true));
        assert(marks_of(slots)[v] == (slots[v].broker, slots[v].sticky));
        if hi == b {
            assert(balancer::total_on(slots, lo) + 2 <= balancer::total_on(slots, b));
            if !(kept_on(slots, b) <= slots.len() as int / n) {
                assert(balancer::total_on(slots, b) <= balancer::total_on(slots, lo) + 1);
            }
            if slots[v].sticky {
                assert forall|x: int| 0 <= x < slots.len() && (#[trigger] slots[x]).broker == Some(b) implies slots[x].sticky by {}
                lemma_kept_within(slots, b);
                lemma_sum_total(slots, alive);
                let m = balancer::total_on(slots, b) as int;
                lemma_total_bound(slots, alive, m);
                assert(balancer::total_on(slots, lo) < m);
                let size = slots.len() as int;
                assert(size < m * n);
                assert(size / n < m) by (nonlinear_arith)
                    requires
                        size < m * n,
                        n > 0,
                        size >= 0,
                ;
                assert(false);
            }
        }
        if lo == b {
            assert forall|y: Seq<char>| alive.contains(y) implies balancer::total_on(next, b) <= #[trigger] balancer::total_on(next, y) + 1 by {
                assert(balancer::total_on(slots, lo) <= balancer::total_on(slots, y));
            }
        } else if !(kept_on(slots, b) <= slots.len() as int / n) {
            assert(hi != b);
            assert forall|y: Seq<char>| alive.contains(y) implies balancer::total_on(next, b) <= #[trigger] balancer::total_on(next, y) + 1 by {
                assert(balancer::total_on(slots, b) <= balancer::total_on(slots, y) + 1);
                assert(balancer::total_on(slots, b) <= balancer::total_on(slots, lo) + 1);
            }
        }
        if 0 <= i < slots.len() && slots[i].sticky && slots[i].broker == Some(b) {
            if i == v {
                assert(hi == b);
                assert(false);
            }
        }
    }
}

proof fn lemma_pass_spares(slots: Seq<SlotRow>, alive: Seq<Seq<char>>, b: Seq<char>, i: int)
    requires
        alive.len() > 0,
        alive.no_duplicates(),
        alive.contains(b),
        all_placed(slots, alive),
        spared(slots, alive, b),
        0 <= i < slots.len(),
        slots[i].sticky,
        slots[i].broker == Some(b),
    ensures
        balancer::smooth_from(slots, alive)[i] == slots[i],
    decreases order::pairs(balancer::brokers_of(slots)),
{
    balancer::lemma_smooth_step(slots, alive);
    lemma_step_spares(slots, alive, b, i);
    if let Some(next) = balancer::smooth_step(slots, alive) {
        lemma_pass_spares(next, alive, b, i);
    }
}

/// In a catalogue of one topic a broker that led no more than its share of the
/// partitions loses none of them, whatever becomes of the others: it keeps
/// them, and their rows unless their epochs are too low.
pub proof fn law_broker_within_its_share_loses_nothing(
    prev: Seq<PartitionRow>,
    brokers: Seq<Seq<char>>,
    topic: TopicRow,
    floor: Map<Seq<char>, u32>,
    i: int,
    j: int,
)
    requires
        brokers.len() > 0,
        brokers.no_duplicates(),
        forall|n: int| 0 <= n < brokers.len() ==> (#[trigger] brokers[n]).len() > 0,
        0 <= i < topic.partition_count,
        is_last_row(prev, j, topic.name, i as i32),
        brokers.contains(prev[j].broker),
        held(prev, topic.name, topic.partition_count as int, prev[j].broker) <= topic.partition_count as int / brokers.len() as int,
    ensures
        ({
            let rows = balancer::balanced(prev, brokers, seq![topic], floor);
            &&& rows.len() == topic.partition_count
            &&& rows[i].topic == topic.name && rows[i].partition == i && rows[i].broker == prev[j].broker
            &&& prev[j].epoch >= least_epoch(floor, topic.name, i as i32) ==> rows[i] == prev[j]
        }),
{
    let topics = seq![topic];
    let b = prev[j].broker;
    let alive = balancer::ordered(brokers);
    balancer::lemma_ordered(brokers);
    lemma_ordered_distinct(brokers);
    assert(topics.drop_last() =~= Seq::empty());
    let slots = balancer::pinned(prev, alive, topics);
    let t = topic.name;
    let n = topic.partition_count as int;
    assert(balancer::pinned(prev, alive, topics.drop_last()) =~= Seq::empty());
    assert(slots =~= balancer::pinned_topic(prev, alive, t, n));
    assert forall|x: Seq<char>| alive.contains(x) implies #[trigger] x.len() > 0 by {
        assert(brokers.contains(x));
        let m = choose|m: int| 0 <= m < brokers.len() && brokers[m] == x;
        assert(brokers[m].len() > 0);
    }
    assert(b.len() > 0);
    assert forall|x: int| 0 <= x < slots.len() && (#[trigger] slots[x]).broker is None implies !slots[x].sticky by {
        assert(slots[x] == balancer::pinned_slot(prev, alive, t, x as i32));
        if let Some(p) = balancer::prev_entry(prev, t, x as i32) {
            if alive.contains(p.broker) {
                assert(p.broker.len() > 0);
            }
        }
    }
    lemma_pins_alive(prev, alive, topics);
    balancer_laws::lemma_place_from(slots, alive, 0);
    let placed = balancer::place_from(slots, alive, 0);
    lemma_last_row(prev, j, t, i as i32);
    assert(slots[i] == balancer::pinned_slot(prev, alive, t, i as i32));
    assert(placed[i] == slots[i]);
    lemma_kept_is_held(prev, alive, t, n, b);
    lemma_placing_keeps_marks(slots, placed, b);
    assert(spared(placed, alive, b));
    balancer_laws::lemma_smoothed(placed, alive);
    let smooth = balancer::smoothed(placed, alive);
    if alive.len() >= 2 && placed.len() > 0 {
        lemma_pass_spares(placed, alive, b, i);
    }
    assert(smooth[i] == placed[i]);
    assert forall|x: int| 0 <= x < smooth.len() implies (#[trigger] smooth[x]).topic == t by {
        assert(slots[x].topic == placed[x].topic);
        assert(placed[x].topic == smooth[x].topic);
    }
    assert forall|u: Seq<char>| #[trigger] topic_level(smooth, alive, u) by {
        assert forall|x: Seq<char>, y: Seq<char>| alive.contains(x) && alive.contains(y) implies #[trigger] balancer::topic_on(smooth, u, x)
            <= #[trigger] balancer::topic_on(smooth, u, y) + 1 by {
            lemma_one_topic(smooth, t, u, x);
            lemma_one_topic(smooth, t, u, y);
            assert(balancer::total_on(smooth, x) <= balancer::total_on(smooth, y) + 1);
        }
    }
    balancer_laws::lemma_levelled_fixed(smooth, alive);
    lemma_row(prev, brokers, topics, floor, i);
    law_row_stays_or_rises_by_one(prev, brokers, topics, floor, i, j);
}

proof fn lemma_one_topic(slots: Seq<SlotRow>, t: Seq<char>, u: Seq<char>, b: Seq<char>)
    requires
        forall|x: int| 0 <= x < slots.len() ==> (#[trigger] slots[x]).topic == t,
    ensures
        balancer::topic_on(slots, u, b) == (if u == t {
            balancer::total_on(slots, b)
        } else {
            0
        }),
    decreases slots.len(),
{
    if slots.len() > 0 {
        let d = slots.drop_last();
        assert forall|x: int| 0 <= x < d.len() implies (#[trigger] d[x]).topic == t by {
            assert(d[x] == slots[x]);
        }
        lemma_one_topic(d, t, u, b);
        assert(slots[slots.len() - 1].topic == t);
        assert(balancer::brokers_of(slots).drop_last() =~= balancer::brokers_of(d));
        assert(balancer::spots_of(slots).drop_last() =~= balancer::spots_of(d));
        assert(balancer::brokers_of(slots).last() == slots.last().broker);
        assert(balancer::spots_of(slots).last() == (slots.last().topic, slots.last().broker));
    }
}

proof fn lemma_kept_is_held(prev: Seq<PartitionRow>, alive: Seq<Seq<char>>, t: Seq<char>, n: int, b: Seq<char>)
    requires
        0 <= n <= i32::MAX,
        alive.contains(b),
        b.len() > 0,
    ensures
        kept_on(balancer::pinned_topic(prev, alive, t, n), b) == held(prev, t, n, b),
    decreases n,
{
    let all = balancer::pinned_topic(prev, alive, t, n);
    if n > 0 {
        lemma_kept_is_held(prev, alive, t, n - 1, b);
        let d = balancer::pinned_topic(prev, alive, t, n - 1);
        assert(marks_of(all).drop_last() =~= marks_of(d));
        let p = (n - 1) as i32;
        let s = balancer::pinned_slot(prev, alive, t, p);
        assert(all[n - 1] == s);
        assert(marks_of(all).last() == (s.broker, s.sticky));
        let j = lemma_listed_or_not(prev, t, p);
        if j >= 0 {
            lemma_last_row(prev, j, t, p);
            if was_led_by(prev, t, p, b) {
                let m = choose|m: int| #[trigger] is_last_row(prev, m, t, p) && prev[m].broker == b;
                lemma_last_row(prev, m, t, p);
            }
            if prev[j].broker == b {
                assert(is_last_row(prev, j, t, p));
            }
        } else {
            lemma_unlisted(prev, t, p);
            if was_led_by(prev, t, p, b) {
                let m = choose|m: int| #[trigger] is_last_row(prev, m, t, p) && prev[m].broker == b;
                assert(prev[m].topic == t);
            }
        }
    }
}

/// Placing gives a broker nothing that it had from before.
proof fn lemma_placing_keeps_marks(slots: Seq<SlotRow>, placed: Seq<SlotRow>, b: Seq<char>)
    requires
        same_partitions(slots, placed),
        forall|x: int| 0 <= x < slots.len() && (#[trigger] slots[x]).broker is Some ==> placed[x] == slots[x],
        forall|x: int| 0 <= x < slots.len() && (#[trigger] slots[x]).broker is None ==> !slots[x].sticky,
    ensures
        kept_on(placed, b) == kept_on(slots, b),
    decreases slots.len(),
{
    if slots.len() > 0 {
        let d = slots.drop_last();
        let e = placed.drop_last();
        assert(same_partitions(d, e)) by {
            assert forall|x: int| 0 <= x < d.len() implies (#[trigger] d[x]).topic == (#[trigger] e[x]).topic && d[x].partition == e[x].partition && d[x].sticky
                == e[x].sticky by {
                assert(slots[x].topic == placed[x].topic);
            }
        }
        assert forall|x: int| 0 <= x < d.len() && (#[trigger] d[x]).broker is Some implies e[x] == d[x] by {
            assert(slots[x] == d[x]);
        }
        assert forall|x: int| 0 <= x < d.len() && (#[trigger] d[x]).broker is None implies !d[x].sticky by {
            assert(slots[x] == d[x]);
        }
        lemma_placing_keeps_marks(d, e, b);
        let last = slots.len() - 1;
        assert(slots[last].topic == placed[last].topic);
        assert(marks_of(slots).drop_last() =~= marks_of(d));
        assert(marks_of(placed).drop_last() =~= marks_of(e));
        assert(marks_of(slots).last() == (slots[last].broker, slots[last].sticky));
        assert(marks_of(placed).last() == (placed[last].broker, placed[last].sticky));
    }
}

/// Whether the topic pass may take partition `d` of a topic from `hi` for
/// `lo`: from a broker that holds the most of the topic to one that holds the
/// fewest, by two or more; one whose leader would change only where there is no
/// other of the topic on `hi`.
pub open spec fn may_give(slots: Seq<SlotRow>, alive: Seq<Seq<char>>, t: Seq<char>, d: int, hi: Seq<char>, lo: Seq<char>) -> bool {
    &&& alive.contains(hi) && alive.contains(lo)
    &&& 0 <= d < slots.len() && slots[d].topic == t && slots[d].broker == Some(hi)
    &&& balancer::topic_on(slots, t, hi) >= balancer::topic_on(slots, t, lo) + 2
    &&& forall|y: Seq<char>|
        alive.contains(y) ==> balancer::topic_on(slots, t, lo) <= #[trigger] balancer::topic_on(slots, t, y) <= balancer::topic_on(slots, t, hi)
    &&& forall|x: int|
        0 <= x < slots.len() && (#[trigger] slots[x]).topic == t && slots[x].broker == Some(hi) ==> (slots[d].sticky ==> slots[x].sticky) && (slots[d].sticky
            == slots[x].sticky ==> slots[d].partition <= slots[x].partition)
}

/// Whether partition `x` may be given back for it: one of another topic on
/// `lo`, of which `lo` holds more than `hi`; one whose leader would change only
/// where there is no other like that.
pub open spec fn may_return(slots: Seq<SlotRow>, t: Seq<char>, x: int, hi: Seq<char>, lo: Seq<char>) -> bool {
    &&& 0 <= x < slots.len() && slots[x].topic != t && slots[x].broker == Some(lo)
    &&& balancer::topic_on(slots, slots[x].topic, lo) > balancer::topic_on(slots, slots[x].topic, hi)
    &&& forall|y: int|
        0 <= y < slots.len() && (#[trigger] slots[y]).topic != t && slots[y].broker == Some(lo) && balancer::topic_on(slots, slots[y].topic, lo)
            > balancer::topic_on(slots, slots[y].topic, hi) ==> (slots[x].sticky ==> slots[y].sticky)
}

/// A step of the topic pass gives one partition away where the giver holds
/// more in all, and else trades it for another, so that the loads stay; all
/// other partitions stay where they are.
pub proof fn law_topic_pass_gives_or_trades(slots: Seq<SlotRow>, alive: Seq<Seq<char>>, t: Seq<char>)
    requires
        alive.len() > 0,
    ensures
        topic_level(slots, alive, t) ==> balancer::repaired(slots, alive, t) is None,
        balancer::repaired(slots, alive, t) matches Some(next) ==> exists|d: int, hi: Seq<char>, lo: Seq<char>| #[trigger]
            may_give(slots, alive, t, d, hi, lo) && next.len() == slots.len() && next[d] == (SlotRow { broker: Some(lo), ..slots[d] }) && if balancer::total_on(
                slots,
                hi,
            ) > balancer::total_on(slots, lo) {
                differs_at(slots, next, d, lo)
            } else {
                exists|x: int| #[trigger]
                    may_return(slots, t, x, hi, lo) && next[x] == (SlotRow { broker: Some(hi), ..slots[x] }) && forall|y: int|
                        0 <= y < slots.len() && y != d && y != x ==> #[trigger] next[y] == slots[y]
            },
{
    let more = balancer::more_of(slots, t);
    let less = balancer::less_of(slots, t);
    balancer_laws::lemma_picked_max(alive, more);
    balancer_laws::lemma_picked_max(alive, less);
    let hi = balancer::picked(alive, more)->0;
    let lo = balancer::picked(alive, less)->0;
    assert forall|y: Seq<char>| alive.contains(y) implies balancer::topic_on(slots, t, lo) <= #[trigger] balancer::topic_on(slots, t, y) <= balancer::topic_on(slots, t, hi) by {
        assert(!more(y, hi));
        assert(!less(y, lo));
    }
    if topic_level(slots, alive, t) {
        assert(balancer::topic_on(slots, t, hi) <= balancer::topic_on(slots, t, lo) + 1);
    }
    if let Some(next) = balancer::repaired(slots, alive, t) {
        let ok = balancer::of_topic_on(t, hi);
        order::lemma_scan_best(slots, ok, balancer::better_donor());
        let d = order::scan_best(slots, ok, balancer::better_donor())->0;
        assert forall|x: int| 0 <= x < slots.len() && (#[trigger] slots[x]).topic == t && slots[x].broker == Some(hi) implies (slots[d].sticky ==> slots[x].sticky) && (
        slots[d].sticky == slots[x].sticky ==> slots[d].partition <= slots[x].partition) by {
            assert(ok(slots[x]));
            assert(!balancer::better_donor()(slots[x], slots[d]));
        }
        assert(may_give(slots, alive, t, d, hi, lo));
        if balancer::total_on(slots, hi) > balancer::total_on(slots, lo) {
            assert(differs_at(slots, next, d, lo));
        } else {
            let trade = balancer::may_trade(slots, t, hi, lo);
            lemma_partner_ranks();
            order::lemma_scan_best(slots, trade, balancer::better_partner());
            let x = order::scan_best(slots, trade, balancer::better_partner())->0;
            assert(trade(slots[x]));
            assert forall|y: int|
                0 <= y < slots.len() && (#[trigger] slots[y]).topic != t && slots[y].broker == Some(lo) && balancer::topic_on(slots, slots[y].topic, lo)
                    > balancer::topic_on(slots, slots[y].topic, hi) implies (slots[x].sticky ==> slots[y].sticky) by {
                assert(trade(slots[y]));
                assert(!balancer::better_partner()(slots[y], slots[x]));
            }
            assert(may_return(slots, t, x, hi, lo));
            assert(x != d);
        }
    }
}

proof fn lemma_partner_ranks()
    ensures
        order::ranks(balancer::better_partner()),
{
    let better = balancer::better_partner();
    assert forall|a: SlotRow, b: SlotRow| #[trigger] better(a, b) implies !better(b, a) by {
        text::lemma_text_less_total(a.topic, b.topic);
    }
    assert forall|a: SlotRow, b: SlotRow, c: SlotRow| !#[trigger] better(a, b) && !#[trigger] better(b, c) implies !better(a, c) by {
        if !balancer::slot_before(a, b) && !balancer::slot_before(b, c) {
            lemma_slot_order(a, b, c);
        }
    }
}

// The scores.

/// What is hashed for a partition on a broker: the topic, a zero byte, the
/// partition in four bytes, the most significant first, a zero byte, and the
/// broker; and for a group its id, a zero byte and the broker.
pub proof fn law_scores_are_of_these_bytes(t: Seq<char>, p: i32, b: Seq<char>)
    ensures
        ({
            let s = balancer::rendezvous_bytes(t, p, b);
            let n = utf8::encode_utf8(t).len() as int;
            let u = s[n + 1] * 16777216 + s[n + 2] * 65536 + s[n + 3] * 256 + s[n + 4];
            &&& s.len() == n + 6 + utf8::encode_utf8(b).len()
            &&& s.take(n) == utf8::encode_utf8(t)
            &&& s[n] == 0
            &&& u == (if p < 0 {
                p + 4294967296
            } else {
                p as int
            })
            &&& s[n + 5] == 0
            &&& s.skip(n + 6) == utf8::encode_utf8(b)
            &&& balancer::rendezvous(t, p, b) == hashing::xxh64(s)
        }),
        balancer::group_score(t, b) == hashing::xxh64(utf8::encode_utf8(t).push(0) + utf8::encode_utf8(b)),
{
    let s = balancer::rendezvous_bytes(t, p, b);
    let x = utf8::encode_utf8(t);
    let y = utf8::encode_utf8(b);
    let n = x.len() as int;
    let u = p as u32;
    assert(s =~= x + seq![0u8] + balancer::be_bytes(p) + seq![0u8] + y);
    assert(s.take(n) =~= x);
    assert(s.skip(n + 6) =~= y);
    assert(s[n + 1] == (u >> 24) as u8 && s[n + 2] == (u >> 16) as u8 && s[n + 3] == (u >> 8) as u8 && s[n + 4] == u as u8);
    assert((((u >> 24) as u8) * 16777216 + ((u >> 16) as u8) * 65536 + ((u >> 8) as u8) * 256 + (u as u8)) == u) by (bit_vector);
    assert((p as u32) as int == (if p < 0 {
        p + 4294967296
    } else {
        p as int
    })) by (bit_vector);
    assert(x + seq![0u8] + y =~= x.push(0) + y);
}

/// The choice by score is the broker with the highest one, and the first of
/// those.
pub proof fn law_highest_score_is_picked(t: Seq<char>, p: i32, brokers: Seq<Seq<char>>, m: int)
    requires
        0 <= m < brokers.len(),
    ensures
        balancer::picked(brokers, balancer::higher_score(t, p)) matches Some(b) && balancer::rendezvous(t, p, b) >= balancer::rendezvous(t, p, brokers[m]) && (
        balancer::rendezvous(t, p, b) == balancer::rendezvous(t, p, brokers[m]) ==> exists|n: int| 0 <= n <= m && #[trigger] brokers[n] == b),
        balancer::picked(brokers, balancer::higher_group_score(t)) matches Some(b) && balancer::group_score(t, b) >= balancer::group_score(t, brokers[m]) && (
        balancer::group_score(t, b) == balancer::group_score(t, brokers[m]) ==> exists|n: int| 0 <= n <= m && #[trigger] brokers[n] == b),
{
    let f = balancer::higher_score(t, p);
    let g = balancer::higher_group_score(t);
    order::lemma_scan_best(brokers, order::every(), f);
    order::lemma_scan_best(brokers, order::every(), g);
    assert(order::every()(brokers[m]));
    let i = order::scan_best(brokers, order::every(), f)->0;
    let j = order::scan_best(brokers, order::every(), g)->0;
    assert(!f(brokers[m], brokers[i]));
    assert(!g(brokers[m], brokers[j]));
    if m < i {
        assert(f(brokers[i], brokers[m]));
    }
    if m < j {
        assert(g(brokers[j], brokers[m]));
    }
}

/// The topic pass goes through the topics of the partitions, each once and in
/// the order of their names.
pub proof fn law_topic_pass_goes_by_name(slots: Seq<SlotRow>, topic: Seq<char>, i: int, j: int)
    ensures
        balancer::topics_of(slots).contains(topic) <==> exists|n: int| 0 <= n < slots.len() && (#[trigger] slots[n]).topic == topic,
        0 <= i < j < balancer::topics_of(slots).len() ==> text::text_less(balancer::topics_of(slots)[i], balancer::topics_of(slots)[j]),
{
    let names = slots.map_values(|s: SlotRow| s.topic);
    order::lemma_in_order_exists(names);
    let ts = balancer::topics_of(slots);
    assert(ts.contains(topic) <==> ts.to_set().contains(topic));
    assert(names.to_set().contains(topic) <==> names.contains(topic));
    if names.contains(topic) {
        let n = choose|n: int| 0 <= n < names.len() && names[n] == topic;
        assert(slots[n].topic == topic);
    }
    if exists|n: int| 0 <= n < slots.len() && (#[trigger] slots[n]).topic == topic {
        let n = choose|n: int| 0 <= n < slots.len() && (#[trigger] slots[n]).topic == topic;
        assert(names[n] == topic);
    }
}

/// A repair is one of the first topic that can be repaired, and the pass ends
/// where none can.
pub proof fn law_first_topic_is_repaired(slots: Seq<SlotRow>, alive: Seq<Seq<char>>, topics: Seq<Seq<char>>, k: int, j: int, fuel: nat)
    requires
        0 <= j <= topics.len(),
    ensures
        j <= k < topics.len() && balancer::repaired(slots, alive, topics[k]) is Some && (forall|n: int|
            j <= n < k ==> balancer::repaired(slots, alive, #[trigger] topics[n]) is None) ==> balancer::repaired_from(slots, alive, topics, j)
            == balancer::repaired(slots, alive, topics[k]),
        (forall|n: int| j <= n < topics.len() ==> balancer::repaired(slots, alive, #[trigger] topics[n]) is None) ==> balancer::repaired_from(
            slots,
            alive,
            topics,
            j,
        ) is None,
        balancer::repaired_from(slots, alive, topics, 0) is None ==> balancer::level_from(slots, alive, topics, fuel) == slots,
        balancer::repaired_from(slots, alive, topics, 0) matches Some(next) ==> balancer::level_from(slots, alive, topics, fuel + 1)
            == balancer::level_from(next, alive, topics, fuel),
    decreases topics.len() - j,
{
    if j < topics.len() {
        law_first_topic_is_repaired(slots, alive, topics, k, j + 1, fuel);
        let here = topics[j];
    }
}

} // verus!
