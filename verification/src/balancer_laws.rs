//! What holds of every layout that the balancer works out.

use vstd::prelude::*;
use crate::assignment;
use crate::balancer;
use crate::balancer::{SlotRow, TopicRow};
use crate::order;

verus! {

/// The loads of any two alive brokers differ by at most one.
pub open spec fn cluster_level(slots: Seq<SlotRow>, alive: Seq<Seq<char>>) -> bool {
    forall|a: Seq<char>, b: Seq<char>|
        alive.contains(a) && alive.contains(b) ==> #[trigger] balancer::total_on(slots, a)
            <= #[trigger] balancer::total_on(slots, b) + 1
}

/// What any two alive brokers hold of a topic differs by at most one.
pub open spec fn topic_level(slots: Seq<SlotRow>, alive: Seq<Seq<char>>, topic: Seq<char>) -> bool {
    forall|a: Seq<char>, b: Seq<char>|
        alive.contains(a) && alive.contains(b) ==> #[trigger] balancer::topic_on(slots, topic, a)
            <= #[trigger] balancer::topic_on(slots, topic, b) + 1
}

/// Every partition is on an alive broker.
pub open spec fn all_placed(slots: Seq<SlotRow>, alive: Seq<Seq<char>>) -> bool {
    forall|i: int|
        0 <= i < slots.len() ==> ((#[trigger] slots[i]).broker matches Some(b) && alive.contains(b))
}

/// The same partitions in the same order, wherever they are.
pub open spec fn same_partitions(a: Seq<SlotRow>, b: Seq<SlotRow>) -> bool {
    &&& a.len() == b.len()
    &&& forall|i: int|
        0 <= i < a.len() ==> (#[trigger] a[i]).topic == (#[trigger] b[i]).topic && a[i].partition == b[i].partition
            && a[i].sticky == b[i].sticky
}

pub open spec fn topic_seq(slots: Seq<SlotRow>) -> Seq<Seq<char>> {
    slots.map_values(|s: SlotRow| s.topic)
}

pub proof fn lemma_picked_max(names: Seq<Seq<char>>, better: spec_fn(Seq<char>, Seq<char>) -> bool)
    requires
        order::ranks(better),
        names.len() > 0,
    ensures
        balancer::picked(names, better) matches Some(x) && names.contains(x) && forall|y: Seq<char>|
            names.contains(y) ==> !#[trigger] better(y, x),
{
    order::lemma_scan_best(names, order::every(), better);
    match order::scan_best(names, order::every(), better) {
        Some(i) => {
            let x = names[i];
            assert forall|y: Seq<char>| names.contains(y) implies !#[trigger] better(y, x) by {
                let j = choose|j: int| 0 <= j < names.len() && names[j] == y;
                assert(order::every()(names[j]));
            }
        },
        None => {
            assert(order::every()(names[0]));
        },
    }
}

/// A broker that holds something holds some partition.
pub proof fn lemma_some_on(slots: Seq<SlotRow>, b: Seq<char>) -> (i: int)
    requires
        balancer::total_on(slots, b) > 0,
    ensures
        0 <= i < slots.len(),
        slots[i].broker == Some(b),
{
    order::lemma_count_bounds(balancer::brokers_of(slots), Some(b));
    let i = choose|i: int| 0 <= i < slots.len() && balancer::brokers_of(slots)[i] == Some(b);
    assert(slots[i].broker == Some(b));
    i
}

pub proof fn lemma_some_of_topic_on(slots: Seq<SlotRow>, t: Seq<char>, b: Seq<char>) -> (i: int)
    requires
        balancer::topic_on(slots, t, b) > 0,
    ensures
        0 <= i < slots.len(),
        slots[i].broker == Some(b),
        slots[i].topic == t,
{
    order::lemma_count_bounds(balancer::spots_of(slots), (t, Some(b)));
    let i = choose|i: int| 0 <= i < slots.len() && balancer::spots_of(slots)[i] == (t, Some(b));
    assert(balancer::spots_of(slots)[i] == (slots[i].topic, slots[i].broker));
    i
}

/// What a move does to the counts.
pub proof fn lemma_move_counts(slots: Seq<SlotRow>, i: int, to: Seq<char>)
    requires
        0 <= i < slots.len(),
    ensures
        forall|b: Seq<char>|
            #[trigger] balancer::total_on(balancer::moved(slots, i, to), b) == balancer::total_on(slots, b) - (
            if slots[i].broker == Some(b) { 1int } else { 0int }) + (if to == b { 1int } else { 0int }),
        forall|t: Seq<char>, b: Seq<char>|
            #[trigger] balancer::topic_on(balancer::moved(slots, i, to), t, b) == balancer::topic_on(slots, t, b) - (
            if slots[i].topic == t && slots[i].broker == Some(b) { 1int } else { 0int }) + (
            if slots[i].topic == t && to == b { 1int } else { 0int }),
{
    let next = balancer::moved(slots, i, to);
    balancer::lemma_moved(slots, i, to);
    assert forall|b: Seq<char>|
        #[trigger] balancer::total_on(next, b) == balancer::total_on(slots, b) - (
            if slots[i].broker == Some(b) { 1int } else { 0int }) + (if to == b { 1int } else { 0int }) by {
        order::lemma_count_update(balancer::brokers_of(slots), i, Some(to), Some(b));
        assert(balancer::brokers_of(slots)[i] == slots[i].broker);
    }
    assert forall|t: Seq<char>, b: Seq<char>|
        #[trigger] balancer::topic_on(next, t, b) == balancer::topic_on(slots, t, b) - (
            if slots[i].topic == t && slots[i].broker == Some(b) { 1int } else { 0int }) + (
            if slots[i].topic == t && to == b { 1int } else { 0int }) by {
        order::lemma_count_update(balancer::spots_of(slots), i, (slots[i].topic, Some(to)), (t, Some(b)));
        assert(balancer::spots_of(slots)[i] == (slots[i].topic, slots[i].broker));
    }
}

// Placement.

pub proof fn lemma_place_at(slots: Seq<SlotRow>, alive: Seq<Seq<char>>, i: int)
    requires
        0 <= i < slots.len(),
        alive.len() > 0,
    ensures
        same_partitions(slots, balancer::place_at(slots, alive, i)),
        forall|j: int| 0 <= j < slots.len() && j != i ==> #[trigger] balancer::place_at(slots, alive, i)[j] == slots[j],
        slots[i].broker is Some ==> balancer::place_at(slots, alive, i) == slots,
        slots[i].broker is None ==> (balancer::place_at(slots, alive, i)[i].broker matches Some(b) && alive.contains(b)
            && balancer::place_at(slots, alive, i) == balancer::moved(slots, i, b)
            && balancer::picked(alive, balancer::better_place(slots, slots[i].topic, slots[i].partition)) == Some(b)),
{
    let better = balancer::better_place(slots, slots[i].topic, slots[i].partition);
    lemma_picked_max(alive, better);
}

/// Placing keeps the partitions, leaves alone those that have a broker, and
/// gives every other one an alive broker.
pub proof fn lemma_place_from(slots: Seq<SlotRow>, alive: Seq<Seq<char>>, i: int)
    requires
        0 <= i <= slots.len(),
        alive.len() > 0,
        forall|j: int| 0 <= j < slots.len() ==> ((#[trigger] slots[j]).broker matches Some(b) ==> alive.contains(b)),
        forall|j: int| 0 <= j < i ==> (#[trigger] slots[j]).broker is Some,
    ensures
        same_partitions(slots, balancer::place_from(slots, alive, i)),
        all_placed(balancer::place_from(slots, alive, i), alive),
        forall|j: int| 0 <= j < slots.len() && (#[trigger] slots[j]).broker is Some ==> balancer::place_from(slots, alive, i)[j] == slots[j],
    decreases slots.len() - i,
{
    if i < slots.len() {
        lemma_place_at(slots, alive, i);
        let next = balancer::place_at(slots, alive, i);
        assert forall|j: int| 0 <= j < next.len() implies ((#[trigger] next[j]).broker matches Some(b) ==> alive.contains(b)) by {
            if j != i {
                assert(next[j] == slots[j]);
            }
        }
        assert forall|j: int| 0 <= j < i + 1 implies (#[trigger] next[j]).broker is Some by {
            if j != i {
                assert(next[j] == slots[j]);
            }
        }
        lemma_place_from(next, alive, i + 1);
        let last = balancer::place_from(next, alive, i + 1);
        assert forall|j: int| 0 <= j < slots.len() && (#[trigger] slots[j]).broker is Some implies last[j] == slots[j] by {
            assert(next[j] == slots[j]);
        }
        assert forall|j: int| 0 <= j < slots.len() implies (#[trigger] slots[j]).topic == (#[trigger] last[j]).topic && slots[j].partition == last[j].partition
            && slots[j].sticky == last[j].sticky by {
            assert(next[j].topic == slots[j].topic);
        }
    }
}

// The cluster pass.

proof fn lemma_smooth_step_keeps(slots: Seq<SlotRow>, alive: Seq<Seq<char>>)
    requires
        alive.len() > 0,
        all_placed(slots, alive),
    ensures
        match balancer::smooth_step(slots, alive) {
            Some(next) => same_partitions(slots, next) && all_placed(next, alive),
            None => cluster_level(slots, alive),
        },
{
    lemma_picked_max(alive, balancer::heavier(slots));
    lemma_picked_max(alive, balancer::lighter(slots));
    let hi = balancer::picked(alive, balancer::heavier(slots))->0;
    let lo = balancer::picked(alive, balancer::lighter(slots))->0;
    if balancer::total_on(slots, hi) <= balancer::total_on(slots, lo) + 1 {
        assert forall|a: Seq<char>, b: Seq<char>| alive.contains(a) && alive.contains(b) implies #[trigger] balancer::total_on(slots, a) <= #[trigger] balancer::total_on(slots, b) + 1 by {
            assert(!balancer::heavier(slots)(a, hi));
            assert(!balancer::lighter(slots)(b, lo));
        }
    } else {
        let ok = balancer::on_broker(hi);
        let better = balancer::cheaper_move(slots, hi, lo);
        order::lemma_scan_index(slots, ok, better);
        let k = lemma_some_on(slots, hi);
        assert(ok(slots[k]));
    }
}

/// The cluster pass levels the cluster and keeps the partitions.
pub proof fn lemma_smooth_from(slots: Seq<SlotRow>, alive: Seq<Seq<char>>)
    requires
        alive.len() > 0,
        all_placed(slots, alive),
    ensures
        same_partitions(slots, balancer::smooth_from(slots, alive)),
        all_placed(balancer::smooth_from(slots, alive), alive),
        cluster_level(balancer::smooth_from(slots, alive), alive),
    decreases order::pairs(balancer::brokers_of(slots)),
{
    lemma_smooth_step_keeps(slots, alive);
    balancer::lemma_smooth_step(slots, alive);
    match balancer::smooth_step(slots, alive) {
        Some(next) => {
            lemma_smooth_from(next, alive);
            let last = balancer::smooth_from(next, alive);
            assert forall|j: int| 0 <= j < slots.len() implies (#[trigger] slots[j]).topic == (#[trigger] last[j]).topic && slots[j].partition == last[j].partition
                && slots[j].sticky == last[j].sticky by {
                assert(next[j].topic == slots[j].topic);
            }
        },
        None => {},
    }
}

pub proof fn lemma_smoothed(slots: Seq<SlotRow>, alive: Seq<Seq<char>>)
    requires
        alive.len() > 0,
        all_placed(slots, alive),
    ensures
        same_partitions(slots, balancer::smoothed(slots, alive)),
        all_placed(balancer::smoothed(slots, alive), alive),
        cluster_level(balancer::smoothed(slots, alive), alive),
{
    if alive.len() >= 2 && slots.len() > 0 {
        lemma_smooth_from(slots, alive);
    } else if alive.len() < 2 {
        assert forall|a: Seq<char>, b: Seq<char>| alive.contains(a) && alive.contains(b) implies a == b by {
            assert(a == alive[0] && b == alive[0]);
        }
    } else {
        assert forall|a: Seq<char>| #[trigger] balancer::total_on(slots, a) == 0 by {}
    }
}

/// A level cluster is left as it is.
pub proof fn lemma_smoothed_fixed(slots: Seq<SlotRow>, alive: Seq<Seq<char>>)
    requires
        alive.len() > 0,
        cluster_level(slots, alive),
    ensures
        balancer::smoothed(slots, alive) == slots,
{
    lemma_picked_max(alive, balancer::heavier(slots));
    lemma_picked_max(alive, balancer::lighter(slots));
}

// The topic pass.

/// The facts about one repair that the laws rest on: it happens exactly where
/// the topic is not level, and it moves one partition of the topic from the
/// broker with the most to the one with the fewest.
proof fn lemma_repaired(slots: Seq<SlotRow>, alive: Seq<Seq<char>>, topics: Seq<Seq<char>>, t: Seq<char>)
    requires
        alive.len() > 0,
        all_placed(slots, alive),
        topics.no_duplicates(),
        forall|i: int| 0 <= i < slots.len() ==> topics.contains((#[trigger] slots[i]).topic),
    ensures
        match balancer::repaired(slots, alive, t) {
            None => topic_level(slots, alive, t),
            Some(next) => {
                &&& same_partitions(slots, next)
                &&& all_placed(next, alive)
                &&& cluster_level(slots, alive) ==> cluster_level(next, alive)
                &&& exists|hi: Seq<char>, lo: Seq<char>, u: Seq<char>| #[trigger] traded(slots, next, alive, t, hi, lo, u)
            },
        },
{
    lemma_picked_max(alive, balancer::more_of(slots, t));
    lemma_picked_max(alive, balancer::less_of(slots, t));
    let hi = balancer::picked(alive, balancer::more_of(slots, t))->0;
    let lo = balancer::picked(alive, balancer::less_of(slots, t))->0;
    assert forall|a: Seq<char>| alive.contains(a) implies balancer::topic_on(slots, t, lo) <= #[trigger] balancer::topic_on(slots, t, a) <= balancer::topic_on(slots, t, hi) by {
        assert(!balancer::more_of(slots, t)(a, hi));
        assert(!balancer::less_of(slots, t)(a, lo));
    }
    if balancer::topic_on(slots, t, hi) > balancer::topic_on(slots, t, lo) + 1 {
        let ok = balancer::of_topic_on(t, hi);
        order::lemma_scan_index(slots, ok, balancer::better_donor());
        let k = lemma_some_of_topic_on(slots, t, hi);
        assert(ok(slots[k]));
        let donor = order::scan_best(slots, ok, balancer::better_donor())->0;
        let mid = balancer::moved(slots, donor, lo);
        lemma_move_counts(slots, donor, lo);
        if balancer::total_on(slots, hi) > balancer::total_on(slots, lo) {
            assert(traded(slots, mid, alive, t, hi, lo, t));
            if cluster_level(slots, alive) {
                assert forall|a: Seq<char>, b: Seq<char>| alive.contains(a) && alive.contains(b) implies #[trigger] balancer::total_on(mid, a) <= #[trigger] balancer::total_on(mid, b) + 1 by {
                    assert(balancer::total_on(slots, a) <= balancer::total_on(slots, b) + 1);
                    assert(balancer::total_on(slots, hi) <= balancer::total_on(slots, lo) + 1);
                    assert(balancer::total_on(slots, hi) <= balancer::total_on(slots, b) + 1);
                    assert(balancer::total_on(slots, a) <= balancer::total_on(slots, lo) + 1);
                }
            }
        } else {
            let may = balancer::may_trade(slots, t, hi, lo);
            order::lemma_scan_index(slots, may, balancer::better_partner());
            if order::scan_best(slots, may, balancer::better_partner()) is None {
                let k = lemma_partner(slots, topics, t, hi, lo);
                assert(may(slots[k]));
            }
            let partner = order::scan_best(slots, may, balancer::better_partner())->0;
            let u = slots[partner].topic;
            assert(donor != partner);
            assert(mid[partner] == slots[partner]);
            let next = balancer::moved(mid, partner, hi);
            lemma_move_counts(mid, partner, hi);
            assert(traded(slots, next, alive, t, hi, lo, u));
            if cluster_level(slots, alive) {
                assert forall|a: Seq<char>, b: Seq<char>| alive.contains(a) && alive.contains(b) implies #[trigger] balancer::total_on(next, a) <= #[trigger] balancer::total_on(next, b) + 1 by {
                    assert(balancer::total_on(slots, a) <= balancer::total_on(slots, b) + 1);
                    assert(balancer::total_on(mid, a) == balancer::total_on(mid, a));
                    assert(balancer::total_on(mid, b) == balancer::total_on(mid, b));
                }
            }
        }
    } else {
        assert forall|a: Seq<char>, b: Seq<char>| alive.contains(a) && alive.contains(b) implies #[trigger] balancer::topic_on(slots, t, a) <= #[trigger] balancer::topic_on(slots, t, b) + 1 by {}
    }
}

/// `next` is `slots` with one partition of `t` moved from `hi`, which holds
/// most of `t`, to `lo`, which holds the fewest, and, where `u` is another
/// topic, one partition of `u` moved back.
spec fn traded(
    slots: Seq<SlotRow>,
    next: Seq<SlotRow>,
    alive: Seq<Seq<char>>,
    t: Seq<char>,
    hi: Seq<char>,
    lo: Seq<char>,
    u: Seq<char>,
) -> bool {
    &&& alive.contains(hi)
    &&& alive.contains(lo)
    &&& balancer::topic_on(slots, t, hi) > balancer::topic_on(slots, t, lo) + 1
    &&& forall|a: Seq<char>| alive.contains(a) ==> balancer::topic_on(slots, t, lo) <= #[trigger] balancer::topic_on(slots, t, a) <= balancer::topic_on(slots, t, hi)
    &&& u != t ==> balancer::topic_on(slots, u, lo) > balancer::topic_on(slots, u, hi)
    &&& forall|x: Seq<char>, a: Seq<char>| #[trigger] balancer::topic_on(next, x, a) == balancer::topic_on(slots, x, a) + shift(
        x,
        a,
        t,
        hi,
        lo,
    ) + (if u != t { shift(x, a, u, lo, hi) } else { 0 })
}

/// The change of a count when a partition of `t` moves.
spec fn shift(x: Seq<char>, a: Seq<char>, t: Seq<char>, from: Seq<char>, to: Seq<char>) -> int {
    if x != t {
        0
    } else if a == from && a != to {
        -1
    } else if a == to && a != from {
        1
    } else {
        0
    }
}

pub open spec fn spot_list(topics: Seq<Seq<char>>, b: Seq<char>) -> Seq<(Seq<char>, Option<Seq<char>>)> {
    topics.map_values(|t: Seq<char>| (t, Some(b)))
}

/// The load of a broker is the sum over the topics.
pub proof fn lemma_total_is_sum(slots: Seq<SlotRow>, topics: Seq<Seq<char>>, b: Seq<char>)
    requires
        topics.no_duplicates(),
        forall|i: int| 0 <= i < slots.len() ==> topics.contains((#[trigger] slots[i]).topic),
    ensures
        order::sum_counts(balancer::spots_of(slots), spot_list(topics, b)) == balancer::total_on(slots, b),
{
    let keys = spot_list(topics, b);
    assert(keys.no_duplicates()) by {
        assert forall|i: int, j: int| 0 <= i < keys.len() && 0 <= j < keys.len() && i != j implies keys[i] != keys[j] by {
            assert(topics[i] != topics[j]);
        }
    }
    order::lemma_sum_counts(balancer::spots_of(slots), keys);
    lemma_total_is_count_if(slots, topics, b, slots.len() as int);
    assert(balancer::spots_of(slots).take(slots.len() as int) =~= balancer::spots_of(slots));
    assert(balancer::brokers_of(slots).take(slots.len() as int) =~= balancer::brokers_of(slots));
}

proof fn lemma_total_is_count_if(slots: Seq<SlotRow>, topics: Seq<Seq<char>>, b: Seq<char>, n: int)
    requires
        0 <= n <= slots.len(),
        forall|i: int| 0 <= i < slots.len() ==> topics.contains((#[trigger] slots[i]).topic),
    ensures
        order::count_if(balancer::spots_of(slots).take(n), order::in_list(spot_list(topics, b))) == order::count_of(
            balancer::brokers_of(slots).take(n),
            Some(b),
        ),
    decreases n,
{
    let spots = balancer::spots_of(slots);
    let brokers = balancer::brokers_of(slots);
    let keys = spot_list(topics, b);
    if n > 0 {
        lemma_total_is_count_if(slots, topics, b, n - 1);
        assert(spots.take(n).drop_last() =~= spots.take(n - 1));
        assert(brokers.take(n).drop_last() =~= brokers.take(n - 1));
        let s = slots[n - 1];
        assert(spots.take(n).last() == (s.topic, s.broker));
        assert(brokers.take(n).last() == s.broker);
        assert(keys.contains((s.topic, s.broker)) <==> s.broker == Some(b)) by {
            if s.broker == Some(b) {
                let k = choose|k: int| 0 <= k < topics.len() && topics[k] == s.topic;
                assert(keys[k] == (s.topic, s.broker));
            }
            if keys.contains((s.topic, s.broker)) {
                let k = choose|k: int| 0 <= k < keys.len() && keys[k] == (s.topic, s.broker);
                assert(keys[k] == (topics[k], Some(b)));
            }
        }
    }
}

/// Where `hi` holds at least two more of `t` than `lo` but no more overall,
/// `lo` holds more of some other topic, and that partition may be traded.
proof fn lemma_partner(slots: Seq<SlotRow>, topics: Seq<Seq<char>>, t: Seq<char>, hi: Seq<char>, lo: Seq<char>) -> (i: int)
    requires
        topics.no_duplicates(),
        forall|i: int| 0 <= i < slots.len() ==> topics.contains((#[trigger] slots[i]).topic),
        balancer::topic_on(slots, t, hi) > balancer::topic_on(slots, t, lo) + 1,
        balancer::total_on(slots, hi) <= balancer::total_on(slots, lo),
    ensures
        0 <= i < slots.len(),
        balancer::may_trade(slots, t, hi, lo)(slots[i]),
{
    if forall|x: Seq<char>| x != t ==> #[trigger] balancer::topic_on(slots, x, lo) <= balancer::topic_on(slots, x, hi) {
        lemma_sum_less(slots, topics, t, hi, lo, topics.len() as int);
        assert(topics.take(topics.len() as int) =~= topics);
        lemma_total_is_sum(slots, topics, hi);
        lemma_total_is_sum(slots, topics, lo);
        let k = lemma_some_of_topic_on(slots, t, hi);
        assert(topics.contains(t));
    }
    let x = choose|x: Seq<char>| x != t && #[trigger] balancer::topic_on(slots, x, lo) > balancer::topic_on(slots, x, hi);
    lemma_some_of_topic_on(slots, x, lo)
}

proof fn lemma_sum_less(slots: Seq<SlotRow>, topics: Seq<Seq<char>>, t: Seq<char>, hi: Seq<char>, lo: Seq<char>, n: int)
    requires
        0 <= n <= topics.len(),
        forall|x: Seq<char>| x != t ==> #[trigger] balancer::topic_on(slots, x, lo) <= balancer::topic_on(slots, x, hi),
        balancer::topic_on(slots, t, hi) > balancer::topic_on(slots, t, lo) + 1,
    ensures
        order::sum_counts(balancer::spots_of(slots), spot_list(topics.take(n), lo)) + (if topics.take(n).contains(t) { 1int } else { 0int })
            <= order::sum_counts(balancer::spots_of(slots), spot_list(topics.take(n), hi)),
    decreases n,
{
    let spots = balancer::spots_of(slots);
    if n > 0 {
        lemma_sum_less(slots, topics, t, hi, lo, n - 1);
        assert(spot_list(topics.take(n), lo).drop_last() =~= spot_list(topics.take(n - 1), lo));
        assert(spot_list(topics.take(n), hi).drop_last() =~= spot_list(topics.take(n - 1), hi));
        let x = topics[n - 1];
        assert(spot_list(topics.take(n), lo).last() == (x, Some(lo)));
        assert(spot_list(topics.take(n), hi).last() == (x, Some(hi)));
        assert(balancer::topic_on(slots, x, lo) == order::count_of(spots, (x, Some(lo))));
        assert(balancer::topic_on(slots, x, hi) == order::count_of(spots, (x, Some(hi))));
        if topics.take(n).contains(t) && x != t {
            let k = choose|k: int| 0 <= k < n && topics.take(n)[k] == t;
            assert(topics.take(n - 1)[k] == t);
        }
    } else {
        assert(spot_list(topics.take(0), lo) =~= Seq::empty());
        assert(spot_list(topics.take(0), hi) =~= Seq::empty());
    }
}

// How far a layout is from being level, topic by topic.

/// Distance of a count from the range `f..=f + 1`.
spec fn gap(c: int, f: int) -> int {
    if c > f + 1 {
        c - f - 1
    } else if c < f {
        f - c
    } else {
        0
    }
}

spec fn topic_gap(slots: Seq<SlotRow>, alive: Seq<Seq<char>>, t: Seq<char>, f: int) -> int
    decreases alive.len(),
{
    if alive.len() == 0 {
        0
    } else {
        topic_gap(slots, alive.drop_last(), t, f) + gap(balancer::topic_on(slots, t, alive.last()) as int, f)
    }
}

spec fn share(slots: Seq<SlotRow>, alive: Seq<Seq<char>>, t: Seq<char>) -> int {
    order::count_of(topic_seq(slots), t) as int / alive.len() as int
}

spec fn layout_gap(slots: Seq<SlotRow>, alive: Seq<Seq<char>>, topics: Seq<Seq<char>>) -> int
    decreases topics.len(),
{
    if topics.len() == 0 {
        0
    } else {
        layout_gap(slots, alive, topics.drop_last()) + topic_gap(
            slots,
            alive,
            topics.last(),
            share(slots, alive, topics.last()),
        )
    }
}

/// What the brokers hold of a topic adds up to its partitions.
pub proof fn lemma_topic_is_sum(slots: Seq<SlotRow>, alive: Seq<Seq<char>>, t: Seq<char>)
    requires
        alive.no_duplicates(),
        all_placed(slots, alive),
    ensures
        sum_on(slots, alive, t) == order::count_of(topic_seq(slots), t),
{
    let keys = Seq::new(alive.len(), |i: int| (t, Some(alive[i])));
    assert(keys.no_duplicates()) by {
        assert forall|i: int, j: int| 0 <= i < keys.len() && 0 <= j < keys.len() && i != j implies keys[i] != keys[j] by {
            assert(alive[i] != alive[j]);
        }
    }
    order::lemma_sum_counts(balancer::spots_of(slots), keys);
    lemma_topic_is_count_if(slots, alive, t, slots.len() as int, keys);
    assert(balancer::spots_of(slots).take(slots.len() as int) =~= balancer::spots_of(slots));
    assert(topic_seq(slots).take(slots.len() as int) =~= topic_seq(slots));
    lemma_sum_on(slots, alive, t, alive.len() as int, keys);
    assert(keys.take(alive.len() as int) =~= keys);
    assert(alive.take(alive.len() as int) =~= alive);
}

pub open spec fn sum_on(slots: Seq<SlotRow>, alive: Seq<Seq<char>>, t: Seq<char>) -> nat
    decreases alive.len(),
{
    if alive.len() == 0 {
        0
    } else {
        sum_on(slots, alive.drop_last(), t) + balancer::topic_on(slots, t, alive.last())
    }
}

pub proof fn lemma_sum_on(slots: Seq<SlotRow>, alive: Seq<Seq<char>>, t: Seq<char>, n: int, keys: Seq<(Seq<char>, Option<Seq<char>>)>)
    requires
        0 <= n <= alive.len(),
        keys.len() == alive.len(),
        forall|i: int| 0 <= i < keys.len() ==> #[trigger] keys[i] == (t, Some(alive[i])),
    ensures
        sum_on(slots, alive.take(n), t) == order::sum_counts(balancer::spots_of(slots), keys.take(n)),
    decreases n,
{
    if n > 0 {
        lemma_sum_on(slots, alive, t, n - 1, keys);
        assert(alive.take(n).drop_last() =~= alive.take(n - 1));
        assert(keys.take(n).drop_last() =~= keys.take(n - 1));
        assert(keys.take(n).last() == keys[n - 1]);
    }
}

proof fn lemma_topic_is_count_if(slots: Seq<SlotRow>, alive: Seq<Seq<char>>, t: Seq<char>, n: int, keys: Seq<(Seq<char>, Option<Seq<char>>)>)
    requires
        0 <= n <= slots.len(),
        all_placed(slots, alive),
        keys.len() == alive.len(),
        forall|i: int| 0 <= i < keys.len() ==> #[trigger] keys[i] == (t, Some(alive[i])),
    ensures
        order::count_if(balancer::spots_of(slots).take(n), order::in_list(keys)) == order::count_of(topic_seq(slots).take(n), t),
    decreases n,
{
    let spots = balancer::spots_of(slots);
    let ts = topic_seq(slots);
    if n > 0 {
        lemma_topic_is_count_if(slots, alive, t, n - 1, keys);
        assert(spots.take(n).drop_last() =~= spots.take(n - 1));
        assert(ts.take(n).drop_last() =~= ts.take(n - 1));
        let s = slots[n - 1];
        assert(spots.take(n).last() == (s.topic, s.broker));
        assert(ts.take(n).last() == s.topic);
        assert(keys.contains((s.topic, s.broker)) <==> s.topic == t) by {
            if s.topic == t {
                let b = s.broker->0;
                assert(alive.contains(b));
                let k = choose|k: int| 0 <= k < alive.len() && alive[k] == b;
                assert(keys[k] == (s.topic, s.broker));
            }
        }
    }
}

/// Bounds on a sum from bounds on its terms.
pub proof fn lemma_sum_bounds(slots: Seq<SlotRow>, alive: Seq<Seq<char>>, t: Seq<char>, m: int)
    ensures
        (forall|a: Seq<char>| alive.contains(a) ==> #[trigger] balancer::topic_on(slots, t, a) >= m) ==> sum_on(slots, alive, t) >= m * alive.len(),
        (forall|a: Seq<char>| alive.contains(a) ==> #[trigger] balancer::topic_on(slots, t, a) <= m) ==> sum_on(slots, alive, t) <= m * alive.len(),
        (forall|a: Seq<char>| alive.contains(a) ==> #[trigger] balancer::topic_on(slots, t, a) <= m) && (
        exists|a: Seq<char>| alive.contains(a) && #[trigger] balancer::topic_on(slots, t, a) < m) ==> sum_on(slots, alive, t) < m * alive.len(),
    decreases alive.len(),
{
    if alive.len() > 0 {
        let d = alive.drop_last();
        lemma_sum_bounds(slots, d, t, m);
        assert(forall|a: Seq<char>| d.contains(a) ==> alive.contains(a)) by {
            assert forall|a: Seq<char>| d.contains(a) implies alive.contains(a) by {
                let k = choose|k: int| 0 <= k < d.len() && d[k] == a;
                assert(alive[k] == a);
            }
        }
        assert(alive.contains(alive.last()));
        assert(m * alive.len() == m * d.len() + m) by (nonlinear_arith)
            requires
                alive.len() == d.len() + 1,
        ;
        if exists|a: Seq<char>| alive.contains(a) && #[trigger] balancer::topic_on(slots, t, a) < m {
            let a = choose|a: Seq<char>| alive.contains(a) && #[trigger] balancer::topic_on(slots, t, a) < m;
            if a != alive.last() {
                let k = choose|k: int| 0 <= k < alive.len() && alive[k] == a;
                assert(d[k] == a);
            }
        }
    } else {
        assert(m * 0 == 0) by (nonlinear_arith);
    }
}

/// The gap of a topic after a partition of it moved.
proof fn lemma_gap_shift(slots: Seq<SlotRow>, next: Seq<SlotRow>, alive: Seq<Seq<char>>, t: Seq<char>, f: int, from: Seq<char>, to: Seq<char>)
    requires
        alive.no_duplicates(),
        from != to,
        forall|a: Seq<char>| #[trigger] balancer::topic_on(next, t, a) == balancer::topic_on(slots, t, a) + shift(t, a, t, from, to),
    ensures
        topic_gap(next, alive, t, f) == topic_gap(slots, alive, t, f) + (if alive.contains(from) {
            gap(balancer::topic_on(slots, t, from) as int - 1, f) - gap(balancer::topic_on(slots, t, from) as int, f)
        } else { 0 }) + (if alive.contains(to) {
            gap(balancer::topic_on(slots, t, to) as int + 1, f) - gap(balancer::topic_on(slots, t, to) as int, f)
        } else { 0 }),
    decreases alive.len(),
{
    if alive.len() > 0 {
        let d = alive.drop_last();
        lemma_gap_shift(slots, next, d, t, f, from, to);
        let x = alive.last();
        assert forall|a: Seq<char>| alive.contains(a) <==> d.contains(a) || a == x by {
            if alive.contains(a) && a != x {
                let k = choose|k: int| 0 <= k < alive.len() && alive[k] == a;
                assert(d[k] == a);
            }
            if d.contains(a) {
                let k = choose|k: int| 0 <= k < d.len() && d[k] == a;
                assert(alive[k] == a);
            }
            if a == x {
                assert(alive[alive.len() - 1] == a);
            }
        }
        assert(!d.contains(x)) by {
            if d.contains(x) {
                let k = choose|k: int| 0 <= k < d.len() && d[k] == x;
                assert(alive[k] != alive[alive.len() - 1]);
            }
        }
        assert(balancer::topic_on(next, t, x) == balancer::topic_on(slots, t, x) + shift(t, x, t, from, to));
    }
}

proof fn lemma_gap_same(slots: Seq<SlotRow>, next: Seq<SlotRow>, alive: Seq<Seq<char>>, t: Seq<char>, f: int)
    requires
        forall|a: Seq<char>| #[trigger] balancer::topic_on(next, t, a) == balancer::topic_on(slots, t, a),
    ensures
        topic_gap(next, alive, t, f) == topic_gap(slots, alive, t, f),
    decreases alive.len(),
{
    if alive.len() > 0 {
        lemma_gap_same(slots, next, alive.drop_last(), t, f);
    }
}

/// A repair brings its topic nearer to level and no topic farther from it.
proof fn lemma_trade_gaps(
    slots: Seq<SlotRow>,
    next: Seq<SlotRow>,
    alive: Seq<Seq<char>>,
    t: Seq<char>,
    hi: Seq<char>,
    lo: Seq<char>,
    u: Seq<char>,
    x: Seq<char>,
)
    requires
        alive.no_duplicates(),
        all_placed(slots, alive),
        traded(slots, next, alive, t, hi, lo, u),
    ensures
        topic_gap(next, alive, x, share(slots, alive, x)) + (if x == t { 1int } else { 0int }) <= topic_gap(
            slots,
            alive,
            x,
            share(slots, alive, x),
        ),
{
    let f = share(slots, alive, x);
    assert(hi != lo);
    if x == t {
        assert forall|a: Seq<char>| #[trigger] balancer::topic_on(next, t, a) == balancer::topic_on(slots, t, a) + shift(t, a, t, hi, lo) by {}
        lemma_gap_shift(slots, next, alive, t, f, hi, lo);
        lemma_topic_is_sum(slots, alive, t);
        let n = order::count_of(topic_seq(slots), t) as int;
        let k = alive.len() as int;
        assert(k > 0) by {
            assert(alive.contains(hi));
        }
        assert(f * k <= n < (f + 1) * k) by (nonlinear_arith)
            requires
                k > 0,
                f == n / k,
        ;
        let h = balancer::topic_on(slots, t, hi) as int;
        let l = balancer::topic_on(slots, t, lo) as int;
        lemma_sum_bounds(slots, alive, t, f + 1);
        lemma_sum_bounds(slots, alive, t, f);
        if l >= f + 1 {
            assert(forall|a: Seq<char>| alive.contains(a) ==> #[trigger] balancer::topic_on(slots, t, a) >= f + 1);
        }
        if h <= f {
            assert(forall|a: Seq<char>| alive.contains(a) ==> #[trigger] balancer::topic_on(slots, t, a) <= f);
            assert(alive.contains(lo) && balancer::topic_on(slots, t, lo) < f);
        }
    } else if x == u {
        assert forall|a: Seq<char>| #[trigger] balancer::topic_on(next, u, a) == balancer::topic_on(slots, u, a) + shift(u, a, u, lo, hi) by {}
        lemma_gap_shift(slots, next, alive, u, f, lo, hi);
    } else {
        assert forall|a: Seq<char>| #[trigger] balancer::topic_on(next, x, a) == balancer::topic_on(slots, x, a) by {}
        lemma_gap_same(slots, next, alive, x, f);
    }
}

proof fn lemma_layout_gap_drops(
    slots: Seq<SlotRow>,
    next: Seq<SlotRow>,
    alive: Seq<Seq<char>>,
    topics: Seq<Seq<char>>,
    t: Seq<char>,
    hi: Seq<char>,
    lo: Seq<char>,
    u: Seq<char>,
)
    requires
        alive.no_duplicates(),
        all_placed(slots, alive),
        same_partitions(slots, next),
        traded(slots, next, alive, t, hi, lo, u),
    ensures
        layout_gap(next, alive, topics) + (if topics.contains(t) { 1int } else { 0int }) <= layout_gap(slots, alive, topics),
    decreases topics.len(),
{
    if topics.len() > 0 {
        let d = topics.drop_last();
        lemma_layout_gap_drops(slots, next, alive, d, t, hi, lo, u);
        let x = topics.last();
        lemma_trade_gaps(slots, next, alive, t, hi, lo, u, x);
        assert(topic_seq(next) =~= topic_seq(slots));
        if topics.contains(t) && x != t {
            let k = choose|k: int| 0 <= k < topics.len() && topics[k] == t;
            assert(d[k] == t);
        }
    }
}

proof fn lemma_topic_gap_bound(slots: Seq<SlotRow>, alive: Seq<Seq<char>>, t: Seq<char>, f: int)
    requires
        f >= 0,
    ensures
        0 <= topic_gap(slots, alive, t, f) <= sum_on(slots, alive, t) + f * alive.len(),
    decreases alive.len(),
{
    if alive.len() > 0 {
        let d = alive.drop_last();
        lemma_topic_gap_bound(slots, d, t, f);
        assert(f * alive.len() == f * d.len() + f) by (nonlinear_arith)
            requires
                alive.len() == d.len() + 1,
        ;
    } else {
        assert(f * 0 == 0) by (nonlinear_arith);
    }
}

proof fn lemma_layout_gap_bound(slots: Seq<SlotRow>, alive: Seq<Seq<char>>, topics: Seq<Seq<char>>)
    requires
        alive.no_duplicates(),
        alive.len() > 0,
        all_placed(slots, alive),
    ensures
        0 <= layout_gap(slots, alive, topics) <= 2 * order::sum_counts(topic_seq(slots), topics),
    decreases topics.len(),
{
    if topics.len() > 0 {
        lemma_layout_gap_bound(slots, alive, topics.drop_last());
        let x = topics.last();
        let n = order::count_of(topic_seq(slots), x) as int;
        let k = alive.len() as int;
        let f = share(slots, alive, x);
        assert(0 <= f && f * k <= n) by (nonlinear_arith)
            requires
                k > 0,
                n >= 0,
                f == n / k,
        ;
        lemma_topic_gap_bound(slots, alive, x, f);
        lemma_topic_is_sum(slots, alive, x);
    }
}

/// The repairs that a layout still needs are fewer than the topic pass makes.
proof fn lemma_level_from(slots: Seq<SlotRow>, alive: Seq<Seq<char>>, names: Seq<Seq<char>>, topics: Seq<Seq<char>>, fuel: nat)
    requires
        alive.len() > 0,
        names.no_duplicates(),
        forall|a: Seq<char>| names.contains(a) <==> alive.contains(a),
        all_placed(slots, alive),
        cluster_level(slots, alive),
        topics.no_duplicates(),
        forall|i: int| 0 <= i < slots.len() ==> topics.contains((#[trigger] slots[i]).topic),
        layout_gap(slots, names, topics) < fuel,
    ensures
        ({
            let last = balancer::level_from(slots, alive, topics, fuel);
            &&& same_partitions(slots, last)
            &&& all_placed(last, alive)
            &&& cluster_level(last, alive)
            &&& forall|t: Seq<char>| topics.contains(t) ==> #[trigger] topic_level(last, alive, t)
        }),
    decreases fuel,
{
    lemma_repaired_from(slots, alive, names, topics, 0);
    assert(names.len() > 0) by {
        assert(alive.contains(alive[0]));
        assert(names.contains(alive[0]));
    }
    lemma_layout_gap_bound(slots, names, topics);
    match balancer::repaired_from(slots, alive, topics, 0) {
        Some(next) => {
            assert forall|i: int| 0 <= i < next.len() implies topics.contains((#[trigger] next[i]).topic) by {
                assert(slots[i].topic == next[i].topic);
            }
            lemma_layout_gap_bound(next, names, topics);
            lemma_level_from(next, alive, names, topics, (fuel - 1) as nat);
            let last = balancer::level_from(next, alive, topics, (fuel - 1) as nat);
            assert forall|j: int| 0 <= j < slots.len() implies (#[trigger] slots[j]).topic == (#[trigger] last[j]).topic && slots[j].partition == last[j].partition
                && slots[j].sticky == last[j].sticky by {
                assert(next[j].topic == slots[j].topic);
            }
        },
        None => {},
    }
}

proof fn lemma_repaired_from(slots: Seq<SlotRow>, alive: Seq<Seq<char>>, names: Seq<Seq<char>>, topics: Seq<Seq<char>>, j: int)
    requires
        0 <= j <= topics.len(),
        alive.len() > 0,
        names.no_duplicates(),
        forall|a: Seq<char>| names.contains(a) <==> alive.contains(a),
        all_placed(slots, alive),
        topics.no_duplicates(),
        forall|i: int| 0 <= i < slots.len() ==> topics.contains((#[trigger] slots[i]).topic),
        forall|i: int| 0 <= i < j ==> topic_level(slots, alive, #[trigger] topics[i]),
    ensures
        match balancer::repaired_from(slots, alive, topics, j) {
            Some(next) => {
                &&& same_partitions(slots, next)
                &&& all_placed(next, alive)
                &&& all_placed(next, names)
                &&& cluster_level(slots, alive) ==> cluster_level(next, alive)
                &&& layout_gap(next, names, topics) < layout_gap(slots, names, topics)
            },
            None => forall|t: Seq<char>| topics.contains(t) ==> #[trigger] topic_level(slots, alive, t),
        },
        all_placed(slots, names),
    decreases topics.len() - j,
{
    assert forall|i: int| 0 <= i < slots.len() implies ((#[trigger] slots[i]).broker matches Some(b) && names.contains(b)) by {
        let b = slots[i].broker->0;
        assert(alive.contains(b));
    }
    if j < topics.len() {
        let t = topics[j];
        lemma_repaired(slots, alive, topics, t);
        match balancer::repaired(slots, alive, t) {
            Some(next) => {
                let (hi, lo, u) = choose|hi: Seq<char>, lo: Seq<char>, u: Seq<char>| #[trigger] traded(slots, next, alive, t, hi, lo, u);
                assert(traded(slots, next, names, t, hi, lo, u));
                lemma_layout_gap_drops(slots, next, names, topics, t, hi, lo, u);
                assert forall|i: int| 0 <= i < next.len() implies ((#[trigger] next[i]).broker matches Some(b) && names.contains(b)) by {
                    let b = next[i].broker->0;
                    assert(alive.contains(b));
                }
            },
            None => {
                lemma_repaired_from(slots, alive, names, topics, j + 1);
            },
        }
    } else {
        assert forall|t: Seq<char>| topics.contains(t) implies #[trigger] topic_level(slots, alive, t) by {
            let i = choose|i: int| 0 <= i < topics.len() && topics[i] == t;
            assert(topic_level(slots, alive, topics[i]));
        }
    }
}

/// The topic pass levels every topic, and keeps the cluster level.
pub proof fn lemma_levelled(slots: Seq<SlotRow>, alive: Seq<Seq<char>>)
    requires
        alive.len() > 0,
        all_placed(slots, alive),
        cluster_level(slots, alive),
    ensures
        same_partitions(slots, balancer::levelled(slots, alive)),
        all_placed(balancer::levelled(slots, alive), alive),
        cluster_level(balancer::levelled(slots, alive), alive),
        forall|t: Seq<char>| #[trigger] topic_level(balancer::levelled(slots, alive), alive, t),
{
    let last = balancer::levelled(slots, alive);
    if alive.len() >= 2 && slots.len() > 0 {
        let topics = balancer::topics_of(slots);
        let names = order::in_order(alive.to_set());
        let ts = topic_seq(slots);
        order::lemma_in_order_exists(ts);
        order::lemma_in_order_exists(alive);
        order::lemma_increasing_distinct(topics);
        order::lemma_increasing_distinct(names);
        assert forall|a: Seq<char>| names.contains(a) <==> alive.contains(a) by {
            assert(names.to_set().contains(a) <==> alive.to_set().contains(a));
        }
        assert forall|i: int| 0 <= i < slots.len() implies topics.contains((#[trigger] slots[i]).topic) by {
            assert(ts[i] == slots[i].topic);
            assert(ts.to_set().contains(ts[i]));
            assert(topics.to_set().contains(ts[i]));
        }
        assert(names.len() > 0) by {
            assert(alive.contains(alive[0]));
            assert(names.contains(alive[0]));
        }
        assert(all_placed(slots, names)) by {
            assert forall|i: int| 0 <= i < slots.len() implies ((#[trigger] slots[i]).broker matches Some(b) && names.contains(b)) by {
                let b = slots[i].broker->0;
                assert(alive.contains(b));
            }
        }
        lemma_layout_gap_bound(slots, names, topics);
        order::lemma_sum_counts(ts, topics);
        order::lemma_count_if_bound(ts, order::in_list(topics));
        let n = slots.len() as int;
        let k = alive.len() as int;
        assert(2 * n <= n * k) by (nonlinear_arith)
            requires
                n >= 0,
                k >= 2,
        ;
        lemma_level_from(slots, alive, names, topics, balancer::repair_cap(slots, alive));
        assert forall|t: Seq<char>| #[trigger] topic_level(last, alive, t) by {
            if !topics.contains(t) {
                assert forall|a: Seq<char>| #[trigger] balancer::topic_on(last, t, a) == 0 by {
                    if balancer::topic_on(last, t, a) > 0 {
                        let i = lemma_some_of_topic_on(last, t, a);
                        assert(slots[i].topic == t);
                    }
                }
            }
        }
    } else if alive.len() < 2 {
        assert forall|a: Seq<char>, b: Seq<char>| alive.contains(a) && alive.contains(b) implies a == b by {
            assert(a == alive[0] && b == alive[0]);
        }
    } else {
        assert forall|t: Seq<char>, a: Seq<char>| #[trigger] balancer::topic_on(slots, t, a) == 0 by {}
    }
}

/// A layout with level topics is left as it is.
pub proof fn lemma_levelled_fixed(slots: Seq<SlotRow>, alive: Seq<Seq<char>>)
    requires
        alive.len() > 0,
        forall|t: Seq<char>| #[trigger] topic_level(slots, alive, t),
    ensures
        balancer::levelled(slots, alive) == slots,
{
    lemma_repaired_none(slots, alive, balancer::topics_of(slots), 0);
}

proof fn lemma_repaired_none(slots: Seq<SlotRow>, alive: Seq<Seq<char>>, topics: Seq<Seq<char>>, j: int)
    requires
        0 <= j <= topics.len(),
        alive.len() > 0,
        forall|t: Seq<char>| #[trigger] topic_level(slots, alive, t),
    ensures
        balancer::repaired_from(slots, alive, topics, j) is None,
    decreases topics.len() - j,
{
    if j < topics.len() {
        let t = topics[j];
        assert(topic_level(slots, alive, t));
        lemma_picked_max(alive, balancer::more_of(slots, t));
        lemma_picked_max(alive, balancer::less_of(slots, t));
        lemma_repaired_none(slots, alive, topics, j + 1);
    }
}

// From slots to rows.

pub open spec fn distinct_topics(topics: Seq<TopicRow>) -> bool {
    forall|i: int, j: int| 0 <= i < j < topics.len() ==> (#[trigger] topics[i]).name != (#[trigger] topics[j]).name
}

pub proof fn lemma_prev_entry(prev: Seq<assignment::PartitionRow>, topic: Seq<char>, partition: i32)
    ensures
        balancer::prev_entry(prev, topic, partition) matches Some(p) ==> p.topic == topic && p.partition == partition && prev.contains(p),
    decreases prev.len(),
{
    if prev.len() > 0 {
        lemma_prev_entry(prev.drop_last(), topic, partition);
        if prev.last().topic == topic && prev.last().partition == partition {
            assert(prev[prev.len() - 1] == prev.last());
        } else {
            match balancer::prev_entry(prev.drop_last(), topic, partition) {
                Some(p) => {
                    let k = choose|k: int| 0 <= k < prev.len() - 1 && prev.drop_last()[k] == p;
                    assert(prev[k] == p);
                },
                None => {},
            }
        }
    }
}

/// The only entry for a partition is the one that is found.
proof fn lemma_prev_entry_unique(prev: Seq<assignment::PartitionRow>, i: int)
    requires
        0 <= i < prev.len(),
        forall|j: int| 0 <= j < prev.len() && j != i ==> (#[trigger] prev[j]).topic != prev[i].topic || prev[j].partition != prev[i].partition,
    ensures
        balancer::prev_entry(prev, prev[i].topic, prev[i].partition) == Some(prev[i]),
    decreases prev.len(),
{
    if i < prev.len() - 1 {
        let d = prev.drop_last();
        assert forall|j: int| 0 <= j < d.len() && j != i implies (#[trigger] d[j]).topic != d[i].topic || d[j].partition != d[i].partition by {
            assert(d[j] == prev[j]);
        }
        lemma_prev_entry_unique(d, i);
        assert(prev[prev.len() - 1].topic != prev[i].topic || prev[prev.len() - 1].partition != prev[i].partition);
    }
}

/// A partition before placement is what its key makes it, and its topic is in
/// the catalogue.
pub proof fn lemma_pinned(prev: Seq<assignment::PartitionRow>, alive: Seq<Seq<char>>, topics: Seq<TopicRow>)
    ensures
        forall|i: int| 0 <= i < balancer::pinned(prev, alive, topics).len() ==> {
            let s = #[trigger] balancer::pinned(prev, alive, topics)[i];
            &&& s == balancer::pinned_slot(prev, alive, s.topic, s.partition)
            &&& exists|k: int| 0 <= k < topics.len() && (#[trigger] topics[k]).name == s.topic
        },
    decreases topics.len(),
{
    let all = balancer::pinned(prev, alive, topics);
    if topics.len() > 0 {
        let d = topics.drop_last();
        lemma_pinned(prev, alive, d);
        let head = balancer::pinned(prev, alive, d);
        let tail = balancer::pinned_topic(prev, alive, topics.last().name, topics.last().partition_count as int);
        assert forall|i: int| 0 <= i < all.len() implies ({
            let s = #[trigger] all[i];
            &&& s == balancer::pinned_slot(prev, alive, s.topic, s.partition)
            &&& exists|k: int| 0 <= k < topics.len() && (#[trigger] topics[k]).name == s.topic
        }) by {
            if i < head.len() {
                assert(all[i] == head[i]);
                let k = choose|k: int| 0 <= k < d.len() && (#[trigger] d[k]).name == head[i].topic;
                assert(topics[k].name == all[i].topic);
            } else {
                assert(all[i] == tail[i - head.len()]);
                assert(topics[topics.len() - 1].name == all[i].topic);
            }
        }
    }
}

/// The keys before placement depend on the catalogue alone.
proof fn lemma_pinned_keys(p: Seq<assignment::PartitionRow>, q: Seq<assignment::PartitionRow>, alive: Seq<Seq<char>>, topics: Seq<TopicRow>)
    ensures
        balancer::pinned(p, alive, topics).len() == balancer::pinned(q, alive, topics).len(),
        forall|i: int| 0 <= i < balancer::pinned(p, alive, topics).len() ==> (#[trigger] balancer::pinned(p, alive, topics)[i]).topic == (#[trigger] balancer::pinned(q, alive, topics)[i]).topic
            && balancer::pinned(p, alive, topics)[i].partition == balancer::pinned(q, alive, topics)[i].partition,
    decreases topics.len(),
{
    if topics.len() > 0 {
        let d = topics.drop_last();
        lemma_pinned_keys(p, q, alive, d);
        let a = balancer::pinned(p, alive, topics);
        let b = balancer::pinned(q, alive, topics);
        let n = balancer::pinned(p, alive, d).len();
        assert forall|i: int| 0 <= i < a.len() implies (#[trigger] a[i]).topic == (#[trigger] b[i]).topic && a[i].partition == b[i].partition by {
            if i < n {
                assert(a[i] == balancer::pinned(p, alive, d)[i]);
                assert(b[i] == balancer::pinned(q, alive, d)[i]);
            }
        }
    }
}

/// No partition occurs twice where no topic does.
proof fn lemma_pinned_distinct(prev: Seq<assignment::PartitionRow>, alive: Seq<Seq<char>>, topics: Seq<TopicRow>)
    requires
        distinct_topics(topics),
    ensures
        forall|i: int, j: int| 0 <= i < j < balancer::pinned(prev, alive, topics).len() ==> (#[trigger] balancer::pinned(prev, alive, topics)[i]).topic
            != (#[trigger] balancer::pinned(prev, alive, topics)[j]).topic || balancer::pinned(prev, alive, topics)[i].partition != balancer::pinned(prev, alive, topics)[j].partition,
    decreases topics.len(),
{
    if topics.len() > 0 {
        let d = topics.drop_last();
        assert(distinct_topics(d)) by {
            assert forall|i: int, j: int| 0 <= i < j < d.len() implies (#[trigger] d[i]).name != (#[trigger] d[j]).name by {
                assert(topics[i].name != topics[j].name);
            }
        }
        lemma_pinned_distinct(prev, alive, d);
        lemma_pinned(prev, alive, d);
        let all = balancer::pinned(prev, alive, topics);
        let head = balancer::pinned(prev, alive, d);
        let last = topics.last();
        let tail = balancer::pinned_topic(prev, alive, last.name, last.partition_count as int);
        assert forall|i: int, j: int| 0 <= i < j < all.len() implies (#[trigger] all[i]).topic != (#[trigger] all[j]).topic || all[i].partition != all[j].partition by {
            if j < head.len() {
                assert(all[i] == head[i] && all[j] == head[j]);
            } else if i < head.len() {
                assert(all[i] == head[i]);
                assert(all[j] == tail[j - head.len()]);
                let k = choose|k: int| 0 <= k < d.len() && (#[trigger] d[k]).name == head[i].topic;
                assert(topics[k].name != topics[topics.len() - 1].name);
            } else {
                assert(all[i] == tail[i - head.len()]);
                assert(all[j] == tail[j - head.len()]);
            }
        }
    }
}

/// The layout: every partition of the catalogue in catalogue order, on an
/// alive broker, with the cluster level and every topic level.
pub proof fn law_layout(prev: Seq<assignment::PartitionRow>, alive: Seq<Seq<char>>, topics: Seq<TopicRow>)
    requires
        alive.len() > 0,
    ensures
        same_partitions(balancer::pinned(prev, alive, topics), balancer::layout(prev, alive, topics)),
        all_placed(balancer::layout(prev, alive, topics), alive),
        cluster_level(balancer::layout(prev, alive, topics), alive),
        forall|t: Seq<char>| #[trigger] topic_level(balancer::layout(prev, alive, topics), alive, t),
{
    let a = balancer::pinned(prev, alive, topics);
    lemma_pinned(prev, alive, topics);
    assert forall|j: int| 0 <= j < a.len() implies ((#[trigger] a[j]).broker matches Some(b) ==> alive.contains(b)) by {
        assert(a[j] == balancer::pinned_slot(prev, alive, a[j].topic, a[j].partition));
    }
    lemma_place_from(a, alive, 0);
    let b = balancer::place_from(a, alive, 0);
    lemma_smoothed(b, alive);
    let c = balancer::smoothed(b, alive);
    lemma_levelled(c, alive);
    let d = balancer::levelled(c, alive);
    assert forall|i: int| 0 <= i < a.len() implies (#[trigger] a[i]).topic == (#[trigger] d[i]).topic && a[i].partition == d[i].partition && a[i].sticky == d[i].sticky by {
        assert(a[i].topic == b[i].topic);
        assert(b[i].topic == c[i].topic);
        assert(c[i].topic == d[i].topic);
    }
}

/// A row names the partition and the broker of its slot.
pub proof fn lemma_settled_row(prev: Seq<assignment::PartitionRow>, alive: Seq<Seq<char>>, floor: Map<Seq<char>, u32>, slot: SlotRow)
    requires
        slot.broker is Some,
    ensures
        ({
            let row = balancer::settled_row(prev, alive, floor, slot);
            &&& row.topic == slot.topic
            &&& row.partition == slot.partition
            &&& Some(row.broker) == slot.broker
            &&& row.epoch >= balancer::floor_of(floor, slot.topic, slot.partition)
            &&& row.epoch >= 1 || balancer::prev_entry(prev, slot.topic, slot.partition) is Some
            &&& balancer::epoch_fits(prev, alive, floor, slot) ==> (balancer::prev_entry(prev, slot.topic, slot.partition) matches Some(p)
                ==> row.epoch >= p.epoch && (row.broker != p.broker ==> row.epoch > p.epoch))
        }),
{
    lemma_prev_entry(prev, slot.topic, slot.partition);
}

/// Every partition of the catalogue gets exactly one row, in catalogue order,
/// led by an alive broker.
pub proof fn law_every_partition_is_led(
    prev: Seq<assignment::PartitionRow>,
    brokers: Seq<Seq<char>>,
    topics: Seq<TopicRow>,
    floor: Map<Seq<char>, u32>,
)
    requires
        brokers.len() > 0,
    ensures
        ({
            let rows = balancer::balanced(prev, brokers, topics, floor);
            let keys = balancer::pinned(Seq::empty(), brokers, topics);
            &&& rows.len() == keys.len()
            &&& forall|i: int|
                0 <= i < rows.len() ==> (#[trigger] rows[i]).topic == keys[i].topic && rows[i].partition == keys[i].partition && brokers.contains(rows[i].broker)
        }),
{
    let alive = balancer::ordered(brokers);
    balancer::lemma_ordered(brokers);
    law_layout(prev, alive, topics);
    let slots = balancer::layout(prev, alive, topics);
    let rows = balancer::balanced(prev, brokers, topics, floor);
    let keys = balancer::pinned(Seq::empty(), brokers, topics);
    lemma_keys_only(prev, Seq::empty(), alive, brokers, topics);
    assert forall|i: int| 0 <= i < rows.len() implies (#[trigger] rows[i]).topic == keys[i].topic && rows[i].partition == keys[i].partition && brokers.contains(rows[i].broker) by {
        assert(slots[i].broker is Some);
        lemma_settled_row(prev, alive, floor, slots[i]);
        assert(balancer::pinned(prev, alive, topics)[i].topic == slots[i].topic);
        assert(alive.contains(rows[i].broker));
    }
}

pub proof fn lemma_keys_only(
    p: Seq<assignment::PartitionRow>,
    q: Seq<assignment::PartitionRow>,
    a: Seq<Seq<char>>,
    b: Seq<Seq<char>>,
    topics: Seq<TopicRow>,
)
    ensures
        balancer::pinned(p, a, topics).len() == balancer::pinned(q, b, topics).len(),
        forall|i: int| 0 <= i < balancer::pinned(p, a, topics).len() ==> (#[trigger] balancer::pinned(p, a, topics)[i]).topic == (#[trigger] balancer::pinned(q, b, topics)[i]).topic
            && balancer::pinned(p, a, topics)[i].partition == balancer::pinned(q, b, topics)[i].partition,
    decreases topics.len(),
{
    if topics.len() > 0 {
        let d = topics.drop_last();
        lemma_keys_only(p, q, a, b, d);
        let x = balancer::pinned(p, a, topics);
        let y = balancer::pinned(q, b, topics);
        let n = balancer::pinned(p, a, d).len();
        assert forall|i: int| 0 <= i < x.len() implies (#[trigger] x[i]).topic == (#[trigger] y[i]).topic && x[i].partition == y[i].partition by {
            if i < n {
                assert(x[i] == balancer::pinned(p, a, d)[i]);
                assert(y[i] == balancer::pinned(q, b, d)[i]);
            }
        }
    }
}

/// A leader epoch is never below its floor.
pub proof fn law_floors_are_cleared(
    prev: Seq<assignment::PartitionRow>,
    brokers: Seq<Seq<char>>,
    topics: Seq<TopicRow>,
    floor: Map<Seq<char>, u32>,
    i: int,
)
    requires
        0 <= i < balancer::balanced(prev, brokers, topics, floor).len(),
    ensures
        ({
            let row = balancer::balanced(prev, brokers, topics, floor)[i];
            row.epoch >= balancer::floor_of(floor, row.topic, row.partition)
        }),
{
    let alive = balancer::ordered(brokers);
    balancer::lemma_ordered(brokers);
    law_layout(prev, alive, topics);
    let slots = balancer::layout(prev, alive, topics);
    assert(slots[i].broker is Some);
    lemma_settled_row(prev, alive, floor, slots[i]);
}

/// A leader epoch never falls, and it rises when the leader changes.
pub proof fn law_epochs_rise(
    prev: Seq<assignment::PartitionRow>,
    brokers: Seq<Seq<char>>,
    topics: Seq<TopicRow>,
    floor: Map<Seq<char>, u32>,
    i: int,
)
    requires
        brokers.len() > 0,
        balancer::epochs_fit(prev, brokers, topics, floor),
        0 <= i < balancer::balanced(prev, brokers, topics, floor).len(),
    ensures
        ({
            let row = balancer::balanced(prev, brokers, topics, floor)[i];
            match balancer::prev_entry(prev, row.topic, row.partition) {
                Some(p) => row.epoch >= p.epoch && (row.broker != p.broker ==> row.epoch > p.epoch),
                None => row.epoch >= 1,
            }
        }),
{
    let alive = balancer::ordered(brokers);
    balancer::lemma_ordered(brokers);
    law_layout(prev, alive, topics);
    let slots = balancer::layout(prev, alive, topics);
    assert(slots[i].broker is Some);
    lemma_settled_row(prev, alive, floor, slots[i]);
}

proof fn lemma_same_counts(a: Seq<SlotRow>, b: Seq<SlotRow>)
    requires
        a.len() == b.len(),
        forall|i: int| 0 <= i < a.len() ==> (#[trigger] a[i]).topic == (#[trigger] b[i]).topic && a[i].broker == b[i].broker,
    ensures
        forall|x: Seq<char>| #[trigger] balancer::total_on(a, x) == balancer::total_on(b, x),
        forall|t: Seq<char>, x: Seq<char>| #[trigger] balancer::topic_on(a, t, x) == balancer::topic_on(b, t, x),
{
    assert(balancer::brokers_of(a) =~= balancer::brokers_of(b));
    assert(balancer::spots_of(a) =~= balancer::spots_of(b));
}

/// A layout that is level and wholly pinned stays as it is.
proof fn lemma_settled_layout(prev: Seq<assignment::PartitionRow>, alive: Seq<Seq<char>>, topics: Seq<TopicRow>)
    requires
        alive.len() > 0,
        all_placed(balancer::pinned(prev, alive, topics), alive),
        cluster_level(balancer::pinned(prev, alive, topics), alive),
        forall|t: Seq<char>| #[trigger] topic_level(balancer::pinned(prev, alive, topics), alive, t),
    ensures
        balancer::layout(prev, alive, topics) == balancer::pinned(prev, alive, topics),
{
    let a = balancer::pinned(prev, alive, topics);
    lemma_place_from(a, alive, 0);
    assert(balancer::place_from(a, alive, 0) =~= a);
    lemma_smoothed_fixed(a, alive);
    lemma_levelled_fixed(a, alive);
}

/// Balancing twice changes nothing: what the balancer returned is a fixed
/// point for the same brokers, catalogue and floors.
pub proof fn law_settled_layout_is_a_fixed_point(
    prev: Seq<assignment::PartitionRow>,
    brokers: Seq<Seq<char>>,
    topics: Seq<TopicRow>,
    floor: Map<Seq<char>, u32>,
)
    requires
        forall|j: int| 0 <= j < brokers.len() ==> (#[trigger] brokers[j]).len() > 0,
        distinct_topics(topics),
    ensures
        balancer::balanced(balancer::balanced(prev, brokers, topics, floor), brokers, topics, floor) == balancer::balanced(
            prev,
            brokers,
            topics,
            floor,
        ),
{
    if brokers.len() > 0 {
        let alive = balancer::ordered(brokers);
        balancer::lemma_ordered(brokers);
        law_layout(prev, alive, topics);
        let slots = balancer::layout(prev, alive, topics);
        let out = balancer::balanced(prev, brokers, topics, floor);
        let first = balancer::pinned(prev, alive, topics);
        let again = balancer::pinned(out, alive, topics);
        lemma_pinned_keys(prev, out, alive, topics);
        lemma_pinned_distinct(prev, alive, topics);
        lemma_pinned(out, alive, topics);
        assert forall|i: int| 0 <= i < out.len() implies (#[trigger] out[i]).topic == slots[i].topic && out[i].partition == slots[i].partition && Some(out[i].broker) == slots[i].broker
            && out[i].epoch >= balancer::floor_of(floor, out[i].topic, out[i].partition) && alive.contains(out[i].broker) by {
            assert(slots[i].broker is Some);
            lemma_settled_row(prev, alive, floor, slots[i]);
        }
        assert forall|i: int| 0 <= i < out.len() implies balancer::prev_entry(out, slots[i].topic, slots[i].partition) == Some(#[trigger] out[i]) by {
            assert forall|j: int| 0 <= j < out.len() && j != i implies (#[trigger] out[j]).topic != out[i].topic || out[j].partition != out[i].partition by {
                assert(first[i].topic == slots[i].topic);
                assert(first[j].topic == slots[j].topic);
                if i < j {
                    assert(first[i].topic != first[j].topic || first[i].partition != first[j].partition);
                } else {
                    assert(first[j].topic != first[i].topic || first[j].partition != first[i].partition);
                }
            }
            lemma_prev_entry_unique(out, i);
            assert(out[i].topic == slots[i].topic);
        }
        assert forall|i: int| 0 <= i < again.len() implies (#[trigger] again[i]).topic == (#[trigger] slots[i]).topic && again[i].broker == slots[i].broker && again[i].partition == slots[i].partition by {
            assert(first[i].topic == again[i].topic);
            assert(first[i].topic == slots[i].topic);
            assert(again[i] == balancer::pinned_slot(out, alive, again[i].topic, again[i].partition));
            assert(balancer::prev_entry(out, slots[i].topic, slots[i].partition) == Some(out[i]));
            assert(brokers.contains(out[i].broker));
        }
        lemma_same_counts(again, slots);
        assert(all_placed(again, alive)) by {
            assert forall|i: int| 0 <= i < again.len() implies ((#[trigger] again[i]).broker matches Some(b) && alive.contains(b)) by {
                assert(again[i].broker == slots[i].broker);
            }
        }
        assert forall|t: Seq<char>| #[trigger] topic_level(again, alive, t) by {
            assert(topic_level(slots, alive, t));
        }
        lemma_settled_layout(out, alive, topics);
        let twice = balancer::balanced(out, brokers, topics, floor);
        assert forall|i: int| 0 <= i < out.len() implies twice[i] == out[i] by {
            assert(again[i].topic == slots[i].topic);
            assert(balancer::prev_entry(out, slots[i].topic, slots[i].partition) == Some(out[i]));
        }
        assert(twice =~= out);
    }
}

// New topics.

proof fn lemma_pinned_add(prev: Seq<assignment::PartitionRow>, alive: Seq<Seq<char>>, a: Seq<TopicRow>, b: Seq<TopicRow>)
    ensures
        balancer::pinned(prev, alive, a + b) == balancer::pinned(prev, alive, a) + balancer::pinned(prev, alive, b),
    decreases b.len(),
{
    if b.len() == 0 {
        assert(a + b =~= a);
        assert(balancer::pinned(prev, alive, a) + balancer::pinned(prev, alive, b) =~= balancer::pinned(prev, alive, a));
    } else {
        lemma_pinned_add(prev, alive, a, b.drop_last());
        assert((a + b).drop_last() =~= a + b.drop_last());
        assert((a + b).last() == b.last());
        let t = balancer::pinned_topic(prev, alive, b.last().name, b.last().partition_count as int);
        assert(balancer::pinned(prev, alive, a) + balancer::pinned(prev, alive, b.drop_last()) + t =~= balancer::pinned(prev, alive, a) + (balancer::pinned(prev, alive, b.drop_last()) + t));
    }
}

/// Brokers with fewer partitions of a topic have no more partitions overall.
spec fn fair_for(slots: Seq<SlotRow>, alive: Seq<Seq<char>>, t: Seq<char>) -> bool {
    forall|a: Seq<char>, b: Seq<char>|
        alive.contains(a) && alive.contains(b) && #[trigger] balancer::topic_on(slots, t, a) < #[trigger] balancer::topic_on(slots, t, b)
            ==> balancer::total_on(slots, a) <= balancer::total_on(slots, b)
}

/// Placing the partitions `i..i + m`, all of topic `t`, on a level layout
/// leaves a level layout.
proof fn lemma_place_block(slots: Seq<SlotRow>, alive: Seq<Seq<char>>, t: Seq<char>, i: int, m: nat) -> (last: Seq<SlotRow>)
    requires
        alive.len() > 0,
        0 <= i,
        i + m <= slots.len(),
        forall|j: int| i <= j < i + m ==> (#[trigger] slots[j]).topic == t && slots[j].broker is None,
        cluster_level(slots, alive),
        forall|x: Seq<char>| #[trigger] topic_level(slots, alive, x),
        fair_for(slots, alive, t),
    ensures
        balancer::place_from(slots, alive, i) == balancer::place_from(last, alive, i + m),
        last.len() == slots.len(),
        forall|j: int| 0 <= j < slots.len() && !(i <= j < i + m) ==> #[trigger] last[j] == slots[j],
        forall|j: int| i <= j < i + m ==> (#[trigger] last[j]).topic == t && last[j].broker is Some,
        cluster_level(last, alive),
        forall|x: Seq<char>| #[trigger] topic_level(last, alive, x),
    decreases m,
{
    if m == 0 {
        slots
    } else {
        lemma_place_at(slots, alive, i);
        let next = balancer::place_at(slots, alive, i);
        let b = next[i].broker->0;
        let better = balancer::better_place(slots, t, slots[i].partition);
        lemma_picked_max(alive, better);
        lemma_move_counts(slots, i, b);
        assert(topic_level(slots, alive, t));
        assert forall|y: Seq<char>| alive.contains(y) implies balancer::topic_on(slots, t, b) <= #[trigger] balancer::topic_on(slots, t, y) && balancer::total_on(slots, b) <= balancer::total_on(slots, y) by {
            assert(!better(y, b));
        }
        assert(cluster_level(next, alive)) by {
            assert forall|x: Seq<char>, y: Seq<char>| alive.contains(x) && alive.contains(y) implies #[trigger] balancer::total_on(next, x) <= #[trigger] balancer::total_on(next, y) + 1 by {
                assert(balancer::total_on(slots, x) <= balancer::total_on(slots, y) + 1);
                assert(balancer::topic_on(slots, t, y) >= balancer::topic_on(slots, t, b));
                assert(balancer::total_on(slots, b) <= balancer::total_on(slots, y));
            }
        }
        assert forall|u: Seq<char>| #[trigger] topic_level(next, alive, u) by {
            assert(topic_level(slots, alive, u));
            assert forall|x: Seq<char>, y: Seq<char>| alive.contains(x) && alive.contains(y) implies #[trigger] balancer::topic_on(next, u, x) <= #[trigger] balancer::topic_on(next, u, y) + 1 by {
                assert(balancer::topic_on(slots, u, x) <= balancer::topic_on(slots, u, y) + 1);
                assert(balancer::topic_on(slots, t, b) <= balancer::topic_on(slots, t, y));
            }
        }
        assert(fair_for(next, alive, t)) by {
            assert forall|x: Seq<char>, y: Seq<char>|
                alive.contains(x) && alive.contains(y) && #[trigger] balancer::topic_on(next, t, x) < #[trigger] balancer::topic_on(next, t, y) implies balancer::total_on(next, x) <= balancer::total_on(next, y) by {
                assert(balancer::topic_on(slots, t, y) <= balancer::topic_on(slots, t, b) + 1);
                assert(balancer::topic_on(slots, t, b) <= balancer::topic_on(slots, t, x));
                assert(balancer::total_on(slots, x) <= balancer::total_on(slots, b) + 1);
            }
        }
        let last = lemma_place_block(next, alive, t, i + 1, (m - 1) as nat);
        assert forall|j: int| 0 <= j < slots.len() && !(i <= j < i + m) implies #[trigger] last[j] == slots[j] by {
            assert(next[j] == slots[j]);
        }
        last
    }
}

/// Placing whole new topics one after the other on a level layout leaves a
/// level layout, and what was placed before stays.
proof fn lemma_place_topics(
    prev: Seq<assignment::PartitionRow>,
    alive: Seq<Seq<char>>,
    slots: Seq<SlotRow>,
    head: int,
    fresh: Seq<TopicRow>,
    k: int,
) -> (last: Seq<SlotRow>)
    requires
        alive.len() > 0,
        0 <= head,
        0 <= k <= fresh.len(),
        slots.len() == head + balancer::pinned(prev, alive, fresh).len(),
        distinct_topics(fresh),
        forall|j: int| 0 <= j < balancer::pinned(prev, alive, fresh).len() ==> (#[trigger] balancer::pinned(prev, alive, fresh)[j]).broker is None,
        forall|j: int| head + balancer::pinned(prev, alive, fresh.take(k)).len() <= j < slots.len() ==> #[trigger] slots[j] == balancer::pinned(prev, alive, fresh)[j - head],
        forall|j: int| 0 <= j < head + balancer::pinned(prev, alive, fresh.take(k)).len() ==> (#[trigger] slots[j]).broker is Some,
        forall|j: int, x: int| 0 <= j < head + balancer::pinned(prev, alive, fresh.take(k)).len() && k <= x < fresh.len() ==> (#[trigger] slots[j]).topic != (#[trigger] fresh[x]).name,
        cluster_level(slots, alive),
        forall|t: Seq<char>| #[trigger] topic_level(slots, alive, t),
    ensures
        last == balancer::place_from(slots, alive, head + balancer::pinned(prev, alive, fresh.take(k)).len()),
        last.len() == slots.len(),
        cluster_level(last, alive),
        forall|t: Seq<char>| #[trigger] topic_level(last, alive, t),
        forall|j: int| 0 <= j < head ==> #[trigger] last[j] == slots[j],
    decreases fresh.len() - k,
{
    let all = balancer::pinned(prev, alive, fresh);
    let done = balancer::pinned(prev, alive, fresh.take(k));
    let i = head + done.len();
    if k == fresh.len() {
        assert(fresh.take(k) =~= fresh);
        slots
    } else {
        let t = fresh[k];
        let block = balancer::pinned_topic(prev, alive, t.name, t.partition_count as int);
        assert(fresh.take(k + 1).drop_last() =~= fresh.take(k));
        assert(fresh.take(k + 1).last() == t);
        let done2 = balancer::pinned(prev, alive, fresh.take(k + 1));
        assert(done2 == done + block);
        assert(fresh =~= fresh.take(k + 1) + fresh.skip(k + 1));
        lemma_pinned_add(prev, alive, fresh.take(k + 1), fresh.skip(k + 1));
        assert(all == done2 + balancer::pinned(prev, alive, fresh.skip(k + 1)));
        assert forall|j: int| i <= j < i + block.len() implies (#[trigger] slots[j]).topic == t.name && slots[j].broker is None by {
            assert(slots[j] == all[j - head]);
            assert(all[j - head] == block[j - i]);
            assert(all[j - head].broker is None);
        }
        assert forall|b: Seq<char>| #[trigger] balancer::topic_on(slots, t.name, b) == 0 by {
            if balancer::topic_on(slots, t.name, b) > 0 {
                let j = lemma_some_of_topic_on(slots, t.name, b);
                if j < i {
                    assert(slots[j].topic != fresh[k].name);
                } else {
                    assert(slots[j] == all[j - head]);
                    assert(all[j - head].broker is None);
                }
            }
        }
        let next = lemma_place_block(slots, alive, t.name, i, block.len());
        assert(head + done2.len() == i + block.len());
        assert forall|j: int| head + done2.len() <= j < next.len() implies #[trigger] next[j] == all[j - head] by {
            assert(next[j] == slots[j]);
        }
        assert forall|j: int| 0 <= j < head + done2.len() implies (#[trigger] next[j]).broker is Some by {
            if j < i {
                assert(next[j] == slots[j]);
            }
        }
        assert forall|j: int, x: int| 0 <= j < head + done2.len() && k + 1 <= x < fresh.len() implies (#[trigger] next[j]).topic != (#[trigger] fresh[x]).name by {
            if j < i {
                assert(next[j] == slots[j]);
            } else {
                assert(fresh[k].name != fresh[x].name);
            }
        }
        let last = lemma_place_topics(prev, alive, next, head, fresh, k + 1);
        assert forall|j: int| 0 <= j < head implies #[trigger] last[j] == slots[j] by {
            assert(next[j] == slots[j]);
        }
        last
    }
}

/// Adding topics to a level layout moves no partition of the old ones: where
/// the partitions of `old` all sit on alive brokers, levelly, and those of
/// `fresh` have no leader yet, every partition of `old` keeps its leader, and
/// with it its row unless the floor asks for a higher epoch.
pub proof fn law_new_topics_move_nothing(
    prev: Seq<assignment::PartitionRow>,
    brokers: Seq<Seq<char>>,
    old_topics: Seq<TopicRow>,
    fresh: Seq<TopicRow>,
    floor: Map<Seq<char>, u32>,
    i: int,
)
    requires
        brokers.len() > 0,
        distinct_topics(old_topics + fresh),
        all_placed(balancer::pinned(prev, brokers, old_topics), brokers),
        cluster_level(balancer::pinned(prev, brokers, old_topics), brokers),
        forall|t: Seq<char>| #[trigger] topic_level(balancer::pinned(prev, brokers, old_topics), brokers, t),
        forall|j: int| 0 <= j < balancer::pinned(prev, brokers, fresh).len() ==> (#[trigger] balancer::pinned(prev, brokers, fresh)[j]).broker is None,
        0 <= i < balancer::pinned(prev, brokers, old_topics).len(),
    ensures
        ({
            let key = balancer::pinned(prev, brokers, old_topics)[i];
            let row = balancer::balanced(prev, brokers, old_topics + fresh, floor)[i];
            balancer::prev_entry(prev, key.topic, key.partition) matches Some(p) && row.topic == key.topic && row.partition
                == key.partition && row.broker == p.broker && (p.epoch >= balancer::floor_of(
                floor,
                key.topic,
                key.partition,
            ) ==> row == p)
        }),
{
    let alive = balancer::ordered(brokers);
    balancer::lemma_ordered(brokers);
    lemma_pinned_alive(prev, brokers, alive, old_topics);
    lemma_pinned_alive(prev, brokers, alive, fresh);
    let a = balancer::pinned(prev, alive, old_topics);
    let b = balancer::pinned(prev, alive, fresh);
    lemma_pinned_add(prev, alive, old_topics, fresh);
    let slots = balancer::pinned(prev, alive, old_topics + fresh);
    assert(slots == a + b);
    assert(fresh.take(0) =~= Seq::empty());
    assert(balancer::pinned(prev, alive, fresh.take(0)).len() == 0);
    assert(distinct_topics(fresh)) by {
        assert forall|x: int, y: int| 0 <= x < y < fresh.len() implies (#[trigger] fresh[x]).name != (#[trigger] fresh[y]).name by {
            let all = old_topics + fresh;
            assert(all[x + old_topics.len()].name != all[y + old_topics.len()].name);
        }
    }
    lemma_pinned(prev, alive, old_topics);
    assert forall|j: int, x: int| 0 <= j < a.len() && 0 <= x < fresh.len() implies (#[trigger] slots[j]).topic != (#[trigger] fresh[x]).name by {
        assert(slots[j] == a[j]);
        let k = choose|k: int| 0 <= k < old_topics.len() && (#[trigger] old_topics[k]).name == a[j].topic;
        let all = old_topics + fresh;
        assert(all[k].name != all[x + old_topics.len()].name);
    }
    lemma_unplaced_tail(a, b);
    assert forall|t: Seq<char>| #[trigger] topic_level(slots, alive, t) by {
        assert(topic_level(a, brokers, t));
        assert forall|x: Seq<char>, y: Seq<char>| alive.contains(x) && alive.contains(y) implies #[trigger] balancer::topic_on(slots, t, x) <= #[trigger] balancer::topic_on(slots, t, y) + 1 by {
            assert(balancer::topic_on(a, t, x) <= balancer::topic_on(a, t, y) + 1);
        }
    }
    assert(cluster_level(slots, alive)) by {
        assert forall|x: Seq<char>, y: Seq<char>| alive.contains(x) && alive.contains(y) implies #[trigger] balancer::total_on(slots, x) <= #[trigger] balancer::total_on(slots, y) + 1 by {
            assert(balancer::total_on(a, x) <= balancer::total_on(a, y) + 1);
        }
    }
    lemma_skip_placed(slots, alive, 0, a.len() as int);
    let last = lemma_place_topics(prev, alive, slots, a.len() as int, fresh, 0);
    lemma_smoothed_fixed(last, alive);
    lemma_levelled_fixed(last, alive);
    assert(last[i] == slots[i]);
    assert(slots[i] == a[i]);
    assert(a[i] == balancer::pinned_slot(prev, alive, a[i].topic, a[i].partition));
    lemma_prev_entry(prev, a[i].topic, a[i].partition);
    lemma_settled_row(prev, alive, floor, a[i]);
}

pub proof fn lemma_pinned_alive(prev: Seq<assignment::PartitionRow>, a: Seq<Seq<char>>, b: Seq<Seq<char>>, topics: Seq<TopicRow>)
    requires
        forall|x: Seq<char>| a.contains(x) <==> b.contains(x),
    ensures
        balancer::pinned(prev, a, topics) == balancer::pinned(prev, b, topics),
    decreases topics.len(),
{
    if topics.len() > 0 {
        lemma_pinned_alive(prev, a, b, topics.drop_last());
        let t = topics.last();
        assert(balancer::pinned_topic(prev, a, t.name, t.partition_count as int) =~= balancer::pinned_topic(prev, b, t.name, t.partition_count as int));
    }
}

/// Partitions without a broker count nowhere.
proof fn lemma_unplaced_tail(a: Seq<SlotRow>, b: Seq<SlotRow>)
    requires
        forall|j: int| 0 <= j < b.len() ==> (#[trigger] b[j]).broker is None,
    ensures
        forall|x: Seq<char>| #[trigger] balancer::total_on(a + b, x) == balancer::total_on(a, x),
        forall|t: Seq<char>, x: Seq<char>| #[trigger] balancer::topic_on(a + b, t, x) == balancer::topic_on(a, t, x),
    decreases b.len(),
{
    if b.len() == 0 {
        assert(a + b =~= a);
    } else {
        let d = b.drop_last();
        lemma_unplaced_tail(a, d);
        assert(b[b.len() - 1].broker is None);
        assert(balancer::brokers_of(a + b).drop_last() =~= balancer::brokers_of(a + d));
        assert(balancer::spots_of(a + b).drop_last() =~= balancer::spots_of(a + d));
        assert(balancer::brokers_of(a + b).last() == b.last().broker);
        assert(balancer::spots_of(a + b).last() == (b.last().topic, b.last().broker));
        assert forall|x: Seq<char>| #[trigger] balancer::total_on(a + b, x) == balancer::total_on(a, x) by {
            assert(balancer::total_on(a + d, x) == balancer::total_on(a, x));
        }
        assert forall|t: Seq<char>, x: Seq<char>| #[trigger] balancer::topic_on(a + b, t, x) == balancer::topic_on(a, t, x) by {
            assert(balancer::topic_on(a + d, t, x) == balancer::topic_on(a, t, x));
        }
    }
}

/// Placing passes over partitions that have a broker.
proof fn lemma_skip_placed(slots: Seq<SlotRow>, alive: Seq<Seq<char>>, i: int, n: int)
    requires
        0 <= i <= n <= slots.len(),
        forall|j: int| i <= j < n ==> (#[trigger] slots[j]).broker is Some,
    ensures
        balancer::place_from(slots, alive, i) == balancer::place_from(slots, alive, n),
    decreases n - i,
{
    if i < n {
        assert(slots[i].broker is Some);
        lemma_skip_placed(slots, alive, i + 1, n);
    }
}

} // verus!
