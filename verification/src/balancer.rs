//! Placement of partitions and consumer groups on brokers.
//!
//! A partition whose leader is still alive keeps it. The rest are placed so
//! that each topic is level over the alive brokers, and two smoothing passes
//! level the cluster and then every topic, in that order; the second pass
//! never undoes the first. Rendezvous hashing breaks ties, so the layout is a
//! function of the inputs.

use vstd::prelude::*;
use vstd::utf8;
use crate::assignment;
use crate::assignment::{PartitionAssignment, PartitionRole};
use crate::hashing;
use crate::keyed::TextMap;
use crate::order;
use crate::order::{distinct_names, sorted_names};
use crate::text;
use crate::text::{slash_string, text_eq, text_lt};

pub use crate::group_balancer::{balance_groups, GroupSpec};

verus! {

/// A topic of the catalogue.
#[derive(Debug, PartialEq, Eq)]
pub struct TopicSpec {
    pub name: String,
    pub partition_count: i32,
}

impl Clone for TopicSpec {
    fn clone(&self) -> (r: Self)
        ensures
            r == *self,
    {
        TopicSpec { name: self.name.clone(), partition_count: self.partition_count }
    }
}

#[verifier::ext_equal]
pub struct TopicRow {
    pub name: Seq<char>,
    pub partition_count: i32,
}

impl View for TopicSpec {
    type V = TopicRow;

    open spec fn view(&self) -> TopicRow {
        TopicRow { name: self.name@, partition_count: self.partition_count }
    }
}

pub open spec fn topic_rows(s: Seq<TopicSpec>) -> Seq<TopicRow> {
    s.map_values(|t: TopicSpec| t@)
}

/// Big-endian bytes of a partition number.
pub open spec fn be_bytes(n: i32) -> Seq<u8> {
    let u = n as u32;
    seq![(u >> 24) as u8, (u >> 16) as u8, (u >> 8) as u8, u as u8]
}

/// What is hashed for a partition on a broker.
pub open spec fn rendezvous_bytes(topic: Seq<char>, partition: i32, broker: Seq<char>) -> Seq<u8> {
    utf8::encode_utf8(topic) + seq![0u8] + be_bytes(partition) + seq![0u8] + utf8::encode_utf8(broker)
}

/// The score of a broker for a partition.
pub open spec fn rendezvous(topic: Seq<char>, partition: i32, broker: Seq<char>) -> u64 {
    hashing::xxh64(rendezvous_bytes(topic, partition, broker))
}

/// The score of a broker for a group.
pub open spec fn group_score(group_id: Seq<char>, broker: Seq<char>) -> u64 {
    hashing::xxh64(utf8::encode_utf8(group_id) + seq![0u8] + utf8::encode_utf8(broker))
}

fn push_bytes(v: &mut Vec<u8>, b: &[u8])
    ensures
        final(v)@ == old(v)@ + b@,
{
    let mut i: usize = 0;
    assert(v@ =~= old(v)@ + b@.take(0));
    while i < b.len()
        invariant
            i <= b@.len(),
            v@ == old(v)@ + b@.take(i as int),
        decreases b.len() - i,
    {
        v.push(b[i]);
        i = i + 1;
        assert(v@ =~= old(v)@ + b@.take(i as int));
    }
    assert(b@.take(i as int) =~= b@);
}

/// The XXH64 score of `broker` for `(topic, partition)`: topic, a zero byte,
/// the partition in big-endian order, a zero byte, broker.
pub fn rendezvous_hash(topic: &str, partition: i32, broker: &str) -> (h: u64)
    ensures
        h == rendezvous(topic@, partition, broker@),
{
    let mut v: Vec<u8> = Vec::new();
    push_bytes(&mut v, topic.as_bytes());
    v.push(0);
    let u: u32 = partition as u32;
    v.push(#[verifier::truncate] ((u >> 24) as u8));
    v.push(#[verifier::truncate] ((u >> 16) as u8));
    v.push(#[verifier::truncate] ((u >> 8) as u8));
    v.push(#[verifier::truncate] (u as u8));
    v.push(0);
    push_bytes(&mut v, broker.as_bytes());
    assert(v@ =~= rendezvous_bytes(topic@, partition, broker@));
    hashing::xxh64_digest(&v)
}

/// The XXH64 score of `broker` for a group: group id, a zero byte, broker.
pub fn group_hash(group_id: &str, broker: &str) -> (h: u64)
    ensures
        h == group_score(group_id@, broker@),
{
    let mut v: Vec<u8> = Vec::new();
    push_bytes(&mut v, group_id.as_bytes());
    v.push(0);
    push_bytes(&mut v, broker.as_bytes());
    assert(v@ =~= utf8::encode_utf8(group_id@) + seq![0u8] + utf8::encode_utf8(broker@));
    hashing::xxh64_digest(&v)
}

/// The name that a scan keeps.
pub open spec fn picked(
    names: Seq<Seq<char>>,
    better: spec_fn(Seq<char>, Seq<char>) -> bool,
) -> Option<Seq<char>> {
    match order::scan_best(names, order::every(), better) {
        Some(i) => Some(names[i]),
        None => None,
    }
}

pub open spec fn higher_score(topic: Seq<char>, partition: i32) -> spec_fn(Seq<char>, Seq<char>) -> bool {
    |a: Seq<char>, b: Seq<char>| rendezvous(topic, partition, a) > rendezvous(topic, partition, b)
}

pub open spec fn higher_group_score(group_id: Seq<char>) -> spec_fn(Seq<char>, Seq<char>) -> bool {
    |a: Seq<char>, b: Seq<char>| group_score(group_id, a) > group_score(group_id, b)
}

/// The broker with the highest score for a partition, the first of equals;
/// none where there is no broker.
pub fn rendezvous_pick(topic: &str, partition: i32, brokers: &[String]) -> (r: Option<String>)
    ensures
        text::opt_text(r) == picked(order::texts(brokers@), higher_score(topic@, partition)),
{
    let ghost names = order::texts(brokers@);
    let ghost better = higher_score(topic@, partition);
    let mut best: Option<usize> = None;
    let mut score: u64 = 0;
    let mut i: usize = 0;
    assert(names.take(0) =~= Seq::<Seq<char>>::empty());
    while i < brokers.len()
        invariant
            i <= brokers@.len(),
            names == order::texts(brokers@),
            better == higher_score(topic@, partition),
            match best {
                Some(k) => k < i && order::scan_best(names.take(i as int), order::every(), better) == Some(k as int)
                    && score == rendezvous(topic@, partition, names[k as int]),
                None => order::scan_best(names.take(i as int), order::every(), better) is None,
            },
        decreases brokers.len() - i,
    {
        let h: u64 = rendezvous_hash(topic, partition, &brokers[i]);
        proof {
            order::lemma_scan_step(names, i as int, order::every(), better);
            assert(names[i as int] == brokers@[i as int]@);
        }
        if best.is_none() || h > score {
            best = Some(i);
            score = h;
        }
        i = i + 1;
    }
    assert(names.take(i as int) =~= names);
    match best {
        Some(k) => Some(brokers[k].clone()),
        None => None,
    }
}

/// The broker with the highest score for a group, the first of equals.
pub fn rendezvous_pick_group(group_id: &str, brokers: &[String]) -> (r: Option<String>)
    ensures
        text::opt_text(r) == picked(order::texts(brokers@), higher_group_score(group_id@)),
{
    let ghost names = order::texts(brokers@);
    let ghost better = higher_group_score(group_id@);
    let mut best: Option<usize> = None;
    let mut score: u64 = 0;
    let mut i: usize = 0;
    assert(names.take(0) =~= Seq::<Seq<char>>::empty());
    while i < brokers.len()
        invariant
            i <= brokers@.len(),
            names == order::texts(brokers@),
            better == higher_group_score(group_id@),
            match best {
                Some(k) => k < i && order::scan_best(names.take(i as int), order::every(), better) == Some(k as int)
                    && score == group_score(group_id@, names[k as int]),
                None => order::scan_best(names.take(i as int), order::every(), better) is None,
            },
        decreases brokers.len() - i,
    {
        let h: u64 = group_hash(group_id, &brokers[i]);
        proof {
            order::lemma_scan_step(names, i as int, order::every(), better);
            assert(names[i as int] == brokers@[i as int]@);
        }
        if best.is_none() || h > score {
            best = Some(i);
            score = h;
        }
        i = i + 1;
    }
    assert(names.take(i as int) =~= names);
    match best {
        Some(k) => Some(brokers[k].clone()),
        None => None,
    }
}

/// `topic/partition`.
pub fn partition_key(topic: &str, partition: i32) -> (s: String)
    ensures
        s@ == text::slash_key(topic@, partition as int),
{
    slash_string(topic, partition as i64)
}

/// A partition while the layout is worked out. `broker` is none until the
/// partition has been placed; `sticky` says that it has its leader from the
/// previous assignment, so that moving it costs a takeover.
#[verifier::ext_equal]
pub struct SlotRow {
    pub topic: Seq<char>,
    pub partition: i32,
    pub broker: Option<Seq<char>>,
    pub sticky: bool,
}

struct PartitionSlot {
    topic: String,
    partition: i32,
    broker: String,
    placed: bool,
    sticky: bool,
}

impl PartitionSlot {
    spec fn row(self) -> SlotRow {
        SlotRow {
            topic: self.topic@,
            partition: self.partition,
            broker: if self.placed { Some(self.broker@) } else { None },
            sticky: self.sticky,
        }
    }
}

spec fn rows(s: Seq<PartitionSlot>) -> Seq<SlotRow> {
    s.map_values(|p: PartitionSlot| p.row())
}

/// The last entry for a partition.
pub open spec fn prev_entry(prev: Seq<assignment::PartitionRow>, topic: Seq<char>, partition: i32) -> Option<assignment::PartitionRow>
    decreases prev.len(),
{
    if prev.len() == 0 {
        None
    } else if prev.last().topic == topic && prev.last().partition == partition {
        Some(prev.last())
    } else {
        prev_entry(prev.drop_last(), topic, partition)
    }
}

/// A partition before placement: pinned to its previous leader where that
/// broker is alive.
pub open spec fn pinned_slot(
    prev: Seq<assignment::PartitionRow>,
    alive: Seq<Seq<char>>,
    topic: Seq<char>,
    partition: i32,
) -> SlotRow {
    match prev_entry(prev, topic, partition) {
        Some(p) => if alive.contains(p.broker) {
            SlotRow {
                topic,
                partition,
                broker: if p.broker.len() > 0 { Some(p.broker) } else { None },
                sticky: true,
            }
        } else {
            SlotRow { topic, partition, broker: None, sticky: false }
        },
        None => SlotRow { topic, partition, broker: None, sticky: false },
    }
}

/// The first `n` partitions of a topic before placement.
pub open spec fn pinned_topic(
    prev: Seq<assignment::PartitionRow>,
    alive: Seq<Seq<char>>,
    topic: Seq<char>,
    n: int,
) -> Seq<SlotRow> {
    Seq::new(
        if n > 0 { n as nat } else { 0 },
        |p: int| pinned_slot(prev, alive, topic, p as i32),
    )
}

/// Every partition of the catalogue before placement, topic by topic.
pub open spec fn pinned(
    prev: Seq<assignment::PartitionRow>,
    alive: Seq<Seq<char>>,
    topics: Seq<TopicRow>,
) -> Seq<SlotRow>
    decreases topics.len(),
{
    if topics.len() == 0 {
        Seq::empty()
    } else {
        pinned(prev, alive, topics.drop_last()) + pinned_topic(
            prev,
            alive,
            topics.last().name,
            topics.last().partition_count as int,
        )
    }
}

pub open spec fn brokers_of(slots: Seq<SlotRow>) -> Seq<Option<Seq<char>>> {
    slots.map_values(|s: SlotRow| s.broker)
}

pub open spec fn spots_of(slots: Seq<SlotRow>) -> Seq<(Seq<char>, Option<Seq<char>>)> {
    slots.map_values(|s: SlotRow| (s.topic, s.broker))
}

/// How many partitions a broker holds.
pub open spec fn total_on(slots: Seq<SlotRow>, broker: Seq<char>) -> nat {
    order::count_of(brokers_of(slots), Some(broker))
}

/// How many partitions of a topic a broker holds.
pub open spec fn topic_on(slots: Seq<SlotRow>, topic: Seq<char>, broker: Seq<char>) -> nat {
    order::count_of(spots_of(slots), (topic, Some(broker)))
}

pub open spec fn moved(slots: Seq<SlotRow>, i: int, broker: Seq<char>) -> Seq<SlotRow> {
    slots.update(i, SlotRow { broker: Some(broker), ..slots[i] })
}

/// Where to place a partition: fewest of its own topic, then fewest overall,
/// then the highest score.
pub open spec fn better_place(slots: Seq<SlotRow>, topic: Seq<char>, partition: i32) -> spec_fn(
    Seq<char>,
    Seq<char>,
) -> bool {
    |a: Seq<char>, b: Seq<char>|
        {
            let ta = topic_on(slots, topic, a);
            let tb = topic_on(slots, topic, b);
            let na = total_on(slots, a);
            let nb = total_on(slots, b);
            ta < tb || ta == tb && (na < nb || na == nb && rendezvous(topic, partition, a) > rendezvous(
                topic,
                partition,
                b,
            ))
        }
}

pub open spec fn place_at(slots: Seq<SlotRow>, alive: Seq<Seq<char>>, i: int) -> Seq<SlotRow> {
    if slots[i].broker is Some {
        slots
    } else {
        match picked(alive, better_place(slots, slots[i].topic, slots[i].partition)) {
            Some(b) => moved(slots, i, b),
            None => slots,
        }
    }
}

/// Places the partitions from number `i` on, one after the other.
pub open spec fn place_from(slots: Seq<SlotRow>, alive: Seq<Seq<char>>, i: int) -> Seq<SlotRow>
    decreases slots.len() - i,
{
    if i < 0 || i >= slots.len() {
        slots
    } else {
        place_from(place_at(slots, alive, i), alive, i + 1)
    }
}

pub open spec fn heavier(slots: Seq<SlotRow>) -> spec_fn(Seq<char>, Seq<char>) -> bool {
    |a: Seq<char>, b: Seq<char>| total_on(slots, a) > total_on(slots, b)
}

pub open spec fn lighter(slots: Seq<SlotRow>) -> spec_fn(Seq<char>, Seq<char>) -> bool {
    |a: Seq<char>, b: Seq<char>| total_on(slots, a) < total_on(slots, b)
}

pub open spec fn on_broker(broker: Seq<char>) -> spec_fn(SlotRow) -> bool {
    |s: SlotRow| s.broker == Some(broker)
}

/// Order by topic, then partition.
pub open spec fn slot_before(a: SlotRow, b: SlotRow) -> bool {
    text::text_less(a.topic, b.topic) || a.topic == b.topic && a.partition < b.partition
}

pub open spec fn helps(slots: Seq<SlotRow>, topic: Seq<char>, hi: Seq<char>, lo: Seq<char>) -> bool {
    topic_on(slots, topic, hi) > topic_on(slots, topic, lo)
}

/// Which of two partitions is the cheaper to move from `hi` to `lo`: one
/// placed just now before one that would have to be taken over, then one
/// whose topic `hi` holds more of than `lo`, then the one that scores higher
/// on `lo`, then by name.
pub open spec fn cheaper_move(slots: Seq<SlotRow>, hi: Seq<char>, lo: Seq<char>) -> spec_fn(
    SlotRow,
    SlotRow,
) -> bool {
    |a: SlotRow, b: SlotRow|
        {
            let ha = helps(slots, a.topic, hi, lo);
            let hb = helps(slots, b.topic, hi, lo);
            let sa = rendezvous(a.topic, a.partition, lo);
            let sb = rendezvous(b.topic, b.partition, lo);
            if a.sticky != b.sticky {
                b.sticky
            } else if ha != hb {
                ha
            } else if sa != sb {
                sa > sb
            } else {
                slot_before(a, b)
            }
        }
}

/// One move of the cluster pass; none where the loads differ by at most one.
pub open spec fn smooth_step(slots: Seq<SlotRow>, alive: Seq<Seq<char>>) -> Option<Seq<SlotRow>> {
    match (picked(alive, heavier(slots)), picked(alive, lighter(slots))) {
        (Some(hi), Some(lo)) => if total_on(slots, hi) <= total_on(slots, lo) + 1 {
            None
        } else {
            match order::scan_best(slots, on_broker(hi), cheaper_move(slots, hi, lo)) {
                Some(v) => Some(moved(slots, v, lo)),
                None => None,
            }
        },
        _ => None,
    }
}

pub proof fn lemma_moved(slots: Seq<SlotRow>, i: int, b: Seq<char>)
    requires
        0 <= i < slots.len(),
    ensures
        brokers_of(moved(slots, i, b)) == brokers_of(slots).update(i, Some(b)),
        spots_of(moved(slots, i, b)) == spots_of(slots).update(i, (slots[i].topic, Some(b))),
{
    assert(brokers_of(moved(slots, i, b)) =~= brokers_of(slots).update(i, Some(b)));
    assert(spots_of(moved(slots, i, b)) =~= spots_of(slots).update(i, (slots[i].topic, Some(b))));
}

/// Each move of the cluster pass lowers the number of pairs of partitions
/// that share a broker.
pub proof fn lemma_smooth_step(slots: Seq<SlotRow>, alive: Seq<Seq<char>>)
    ensures
        smooth_step(slots, alive) matches Some(next) ==> order::pairs(brokers_of(next)) < order::pairs(
            brokers_of(slots),
        ) && next.len() == slots.len(),
{
    match (picked(alive, heavier(slots)), picked(alive, lighter(slots))) {
        (Some(hi), Some(lo)) => {
            if total_on(slots, hi) > total_on(slots, lo) + 1 {
                order::lemma_scan_index(slots, on_broker(hi), cheaper_move(slots, hi, lo));
                match order::scan_best(slots, on_broker(hi), cheaper_move(slots, hi, lo)) {
                    Some(v) => {
                        lemma_moved(slots, v, lo);
                        order::lemma_pairs_update(brokers_of(slots), v, Some(lo));
                    },
                    None => {},
                }
            }
        },
        _ => {},
    }
}

/// The cluster pass: moves until none is called for.
pub open spec fn smooth_from(slots: Seq<SlotRow>, alive: Seq<Seq<char>>) -> Seq<SlotRow>
    decreases order::pairs(brokers_of(slots)),
    via smooth_from_decreases
{
    match smooth_step(slots, alive) {
        Some(next) => smooth_from(next, alive),
        None => slots,
    }
}

#[via_fn]
proof fn smooth_from_decreases(slots: Seq<SlotRow>, alive: Seq<Seq<char>>) {
    lemma_smooth_step(slots, alive);
}

/// The layout after the cluster pass.
pub open spec fn smoothed(slots: Seq<SlotRow>, alive: Seq<Seq<char>>) -> Seq<SlotRow> {
    if alive.len() < 2 || slots.len() == 0 {
        slots
    } else {
        smooth_from(slots, alive)
    }
}

pub open spec fn more_of(slots: Seq<SlotRow>, topic: Seq<char>) -> spec_fn(Seq<char>, Seq<char>) -> bool {
    |a: Seq<char>, b: Seq<char>| topic_on(slots, topic, a) > topic_on(slots, topic, b)
}

pub open spec fn less_of(slots: Seq<SlotRow>, topic: Seq<char>) -> spec_fn(Seq<char>, Seq<char>) -> bool {
    |a: Seq<char>, b: Seq<char>| topic_on(slots, topic, a) < topic_on(slots, topic, b)
}

pub open spec fn of_topic_on(topic: Seq<char>, broker: Seq<char>) -> spec_fn(SlotRow) -> bool {
    |s: SlotRow| s.topic == topic && s.broker == Some(broker)
}

/// A partition to give away: not sticky before sticky, then the lower number.
pub open spec fn better_donor() -> spec_fn(SlotRow, SlotRow) -> bool {
    |a: SlotRow, b: SlotRow| if a.sticky != b.sticky { b.sticky } else { a.partition < b.partition }
}

/// A partition on `lo` that may go to `hi` in exchange: of another topic, one
/// that `lo` holds more of than `hi`.
pub open spec fn may_trade(slots: Seq<SlotRow>, topic: Seq<char>, hi: Seq<char>, lo: Seq<char>) -> spec_fn(
    SlotRow,
) -> bool {
    |s: SlotRow| s.broker == Some(lo) && s.topic != topic && helps(slots, s.topic, lo, hi)
}

pub open spec fn better_partner() -> spec_fn(SlotRow, SlotRow) -> bool {
    |a: SlotRow, b: SlotRow| if a.sticky != b.sticky { b.sticky } else { slot_before(a, b) }
}

/// One repair of a topic that some broker holds at least two more partitions
/// of than another. The donor gives a partition away where it holds more
/// partitions overall than the recipient; else the two trade.
pub open spec fn repaired(slots: Seq<SlotRow>, alive: Seq<Seq<char>>, topic: Seq<char>) -> Option<Seq<SlotRow>> {
    match (picked(alive, more_of(slots, topic)), picked(alive, less_of(slots, topic))) {
        (Some(hi), Some(lo)) => if topic_on(slots, topic, hi) <= topic_on(slots, topic, lo) + 1 {
            None
        } else {
            match order::scan_best(slots, of_topic_on(topic, hi), better_donor()) {
                None => None,
                Some(donor) => if total_on(slots, hi) > total_on(slots, lo) {
                    Some(moved(slots, donor, lo))
                } else {
                    match order::scan_best(slots, may_trade(slots, topic, hi, lo), better_partner()) {
                        Some(partner) => Some(moved(moved(slots, donor, lo), partner, hi)),
                        None => None,
                    }
                },
            }
        },
        _ => None,
    }
}

/// The repair of the first topic, from number `j` on, that can be repaired.
pub open spec fn repaired_from(
    slots: Seq<SlotRow>,
    alive: Seq<Seq<char>>,
    topics: Seq<Seq<char>>,
    j: int,
) -> Option<Seq<SlotRow>>
    decreases topics.len() - j,
{
    if j < 0 || j >= topics.len() {
        None
    } else {
        match repaired(slots, alive, topics[j]) {
            Some(next) => Some(next),
            None => repaired_from(slots, alive, topics, j + 1),
        }
    }
}

/// At most `fuel` repairs.
pub open spec fn level_from(
    slots: Seq<SlotRow>,
    alive: Seq<Seq<char>>,
    topics: Seq<Seq<char>>,
    fuel: nat,
) -> Seq<SlotRow>
    decreases fuel,
{
    if fuel == 0 {
        slots
    } else {
        match repaired_from(slots, alive, topics, 0) {
            Some(next) => level_from(next, alive, topics, (fuel - 1) as nat),
            None => slots,
        }
    }
}

pub open spec fn topics_of(slots: Seq<SlotRow>) -> Seq<Seq<char>> {
    order::in_order(slots.map_values(|s: SlotRow| s.topic).to_set())
}

/// The most repairs that the topic pass makes.
pub open spec fn repair_cap(slots: Seq<SlotRow>, alive: Seq<Seq<char>>) -> nat {
    slots.len() * alive.len() + 16
}

/// The layout after the topic pass.
pub open spec fn levelled(slots: Seq<SlotRow>, alive: Seq<Seq<char>>) -> Seq<SlotRow> {
    if alive.len() < 2 || slots.len() == 0 {
        slots
    } else {
        level_from(slots, alive, topics_of(slots), repair_cap(slots, alive))
    }
}

/// The alive brokers in order.
pub open spec fn ordered(brokers: Seq<Seq<char>>) -> Seq<Seq<char>> {
    brokers.sort_by(order::text_leq())
}

/// The whole layout: pin, place, smooth, level.
pub open spec fn layout(
    prev: Seq<assignment::PartitionRow>,
    alive: Seq<Seq<char>>,
    topics: Seq<TopicRow>,
) -> Seq<SlotRow> {
    levelled(smoothed(place_from(pinned(prev, alive, topics), alive, 0), alive), alive)
}

pub open spec fn floor_of(floor: Map<Seq<char>, u32>, topic: Seq<char>, partition: i32) -> u32 {
    let key = text::slash_key(topic, partition as int);
    if floor.contains_key(key) {
        floor[key]
    } else {
        0
    }
}

pub open spec fn max32(a: u32, b: u32) -> u32 {
    if a >= b {
        a
    } else {
        b
    }
}

/// Whether a partition keeps its previous row: its leader is alive and stays,
/// and its epoch clears the floor.
pub open spec fn row_stays(p: assignment::PartitionRow, alive: Seq<Seq<char>>, floor: Map<Seq<char>, u32>, slot: SlotRow) -> bool {
    alive.contains(p.broker) && p.broker == broker_of(slot) && p.epoch >= floor_of(floor, slot.topic, slot.partition)
}

pub open spec fn broker_of(slot: SlotRow) -> Seq<char> {
    match slot.broker {
        Some(b) => b,
        None => Seq::empty(),
    }
}

/// The row for a partition: the previous one where the leader stays and its
/// epoch clears the floor, else a new one with the epoch raised by one, and
/// at least to the floor.
pub open spec fn settled_row(
    prev: Seq<assignment::PartitionRow>,
    alive: Seq<Seq<char>>,
    floor: Map<Seq<char>, u32>,
    slot: SlotRow,
) -> assignment::PartitionRow {
    let min = floor_of(floor, slot.topic, slot.partition);
    let fresh = |epoch: u32|
        assignment::PartitionRow {
            topic: slot.topic,
            partition: slot.partition,
            broker: broker_of(slot),
            epoch: max32(epoch, min),
            role: PartitionRole::Leader,
        };
    match prev_entry(prev, slot.topic, slot.partition) {
        Some(p) => if row_stays(p, alive, floor, slot) {
            p
        } else {
            fresh((p.epoch + 1) as u32)
        },
        None => fresh(1),
    }
}

/// Whether the epoch of a partition can rise where it has to.
pub open spec fn epoch_fits(
    prev: Seq<assignment::PartitionRow>,
    alive: Seq<Seq<char>>,
    floor: Map<Seq<char>, u32>,
    slot: SlotRow,
) -> bool {
    prev_entry(prev, slot.topic, slot.partition) matches Some(p) ==> row_stays(p, alive, floor, slot) || p.epoch < u32::MAX
}

/// Whether every epoch that has to rise can.
pub open spec fn epochs_fit(
    prev: Seq<assignment::PartitionRow>,
    brokers: Seq<Seq<char>>,
    topics: Seq<TopicRow>,
    floor: Map<Seq<char>, u32>,
) -> bool {
    brokers.len() > 0 ==> {
        let alive = ordered(brokers);
        forall|i: int|
            0 <= i < layout(prev, alive, topics).len() ==> epoch_fits(prev, alive, floor, #[trigger] layout(prev, alive, topics)[i])
    }
}

/// What the balancer returns.
pub open spec fn balanced(
    prev: Seq<assignment::PartitionRow>,
    brokers: Seq<Seq<char>>,
    topics: Seq<TopicRow>,
    floor: Map<Seq<char>, u32>,
) -> Seq<assignment::PartitionRow> {
    if brokers.len() == 0 {
        Seq::empty()
    } else {
        let alive = ordered(brokers);
        layout(prev, alive, topics).map_values(|s: SlotRow| settled_row(prev, alive, floor, s))
    }
}

fn contains_name(names: &Vec<String>, s: &str) -> (r: bool)
    ensures
        r == order::texts(names@).contains(s@),
{
    let mut i: usize = 0;
    while i < names.len()
        invariant
            i <= names@.len(),
            forall|j: int| 0 <= j < i ==> order::texts(names@)[j] != s@,
        decreases names.len() - i,
    {
        if text_eq(&names[i], s) {
            assert(order::texts(names@)[i as int] == s@);
            return true;
        }
        i = i + 1;
    }
    false
}

fn find_prev<'a>(prev: &'a [PartitionAssignment], topic: &str, partition: i32) -> (r: Option<&'a PartitionAssignment>)
    ensures
        match r {
            Some(p) => prev_entry(assignment::partition_rows(prev@), topic@, partition) == Some(p@) && prev@.contains(*p),
            None => prev_entry(assignment::partition_rows(prev@), topic@, partition) is None,
        },
{
    let ghost all = assignment::partition_rows(prev@);
    let mut i: usize = prev.len();
    assert(all.take(i as int) =~= all);
    while i > 0
        invariant
            i <= prev@.len(),
            all == assignment::partition_rows(prev@),
            prev_entry(all, topic@, partition) == prev_entry(all.take(i as int), topic@, partition),
        decreases i,
    {
        i = i - 1;
        assert(all.take(i + 1).drop_last() =~= all.take(i as int));
        assert(all.take(i + 1).last() == prev@[i as int]@);
        if prev[i].partition == partition && text_eq(&prev[i].topic, topic) {
            return Some(&prev[i]);
        }
    }
    None
}

fn pin_slot(prev: &[PartitionAssignment], alive: &Vec<String>, topic: &str, partition: i32) -> (s: PartitionSlot)
    ensures
        s.row() == pinned_slot(assignment::partition_rows(prev@), order::texts(alive@), topic@, partition),
{
    match find_prev(prev, topic, partition) {
        Some(p) => {
            if contains_name(alive, &p.broker) {
                let placed = !p.broker.as_str().is_empty();
                return PartitionSlot {
                    topic: topic.to_owned(),
                    partition,
                    broker: p.broker.clone(),
                    placed,
                    sticky: true,
                };
            }
        },
        None => {},
    }
    PartitionSlot { topic: topic.to_owned(), partition, broker: String::new(), placed: false, sticky: false }
}

fn pin_partitions(prev: &[PartitionAssignment], alive: &Vec<String>, topics: &[TopicSpec]) -> (slots: Vec<PartitionSlot>)
    ensures
        rows(slots@) == pinned(assignment::partition_rows(prev@), order::texts(alive@), topic_rows(topics@)),
{
    let ghost p = assignment::partition_rows(prev@);
    let ghost a = order::texts(alive@);
    let ghost ts = topic_rows(topics@);
    let mut slots: Vec<PartitionSlot> = Vec::new();
    let mut i: usize = 0;
    assert(rows(slots@) =~= pinned(p, a, ts.take(0)));
    while i < topics.len()
        invariant
            i <= topics@.len(),
            p == assignment::partition_rows(prev@),
            a == order::texts(alive@),
            ts == topic_rows(topics@),
            rows(slots@) == pinned(p, a, ts.take(i as int)),
        decreases topics.len() - i,
    {
        let n: i32 = topics[i].partition_count;
        let mut k: i32 = 0;
        let ghost before = rows(slots@);
        let ghost name = topics@[i as int].name@;
        assert(rows(slots@) =~= before + pinned_topic(p, a, name, 0));
        while k < n
            invariant
                0 <= k,
                k <= n || k == 0,
                i < topics@.len(),
                n == topics@[i as int].partition_count,
                name == topics@[i as int].name@,
                p == assignment::partition_rows(prev@),
                a == order::texts(alive@),
                rows(slots@) == before + pinned_topic(p, a, name, k as int),
            decreases n - k,
        {
            let ghost was = slots@;
            slots.push(pin_slot(prev, alive, &topics[i].name, k));
            k = k + 1;
            proof {
                assert(rows(slots@) =~= rows(was).push(slots@.last().row()));
                assert(rows(slots@) =~= before + pinned_topic(p, a, name, k as int));
            }
        }
        proof {
            assert(ts.take(i + 1).drop_last() =~= ts.take(i as int));
            assert(ts.take(i + 1).last() == topics@[i as int]@);
            assert(pinned_topic(p, a, name, k as int) =~= pinned_topic(p, a, name, n as int));
        }
        i = i + 1;
    }
    assert(ts.take(i as int) =~= ts);
    slots
}

/// How many partitions `broker` holds.
fn count_on(slots: &Vec<PartitionSlot>, broker: &str) -> (n: usize)
    ensures
        n == total_on(rows(slots@), broker@),
{
    let ghost bs = brokers_of(rows(slots@));
    let mut n: usize = 0;
    let mut i: usize = 0;
    while i < slots.len()
        invariant
            i <= slots@.len(),
            bs == brokers_of(rows(slots@)),
            n <= i,
            n == order::count_of(bs.take(i as int), Some(broker@)),
        decreases slots.len() - i,
    {
        proof {
            order::lemma_count_step(bs, i as int, Some(broker@));
            assert(bs[i as int] == slots@[i as int].row().broker);
        }
        if slots[i].placed && text_eq(&slots[i].broker, broker) {
            n = n + 1;
        }
        i = i + 1;
    }
    assert(bs.take(i as int) =~= bs);
    n
}

/// How many partitions of `topic` the broker holds.
fn topic_count_on(slots: &Vec<PartitionSlot>, topic: &str, broker: &str) -> (n: usize)
    ensures
        n == topic_on(rows(slots@), topic@, broker@),
{
    let ghost bs = spots_of(rows(slots@));
    let ghost key = (topic@, Some(broker@));
    let mut n: usize = 0;
    let mut i: usize = 0;
    while i < slots.len()
        invariant
            i <= slots@.len(),
            bs == spots_of(rows(slots@)),
            key == (topic@, Some(broker@)),
            n <= i,
            n == order::count_of(bs.take(i as int), key),
        decreases slots.len() - i,
    {
        proof {
            order::lemma_count_step(bs, i as int, key);
            assert(bs[i as int] == (slots@[i as int].topic@, slots@[i as int].row().broker));
        }
        if slots[i].placed && text_eq(&slots[i].broker, broker) && text_eq(&slots[i].topic, topic) {
            n = n + 1;
        }
        i = i + 1;
    }
    assert(bs.take(i as int) =~= bs);
    n
}

fn move_slot(slots: &mut Vec<PartitionSlot>, i: usize, broker: &String)
    requires
        i < old(slots)@.len(),
    ensures
        rows(final(slots)@) == moved(rows(old(slots)@), i as int, broker@),
        final(slots)@.len() == old(slots)@.len(),
{
    let s = PartitionSlot {
        topic: slots[i].topic.clone(),
        partition: slots[i].partition,
        broker: broker.clone(),
        placed: true,
        sticky: slots[i].sticky,
    };
    slots.set(i, s);
    assert(rows(slots@) =~= moved(rows(old(slots)@), i as int, broker@));
}

fn pick_place(slots: &Vec<PartitionSlot>, alive: &Vec<String>, topic: &str, partition: i32) -> (r: usize)
    requires
        alive@.len() > 0,
    ensures
        r < alive@.len(),
        picked(order::texts(alive@), better_place(rows(slots@), topic@, partition)) == Some(alive@[r as int]@),
{
    let ghost names = order::texts(alive@);
    let ghost sl = rows(slots@);
    let ghost better = better_place(sl, topic@, partition);
    let mut best: usize = 0;
    let mut best_topic: usize = topic_count_on(slots, topic, &alive[0]);
    let mut best_all: usize = count_on(slots, &alive[0]);
    let mut best_score: u64 = rendezvous_hash(topic, partition, &alive[0]);
    let mut i: usize = 1;
    proof {
        order::lemma_scan_step(names, 0, order::every(), better);
        assert(names.take(0) =~= Seq::<Seq<char>>::empty());
        assert(names[0] == alive@[0]@);
    }
    while i < alive.len()
        invariant
            1 <= i <= alive@.len(),
            best < i,
            names == order::texts(alive@),
            sl == rows(slots@),
            better == better_place(sl, topic@, partition),
            order::scan_best(names.take(i as int), order::every(), better) == Some(best as int),
            best_topic == topic_on(sl, topic@, names[best as int]),
            best_all == total_on(sl, names[best as int]),
            best_score == rendezvous(topic@, partition, names[best as int]),
        decreases alive.len() - i,
    {
        let t: usize = topic_count_on(slots, topic, &alive[i]);
        let n: usize = count_on(slots, &alive[i]);
        let score: u64 = rendezvous_hash(topic, partition, &alive[i]);
        proof {
            order::lemma_scan_step(names, i as int, order::every(), better);
            assert(names[i as int] == alive@[i as int]@);
        }
        if t < best_topic || (t == best_topic && (n < best_all || (n == best_all && score > best_score))) {
            best = i;
            best_topic = t;
            best_all = n;
            best_score = score;
        }
        i = i + 1;
    }
    assert(names.take(i as int) =~= names);
    best
}

/// Gives every partition without a broker one.
fn place_unpinned(slots: &mut Vec<PartitionSlot>, alive: &Vec<String>)
    requires
        alive@.len() > 0,
    ensures
        rows(final(slots)@) == place_from(rows(old(slots)@), order::texts(alive@), 0),
{
    let ghost start = rows(slots@);
    let mut i: usize = 0;
    while i < slots.len()
        invariant
            i <= slots@.len(),
            alive@.len() > 0,
            place_from(start, order::texts(alive@), 0) == place_from(rows(slots@), order::texts(alive@), i as int),
        decreases slots.len() - i,
    {
        assert(rows(slots@)[i as int] == slots@[i as int].row());
        if !slots[i].placed {
            let k: usize = pick_place(slots, alive, &slots[i].topic, slots[i].partition);
            move_slot(slots, i, &alive[k]);
        }
        i = i + 1;
    }
}

fn pick_loaded(slots: &Vec<PartitionSlot>, alive: &Vec<String>) -> (r: (usize, usize, usize, usize))
    requires
        alive@.len() > 0,
    ensures
        r.0 < alive@.len(),
        r.1 < alive@.len(),
        picked(order::texts(alive@), heavier(rows(slots@))) == Some(alive@[r.0 as int]@),
        picked(order::texts(alive@), lighter(rows(slots@))) == Some(alive@[r.1 as int]@),
        r.2 == total_on(rows(slots@), alive@[r.0 as int]@),
        r.3 == total_on(rows(slots@), alive@[r.1 as int]@),
{
    let ghost names = order::texts(alive@);
    let ghost sl = rows(slots@);
    let mut hi: usize = 0;
    let mut lo: usize = 0;
    let mut hi_count: usize = count_on(slots, &alive[0]);
    let mut lo_count: usize = hi_count;
    let mut i: usize = 1;
    proof {
        order::lemma_scan_step(names, 0, order::every(), heavier(sl));
        order::lemma_scan_step(names, 0, order::every(), lighter(sl));
        assert(names.take(0) =~= Seq::<Seq<char>>::empty());
    }
    while i < alive.len()
        invariant
            1 <= i <= alive@.len(),
            hi < i,
            lo < i,
            names == order::texts(alive@),
            sl == rows(slots@),
            order::scan_best(names.take(i as int), order::every(), heavier(sl)) == Some(hi as int),
            order::scan_best(names.take(i as int), order::every(), lighter(sl)) == Some(lo as int),
            hi_count == total_on(sl, names[hi as int]),
            lo_count == total_on(sl, names[lo as int]),
        decreases alive.len() - i,
    {
        let c: usize = count_on(slots, &alive[i]);
        proof {
            order::lemma_scan_step(names, i as int, order::every(), heavier(sl));
            order::lemma_scan_step(names, i as int, order::every(), lighter(sl));
            assert(names[i as int] == alive@[i as int]@);
        }
        if c > hi_count {
            hi = i;
            hi_count = c;
        }
        if c < lo_count {
            lo = i;
            lo_count = c;
        }
        i = i + 1;
    }
    assert(names.take(i as int) =~= names);
    (hi, lo, hi_count, lo_count)
}

fn slot_lt(a: &PartitionSlot, b: &PartitionSlot) -> (r: bool)
    ensures
        r == slot_before(a.row(), b.row()),
{
    text_lt(&a.topic, &b.topic) || (text_eq(&a.topic, &b.topic) && a.partition < b.partition)
}

fn pick_victim(slots: &Vec<PartitionSlot>, hi: &String, lo: &String) -> (r: Option<usize>)
    ensures
        match r {
            Some(v) => v < slots@.len() && order::scan_best(rows(slots@), on_broker(hi@), cheaper_move(rows(slots@), hi@, lo@)) == Some(v as int),
            None => order::scan_best(rows(slots@), on_broker(hi@), cheaper_move(rows(slots@), hi@, lo@)) is None,
        },
{
    let ghost sl = rows(slots@);
    let ghost ok = on_broker(hi@);
    let ghost better = cheaper_move(sl, hi@, lo@);
    let mut best: Option<usize> = None;
    let mut best_helps: bool = false;
    let mut best_score: u64 = 0;
    let mut i: usize = 0;
    assert(sl.take(0) =~= Seq::<SlotRow>::empty());
    while i < slots.len()
        invariant
            i <= slots@.len(),
            sl == rows(slots@),
            ok == on_broker(hi@),
            better == cheaper_move(sl, hi@, lo@),
            match best {
                Some(k) => k < i && order::scan_best(sl.take(i as int), ok, better) == Some(k as int)
                    && best_helps == helps(sl, sl[k as int].topic, hi@, lo@)
                    && best_score == rendezvous(sl[k as int].topic, sl[k as int].partition, lo@),
                None => order::scan_best(sl.take(i as int), ok, better) is None,
            },
        decreases slots.len() - i,
    {
        proof {
            order::lemma_scan_step(sl, i as int, ok, better);
            assert(sl[i as int] == slots@[i as int].row());
        }
        let s = &slots[i];
        if s.placed && text_eq(&s.broker, hi) {
            let h: bool = topic_count_on(slots, &s.topic, hi) > topic_count_on(slots, &s.topic, lo);
            let score: u64 = rendezvous_hash(&s.topic, s.partition, lo);
            let better_one: bool = match best {
                None => true,
                Some(k) => {
                    assert(sl[k as int] == slots@[k as int].row());
                    let b = &slots[k];
                    if s.sticky != b.sticky {
                        b.sticky
                    } else if h != best_helps {
                        h
                    } else if score != best_score {
                        score > best_score
                    } else {
                        slot_lt(s, b)
                    }
                },
            };
            if better_one {
                best = Some(i);
                best_helps = h;
                best_score = score;
            }
        }
        i = i + 1;
    }
    assert(sl.take(i as int) =~= sl);
    best
}

/// Moves partitions from the most to the least loaded broker until the loads
/// differ by at most one.
fn smooth_partitions(slots: &mut Vec<PartitionSlot>, alive: &Vec<String>)
    ensures
        rows(final(slots)@) == smoothed(rows(old(slots)@), order::texts(alive@)),
{
    if alive.len() < 2 || slots.len() == 0 {
        return;
    }
    let ghost start = rows(slots@);
    let ghost names = order::texts(alive@);
    loop
        invariant
            alive@.len() >= 2,
            names == order::texts(alive@),
            smooth_from(start, names) == smooth_from(rows(slots@), names),
        ensures
            rows(slots@) == smooth_from(start, names),
        decreases order::pairs(brokers_of(rows(slots@))),
    {
        let (hi, lo, hi_count, lo_count) = pick_loaded(slots, alive);
        if hi_count <= lo_count || hi_count - lo_count <= 1 {
            break;
        }
        proof {
            lemma_smooth_step(rows(slots@), names);
        }
        match pick_victim(slots, &alive[hi], &alive[lo]) {
            None => {
                break;
            },
            Some(v) => {
                move_slot(slots, v, &alive[lo]);
            },
        }
    }
}

fn pick_topic_loaded(slots: &Vec<PartitionSlot>, alive: &Vec<String>, topic: &str) -> (r: (usize, usize, usize, usize))
    requires
        alive@.len() > 0,
    ensures
        r.0 < alive@.len(),
        r.1 < alive@.len(),
        picked(order::texts(alive@), more_of(rows(slots@), topic@)) == Some(alive@[r.0 as int]@),
        picked(order::texts(alive@), less_of(rows(slots@), topic@)) == Some(alive@[r.1 as int]@),
        r.2 == topic_on(rows(slots@), topic@, alive@[r.0 as int]@),
        r.3 == topic_on(rows(slots@), topic@, alive@[r.1 as int]@),
{
    let ghost names = order::texts(alive@);
    let ghost sl = rows(slots@);
    let mut hi: usize = 0;
    let mut lo: usize = 0;
    let mut hi_count: usize = topic_count_on(slots, topic, &alive[0]);
    let mut lo_count: usize = hi_count;
    let mut i: usize = 1;
    proof {
        order::lemma_scan_step(names, 0, order::every(), more_of(sl, topic@));
        order::lemma_scan_step(names, 0, order::every(), less_of(sl, topic@));
        assert(names.take(0) =~= Seq::<Seq<char>>::empty());
    }
    while i < alive.len()
        invariant
            1 <= i <= alive@.len(),
            hi < i,
            lo < i,
            names == order::texts(alive@),
            sl == rows(slots@),
            order::scan_best(names.take(i as int), order::every(), more_of(sl, topic@)) == Some(hi as int),
            order::scan_best(names.take(i as int), order::every(), less_of(sl, topic@)) == Some(lo as int),
            hi_count == topic_on(sl, topic@, names[hi as int]),
            lo_count == topic_on(sl, topic@, names[lo as int]),
        decreases alive.len() - i,
    {
        let c: usize = topic_count_on(slots, topic, &alive[i]);
        proof {
            order::lemma_scan_step(names, i as int, order::every(), more_of(sl, topic@));
            order::lemma_scan_step(names, i as int, order::every(), less_of(sl, topic@));
            assert(names[i as int] == alive@[i as int]@);
        }
        if c > hi_count {
            hi = i;
            hi_count = c;
        }
        if c < lo_count {
            lo = i;
            lo_count = c;
        }
        i = i + 1;
    }
    assert(names.take(i as int) =~= names);
    (hi, lo, hi_count, lo_count)
}

/// The partition of `topic` on `broker` to give away.
fn pick_slot(slots: &Vec<PartitionSlot>, topic: &str, broker: &str) -> (r: Option<usize>)
    ensures
        match r {
            Some(v) => v < slots@.len() && order::scan_best(rows(slots@), of_topic_on(topic@, broker@), better_donor()) == Some(v as int),
            None => order::scan_best(rows(slots@), of_topic_on(topic@, broker@), better_donor()) is None,
        },
{
    let ghost sl = rows(slots@);
    let ghost ok = of_topic_on(topic@, broker@);
    let ghost better = better_donor();
    let mut best: Option<usize> = None;
    let mut i: usize = 0;
    assert(sl.take(0) =~= Seq::<SlotRow>::empty());
    while i < slots.len()
        invariant
            i <= slots@.len(),
            sl == rows(slots@),
            ok == of_topic_on(topic@, broker@),
            better == better_donor(),
            match best {
                Some(k) => k < i && order::scan_best(sl.take(i as int), ok, better) == Some(k as int),
                None => order::scan_best(sl.take(i as int), ok, better) is None,
            },
        decreases slots.len() - i,
    {
        proof {
            order::lemma_scan_step(sl, i as int, ok, better);
            assert(sl[i as int] == slots@[i as int].row());
        }
        let s = &slots[i];
        if s.placed && text_eq(&s.broker, broker) && text_eq(&s.topic, topic) {
            let better_one: bool = match best {
                None => true,
                Some(k) => {
                    assert(sl[k as int] == slots@[k as int].row());
                    let b = &slots[k];
                    if s.sticky != b.sticky {
                        b.sticky
                    } else {
                        s.partition < b.partition
                    }
                },
            };
            if better_one {
                best = Some(i);
            }
        }
        i = i + 1;
    }
    assert(sl.take(i as int) =~= sl);
    best
}

fn pick_partner(slots: &Vec<PartitionSlot>, topic: &str, hi: &String, lo: &String) -> (r: Option<usize>)
    ensures
        match r {
            Some(v) => v < slots@.len() && order::scan_best(rows(slots@), may_trade(rows(slots@), topic@, hi@, lo@), better_partner()) == Some(v as int),
            None => order::scan_best(rows(slots@), may_trade(rows(slots@), topic@, hi@, lo@), better_partner()) is None,
        },
{
    let ghost sl = rows(slots@);
    let ghost ok = may_trade(sl, topic@, hi@, lo@);
    let ghost better = better_partner();
    let mut best: Option<usize> = None;
    let mut i: usize = 0;
    assert(sl.take(0) =~= Seq::<SlotRow>::empty());
    while i < slots.len()
        invariant
            i <= slots@.len(),
            sl == rows(slots@),
            ok == may_trade(sl, topic@, hi@, lo@),
            better == better_partner(),
            match best {
                Some(k) => k < i && order::scan_best(sl.take(i as int), ok, better) == Some(k as int),
                None => order::scan_best(sl.take(i as int), ok, better) is None,
            },
        decreases slots.len() - i,
    {
        proof {
            order::lemma_scan_step(sl, i as int, ok, better);
            assert(sl[i as int] == slots@[i as int].row());
        }
        let s = &slots[i];
        if s.placed && text_eq(&s.broker, lo) && !text_eq(&s.topic, topic)
            && topic_count_on(slots, &s.topic, lo) > topic_count_on(slots, &s.topic, hi) {
            let better_one: bool = match best {
                None => true,
                Some(k) => {
                    assert(sl[k as int] == slots@[k as int].row());
                    let b = &slots[k];
                    if s.sticky != b.sticky {
                        b.sticky
                    } else {
                        slot_lt(s, b)
                    }
                },
            };
            if better_one {
                best = Some(i);
            }
        }
        i = i + 1;
    }
    assert(sl.take(i as int) =~= sl);
    best
}

/// One repair; `false` where no topic can be repaired.
fn improve_one_topic(slots: &mut Vec<PartitionSlot>, alive: &Vec<String>, topics: &Vec<String>) -> (r: bool)
    requires
        alive@.len() > 0,
    ensures
        match repaired_from(rows(old(slots)@), order::texts(alive@), order::texts(topics@), 0) {
            Some(next) => r && rows(final(slots)@) == next,
            None => !r && rows(final(slots)@) == rows(old(slots)@),
        },
        final(slots)@.len() == old(slots)@.len(),
{
    let ghost start = rows(slots@);
    let ghost names = order::texts(alive@);
    let ghost ts = order::texts(topics@);
    let mut j: usize = 0;
    while j < topics.len()
        invariant
            j <= topics@.len(),
            alive@.len() > 0,
            *slots == *old(slots),
            start == rows(slots@),
            names == order::texts(alive@),
            ts == order::texts(topics@),
            repaired_from(start, names, ts, 0) == repaired_from(start, names, ts, j as int),
        decreases topics.len() - j,
    {
        let topic = &topics[j];
        assert(ts[j as int] == topic@);
        let (hi, lo, hi_count, lo_count) = pick_topic_loaded(slots, alive, topic);
        if hi_count > lo_count && hi_count - lo_count > 1 {
            match pick_slot(slots, topic, &alive[hi]) {
                None => {},
                Some(donor) => {
                    if count_on(slots, &alive[hi]) > count_on(slots, &alive[lo]) {
                        move_slot(slots, donor, &alive[lo]);
                        return true;
                    }
                    match pick_partner(slots, topic, &alive[hi], &alive[lo]) {
                        None => {},
                        Some(partner) => {
                            move_slot(slots, donor, &alive[lo]);
                                move_slot(slots, partner, &alive[hi]);
                                return true;
                        },
                    }
                },
            }
        }
        j = j + 1;
    }
    false
}

fn topic_names(slots: &Vec<PartitionSlot>) -> (out: Vec<String>)
    ensures
        order::texts(out@) == topics_of(rows(slots@)),
{
    let mut v: Vec<String> = Vec::new();
    let mut i: usize = 0;
    while i < slots.len()
        invariant
            i <= slots@.len(),
            v@.len() == i,
            forall|j: int| 0 <= j < i ==> (#[trigger] v@[j])@ == slots@[j].topic@,
        decreases slots.len() - i,
    {
        v.push(slots[i].topic.clone());
        i = i + 1;
    }
    assert(order::texts(v@) =~= rows(slots@).map_values(|s: SlotRow| s.topic));
    distinct_names(&v)
}

/// Levels each topic over the alive brokers without unlevelling the cluster.
fn smooth_partitions_per_topic(slots: &mut Vec<PartitionSlot>, alive: &Vec<String>)
    ensures
        rows(final(slots)@) == levelled(rows(old(slots)@), order::texts(alive@)),
{
    if alive.len() < 2 || slots.len() == 0 {
        return;
    }
    let topics = topic_names(slots);
    let ghost start = rows(slots@);
    let ghost names = order::texts(alive@);
    let n: u128 = slots.len() as u128;
    let m: u128 = alive.len() as u128;
    assert(n * m + 16 <= u128::MAX) by (nonlinear_arith)
        requires
            n <= u64::MAX,
            m <= u64::MAX,
    ;
    let cap: u128 = n * m + 16;
    let mut left: u128 = cap;
    assert(cap as nat == repair_cap(start, names));
    while left > 0
        invariant
            alive@.len() >= 2,
            names == order::texts(alive@),
            start == rows(old(slots)@),
            start.len() > 0,
            order::texts(topics@) == topics_of(start),
            cap as nat == repair_cap(start, names),
            level_from(start, names, order::texts(topics@), cap as nat) == level_from(rows(slots@), names, order::texts(topics@), left as nat),
        decreases left,
    {
        if !improve_one_topic(slots, alive, &topics) {
            return;
        }
        left = left - 1;
    }
}

pub open spec fn rows_before(prev: Option<&[PartitionAssignment]>) -> Seq<assignment::PartitionRow> {
    match prev {
        Some(p) => assignment::partition_rows(p@),
        None => Seq::empty(),
    }
}

/// The leader of every partition of the catalogue.
///
/// `prev` is the previous assignment, `brokers` the alive brokers, and
/// `epoch_floor` gives for a partition key the least epoch it may have.
pub fn balance(
    prev: Option<&[PartitionAssignment]>,
    brokers: &[String],
    topics: &[TopicSpec],
    epoch_floor: &TextMap<u32>,
) -> (out: Vec<PartitionAssignment>)
    requires
        epochs_fit(rows_before(prev), order::texts(brokers@), topic_rows(topics@), epoch_floor@),
    ensures
        assignment::partition_rows(out@) == balanced(rows_before(prev), order::texts(brokers@), topic_rows(topics@), epoch_floor@),
{
    checked_balance(prev, brokers, topics, epoch_floor).unwrap()
}

/// The leader of every partition of the catalogue; none where an epoch would
/// have to rise beyond its greatest value.
pub fn checked_balance(
    prev: Option<&[PartitionAssignment]>,
    brokers: &[String],
    topics: &[TopicSpec],
    epoch_floor: &TextMap<u32>,
) -> (r: Option<Vec<PartitionAssignment>>)
    ensures
        r is Some <==> epochs_fit(rows_before(prev), order::texts(brokers@), topic_rows(topics@), epoch_floor@),
        r matches Some(out) ==> assignment::partition_rows(out@) == balanced(
            rows_before(prev),
            order::texts(brokers@),
            topic_rows(topics@),
            epoch_floor@,
        ),
{
    let mut out: Vec<PartitionAssignment> = Vec::new();
    if brokers.len() == 0 {
        assert(assignment::partition_rows(out@) =~= Seq::empty());
        return Some(out);
    }
    let alive = sorted_names(brokers);
    let empty: Vec<PartitionAssignment> = Vec::new();
    let before: &[PartitionAssignment] = match prev {
        Some(p) => p,
        None => empty.as_slice(),
    };
    let ghost p = assignment::partition_rows(before@);
    let ghost names = order::texts(alive@);
    proof {
        assert(assignment::partition_rows(empty@) =~= Seq::empty());
        assert(p == rows_before(prev));
        assert(names.len() > 0) by {
            lemma_ordered(order::texts(brokers@));
        }
    }
    let mut slots = pin_partitions(before, &alive, topics);
    place_unpinned(&mut slots, &alive);
    smooth_partitions(&mut slots, &alive);
    smooth_partitions_per_topic(&mut slots, &alive);
    let ghost sl = rows(slots@);
    assert(sl == layout(p, names, topic_rows(topics@)));
    let mut i: usize = 0;
    while i < slots.len()
        invariant
            i <= slots@.len(),
            p == rows_before(prev),
            p == assignment::partition_rows(before@),
            names == order::texts(alive@),
            names == ordered(order::texts(brokers@)),
            brokers@.len() > 0,
            sl == rows(slots@),
            sl == layout(p, names, topic_rows(topics@)),
            out@.len() == i,
            forall|k: int| 0 <= k < i ==> epoch_fits(p, names, epoch_floor@, #[trigger] sl[k]),
            forall|k: int| 0 <= k < i ==> (#[trigger] out@[k])@ == settled_row(p, names, epoch_floor@, sl[k]),
        decreases slots.len() - i,
    {
        assert(sl[i as int] == slots@[i as int].row());
        let s = &slots[i];
        let key = partition_key(&s.topic, s.partition);
        let floor: u32 = match epoch_floor.get(&key) {
            Some(f) => *f,
            None => 0,
        };
        let broker: String = if s.placed { s.broker.clone() } else { String::new() };
        let mut epoch: u32 = 1;
        let mut keep: bool = false;
        match find_prev(before, &s.topic, s.partition) {
            Some(pa) => {
                if contains_name(&alive, &pa.broker) && text_eq(&pa.broker, &broker) && pa.epoch >= floor {
                    out.push(pa.clone());
                    keep = true;
                } else {
                    if pa.epoch == u32::MAX {
                        assert(!epoch_fits(p, names, epoch_floor@, layout(p, names, topic_rows(topics@))[i as int]));
                        return None;
                    }
                    epoch = pa.epoch + 1;
                }
            },
            None => {},
        }
        if !keep {
            out.push(PartitionAssignment {
                topic: s.topic.clone(),
                partition: s.partition,
                broker,
                epoch: if epoch >= floor { epoch } else { floor },
                role: PartitionRole::Leader,
            });
        }
        i = i + 1;
    }
    assert(assignment::partition_rows(out@) =~= balanced(p, order::texts(brokers@), topic_rows(topics@), epoch_floor@));
    Some(out)
}

/// Sorting the brokers loses and adds none.
pub proof fn lemma_ordered(brokers: Seq<Seq<char>>)
    ensures
        ordered(brokers).len() == brokers.len(),
        ordered(brokers).to_multiset() == brokers.to_multiset(),
        forall|b: Seq<char>| #[trigger] ordered(brokers).contains(b) <==> brokers.contains(b),
{
    order::lemma_text_leq_total();
    brokers.lemma_sort_by_ensures(order::text_leq());
    let s = ordered(brokers);
    s.to_multiset_ensures();
    brokers.to_multiset_ensures();
    assert forall|b: Seq<char>| #[trigger] s.contains(b) <==> brokers.contains(b) by {
        assert(s.to_multiset().count(b) == brokers.to_multiset().count(b));
    }
}

} // verus!
