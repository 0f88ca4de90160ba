//! Recomputing the assignment.
//!
//! The controller recomputes the assignment whenever brokers, topics or
//! groups change, and is the only one to write it. The recompute itself is a
//! function of its inputs and of the assignment before it.

use vstd::prelude::*;
use crate::assignment;
use crate::assignment::{Assignment, AssignmentModel, BrokerAssignment, BrokerHealth, BrokerRow};
use crate::balancer;
use crate::balancer::{checked_balance, partition_key, TopicRow, TopicSpec};
use crate::group_balancer;
use crate::group_balancer::{checked_balance_groups, GroupSpec};
use crate::keyed::TextMap;
use crate::order;
use crate::order::sorted_names;
use crate::text;
use crate::text::text_eq;

verus! {

/// Why the assignment is recomputed.
#[derive(Debug, Clone, Copy, PartialEq, Eq, Hash, Structural)]
pub enum AssignmentReason {
    BrokerJoined,
    BrokerLeaving,
    BrokerDead,
    TopicCreated,
    TopicDeleted,
    TopicResized,
    AdminRebalance,
    InitialRecompute,
}

impl AssignmentReason {
    pub open spec fn name(self) -> Seq<char> {
        match self {
            AssignmentReason::BrokerJoined => "broker_joined"@,
            AssignmentReason::BrokerLeaving => "broker_leaving"@,
            AssignmentReason::BrokerDead => "broker_dead"@,
            AssignmentReason::TopicCreated => "topic_created"@,
            AssignmentReason::TopicDeleted => "topic_deleted"@,
            AssignmentReason::TopicResized => "topic_resized"@,
            AssignmentReason::AdminRebalance => "admin_rebalance"@,
            AssignmentReason::InitialRecompute => "initial_recompute"@,
        }
    }

    pub fn as_str(self) -> (s: &'static str)
        ensures
            s@ == self.name(),
    {
        match self {
            AssignmentReason::BrokerJoined => "broker_joined",
            AssignmentReason::BrokerLeaving => "broker_leaving",
            AssignmentReason::BrokerDead => "broker_dead",
            AssignmentReason::TopicCreated => "topic_created",
            AssignmentReason::TopicDeleted => "topic_deleted",
            AssignmentReason::TopicResized => "topic_resized",
            AssignmentReason::AdminRebalance => "admin_rebalance",
            AssignmentReason::InitialRecompute => "initial_recompute",
        }
    }
}

/// The catalogue of topics.
pub trait TopicSource {
    fn topics(&self) -> Vec<TopicSpec>;
}

/// The brokers as the controller sees them.
pub trait BrokerSource {
    /// Brokers that may lead partitions and coordinate groups.
    fn alive_brokers(&self) -> Vec<String>;

    /// Every broker that the cluster knows, alive or not.
    fn registered_brokers(&self) -> (r: Vec<String>)
        default_ensures
            call_ensures(Self::alive_brokers, (self,), r),
    {
        self.alive_brokers()
    }

    /// Registered brokers that are shutting down.
    fn draining_brokers(&self) -> (r: Vec<String>)
        default_ensures
            r@.len() == 0,
    {
        Vec::new()
    }
}

/// The consumer groups that are active.
pub trait GroupSource {
    fn active_groups(&self) -> Vec<String>;
}

/// Sources made of lists.
#[derive(Debug, Clone)]
pub struct StaticSources {
    pub topics: Vec<TopicSpec>,
    pub brokers: Vec<String>,
    pub groups: Vec<String>,
}

impl Default for StaticSources {
    fn default() -> (r: Self)
        ensures
            r.topics@.len() == 0,
            r.brokers@.len() == 0,
            r.groups@.len() == 0,
    {
        StaticSources { topics: Vec::new(), brokers: Vec::new(), groups: Vec::new() }
    }
}

fn copy_names(v: &Vec<String>) -> (r: Vec<String>)
    ensures
        r@ == v@,
{
    let mut r: Vec<String> = Vec::new();
    let mut i: usize = 0;
    while i < v.len()
        invariant
            i <= v@.len(),
            r@ == v@.take(i as int),
        decreases v.len() - i,
    {
        r.push(v[i].clone());
        i = i + 1;
        assert(r@ =~= v@.take(i as int));
    }
    assert(r@ =~= v@);
    r
}

impl TopicSource for StaticSources {
    fn topics(&self) -> (r: Vec<TopicSpec>)
        ensures
            r@ == self.topics@,
    {
        let mut r: Vec<TopicSpec> = Vec::new();
        let mut i: usize = 0;
        while i < self.topics.len()
            invariant
                i <= self.topics@.len(),
                r@ == self.topics@.take(i as int),
            decreases self.topics.len() - i,
        {
            r.push(self.topics[i].clone());
            i = i + 1;
            assert(r@ =~= self.topics@.take(i as int));
        }
        assert(r@ =~= self.topics@);
        r
    }
}

impl BrokerSource for StaticSources {
    fn alive_brokers(&self) -> (r: Vec<String>)
        ensures
            r@ == self.brokers@,
    {
        copy_names(&self.brokers)
    }
}

impl GroupSource for StaticSources {
    fn active_groups(&self) -> (r: Vec<String>)
        ensures
            r@ == self.groups@,
    {
        copy_names(&self.groups)
    }
}

/// What a recompute goes by.
pub struct RecomputeInputs {
    pub alive: Vec<String>,
    pub registered: Vec<String>,
    pub draining: Vec<String>,
    pub topics: Vec<TopicSpec>,
    pub groups: Vec<GroupSpec>,
    /// The least epoch of a partition, by partition key.
    pub epoch_floor: TextMap<u32>,
    /// The time of the recompute, as text.
    pub now: String,
}

// Broker rows.

/// The last sighting in the first row of a broker.
pub open spec fn seen_in(prev: Seq<BrokerRow>, id: Seq<char>, i: int) -> Option<Seq<char>>
    decreases prev.len() - i,
{
    if i < 0 || i >= prev.len() {
        None
    } else if prev[i].id == id {
        Some(prev[i].last_seen)
    } else {
        seen_in(prev, id, i + 1)
    }
}

/// The health that a broker is reported with: draining outranks alive.
pub open spec fn health_of(
    registered: Seq<Seq<char>>,
    alive: Seq<Seq<char>>,
    draining: Seq<Seq<char>>,
    id: Seq<char>,
) -> BrokerHealth {
    if registered.contains(id) && draining.contains(id) {
        BrokerHealth::Draining
    } else if alive.contains(id) {
        BrokerHealth::Alive
    } else {
        BrokerHealth::Dead
    }
}

/// The row of a broker. A dead one keeps the time at which it was last seen.
pub open spec fn broker_row(
    registered: Seq<Seq<char>>,
    alive: Seq<Seq<char>>,
    draining: Seq<Seq<char>>,
    now: Seq<char>,
    prev: Seq<BrokerRow>,
    id: Seq<char>,
) -> BrokerRow {
    let health = health_of(registered, alive, draining, id);
    BrokerRow {
        id,
        health,
        last_seen: if health == BrokerHealth::Dead {
            match seen_in(prev, id, 0) {
                Some(t) => t,
                None => now,
            }
        } else {
            now
        },
    }
}

/// The brokers that are listed: the registered ones, and alive ones that are
/// not registered yet.
pub open spec fn listed(registered: Seq<Seq<char>>, alive: Seq<Seq<char>>) -> Seq<Seq<char>>
    decreases alive.len(),
{
    if alive.len() == 0 {
        registered
    } else {
        let sofar = listed(registered, alive.drop_last());
        if sofar.contains(alive.last()) {
            sofar
        } else {
            sofar.push(alive.last())
        }
    }
}

/// The rows of all listed brokers, by id.
pub open spec fn broker_list(
    registered: Seq<Seq<char>>,
    alive: Seq<Seq<char>>,
    draining: Seq<Seq<char>>,
    now: Seq<char>,
    prev: Seq<BrokerRow>,
) -> Seq<BrokerRow> {
    listed(registered, alive).sort_by(order::text_leq()).map_values(
        |id: Seq<char>| broker_row(registered, alive, draining, now, prev, id),
    )
}

fn has_name(names: &[String], s: &str) -> (r: bool)
    ensures
        r == order::texts(names@).contains(s@),
{
    let mut i: usize = 0;
    while i < names.len()
        invariant
            i <= names@.len(),
            forall|j: int| 0 <= j < i ==> order::texts(names@)[j] != s@,
        decreases names.len() - i,
    {
        if text_eq(&names[i], s) {
            assert(order::texts(names@)[i as int] == s@);
            return true;
        }
        i = i + 1;
    }
    false
}

fn find_seen(prev: &[BrokerAssignment], id: &str) -> (r: Option<String>)
    ensures
        match r {
            Some(t) => seen_in(assignment::broker_rows(prev@), id@, 0) == Some(t@),
            None => seen_in(assignment::broker_rows(prev@), id@, 0) is None,
        },
{
    let ghost rows = assignment::broker_rows(prev@);
    let mut i: usize = 0;
    while i < prev.len()
        invariant
            i <= prev@.len(),
            rows == assignment::broker_rows(prev@),
            seen_in(rows, id@, 0) == seen_in(rows, id@, i as int),
        decreases prev.len() - i,
    {
        if text_eq(&prev[i].id, id) {
            return Some(prev[i].last_seen.clone());
        }
        i = i + 1;
    }
    None
}

/// The rows of the brokers that the assignment lists.
pub fn build_broker_entries(
    registered: &[String],
    alive: &[String],
    draining: &[String],
    now: &str,
    prev: Option<&[BrokerAssignment]>,
) -> (out: Vec<BrokerAssignment>)
    ensures
        assignment::broker_rows(out@) == broker_list(
            order::texts(registered@),
            order::texts(alive@),
            order::texts(draining@),
            now@,
            match prev {
                Some(p) => assignment::broker_rows(p@),
                None => Seq::empty(),
            },
        ),
{
    let none: Vec<BrokerAssignment> = Vec::new();
    let prev: &[BrokerAssignment] = match prev {
        Some(p) => p,
        None => none.as_slice(),
    };
    let ghost r = order::texts(registered@);
    let ghost a = order::texts(alive@);
    let ghost d = order::texts(draining@);
    let ghost p = assignment::broker_rows(prev@);
    let mut names: Vec<String> = Vec::new();
    let mut i: usize = 0;
    while i < registered.len()
        invariant
            i <= registered@.len(),
            r == order::texts(registered@),
            order::texts(names@) == r.take(i as int),
        decreases registered.len() - i,
    {
        let ghost before = order::texts(names@);
        names.push(registered[i].clone());
        assert(order::texts(names@) =~= before.push(r[i as int]));
        i = i + 1;
        assert(order::texts(names@) =~= r.take(i as int));
    }
    let mut j: usize = 0;
    proof {
        assert(r.take(i as int) =~= r);
        assert(order::texts(names@) =~= listed(r, a.take(0)));
    }
    while j < alive.len()
        invariant
            j <= alive@.len(),
            a == order::texts(alive@),
            order::texts(names@) == listed(r, a.take(j as int)),
        decreases alive.len() - j,
    {
        let ghost before = order::texts(names@);
        assert(a.take(j + 1).drop_last() =~= a.take(j as int));
        if !has_name(&names, &alive[j]) {
            names.push(alive[j].clone());
            assert(order::texts(names@) =~= before.push(a[j as int]));
        }
        j = j + 1;
    }
    assert(a.take(j as int) =~= a);
    let sorted = sorted_names(&names);
    let ghost ids = order::texts(sorted@);
    let ghost f = |id: Seq<char>| broker_row(r, a, d, now@, p, id);
    let mut out: Vec<BrokerAssignment> = Vec::new();
    let mut k: usize = 0;
    assert(assignment::broker_rows(out@) =~= ids.take(0).map_values(f));
    while k < sorted.len()
        invariant
            k <= sorted@.len(),
            ids == order::texts(sorted@),
            r == order::texts(registered@),
            a == order::texts(alive@),
            d == order::texts(draining@),
            p == assignment::broker_rows(prev@),
            f == (|id: Seq<char>| broker_row(r, a, d, now@, p, id)),
            assignment::broker_rows(out@) == ids.take(k as int).map_values(f),
        decreases sorted.len() - k,
    {
        let id = &sorted[k];
        let ghost before = assignment::broker_rows(out@);
        let health: BrokerHealth = if has_name(registered, id) && has_name(draining, id) {
            BrokerHealth::Draining
        } else if has_name(alive, id) {
            BrokerHealth::Alive
        } else {
            BrokerHealth::Dead
        };
        let last_seen: String = if health == BrokerHealth::Dead {
            match find_seen(prev, id) {
                Some(t) => t,
                None => now.to_owned(),
            }
        } else {
            now.to_owned()
        };
        let row = BrokerAssignment { id: id.clone(), health, last_seen };
        let ghost seen = row@;
        out.push(row);
        proof {
            assert(seen =~= f(ids[k as int]));
            assert(assignment::broker_rows(out@) =~= before.push(seen));
            assert(ids.take(k + 1) =~= ids.take(k as int).push(ids[k as int]));
            assert(assignment::broker_rows(out@) =~= ids.take(k + 1).map_values(f));
        }
        k = k + 1;
    }
    proof {
        assert(ids.take(k as int) =~= ids);
        assert(assignment::broker_rows(none@) =~= Seq::empty());
        assert(assignment::broker_rows(out@) =~= broker_list(r, a, d, now@, p));
    }
    out
}

// Epoch floors.

pub open spec fn assigned(prev: Seq<assignment::PartitionRow>, topic: Seq<char>, partition: i32) -> bool {
    exists|i: int| 0 <= i < prev.len() && (#[trigger] prev[i]).topic == topic && prev[i].partition == partition
}

/// The partitions of a topic from `n` on that the assignment does not list.
pub open spec fn unassigned_from(prev: Seq<assignment::PartitionRow>, topic: Seq<char>, n: int, count: int) -> Seq<(Seq<char>, i32)>
    decreases count - n,
{
    if n >= count {
        Seq::empty()
    } else if assigned(prev, topic, n as i32) {
        unassigned_from(prev, topic, n + 1, count)
    } else {
        seq![(topic, n as i32)] + unassigned_from(prev, topic, n + 1, count)
    }
}

/// The partitions of the catalogue that the assignment does not list.
pub open spec fn unassigned(prev: Seq<assignment::PartitionRow>, topics: Seq<TopicRow>) -> Seq<(Seq<char>, i32)>
    decreases topics.len(),
{
    if topics.len() == 0 {
        Seq::empty()
    } else {
        unassigned(prev, topics.drop_last()) + unassigned_from(
            prev,
            topics.last().name,
            0,
            topics.last().partition_count as int,
        )
    }
}

pub open spec fn partition_pairs(s: Seq<(String, i32)>) -> Seq<(Seq<char>, i32)> {
    s.map_values(|p: (String, i32)| (p.0@, p.1))
}

fn is_assigned(prev: &Vec<assignment::PartitionAssignment>, topic: &str, partition: i32) -> (r: bool)
    ensures
        r == assigned(assignment::partition_rows(prev@), topic@, partition),
{
    let ghost rows = assignment::partition_rows(prev@);
    let mut i: usize = 0;
    while i < prev.len()
        invariant
            i <= prev@.len(),
            rows == assignment::partition_rows(prev@),
            forall|j: int| 0 <= j < i ==> !((#[trigger] rows[j]).topic == topic@ && rows[j].partition == partition),
        decreases prev.len() - i,
    {
        if prev[i].partition == partition && text_eq(&prev[i].topic, topic) {
            assert(rows[i as int].topic == topic@);
            return true;
        }
        i = i + 1;
    }
    false
}

/// The partitions whose manifests have to be read: those of the catalogue
/// that the previous assignment does not list.
pub fn floor_candidates(prev: &Vec<assignment::PartitionAssignment>, topics: &[TopicSpec]) -> (out: Vec<(String, i32)>)
    ensures
        partition_pairs(out@) == unassigned(assignment::partition_rows(prev@), balancer::topic_rows(topics@)),
{
    let ghost p = assignment::partition_rows(prev@);
    let ghost rows = balancer::topic_rows(topics@);
    let mut out: Vec<(String, i32)> = Vec::new();
    let mut i: usize = 0;
    assert(partition_pairs(out@) =~= unassigned(p, rows.take(0)));
    while i < topics.len()
        invariant
            i <= topics@.len(),
            p == assignment::partition_rows(prev@),
            rows == balancer::topic_rows(topics@),
            partition_pairs(out@) == unassigned(p, rows.take(i as int)),
        decreases topics.len() - i,
    {
        let t = &topics[i];
        let ghost before = partition_pairs(out@);
        let mut n: i32 = 0;
        proof {
            assert(rows.take(i + 1).drop_last() =~= rows.take(i as int));
            assert(rows.take(i + 1).last() == t@);
            assert(before + unassigned_from(p, t.name@, 0, t.partition_count as int) =~= partition_pairs(out@) + unassigned_from(
                p,
                t.name@,
                n as int,
                t.partition_count as int,
            ));
        }
        while n < t.partition_count
            invariant
                0 <= n,
                n <= t.partition_count || t.partition_count < 0,
                p == assignment::partition_rows(prev@),
                before + unassigned_from(p, t.name@, 0, t.partition_count as int) == partition_pairs(out@) + unassigned_from(
                    p,
                    t.name@,
                    n as int,
                    t.partition_count as int,
                ),
            decreases t.partition_count - n,
        {
            let ghost sofar = partition_pairs(out@);
            let ghost rest = unassigned_from(p, t.name@, n + 1, t.partition_count as int);
            if !is_assigned(prev, &t.name, n) {
                out.push((t.name.clone(), n));
                proof {
                    assert(partition_pairs(out@) =~= sofar.push((t.name@, n)));
                    assert(sofar + (seq![(t.name@, n)] + rest) =~= partition_pairs(out@) + rest);
                }
            }
            n = n + 1;
        }
        assert(partition_pairs(out@) + Seq::<(Seq<char>, i32)>::empty() =~= partition_pairs(out@));
        i = i + 1;
    }
    assert(rows.take(i as int) =~= rows);
    out
}

/// Whether an epoch out of a manifest sets a floor.
pub open spec fn sets_floor(epoch: i64) -> bool {
    0 < epoch <= u32::MAX
}

/// The floors that manifests set: the last reading of each partition that
/// sets one.
pub open spec fn floors(read: Seq<(Seq<char>, i32, i64)>) -> Map<Seq<char>, u32>
    decreases read.len(),
{
    if read.len() == 0 {
        Map::empty()
    } else {
        let sofar = floors(read.drop_last());
        let last = read.last();
        if sets_floor(last.2) {
            sofar.insert(text::slash_key(last.0, last.1 as int), last.2 as u32)
        } else {
            sofar
        }
    }
}

/// The floors that manifests set. A manifest that is missing or unreadable
/// reads as epoch 0 and sets none.
pub fn compute_epoch_floor(read: &Vec<(String, i32, i64)>) -> (floor: TextMap<u32>)
    ensures
        floor@ == floors(read@.map_values(|r: (String, i32, i64)| (r.0@, r.1, r.2))),
{
    let ghost all = read@.map_values(|r: (String, i32, i64)| (r.0@, r.1, r.2));
    let mut floor: TextMap<u32> = TextMap::new();
    let mut i: usize = 0;
    assert(floor@ =~= floors(all.take(0)));
    while i < read.len()
        invariant
            i <= read@.len(),
            all == read@.map_values(|r: (String, i32, i64)| (r.0@, r.1, r.2)),
            floor@ == floors(all.take(i as int)),
        decreases read.len() - i,
    {
        let epoch: i64 = read[i].2;
        proof {
            assert(all.take(i + 1).drop_last() =~= all.take(i as int));
            assert(all.take(i + 1).last() == (read@[i as int].0@, read@[i as int].1, read@[i as int].2));
        }
        if epoch > 0 && epoch <= u32::MAX as i64 {
            floor.insert(partition_key(&read[i].0, read[i].1), epoch as u32);
        }
        i = i + 1;
    }
    assert(all.take(i as int) =~= all);
    floor
}

// The recompute.

/// The controller's own state.
#[derive(Debug)]
pub struct AssignmentLoop {
    controller_id: String,
    controller_epoch: i64,
    current: Option<Assignment>,
    written: Option<Assignment>,
    version_counter: i64,
}

#[verifier::ext_equal]
pub struct LoopModel {
    pub controller: Seq<char>,
    pub epoch: i64,
    /// The assignment that was computed last, or taken over from disk.
    pub current: Option<AssignmentModel>,
    /// The assignment that is on disk, as far as is known.
    pub written: Option<AssignmentModel>,
    pub version: i64,
}

pub open spec fn assignment_view(a: Option<Assignment>) -> Option<AssignmentModel> {
    match a {
        Some(a) => Some(a@),
        None => None,
    }
}

impl View for AssignmentLoop {
    type V = LoopModel;

    closed spec fn view(&self) -> LoopModel {
        LoopModel {
            controller: self.controller_id@,
            epoch: self.controller_epoch,
            current: assignment_view(self.current),
            written: assignment_view(self.written),
            version: self.version_counter,
        }
    }
}

#[verifier::ext_equal]
pub struct InputsModel {
    pub alive: Seq<Seq<char>>,
    pub registered: Seq<Seq<char>>,
    pub draining: Seq<Seq<char>>,
    pub topics: Seq<TopicRow>,
    pub groups: Seq<Seq<char>>,
    pub epoch_floor: Map<Seq<char>, u32>,
    pub now: Seq<char>,
}

impl View for RecomputeInputs {
    type V = InputsModel;

    open spec fn view(&self) -> InputsModel {
        InputsModel {
            alive: order::texts(self.alive@),
            registered: order::texts(self.registered@),
            draining: order::texts(self.draining@),
            topics: balancer::topic_rows(self.topics@),
            groups: group_balancer::group_names(self.groups@),
            epoch_floor: self.epoch_floor@,
            now: self.now@,
        }
    }
}

pub open spec fn partitions_of(a: Option<AssignmentModel>) -> Seq<assignment::PartitionRow> {
    match a {
        Some(a) => a.partitions,
        None => Seq::empty(),
    }
}

pub open spec fn groups_of(a: Option<AssignmentModel>) -> Seq<assignment::GroupRow> {
    match a {
        Some(a) => a.consumer_groups,
        None => Seq::empty(),
    }
}

/// The rows of the brokers that follow on a state and inputs.
pub open spec fn broker_rows_next(s: LoopModel, x: InputsModel) -> Seq<BrokerRow> {
    broker_list(
        x.registered,
        x.alive,
        x.draining,
        x.now,
        match s.current {
            Some(a) => a.brokers,
            None => Seq::empty(),
        },
    )
}

/// The assignment that follows on a state and inputs.
pub open spec fn recomputed(s: LoopModel, x: InputsModel) -> AssignmentModel {
    AssignmentModel {
        controller_epoch: s.epoch,
        assignment_version: (s.version + 1) as i64,
        generated_at: x.now,
        controller: s.controller,
        brokers: broker_rows_next(s, x),
        partitions: balancer::balanced(partitions_of(s.current), x.alive, x.topics, x.epoch_floor),
        consumer_groups: group_balancer::placed(groups_of(s.current), broker_rows_next(s, x), x.groups),
    }
}

/// Whether the version, and every epoch that has to rise, can.
pub open spec fn has_room(s: LoopModel, x: InputsModel) -> bool {
    &&& s.version < i64::MAX
    &&& balancer::epochs_fit(partitions_of(s.current), x.alive, x.topics, x.epoch_floor)
    &&& group_balancer::epochs_fit(groups_of(s.current), broker_rows_next(s, x), x.groups)
}

/// The state of a new reign: the assignment on disk is taken over, and its
/// version carried on.
pub open spec fn bootstrapped(s: LoopModel, epoch: i64, on_disk: Option<AssignmentModel>) -> LoopModel {
    LoopModel {
        epoch,
        version: match on_disk {
            Some(a) => if a.assignment_version > s.version {
                a.assignment_version
            } else {
                s.version
            },
            None => s.version,
        },
        current: match on_disk {
            Some(a) => Some(a),
            None => s.current,
        },
        written: match on_disk {
            Some(a) => Some(a),
            None => s.written,
        },
        ..s
    }
}

/// The state once the assignment that follows has been computed. It is not
/// written yet.
pub open spec fn updated(s: LoopModel, x: InputsModel) -> LoopModel {
    LoopModel { current: Some(recomputed(s, x)), version: (s.version + 1) as i64, ..s }
}

/// The state once the write of the last assignment has gone well or not.
pub open spec fn settled(s: LoopModel, ok: bool) -> LoopModel {
    LoopModel {
        written: if ok {
            s.current
        } else {
            s.written
        },
        ..s
    }
}

impl AssignmentLoop {
    pub fn new(controller_id: String) -> (l: Self)
        ensures
            l@ == (LoopModel { controller: controller_id@, epoch: 0, current: None, written: None, version: 0 }),
    {
        AssignmentLoop { controller_id, controller_epoch: 0, current: None, written: None, version_counter: 0 }
    }

    /// Begins a reign with the epoch of its lease, going on from what is on
    /// disk.
    pub fn start(&mut self, epoch: i64, on_disk: Option<Assignment>)
        ensures
            final(self)@ == bootstrapped(old(self)@, epoch, assignment_view(on_disk)),
    {
        self.controller_epoch = epoch;
        match on_disk {
            Some(a) => {
                if a.assignment_version > self.version_counter {
                    self.version_counter = a.assignment_version;
                }
                self.written = Some(a.clone());
                self.current = Some(a);
            },
            None => {},
        }
    }

    /// The assignment that was written last; none before the first write.
    pub fn snapshot(&self) -> (r: Option<Assignment>)
        ensures
            assignment_view(r) == self@.written,
    {
        match &self.written {
            Some(a) => Some(a.clone()),
            None => None,
        }
    }

    /// The assignment that was computed last, or taken over from disk: what is
    /// to be written, and what the next one starts from.
    pub fn computed(&self) -> (r: Option<Assignment>)
        ensures
            assignment_view(r) == self@.current,
    {
        match &self.current {
            Some(a) => Some(a.clone()),
            None => None,
        }
    }

    /// Takes down how the write of the last assignment went.
    pub fn write_finished(&mut self, ok: bool)
        ensures
            final(self)@ == settled(old(self)@, ok),
    {
        if ok {
            self.written = match &self.current {
                Some(a) => Some(a.clone()),
                None => None,
            };
        }
    }

    /// Recomputes the assignment, which is then to be written. Returns its
    /// version.
    pub fn update_assignment(&mut self, inputs: &RecomputeInputs) -> (version: i64)
        requires
            has_room(old(self)@, inputs@),
        ensures
            version == old(self)@.version + 1,
            final(self)@ == updated(old(self)@, inputs@),
    {
        self.checked_update_assignment(inputs).unwrap()
    }

    /// Recomputes the assignment, which is then to be written, and returns its
    /// version; none, and nothing changes, where the versions or the epochs ran
    /// out.
    pub fn checked_update_assignment(&mut self, inputs: &RecomputeInputs) -> (r: Option<i64>)
        ensures
            r is Some <==> has_room(old(self)@, inputs@),
            match r {
                Some(version) => version == old(self)@.version + 1 && final(self)@ == updated(old(self)@, inputs@),
                None => final(self)@ == old(self)@,
            },
    {
        let ghost s = self@;
        if self.version_counter == i64::MAX {
            return None;
        }
        let version: i64 = self.version_counter + 1;
        let (brokers, partitions, consumer_groups) = match &self.current {
            Some(a) => {
                let rows = build_broker_entries(
                    &inputs.registered,
                    &inputs.alive,
                    &inputs.draining,
                    &inputs.now,
                    Some(a.brokers.as_slice()),
                );
                let parts = checked_balance(Some(a.partitions.as_slice()), &inputs.alive, &inputs.topics, &inputs.epoch_floor);
                let groups = checked_balance_groups(Some(a.consumer_groups.as_slice()), &rows, &inputs.groups);
                (rows, parts, groups)
            },
            None => {
                let rows = build_broker_entries(
                    &inputs.registered,
                    &inputs.alive,
                    &inputs.draining,
                    &inputs.now,
                    None,
                );
                let parts = checked_balance(None, &inputs.alive, &inputs.topics, &inputs.epoch_floor);
                let groups = checked_balance_groups(None, &rows, &inputs.groups);
                (rows, parts, groups)
            },
        };
        assert(assignment::broker_rows(brokers@) == broker_rows_next(s, inputs@));
        match (partitions, consumer_groups) {
            (Some(partitions), Some(consumer_groups)) => {
                let a = Assignment {
                    controller_epoch: self.controller_epoch,
                    assignment_version: version,
                    generated_at: inputs.now.clone(),
                    controller: self.controller_id.clone(),
                    brokers,
                    partitions,
                    consumer_groups,
                };
                assert(a@ =~= recomputed(s, inputs@));
                self.version_counter = version;
                self.current = Some(a);
                Some(version)
            },
            _ => None,
        }
    }
}

// Laws.

/// Every registered broker and every alive one has a row.
pub proof fn law_no_broker_is_dropped(
    registered: Seq<Seq<char>>,
    alive: Seq<Seq<char>>,
    draining: Seq<Seq<char>>,
    now: Seq<char>,
    prev: Seq<BrokerRow>,
    id: Seq<char>,
)
    ensures
        ({
            let rows = broker_list(registered, alive, draining, now, prev);
            &&& assignment::broker_ids(rows).contains(id) <==> registered.contains(id) || alive.contains(id)
            &&& forall|i: int| 0 <= i < rows.len() ==> #[trigger] rows[i] == broker_row(registered, alive, draining, now, prev, rows[i].id)
        }),
{
    let names = listed(registered, alive);
    let rows = broker_list(registered, alive, draining, now, prev);
    balancer::lemma_ordered(names);
    lemma_listed(registered, alive, id);
    let sorted = balancer::ordered(names);
    assert(assignment::broker_ids(rows) =~= sorted);
    assert(sorted.contains(id) <==> names.contains(id));
}

proof fn lemma_listed(registered: Seq<Seq<char>>, alive: Seq<Seq<char>>, id: Seq<char>)
    ensures
        listed(registered, alive).contains(id) <==> registered.contains(id) || alive.contains(id),
    decreases alive.len(),
{
    if alive.len() > 0 {
        let d = alive.drop_last();
        let x = alive.last();
        lemma_listed(registered, d, id);
        let sofar = listed(registered, d);
        let all = listed(registered, alive);
        if alive.contains(id) {
            let i = choose|i: int| 0 <= i < alive.len() && alive[i] == id;
            if i < d.len() {
                assert(d[i] == id);
            }
        }
        if d.contains(id) {
            let i = choose|i: int| 0 <= i < d.len() && d[i] == id;
            assert(alive[i] == id);
        }
        if sofar.contains(id) && !sofar.contains(x) {
            let i = choose|i: int| 0 <= i < sofar.len() && sofar[i] == id;
            assert(all[i] == id);
        }
        if !sofar.contains(x) {
            assert(all[all.len() - 1] == x);
        }
        assert(alive[alive.len() - 1] == x);
    }
}

/// Losing brokers leaves the list of ids, and with it the divisor of the
/// coordinator hash, as it was.
pub proof fn law_broker_loss_keeps_the_divisor(
    registered: Seq<Seq<char>>,
    before: Seq<Seq<char>>,
    after: Seq<Seq<char>>,
    draining: Seq<Seq<char>>,
    now: Seq<char>,
    later: Seq<char>,
    prev: Seq<BrokerRow>,
    last: Seq<BrokerRow>,
)
    requires
        forall|i: int| 0 <= i < before.len() ==> registered.contains(#[trigger] before[i]),
        forall|i: int| 0 <= i < after.len() ==> registered.contains(#[trigger] after[i]),
    ensures
        assignment::broker_ids(broker_list(registered, before, draining, now, prev)) == assignment::broker_ids(
            broker_list(registered, after, draining, later, last),
        ),
{
    lemma_all_registered(registered, before);
    lemma_all_registered(registered, after);
    let ids = balancer::ordered(registered);
    assert(assignment::broker_ids(broker_list(registered, before, draining, now, prev)) =~= ids);
    assert(assignment::broker_ids(broker_list(registered, after, draining, later, last)) =~= ids);
}

proof fn lemma_all_registered(registered: Seq<Seq<char>>, alive: Seq<Seq<char>>)
    requires
        forall|i: int| 0 <= i < alive.len() ==> registered.contains(#[trigger] alive[i]),
    ensures
        listed(registered, alive) == registered,
    decreases alive.len(),
{
    if alive.len() > 0 {
        let d = alive.drop_last();
        assert forall|i: int| 0 <= i < d.len() implies registered.contains(#[trigger] d[i]) by {
            assert(registered.contains(alive[i]));
        }
        lemma_all_registered(registered, d);
        assert(registered.contains(alive[alive.len() - 1]));
    }
}

/// Versions rise with every recompute and across reigns: each assignment has a
/// later version than the one on disk before it.
pub proof fn law_versions_rise(s: LoopModel, epoch: i64, on_disk: AssignmentModel, x: InputsModel)
    requires
        bootstrapped(s, epoch, Some(on_disk)).version < i64::MAX,
    ensures
        recomputed(bootstrapped(s, epoch, Some(on_disk)), x).assignment_version > on_disk.assignment_version,
        recomputed(bootstrapped(s, epoch, Some(on_disk)), x).assignment_version > s.version,
        recomputed(bootstrapped(s, epoch, Some(on_disk)), x).controller_epoch == epoch,
{
}

/// The snapshot is the assignment that was written last: a recompute alone does
/// not show, a write that failed leaves the snapshot as it was, and one that
/// went well makes the recomputed assignment the snapshot.
pub proof fn law_snapshot_is_what_was_written(s: LoopModel, x: InputsModel)
    ensures
        updated(s, x).written == s.written,
        settled(updated(s, x), false).written == s.written,
        settled(updated(s, x), true).written == Some(recomputed(s, x)),
        forall|ok: bool| (#[trigger] settled(updated(s, x), ok)).current == Some(recomputed(s, x)),
{
}

/// A partition that comes back is led under an epoch that its manifest does
/// not exceed.
pub proof fn law_readded_partition_clears_its_floor(s: LoopModel, x: InputsModel, i: int)
    requires
        0 <= i < recomputed(s, x).partitions.len(),
    ensures
        ({
            let row = recomputed(s, x).partitions[i];
            row.epoch >= balancer::floor_of(x.epoch_floor, row.topic, row.partition)
        }),
{
    crate::balancer_laws::law_floors_are_cleared(partitions_of(s.current), x.alive, x.topics, x.epoch_floor, i);
}

} // verus!
