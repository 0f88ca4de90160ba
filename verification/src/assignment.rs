//! Rows of the cluster assignment.

use vstd::prelude::*;
use crate::keyed::TextMap;
use crate::order;
use crate::text::text_eq;

verus! {

/// Name of the file that holds the assignment.
pub const FILE_NAME: &'static str = "assignment.json";

#[derive(Debug, Clone, Copy, PartialEq, Eq, Structural)]
pub enum BrokerHealth {
    Alive,
    Draining,
    Dead,
}

#[derive(Debug, Clone, Copy, PartialEq, Eq, Structural)]
pub enum PartitionRole {
    Leader,
}

/// One registered broker.
#[derive(Debug, PartialEq, Eq)]
pub struct BrokerAssignment {
    pub id: String,
    pub health: BrokerHealth,
    /// When the broker was last heard of, as text.
    pub last_seen: String,
}

#[verifier::ext_equal]
pub struct BrokerRow {
    pub id: Seq<char>,
    pub health: BrokerHealth,
    pub last_seen: Seq<char>,
}

impl View for BrokerAssignment {
    type V = BrokerRow;

    open spec fn view(&self) -> BrokerRow {
        BrokerRow { id: self.id@, health: self.health, last_seen: self.last_seen@ }
    }
}

impl Clone for BrokerAssignment {
    fn clone(&self) -> (r: Self)
        ensures
            r == *self,
    {
        BrokerAssignment { id: self.id.clone(), health: self.health, last_seen: self.last_seen.clone() }
    }
}

/// The leader of one partition.
#[derive(Debug, PartialEq, Eq)]
pub struct PartitionAssignment {
    pub topic: String,
    pub partition: i32,
    pub broker: String,
    pub epoch: u32,
    pub role: PartitionRole,
}

#[verifier::ext_equal]
pub struct PartitionRow {
    pub topic: Seq<char>,
    pub partition: i32,
    pub broker: Seq<char>,
    pub epoch: u32,
    pub role: PartitionRole,
}

impl View for PartitionAssignment {
    type V = PartitionRow;

    open spec fn view(&self) -> PartitionRow {
        PartitionRow {
            topic: self.topic@,
            partition: self.partition,
            broker: self.broker@,
            epoch: self.epoch,
            role: self.role,
        }
    }
}

impl Clone for PartitionAssignment {
    fn clone(&self) -> (r: Self)
        ensures
            r == *self,
    {
        PartitionAssignment {
            topic: self.topic.clone(),
            partition: self.partition,
            broker: self.broker.clone(),
            epoch: self.epoch,
            role: self.role,
        }
    }
}

/// The coordinator of one consumer group.
#[derive(Debug, PartialEq, Eq)]
pub struct ConsumerGroupAssignment {
    pub group_id: String,
    pub broker: String,
    pub epoch: u32,
}

#[verifier::ext_equal]
pub struct GroupRow {
    pub group_id: Seq<char>,
    pub broker: Seq<char>,
    pub epoch: u32,
}

impl View for ConsumerGroupAssignment {
    type V = GroupRow;

    open spec fn view(&self) -> GroupRow {
        GroupRow { group_id: self.group_id@, broker: self.broker@, epoch: self.epoch }
    }
}

impl Clone for ConsumerGroupAssignment {
    fn clone(&self) -> (r: Self)
        ensures
            r == *self,
    {
        ConsumerGroupAssignment {
            group_id: self.group_id.clone(),
            broker: self.broker.clone(),
            epoch: self.epoch,
        }
    }
}

pub open spec fn broker_rows(s: Seq<BrokerAssignment>) -> Seq<BrokerRow> {
    s.map_values(|b: BrokerAssignment| b@)
}

pub open spec fn partition_rows(s: Seq<PartitionAssignment>) -> Seq<PartitionRow> {
    s.map_values(|p: PartitionAssignment| p@)
}

pub open spec fn group_rows(s: Seq<ConsumerGroupAssignment>) -> Seq<GroupRow> {
    s.map_values(|g: ConsumerGroupAssignment| g@)
}

/// Who leads and coordinates what, as the controller last decided.
#[derive(Debug, PartialEq, Eq)]
pub struct Assignment {
    pub controller_epoch: i64,
    pub assignment_version: i64,
    /// When it was decided, as text.
    pub generated_at: String,
    pub controller: String,
    pub brokers: Vec<BrokerAssignment>,
    pub partitions: Vec<PartitionAssignment>,
    pub consumer_groups: Vec<ConsumerGroupAssignment>,
}

#[verifier::ext_equal]
pub struct AssignmentModel {
    pub controller_epoch: i64,
    pub assignment_version: i64,
    pub generated_at: Seq<char>,
    pub controller: Seq<char>,
    pub brokers: Seq<BrokerRow>,
    pub partitions: Seq<PartitionRow>,
    pub consumer_groups: Seq<GroupRow>,
}

impl View for Assignment {
    type V = AssignmentModel;

    open spec fn view(&self) -> AssignmentModel {
        AssignmentModel {
            controller_epoch: self.controller_epoch,
            assignment_version: self.assignment_version,
            generated_at: self.generated_at@,
            controller: self.controller@,
            brokers: broker_rows(self.brokers@),
            partitions: partition_rows(self.partitions@),
            consumer_groups: group_rows(self.consumer_groups@),
        }
    }
}

impl Clone for Assignment {
    fn clone(&self) -> (r: Self)
        ensures
            r@ == self@,
    {
        let mut brokers: Vec<BrokerAssignment> = Vec::new();
        let mut i: usize = 0;
        while i < self.brokers.len()
            invariant
                i <= self.brokers@.len(),
                brokers@ == self.brokers@.take(i as int),
            decreases self.brokers.len() - i,
        {
            brokers.push(self.brokers[i].clone());
            i = i + 1;
            assert(brokers@ =~= self.brokers@.take(i as int));
        }
        assert(brokers@ =~= self.brokers@);
        let mut partitions: Vec<PartitionAssignment> = Vec::new();
        let mut j: usize = 0;
        while j < self.partitions.len()
            invariant
                j <= self.partitions@.len(),
                partitions@ == self.partitions@.take(j as int),
            decreases self.partitions.len() - j,
        {
            partitions.push(self.partitions[j].clone());
            j = j + 1;
            assert(partitions@ =~= self.partitions@.take(j as int));
        }
        assert(partitions@ =~= self.partitions@);
        let mut consumer_groups: Vec<ConsumerGroupAssignment> = Vec::new();
        let mut k: usize = 0;
        while k < self.consumer_groups.len()
            invariant
                k <= self.consumer_groups@.len(),
                consumer_groups@ == self.consumer_groups@.take(k as int),
            decreases self.consumer_groups.len() - k,
        {
            consumer_groups.push(self.consumer_groups[k].clone());
            k = k + 1;
            assert(consumer_groups@ =~= self.consumer_groups@.take(k as int));
        }
        assert(consumer_groups@ =~= self.consumer_groups@);
        Assignment {
            controller_epoch: self.controller_epoch,
            assignment_version: self.assignment_version,
            generated_at: self.generated_at.clone(),
            controller: self.controller.clone(),
            brokers,
            partitions,
            consumer_groups,
        }
    }
}

/// The ids of registered brokers, alive or not.
pub open spec fn broker_ids(rows: Seq<BrokerRow>) -> Seq<Seq<char>> {
    rows.map_values(|b: BrokerRow| b.id)
}

/// Whether the last row with an id is alive.
pub open spec fn alive_in(rows: Seq<BrokerRow>, id: Seq<char>) -> bool
    decreases rows.len(),
{
    if rows.len() == 0 {
        false
    } else if rows.last().id == id {
        rows.last().health == BrokerHealth::Alive
    } else {
        alive_in(rows.drop_last(), id)
    }
}

/// Whether the last row with an id is alive.
pub fn is_alive(rows: &[BrokerAssignment], id: &str) -> (r: bool)
    ensures
        r == alive_in(broker_rows(rows@), id@),
{
    let ghost all = broker_rows(rows@);
    let mut n: usize = rows.len();
    assert(all.take(n as int) =~= all);
    while n > 0
        invariant
            n <= rows@.len(),
            all == broker_rows(rows@),
            alive_in(all, id@) == alive_in(all.take(n as int), id@),
        decreases n,
    {
        assert(all.take(n as int).drop_last() =~= all.take(n - 1));
        if text_eq(&rows[n - 1].id, id) {
            return rows[n - 1].health == BrokerHealth::Alive;
        }
        n = n - 1;
    }
    false
}

impl Assignment {
    /// The ids of the registered brokers, and of each whether it is alive.
    pub fn broker_sets(&self) -> (r: (Vec<String>, TextMap<bool>))
        ensures
            order::texts(r.0@) == broker_ids(self@.brokers),
            r.1@.dom() == broker_ids(self@.brokers).to_set(),
            forall|id: Seq<char>| r.1@.contains_key(id) ==> #[trigger] r.1@[id] == alive_in(self@.brokers, id),
    {
        let ghost rows = self@.brokers;
        let ghost ids = broker_ids(rows);
        let mut names: Vec<String> = Vec::new();
        let mut alive: TextMap<bool> = TextMap::new();
        let mut i: usize = 0;
        proof {
            assert(order::texts(names@) =~= ids.take(0));
            assert(alive@.dom() =~= ids.take(0).to_set());
        }
        while i < self.brokers.len()
            invariant
                i <= self.brokers@.len(),
                rows == broker_rows(self.brokers@),
                ids == broker_ids(rows),
                order::texts(names@) == ids.take(i as int),
                alive@.dom() == ids.take(i as int).to_set(),
                forall|id: Seq<char>| alive@.contains_key(id) ==> #[trigger] alive@[id] == alive_in(rows.take(i as int), id),
            decreases self.brokers.len() - i,
        {
            let b = &self.brokers[i];
            let ghost before = order::texts(names@);
            names.push(b.id.clone());
            alive.insert(b.id.clone(), b.health == BrokerHealth::Alive);
            proof {
                assert(order::texts(names@) =~= before.push(b.id@));
                assert(ids.take(i + 1) =~= ids.take(i as int).push(ids[i as int]));
                ids.take(i as int).lemma_push_to_set_commute(ids[i as int]);
                assert(rows.take(i + 1).drop_last() =~= rows.take(i as int));
                assert(rows.take(i + 1).last() == b@);
                assert(alive@.dom() =~= ids.take(i + 1).to_set());
            }
            i = i + 1;
        }
        proof {
            assert(ids.take(i as int) =~= ids);
            assert(rows.take(i as int) =~= rows);
        }
        (names, alive)
    }
}

} // verus!
