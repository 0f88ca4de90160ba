//! What a broker takes over and gives up when the assignment changes.

use vstd::prelude::*;
use crate::assignment;
use crate::assignment::{Assignment, PartitionRow};
use crate::balancer::partition_key;
use crate::keyed;
use crate::keyed::TextMap;
use crate::order;
use crate::text;
use crate::text::text_eq;

verus! {

/// A partition that a broker leads.
#[derive(Debug, PartialEq, Eq)]
pub struct OwnedRef {
    pub topic: String,
    pub partition: i32,
    pub epoch: u32,
}

impl Clone for OwnedRef {
    fn clone(&self) -> (r: Self)
        ensures
            r == *self,
    {
        OwnedRef { topic: self.topic.clone(), partition: self.partition, epoch: self.epoch }
    }
}

#[verifier::ext_equal]
pub struct OwnedRow {
    pub topic: Seq<char>,
    pub partition: i32,
    pub epoch: u32,
}

impl View for OwnedRef {
    type V = OwnedRow;

    open spec fn view(&self) -> OwnedRow {
        OwnedRow { topic: self.topic@, partition: self.partition, epoch: self.epoch }
    }
}

pub open spec fn owned_rows(s: Seq<OwnedRef>) -> Seq<OwnedRow> {
    s.map_values(|o: OwnedRef| o@)
}

/// The partitions that a broker leads, by key.
pub open spec fn led_by(parts: Seq<PartitionRow>, broker: Seq<char>) -> Map<Seq<char>, OwnedRow>
    decreases parts.len(),
{
    if parts.len() == 0 {
        Map::empty()
    } else {
        let sofar = led_by(parts.drop_last(), broker);
        let p = parts.last();
        if p.broker == broker {
            sofar.insert(
                text::slash_key(p.topic, p.partition as int),
                OwnedRow { topic: p.topic, partition: p.partition, epoch: p.epoch },
            )
        } else {
            sofar
        }
    }
}

/// The partitions to take over: those that are new or have another epoch.
pub open spec fn to_take(before: Map<Seq<char>, OwnedRow>, after: Map<Seq<char>, OwnedRow>) -> Set<Seq<char>> {
    after.dom().filter(|k: Seq<char>| !(before.contains_key(k) && before[k].epoch == after[k].epoch))
}

/// The partitions to give up: those that are led no more.
pub open spec fn to_give_up(before: Map<Seq<char>, OwnedRow>, after: Map<Seq<char>, OwnedRow>) -> Set<Seq<char>> {
    before.dom().filter(|k: Seq<char>| !after.contains_key(k))
}

/// Whether a list holds the partitions under some keys, by key.
pub open spec fn lists(out: Seq<OwnedRow>, from: Map<Seq<char>, OwnedRow>, keys: Set<Seq<char>>) -> bool {
    exists|ks: Seq<Seq<char>>|
        #![trigger order::increasing(ks)]
        order::increasing(ks) && ks.to_set() == keys && out == ks.map_values(|k: Seq<char>| from[k])
}

/// A partition that the storage engine has open; it may not know its epoch.
#[derive(Debug)]
pub struct OpenPartition {
    pub topic: String,
    pub partition: i32,
    pub epoch: Option<i64>,
}

/// Whether a partition is open at an epoch that the assignment's does not
/// exceed.
pub open spec fn has_converged(open: Seq<OpenPartition>, p: OwnedRow) -> bool {
    exists|i: int|
        0 <= i < open.len() && (#[trigger] open[i]).topic@ == p.topic && open[i].partition == p.partition && (open[i].epoch matches
            Some(e) ==> e >= p.epoch)
}

/// The partitions whose takeover is to be tried again.
pub open spec fn to_redrive(owned: Map<Seq<char>, OwnedRow>, open: Seq<OpenPartition>) -> Set<Seq<char>> {
    owned.dom().filter(|k: Seq<char>| !has_converged(open, owned[k]))
}

spec fn owned_view() -> spec_fn(OwnedRef) -> OwnedRow {
    |o: OwnedRef| o@
}

/// The change of an assignment as one broker sees it.
#[derive(Debug)]
pub struct TakeoverDriver {
    broker_id: String,
}

impl TakeoverDriver {
    pub closed spec fn broker(&self) -> Seq<char> {
        self.broker_id@
    }

    pub fn new(broker_id: String) -> (d: Self)
        ensures
            d.broker() == broker_id@,
    {
        TakeoverDriver { broker_id }
    }

    fn owned_by(&self, a: Option<&Assignment>) -> (out: TextMap<OwnedRef>)
        ensures
            out@.map_values(owned_view()) == led_by(
                match a {
                    Some(x) => x@.partitions,
                    None => Seq::empty(),
                },
                self.broker(),
            ),
    {
        let mut out: TextMap<OwnedRef> = TextMap::new();
        assert(out@.map_values(owned_view()) =~= Map::empty());
        match a {
            None => out,
            Some(x) => {
                let ghost rows = x@.partitions;
                let mut i: usize = 0;
                assert(out@.map_values(owned_view()) =~= led_by(rows.take(0), self.broker()));
                while i < x.partitions.len()
                    invariant
                        i <= x.partitions@.len(),
                        rows == assignment::partition_rows(x.partitions@),
                        out@.map_values(owned_view()) == led_by(rows.take(i as int), self.broker()),
                    decreases x.partitions.len() - i,
                {
                    let p = &x.partitions[i];
                    proof {
                        assert(rows.take(i + 1).drop_last() =~= rows.take(i as int));
                        assert(rows.take(i + 1).last() == p@);
                    }
                    if text_eq(&p.broker, &self.broker_id) {
                        let key = partition_key(&p.topic, p.partition);
                        let o = OwnedRef { topic: p.topic.clone(), partition: p.partition, epoch: p.epoch };
                        proof {
                            keyed::lemma_mapped(out@, owned_view(), key@, o);
                        }
                        out.insert(key, o);
                    }
                    i = i + 1;
                }
                assert(rows.take(i as int) =~= rows);
                out
            },
        }
    }

    /// What to take over and what to give up when `next` replaces `prev`.
    pub fn on_change(&self, prev: Option<&Assignment>, next: &Assignment) -> (r: (Vec<OwnedRef>, Vec<OwnedRef>))
        ensures
            ({
                let before = led_by(
                    match prev {
                        Some(x) => x@.partitions,
                        None => Seq::empty(),
                    },
                    self.broker(),
                );
                let after = led_by(next@.partitions, self.broker());
                &&& lists(owned_rows(r.0@), after, to_take(before, after))
                &&& lists(owned_rows(r.1@), before, to_give_up(before, after))
            }),
    {
        let prev_owned = self.owned_by(prev);
        let next_owned = self.owned_by(Some(next));
        let ghost before = prev_owned@.map_values(owned_view());
        let ghost after = next_owned@.map_values(owned_view());
        proof {
            keyed::lemma_mapped(prev_owned@, owned_view(), Seq::empty(), arbitrary());
            keyed::lemma_mapped(next_owned@, owned_view(), Seq::empty(), arbitrary());
        }
        let next_keys = next_owned.sorted_keys();
        let ghost nks = order::texts(next_keys@);
        let ghost takes = to_take(before, after);
        let mut take: Vec<OwnedRef> = Vec::new();
        let ghost mut taken: Seq<Seq<char>> = Seq::empty();
        let mut i: usize = 0;
        proof {
            assert(taken.to_set() =~= nks.take(0).to_set().intersect(takes));
            assert(owned_rows(take@) =~= taken.map_values(|k: Seq<char>| after[k]));
        }
        while i < next_keys.len()
            invariant
                i <= next_keys@.len(),
                nks == order::texts(next_keys@),
                nks.to_set() == next_owned@.dom(),
                order::increasing(nks),
                before == prev_owned@.map_values(owned_view()),
                after == next_owned@.map_values(owned_view()),
                before.dom() == prev_owned@.dom(),
                after.dom() == next_owned@.dom(),
                takes == to_take(before, after),
                order::increasing(taken),
                taken.to_set() == nks.take(i as int).to_set().intersect(takes),
                owned_rows(take@) == taken.map_values(|k: Seq<char>| after[k]),
            decreases next_keys.len() - i,
        {
            let k = &next_keys[i];
            let ghost key = nks[i as int];
            let ghost sofar = take@;
            proof {
                assert(nks.to_set().contains(key));
                keyed::lemma_mapped(prev_owned@, owned_view(), key, arbitrary());
                keyed::lemma_mapped(next_owned@, owned_view(), key, arbitrary());
                assert(nks.take(i + 1) =~= nks.take(i as int).push(key));
                nks.take(i as int).lemma_push_to_set_commute(key);
            }
            match next_owned.get(k) {
                Some(ne) => {
                    let same: bool = match prev_owned.get(k) {
                        Some(pe) => pe.epoch == ne.epoch,
                        None => false,
                    };
                    if !same {
                        take.push(ne.clone());
                        proof {
                            assert(owned_rows(take@) =~= owned_rows(sofar).push(after[key]));
                            assert(takes.contains(key));
                            lemma_extends(nks, taken, takes, i as int);
                            taken.lemma_push_to_set_commute(key);
                            assert(owned_rows(take@) =~= taken.push(key).map_values(|x: Seq<char>| after[x]));
                            taken = taken.push(key);
                        }
                    } else {
                        assert(!takes.contains(key));
                    }
                },
                None => {},
            }
            assert(taken.to_set() =~= nks.take(i + 1).to_set().intersect(takes));
            i = i + 1;
        }
        proof {
            assert(nks.take(i as int) =~= nks);
            assert(taken.to_set() =~= takes);
            assert(order::increasing(taken));
        }
        let prev_keys = prev_owned.sorted_keys();
        let ghost pks = order::texts(prev_keys@);
        let ghost drops = to_give_up(before, after);
        let mut give: Vec<OwnedRef> = Vec::new();
        let ghost mut given: Seq<Seq<char>> = Seq::empty();
        let mut j: usize = 0;
        proof {
            assert(given.to_set() =~= pks.take(0).to_set().intersect(drops));
            assert(owned_rows(give@) =~= given.map_values(|k: Seq<char>| before[k]));
        }
        while j < prev_keys.len()
            invariant
                j <= prev_keys@.len(),
                pks == order::texts(prev_keys@),
                pks.to_set() == prev_owned@.dom(),
                order::increasing(pks),
                before == prev_owned@.map_values(owned_view()),
                after == next_owned@.map_values(owned_view()),
                before.dom() == prev_owned@.dom(),
                after.dom() == next_owned@.dom(),
                drops == to_give_up(before, after),
                order::increasing(given),
                given.to_set() == pks.take(j as int).to_set().intersect(drops),
                owned_rows(give@) == given.map_values(|k: Seq<char>| before[k]),
            decreases prev_keys.len() - j,
        {
            let k = &prev_keys[j];
            let ghost key = pks[j as int];
            let ghost sofar = give@;
            proof {
                assert(pks.to_set().contains(key));
                keyed::lemma_mapped(prev_owned@, owned_view(), key, arbitrary());
                assert(pks.take(j + 1) =~= pks.take(j as int).push(key));
                pks.take(j as int).lemma_push_to_set_commute(key);
            }
            if !next_owned.contains_key(k) {
                match prev_owned.get(k) {
                    Some(pe) => {
                        give.push(pe.clone());
                        proof {
                            assert(owned_rows(give@) =~= owned_rows(sofar).push(before[key]));
                            assert(drops.contains(key));
                            lemma_extends(pks, given, drops, j as int);
                            given.lemma_push_to_set_commute(key);
                            assert(owned_rows(give@) =~= given.push(key).map_values(|x: Seq<char>| before[x]));
                            given = given.push(key);
                        }
                    },
                    None => {},
                }
            } else {
                assert(!drops.contains(key));
            }
            assert(given.to_set() =~= pks.take(j + 1).to_set().intersect(drops));
            j = j + 1;
        }
        proof {
            assert(pks.take(j as int) =~= pks);
            assert(given.to_set() =~= drops);
            assert(order::increasing(given));
        }
        (take, give)
    }

    /// The partitions of the assignment that are not open here, or are open at
    /// an older epoch: their takeover is to be tried again.
    pub fn reconcile(&self, next: &Assignment, open: &Vec<OpenPartition>) -> (r: Vec<OwnedRef>)
        ensures
            ({
                let owned = led_by(next@.partitions, self.broker());
                lists(owned_rows(r@), owned, to_redrive(owned, open@))
            }),
    {
        let next_owned = self.owned_by(Some(next));
        let ghost owned = next_owned@.map_values(owned_view());
        proof {
            keyed::lemma_mapped(next_owned@, owned_view(), Seq::empty(), arbitrary());
        }
        let keys = next_owned.sorted_keys();
        let ghost ks = order::texts(keys@);
        let ghost want = to_redrive(owned, open@);
        let mut r: Vec<OwnedRef> = Vec::new();
        let ghost mut done: Seq<Seq<char>> = Seq::empty();
        let mut i: usize = 0;
        proof {
            assert(done.to_set() =~= ks.take(0).to_set().intersect(want));
            assert(owned_rows(r@) =~= done.map_values(|k: Seq<char>| owned[k]));
        }
        while i < keys.len()
            invariant
                i <= keys@.len(),
                ks == order::texts(keys@),
                ks.to_set() == next_owned@.dom(),
                order::increasing(ks),
                owned == next_owned@.map_values(owned_view()),
                owned.dom() == next_owned@.dom(),
                want == to_redrive(owned, open@),
                order::increasing(done),
                done.to_set() == ks.take(i as int).to_set().intersect(want),
                owned_rows(r@) == done.map_values(|k: Seq<char>| owned[k]),
            decreases keys.len() - i,
        {
            let k = &keys[i];
            let ghost key = ks[i as int];
            let ghost sofar = r@;
            proof {
                assert(ks.to_set().contains(key));
                keyed::lemma_mapped(next_owned@, owned_view(), key, arbitrary());
                assert(ks.take(i + 1) =~= ks.take(i as int).push(key));
                ks.take(i as int).lemma_push_to_set_commute(key);
            }
            match next_owned.get(k) {
                Some(o) => {
                    if !converged(open, o) {
                        r.push(o.clone());
                        proof {
                            assert(owned_rows(r@) =~= owned_rows(sofar).push(owned[key]));
                            assert(want.contains(key));
                            lemma_extends(ks, done, want, i as int);
                            done.lemma_push_to_set_commute(key);
                            assert(owned_rows(r@) =~= done.push(key).map_values(|x: Seq<char>| owned[x]));
                            done = done.push(key);
                        }
                    } else {
                        assert(!want.contains(key));
                    }
                },
                None => {},
            }
            assert(done.to_set() =~= ks.take(i + 1).to_set().intersect(want));
            i = i + 1;
        }
        proof {
            assert(ks.take(i as int) =~= ks);
            assert(done.to_set() =~= want);
            assert(order::increasing(done));
        }
        r
    }
}

fn converged(open: &Vec<OpenPartition>, o: &OwnedRef) -> (r: bool)
    ensures
        r == has_converged(open@, o@),
{
    let mut i: usize = 0;
    while i < open.len()
        invariant
            i <= open@.len(),
            forall|j: int|
                0 <= j < i ==> !((#[trigger] open@[j]).topic@ == o.topic@ && open@[j].partition == o.partition && (open@[j].epoch matches
                    Some(e) ==> e >= o.epoch)),
        decreases open.len() - i,
    {
        if open[i].partition == o.partition && text_eq(&open[i].topic, &o.topic) {
            let fresh: bool = match open[i].epoch {
                Some(e) => e >= o.epoch as i64,
                None => true,
            };
            if fresh {
                assert(open@[i as int].topic@ == o@.topic);
                return true;
            }
        }
        i = i + 1;
    }
    false
}

/// A selection of the names up to a place stays in order with the next name.
proof fn lemma_extends(all: Seq<Seq<char>>, some: Seq<Seq<char>>, want: Set<Seq<char>>, i: int)
    requires
        0 <= i < all.len(),
        order::increasing(all),
        order::increasing(some),
        some.to_set() == all.take(i).to_set().intersect(want),
    ensures
        order::increasing(some.push(all[i])),
{
    let out = some.push(all[i]);
    assert forall|a: int, b: int| 0 <= a < b < out.len() implies text::text_less(#[trigger] out[a], #[trigger] out[b]) by {
        if b == some.len() {
            assert(some.to_set().contains(some[a]));
            assert(all.take(i).contains(some[a]));
            let j = choose|j: int| 0 <= j < i && all.take(i)[j] == some[a];
            assert(text::text_less(all[j], all[i]));
        } else {
            assert(text::text_less(some[a], some[b]));
        }
    }
}

// Laws.

/// An assignment that does not change asks for nothing.
pub proof fn law_no_change_no_work(owned: Map<Seq<char>, OwnedRow>)
    ensures
        to_take(owned, owned) == Set::<Seq<char>>::empty(),
        to_give_up(owned, owned) == Set::<Seq<char>>::empty(),
{
    assert(to_take(owned, owned) =~= Set::<Seq<char>>::empty());
    assert(to_give_up(owned, owned) =~= Set::<Seq<char>>::empty());
}

/// A partition is led under its key where some row of the assignment gives it
/// to the broker, and only there.
pub proof fn law_led_partitions_are_the_brokers_own(parts: Seq<PartitionRow>, broker: Seq<char>, topic: Seq<char>, partition: i32)
    ensures
        ({
            let k = text::slash_key(topic, partition as int);
            &&& led_by(parts, broker).contains_key(k) <==> exists|i: int|
                0 <= i < parts.len() && (#[trigger] parts[i]).broker == broker && parts[i].topic == topic && parts[i].partition
                    == partition
            &&& led_by(parts, broker).contains_key(k) ==> led_by(parts, broker)[k].topic == topic && led_by(parts, broker)[k].partition
                == partition
        }),
    decreases parts.len(),
{
    let k = text::slash_key(topic, partition as int);
    if parts.len() > 0 {
        let d = parts.drop_last();
        let p = parts.last();
        law_led_partitions_are_the_brokers_own(d, broker, topic, partition);
        if text::slash_key(p.topic, p.partition as int) == k {
            text::lemma_slash_key_injective(p.topic, p.partition as int, topic, partition as int);
        }
        if exists|i: int| 0 <= i < d.len() && (#[trigger] d[i]).broker == broker && d[i].topic == topic && d[i].partition == partition {
            let i = choose|i: int| 0 <= i < d.len() && (#[trigger] d[i]).broker == broker && d[i].topic == topic && d[i].partition == partition;
            assert(parts[i].broker == broker);
        }
        if exists|i: int| 0 <= i < parts.len() && (#[trigger] parts[i]).broker == broker && parts[i].topic == topic && parts[i].partition == partition {
            let i = choose|i: int| 0 <= i < parts.len() && (#[trigger] parts[i]).broker == broker && parts[i].topic == topic && parts[i].partition == partition;
            if i < d.len() {
                assert(d[i].broker == broker);
            }
        }
        if p.broker == broker && p.topic == topic && p.partition == partition {
            assert(parts[parts.len() - 1].broker == broker);
        }
    }
}

/// Once every partition of a broker is open at its epoch there is nothing
/// left to try again.
pub proof fn law_converged_broker_redrives_nothing(owned: Map<Seq<char>, OwnedRow>, open: Seq<OpenPartition>)
    requires
        forall|k: Seq<char>| #[trigger] owned.contains_key(k) ==> has_converged(open, owned[k]),
    ensures
        to_redrive(owned, open) == Set::<Seq<char>>::empty(),
{
    assert(to_redrive(owned, open) =~= Set::<Seq<char>>::empty());
}

} // verus!
