//! Placing the markers that end a transaction.
//!
//! A transaction that was prepared owes a marker to every partition that it
//! touched. The partitions that this broker leads get theirs appended; the
//! others are handed to their leader through its queue, in one entry for each
//! leader. Only when every marker is placed may the transaction be completed;
//! until then the dispatch is repeated, by the producer or by the sweep.

use vstd::prelude::*;
use crate::order;
use crate::order::distinct_names;
use crate::text::text_eq;
use crate::txn_state;
use crate::txn_state::{EntryModel, OffsetSignal, PendingMarkerDispatch, PendingModel, SignalModel, StoreModel, TopicParts, TxnStateStore, TxnTopic};

verus! {

/// The code for a marker that could not be placed. The client tries again.
pub const ERR_COORDINATOR_NOT_AVAILABLE: i16 = 15;

/// The coordinator's epoch in a marker, on which nobody acts.
pub const COORDINATOR_EPOCH: i32 = 0;

/// The partitions of a transaction, one by one.
pub open spec fn flattened(topics: Seq<TopicParts>) -> Seq<(Seq<char>, i32)>
    decreases topics.len(),
{
    if topics.len() == 0 {
        Seq::empty()
    } else {
        flattened(topics.drop_last()) + topics.last().partitions.map_values(|p: i32| (topics.last().topic, p))
    }
}

pub open spec fn place_view() -> spec_fn((String, i32)) -> (Seq<char>, i32) {
    |x: (String, i32)| (x.0@, x.1)
}

/// The partitions of a transaction, one by one.
pub fn owed_partitions(topics: &[TxnTopic]) -> (out: Vec<(String, i32)>)
    ensures
        out@.map_values(place_view()) == flattened(txn_state::parts_of(topics@)),
{
    let mut out: Vec<(String, i32)> = Vec::new();
    let ghost models = txn_state::parts_of(topics@);
    let mut i: usize = 0;
    assert(out@.map_values(place_view()) =~= flattened(models.take(0)));
    while i < topics.len()
        invariant
            i <= topics@.len(),
            models == txn_state::parts_of(topics@),
            out@.map_values(place_view()) == flattened(models.take(i as int)),
        decreases topics.len() - i,
    {
        let t = &topics[i];
        let ghost before = out@.map_values(place_view());
        let ghost f = |p: i32| (t.topic@, p);
        let mut k: usize = 0;
        assert(out@.map_values(place_view()) =~= before + t.partitions@.take(0).map_values(f));
        while k < t.partitions.len()
            invariant
                k <= t.partitions@.len(),
                f == (|p: i32| (t.topic@, p)),
                out@.map_values(place_view()) == before + t.partitions@.take(k as int).map_values(f),
            decreases t.partitions.len() - k,
        {
            let ghost o = out@;
            out.push((t.topic.clone(), t.partitions[k]));
            proof {
                assert(out@.map_values(place_view()) =~= o.map_values(place_view()).push((t.topic@, t.partitions@[k as int])));
                assert(t.partitions@.take(k + 1).map_values(f) =~= t.partitions@.take(k as int).map_values(f).push(
                    (t.topic@, t.partitions@[k as int]),
                ));
                assert(out@.map_values(place_view()) =~= before + t.partitions@.take(k + 1).map_values(f));
            }
            k = k + 1;
        }
        proof {
            let s = models.take(i + 1);
            assert(s.drop_last() =~= models.take(i as int));
            assert(s.last() == t@);
            assert(t.partitions@.take(k as int) =~= t.partitions@);
            assert(f =~= (|p: i32| (s.last().topic, p)));
        }
        i = i + 1;
    }
    assert(models.take(i as int) =~= models);
    out
}

/// A partition that is owed a marker, and who leads it.
#[derive(Debug, Clone, PartialEq, Eq)]
pub struct OwedMarker {
    pub topic: String,
    pub partition: i32,
    /// None on a broker that runs on its own.
    pub leader: Option<String>,
}

#[verifier::ext_equal]
pub struct Owed {
    pub topic: Seq<char>,
    pub partition: i32,
    pub leader: Option<Seq<char>>,
}

impl View for OwedMarker {
    type V = Owed;

    open spec fn view(&self) -> Owed {
        Owed {
            topic: self.topic@,
            partition: self.partition,
            leader: match self.leader {
                Some(s) => Some(s@),
                None => None,
            },
        }
    }
}

/// What is put into the queue of a leader.
#[derive(Debug, PartialEq, Eq)]
pub struct MarkerEntry {
    pub transactional_id: String,
    pub producer_id: i64,
    pub producer_epoch: i16,
    pub commit: bool,
    pub coordinator_epoch: i32,
    pub partitions: Vec<TxnTopic>,
}

#[verifier::ext_equal]
pub struct MarkerModel {
    pub transactional_id: Seq<char>,
    pub producer_id: i64,
    pub producer_epoch: i16,
    pub commit: bool,
    pub coordinator_epoch: i32,
    pub partitions: Seq<TopicParts>,
}

impl View for MarkerEntry {
    type V = MarkerModel;

    open spec fn view(&self) -> MarkerModel {
        MarkerModel {
            transactional_id: self.transactional_id@,
            producer_id: self.producer_id,
            producer_epoch: self.producer_epoch,
            commit: self.commit,
            coordinator_epoch: self.coordinator_epoch,
            partitions: txn_state::parts_of(self.partitions@),
        }
    }
}

/// What goes where.
pub open spec fn is_local(self_id: Seq<char>) -> spec_fn(Owed) -> bool {
    |o: Owed| o.leader is None || o.leader == Some(self_id)
}

pub open spec fn is_peer(self_id: Seq<char>) -> spec_fn(Owed) -> bool {
    |o: Owed| o.leader is Some && o.leader != Some(self_id)
}

pub open spec fn led_by(target: Seq<char>) -> spec_fn(Owed) -> bool {
    |o: Owed| o.leader == Some(target)
}

pub open spec fn led_in(target: Seq<char>, topic: Seq<char>) -> spec_fn(Owed) -> bool {
    |o: Owed| o.leader == Some(target) && o.topic == topic
}

pub open spec fn place() -> spec_fn(Owed) -> (Seq<char>, i32) {
    |o: Owed| (o.topic, o.partition)
}

pub open spec fn leader_name() -> spec_fn(Owed) -> Seq<char> {
    |o: Owed| o.leader->0
}

pub open spec fn topic_name() -> spec_fn(Owed) -> Seq<char> {
    |o: Owed| o.topic
}

pub open spec fn number() -> spec_fn(Owed) -> i32 {
    |o: Owed| o.partition
}

/// The partitions that are appended to here.
pub open spec fn local_places(self_id: Seq<char>, owed: Seq<Owed>) -> Seq<(Seq<char>, i32)> {
    owed.filter(is_local(self_id)).map_values(place())
}

/// The other leaders, in string order.
pub open spec fn targets(self_id: Seq<char>, owed: Seq<Owed>) -> Seq<Seq<char>> {
    order::in_order(owed.filter(is_peer(self_id)).map_values(leader_name()).to_set())
}

/// The topics of which a leader gets partitions, in string order.
pub open spec fn topics_for(target: Seq<char>, owed: Seq<Owed>) -> Seq<Seq<char>> {
    order::in_order(owed.filter(led_by(target)).map_values(topic_name()).to_set())
}

/// The partitions of a topic that a leader gets.
pub open spec fn numbers_for(target: Seq<char>, topic: Seq<char>, owed: Seq<Owed>) -> Seq<i32> {
    owed.filter(led_in(target, topic)).map_values(number())
}

pub open spec fn parts_for(target: Seq<char>, owed: Seq<Owed>) -> Seq<TopicParts> {
    topics_for(target, owed).map_values(|t: Seq<char>| TopicParts { topic: t, partitions: numbers_for(target, t, owed) })
}

/// What stays the same in every entry of one dispatch.
#[verifier::ext_equal]
pub struct Ending {
    pub txn_id: Seq<char>,
    pub pid: i64,
    pub epoch: i16,
    pub commit: bool,
}

pub open spec fn entry_for(e: Ending, target: Seq<char>, owed: Seq<Owed>) -> MarkerModel {
    MarkerModel {
        transactional_id: e.txn_id,
        producer_id: e.pid,
        producer_epoch: e.epoch,
        commit: e.commit,
        coordinator_epoch: COORDINATOR_EPOCH,
        partitions: parts_for(target, owed),
    }
}

pub open spec fn queue_entries(e: Ending, self_id: Seq<char>, owed: Seq<Owed>) -> Seq<(Seq<char>, MarkerModel)> {
    targets(self_id, owed).map_values(|t: Seq<char>| (t, entry_for(e, t, owed)))
}

pub open spec fn owed_of(v: Seq<OwedMarker>) -> Seq<Owed> {
    v.map_values(|o: OwedMarker| o@)
}

proof fn lemma_filter_step<B>(s: Seq<Owed>, i: int, ok: spec_fn(Owed) -> bool, f: spec_fn(Owed) -> B)
    requires
        0 <= i < s.len(),
    ensures
        s.take(i + 1).filter(ok).map_values(f) == (if ok(s[i]) {
            s.take(i).filter(ok).map_values(f).push(f(s[i]))
        } else {
            s.take(i).filter(ok).map_values(f)
        }),
{
    reveal(Seq::filter);
    assert(s.take(i + 1).drop_last() =~= s.take(i));
    assert(s.take(i + 1).last() == s[i]);
    assert(s.take(i + 1).filter(ok).map_values(f) =~= (if ok(s[i]) {
        s.take(i).filter(ok).map_values(f).push(f(s[i]))
    } else {
        s.take(i).filter(ok).map_values(f)
    }));
}

proof fn lemma_filter_none<B>(s: Seq<Owed>, ok: spec_fn(Owed) -> bool, f: spec_fn(Owed) -> B)
    ensures
        s.take(0).filter(ok).map_values(f) == Seq::<B>::empty(),
{
    reveal(Seq::filter);
    assert(s.take(0).filter(ok).map_values(f) =~= Seq::<B>::empty());
}

fn numbers_of(owed: &Vec<OwedMarker>, target: &str, topic: &str) -> (out: Vec<i32>)
    ensures
        out@ == numbers_for(target@, topic@, owed_of(owed@)),
{
    let ghost s = owed_of(owed@);
    let ghost ok = led_in(target@, topic@);
    let mut out: Vec<i32> = Vec::new();
    let mut i: usize = 0;
    proof {
        lemma_filter_none(s, ok, number());
    }
    while i < owed.len()
        invariant
            i <= owed@.len(),
            s == owed_of(owed@),
            ok == led_in(target@, topic@),
            out@ == s.take(i as int).filter(ok).map_values(number()),
        decreases owed.len() - i,
    {
        proof {
            lemma_filter_step(s, i as int, ok, number());
        }
        if let Some(l) = &owed[i].leader {
            if text_eq(l, target) && text_eq(&owed[i].topic, topic) {
                out.push(owed[i].partition);
            }
        }
        i = i + 1;
    }
    assert(s.take(i as int) =~= s);
    out
}

fn topics_of(owed: &Vec<OwedMarker>, target: &str) -> (out: Vec<String>)
    ensures
        order::texts(out@) == topics_for(target@, owed_of(owed@)),
{
    let ghost s = owed_of(owed@);
    let ghost ok = led_by(target@);
    let mut all: Vec<String> = Vec::new();
    let mut i: usize = 0;
    proof {
        lemma_filter_none(s, ok, topic_name());
        assert(order::texts(all@) =~= Seq::empty());
    }
    while i < owed.len()
        invariant
            i <= owed@.len(),
            s == owed_of(owed@),
            ok == led_by(target@),
            order::texts(all@) == s.take(i as int).filter(ok).map_values(topic_name()),
        decreases owed.len() - i,
    {
        proof {
            lemma_filter_step(s, i as int, ok, topic_name());
        }
        if let Some(l) = &owed[i].leader {
            if text_eq(l, target) {
                let ghost before = order::texts(all@);
                all.push(owed[i].topic.clone());
                assert(order::texts(all@) =~= before.push(owed@[i as int].topic@));
            }
        }
        i = i + 1;
    }
    assert(s.take(i as int) =~= s);
    distinct_names(&all)
}

fn targets_of(owed: &Vec<OwedMarker>, self_id: &str) -> (out: Vec<String>)
    ensures
        order::texts(out@) == targets(self_id@, owed_of(owed@)),
{
    let ghost s = owed_of(owed@);
    let ghost ok = is_peer(self_id@);
    let mut all: Vec<String> = Vec::new();
    let mut i: usize = 0;
    proof {
        lemma_filter_none(s, ok, leader_name());
        assert(order::texts(all@) =~= Seq::empty());
    }
    while i < owed.len()
        invariant
            i <= owed@.len(),
            s == owed_of(owed@),
            ok == is_peer(self_id@),
            order::texts(all@) == s.take(i as int).filter(ok).map_values(leader_name()),
        decreases owed.len() - i,
    {
        proof {
            lemma_filter_step(s, i as int, ok, leader_name());
        }
        if let Some(l) = &owed[i].leader {
            if !text_eq(l, self_id) {
                let ghost before = order::texts(all@);
                all.push(l.clone());
                assert(order::texts(all@) =~= before.push(l@));
            }
        }
        i = i + 1;
    }
    assert(s.take(i as int) =~= s);
    distinct_names(&all)
}

fn locals_of(owed: &Vec<OwedMarker>, self_id: &str) -> (out: Vec<(String, i32)>)
    ensures
        out@.map_values(place_view()) == local_places(self_id@, owed_of(owed@)),
{
    let ghost s = owed_of(owed@);
    let ghost ok = is_local(self_id@);
    let mut out: Vec<(String, i32)> = Vec::new();
    let mut i: usize = 0;
    proof {
        lemma_filter_none(s, ok, place());
        assert(out@.map_values(place_view()) =~= Seq::empty());
    }
    while i < owed.len()
        invariant
            i <= owed@.len(),
            s == owed_of(owed@),
            ok == is_local(self_id@),
            out@.map_values(place_view()) == s.take(i as int).filter(ok).map_values(place()),
        decreases owed.len() - i,
    {
        proof {
            lemma_filter_step(s, i as int, ok, place());
        }
        let here = match &owed[i].leader {
            Some(l) => text_eq(l, self_id),
            None => true,
        };
        if here {
            let ghost before = out@.map_values(place_view());
            out.push((owed[i].topic.clone(), owed[i].partition));
            assert(out@.map_values(place_view()) =~= before.push((owed@[i as int].topic@, owed@[i as int].partition)));
        }
        i = i + 1;
    }
    assert(s.take(i as int) =~= s);
    out
}

fn parts_of_target(owed: &Vec<OwedMarker>, target: &str) -> (out: Vec<TxnTopic>)
    ensures
        txn_state::parts_of(out@) == parts_for(target@, owed_of(owed@)),
{
    let topics = topics_of(owed, target);
    let ghost s = owed_of(owed@);
    let ghost f = |t: Seq<char>| TopicParts { topic: t, partitions: numbers_for(target@, t, s) };
    let ghost names = order::texts(topics@);
    let mut out: Vec<TxnTopic> = Vec::new();
    let mut i: usize = 0;
    assert(txn_state::parts_of(out@) =~= names.take(0).map_values(f));
    while i < topics.len()
        invariant
            i <= topics@.len(),
            s == owed_of(owed@),
            f == (|t: Seq<char>| TopicParts { topic: t, partitions: numbers_for(target@, t, s) }),
            names == order::texts(topics@),
            txn_state::parts_of(out@) == names.take(i as int).map_values(f),
        decreases topics.len() - i,
    {
        let ghost before = txn_state::parts_of(out@);
        let numbers = numbers_of(owed, target, &topics[i]);
        out.push(TxnTopic { topic: topics[i].clone(), partitions: numbers });
        proof {
            assert(txn_state::parts_of(out@) =~= before.push(f(names[i as int])));
            assert(names.take(i + 1).map_values(f) =~= names.take(i as int).map_values(f).push(f(names[i as int])));
        }
        i = i + 1;
    }
    proof {
        assert(names.take(i as int) =~= names);
        assert(f =~= (|t: Seq<char>| TopicParts { topic: t, partitions: numbers_for(target@, t, owed_of(owed@)) }));
    }
    out
}

pub open spec fn queued_view() -> spec_fn((String, MarkerEntry)) -> (Seq<char>, MarkerModel) {
    |x: (String, MarkerEntry)| (x.0@, x.1@)
}

/// A dispatch under way: what is left to append, what is left to queue.
pub struct MarkerDispatch {
    local: Vec<(String, i32)>,
    queued: Vec<(String, MarkerEntry)>,
    has_queue: bool,
    appended: usize,
    handed: usize,
    failed: bool,
}

#[verifier::ext_equal]
pub struct DispatchModel {
    pub local: Seq<(Seq<char>, i32)>,
    pub queued: Seq<(Seq<char>, MarkerModel)>,
    pub has_queue: bool,
    /// How many of `local` are appended.
    pub appended: nat,
    /// How many of `queued` are queued.
    pub handed: nat,
    pub failed: bool,
}

/// What is due next.
#[verifier::ext_equal]
pub enum Due {
    Append(Seq<char>, i32),
    /// The entry at a place of `queued`.
    Enqueue(nat),
    Finished(Result<(), i16>),
}

impl DispatchModel {
    pub open spec fn wf(self) -> bool {
        self.appended <= self.local.len() && self.handed <= self.queued.len()
    }

    /// What is due next: the appends, then the queues.
    pub open spec fn due(self) -> Due {
        if self.failed {
            Due::Finished(Err(ERR_COORDINATOR_NOT_AVAILABLE))
        } else if self.appended < self.local.len() {
            Due::Append(self.local[self.appended as int].0, self.local[self.appended as int].1)
        } else if self.handed < self.queued.len() {
            if self.has_queue {
                Due::Enqueue(self.handed)
            } else {
                Due::Finished(Err(ERR_COORDINATOR_NOT_AVAILABLE))
            }
        } else {
            Due::Finished(Ok(()))
        }
    }

    /// The dispatch after what was due succeeded or failed.
    pub open spec fn after(self, ok: bool) -> DispatchModel {
        match self.due() {
            Due::Finished(r) => self,
            Due::Append(t, p) => if ok {
                DispatchModel { appended: self.appended + 1, ..self }
            } else {
                DispatchModel { failed: true, ..self }
            },
            Due::Enqueue(k) => if ok {
                DispatchModel { handed: self.handed + 1, ..self }
            } else {
                DispatchModel { failed: true, ..self }
            },
        }
    }
}

/// What is due next.
#[derive(Debug, PartialEq, Eq)]
pub enum MarkerStep {
    /// Append the marker to a partition here.
    Append(String, i32),
    /// Put the entry at a place into the queue of its leader.
    Enqueue(usize),
    Finished(Result<(), i16>),
}

impl View for MarkerStep {
    type V = Due;

    open spec fn view(&self) -> Due {
        match self {
            MarkerStep::Append(t, p) => Due::Append(t@, *p),
            MarkerStep::Enqueue(k) => Due::Enqueue(*k as nat),
            MarkerStep::Finished(r) => Due::Finished(*r),
        }
    }
}

impl View for MarkerDispatch {
    type V = DispatchModel;

    closed spec fn view(&self) -> DispatchModel {
        DispatchModel {
            local: self.local@.map_values(place_view()),
            queued: self.queued@.map_values(queued_view()),
            has_queue: self.has_queue,
            appended: self.appended as nat,
            handed: self.handed as nat,
            failed: self.failed,
        }
    }
}

/// The start of the dispatch for a transaction that ends.
pub open spec fn dispatch(e: Ending, self_id: Seq<char>, owed: Seq<Owed>, has_queue: bool) -> DispatchModel {
    DispatchModel {
        local: local_places(self_id, owed),
        queued: queue_entries(e, self_id, owed),
        has_queue,
        appended: 0,
        handed: 0,
        failed: false,
    }
}

/// Starts the dispatch of the markers of a transaction.
pub fn dispatch_markers(
    self_id: &str,
    txn_id: &str,
    producer_id: i64,
    producer_epoch: i16,
    commit: bool,
    owed: &Vec<OwedMarker>,
    has_queue: bool,
) -> (d: MarkerDispatch)
    ensures
        d@.wf(),
        d@ == dispatch(
            (Ending { txn_id: txn_id@, pid: producer_id, epoch: producer_epoch, commit }),
            self_id@,
            owed_of(owed@),
            has_queue,
        ),
{
    let ghost e = Ending { txn_id: txn_id@, pid: producer_id, epoch: producer_epoch, commit };
    let ghost s = owed_of(owed@);
    let local = locals_of(owed, self_id);
    let names = targets_of(owed, self_id);
    let ghost all = order::texts(names@);
    let ghost f = |t: Seq<char>| (t, entry_for(e, t, s));
    let mut queued: Vec<(String, MarkerEntry)> = Vec::new();
    let mut i: usize = 0;
    assert(queued@.map_values(queued_view()) =~= all.take(0).map_values(f));
    while i < names.len()
        invariant
            i <= names@.len(),
            s == owed_of(owed@),
            e == (Ending { txn_id: txn_id@, pid: producer_id, epoch: producer_epoch, commit }),
            all == order::texts(names@),
            f == (|t: Seq<char>| (t, entry_for(e, t, s))),
            queued@.map_values(queued_view()) == all.take(i as int).map_values(f),
        decreases names.len() - i,
    {
        let ghost before = queued@.map_values(queued_view());
        let entry = MarkerEntry {
            transactional_id: txn_id.to_owned(),
            producer_id,
            producer_epoch,
            commit,
            coordinator_epoch: COORDINATOR_EPOCH,
            partitions: parts_of_target(owed, &names[i]),
        };
        assert(entry@ =~= entry_for(e, all[i as int], s));
        queued.push((names[i].clone(), entry));
        proof {
            assert(queued@.map_values(queued_view()) =~= before.push(f(all[i as int])));
            assert(all.take(i + 1).map_values(f) =~= all.take(i as int).map_values(f).push(f(all[i as int])));
        }
        i = i + 1;
    }
    assert(all.take(i as int) =~= all);
    let d = MarkerDispatch { local, queued, has_queue, appended: 0, handed: 0, failed: false };
    assert(d@ =~= dispatch(e, self_id@, s, has_queue));
    d
}

impl MarkerDispatch {
    /// What is due next.
    pub fn step(&self) -> (s: MarkerStep)
        requires
            self@.wf(),
        ensures
            s@ == self@.due(),
    {
        if self.failed {
            return MarkerStep::Finished(Err(ERR_COORDINATOR_NOT_AVAILABLE));
        }
        if self.appended < self.local.len() {
            let x = &self.local[self.appended];
            assert(self@.local[self.appended as int] == place_view()(self.local@[self.appended as int]));
            return MarkerStep::Append(x.0.clone(), x.1);
        }
        if self.handed < self.queued.len() {
            if self.has_queue {
                return MarkerStep::Enqueue(self.handed);
            }
            return MarkerStep::Finished(Err(ERR_COORDINATOR_NOT_AVAILABLE));
        }
        MarkerStep::Finished(Ok(()))
    }

    /// The leader at a place, and what is put into its queue.
    pub fn queued(&self, k: usize) -> (x: (&String, &MarkerEntry))
        requires
            k < self@.queued.len(),
        ensures
            (x.0@, x.1@) == self@.queued[k as int],
    {
        assert(self@.queued[k as int] == queued_view()(self.queued@[k as int]));
        (&self.queued[k].0, &self.queued[k].1)
    }

    /// Records how what was due went.
    pub fn record(&mut self, ok: bool)
        requires
            old(self)@.wf(),
        ensures
            final(self)@ == old(self)@.after(ok),
            final(self)@.wf(),
    {
        if self.failed {
            return;
        }
        if self.appended < self.local.len() {
            if ok {
                self.appended = self.appended + 1;
            } else {
                self.failed = true;
            }
            assert(self@ =~= old(self)@.after(ok));
            return;
        }
        if self.handed < self.queued.len() && self.has_queue {
            if ok {
                self.handed = self.handed + 1;
            } else {
                self.failed = true;
            }
            assert(self@ =~= old(self)@.after(ok));
        }
    }
}

/// A dispatch succeeds only when every append and every entry went through.
pub proof fn law_success_means_every_marker_is_placed(d: DispatchModel)
    requires
        d.wf(),
        d.due() == Due::Finished(Ok(())),
    ensures
        d.appended == d.local.len(),
        d.handed == d.queued.len(),
        !d.failed,
{
}

/// A marker that could not be placed fails the dispatch for good.
pub proof fn law_failure_is_final(d: DispatchModel, ok: bool)
    requires
        d.wf(),
        !(d.due() is Finished),
    ensures
        d.after(false).due() == Due::Finished(Err(ERR_COORDINATOR_NOT_AVAILABLE)),
        d.after(false).after(ok) == d.after(false),
{
}

proof fn lemma_led(s: Seq<Owed>, i: int, ok: spec_fn(Owed) -> bool)
    requires
        0 <= i < s.len(),
        ok(s[i]),
    ensures
        exists|j: int| 0 <= j < s.filter(ok).len() && #[trigger] s.filter(ok)[j] == s[i],
{
    order::lemma_filtered(s, ok, s[i]);
    assert(s.contains(s[i]));
    assert(s.filter(ok).contains(s[i]));
}

/// Every partition that is owed a marker is served: here, or in the entry of
/// its leader.
pub proof fn law_every_owed_partition_is_served(e: Ending, self_id: Seq<char>, owed: Seq<Owed>, i: int)
    requires
        0 <= i < owed.len(),
    ensures
        is_local(self_id)(owed[i]) ==> local_places(self_id, owed).contains((owed[i].topic, owed[i].partition)),
        is_peer(self_id)(owed[i]) ==> queue_entries(e, self_id, owed).contains(
            (owed[i].leader->0, entry_for(e, owed[i].leader->0, owed)),
        ) && parts_for(owed[i].leader->0, owed).contains(
            TopicParts { topic: owed[i].topic, partitions: numbers_for(owed[i].leader->0, owed[i].topic, owed) },
        ) && numbers_for(owed[i].leader->0, owed[i].topic, owed).contains(owed[i].partition),
{
    let o = owed[i];
    if is_local(self_id)(o) {
        let ok = is_local(self_id);
        lemma_led(owed, i, ok);
        let j = choose|j: int| 0 <= j < owed.filter(ok).len() && #[trigger] owed.filter(ok)[j] == o;
        assert(local_places(self_id, owed)[j] == (o.topic, o.partition));
    }
    if is_peer(self_id)(o) {
        let t = o.leader->0;
        // The leader is among the targets.
        let ok = is_peer(self_id);
        lemma_led(owed, i, ok);
        let j = choose|j: int| 0 <= j < owed.filter(ok).len() && #[trigger] owed.filter(ok)[j] == o;
        let names = owed.filter(ok).map_values(leader_name());
        assert(names[j] == t);
        order::lemma_in_order_exists(names);
        assert(targets(self_id, owed).to_set().contains(t));
        let a = choose|a: int| 0 <= a < targets(self_id, owed).len() && targets(self_id, owed)[a] == t;
        assert(queue_entries(e, self_id, owed)[a] == (t, entry_for(e, t, owed)));
        // The topic is among those of the entry.
        let by = led_by(t);
        lemma_led(owed, i, by);
        let k = choose|k: int| 0 <= k < owed.filter(by).len() && #[trigger] owed.filter(by)[k] == o;
        let topics = owed.filter(by).map_values(topic_name());
        assert(topics[k] == o.topic);
        order::lemma_in_order_exists(topics);
        assert(topics_for(t, owed).to_set().contains(o.topic));
        let b = choose|b: int| 0 <= b < topics_for(t, owed).len() && topics_for(t, owed)[b] == o.topic;
        assert(parts_for(t, owed)[b] == (TopicParts { topic: o.topic, partitions: numbers_for(t, o.topic, owed) }));
        // The partition is among its numbers.
        let of = led_in(t, o.topic);
        lemma_led(owed, i, of);
        let n = choose|n: int| 0 <= n < owed.filter(of).len() && #[trigger] owed.filter(of)[n] == o;
        assert(numbers_for(t, o.topic, owed)[n] == o.partition);
    }
}

/// A partition is served as often as it is owed, by its leader and by no one
/// else.
pub proof fn law_markers_are_placed_as_often_as_owed(self_id: Seq<char>, owed: Seq<Owed>, target: Seq<char>, topic: Seq<char>, p: i32)
    ensures
        order::count_of(numbers_for(target, topic, owed), p) == order::count_of(
            owed,
            Owed { topic, partition: p, leader: Some(target) },
        ),
        order::count_of(local_places(self_id, owed), (topic, p)) == order::count_of(
            owed,
            Owed { topic, partition: p, leader: None },
        ) + order::count_of(owed, Owed { topic, partition: p, leader: Some(self_id) }),
        !targets(self_id, owed).contains(self_id),
    decreases owed.len(),
{
    reveal(Seq::filter);
    if owed.len() > 0 {
        let d = owed.drop_last();
        let x = owed.last();
        law_markers_are_placed_as_often_as_owed(self_id, d, target, topic, p);
        let n = numbers_for(target, topic, owed);
        let m = local_places(self_id, owed);
        if led_in(target, topic)(x) {
            assert(n =~= numbers_for(target, topic, d).push(x.partition));
            assert(n.drop_last() =~= numbers_for(target, topic, d));
        } else {
            assert(n =~= numbers_for(target, topic, d));
        }
        if is_local(self_id)(x) {
            assert(m =~= local_places(self_id, d).push((x.topic, x.partition)));
            assert(m.drop_last() =~= local_places(self_id, d));
        } else {
            assert(m =~= local_places(self_id, d));
        }
    }
    let names = owed.filter(is_peer(self_id)).map_values(leader_name());
    order::lemma_in_order_exists(names);
    if targets(self_id, owed).contains(self_id) {
        assert(targets(self_id, owed).to_set().contains(self_id));
        assert(names.contains(self_id));
        let j = choose|j: int| 0 <= j < names.len() && names[j] == self_id;
        let y = owed.filter(is_peer(self_id))[j];
        order::lemma_filtered(owed, is_peer(self_id), y);
        assert(owed.filter(is_peer(self_id)).contains(y));
    }
}

/// What the sweep makes of one transaction: completed where its markers are
/// placed and the transaction still stands as it was found.
pub open spec fn swept(s: StoreModel, p: PendingModel, placed: bool) -> Option<(StoreModel, Seq<SignalModel>)> {
    if !placed || p.txn_id.len() == 0 {
        None
    } else {
        match txn_state::admitted(s.entry(p.txn_id), p.pid, p.epoch) {
            Err(x) => None,
            Ok(e) => match txn_state::complete(e, p.commit) {
                Err(x) => None,
                Ok((e2, calls)) => Some(
                    (
                        if e2 == e {
                            s
                        } else {
                            s.with_entry(p.txn_id, e2)
                        },
                        calls,
                    ),
                ),
            },
        }
    }
}

/// What the sweep makes of the first `n` transactions: the store, how many
/// were completed, and the calls of the offset hook that are due.
pub open spec fn swept_upto(s: StoreModel, pending: Seq<PendingModel>, placed: Seq<bool>, n: int) -> (StoreModel, nat, Seq<SignalModel>)
    decreases n,
{
    if n <= 0 {
        (s, 0, Seq::empty())
    } else {
        let (t, count, calls) = swept_upto(s, pending, placed, n - 1);
        match swept(t, pending[n - 1], placed[n - 1]) {
            Some((u, more)) => (u, count + 1, calls + more),
            None => (t, count, calls),
        }
    }
}

pub open spec fn pending_view() -> spec_fn(PendingMarkerDispatch) -> PendingModel {
    |p: PendingMarkerDispatch| p@
}

/// Completes the prepared transactions whose markers are placed: `placed`
/// says of each how its dispatch went. The others stay prepared. Returned are
/// the number completed and the calls of the offset hook that are due.
pub fn reconcile_pending_markers(store: &mut TxnStateStore, pending: &Vec<PendingMarkerDispatch>, placed: &Vec<bool>) -> (r: (
    usize,
    Vec<OffsetSignal>,
))
    requires
        old(store)@.wf(),
        pending@.len() == placed@.len(),
    ensures
        final(store)@.wf(),
        (final(store)@, r.0 as nat, txn_state::signals_of(r.1@)) == swept_upto(
            old(store)@,
            pending@.map_values(pending_view()),
            placed@,
            pending@.len() as int,
        ),
{
    let ghost s0 = store@;
    let ghost ps = pending@.map_values(pending_view());
    let mut completed: usize = 0;
    let mut calls: Vec<OffsetSignal> = Vec::new();
    let mut i: usize = 0;
    assert(txn_state::signals_of(calls@) =~= Seq::empty());
    while i < pending.len()
        invariant
            i <= pending@.len(),
            pending@.len() == placed@.len(),
            ps == pending@.map_values(pending_view()),
            store@.wf(),
            completed <= i,
            (store@, completed as nat, txn_state::signals_of(calls@)) == swept_upto(s0, ps, placed@, i as int),
        decreases pending.len() - i,
    {
        let p = &pending[i];
        assert(ps[i as int] == p@);
        if placed[i] {
            match store.complete_end_txn(&p.txn_id, p.pid, p.epoch, p.commit) {
                Ok(more) => {
                    completed = completed + 1;
                    let ghost before = calls@;
                    let mut more = more;
                    let ghost m0 = more@;
                    calls.append(&mut more);
                    assert(txn_state::signals_of(calls@) =~= txn_state::signals_of(before) + txn_state::signals_of(m0));
                },
                Err(_) => {},
            }
        }
        i = i + 1;
    }
    (completed, calls)
}

/// A transaction that the sweep completes is prepared no more, so that
/// the next sweep does not find it.
pub proof fn law_sweep_settles_a_transaction(s: StoreModel, id: Seq<char>, e: EntryModel)
    requires
        s.wf(),
        id.len() > 0,
        s.entry(id) == Some(e),
        txn_state::prepared(e),
    ensures
        swept(s, txn_state::pending_of(id, e), true) matches Some((t, calls)) && (t.entry(id) matches Some(f)
            && !txn_state::prepared(f) && f.state == txn_state::complete_state(e.state == txn_state::TxnState::PrepareCommit)),
        swept(s, txn_state::pending_of(id, e), false) is None,
{
    let p = txn_state::pending_of(id, e);
    let done = txn_state::complete(e, p.commit)->Ok_0.0;
    assert(done.state != e.state);
    let t = s.with_entry(id, done);
    assert(t.slots.len() == s.slots.len());
    assert(0 <= s.slot(id) < s.slots.len());
}

} // verus!
