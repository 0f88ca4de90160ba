//! What the watches on the API server make of what they see: the slices of
//! the headless service, the controller's lease, and the declared topics.

use vstd::prelude::*;
use crate::endpoints;
use crate::endpoints::{BrokerEndpoint, BrokerRegistry, BrokersModel, EndpointSliceData, EndpointSliceEntry, SliceModel, SliceRow};
use crate::keyed::TextMap;
use crate::order;
use crate::order::insert_name;
use crate::text::text_eq;
use crate::text;
use crate::topic_cr_writer;

verus! {

/// The annotation that asks for a topic to be moved to one directory.
pub const MIGRATE_TO_VOLUME_ANNOTATION: &'static str = "kaas.rs/migrate-to-volume";

/// The condition of a pod that says that its partitions are served.
pub const READINESS_CONDITION: &'static str = "kaas.rs/PartitionsReady";

/// The status of a condition that holds or does not.
pub fn condition_status(ready: bool) -> (s: &'static str)
    ensures
        s@ == (if ready {
            "True"@
        } else {
            "False"@
        }),
{
    if ready {
        "True"
    } else {
        "False"
    }
}

// The lease.

/// Tells the controller's epoch.
pub trait LeaseEpochSource {
    fn epoch(&self) -> i64;
}

/// The controller's epoch, as the lease tells it.
#[derive(Debug)]
pub struct KubeLeaseEpoch {
    epoch: i64,
    holder: Option<String>,
}

#[verifier::ext_equal]
pub struct EpochModel {
    pub epoch: i64,
    pub holder: Option<Seq<char>>,
}

impl View for KubeLeaseEpoch {
    type V = EpochModel;

    closed spec fn view(&self) -> EpochModel {
        EpochModel { epoch: self.epoch, holder: text::opt_text(self.holder) }
    }
}

/// What is read of a lease.
#[derive(Debug, Clone, PartialEq, Eq)]
pub struct LeaseSpec {
    pub transitions: Option<i32>,
    pub holder: Option<String>,
}

/// What a lease tells: the number of times that it changed hands.
pub open spec fn told_by(spec: Option<LeaseSpec>) -> EpochModel {
    match spec {
        Some(s) => EpochModel {
            epoch: match s.transitions {
                Some(n) => n as i64,
                None => 0,
            },
            holder: text::opt_text(s.holder),
        },
        None => EpochModel { epoch: 0, holder: None },
    }
}

impl Default for KubeLeaseEpoch {
    fn default() -> (e: Self)
        ensures
            e@ == (EpochModel { epoch: 0, holder: None }),
    {
        KubeLeaseEpoch::new()
    }
}

impl KubeLeaseEpoch {
    pub fn new() -> (e: Self)
        ensures
            e@ == (EpochModel { epoch: 0, holder: None }),
    {
        KubeLeaseEpoch { epoch: 0, holder: None }
    }

    pub fn current_epoch(&self) -> (n: i64)
        ensures
            n == self@.epoch,
    {
        self.epoch
    }

    pub fn current_holder(&self) -> (h: Option<String>)
        ensures
            text::opt_text(h) == self@.holder,
    {
        match &self.holder {
            Some(s) => Some(s.clone()),
            None => None,
        }
    }

    pub fn store(&mut self, epoch: i64, holder: Option<String>)
        ensures
            final(self)@ == (EpochModel { epoch, holder: text::opt_text(holder) }),
    {
        self.epoch = epoch;
        self.holder = holder;
    }

    /// Takes in what a poll of the lease found: none where there is no lease
    /// yet, or it could not be read, and then nothing changes.
    pub fn polled(&mut self, lease: Option<Option<LeaseSpec>>)
        ensures
            final(self)@ == (match lease {
                Some(spec) => told_by(spec),
                None => old(self)@,
            }),
    {
        match lease {
            Some(Some(s)) => {
                let n: i64 = match s.transitions {
                    Some(n) => n as i64,
                    None => 0,
                };
                self.store(n, s.holder);
            },
            Some(None) => {
                self.store(0, None);
            },
            None => {},
        }
    }
}

impl LeaseEpochSource for KubeLeaseEpoch {
    fn epoch(&self) -> (n: i64)
        ensures
            n == self@.epoch,
    {
        self.current_epoch()
    }
}

// The slices.

/// A port of a slice.
#[derive(Debug, Clone, PartialEq, Eq)]
pub struct SlicePort {
    pub name: Option<String>,
    pub port: Option<i32>,
}

/// An endpoint of a slice.
#[derive(Debug, Clone, PartialEq, Eq)]
pub struct SliceEndpoint {
    pub hostname: Option<String>,
    pub addresses: Vec<String>,
    pub ready: Option<bool>,
}

/// A slice, as far as it is read.
#[derive(Debug, Clone, PartialEq, Eq)]
pub struct SliceObject {
    pub name: Option<String>,
    pub endpoints: Vec<SliceEndpoint>,
    pub ports: Option<Vec<SlicePort>>,
}

pub open spec fn is_kafka(p: SlicePort) -> bool {
    p.name matches Some(n) && n@ == "kafka"@
}

/// The number of the first port with the name of the protocol.
pub open spec fn kafka_port(ports: Seq<SlicePort>, i: int) -> Option<i32>
    decreases ports.len() - i,
{
    if i < 0 || i >= ports.len() {
        None
    } else if is_kafka(ports[i]) {
        ports[i].port
    } else {
        kafka_port(ports, i + 1)
    }
}

/// The row for an endpoint; none for one without a name or an address.
pub open spec fn row_of(e: SliceEndpoint) -> Option<SliceRow> {
    match e.hostname {
        Some(h) => if e.addresses@.len() > 0 {
            Some(SliceRow { hostname: h@, address: e.addresses@[0]@, ready: e.ready == Some(true) })
        } else {
            None
        },
        None => None,
    }
}

pub open spec fn rows_among(es: Seq<SliceEndpoint>) -> Seq<SliceRow>
    decreases es.len(),
{
    if es.len() == 0 {
        Seq::empty()
    } else {
        let rest = rows_among(es.drop_last());
        match row_of(es.last()) {
            Some(r) => rest.push(r),
            None => rest,
        }
    }
}

pub open spec fn slice_model(s: SliceObject) -> SliceModel {
    SliceModel {
        name: match s.name {
            Some(n) => n@,
            None => Seq::empty(),
        },
        rows: rows_among(s.endpoints@),
        port: match s.ports {
            Some(p) => kafka_port(p@, 0),
            None => None,
        },
    }
}

fn find_port(ports: &Vec<SlicePort>) -> (r: Option<i32>)
    ensures
        r == kafka_port(ports@, 0),
{
    let mut i: usize = 0;
    while i < ports.len()
        invariant
            i <= ports@.len(),
            kafka_port(ports@, 0) == kafka_port(ports@, i as int),
        decreases ports.len() - i,
    {
        if let Some(n) = &ports[i].name {
            if text_eq(n, "kafka") {
                return ports[i].port;
            }
        }
        i = i + 1;
    }
    None
}

/// A slice in the form that the registry takes.
pub fn convert_slice(slice: &SliceObject) -> (d: EndpointSliceData)
    ensures
        d@ == slice_model(*slice),
{
    let port: Option<i32> = match &slice.ports {
        Some(p) => find_port(p),
        None => None,
    };
    let name: String = match &slice.name {
        Some(n) => n.clone(),
        None => String::new(),
    };
    let mut entries: Vec<EndpointSliceEntry> = Vec::new();
    let mut i: usize = 0;
    assert(endpoints::rows_of(entries@) =~= rows_among(slice.endpoints@.take(0)));
    while i < slice.endpoints.len()
        invariant
            i <= slice.endpoints@.len(),
            endpoints::rows_of(entries@) == rows_among(slice.endpoints@.take(i as int)),
        decreases slice.endpoints.len() - i,
    {
        let e = &slice.endpoints[i];
        let ghost before = endpoints::rows_of(entries@);
        assert(slice.endpoints@.take(i + 1).drop_last() =~= slice.endpoints@.take(i as int));
        if let Some(h) = &e.hostname {
            if e.addresses.len() > 0 {
                let ready = match e.ready {
                    Some(b) => b,
                    None => false,
                };
                entries.push(EndpointSliceEntry { hostname: h.clone(), address: e.addresses[0].clone(), ready });
                assert(endpoints::rows_of(entries@) =~= before.push(row_of(*e)->0));
            }
        }
        i = i + 1;
    }
    proof {
        assert(slice.endpoints@.take(i as int) =~= slice.endpoints@);
        if slice.name is None {
            assert(name@ =~= Seq::empty());
        }
    }
    EndpointSliceData { name, entries, kafka_port: port }
}

// The topics.

/// The status of a declared topic.
pub struct TopicStatus {
    /// Empty where none was given out yet.
    pub topic_id: String,
    pub volume_assignments: TextMap<String>,
}

/// A declared topic, as far as it is read.
pub struct TopicObject {
    pub metadata_name: String,
    /// The name of the topic where it is not that of the resource.
    pub topic_name: String,
    pub partitions: i32,
    pub annotations: Option<TextMap<String>>,
    pub status: Option<TopicStatus>,
}

/// An event of the watch. Between `Init` and `InitDone` every topic that
/// there is comes as `InitApply`.
pub enum TopicEvent {
    Apply(TopicObject),
    InitApply(TopicObject),
    Delete(TopicObject),
    Init,
    InitDone,
}

/// A topic that there is.
#[derive(Debug)]
pub struct TopicApply {
    pub name: String,
    pub partitions: i32,
    pub volume_assignments: TextMap<String>,
    /// The directory to which the topic is to be moved.
    pub migrate_to: Option<String>,
    /// None where none was given out yet.
    pub topic_id: Option<String>,
}

#[verifier::ext_equal]
pub struct ApplyModel {
    pub name: Seq<char>,
    pub partitions: i32,
    pub volumes: Map<Seq<char>, Seq<char>>,
    pub migrate_to: Option<Seq<char>>,
    pub topic_id: Option<Seq<char>>,
}

impl View for TopicApply {
    type V = ApplyModel;

    open spec fn view(&self) -> ApplyModel {
        ApplyModel {
            name: self.name@,
            partitions: self.partitions,
            volumes: self.volume_assignments@.map_values(text::string_view()),
            migrate_to: text::opt_text(self.migrate_to),
            topic_id: text::opt_text(self.topic_id),
        }
    }
}

/// What is reported for an event.
pub enum TopicAction {
    Apply(TopicApply),
    Delete(String),
}

#[verifier::ext_equal]
pub enum ActionModel {
    Apply(ApplyModel),
    Delete(Seq<char>),
}

impl View for TopicAction {
    type V = ActionModel;

    open spec fn view(&self) -> ActionModel {
        match self {
            TopicAction::Apply(a) => ActionModel::Apply(a@),
            TopicAction::Delete(n) => ActionModel::Delete(n@),
        }
    }
}

pub open spec fn action_view() -> spec_fn(TopicAction) -> ActionModel {
    |a: TopicAction| a@
}

pub open spec fn topic_of(t: TopicObject) -> Seq<char> {
    topic_cr_writer::declared_topic(t.metadata_name@, t.topic_name@)
}

/// What is reported of a topic that there is.
pub open spec fn report_of(t: TopicObject) -> ApplyModel {
    ApplyModel {
        name: topic_of(t),
        partitions: t.partitions,
        volumes: match t.status {
            Some(s) => s.volume_assignments@.map_values(text::string_view()),
            None => Map::empty(),
        },
        migrate_to: match t.annotations {
            Some(a) => if a@.contains_key(MIGRATE_TO_VOLUME_ANNOTATION@) {
                Some(a@[MIGRATE_TO_VOLUME_ANNOTATION@]@)
            } else {
                None
            },
            None => None,
        },
        topic_id: match t.status {
            Some(s) => if s.topic_id@.len() > 0 {
                Some(s.topic_id@)
            } else {
                None
            },
            None => None,
        },
    }
}

#[verifier::ext_equal]
pub struct WatchModel {
    /// The topics that were reported and not taken back.
    pub known: Set<Seq<char>>,
    /// What a listing under way has brought.
    pub relist: Option<Set<Seq<char>>>,
    /// Whether a listing was completed.
    pub synced: bool,
}

impl WatchModel {
    pub open spec fn start() -> WatchModel {
        WatchModel { known: Set::empty(), relist: None, synced: false }
    }

    pub open spec fn seen(self, name: Seq<char>) -> WatchModel {
        WatchModel {
            known: self.known.insert(name),
            relist: match self.relist {
                Some(r) => Some(r.insert(name)),
                None => None,
            },
            ..self
        }
    }

    /// The watch after an event.
    pub open spec fn after(self, e: TopicEvent) -> WatchModel {
        match e {
            TopicEvent::Apply(t) => if topic_of(t).len() == 0 {
                self
            } else {
                self.seen(topic_of(t))
            },
            TopicEvent::InitApply(t) => if topic_of(t).len() == 0 {
                self
            } else {
                self.seen(topic_of(t))
            },
            TopicEvent::Delete(t) => if topic_of(t).len() == 0 {
                self
            } else {
                WatchModel { known: self.known.remove(topic_of(t)), ..self }
            },
            TopicEvent::Init => WatchModel { relist: Some(Set::empty()), ..self },
            TopicEvent::InitDone => match self.relist {
                Some(r) => WatchModel { known: r, relist: None, synced: true },
                None => self,
            },
        }
    }

    /// What is reported for an event. When a listing is complete, every topic
    /// that was reported and is not in it is taken back.
    pub open spec fn reports(self, e: TopicEvent) -> Seq<ActionModel> {
        match e {
            TopicEvent::Apply(t) => if topic_of(t).len() == 0 {
                Seq::empty()
            } else {
                seq![ActionModel::Apply(report_of(t))]
            },
            TopicEvent::InitApply(t) => if topic_of(t).len() == 0 {
                Seq::empty()
            } else {
                seq![ActionModel::Apply(report_of(t))]
            },
            TopicEvent::Delete(t) => if topic_of(t).len() == 0 {
                Seq::empty()
            } else {
                seq![ActionModel::Delete(topic_of(t))]
            },
            TopicEvent::Init => Seq::empty(),
            TopicEvent::InitDone => match self.relist {
                Some(r) => order::in_order(self.known.difference(r)).map_values(|n: Seq<char>| ActionModel::Delete(n)),
                None => Seq::empty(),
            },
        }
    }
}

/// The watch on the declared topics. The topics that were reported outlive
/// the stream of events, so that one that vanished while there was no stream
/// is found out by the next listing.
#[derive(Debug)]
pub struct TopicWatchState {
    known: Vec<String>,
    relist: Option<Vec<String>>,
    synced: bool,
}

impl View for TopicWatchState {
    type V = WatchModel;

    closed spec fn view(&self) -> WatchModel {
        WatchModel {
            known: order::texts(self.known@).to_set(),
            relist: match self.relist {
                Some(r) => Some(order::texts(r@).to_set()),
                None => None,
            },
            synced: self.synced,
        }
    }
}

fn report(t: TopicObject, name: String) -> (a: TopicApply)
    requires
        name@ == topic_of(t),
    ensures
        a@ == report_of(t),
{
    let migrate_to: Option<String> = match &t.annotations {
        Some(a) => match a.get(MIGRATE_TO_VOLUME_ANNOTATION) {
            Some(s) => Some(s.clone()),
            None => None,
        },
        None => None,
    };
    let partitions = t.partitions;
    let ghost t0 = t;
    match t.status {
        Some(s) => {
            let topic_id: Option<String> = if s.topic_id.as_str().is_empty() {
                None
            } else {
                Some(s.topic_id)
            };
            let a = TopicApply { name, partitions, volume_assignments: s.volume_assignments, migrate_to, topic_id };
            assert(a@ =~= report_of(t0));
            a
        },
        None => {
            let volumes: TextMap<String> = TextMap::new();
            let a = TopicApply { name, partitions, volume_assignments: volumes, migrate_to, topic_id: None };
            assert(a@.volumes =~= Map::empty());
            assert(a@ =~= report_of(t0));
            a
        },
    }
}

impl Default for TopicWatchState {
    fn default() -> (w: Self)
        ensures
            w@ == WatchModel::start(),
    {
        TopicWatchState::new()
    }
}

impl TopicWatchState {
    #[verifier::type_invariant]
    spec fn inv(self) -> bool {
        order::increasing(order::texts(self.known@)) && (self.relist matches Some(r) ==> order::increasing(order::texts(r@)))
    }

    pub fn new() -> (w: Self)
        ensures
            w@ == WatchModel::start(),
    {
        let w = TopicWatchState { known: Vec::new(), relist: None, synced: false };
        assert(w@.known =~= Set::empty());
        w
    }

    pub fn is_synced(&self) -> (r: bool)
        ensures
            r == self@.synced,
    {
        self.synced
    }

    /// A new stream begins: a listing that was cut short is dropped.
    pub fn begin_stream(&mut self)
        ensures
            final(self)@ == (WatchModel { relist: None, ..old(self)@ }),
    {
        proof {
            use_type_invariant(&*self);
        }
        self.relist = None;
    }

    fn see(&mut self, name: &String)
        ensures
            final(self)@ == old(self)@.seen(name@),
    {
        proof {
            use_type_invariant(&*self);
        }
        let mut known: Vec<String> = Vec::new();
        std::mem::swap(&mut self.known, &mut known);
        insert_name(&mut known, name.clone());
        self.known = known;
        let mut relist: Option<Vec<String>> = None;
        std::mem::swap(&mut self.relist, &mut relist);
        if let Some(r) = relist {
            let mut r = r;
            insert_name(&mut r, name.clone());
            self.relist = Some(r);
        }
        assert(self@ =~= old(self)@.seen(name@));
    }

    fn forget(&mut self, name: &String)
        ensures
            final(self)@ == (WatchModel { known: old(self)@.known.remove(name@), ..old(self)@ }),
    {
        proof {
            use_type_invariant(&*self);
        }
        let known = without(&self.known, name);
        self.known = known;
        assert(self@ =~= (WatchModel { known: old(self)@.known.remove(name@), ..old(self)@ }));
    }

    /// Takes in an event. Returned is what is to be reported.
    pub fn handle_topic_event(&mut self, event: TopicEvent) -> (out: Vec<TopicAction>)
        ensures
            final(self)@ == old(self)@.after(event),
            out@.map_values(action_view()) == old(self)@.reports(event),
    {
        proof {
            use_type_invariant(&*self);
        }
        let mut out: Vec<TopicAction> = Vec::new();
        match event {
            TopicEvent::Apply(t) => {
                let name = topic_cr_writer::effective_topic_name(&t.metadata_name, &t.topic_name);
                if !name.as_str().is_empty() {
                    self.see(&name);
                    out.push(TopicAction::Apply(report(t, name)));
                }
            },
            TopicEvent::InitApply(t) => {
                let name = topic_cr_writer::effective_topic_name(&t.metadata_name, &t.topic_name);
                if !name.as_str().is_empty() {
                    self.see(&name);
                    out.push(TopicAction::Apply(report(t, name)));
                }
            },
            TopicEvent::Delete(t) => {
                let name = topic_cr_writer::effective_topic_name(&t.metadata_name, &t.topic_name);
                if !name.as_str().is_empty() {
                    self.forget(&name);
                    out.push(TopicAction::Delete(name));
                }
            },
            TopicEvent::Init => {
                self.relist = Some(Vec::new());
                assert(self@.relist->0 =~= Set::empty());
            },
            TopicEvent::InitDone => {
                let mut relist: Option<Vec<String>> = None;
                std::mem::swap(&mut self.relist, &mut relist);
                if let Some(r) = relist {
                    out = retractions(&self.known, &r);
                    self.known = r;
                    self.synced = true;
                }
                assert(self@ =~= old(self)@.after(event));
            },
        }
        assert(out@.map_values(action_view()) =~= old(self)@.reports(event));
        out
    }
}

fn without(names: &Vec<String>, name: &String) -> (out: Vec<String>)
    requires
        order::increasing(order::texts(names@)),
    ensures
        order::increasing(order::texts(out@)),
        order::texts(out@).to_set() == order::texts(names@).to_set().remove(name@),
{
    let mut out: Vec<String> = Vec::new();
    let ghost all = order::texts(names@);
    let mut i: usize = 0;
    assert(order::texts(out@).to_set() =~= all.take(0).to_set().remove(name@));
    while i < names.len()
        invariant
            i <= names@.len(),
            all == order::texts(names@),
            order::increasing(order::texts(out@)),
            order::texts(out@).to_set() == all.take(i as int).to_set().remove(name@),
        decreases names.len() - i,
    {
        proof {
            assert(all.take(i + 1) =~= all.take(i as int).push(all[i as int]));
            all.take(i as int).lemma_push_to_set_commute(all[i as int]);
        }
        if !text_eq(&names[i], name) {
            insert_name(&mut out, names[i].clone());
        }
        assert(order::texts(out@).to_set() =~= all.take(i + 1).to_set().remove(name@));
        i = i + 1;
    }
    assert(all.take(i as int) =~= all);
    out
}

fn has_name(names: &Vec<String>, name: &String) -> (r: bool)
    ensures
        r == order::texts(names@).to_set().contains(name@),
{
    let ghost all = order::texts(names@);
    let mut i: usize = 0;
    while i < names.len()
        invariant
            i <= names@.len(),
            all == order::texts(names@),
            forall|j: int| 0 <= j < i ==> all[j] != name@,
        decreases names.len() - i,
    {
        if text_eq(&names[i], name) {
            assert(all[i as int] == name@);
            return true;
        }
        i = i + 1;
    }
    false
}

fn retractions(known: &Vec<String>, relist: &Vec<String>) -> (out: Vec<TopicAction>)
    requires
        order::increasing(order::texts(known@)),
    ensures
        out@.map_values(action_view()) == order::in_order(order::texts(known@).to_set().difference(order::texts(relist@).to_set())).map_values(
            |n: Seq<char>| ActionModel::Delete(n),
        ),
{
    let ghost all = order::texts(known@);
    let ghost r = order::texts(relist@).to_set();
    let mut gone: Vec<String> = Vec::new();
    let mut i: usize = 0;
    assert(order::texts(gone@).to_set() =~= all.take(0).to_set().difference(r));
    while i < known.len()
        invariant
            i <= known@.len(),
            all == order::texts(known@),
            r == order::texts(relist@).to_set(),
            order::increasing(order::texts(gone@)),
            order::texts(gone@).to_set() == all.take(i as int).to_set().difference(r),
        decreases known.len() - i,
    {
        proof {
            assert(all.take(i + 1) =~= all.take(i as int).push(all[i as int]));
            all.take(i as int).lemma_push_to_set_commute(all[i as int]);
        }
        if !has_name(relist, &known[i]) {
            insert_name(&mut gone, known[i].clone());
        }
        assert(order::texts(gone@).to_set() =~= all.take(i + 1).to_set().difference(r));
        i = i + 1;
    }
    proof {
        assert(all.take(i as int) =~= all);
        order::lemma_in_order(order::texts(gone@));
    }
    let ghost names = order::texts(gone@);
    let ghost f = |n: Seq<char>| ActionModel::Delete(n);
    let mut out: Vec<TopicAction> = Vec::new();
    let mut j: usize = 0;
    assert(out@.map_values(action_view()) =~= names.take(0).map_values(f));
    while j < gone.len()
        invariant
            j <= gone@.len(),
            names == order::texts(gone@),
            f == (|n: Seq<char>| ActionModel::Delete(n)),
            out@.map_values(action_view()) == names.take(j as int).map_values(f),
        decreases gone.len() - j,
    {
        let ghost before = out@.map_values(action_view());
        out.push(TopicAction::Delete(gone[j].clone()));
        proof {
            assert(out@.map_values(action_view()) =~= before.push(f(names[j as int])));
            assert(names.take(j + 1).map_values(f) =~= names.take(j as int).map_values(f).push(f(names[j as int])));
        }
        j = j + 1;
    }
    assert(names.take(j as int) =~= names);
    out
}

/// The shortest wait before a stream is opened again, in milliseconds.
pub const TOPIC_WATCH_BACKOFF_MIN: u64 = 1_000;

/// The longest.
pub const TOPIC_WATCH_BACKOFF_MAX: u64 = 30_000;

/// The wait after a wait: twice as long, up to the longest.
pub open spec fn waited_longer(backoff: u64) -> u64 {
    if 2 * backoff > TOPIC_WATCH_BACKOFF_MAX {
        TOPIC_WATCH_BACKOFF_MAX
    } else {
        (2 * backoff) as u64
    }
}

pub fn next_backoff(backoff: u64) -> (n: u64)
    ensures
        n == waited_longer(backoff),
{
    if backoff > TOPIC_WATCH_BACKOFF_MAX / 2 {
        TOPIC_WATCH_BACKOFF_MAX
    } else {
        2 * backoff
    }
}

#[verifier::ext_equal]
pub struct TopicWatchModel {
    pub state: WatchModel,
    pub backoff: u64,
}

/// What comes off a stream of the watch on topics.
pub enum TopicStream {
    Event(TopicEvent),
    /// An error, which leaves the stream open.
    Error,
    End,
}

/// What the watch on topics does next.
pub enum WatchStep {
    /// Report this, and that the first listing is over, then go on with the
    /// stream.
    Report { actions: Vec<TopicAction>, first_sync: bool },
    /// Go on with the stream.
    Continue,
    /// Wait, in milliseconds, and open a stream again.
    Reopen { after_ms: u64 },
}

/// The watch on topics over all its streams.
pub struct TopicWatch {
    state: TopicWatchState,
    backoff: u64,
}

impl View for TopicWatch {
    type V = TopicWatchModel;

    closed spec fn view(&self) -> TopicWatchModel {
        TopicWatchModel { state: self.state@, backoff: self.backoff }
    }
}

impl TopicWatch {
    pub fn new() -> (w: Self)
        ensures
            w@ == (TopicWatchModel { state: WatchModel::start(), backoff: TOPIC_WATCH_BACKOFF_MIN }),
    {
        TopicWatch { state: TopicWatchState::new(), backoff: TOPIC_WATCH_BACKOFF_MIN }
    }

    /// Takes in what came off the stream. An event shows that the stream is
    /// sound, so that the next wait is short again; a stream that ends is
    /// opened again after a wait, and a listing that it cut short is dropped.
    pub fn run_topic_watch(&mut self, next: TopicStream) -> (step: WatchStep)
        ensures
            match next {
                TopicStream::Event(e) => {
                    &&& final(self)@ == (TopicWatchModel { state: old(self)@.state.after(e), backoff: TOPIC_WATCH_BACKOFF_MIN })
                    &&& step matches WatchStep::Report { actions, first_sync } && actions@.map_values(action_view())
                        == old(self)@.state.reports(e) && first_sync == (old(self)@.state.after(e).synced
                        && !old(self)@.state.synced)
                },
                TopicStream::Error => step is Continue && final(self)@ == old(self)@,
                TopicStream::End => {
                    &&& step == (WatchStep::Reopen { after_ms: old(self)@.backoff })
                    &&& final(self)@ == (TopicWatchModel {
                        state: WatchModel { relist: None, ..old(self)@.state },
                        backoff: waited_longer(old(self)@.backoff),
                    })
                },
            },
    {
        match next {
            TopicStream::Event(e) => {
                self.backoff = TOPIC_WATCH_BACKOFF_MIN;
                let was_synced: bool = self.state.is_synced();
                let actions = self.state.handle_topic_event(e);
                let first_sync: bool = self.state.is_synced() && !was_synced;
                WatchStep::Report { actions, first_sync }
            },
            TopicStream::Error => WatchStep::Continue,
            TopicStream::End => {
                let after_ms: u64 = self.backoff;
                self.backoff = next_backoff(after_ms);
                self.state.begin_stream();
                WatchStep::Reopen { after_ms }
            },
        }
    }
}

/// An event of the watch on slices.
pub enum SliceEvent {
    Apply(SliceObject),
    InitApply(SliceObject),
    Delete(SliceObject),
    Init,
    InitDone,
}

/// The registry after an event of the watch on slices.
pub open spec fn slice_seen(m: BrokersModel, e: SliceEvent) -> BrokersModel {
    match e {
        SliceEvent::Apply(s) => m.applied(slice_model(s)),
        SliceEvent::InitApply(s) => m.applied(slice_model(s)),
        SliceEvent::Delete(s) => m.deleted(slice_model(s)),
        SliceEvent::Init => m,
        SliceEvent::InitDone => m,
    }
}

/// Takes an event of the watch on slices into the registry. Returns the brokers
/// where the event was about any.
pub fn handle_endpoint_event(registry: &mut BrokerRegistry, event: SliceEvent) -> (out: Option<Vec<BrokerEndpoint>>)
    requires
        old(registry)@.wf(),
    ensures
        final(registry)@ == slice_seen(old(registry)@, event),
        final(registry)@.wf(),
        match out {
            Some(rows) => !(event is Init || event is InitDone) && endpoints::snapshot_of(
                rows@.map_values(endpoints::endpoint_view()),
                final(registry)@.brokers,
            ),
            None => event is Init || event is InitDone,
        },
{
    match event {
        SliceEvent::Apply(s) => Some(registry.apply_slice(&convert_slice(&s))),
        SliceEvent::InitApply(s) => Some(registry.apply_slice(&convert_slice(&s))),
        SliceEvent::Delete(s) => Some(registry.delete_slice(&convert_slice(&s))),
        SliceEvent::Init => None,
        SliceEvent::InitDone => None,
    }
}

/// A listing takes back exactly the topics that were reported and are not in
/// it, and what is known afterwards is what it listed.
pub proof fn law_listing_takes_back_what_vanished(w: WatchModel, name: Seq<char>)
    requires
        w.relist is Some,
        w.known.finite(),
    ensures
        w.after(TopicEvent::InitDone).known == w.relist->0,
        w.reports(TopicEvent::InitDone).contains(ActionModel::Delete(name)) <==> w.known.contains(name) && !w.relist->0.contains(name),
{
    let gone = w.known.difference(w.relist->0);
    assert(gone.subset_of(w.known));
    vstd::set_lib::lemma_len_subset(gone, w.known);
    let s = gone.to_seq();
    gone.lemma_to_seq_to_set_id();
    order::lemma_in_order_exists(s);
    let names = order::in_order(gone);
    let out = w.reports(TopicEvent::InitDone);
    assert(names.to_set() == gone);
    if out.contains(ActionModel::Delete(name)) {
        let i = choose|i: int| 0 <= i < out.len() && out[i] == ActionModel::Delete(name);
        assert(names[i] == name);
        assert(names.to_set().contains(name));
    }
    if gone.contains(name) {
        assert(names.contains(name));
        let i = choose|i: int| 0 <= i < names.len() && names[i] == name;
        assert(out[i] == ActionModel::Delete(name));
    }
}

/// The end of a listing that did not begin takes nothing back.
pub proof fn law_listing_cut_short_takes_nothing_back(w: WatchModel)
    requires
        w.relist is None,
    ensures
        w.reports(TopicEvent::InitDone) == Seq::<ActionModel>::empty(),
        w.after(TopicEvent::InitDone) == w,
{
}

/// Once a listing was completed that stays so.
pub proof fn law_listing_is_not_forgotten(w: WatchModel, e: TopicEvent)
    requires
        w.synced,
    ensures
        w.after(e).synced,
{
}

/// Only the end of a listing that began completes one.
pub proof fn law_only_a_whole_listing_counts(w: WatchModel, e: TopicEvent)
    requires
        !w.synced,
        w.after(e).synced,
    ensures
        e is InitDone,
        w.relist is Some,
{
}

/// What is known is what was reported and not taken back.
pub proof fn law_known_follows_the_reports(w: WatchModel, e: TopicEvent, name: Seq<char>)
    requires
        w.known.finite(),
    ensures
        w.after(e).known.contains(name) && !w.known.contains(name) ==> (e is InitDone && w.relist->0.contains(name)) || (exists|i: int|
            0 <= i < w.reports(e).len() && (#[trigger] w.reports(e)[i] matches ActionModel::Apply(a) && a.name == name)),
        w.known.contains(name) && !w.after(e).known.contains(name) ==> w.reports(e).contains(ActionModel::Delete(name)),
{
    match e {
        TopicEvent::Apply(t) => {
            if topic_of(t).len() > 0 {
                assert(w.reports(e)[0] == ActionModel::Apply(report_of(t)));
            }
        },
        TopicEvent::InitApply(t) => {
            if topic_of(t).len() > 0 {
                assert(w.reports(e)[0] == ActionModel::Apply(report_of(t)));
            }
        },
        TopicEvent::Delete(t) => {
            if topic_of(t).len() > 0 {
                assert(w.reports(e)[0] == ActionModel::Delete(topic_of(t)));
            }
        },
        TopicEvent::Init => {},
        TopicEvent::InitDone => {
            if w.relist is Some {
                law_listing_takes_back_what_vanished(w, name);
            }
        },
    }
}

} // verus!
