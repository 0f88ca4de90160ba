//! The coordinator of a broker: its groups and their offsets, behind the
//! question which groups the broker coordinates.

use vstd::prelude::*;
use dashmap::DashMap;
use crate::error_codes;
use crate::group;
use crate::group::{
    Group, GroupAction, GroupModel, GroupSnapshot, GroupState, HeartbeatRequest, JoinOutcome, JoinRequest, SyncOutcome,
    SyncRequest,
};
use crate::group_table;
use crate::group_table::{table_describe, table_has, table_ids, table_new, table_put, table_take};
use crate::keyed;
use crate::keyed::TextMap;
use crate::offset_store;
use crate::offset_store::{purge_file, FetchSpec, GroupOffsets, GroupOffsetsModel, OffsetModel, OffsetStore, Purge};
use crate::order;
use crate::text;

pub use crate::offset_store::offset_key as build_offset_key;

verus! {

pub const COORDINATOR_NOT_AVAILABLE: i16 = 15;

pub const NOT_COORDINATOR: i16 = 16;

pub const INVALID_REQUEST: i16 = 42;

pub const NON_EMPTY_GROUP: i16 = 67;

pub const GROUP_ID_NOT_FOUND: i16 = 69;

/// The name of a broker.
pub type BrokerId = String;

/// Where a broker can be reached.
#[derive(Debug, Clone, PartialEq, Eq)]
pub struct BrokerEndpoint {
    pub node_id: i32,
    pub host: String,
    pub port: i32,
}

/// Finds brokers by their ids; a broker that is not in the cluster is not
/// found.
pub trait BrokerLookup {
    /// Whether `answer` may be given for an id. Nothing is known of a lookup
    /// that does not say.
    open spec fn may_answer(&self, broker_id: Seq<char>, answer: Option<BrokerEndpoint>) -> bool {
        true
    }

    fn lookup(&self, broker_id: &str) -> (answer: Option<BrokerEndpoint>)
        ensures
            self.may_answer(broker_id@, answer),
    ;
}

/// A lookup by a function.
pub struct FnLookup<F: Fn(&str) -> Option<BrokerEndpoint>> {
    f: F,
}

impl<F: Fn(&str) -> Option<BrokerEndpoint>> FnLookup<F> {
    pub closed spec fn function(&self) -> F {
        self.f
    }

    #[verifier::type_invariant]
    spec fn inv(self) -> bool {
        forall|id: &str| #[trigger] call_requires(self.f, (id,))
    }

    pub fn new(f: F) -> (l: Self)
        requires
            forall|id: &str| #[trigger] call_requires(f, (id,)),
        ensures
            l.function() == f,
    {
        FnLookup { f }
    }
}

impl<F: Fn(&str) -> Option<BrokerEndpoint>> BrokerLookup for FnLookup<F> {
    open spec fn may_answer(&self, broker_id: Seq<char>, answer: Option<BrokerEndpoint>) -> bool {
        exists|id: &str| id@ == broker_id && #[trigger] call_ensures(self.function(), (id,), answer)
    }

    fn lookup(&self, broker_id: &str) -> (answer: Option<BrokerEndpoint>) {
        proof {
            use_type_invariant(self);
        }
        let answer = (self.f)(broker_id);
        assert(call_ensures(self.function(), (broker_id,), answer));
        answer
    }
}

/// Which groups this broker coordinates, and who coordinates a group,
/// according to one assignment.
pub trait GroupAssignmentSource {
    /// What a source owns is left open unless it says.
    open spec fn owns(&self, group: Seq<char>) -> bool {
        arbitrary()
    }

    open spec fn coordinator_of(&self, group: Seq<char>) -> Option<Seq<char>> {
        arbitrary()
    }

    fn owns_group(&self, group_id: &str) -> (r: bool)
        ensures
            r == self.owns(group_id@),
    ;

    fn group_coordinator(&self, group_id: &str) -> (r: Option<BrokerId>)
        ensures
            text::opt_text(r) == self.coordinator_of(group_id@),
    ;
}

/// The same for transactions.
pub trait TxnAssignmentSource {
    /// What a source owns is left open unless it says.
    open spec fn owns_it(&self, txn: Seq<char>) -> bool {
        arbitrary()
    }

    open spec fn coordinator_for(&self, txn: Seq<char>) -> Option<Seq<char>> {
        arbitrary()
    }

    fn owns_txn(&self, transactional_id: &str) -> (r: bool)
        ensures
            r == self.owns_it(transactional_id@),
    ;

    fn txn_coordinator(&self, transactional_id: &str) -> (r: Option<BrokerId>)
        ensures
            text::opt_text(r) == self.coordinator_for(transactional_id@),
    ;
}

/// The broker coordinates every group itself.
#[derive(Debug)]
pub struct LocalGroupSource {
    pub self_id: BrokerId,
}

impl LocalGroupSource {
    pub fn new(self_id: BrokerId) -> (s: Self)
        ensures
            s.self_id == self_id,
    {
        LocalGroupSource { self_id }
    }
}

impl GroupAssignmentSource for LocalGroupSource {
    open spec fn owns(&self, group: Seq<char>) -> bool {
        true
    }

    open spec fn coordinator_of(&self, group: Seq<char>) -> Option<Seq<char>> {
        Some(self.self_id@)
    }

    fn owns_group(&self, group_id: &str) -> (r: bool) {
        true
    }

    fn group_coordinator(&self, group_id: &str) -> (r: Option<BrokerId>) {
        Some(self.self_id.clone())
    }
}

/// The broker coordinates every transaction itself.
#[derive(Debug)]
pub struct LocalTxnSource {
    pub self_id: BrokerId,
}

impl LocalTxnSource {
    pub fn new(self_id: BrokerId) -> (s: Self)
        ensures
            s.self_id == self_id,
    {
        LocalTxnSource { self_id }
    }
}

impl TxnAssignmentSource for LocalTxnSource {
    open spec fn owns_it(&self, txn: Seq<char>) -> bool {
        true
    }

    open spec fn coordinator_for(&self, txn: Seq<char>) -> Option<Seq<char>> {
        Some(self.self_id@)
    }

    fn owns_txn(&self, transactional_id: &str) -> (r: bool) {
        true
    }

    fn txn_coordinator(&self, transactional_id: &str) -> (r: Option<BrokerId>) {
        Some(self.self_id.clone())
    }
}

/// The answer to a FindCoordinator request.
#[derive(Debug, Clone, PartialEq, Eq)]
pub struct CoordinatorResolution {
    pub node_id: i32,
    pub host: String,
    pub port: i32,
    pub error_code: i16,
}

/// Whether `r` names that broker, or reports `code` without one.
pub open spec fn resolves(r: CoordinatorResolution, endpoint: Option<BrokerEndpoint>, code: i16) -> bool {
    match endpoint {
        Some(e) => r.node_id == e.node_id && r.host@ == e.host@ && r.port == e.port && r.error_code == 0,
        None => r.node_id == 0 && r.host@.len() == 0 && r.port == 0 && r.error_code == code,
    }
}

/// Whether `r` names the broker that a lookup may find under an id.
pub open spec fn names_found<L: BrokerLookup>(finder: L, id: Seq<char>, r: CoordinatorResolution) -> bool {
    exists|a: Option<BrokerEndpoint>| #[trigger] finder.may_answer(id, a) && resolves(r, a, COORDINATOR_NOT_AVAILABLE)
}

/// Whether `r` names the broker with that id, or reports that there is none.
pub open spec fn names_owner<L: BrokerLookup>(finder: L, owner: Option<Seq<char>>, r: CoordinatorResolution) -> bool {
    match owner {
        None => resolves(r, None, COORDINATOR_NOT_AVAILABLE),
        Some(id) => names_found(finder, id, r),
    }
}

/// The answer for a lookup's result.
pub fn resolution(endpoint: Option<BrokerEndpoint>, code: i16) -> (r: CoordinatorResolution)
    ensures
        resolves(r, endpoint, code),
{
    match endpoint {
        Some(e) => CoordinatorResolution { node_id: e.node_id, host: e.host, port: e.port, error_code: 0 },
        None => CoordinatorResolution { node_id: 0, host: String::new(), port: 0, error_code: code },
    }
}

/// The answer to a LeaveGroup request.
#[derive(Debug, Clone)]
pub struct LeaveOutcome {
    pub group_error: i16,
    pub members: Vec<(String, i16)>,
}

/// How the write of a group's file went.
#[derive(Debug, Clone, Copy, PartialEq, Eq, Structural)]
pub enum WriteOutcome {
    /// Nothing had to be written, or it was.
    Written,
    /// A newer assignment has written the file.
    Fenced,
    /// The file could not be written; it will be with the next commit.
    Failed,
}

/// What a client is told of its commit.
pub fn commit_code(outcome: WriteOutcome) -> (code: i16)
    ensures
        code == (if outcome == WriteOutcome::Fenced {
            NOT_COORDINATOR
        } else {
            error_codes::NONE
        }),
{
    match outcome {
        WriteOutcome::Fenced => NOT_COORDINATOR,
        WriteOutcome::Written => error_codes::NONE,
        WriteOutcome::Failed => error_codes::NONE,
    }
}

/// What a client is told of the offsets that it deleted: the code, and the keys
/// that went, of which none counts where the file was not written.
pub fn delete_reply(gone: Vec<String>, outcome: WriteOutcome) -> (r: (i16, Vec<String>))
    ensures
        r.0 == (if outcome == WriteOutcome::Fenced {
            NOT_COORDINATOR
        } else {
            error_codes::NONE
        }),
        order::texts(r.1@) == (if outcome == WriteOutcome::Written {
            order::texts(gone@)
        } else {
            Seq::empty()
        }),
{
    let none: Vec<String> = Vec::new();
    assert(order::texts(none@) =~= Seq::empty());
    match outcome {
        WriteOutcome::Written => (error_codes::NONE, gone),
        WriteOutcome::Fenced => (NOT_COORDINATOR, none),
        WriteOutcome::Failed => (error_codes::NONE, none),
    }
}

/// Topics with partitions as a fetch takes them.
pub fn build_fetch_specs(topics: Vec<(String, Vec<i32>)>) -> (specs: Vec<FetchSpec>)
    ensures
        offset_store::asked_rows(specs@) == topics@.map_values(|t: (String, Vec<i32>)| (t.0@, t.1@)),
{
    let ghost all = topics@;
    let mut rest: Vec<(String, Vec<i32>)> = topics;
    let mut back: Vec<FetchSpec> = Vec::new();
    while rest.len() > 0
        invariant
            rest@.len() + back@.len() == all.len(),
            rest@ == all.take(rest@.len() as int),
            forall|j: int|
                0 <= j < back@.len() ==> (#[trigger] back@[j]).topic@ == all[all.len() - 1 - j].0@ && back@[j].partitions@
                    == all[all.len() - 1 - j].1@,
        decreases rest.len(),
    {
        match rest.pop() {
            Some(t) => {
                back.push(FetchSpec { topic: t.0, partitions: t.1 });
            },
            None => {},
        }
        assert(rest@ =~= all.take(rest@.len() as int));
    }
    let mut specs: Vec<FetchSpec> = Vec::new();
    while back.len() > 0
        invariant
            specs@.len() + back@.len() == all.len(),
            forall|j: int|
                0 <= j < back@.len() ==> (#[trigger] back@[j]).topic@ == all[all.len() - 1 - j].0@ && back@[j].partitions@
                    == all[all.len() - 1 - j].1@,
            forall|j: int| 0 <= j < specs@.len() ==> (#[trigger] specs@[j]).topic@ == all[j].0@ && specs@[j].partitions@ == all[j].1@,
        decreases back.len(),
    {
        match back.pop() {
            Some(f) => {
                specs.push(f);
            },
            None => {},
        }
    }
    assert(offset_store::asked_rows(specs@) =~= all.map_values(|t: (String, Vec<i32>)| (t.0@, t.1@)));
    specs
}

/// What the file of a group gave.
pub enum FileRead {
    Read(GroupOffsets),
    /// It is there, and could not be read.
    Unreadable,
}

pub enum FileModel {
    Read(GroupOffsetsModel),
    Unreadable,
}

impl View for FileRead {
    type V = FileModel;

    open spec fn view(&self) -> FileModel {
        match *self {
            FileRead::Read(g) => FileModel::Read(g@),
            FileRead::Unreadable => FileModel::Unreadable,
        }
    }
}

pub open spec fn file_view() -> spec_fn(FileRead) -> FileModel {
    |f: FileRead| f@
}

/// What the purge of one group comes to.
pub enum PurgeStep {
    /// That many offsets went, and this is to be written.
    Write { group_id: String, count: usize, group: GroupOffsets },
    /// The group could not be looked at.
    Failed { group_id: String },
}

#[verifier::ext_equal]
pub enum StepModel {
    Write { id: Seq<char>, count: nat, group: GroupOffsetsModel },
    Failed { id: Seq<char> },
}

impl View for PurgeStep {
    type V = StepModel;

    open spec fn view(&self) -> StepModel {
        match *self {
            PurgeStep::Write { group_id, count, group } => StepModel::Write { id: group_id@, count: count as nat, group: group@ },
            PurgeStep::Failed { group_id } => StepModel::Failed { id: group_id@ },
        }
    }
}

/// The offsets of a topic among those of a group.
pub open spec fn doomed(offsets: Map<Seq<char>, i64>, topic: Seq<char>) -> Set<Seq<char>> {
    offsets.dom().intersect(offset_store::topic_keys(topic))
}

/// The store after the purge of a group: a group that is not held here stays
/// out of it.
pub open spec fn purged(m: OffsetModel, id: Seq<char>, topic: Seq<char>) -> OffsetModel {
    if m.cache.contains_key(id) && doomed(m.cache[id], topic) != Set::<Seq<char>>::empty() {
        offset_store::purge_next(m, id, topic)
    } else {
        m
    }
}

/// What the purge of a group asks for: of what is held here, else of its file.
pub open spec fn purge_step(m: OffsetModel, files: Map<Seq<char>, FileModel>, id: Seq<char>, topic: Seq<char>) -> Option<
    StepModel,
> {
    if m.cache.contains_key(id) {
        let hit = doomed(m.cache[id], topic);
        if hit == Set::<Seq<char>>::empty() {
            None
        } else {
            Some(
                StepModel::Write {
                    id,
                    count: hit.len(),
                    group: offset_store::snapshot_of(offset_store::purge_next(m, id, topic), id),
                },
            )
        }
    } else if !files.contains_key(id) {
        None
    } else {
        match files[id] {
            FileModel::Unreadable => Some(StepModel::Failed { id }),
            FileModel::Read(g) => {
                let hit = doomed(g.offsets, topic);
                if hit == Set::<Seq<char>>::empty() {
                    None
                } else {
                    Some(
                        StepModel::Write {
                            id,
                            count: hit.len(),
                            group: GroupOffsetsModel {
                                offsets: g.offsets.remove_keys(hit),
                                notes: g.notes.remove_keys(hit),
                            },
                        },
                    )
                }
            },
        }
    }
}

/// The purges of groups, one after the other: the store, and what they ask
/// for.
pub open spec fn purge_all(m: OffsetModel, files: Map<Seq<char>, FileModel>, ids: Seq<Seq<char>>, topic: Seq<char>) -> (
    OffsetModel,
    Seq<StepModel>,
)
    decreases ids.len(),
{
    if ids.len() == 0 {
        (m, Seq::empty())
    } else {
        let (n, steps) = purge_all(m, files, ids.drop_last(), topic);
        (
            purged(n, ids.last(), topic),
            match purge_step(n, files, ids.last(), topic) {
                Some(step) => steps.push(step),
                None => steps,
            },
        )
    }
}

/// How many offsets went in all.
pub open spec fn tally(done: Seq<(String, Option<usize>)>) -> int
    decreases done.len(),
{
    if done.len() == 0 {
        0
    } else {
        tally(done.drop_last()) + match done.last().1 {
            Some(n) => n as int,
            None => 0,
        }
    }
}

/// The groups whose purge failed.
pub open spec fn failures(done: Seq<(String, Option<usize>)>) -> Seq<Seq<char>>
    decreases done.len(),
{
    if done.len() == 0 {
        Seq::empty()
    } else {
        match done.last().1 {
            Some(n) => failures(done.drop_last()),
            None => failures(done.drop_last()).push(done.last().0@),
        }
    }
}

proof fn lemma_tally_grows(done: Seq<(String, Option<usize>)>, i: int)
    requires
        0 <= i <= done.len(),
    ensures
        0 <= tally(done.take(i)) <= tally(done),
    decreases done.len() - i, i,
{
    if i < done.len() {
        lemma_tally_grows(done, i + 1);
        assert(done.take(i + 1).drop_last() =~= done.take(i));
    } else {
        assert(done.take(i) =~= done);
        lemma_tally_positive(done);
    }
    lemma_tally_positive(done.take(i));
}

proof fn lemma_tally_positive(done: Seq<(String, Option<usize>)>)
    ensures
        0 <= tally(done),
    decreases done.len(),
{
    if done.len() > 0 {
        lemma_tally_positive(done.drop_last());
    }
}

/// The outcome of a purge: how many offsets went in all, and the groups that
/// failed. Each entry is a group and how many of its offsets went, or that its
/// file could not be read or written.
pub fn purge_tally(done: &Vec<(String, Option<usize>)>) -> (r: (usize, Vec<String>))
    requires
        tally(done@) <= usize::MAX,
    ensures
        r.0 == tally(done@),
        order::texts(r.1@) == failures(done@),
{
    let mut removed: usize = 0;
    let mut failed: Vec<String> = Vec::new();
    let mut i: usize = 0;
    assert(order::texts(failed@) =~= failures(done@.take(0)));
    while i < done.len()
        invariant
            i <= done@.len(),
            tally(done@) <= usize::MAX,
            removed == tally(done@.take(i as int)),
            order::texts(failed@) == failures(done@.take(i as int)),
        decreases done.len() - i,
    {
        let ghost had = failed@;
        proof {
            lemma_tally_grows(done@, i + 1);
            assert(done@.take(i + 1).drop_last() =~= done@.take(i as int));
        }
        match done[i].1 {
            Some(n) => {
                removed = removed + n;
            },
            None => {
                failed.push(done[i].0.clone());
                assert(order::texts(failed@) =~= order::texts(had).push(done@[i as int].0@));
            },
        }
        i = i + 1;
    }
    assert(done@.take(i as int) =~= done@);
    (removed, failed)
}

/// The groups of a broker and their offsets.
#[derive(Debug)]
pub struct Manager<G: GroupAssignmentSource, T: TxnAssignmentSource, L: BrokerLookup> {
    pub broker_id: BrokerId,
    pub offsets: OffsetStore,
    group_source: G,
    txn_source: Option<T>,
    lookup_broker: L,
    groups: DashMap<String, Group>,
}

pub open spec fn group_view() -> spec_fn(Group) -> GroupModel {
    |g: Group| g@
}

/// A join that the broker does not coordinate.
pub open spec fn join_elsewhere(member_id: Seq<char>) -> group::JoinModel {
    group::JoinModel {
        error_code: NOT_COORDINATOR,
        generation_id: -1i32,
        leader: Seq::empty(),
        member_id,
        protocol_type: Seq::empty(),
        protocol_name: Seq::empty(),
        members: Seq::empty(),
    }
}

/// The group under an id, new where there is none.
pub open spec fn group_at(groups: Map<Seq<char>, GroupModel>, id: Seq<char>) -> GroupModel {
    if groups.contains_key(id) {
        groups[id]
    } else {
        group::new_group(id)
    }
}

/// The ids of a set that a source assigns to this broker.
pub open spec fn owned_of<G: GroupAssignmentSource>(source: G, ids: Set<Seq<char>>) -> Set<Seq<char>> {
    ids.filter(|id: Seq<char>| source.owns(id))
}

/// Whether an answer describes a group that is asked about.
pub open spec fn describes(s: Option<GroupSnapshot>, owned: bool, groups: Map<Seq<char>, GroupModel>, id: Seq<char>) -> bool {
    match s {
        None => !owned,
        Some(x) => owned && group::shows(x, group_at(groups, id)),
    }
}

impl<G: GroupAssignmentSource, T: TxnAssignmentSource, L: BrokerLookup> Manager<G, T, L> {
    /// The groups that are held here.
    pub closed spec fn held(&self) -> Map<Seq<char>, GroupModel> {
        group_table::table(self.groups).map_values(group_view())
    }

    /// The offsets of the groups.
    pub closed spec fn stored(&self) -> OffsetModel {
        self.offsets@
    }

    pub closed spec fn name(&self) -> Seq<char> {
        self.broker_id@
    }

    pub closed spec fn source(&self) -> G {
        self.group_source
    }

    pub closed spec fn txns(&self) -> Option<T> {
        self.txn_source
    }

    pub closed spec fn finder(&self) -> L {
        self.lookup_broker
    }

    /// Whether nothing but groups and offsets differs.
    pub open spec fn same_wiring(&self, other: &Self) -> bool {
        &&& self.name() == other.name()
        &&& self.source() == other.source()
        &&& self.txns() == other.txns()
        &&& self.finder() == other.finder()
    }

    pub fn new(broker_id: BrokerId, offsets: OffsetStore, lookup_broker: L, initial_group_source: G) -> (m: Self)
        ensures
            m.name() == broker_id@,
            m.stored() == offsets@,
            m.held() == Map::<Seq<char>, GroupModel>::empty(),
            m.source() == initial_group_source,
            m.txns() is None,
            m.finder() == lookup_broker,
    {
        let m = Manager {
            broker_id,
            offsets,
            group_source: initial_group_source,
            txn_source: None,
            lookup_broker,
            groups: table_new(),
        };
        assert(m.held() =~= Map::<Seq<char>, GroupModel>::empty());
        m
    }

    pub fn set_group_assignment_source(&mut self, src: G)
        ensures
            final(self).source() == src,
            final(self).held() == old(self).held(),
            final(self).stored() == old(self).stored(),
            final(self).name() == old(self).name(),
            final(self).txns() == old(self).txns(),
            final(self).finder() == old(self).finder(),
    {
        self.group_source = src;
    }

    pub fn set_txn_assignment_source(&mut self, src: T)
        ensures
            final(self).txns() == Some(src),
            final(self).held() == old(self).held(),
            final(self).stored() == old(self).stored(),
            final(self).name() == old(self).name(),
            final(self).source() == old(self).source(),
            final(self).finder() == old(self).finder(),
    {
        self.txn_source = Some(src);
    }

    pub fn is_coordinator(&self, group_id: &str) -> (r: bool)
        ensures
            r == self.source().owns(group_id@),
    {
        self.group_source.owns_group(group_id)
    }

    /// The held groups that this broker coordinates, in no particular order.
    pub fn local_groups(&self) -> (r: Vec<String>)
        ensures
            order::texts(r@).no_duplicates(),
            order::texts(r@).to_set() == owned_of(self.source(), self.held().dom()),
    {
        let ids = self.resident_groups();
        self.owned_only(&ids)
    }

    /// The ids of a list that this broker coordinates.
    fn owned_only(&self, ids: &Vec<String>) -> (r: Vec<String>)
        requires
            order::texts(ids@).no_duplicates(),
        ensures
            order::texts(r@).no_duplicates(),
            order::texts(r@).to_set() == owned_of(self.source(), order::texts(ids@).to_set()),
            order::increasing(order::texts(ids@)) ==> order::increasing(order::texts(r@)),
    {
        let ghost all = order::texts(ids@);
        let mut r: Vec<String> = Vec::new();
        let ghost mut from: Seq<int> = Seq::empty();
        let mut i: usize = 0;
        assert(order::texts(r@).to_set() =~= owned_of(self.source(), all.take(0).to_set()));
        while i < ids.len()
            invariant
                i <= ids@.len(),
                all == order::texts(ids@),
                all.no_duplicates(),
                order::texts(r@).no_duplicates(),
                order::texts(r@).to_set() == owned_of(self.source(), all.take(i as int).to_set()),
                from.len() == r@.len(),
                forall|j: int| 0 <= j < from.len() ==> 0 <= #[trigger] from[j] < i && order::texts(r@)[j] == all[from[j]],
                forall|a: int, b: int| 0 <= a < b < from.len() ==> #[trigger] from[a] < #[trigger] from[b],
            decreases ids.len() - i,
        {
            let ghost key = all[i as int];
            let ghost before = order::texts(r@);
            proof {
                assert(all.take(i + 1) =~= all.take(i as int).push(key));
                all.take(i as int).lemma_push_to_set_commute(key);
                assert(!all.take(i as int).contains(key)) by {
                    if all.take(i as int).contains(key) {
                        let j = choose|j: int| 0 <= j < i && all.take(i as int)[j] == key;
                        assert(all[j] == all[i as int]);
                    }
                }
            }
            if self.group_source.owns_group(&ids[i]) {
                r.push(ids[i].clone());
                proof {
                    from = from.push(i as int);
                    assert(order::texts(r@) =~= before.push(key));
                    before.lemma_push_to_set_commute(key);
                    assert(!before.contains(key)) by {
                        if before.contains(key) {
                            assert(before.to_set().contains(key));
                            assert(all.take(i as int).to_set().contains(key));
                        }
                    }
                }
            }
            assert(order::texts(r@).to_set() =~= owned_of(self.source(), all.take(i + 1).to_set()));
            i = i + 1;
        }
        proof {
            assert(all.take(i as int) =~= all);
            if order::increasing(all) {
                let out = order::texts(r@);
                assert forall|a: int, b: int| 0 <= a < b < out.len() implies crate::text::text_less(#[trigger] out[a], #[trigger] out[b]) by {
                    assert(from[a] < from[b]);
                    assert(out[a] == all[from[a]] && out[b] == all[from[b]]);
                }
            }
        }
        r
    }

    /// The groups held here, coordinated by this broker or not, in no
    /// particular order.
    pub fn resident_groups(&self) -> (r: Vec<String>)
        ensures
            order::texts(r@).no_duplicates(),
            order::texts(r@).to_set() == self.held().dom(),
    {
        proof {
            keyed::lemma_mapped(group_table::table(self.groups), group_view(), Seq::empty(), arbitrary());
        }
        table_ids(&self.groups)
    }

    fn take(&mut self, group_id: &str) -> (r: Option<Group>)
        ensures
            final(self).same_wiring(old(self)),
            final(self).stored() == old(self).stored(),
            final(self).held() == old(self).held().remove(group_id@),
            match r {
                Some(g) => old(self).held().contains_key(group_id@) && g@ == old(self).held()[group_id@],
                None => !old(self).held().contains_key(group_id@),
            },
    {
        proof {
            keyed::lemma_mapped(group_table::table(self.groups), group_view(), group_id@, arbitrary());
        }
        table_take(&mut self.groups, group_id)
    }

    fn put(&mut self, group_id: &str, g: Group)
        ensures
            final(self).same_wiring(old(self)),
            final(self).stored() == old(self).stored(),
            final(self).held() == old(self).held().insert(group_id@, g@),
    {
        proof {
            keyed::lemma_mapped(group_table::table(self.groups), group_view(), group_id@, g);
        }
        table_put(&mut self.groups, group_id.to_owned(), g);
    }

    fn has(&self, group_id: &str) -> (r: bool)
        ensures
            r == self.held().contains_key(group_id@),
    {
        proof {
            keyed::lemma_mapped(group_table::table(self.groups), group_view(), group_id@, arbitrary());
        }
        table_has(&self.groups, group_id)
    }

    /// Drops a group that another broker takes over. Its offsets stay in its
    /// file.
    pub fn relinquish_group(&mut self, group_id: &str) -> (out: Vec<GroupAction>)
        ensures
            final(self).same_wiring(old(self)),
            final(self).stored() == old(self).stored(),
            final(self).held() == old(self).held().remove(group_id@),
            group::acts_of(out@) == (if old(self).held().contains_key(group_id@) {
                group::shutdown_next(old(self).held()[group_id@]).1
            } else {
                Seq::empty()
            }),
    {
        match self.take(group_id) {
            Some(gone) => {
                let mut g = gone;
                g.shutdown()
            },
            None => {
                let out: Vec<GroupAction> = Vec::new();
                assert(group::acts_of(out@) =~= Seq::empty());
                out
            },
        }
    }

    /// The generation of a group, which is that of a new one where it is not
    /// held here.
    pub fn generation_of(&self, group_id: &str) -> (n: i32)
        ensures
            n == group_at(self.held(), group_id@).generation,
    {
        proof {
            keyed::lemma_mapped(group_table::table(self.groups), group_view(), group_id@, arbitrary());
        }
        match table_describe(&self.groups, group_id) {
            Some(s) => s.generation_id,
            None => 0,
        }
    }

    /// Whether a join of this group creates it, so that its file is to be
    /// read first.
    pub fn needs_load(&self, group_id: &str) -> (r: bool)
        ensures
            r == (self.source().owns(group_id@) && !self.held().contains_key(group_id@)),
    {
        self.group_source.owns_group(group_id) && !self.has(group_id)
    }

    /// Resolves a key into the broker that coordinates it: a group for kind 0,
    /// a transaction for kind 1.
    pub fn find_coordinator(&self, key: &str, key_type: i8) -> (r: CoordinatorResolution)
        ensures
            key_type != 0 && key_type != 1 ==> resolves(r, None, INVALID_REQUEST),
            key_type == 1 && self.txns() is None ==> resolves(r, None, COORDINATOR_NOT_AVAILABLE),
            key_type == 0 ==> names_owner(self.finder(), self.source().coordinator_of(key@), r),
            key_type == 1 ==> (self.txns() matches Some(t) ==> names_owner(self.finder(), t.coordinator_for(key@), r)),
    {
        let owner: Option<BrokerId> = if key_type == 0 {
            self.group_source.group_coordinator(key)
        } else if key_type == 1 {
            match &self.txn_source {
                None => {
                    return resolution(None, COORDINATOR_NOT_AVAILABLE);
                },
                Some(s) => s.txn_coordinator(key),
            }
        } else {
            return resolution(None, INVALID_REQUEST);
        };
        let ghost name = text::opt_text(owner);
        match owner {
            None => resolution(None, COORDINATOR_NOT_AVAILABLE),
            Some(id) => {
                let endpoint = self.lookup_broker.lookup(&id);
                let ghost answer = endpoint;
                let r = resolution(endpoint, COORDINATOR_NOT_AVAILABLE);
                assert(self.finder().may_answer(id@, answer) && resolves(r, answer, COORDINATOR_NOT_AVAILABLE));
                assert(names_found(self.finder(), id@, r));
                r
            },
        }
    }

    /// A JoinGroup request. A group that is not held is created and takes in
    /// `file`, which its file holds.
    pub fn join_group(
        &mut self,
        group_id: &str,
        req: JoinRequest,
        file: Option<GroupOffsets>,
        ticket: u64,
        fresh: u64,
        now_ms: u64,
    ) -> (out: Vec<GroupAction>)
        requires
            old(self).source().owns(group_id@) && group::join_completes(group_at(old(self).held(), group_id@), req@, fresh)
                ==> group_at(old(self).held(), group_id@).generation < i32::MAX,
        ensures
            final(self).same_wiring(old(self)),
            !old(self).source().owns(group_id@) ==> {
                &&& group::acts_of(out@) == seq![group::Act::JoinReply { ticket, outcome: join_elsewhere(req@.member_id) }]
                &&& final(self).held() == old(self).held()
                &&& final(self).stored() == old(self).stored()
            },
            old(self).source().owns(group_id@) ==> {
                let step = group::join_next(group_at(old(self).held(), group_id@), req@, ticket, fresh, now_ms);
                &&& group::acts_of(out@) == step.1
                &&& final(self).held() == old(self).held().insert(group_id@, step.0)
                &&& final(self).stored() == (match file {
                    Some(f) => if old(self).held().contains_key(group_id@) {
                        old(self).stored()
                    } else {
                        offset_store::load_next(old(self).stored(), group_id@, f@)
                    },
                    None => old(self).stored(),
                })
            },
    {
        if !self.group_source.owns_group(group_id) {
            let outcome = JoinOutcome {
                error_code: NOT_COORDINATOR,
                generation_id: -1,
                leader: String::new(),
                member_id: req.member_id,
                protocol_type: String::new(),
                protocol_name: String::new(),
                members: Vec::new(),
            };
            proof {
                assert(outcome@ =~= join_elsewhere(req@.member_id)) by {
                    assert(group::joined_of(outcome.members@) =~= Seq::empty());
                }
            }
            let mut out: Vec<GroupAction> = Vec::new();
            out.push(GroupAction::JoinReply { ticket, outcome });
            assert(group::acts_of(out@) =~= seq![group::Act::JoinReply { ticket, outcome: join_elsewhere(req@.member_id) }]);
            return out;
        }
        let mut g: Group = match self.take(group_id) {
            Some(g) => g,
            None => {
                match file {
                    Some(f) => {
                        self.offsets.load(group_id, f);
                    },
                    None => {},
                }
                Group::new(group_id.to_owned())
            },
        };
        let out = g.join(req, ticket, fresh, now_ms);
        self.put(group_id, g);
        assert(self.held() =~= old(self).held().insert(group_id@, g@));
        out
    }

    /// A SyncGroup request.
    pub fn sync_group(&mut self, group_id: &str, req: SyncRequest, ticket: u64) -> (out: Vec<GroupAction>)
        ensures
            final(self).same_wiring(old(self)),
            final(self).stored() == old(self).stored(),
            ({
                let known = old(self).held().contains_key(group_id@);
                if !old(self).source().owns(group_id@) || !known {
                    &&& final(self).held() == old(self).held()
                    &&& group::acts_of(out@) == seq![
                        group::Act::SyncReply {
                            ticket,
                            reply: group::sync_failed(
                                if !old(self).source().owns(group_id@) {
                                    NOT_COORDINATOR
                                } else {
                                    error_codes::UNKNOWN_MEMBER_ID
                                },
                            ),
                        },
                    ]
                } else {
                    let step = group::sync_next(old(self).held()[group_id@], req@, ticket);
                    &&& final(self).held() == old(self).held().insert(group_id@, step.0)
                    &&& group::acts_of(out@) == step.1
                }
            }),
    {
        if !self.group_source.owns_group(group_id) {
            return sync_error_reply(ticket, NOT_COORDINATOR);
        }
        match self.take(group_id) {
            None => {
                assert(self.held() =~= old(self).held());
                sync_error_reply(ticket, error_codes::UNKNOWN_MEMBER_ID)
            },
            Some(taken) => {
                let mut g = taken;
                let out = g.sync(req, ticket);
                self.put(group_id, g);
                assert(self.held() =~= old(self).held().insert(group_id@, g@));
                out
            },
        }
    }

    pub fn heartbeat(&mut self, group_id: &str, req: HeartbeatRequest) -> (r: (i16, Vec<GroupAction>))
        ensures
            final(self).same_wiring(old(self)),
            final(self).stored() == old(self).stored(),
            final(self).held() == old(self).held(),
            r.0 == (if !old(self).source().owns(group_id@) {
                NOT_COORDINATOR
            } else if !old(self).held().contains_key(group_id@) {
                error_codes::UNKNOWN_MEMBER_ID
            } else {
                group::heartbeat_code(old(self).held()[group_id@], req.member_id@, req.generation_id)
            }),
            group::acts_of(r.1@) == (if old(self).source().owns(group_id@) && old(self).held().contains_key(group_id@) {
                group::heartbeat_acts(old(self).held()[group_id@], req.member_id@, req.generation_id)
            } else {
                Seq::empty()
            }),
    {
        let none: Vec<GroupAction> = Vec::new();
        assert(group::acts_of(none@) =~= Seq::empty());
        if !self.group_source.owns_group(group_id) {
            return (NOT_COORDINATOR, none);
        }
        match self.take(group_id) {
            None => {
                assert(self.held() =~= old(self).held());
                (error_codes::UNKNOWN_MEMBER_ID, none)
            },
            Some(taken) => {
                let mut g = taken;
                let r = g.heartbeat(req);
                self.put(group_id, g);
                assert(self.held() =~= old(self).held());
                r
            },
        }
    }

    pub fn leave_group(&mut self, group_id: &str, member_ids: &[String]) -> (r: (LeaveOutcome, Vec<GroupAction>))
        ensures
            final(self).same_wiring(old(self)),
            final(self).stored() == old(self).stored(),
            r.0.group_error == (if old(self).source().owns(group_id@) {
                error_codes::NONE
            } else {
                NOT_COORDINATOR
            }),
            if old(self).source().owns(group_id@) && old(self).held().contains_key(group_id@) {
                let step = group::leave_next(old(self).held()[group_id@], order::texts(member_ids@));
                &&& final(self).held() == old(self).held().insert(group_id@, step.0)
                &&& group::acts_of(r.1@) == step.1
                &&& r.0.members@.map_values(|p: (String, i16)| p.0@) == order::texts(member_ids@)
                &&& r.0.members@.map_values(|p: (String, i16)| p.1) == step.2
            } else {
                &&& final(self).held() == old(self).held()
                &&& r.0.members@.len() == 0
                &&& group::acts_of(r.1@) == Seq::<group::Act>::empty()
            },
    {
        let none: Vec<GroupAction> = Vec::new();
        assert(group::acts_of(none@) =~= Seq::empty());
        if !self.group_source.owns_group(group_id) {
            return (LeaveOutcome { group_error: NOT_COORDINATOR, members: Vec::new() }, none);
        }
        match self.take(group_id) {
            None => {
                assert(self.held() =~= old(self).held());
                (LeaveOutcome { group_error: error_codes::NONE, members: Vec::new() }, none)
            },
            Some(taken) => {
                let mut g = taken;
                let (members, out) = g.leave(member_ids);
                self.put(group_id, g);
                assert(self.held() =~= old(self).held().insert(group_id@, g@));
                (LeaveOutcome { group_error: error_codes::NONE, members }, out)
            },
        }
    }

    /// The session timer of a member ran out.
    pub fn session_expired(&mut self, group_id: &str, member_id: &str) -> (out: Vec<GroupAction>)
        ensures
            final(self).same_wiring(old(self)),
            final(self).stored() == old(self).stored(),
            if old(self).held().contains_key(group_id@) {
                let step = group::expired_next(old(self).held()[group_id@], member_id@);
                final(self).held() == old(self).held().insert(group_id@, step.0) && group::acts_of(out@) == step.1
            } else {
                final(self).held() == old(self).held() && group::acts_of(out@) == Seq::<group::Act>::empty()
            },
    {
        match self.take(group_id) {
            None => {
                assert(self.held() =~= old(self).held());
                let none: Vec<GroupAction> = Vec::new();
                assert(group::acts_of(none@) =~= Seq::empty());
                none
            },
            Some(taken) => {
                let mut g = taken;
                let out = g.session_expired(member_id);
                self.put(group_id, g);
                assert(self.held() =~= old(self).held().insert(group_id@, g@));
                out
            },
        }
    }

    /// The rebalance timer of a group ran out.
    pub fn rebalance_timer_fired(&mut self, group_id: &str) -> (out: Vec<GroupAction>)
        requires
            group::timer_completes(group_at(old(self).held(), group_id@)) ==> group_at(old(self).held(), group_id@).generation
                < i32::MAX,
        ensures
            final(self).same_wiring(old(self)),
            final(self).stored() == old(self).stored(),
            if old(self).held().contains_key(group_id@) {
                let step = group::timer_next(old(self).held()[group_id@]);
                final(self).held() == old(self).held().insert(group_id@, step.0) && group::acts_of(out@) == step.1
            } else {
                final(self).held() == old(self).held() && group::acts_of(out@) == Seq::<group::Act>::empty()
            },
    {
        match self.take(group_id) {
            None => {
                assert(self.held() =~= old(self).held());
                let none: Vec<GroupAction> = Vec::new();
                assert(group::acts_of(none@) =~= Seq::empty());
                none
            },
            Some(taken) => {
                let mut g = taken;
                let out = g.rebalance_timer_fired();
                self.put(group_id, g);
                assert(self.held() =~= old(self).held().insert(group_id@, g@));
                out
            },
        }
    }

    /// An OffsetCommit request: the code where it is refused, else what has to
    /// be written, if anything.
    pub fn offset_commit(&mut self, group_id: &str, offsets: &TextMap<i64>, metadata: &TextMap<String>) -> (r: Result<
        Option<GroupOffsets>,
        i16,
    >)
        ensures
            final(self).same_wiring(old(self)),
            final(self).held() == old(self).held(),
            match r {
                Err(code) => !old(self).source().owns(group_id@) && code == NOT_COORDINATOR && final(self).stored()
                    == old(self).stored(),
                Ok(w) => {
                    let notes = offset_store::note_map(metadata@);
                    &&& old(self).source().owns(group_id@)
                    &&& final(self).stored() == offset_store::commit_next(old(self).stored(), group_id@, offsets@, notes)
                    &&& w is Some <==> offset_store::commit_writes(old(self).stored(), group_id@, offsets@, notes)
                    &&& w matches Some(g) ==> g@ == offset_store::snapshot_of(final(self).stored(), group_id@)
                },
            },
    {
        if !self.group_source.owns_group(group_id) {
            return Err(NOT_COORDINATOR);
        }
        Ok(self.offsets.commit_with_metadata(group_id, offsets, metadata))
    }

    /// The offsets and notes asked about; none where the broker does not
    /// coordinate the group.
    pub fn offset_fetch(&self, group_id: &str, specs: &[FetchSpec]) -> (r: Option<(TextMap<i64>, TextMap<String>)>)
        ensures
            match r {
                None => !self.source().owns(group_id@),
                Some((offsets, notes)) => {
                    let asked = offset_store::asked_keys(offset_store::asked_rows(specs@)).to_set();
                    &&& self.source().owns(group_id@)
                    &&& offsets@.dom() == asked
                    &&& forall|k: Seq<char>| offsets@.contains_key(k) ==> #[trigger] offsets@[k] == offset_store::committed_offset(
                        self.stored(),
                        group_id@,
                        k,
                    )
                    &&& offset_store::note_map(notes@) == offset_store::notes_of(self.stored(), group_id@).restrict(asked)
                },
            },
    {
        if !self.group_source.owns_group(group_id) {
            return None;
        }
        Some((self.offsets.fetch(group_id, specs), self.offsets.fetch_metadata(group_id, specs)))
    }

    /// A DeleteGroups request for one group. On success the group's file is to
    /// be removed.
    pub fn delete_group(&mut self, group_id: &str) -> (r: (i16, Vec<GroupAction>))
        ensures
            final(self).same_wiring(old(self)),
            ({
                let known = old(self).held().contains_key(group_id@);
                let state = old(self).held()[group_id@].state;
                let idle = state == GroupState::Empty || state == GroupState::Dead;
                let code = if !old(self).source().owns(group_id@) {
                    NOT_COORDINATOR
                } else if !known && !old(self).stored().cache.contains_key(group_id@) {
                    GROUP_ID_NOT_FOUND
                } else if known && !idle {
                    NON_EMPTY_GROUP
                } else {
                    error_codes::NONE
                };
                &&& r.0 == code
                &&& code != error_codes::NONE ==> final(self).held() == old(self).held() && final(self).stored() == old(
                    self,
                ).stored() && group::acts_of(r.1@) == Seq::<group::Act>::empty()
                &&& code == error_codes::NONE ==> final(self).held() == old(self).held().remove(group_id@)
                    && final(self).stored() == offset_store::delete_next(old(self).stored(), group_id@) && group::acts_of(
                    r.1@,
                ) == (if known {
                    group::shutdown_next(old(self).held()[group_id@]).1
                } else {
                    Seq::empty()
                })
            }),
    {
        let none: Vec<GroupAction> = Vec::new();
        assert(group::acts_of(none@) =~= Seq::empty());
        if !self.group_source.owns_group(group_id) {
            return (NOT_COORDINATOR, none);
        }
        if !self.has(group_id) && !self.offsets.has_group(group_id) {
            return (GROUP_ID_NOT_FOUND, none);
        }
        let out: Vec<GroupAction> = match self.take(group_id) {
            None => none,
            Some(taken) => {
                let mut g = taken;
                let state = g.state();
                if state != GroupState::Empty && state != GroupState::Dead {
                    self.put(group_id, g);
                    assert(self.held() =~= old(self).held());
                    return (NON_EMPTY_GROUP, none);
                }
                g.shutdown()
            },
        };
        self.offsets.delete(group_id);
        (error_codes::NONE, out)
    }

    /// An OffsetDelete request: the code where it is refused, else the keys
    /// that went and what is to be written; none of either where the group is
    /// not held.
    pub fn delete_offsets(&mut self, group_id: &str, keys: &[String]) -> (r: Result<
        Option<(Vec<String>, GroupOffsets)>,
        i16,
    >)
        ensures
            final(self).same_wiring(old(self)),
            final(self).held() == old(self).held(),
            match r {
                Err(code) => !old(self).source().owns(group_id@) && code == NOT_COORDINATOR && final(self).stored()
                    == old(self).stored(),
                Ok(None) => old(self).source().owns(group_id@) && !old(self).stored().cache.contains_key(group_id@)
                    && final(self).stored() == old(self).stored(),
                Ok(Some((gone, left))) => {
                    let hit = offset_store::offsets_of(old(self).stored(), group_id@).dom().intersect(
                        order::texts(keys@).to_set(),
                    );
                    &&& old(self).source().owns(group_id@)
                    &&& old(self).stored().cache.contains_key(group_id@)
                    &&& order::texts(gone@).no_duplicates()
                    &&& order::texts(gone@).to_set() == hit
                    &&& final(self).stored() == offset_store::without_keys(old(self).stored(), group_id@, hit)
                    &&& left@ == offset_store::snapshot_of(final(self).stored(), group_id@)
                },
            },
    {
        if !self.group_source.owns_group(group_id) {
            return Err(NOT_COORDINATOR);
        }
        Ok(self.offsets.delete_partitions(group_id, keys))
    }

    /// The groups out of which a deleted topic is to be purged, in string
    /// order: those with a file and those held here, as far as this broker
    /// coordinates them.
    pub fn groups_to_purge(&self, on_disk: &Vec<String>) -> (r: Vec<String>)
        ensures
            order::texts(r@) == order::in_order(
                owned_of(self.source(), order::texts(on_disk@).to_set().union(self.held().dom())),
            ),
            order::increasing(order::texts(r@)),
    {
        let resident = self.resident_groups();
        let mut names: Vec<String> = Vec::new();
        let ghost disk = order::texts(on_disk@);
        let ghost here = order::texts(resident@);
        let mut i: usize = 0;
        assert(order::texts(names@).to_set() =~= disk.take(0).to_set());
        while i < on_disk.len()
            invariant
                i <= on_disk@.len(),
                disk == order::texts(on_disk@),
                order::increasing(order::texts(names@)),
                order::texts(names@).to_set() == disk.take(i as int).to_set(),
            decreases on_disk.len() - i,
        {
            proof {
                assert(disk.take(i + 1) =~= disk.take(i as int).push(disk[i as int]));
                disk.take(i as int).lemma_push_to_set_commute(disk[i as int]);
            }
            order::insert_name(&mut names, on_disk[i].clone());
            i = i + 1;
        }
        assert(disk.take(i as int) =~= disk);
        let mut j: usize = 0;
        assert(order::texts(names@).to_set() =~= disk.to_set().union(here.take(0).to_set()));
        while j < resident.len()
            invariant
                j <= resident@.len(),
                here == order::texts(resident@),
                order::increasing(order::texts(names@)),
                order::texts(names@).to_set() == disk.to_set().union(here.take(j as int).to_set()),
            decreases resident.len() - j,
        {
            proof {
                assert(here.take(j + 1) =~= here.take(j as int).push(here[j as int]));
                here.take(j as int).lemma_push_to_set_commute(here[j as int]);
            }
            order::insert_name(&mut names, resident[j].clone());
            assert(order::texts(names@).to_set() =~= disk.to_set().union(here.take(j + 1).to_set()));
            j = j + 1;
        }
        proof {
            assert(here.take(j as int) =~= here);
            order::lemma_increasing_distinct(order::texts(names@));
        }
        let r = self.owned_only(&names);
        proof {
            order::lemma_in_order(order::texts(r@));
        }
        r
    }

    /// Drops every offset of a deleted topic from the groups that this broker
    /// coordinates, held here or with a file alone. Returns what is to be
    /// written, group by group in string order.
    pub fn purge_topic_offsets(&mut self, topic: &str, files: TextMap<FileRead>) -> (steps: Vec<PurgeStep>)
        ensures
            final(self).same_wiring(old(self)),
            final(self).held() == old(self).held(),
            ({
                let ids = order::in_order(owned_of(old(self).source(), files@.dom().union(old(self).held().dom())));
                let (m, all) = purge_all(old(self).stored(), files@.map_values(file_view()), ids, topic@);
                final(self).stored() == m && steps@.map_values(|p: PurgeStep| p@) == all
            }),
    {
        let on_disk = files.sorted_keys();
        let groups = self.groups_to_purge(&on_disk);
        let ghost ids = order::texts(groups@);
        let ghost fm = files@.map_values(file_view());
        let ghost m = self.stored();
        let mut files = files;
        let mut steps: Vec<PurgeStep> = Vec::new();
        let mut i: usize = 0;
        proof {
            order::lemma_increasing_distinct(ids);
            assert(ids.take(0) =~= Seq::empty());
            assert(steps@.map_values(|p: PurgeStep| p@) =~= Seq::empty());
        }
        while i < groups.len()
            invariant
                i <= groups@.len(),
                ids == order::texts(groups@),
                ids.no_duplicates(),
                self.same_wiring(old(self)),
                self.held() == old(self).held(),
                self.stored() == purge_all(m, fm, ids.take(i as int), topic@).0,
                steps@.map_values(|p: PurgeStep| p@) == purge_all(m, fm, ids.take(i as int), topic@).1,
                forall|j: int|
                    i <= j < ids.len() ==> (#[trigger] fm.contains_key(ids[j])) == files@.contains_key(ids[j]) && (
                    files@.contains_key(ids[j]) ==> files@[ids[j]]@ == fm[ids[j]]),
            decreases groups.len() - i,
        {
            let ghost id = ids[i as int];
            let ghost now = self.stored();
            let ghost before = steps@;
            proof {
                assert(ids.take(i + 1).drop_last() =~= ids.take(i as int));
                assert(ids.take(i + 1).last() == id);
                assert(fm.contains_key(id) == files@.contains_key(id));
            }
            let ghost left = files@;
            let group_id = &groups[i];
            match self.offsets.purge_topic(group_id, topic) {
                Purge::NotHeld => {
                    match files.remove(group_id) {
                        None => {},
                        Some(FileRead::Unreadable) => {
                            steps.push(PurgeStep::Failed { group_id: group_id.clone() });
                        },
                        Some(FileRead::Read(file)) => {
                            match purge_file(file, topic) {
                                None => {},
                                Some((count, group)) => {
                                    steps.push(PurgeStep::Write { group_id: group_id.clone(), count, group });
                                },
                            }
                        },
                    }
                },
                Purge::Nothing => {},
                Purge::Write { count, group } => {
                    steps.push(PurgeStep::Write { group_id: group_id.clone(), count, group });
                },
            }
            proof {
                match purge_step(now, fm, id, topic@) {
                    Some(step) => {
                        assert(steps@.map_values(|p: PurgeStep| p@) =~= before.map_values(|p: PurgeStep| p@).push(step));
                    },
                    None => {
                        assert(steps@ == before);
                    },
                }
                assert forall|j: int| i + 1 <= j < ids.len() implies (#[trigger] fm.contains_key(ids[j])) == files@.contains_key(ids[j])
                    && (files@.contains_key(ids[j]) ==> files@[ids[j]]@ == fm[ids[j]]) by {
                    assert(ids[j] != id);
                    assert(files@ == left || files@ == left.remove(id));
                }
            }
            i = i + 1;
        }
        assert(ids.take(i as int) =~= ids);
        steps
    }

    /// The groups held here that this broker coordinates, in no particular
    /// order.
    pub fn list_groups(&self) -> (r: Vec<GroupSnapshot>)
        ensures
            exists|ids: Seq<Seq<char>>|
                #![trigger ids.to_set()]
                ids.no_duplicates() && ids.to_set() == owned_of(self.source(), self.held().dom()) && ids.len() == r@.len()
                    && forall|i: int| 0 <= i < ids.len() ==> group::shows(#[trigger] r@[i], self.held()[ids[i]]),
    {
        let ids = self.local_groups();
        let ghost names = order::texts(ids@);
        proof {
            keyed::lemma_mapped(group_table::table(self.groups), group_view(), Seq::empty(), arbitrary());
        }
        let mut r: Vec<GroupSnapshot> = Vec::new();
        let mut i: usize = 0;
        while i < ids.len()
            invariant
                i <= ids@.len(),
                names == order::texts(ids@),
                names.to_set() == owned_of(self.source(), self.held().dom()),
                r@.len() == i,
                forall|j: int| 0 <= j < i ==> group::shows(#[trigger] r@[j], self.held()[names[j]]),
            decreases ids.len() - i,
        {
            proof {
                assert(names[i as int] == ids@[i as int]@);
                assert(names.to_set().contains(names[i as int]));
                keyed::lemma_mapped(group_table::table(self.groups), group_view(), names[i as int], arbitrary());
            }
            match table_describe(&self.groups, &ids[i]) {
                Some(s) => {
                    r.push(s);
                },
                None => {},
            }
            i = i + 1;
        }
        assert(names.no_duplicates() && names.to_set() == owned_of(self.source(), self.held().dom()) && names.len() == r@.len());
        r
    }

    /// The groups asked about, each as it is; one that is not held is an empty
    /// group, and one that the broker does not coordinate is none.
    pub fn describe_groups(&self, ids: &[String]) -> (r: Vec<Option<GroupSnapshot>>)
        ensures
            r@.len() == ids@.len(),
            forall|i: int|
                0 <= i < ids@.len() ==> describes(
                    #[trigger] r@[i],
                    self.source().owns(ids@[i]@),
                    self.held(),
                    ids@[i]@,
                ),
    {
        let mut r: Vec<Option<GroupSnapshot>> = Vec::new();
        let mut i: usize = 0;
        while i < ids.len()
            invariant
                i <= ids@.len(),
                r@.len() == i,
                forall|j: int|
                    0 <= j < i ==> describes(#[trigger] r@[j], self.source().owns(ids@[j]@), self.held(), ids@[j]@),
            decreases ids.len() - i,
        {
            let id = &ids[i];
            proof {
                keyed::lemma_mapped(group_table::table(self.groups), group_view(), id@, arbitrary());
            }
            if !self.group_source.owns_group(id) {
                r.push(None);
            } else {
                match table_describe(&self.groups, id) {
                    Some(s) => {
                        r.push(Some(s));
                    },
                    None => {
                        r.push(Some(Group::new(id.clone()).describe()));
                    },
                }
            }
            i = i + 1;
        }
        r
    }
}

fn sync_error_reply(ticket: u64, code: i16) -> (out: Vec<GroupAction>)
    ensures
        group::acts_of(out@) == seq![group::Act::SyncReply { ticket, reply: group::sync_failed(code) }],
{
    let reply = SyncOutcome {
        error_code: code,
        protocol_type: String::new(),
        protocol_name: String::new(),
        assignment: Vec::new(),
    };
    assert(reply@ =~= group::sync_failed(code));
    let mut out: Vec<GroupAction> = Vec::new();
    out.push(GroupAction::SyncReply { ticket, reply });
    assert(group::acts_of(out@) =~= seq![group::Act::SyncReply { ticket, reply: group::sync_failed(code) }]);
    out
}

// Laws.

/// A purge leaves the groups alone that it is not about: what is held of a group
/// that this broker does not coordinate stays as it is.
pub proof fn law_purge_spares_other_groups(
    m: OffsetModel,
    files: Map<Seq<char>, FileModel>,
    ids: Seq<Seq<char>>,
    topic: Seq<char>,
    group: Seq<char>,
)
    requires
        !ids.contains(group),
    ensures
        purge_all(m, files, ids, topic).0.cache.contains_key(group) == m.cache.contains_key(group),
        offset_store::snapshot_of(purge_all(m, files, ids, topic).0, group) == offset_store::snapshot_of(m, group),
    decreases ids.len(),
{
    if ids.len() > 0 {
        assert forall|i: int| 0 <= i < ids.drop_last().len() implies #[trigger] ids.drop_last()[i] != group by {
            assert(ids[i] != group);
        }
        law_purge_spares_other_groups(m, files, ids.drop_last(), topic, group);
        assert(ids[ids.len() - 1] != group);
    }
}

/// After a purge no offset of the topic is held of any group that it is about,
/// and the other offsets stay.
pub proof fn law_purge_forgets_the_topic(
    m: OffsetModel,
    files: Map<Seq<char>, FileModel>,
    ids: Seq<Seq<char>>,
    topic: Seq<char>,
    group: Seq<char>,
    key: Seq<char>,
)
    requires
        ids.contains(group),
        m.cache.contains_key(group),
    ensures
        ({
            let after = purge_all(m, files, ids, topic).0;
            &&& after.cache.contains_key(group)
            &&& after.cache[group].contains_key(key) == (m.cache[group].contains_key(key) && !offset_store::has_topic(key, topic))
            &&& after.cache[group].contains_key(key) ==> after.cache[group][key] == m.cache[group][key]
        }),
    decreases ids.len(),
{
    let before = ids.drop_last();
    let n = purge_all(m, files, before, topic).0;
    if before.contains(group) {
        law_purge_forgets_the_topic(m, files, before, topic, group, key);
    } else {
        law_purge_spares_other_groups(m, files, before, topic, group);
        let i = choose|i: int| 0 <= i < ids.len() && ids[i] == group;
        if i < before.len() {
            assert(before[i] == group);
        }
        assert(ids.last() == group);
    }
    let hit = doomed(n.cache[group], topic);
    if ids.last() == group && hit == Set::<Seq<char>>::empty() {
        assert(!hit.contains(key));
    }
}

} // verus!
