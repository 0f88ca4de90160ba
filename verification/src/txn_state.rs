//! Transaction coordinator: what is known of every transactional producer.
//!
//! Entries are spread over slots by the hash of the transactional id. A slot
//! is written as a whole; `dirty` marks the slots that changed since they
//! were last written.

use vstd::prelude::*;
use vstd::utf8;
use crate::keyed::TextMap;
use crate::order;
use crate::text::text_eq;

verus! {

/// Number of slots of a cluster. It is part of the layout on disk.
pub const DEFAULT_NUM_SLOTS: usize = 50;

#[derive(Debug, Clone, Copy, PartialEq, Eq, Structural)]
pub enum TxnState {
    /// No transaction.
    Empty,
    /// Partitions or groups have been added.
    Ongoing,
    /// Commit accepted, markers owed.
    PrepareCommit,
    /// Abort accepted, markers owed.
    PrepareAbort,
    CompleteCommit,
    CompleteAbort,
}

impl Default for TxnState {
    fn default() -> (s: Self)
        ensures
            s == TxnState::Empty,
    {
        TxnState::Empty
    }
}

impl TxnState {
    pub fn is_empty(&self) -> (r: bool)
        ensures
            r == (*self == TxnState::Empty),
    {
        match self {
            TxnState::Empty => true,
            _ => false,
        }
    }
}

/// Partitions of one topic in a transaction.
#[derive(Debug, PartialEq, Eq)]
pub struct TxnTopic {
    pub topic: String,
    pub partitions: Vec<i32>,
}

#[verifier::ext_equal]
pub struct TopicParts {
    pub topic: Seq<char>,
    pub partitions: Seq<i32>,
}

impl View for TxnTopic {
    type V = TopicParts;

    open spec fn view(&self) -> TopicParts {
        TopicParts { topic: self.topic@, partitions: self.partitions@ }
    }
}

pub open spec fn parts_of(s: Seq<TxnTopic>) -> Seq<TopicParts> {
    s.map_values(|t: TxnTopic| t@)
}

pub fn copy_numbers(v: &Vec<i32>) -> (r: Vec<i32>)
    ensures
        r@ == v@,
{
    let mut r: Vec<i32> = Vec::new();
    let mut i: usize = 0;
    while i < v.len()
        invariant
            i <= v@.len(),
            r@ == v@.take(i as int),
        decreases v.len() - i,
    {
        r.push(v[i]);
        i = i + 1;
        assert(r@ =~= v@.take(i as int));
    }
    assert(v@.take(i as int) =~= v@);
    r
}

impl Clone for TxnTopic {
    fn clone(&self) -> (r: Self)
        ensures
            r@ == self@,
    {
        TxnTopic { topic: self.topic.clone(), partitions: copy_numbers(&self.partitions) }
    }
}

pub fn copy_parts(v: &Vec<TxnTopic>) -> (r: Vec<TxnTopic>)
    ensures
        parts_of(r@) == parts_of(v@),
{
    let mut r: Vec<TxnTopic> = Vec::new();
    let mut i: usize = 0;
    while i < v.len()
        invariant
            i <= v@.len(),
            r@.len() == i,
            forall|j: int| 0 <= j < i ==> (#[trigger] r@[j])@ == v@[j]@,
        decreases v.len() - i,
    {
        r.push(v[i].clone());
        i = i + 1;
    }
    assert(parts_of(r@) =~= parts_of(v@));
    r
}

pub fn copy_texts(v: &Vec<String>) -> (r: Vec<String>)
    ensures
        order::texts(r@) == order::texts(v@),
{
    let mut r: Vec<String> = Vec::new();
    let mut i: usize = 0;
    while i < v.len()
        invariant
            i <= v@.len(),
            r@.len() == i,
            forall|j: int| 0 <= j < i ==> (#[trigger] r@[j])@ == v@[j]@,
        decreases v.len() - i,
    {
        r.push(v[i].clone());
        i = i + 1;
    }
    assert(order::texts(r@) =~= order::texts(v@));
    r
}

/// What is known of one transactional producer.
#[derive(Debug, PartialEq, Eq)]
pub struct TxnEntry {
    pub pid: i64,
    pub epoch: i16,
    pub partitions: Vec<TxnTopic>,
    /// When the transaction began, in milliseconds; zero unless it is ongoing.
    pub ongoing_since_ms: i64,
    pub transaction_timeout_ms: i32,
    pub state: TxnState,
    pub groups: Vec<String>,
}

#[verifier::ext_equal]
pub struct EntryModel {
    pub pid: i64,
    pub epoch: i16,
    pub partitions: Seq<TopicParts>,
    pub since: i64,
    pub timeout: i32,
    pub state: TxnState,
    pub groups: Seq<Seq<char>>,
}

impl View for TxnEntry {
    type V = EntryModel;

    open spec fn view(&self) -> EntryModel {
        EntryModel {
            pid: self.pid,
            epoch: self.epoch,
            partitions: parts_of(self.partitions@),
            since: self.ongoing_since_ms,
            timeout: self.transaction_timeout_ms,
            state: self.state,
            groups: order::texts(self.groups@),
        }
    }
}

impl Clone for TxnEntry {
    fn clone(&self) -> (r: Self)
        ensures
            r@ == self@,
    {
        TxnEntry {
            pid: self.pid,
            epoch: self.epoch,
            partitions: copy_parts(&self.partitions),
            ongoing_since_ms: self.ongoing_since_ms,
            transaction_timeout_ms: self.transaction_timeout_ms,
            state: self.state,
            groups: copy_texts(&self.groups),
        }
    }
}

/// A transaction that still owes its partitions a marker.
#[derive(Debug, Clone, PartialEq, Eq)]
pub struct PendingMarkerDispatch {
    pub txn_id: String,
    pub pid: i64,
    pub epoch: i16,
    /// Whether the markers commit.
    pub commit: bool,
    pub partitions: Vec<TxnTopic>,
}

#[verifier::ext_equal]
pub struct PendingModel {
    pub txn_id: Seq<char>,
    pub pid: i64,
    pub epoch: i16,
    pub commit: bool,
    pub partitions: Seq<TopicParts>,
}

impl View for PendingMarkerDispatch {
    type V = PendingModel;

    open spec fn view(&self) -> PendingModel {
        PendingModel {
            txn_id: self.txn_id@,
            pid: self.pid,
            epoch: self.epoch,
            commit: self.commit,
            partitions: parts_of(self.partitions@),
        }
    }
}

/// A transaction that was aborted because it ran out of time.
#[derive(Debug, Clone, PartialEq, Eq)]
pub struct TxnAbortRecord {
    pub txn_id: String,
    pub pid: i64,
    pub old_epoch: i16,
    pub new_epoch: i16,
    pub groups: Vec<String>,
}

#[verifier::ext_equal]
pub struct AbortModel {
    pub txn_id: Seq<char>,
    pub pid: i64,
    pub old_epoch: i16,
    pub new_epoch: i16,
    pub groups: Seq<Seq<char>>,
}

impl View for TxnAbortRecord {
    type V = AbortModel;

    open spec fn view(&self) -> AbortModel {
        AbortModel {
            txn_id: self.txn_id@,
            pid: self.pid,
            old_epoch: self.old_epoch,
            new_epoch: self.new_epoch,
            groups: order::texts(self.groups@),
        }
    }
}

/// Where the markers of a transaction that ends have to go.
#[derive(Debug, Clone, PartialEq, Eq)]
pub struct EndTxnOutcome {
    pub partitions: Vec<TxnTopic>,
    pub groups: Vec<String>,
    /// Whether there is anything to do.
    pub transition_fired: bool,
}

#[verifier::ext_equal]
pub struct OutcomeModel {
    pub partitions: Seq<TopicParts>,
    pub groups: Seq<Seq<char>>,
    pub fired: bool,
}

impl View for EndTxnOutcome {
    type V = OutcomeModel;

    open spec fn view(&self) -> OutcomeModel {
        OutcomeModel {
            partitions: parts_of(self.partitions@),
            groups: order::texts(self.groups@),
            fired: self.transition_fired,
        }
    }
}

impl Default for EndTxnOutcome {
    fn default() -> (o: Self)
        ensures
            o@ == nothing_to_do(),
    {
        let o = EndTxnOutcome { partitions: Vec::new(), groups: Vec::new(), transition_fired: false };
        assert(o@ =~= nothing_to_do());
        o
    }
}

pub open spec fn nothing_to_do() -> OutcomeModel {
    OutcomeModel { partitions: Seq::empty(), groups: Seq::empty(), fired: false }
}

/// Learns that a transaction ended: the offsets that the producer staged for
/// the group become visible, or are dropped.
pub trait TxnOffsetHook {
    fn on_end_txn(&self, group_id: &str, producer_id: i64, commit: bool);
}

/// One call of the offset hook that is due.
#[derive(Debug, PartialEq, Eq)]
pub struct OffsetSignal {
    pub group_id: String,
    pub producer_id: i64,
    pub commit: bool,
}

#[verifier::ext_equal]
pub struct SignalModel {
    pub group_id: Seq<char>,
    pub producer_id: i64,
    pub commit: bool,
}

impl View for OffsetSignal {
    type V = SignalModel;

    open spec fn view(&self) -> SignalModel {
        SignalModel { group_id: self.group_id@, producer_id: self.producer_id, commit: self.commit }
    }
}

pub open spec fn signals_of(s: Seq<OffsetSignal>) -> Seq<SignalModel> {
    s.map_values(|x: OffsetSignal| x@)
}

/// Why a request on a transaction fails.
#[derive(Debug, PartialEq, Eq)]
pub enum TxnStateError {
    EmptyTxnId,
    /// No such transactional id, or another producer id.
    UnknownProducer,
    EpochFenced,
    Concurrent,
    InvalidState,
    /// The slot could not be read or written.
    Io(String),
    /// The slot could not be understood.
    Decode(String),
}

impl TxnStateError {
    /// The error in words.
    pub fn message(&self) -> (s: String)
        ensures
            s@ == (match self {
                TxnStateError::EmptyTxnId => "txn state: empty transactional id"@,
                TxnStateError::UnknownProducer => "txn state: unknown txn id or pid mismatch"@,
                TxnStateError::EpochFenced => "txn state: producer epoch fenced"@,
                TxnStateError::Concurrent => "txn state: concurrent transition in progress"@,
                TxnStateError::InvalidState => "txn state: invalid state transition"@,
                TxnStateError::Io(m) => "txn state: i/o: "@ + m@,
                TxnStateError::Decode(m) => "txn state: decode: "@ + m@,
            }),
    {
        match self {
            TxnStateError::EmptyTxnId => "txn state: empty transactional id".to_owned(),
            TxnStateError::UnknownProducer => "txn state: unknown txn id or pid mismatch".to_owned(),
            TxnStateError::EpochFenced => "txn state: producer epoch fenced".to_owned(),
            TxnStateError::Concurrent => "txn state: concurrent transition in progress".to_owned(),
            TxnStateError::InvalidState => "txn state: invalid state transition".to_owned(),
            TxnStateError::Io(m) => {
                let mut s = "txn state: i/o: ".to_owned();
                s.push_str(m);
                s
            },
            TxnStateError::Decode(m) => {
                let mut s = "txn state: decode: ".to_owned();
                s.push_str(m);
                s
            },
        }
    }
}

// The entries.

pub open spec fn fresh_entry(pid: i64, timeout: i32) -> EntryModel {
    EntryModel {
        pid,
        epoch: 0,
        partitions: Seq::empty(),
        since: 0,
        timeout,
        state: TxnState::Empty,
        groups: Seq::empty(),
    }
}

/// Whether a producer id has to be allotted: at the first call, and when the
/// epochs of the present one are used up.
pub open spec fn needs_pid(entry: Option<EntryModel>) -> bool {
    match entry {
        None => true,
        Some(e) => e.epoch == i16::MAX,
    }
}

/// The entry after a producer registered: the next epoch of the producer id
/// it has, or epoch zero of a new one.
pub open spec fn registered(entry: Option<EntryModel>, timeout: i32, fresh: i64) -> EntryModel {
    let e = match entry {
        None => fresh_entry(fresh, 0),
        Some(x) => if x.epoch == i16::MAX {
            fresh_entry(fresh, x.timeout)
        } else {
            EntryModel { epoch: (x.epoch + 1) as i16, ..x }
        },
    };
    if timeout > 0 {
        EntryModel { timeout, ..e }
    } else {
        e
    }
}

/// The entry for a request that names a producer and its epoch.
pub open spec fn admitted(entry: Option<EntryModel>, pid: i64, epoch: i16) -> Result<EntryModel, TxnStateError> {
    match entry {
        None => Err(TxnStateError::UnknownProducer),
        Some(e) => if e.pid != pid {
            Err(TxnStateError::UnknownProducer)
        } else if e.epoch != epoch {
            Err(TxnStateError::EpochFenced)
        } else {
            Ok(e)
        },
    }
}

/// Whether a list of partitions names one.
pub open spec fn recorded(parts: Seq<TopicParts>, topic: Seq<char>, p: i32) -> bool {
    exists|i: int| 0 <= i < parts.len() && (#[trigger] parts[i]).topic == topic && parts[i].partitions.contains(p)
}

/// Whether one list of partitions names one that another does not.
pub open spec fn names_more(parts: Seq<TopicParts>, before: Seq<TopicParts>) -> bool {
    exists|topic: Seq<char>, p: i32| #[trigger] recorded(parts, topic, p) && !recorded(before, topic, p)
}

/// The numbers of a list with those of another appended that are neither in it
/// nor recorded for the topic.
pub open spec fn with_numbers(parts: Seq<TopicParts>, topic: Seq<char>, list: Seq<i32>, more: Seq<i32>) -> Seq<i32>
    decreases more.len(),
{
    if more.len() == 0 {
        list
    } else {
        let l = with_numbers(parts, topic, list, more.drop_last());
        if l.contains(more.last()) || recorded(parts, topic, more.last()) {
            l
        } else {
            l.push(more.last())
        }
    }
}

pub open spec fn topic_index(parts: Seq<TopicParts>, topic: Seq<char>) -> Option<int>
    decreases parts.len(),
{
    if parts.len() == 0 {
        None
    } else {
        match topic_index(parts.drop_last(), topic) {
            Some(i) => Some(i),
            None => if parts.last().topic == topic {
                Some(parts.len() - 1)
            } else {
                None
            },
        }
    }
}

/// The partitions of a transaction with some of a topic added. A topic of
/// which there is nothing to add is not listed.
pub open spec fn with_topic(parts: Seq<TopicParts>, add: TopicParts) -> Seq<TopicParts> {
    match topic_index(parts, add.topic) {
        Some(i) => parts.update(
            i,
            TopicParts {
                topic: parts[i].topic,
                partitions: with_numbers(parts, add.topic, parts[i].partitions, add.partitions),
            },
        ),
        None => if add.partitions.len() == 0 {
            parts
        } else {
            parts.push(add)
        },
    }
}

/// The partitions of a transaction with more added, but for those that are
/// recorded.
pub open spec fn merged(parts: Seq<TopicParts>, adds: Seq<TopicParts>) -> Seq<TopicParts>
    decreases adds.len(),
{
    if adds.len() == 0 {
        parts
    } else {
        with_topic(merged(parts, adds.drop_last()), adds.last())
    }
}

pub open spec fn prepared(e: EntryModel) -> bool {
    e.state == TxnState::PrepareCommit || e.state == TxnState::PrepareAbort
}

pub open spec fn begun(e: EntryModel, now_ms: i64) -> EntryModel {
    if e.state == TxnState::Ongoing {
        e
    } else {
        EntryModel { state: TxnState::Ongoing, since: now_ms, ..e }
    }
}

pub open spec fn with_partitions(e: EntryModel, adds: Seq<TopicParts>, now_ms: i64) -> EntryModel {
    begun(EntryModel { partitions: merged(e.partitions, adds), ..e }, now_ms)
}

pub open spec fn with_group(e: EntryModel, group: Seq<char>, now_ms: i64) -> EntryModel {
    begun(
        EntryModel { groups: if e.groups.contains(group) { e.groups } else { e.groups.push(group) }, ..e },
        now_ms,
    )
}

pub open spec fn prepare_state(commit: bool) -> TxnState {
    if commit {
        TxnState::PrepareCommit
    } else {
        TxnState::PrepareAbort
    }
}

pub open spec fn complete_state(commit: bool) -> TxnState {
    if commit {
        TxnState::CompleteCommit
    } else {
        TxnState::CompleteAbort
    }
}

/// First half of the end of a transaction: the entry that results, and what
/// is owed. The lists stay in the entry until the second half.
pub open spec fn prepare(e: EntryModel, commit: bool) -> Result<(EntryModel, OutcomeModel), TxnStateError> {
    let owed = OutcomeModel { partitions: e.partitions, groups: e.groups, fired: true };
    if e.state == TxnState::Ongoing {
        Ok((EntryModel { state: prepare_state(commit), since: 0, ..e }, owed))
    } else if e.state == prepare_state(commit) {
        Ok((e, owed))
    } else if e.state == complete_state(commit) {
        Ok((e, nothing_to_do()))
    } else {
        Err(TxnStateError::InvalidState)
    }
}

pub open spec fn hook_calls(groups: Seq<Seq<char>>, pid: i64, commit: bool) -> Seq<SignalModel> {
    groups.map_values(|g: Seq<char>| SignalModel { group_id: g, producer_id: pid, commit })
}

/// Second half: the lists are dropped, and the offset hook is due for each
/// group.
pub open spec fn complete(e: EntryModel, commit: bool) -> Result<(EntryModel, Seq<SignalModel>), TxnStateError> {
    if e.state == complete_state(commit) {
        Ok((e, Seq::empty()))
    } else if e.state != prepare_state(commit) {
        Err(TxnStateError::InvalidState)
    } else {
        Ok(
            (
                EntryModel {
                    state: complete_state(commit),
                    partitions: Seq::empty(),
                    groups: Seq::empty(),
                    since: 0,
                    ..e
                },
                hook_calls(e.groups, e.pid, commit),
            ),
        )
    }
}

/// Whether a transaction ran out of time.
pub open spec fn overdue(e: EntryModel, now_ms: i64) -> bool {
    e.state == TxnState::Ongoing && e.since != 0 && e.timeout > 0 && e.since + e.timeout <= now_ms
}

/// A transaction that ran out of time is to be aborted, under a new epoch.
pub open spec fn reaped(e: EntryModel) -> EntryModel {
    EntryModel {
        state: TxnState::PrepareAbort,
        since: 0,
        epoch: if e.epoch == i16::MAX { 0 } else { (e.epoch + 1) as i16 },
        ..e
    }
}

pub open spec fn abort_record(id: Seq<char>, e: EntryModel) -> AbortModel {
    AbortModel { txn_id: id, pid: e.pid, old_epoch: e.epoch, new_epoch: reaped(e).epoch, groups: e.groups }
}

pub open spec fn pending_of(id: Seq<char>, e: EntryModel) -> PendingModel {
    PendingModel {
        txn_id: id,
        pid: e.pid,
        epoch: e.epoch,
        commit: e.state == TxnState::PrepareCommit,
        partitions: e.partitions,
    }
}

/// Whether an entry is prepared and owes markers, or is prepared and owes
/// none.
pub open spec fn awaits(e: EntryModel, owing: bool) -> bool {
    prepared(e) && owing == (e.partitions.len() > 0)
}

// The hash.

/// FNV-1a, 32 bits.
pub open spec fn fnv1a(bytes: Seq<u8>) -> u32
    decreases bytes.len(),
{
    if bytes.len() == 0 {
        0x811c_9dc5
    } else {
        (((fnv1a(bytes.drop_last()) ^ (bytes.last() as u32)) as nat * 0x0100_0193) % 0x1_0000_0000) as u32
    }
}

pub fn fnv1a_32(bytes: &[u8]) -> (h: u32)
    ensures
        h == fnv1a(bytes@),
{
    let mut h: u32 = 0x811c_9dc5;
    let mut i: usize = 0;
    while i < bytes.len()
        invariant
            i <= bytes@.len(),
            h == fnv1a(bytes@.take(i as int)),
        decreases bytes.len() - i,
    {
        assert(bytes@.take(i + 1).drop_last() =~= bytes@.take(i as int));
        let x: u32 = h ^ (bytes[i] as u32);
        let wide: u64 = (x as u64) * 0x0100_0193u64;
        h = (wide % 0x1_0000_0000u64) as u32;
        i = i + 1;
    }
    assert(bytes@.take(i as int) =~= bytes@);
    h
}

// The store.

pub open spec fn slot_index(id: Seq<char>, num_slots: int) -> int {
    fnv1a(utf8::encode_utf8(id)) as int % num_slots
}

pub open spec fn entry_models(m: Map<Seq<char>, TxnEntry>) -> Map<Seq<char>, EntryModel> {
    m.map_values(|e: TxnEntry| e@)
}

pub open spec fn slot_models(s: Seq<TextMap<TxnEntry>>) -> Seq<Map<Seq<char>, EntryModel>> {
    s.map_values(|m: TextMap<TxnEntry>| entry_models(m@))
}

#[verifier::ext_equal]
pub struct StoreModel {
    pub slots: Seq<Map<Seq<char>, EntryModel>>,
    pub dirty: Seq<bool>,
}

impl StoreModel {
    pub open spec fn wf(self) -> bool {
        &&& self.slots.len() == self.dirty.len()
        &&& self.slots.len() > 0
        &&& forall|k: int| 0 <= k < self.slots.len() ==> (#[trigger] self.slots[k]).dom().finite()
    }

    pub open spec fn slot(self, id: Seq<char>) -> int {
        slot_index(id, self.slots.len() as int)
    }

    pub open spec fn entry(self, id: Seq<char>) -> Option<EntryModel> {
        let m = self.slots[self.slot(id)];
        if m.contains_key(id) {
            Some(m[id])
        } else {
            None
        }
    }

    /// The store with an entry put in its slot, to be written.
    pub open spec fn with_entry(self, id: Seq<char>, e: EntryModel) -> StoreModel {
        let k = self.slot(id);
        StoreModel { slots: self.slots.update(k, self.slots[k].insert(id, e)), dirty: self.dirty.update(k, true) }
    }
}

/// The transactions of a cluster.
#[derive(Debug)]
pub struct TxnStateStore {
    slots: Vec<TextMap<TxnEntry>>,
    dirty: Vec<bool>,
}

impl View for TxnStateStore {
    type V = StoreModel;

    closed spec fn view(&self) -> StoreModel {
        StoreModel { slots: slot_models(self.slots@), dirty: self.dirty@ }
    }
}

proof fn lemma_entry_models(m: Map<Seq<char>, TxnEntry>, k: Seq<char>, e: TxnEntry)
    ensures
        entry_models(m.insert(k, e)) == entry_models(m).insert(k, e@),
        entry_models(m).dom() == m.dom(),
{
    assert(entry_models(m.insert(k, e)) =~= entry_models(m).insert(k, e@));
    assert(entry_models(m).dom() =~= m.dom());
}

fn position_of_topic(parts: &Vec<TxnTopic>, topic: &str) -> (r: Option<usize>)
    ensures
        match r {
            Some(i) => i < parts@.len() && topic_index(parts_of(parts@), topic@) == Some(i as int),
            None => topic_index(parts_of(parts@), topic@) is None,
        },
{
    let ghost ps = parts_of(parts@);
    let mut found: Option<usize> = None;
    let mut i: usize = 0;
    while i < parts.len()
        invariant
            i <= parts@.len(),
            ps == parts_of(parts@),
            match found {
                Some(k) => k < i && topic_index(ps.take(i as int), topic@) == Some(k as int),
                None => topic_index(ps.take(i as int), topic@) is None,
            },
        decreases parts.len() - i,
    {
        assert(ps.take(i + 1).drop_last() =~= ps.take(i as int));
        assert(ps.take(i + 1).last() == parts@[i as int]@);
        if found.is_none() && text_eq(&parts[i].topic, topic) {
            found = Some(i);
        }
        i = i + 1;
    }
    assert(ps.take(i as int) =~= ps);
    found
}

fn contains_number(v: &Vec<i32>, x: i32) -> (r: bool)
    ensures
        r == v@.contains(x),
{
    let mut i: usize = 0;
    while i < v.len()
        invariant
            i <= v@.len(),
            forall|j: int| 0 <= j < i ==> v@[j] != x,
        decreases v.len() - i,
    {
        if v[i] == x {
            return true;
        }
        i = i + 1;
    }
    false
}

pub proof fn lemma_topic_index(parts: Seq<TopicParts>, topic: Seq<char>)
    ensures
        match topic_index(parts, topic) {
            Some(i) => 0 <= i < parts.len() && parts[i].topic == topic && forall|j: int| 0 <= j < i ==> (#[trigger] parts[j]).topic != topic,
            None => forall|j: int| 0 <= j < parts.len() ==> (#[trigger] parts[j]).topic != topic,
        },
    decreases parts.len(),
{
    if parts.len() > 0 {
        lemma_topic_index(parts.drop_last(), topic);
        assert(forall|j: int| 0 <= j < parts.len() - 1 ==> parts.drop_last()[j] == parts[j]);
    }
}

proof fn lemma_with_numbers(parts: Seq<TopicParts>, topic: Seq<char>, list: Seq<i32>, more: Seq<i32>)
    ensures
        list.is_prefix_of(with_numbers(parts, topic, list, more)),
        forall|x: i32|
            #[trigger] with_numbers(parts, topic, list, more).contains(x) ==> list.contains(x) || more.contains(x),
        forall|x: i32|
            list.contains(x) || more.contains(x) ==> #[trigger] with_numbers(parts, topic, list, more).contains(x) || recorded(
                parts,
                topic,
                x,
            ),
    decreases more.len(),
{
    if more.len() > 0 {
        let d = more.drop_last();
        lemma_with_numbers(parts, topic, list, d);
        let l = with_numbers(parts, topic, list, d);
        let out = with_numbers(parts, topic, list, more);
        assert forall|x: i32| #[trigger] out.contains(x) implies list.contains(x) || more.contains(x) by {
            if l.contains(x) {
                if d.contains(x) {
                    let i = choose|i: int| 0 <= i < d.len() && d[i] == x;
                    assert(more[i] == x);
                }
            } else {
                let i = choose|i: int| 0 <= i < out.len() && out[i] == x;
                assert(more[more.len() - 1] == x);
            }
        }
        assert forall|x: i32| list.contains(x) || more.contains(x) implies #[trigger] out.contains(x) || recorded(parts, topic, x) by {
            if l.contains(x) {
                let i = choose|i: int| 0 <= i < l.len() && l[i] == x;
                assert(out[i] == x);
            } else if more.contains(x) {
                let i = choose|i: int| 0 <= i < more.len() && more[i] == x;
                if i < d.len() {
                    assert(d[i] == x);
                    assert(l.contains(x) || recorded(parts, topic, x));
                } else if !recorded(parts, topic, x) {
                    assert(out[out.len() - 1] == x);
                }
            } else {
                assert(l.contains(x) || recorded(parts, topic, x));
            }
        }
    }
}

/// Some of a topic added: what was recorded still is, and what was added.
pub proof fn lemma_with_topic(parts: Seq<TopicParts>, add: TopicParts)
    ensures
        forall|t: Seq<char>, p: i32|
            #[trigger] recorded(with_topic(parts, add), t, p) <==> recorded(parts, t, p) || t == add.topic
                && add.partitions.contains(p),
{
    let out = with_topic(parts, add);
    lemma_topic_index(parts, add.topic);
    match topic_index(parts, add.topic) {
        Some(k) => {
            lemma_with_numbers(parts, add.topic, parts[k].partitions, add.partitions);
            let list = with_numbers(parts, add.topic, parts[k].partitions, add.partitions);
            assert forall|t: Seq<char>, p: i32| #[trigger] recorded(out, t, p) <==> recorded(parts, t, p) || t == add.topic
                && add.partitions.contains(p) by {
                if recorded(parts, t, p) {
                    let i = choose|i: int| 0 <= i < parts.len() && (#[trigger] parts[i]).topic == t && parts[i].partitions.contains(p);
                    if i == k {
                        let j = choose|j: int| 0 <= j < parts[k].partitions.len() && parts[k].partitions[j] == p;
                        assert(list[j] == p);
                    }
                    assert(out[i].topic == t && out[i].partitions.contains(p));
                }
                if t == add.topic && add.partitions.contains(p) && !recorded(parts, t, p) {
                    assert(list.contains(p));
                    assert(out[k].topic == t && out[k].partitions.contains(p));
                }
                if recorded(out, t, p) {
                    let i = choose|i: int| 0 <= i < out.len() && (#[trigger] out[i]).topic == t && out[i].partitions.contains(p);
                    assert(parts[i].topic == t);
                }
            }
        },
        None => {
            assert forall|t: Seq<char>, p: i32| #[trigger] recorded(out, t, p) <==> recorded(parts, t, p) || t == add.topic
                && add.partitions.contains(p) by {
                if recorded(parts, t, p) {
                    let i = choose|i: int| 0 <= i < parts.len() && (#[trigger] parts[i]).topic == t && parts[i].partitions.contains(p);
                    assert(out[i].topic == t && out[i].partitions.contains(p));
                }
                if t == add.topic && add.partitions.contains(p) {
                    assert(out[parts.len() as int].topic == t);
                }
                if recorded(out, t, p) {
                    let i = choose|i: int| 0 <= i < out.len() && (#[trigger] out[i]).topic == t && out[i].partitions.contains(p);
                    if i < parts.len() {
                        assert(parts[i].topic == t);
                    }
                }
            }
        },
    }
}

fn is_recorded(parts: &Vec<TxnTopic>, topic: &str, p: i32) -> (r: bool)
    ensures
        r == recorded(parts_of(parts@), topic@, p),
{
    let ghost ps = parts_of(parts@);
    let mut i: usize = 0;
    while i < parts.len()
        invariant
            i <= parts@.len(),
            ps == parts_of(parts@),
            forall|j: int| 0 <= j < i ==> !((#[trigger] ps[j]).topic == topic@ && ps[j].partitions.contains(p)),
        decreases parts.len() - i,
    {
        assert(ps[i as int] == parts@[i as int]@);
        if text_eq(&parts[i].topic, topic) && contains_number(&parts[i].partitions, p) {
            assert(ps[i as int].topic == topic@);
            return true;
        }
        i = i + 1;
    }
    false
}

/// Adds to the partitions of an entry; says whether any was not recorded yet.
fn merge_partitions(parts: &mut Vec<TxnTopic>, additions: &[TxnTopic]) -> (changed: bool)
    ensures
        parts_of(final(parts)@) == merged(parts_of(old(parts)@), parts_of(additions@)),
        changed == names_more(parts_of(final(parts)@), parts_of(old(parts)@)),
        !changed ==> parts_of(final(parts)@) == parts_of(old(parts)@),
{
    let ghost start = parts_of(parts@);
    let ghost adds = parts_of(additions@);
    let mut changed: bool = false;
    let mut i: usize = 0;
    while i < additions.len()
        invariant
            i <= additions@.len(),
            adds == parts_of(additions@),
            parts_of(parts@) == merged(start, adds.take(i as int)),
            changed == names_more(parts_of(parts@), start),
            !changed ==> parts_of(parts@) == start,
            forall|t: Seq<char>, p: i32| #[trigger] recorded(start, t, p) ==> recorded(parts_of(parts@), t, p),
        decreases additions.len() - i,
    {
        let ghost before = parts_of(parts@);
        let add = &additions[i];
        proof {
            assert(adds.take(i + 1).drop_last() =~= adds.take(i as int));
            assert(adds.take(i + 1).last() == add@);
            lemma_with_topic(before, add@);
        }
        match position_of_topic(parts, &add.topic) {
            Some(k) => {
                let mut list = copy_numbers(&parts[k].partitions);
                let ghost l0 = list@;
                assert(before[k as int] == parts@[k as int]@);
                let mut j: usize = 0;
                let mut grew: bool = false;
                while j < add.partitions.len()
                    invariant
                        j <= add.partitions@.len(),
                        before == parts_of(parts@),
                        list@ == with_numbers(before, add.topic@, l0, add.partitions@.take(j as int)),
                        grew ==> exists|p: i32| #[trigger] add.partitions@.contains(p) && !recorded(before, add.topic@, p),
                        !grew ==> list@ == l0,
                    decreases add.partitions.len() - j,
                {
                    let p: i32 = add.partitions[j];
                    proof {
                        assert(add.partitions@.take(j + 1).drop_last() =~= add.partitions@.take(j as int));
                        assert(add.partitions@.take(j + 1).last() == p);
                        assert(add.partitions@.contains(p));
                    }
                    if !contains_number(&list, p) && !is_recorded(parts, &add.topic, p) {
                        list.push(p);
                        grew = true;
                    }
                    j = j + 1;
                }
                assert(add.partitions@.take(j as int) =~= add.partitions@);
                let topic = parts[k].topic.clone();
                parts.set(k, TxnTopic { topic, partitions: list });
                proof {
                    let next = with_topic(before, add@);
                    assert(parts_of(parts@) =~= next);
                    if grew {
                        let p = choose|p: i32| #[trigger] add.partitions@.contains(p) && !recorded(before, add.topic@, p);
                        assert(recorded(next, add.topic@, p) && !recorded(start, add.topic@, p));
                    } else {
                        assert(next =~= before);
                    }
                }
                if grew {
                    changed = true;
                }
            },
            None => {
                if add.partitions.len() > 0 {
                    parts.push(add.clone());
                    proof {
                        let next = with_topic(before, add@);
                        assert(parts_of(parts@) =~= next);
                        let p = add.partitions@[0];
                        assert(add.partitions@.contains(p));
                        lemma_topic_index(before, add.topic@);
                        assert(recorded(next, add.topic@, p) && !recorded(start, add.topic@, p));
                    }
                    changed = true;
                }
            },
        }
        i = i + 1;
    }
    assert(adds.take(i as int) =~= adds);
    changed
}

/// The ids that a sweep looks at: all, or those that this broker coordinates.
pub open spec fn in_scope(owned: Option<Seq<Seq<char>>>, id: Seq<char>) -> bool {
    match owned {
        None => true,
        Some(ids) => ids.contains(id),
    }
}

pub open spec fn owned_texts(owned: Option<&Vec<String>>) -> Option<Seq<Seq<char>>> {
    match owned {
        None => None,
        Some(v) => Some(order::texts(v@)),
    }
}

fn covers(owned: Option<&Vec<String>>, id: &str) -> (r: bool)
    ensures
        r == in_scope(owned_texts(owned), id@),
{
    match owned {
        None => true,
        Some(v) => {
            let mut i: usize = 0;
            while i < v.len()
                invariant
                    i <= v@.len(),
                    owned_texts(owned) == Some(order::texts(v@)),
                    forall|j: int| 0 <= j < i ==> order::texts(v@)[j] != id@,
                decreases v.len() - i,
            {
                if text_eq(&v[i], id) {
                    assert(order::texts(v@)[i as int] == id@);
                    return true;
                }
                i = i + 1;
            }
            false
        },
    }
}

/// The prepared transactions among the ids of a slot that owe markers, or that
/// owe none.
pub open spec fn pending_in(m: Map<Seq<char>, EntryModel>, owned: Option<Seq<Seq<char>>>, owing: bool, ids: Seq<Seq<char>>) -> Seq<PendingModel>
    decreases ids.len(),
{
    if ids.len() == 0 {
        Seq::empty()
    } else {
        let rest = pending_in(m, owned, owing, ids.drop_last());
        let id = ids.last();
        if awaits(m[id], owing) && in_scope(owned, id) {
            rest.push(pending_of(id, m[id]))
        } else {
            rest
        }
    }
}

/// The prepared transactions of the first `n` slots that owe markers, or that
/// owe none, by slot and id.
pub open spec fn pending_upto(slots: Seq<Map<Seq<char>, EntryModel>>, owned: Option<Seq<Seq<char>>>, owing: bool, n: int) -> Seq<PendingModel>
    decreases n,
{
    if n <= 0 {
        Seq::empty()
    } else {
        pending_upto(slots, owned, owing, n - 1) + pending_in(slots[n - 1], owned, owing, order::in_order(slots[n - 1].dom()))
    }
}

pub open spec fn reaps(e: EntryModel, owned: Option<Seq<Seq<char>>>, id: Seq<char>, now_ms: i64) -> bool {
    overdue(e, now_ms) && in_scope(owned, id)
}

/// A slot after the sweep for transactions that ran out of time.
pub open spec fn swept(m: Map<Seq<char>, EntryModel>, owned: Option<Seq<Seq<char>>>, now_ms: i64) -> Map<Seq<char>, EntryModel> {
    Map::new(
        |k: Seq<char>| m.contains_key(k),
        |k: Seq<char>| if reaps(m[k], owned, k, now_ms) { reaped(m[k]) } else { m[k] },
    )
}

pub open spec fn aborts_in(m: Map<Seq<char>, EntryModel>, owned: Option<Seq<Seq<char>>>, now_ms: i64, ids: Seq<Seq<char>>) -> Seq<AbortModel>
    decreases ids.len(),
{
    if ids.len() == 0 {
        Seq::empty()
    } else {
        let rest = aborts_in(m, owned, now_ms, ids.drop_last());
        let id = ids.last();
        if reaps(m[id], owned, id, now_ms) {
            rest.push(abort_record(id, m[id]))
        } else {
            rest
        }
    }
}

pub open spec fn aborts_upto(slots: Seq<Map<Seq<char>, EntryModel>>, owned: Option<Seq<Seq<char>>>, now_ms: i64, n: int) -> Seq<AbortModel>
    decreases n,
{
    if n <= 0 {
        Seq::empty()
    } else {
        aborts_upto(slots, owned, now_ms, n - 1) + aborts_in(slots[n - 1], owned, now_ms, order::in_order(slots[n - 1].dom()))
    }
}

/// The store after the sweep: the slots with an abort are to be written.
pub open spec fn swept_store(s: StoreModel, owned: Option<Seq<Seq<char>>>, now_ms: i64) -> StoreModel {
    StoreModel {
        slots: s.slots.map_values(|m: Map<Seq<char>, EntryModel>| swept(m, owned, now_ms)),
        dirty: Seq::new(
            s.dirty.len(),
            |k: int| s.dirty[k] || aborts_in(s.slots[k], owned, now_ms, order::in_order(s.slots[k].dom())).len() > 0,
        ),
    }
}

impl TxnStateStore {
    /// A store without entries; the default number of slots where none is
    /// given.
    pub fn open(num_slots: usize) -> (s: Self)
        ensures
            s@.wf(),
            s@.slots.len() == (if num_slots == 0 { DEFAULT_NUM_SLOTS } else { num_slots }),
            forall|k: int| 0 <= k < s@.slots.len() ==> #[trigger] s@.slots[k] == Map::<Seq<char>, EntryModel>::empty() && !s@.dirty[k],
    {
        let n: usize = if num_slots == 0 { DEFAULT_NUM_SLOTS } else { num_slots };
        let mut slots: Vec<TextMap<TxnEntry>> = Vec::new();
        let mut dirty: Vec<bool> = Vec::new();
        let mut i: usize = 0;
        while i < n
            invariant
                i <= n,
                slots@.len() == i,
                dirty@.len() == i,
                forall|k: int| 0 <= k < i ==> (#[trigger] slots@[k])@ == Map::<Seq<char>, TxnEntry>::empty(),
                forall|k: int| 0 <= k < i ==> !#[trigger] dirty@[k],
            decreases n - i,
        {
            slots.push(TextMap::new());
            dirty.push(false);
            i = i + 1;
        }
        let s = TxnStateStore { slots, dirty };
        proof {
            assert forall|k: int| 0 <= k < s@.slots.len() implies #[trigger] s@.slots[k] == Map::<Seq<char>, EntryModel>::empty() && !s@.dirty[k] by {
                assert(s@.slots[k] =~= Map::<Seq<char>, EntryModel>::empty());
            }
        }
        s
    }

    pub fn num_slots(&self) -> (n: usize)
        ensures
            n == self@.slots.len(),
    {
        self.slots.len()
    }

    /// The slot of a transactional id.
    pub fn slot_for(&self, txn_id: &str) -> (k: usize)
        requires
            self@.wf(),
        ensures
            k == self@.slot(txn_id@),
            k < self@.slots.len(),
    {
        let h: u32 = fnv1a_32(txn_id.as_bytes());
        ((h as u64) % (self.slots.len() as u64)) as usize
    }

    /// The entries of a slot, to write or look at.
    pub fn slot(&self, k: usize) -> (m: &TextMap<TxnEntry>)
        requires
            self@.wf(),
            k < self@.slots.len(),
        ensures
            entry_models(m@) == self@.slots[k as int],
    {
        &self.slots[k]
    }

    /// Puts in the entries of a slot as they were read.
    pub fn put_slot(&mut self, k: usize, m: TextMap<TxnEntry>)
        requires
            old(self)@.wf(),
            k < old(self)@.slots.len(),
        ensures
            final(self)@ == (StoreModel {
                slots: old(self)@.slots.update(k as int, entry_models(m@)),
                dirty: old(self)@.dirty.update(k as int, false),
            }),
            final(self)@.wf(),
    {
        let _entries: usize = m.len();
        proof {
            lemma_entry_models(m@, Seq::empty(), arbitrary());
        }
        self.slots.set(k, m);
        self.dirty.set(k, false);
        assert(self@ =~= (StoreModel {
            slots: old(self)@.slots.update(k as int, entry_models(m@)),
            dirty: old(self)@.dirty.update(k as int, false),
        }));
    }

    /// Whether a slot has to be written, and no longer has to once it was
    /// asked for.
    pub fn take_dirty(&mut self, k: usize) -> (r: bool)
        requires
            old(self)@.wf(),
            k < old(self)@.slots.len(),
        ensures
            r == old(self)@.dirty[k as int],
            final(self)@ == (StoreModel { dirty: old(self)@.dirty.update(k as int, false), ..old(self)@ }),
            final(self)@.wf(),
    {
        let r: bool = self.dirty[k];
        self.dirty.set(k, false);
        assert(self@ =~= (StoreModel { dirty: old(self)@.dirty.update(k as int, false), ..old(self)@ }));
        r
    }

    fn lookup(&self, txn_id: &str) -> (r: Option<TxnEntry>)
        requires
            self@.wf(),
        ensures
            match r {
                Some(e) => self@.entry(txn_id@) == Some(e@),
                None => self@.entry(txn_id@) is None,
            },
    {
        let k: usize = self.slot_for(txn_id);
        proof {
            lemma_entry_models(self.slots@[k as int]@, Seq::empty(), arbitrary());
            assert(self@.slots[k as int] == entry_models(self.slots@[k as int]@));
        }
        match self.slots[k].get(txn_id) {
            Some(e) => Some(e.clone()),
            None => None,
        }
    }

    fn store(&mut self, txn_id: &str, e: TxnEntry)
        requires
            old(self)@.wf(),
        ensures
            final(self)@ == old(self)@.with_entry(txn_id@, e@),
            final(self)@.wf(),
    {
        let k: usize = self.slot_for(txn_id);
        let ghost before = self.slots@;
        proof {
            lemma_entry_models(before[k as int]@, txn_id@, e);
        }
        let mut m: TextMap<TxnEntry> = TextMap::new();
        std::mem::swap(&mut m, &mut self.slots[k]);
        m.insert(txn_id.to_owned(), e);
        self.slots.set(k, m);
        self.dirty.set(k, true);
        assert(self@ =~= old(self)@.with_entry(txn_id@, e@));
    }

    fn entry_for(&self, txn_id: &str, pid: i64, epoch: i16) -> (r: Result<TxnEntry, TxnStateError>)
        requires
            self@.wf(),
        ensures
            match r {
                Ok(e) => admitted(self@.entry(txn_id@), pid, epoch) == Ok::<EntryModel, TxnStateError>(e@),
                Err(x) => admitted(self@.entry(txn_id@), pid, epoch) == Err::<EntryModel, TxnStateError>(x),
            },
    {
        match self.lookup(txn_id) {
            None => Err(TxnStateError::UnknownProducer),
            Some(e) => {
                if e.pid != pid {
                    Err(TxnStateError::UnknownProducer)
                } else if e.epoch != epoch {
                    Err(TxnStateError::EpochFenced)
                } else {
                    Ok(e)
                }
            },
        }
    }

    /// The producer id and epoch for a transactional id; see
    /// [`TxnStateStore::get_or_allocate_with_timeout`].
    pub fn get_or_allocate<F: FnOnce() -> i64>(&mut self, txn_id: &str, alloc: F) -> (r: Result<(i64, i16), TxnStateError>)
        requires
            old(self)@.wf(),
            alloc.requires(()),
        ensures
            final(self)@.wf(),
            txn_id@.len() == 0 ==> r == Err::<(i64, i16), TxnStateError>(TxnStateError::EmptyTxnId) && final(self)@ == old(self)@,
            txn_id@.len() > 0 ==> (r matches Ok((pid, epoch)) && ({
                let e = registered(old(self)@.entry(txn_id@), 0, pid);
                &&& e.pid == pid
                &&& e.epoch == epoch
                &&& needs_pid(old(self)@.entry(txn_id@)) ==> alloc.ensures((), pid)
                &&& final(self)@ == old(self)@.with_entry(txn_id@, e)
            })),
    {
        self.get_or_allocate_with_timeout(txn_id, 0, alloc)
    }

    /// The producer id and epoch for a transactional id: a new producer id
    /// with epoch zero at first, later the same one with the next epoch. A
    /// positive timeout replaces the one on record.
    pub fn get_or_allocate_with_timeout<F: FnOnce() -> i64>(&mut self, txn_id: &str, timeout_ms: i32, alloc: F) -> (r: Result<
        (i64, i16),
        TxnStateError,
    >)
        requires
            old(self)@.wf(),
            alloc.requires(()),
        ensures
            final(self)@.wf(),
            txn_id@.len() == 0 ==> r == Err::<(i64, i16), TxnStateError>(TxnStateError::EmptyTxnId) && final(self)@ == old(self)@,
            txn_id@.len() > 0 ==> (r matches Ok((pid, epoch)) && ({
                let e = registered(old(self)@.entry(txn_id@), timeout_ms, pid);
                &&& e.pid == pid
                &&& e.epoch == epoch
                &&& needs_pid(old(self)@.entry(txn_id@)) ==> alloc.ensures((), pid)
                &&& final(self)@ == old(self)@.with_entry(txn_id@, e)
            })),
    {
        if txn_id.is_empty() {
            return Err(TxnStateError::EmptyTxnId);
        }
        let found = self.lookup(txn_id);
        let ghost prior = self@.entry(txn_id@);
        let mut e = match found {
            Some(x) => {
                if x.epoch == i16::MAX {
                    TxnEntry {
                        pid: alloc(),
                        epoch: 0,
                        partitions: Vec::new(),
                        ongoing_since_ms: 0,
                        transaction_timeout_ms: x.transaction_timeout_ms,
                        state: TxnState::Empty,
                        groups: Vec::new(),
                    }
                } else {
                    TxnEntry {
                        pid: x.pid,
                        epoch: x.epoch + 1,
                        partitions: x.partitions,
                        ongoing_since_ms: x.ongoing_since_ms,
                        transaction_timeout_ms: x.transaction_timeout_ms,
                        state: x.state,
                        groups: x.groups,
                    }
                }
            },
            None => TxnEntry {
                pid: alloc(),
                epoch: 0,
                partitions: Vec::new(),
                ongoing_since_ms: 0,
                transaction_timeout_ms: 0,
                state: TxnState::Empty,
                groups: Vec::new(),
            },
        };
        if timeout_ms > 0 {
            e.transaction_timeout_ms = timeout_ms;
        }
        let pid: i64 = e.pid;
        let epoch: i16 = e.epoch;
        assert(e@ =~= registered(prior, timeout_ms, pid));
        self.store(txn_id, e);
        Ok((pid, epoch))
    }

    /// Adds partitions to the transaction, beginning it where it is not under
    /// way. A request that adds nothing leaves the slot clean.
    pub fn add_partitions(&mut self, txn_id: &str, pid: i64, epoch: i16, additions: &[TxnTopic], now_ms: i64) -> (r: Result<(), TxnStateError>)
        requires
            old(self)@.wf(),
        ensures
            final(self)@.wf(),
            r is Err ==> final(self)@ == old(self)@,
            if txn_id@.len() == 0 {
                r == Err::<(), TxnStateError>(TxnStateError::EmptyTxnId)
            } else {
                match admitted(old(self)@.entry(txn_id@), pid, epoch) {
                    Err(x) => r == Err::<(), TxnStateError>(x),
                    Ok(e) => if prepared(e) {
                        r == Err::<(), TxnStateError>(TxnStateError::Concurrent)
                    } else {
                        r is Ok && final(self)@ == (if with_partitions(e, parts_of(additions@), now_ms) == e {
                            old(self)@
                        } else {
                            old(self)@.with_entry(txn_id@, with_partitions(e, parts_of(additions@), now_ms))
                        })
                    },
                }
            },
    {
        if txn_id.is_empty() {
            return Err(TxnStateError::EmptyTxnId);
        }
        let mut e = match self.entry_for(txn_id, pid, epoch) {
            Ok(e) => e,
            Err(x) => {
                return Err(x);
            },
        };
        let ghost em = e@;
        if e.state == TxnState::PrepareCommit || e.state == TxnState::PrepareAbort {
            return Err(TxnStateError::Concurrent);
        }
        let mut parts: Vec<TxnTopic> = Vec::new();
        std::mem::swap(&mut parts, &mut e.partitions);
        let grew: bool = merge_partitions(&mut parts, additions);
        e.partitions = parts;
        let begins: bool = e.state != TxnState::Ongoing;
        if begins {
            e.state = TxnState::Ongoing;
            e.ongoing_since_ms = now_ms;
        }
        assert(e@ =~= with_partitions(em, parts_of(additions@), now_ms));
        if !grew && !begins {
            assert(e@ =~= em);
            return Ok(());
        }
        self.store(txn_id, e);
        Ok(())
    }

    /// Records that the producer will commit offsets for a group in this
    /// transaction.
    pub fn add_offsets_to_txn(&mut self, txn_id: &str, pid: i64, epoch: i16, group_id: &str, now_ms: i64) -> (r: Result<(), TxnStateError>)
        requires
            old(self)@.wf(),
        ensures
            final(self)@.wf(),
            r is Err ==> final(self)@ == old(self)@,
            if txn_id@.len() == 0 {
                r == Err::<(), TxnStateError>(TxnStateError::EmptyTxnId)
            } else if group_id@.len() == 0 {
                r == Err::<(), TxnStateError>(TxnStateError::InvalidState)
            } else {
                match admitted(old(self)@.entry(txn_id@), pid, epoch) {
                    Err(x) => r == Err::<(), TxnStateError>(x),
                    Ok(e) => if prepared(e) {
                        r == Err::<(), TxnStateError>(TxnStateError::Concurrent)
                    } else {
                        r is Ok && final(self)@ == (if with_group(e, group_id@, now_ms) == e {
                            old(self)@
                        } else {
                            old(self)@.with_entry(txn_id@, with_group(e, group_id@, now_ms))
                        })
                    },
                }
            },
    {
        if txn_id.is_empty() {
            return Err(TxnStateError::EmptyTxnId);
        }
        if group_id.is_empty() {
            return Err(TxnStateError::InvalidState);
        }
        let mut e = match self.entry_for(txn_id, pid, epoch) {
            Ok(e) => e,
            Err(x) => {
                return Err(x);
            },
        };
        let ghost em = e@;
        if e.state == TxnState::PrepareCommit || e.state == TxnState::PrepareAbort {
            return Err(TxnStateError::Concurrent);
        }
        let known: bool = covers(Some(&e.groups), group_id);
        let begins: bool = e.state != TxnState::Ongoing;
        if known && !begins {
            assert(with_group(em, group_id@, now_ms) =~= em);
            return Ok(());
        }
        if !known {
            let mut groups: Vec<String> = Vec::new();
            std::mem::swap(&mut groups, &mut e.groups);
            let ghost before = groups@;
            groups.push(group_id.to_owned());
            assert(order::texts(groups@) =~= order::texts(before).push(group_id@));
            e.groups = groups;
        }
        if begins {
            e.state = TxnState::Ongoing;
            e.ongoing_since_ms = now_ms;
        }
        proof {
            assert(e@ =~= with_group(em, group_id@, now_ms));
            if !known {
                assert(e@.groups.len() == em.groups.len() + 1);
            }
        }
        self.store(txn_id, e);
        Ok(())
    }

    /// First half of EndTxn. What is owed stays on record until
    /// [`TxnStateStore::complete_end_txn`], so a retry gets the same lists.
    pub fn prepare_end_txn(&mut self, txn_id: &str, pid: i64, epoch: i16, commit: bool) -> (r: Result<EndTxnOutcome, TxnStateError>)
        requires
            old(self)@.wf(),
        ensures
            final(self)@.wf(),
            r is Err ==> final(self)@ == old(self)@,
            if txn_id@.len() == 0 {
                r == Err::<EndTxnOutcome, TxnStateError>(TxnStateError::EmptyTxnId)
            } else {
                match admitted(old(self)@.entry(txn_id@), pid, epoch) {
                    Err(x) => r == Err::<EndTxnOutcome, TxnStateError>(x),
                    Ok(e) => match prepare(e, commit) {
                        Err(x) => r == Err::<EndTxnOutcome, TxnStateError>(x),
                        Ok((e2, owed)) => (r matches Ok(o) && o@ == owed) && final(self)@ == (if e2 == e {
                            old(self)@
                        } else {
                            old(self)@.with_entry(txn_id@, e2)
                        }),
                    },
                }
            },
    {
        if txn_id.is_empty() {
            return Err(TxnStateError::EmptyTxnId);
        }
        let mut e = match self.entry_for(txn_id, pid, epoch) {
            Ok(e) => e,
            Err(x) => {
                return Err(x);
            },
        };
        let ghost em = e@;
        let want: TxnState = if commit { TxnState::PrepareCommit } else { TxnState::PrepareAbort };
        let done: TxnState = if commit { TxnState::CompleteCommit } else { TxnState::CompleteAbort };
        if e.state == TxnState::Ongoing {
            let o = EndTxnOutcome {
                partitions: copy_parts(&e.partitions),
                groups: copy_texts(&e.groups),
                transition_fired: true,
            };
            e.state = want;
            e.ongoing_since_ms = 0;
            self.store(txn_id, e);
            return Ok(o);
        }
        if e.state == want {
            return Ok(EndTxnOutcome { partitions: e.partitions, groups: e.groups, transition_fired: true });
        }
        if e.state == done {
            return Ok(EndTxnOutcome::default());
        }
        Err(TxnStateError::InvalidState)
    }

    /// Second half of EndTxn, to be called once every marker is durable. The
    /// calls of the offset hook that are due are returned.
    pub fn complete_end_txn(&mut self, txn_id: &str, pid: i64, epoch: i16, commit: bool) -> (r: Result<Vec<OffsetSignal>, TxnStateError>)
        requires
            old(self)@.wf(),
        ensures
            final(self)@.wf(),
            r is Err ==> final(self)@ == old(self)@,
            if txn_id@.len() == 0 {
                r == Err::<Vec<OffsetSignal>, TxnStateError>(TxnStateError::EmptyTxnId)
            } else {
                match admitted(old(self)@.entry(txn_id@), pid, epoch) {
                    Err(x) => r == Err::<Vec<OffsetSignal>, TxnStateError>(x),
                    Ok(e) => match complete(e, commit) {
                        Err(x) => r == Err::<Vec<OffsetSignal>, TxnStateError>(x),
                        Ok((e2, calls)) => (r matches Ok(v) && signals_of(v@) == calls) && final(self)@ == (if e2 == e {
                            old(self)@
                        } else {
                            old(self)@.with_entry(txn_id@, e2)
                        }),
                    },
                }
            },
    {
        if txn_id.is_empty() {
            return Err(TxnStateError::EmptyTxnId);
        }
        let e = match self.entry_for(txn_id, pid, epoch) {
            Ok(e) => e,
            Err(x) => {
                return Err(x);
            },
        };
        let ghost em = e@;
        let want: TxnState = if commit { TxnState::PrepareCommit } else { TxnState::PrepareAbort };
        let done: TxnState = if commit { TxnState::CompleteCommit } else { TxnState::CompleteAbort };
        let mut calls: Vec<OffsetSignal> = Vec::new();
        if e.state == done {
            assert(signals_of(calls@) =~= Seq::empty());
            return Ok(calls);
        }
        if e.state != want {
            return Err(TxnStateError::InvalidState);
        }
        let groups = e.groups;
        let mut i: usize = 0;
        while i < groups.len()
            invariant
                i <= groups@.len(),
                em.groups == order::texts(groups@),
                calls@.len() == i,
                forall|j: int| 0 <= j < i ==> (#[trigger] calls@[j])@ == (SignalModel { group_id: em.groups[j], producer_id: pid, commit }),
            decreases groups.len() - i,
        {
            calls.push(OffsetSignal { group_id: groups[i].clone(), producer_id: pid, commit });
            i = i + 1;
        }
        assert(signals_of(calls@) =~= hook_calls(em.groups, pid, commit));
        let e2 = TxnEntry {
            pid: e.pid,
            epoch: e.epoch,
            partitions: Vec::new(),
            ongoing_since_ms: 0,
            transaction_timeout_ms: e.transaction_timeout_ms,
            state: done,
            groups: Vec::new(),
        };
        assert(e2@ =~= complete(em, commit)->Ok_0.0);
        self.store(txn_id, e2);
        Ok(calls)
    }

    /// Both halves of EndTxn at once, for a caller that has no markers to
    /// write.
    pub fn end_txn(&mut self, txn_id: &str, pid: i64, epoch: i16, commit: bool) -> (r: Result<(EndTxnOutcome, Vec<OffsetSignal>), TxnStateError>)
        requires
            old(self)@.wf(),
        ensures
            final(self)@.wf(),
            r is Err ==> final(self)@ == old(self)@,
            if txn_id@.len() == 0 {
                r == Err::<(EndTxnOutcome, Vec<OffsetSignal>), TxnStateError>(TxnStateError::EmptyTxnId)
            } else {
                match admitted(old(self)@.entry(txn_id@), pid, epoch) {
                    Err(x) => r == Err::<(EndTxnOutcome, Vec<OffsetSignal>), TxnStateError>(x),
                    Ok(e) => match prepare(e, commit) {
                        Err(x) => r == Err::<(EndTxnOutcome, Vec<OffsetSignal>), TxnStateError>(x),
                        Ok((e2, owed)) => (r matches Ok((o, v)) && o@ == owed && (if owed.fired {
                            signals_of(v@) == hook_calls(e.groups, pid, commit) && final(self)@.slots == old(self)@.with_entry(
                                txn_id@,
                                complete(e2, commit)->Ok_0.0,
                            ).slots && final(self)@.dirty == old(self)@.dirty.update(old(self)@.slot(txn_id@), true)
                        } else {
                            v@.len() == 0 && final(self)@ == old(self)@
                        })),
                    },
                }
            },
    {
        let ghost s0 = self@;
        let o = match self.prepare_end_txn(txn_id, pid, epoch, commit) {
            Ok(o) => o,
            Err(x) => {
                return Err(x);
            },
        };
        if !o.transition_fired {
            return Ok((o, Vec::new()));
        }
        let ghost s1 = self@;
        let ghost id = txn_id@;
        let ghost e = s0.entry(id)->0;
        let ghost e2 = prepare(e, commit)->Ok_0.0;
        proof {
            let k = s0.slot(id);
            lemma_slot_range(id, s0.slots.len() as int);
            assert(s1.slots.len() == s0.slots.len());
            assert(s1.entry(id) == Some(e2));
        }
        match self.complete_end_txn(txn_id, pid, epoch, commit) {
            Ok(v) => {
                proof {
                    let e3 = complete(e2, commit)->Ok_0.0;
                    assert(e3.state != e2.state);
                    assert(self@.slots =~= s0.with_entry(id, e3).slots) by {
                        let k = s0.slot(id);
                        assert(s1.slots[k].insert(id, e3) =~= s0.slots[k].insert(id, e3));
                    }
                    assert(self@.dirty =~= s0.dirty.update(s0.slot(id), true));
                }
                Ok((o, v))
            },
            Err(x) => Err(x),
        }
    }

    /// The transactions that owe markers, by slot and id: those of the ids
    /// given, or all.
    pub fn pending_marker_dispatches(&self, owned: Option<&Vec<String>>) -> (out: Vec<PendingMarkerDispatch>)
        requires
            self@.wf(),
        ensures
            out@.map_values(|p: PendingMarkerDispatch| p@) == pending_upto(self@.slots, owned_texts(owned), true, self@.slots.len() as int),
    {
        self.prepared(owned, true)
    }

    /// Every transaction that was prepared and not completed, of the ids given
    /// or of all: those that owe markers, then those that owe none and can be
    /// completed at once.
    pub fn prepared_transactions(&self, owned: Option<&Vec<String>>) -> (out: Vec<PendingMarkerDispatch>)
        requires
            self@.wf(),
        ensures
            out@.map_values(|p: PendingMarkerDispatch| p@) == pending_upto(self@.slots, owned_texts(owned), true, self@.slots.len() as int)
                + pending_upto(self@.slots, owned_texts(owned), false, self@.slots.len() as int),
    {
        let mut out = self.prepared(owned, true);
        let mut more = self.prepared(owned, false);
        let ghost a = out@;
        let ghost b = more@;
        out.append(&mut more);
        proof {
            let f = |p: PendingMarkerDispatch| p@;
            assert((a + b).map_values(f) =~= a.map_values(f) + b.map_values(f));
        }
        out
    }

    fn prepared(&self, owned: Option<&Vec<String>>, owing: bool) -> (out: Vec<PendingMarkerDispatch>)
        requires
            self@.wf(),
        ensures
            out@.map_values(|p: PendingMarkerDispatch| p@) == pending_upto(self@.slots, owned_texts(owned), owing, self@.slots.len() as int),
    {
        let ghost f = |p: PendingMarkerDispatch| p@;
        let ghost who = owned_texts(owned);
        let mut out: Vec<PendingMarkerDispatch> = Vec::new();
        let mut k: usize = 0;
        assert(out@.map_values(f) =~= pending_upto(self@.slots, who, owing, 0));
        while k < self.slots.len()
            invariant
                k <= self.slots@.len(),
                self@.slots == slot_models(self.slots@),
                f == (|p: PendingMarkerDispatch| p@),
                who == owned_texts(owned),
                out@.map_values(f) == pending_upto(self@.slots, who, owing, k as int),
            decreases self.slots.len() - k,
        {
            let ghost before = out@.map_values(f);
            let ghost m = self@.slots[k as int];
            proof {
                lemma_entry_models(self.slots@[k as int]@, Seq::empty(), arbitrary());
                assert(m == entry_models(self.slots@[k as int]@));
            }
            let ids = self.slots[k].sorted_keys();
            let ghost names = order::texts(ids@);
            let mut i: usize = 0;
            assert(out@.map_values(f) =~= before + pending_in(m, who, owing, names.take(0)));
            while i < ids.len()
                invariant
                    i <= ids@.len(),
                    k < self.slots@.len(),
                    m == entry_models(self.slots@[k as int]@),
                    m.dom() == self.slots@[k as int]@.dom(),
                    names == order::texts(ids@),
                    names.to_set() == self.slots@[k as int]@.dom(),
                    f == (|p: PendingMarkerDispatch| p@),
                    who == owned_texts(owned),
                    out@.map_values(f) == before + pending_in(m, who, owing, names.take(i as int)),
                decreases ids.len() - i,
            {
                let ghost was = out@.map_values(f);
                proof {
                    assert(names.take(i + 1).drop_last() =~= names.take(i as int));
                    assert(names.take(i + 1).last() == ids@[i as int]@);
                    assert(names.to_set().contains(names[i as int]));
                }
                match self.slots[k].get(&ids[i]) {
                    Some(e) => {
                        assert(m[ids@[i as int]@] == e@);
                        let commit: bool = e.state == TxnState::PrepareCommit;
                        if (commit || e.state == TxnState::PrepareAbort) && owing == (e.partitions.len() > 0) && covers(owned, &ids[i]) {
                            let p = PendingMarkerDispatch {
                                txn_id: ids[i].clone(),
                                pid: e.pid,
                                epoch: e.epoch,
                                commit,
                                partitions: copy_parts(&e.partitions),
                            };
                            assert(p@ =~= pending_of(ids@[i as int]@, e@));
                            out.push(p);
                            assert(out@.map_values(f) =~= was.push(p@));
                        }
                    },
                    None => {},
                }
                i = i + 1;
                assert(out@.map_values(f) =~= before + pending_in(m, who, owing, names.take(i as int)));
            }
            assert(names.take(i as int) =~= names);
            k = k + 1;
        }
        out
    }

    /// Aborts the transactions that ran out of time; see
    /// [`TxnStateStore::abort_overdue_owned`].
    pub fn abort_overdue(&mut self, now_ms: i64) -> (out: Vec<TxnAbortRecord>)
        requires
            old(self)@.wf(),
        ensures
            final(self)@.wf(),
            final(self)@ == swept_store(old(self)@, None, now_ms),
            out@.map_values(|a: TxnAbortRecord| a@) == aborts_upto(old(self)@.slots, None, now_ms, old(self)@.slots.len() as int),
    {
        self.abort_overdue_owned(now_ms, None)
    }

    /// Aborts, among the ids given or all, the transactions that ran out of
    /// time. Their markers are owed under a new epoch, which fences the
    /// producer.
    pub fn abort_overdue_owned(&mut self, now_ms: i64, owned: Option<&Vec<String>>) -> (out: Vec<TxnAbortRecord>)
        requires
            old(self)@.wf(),
        ensures
            final(self)@.wf(),
            final(self)@ == swept_store(old(self)@, owned_texts(owned), now_ms),
            out@.map_values(|a: TxnAbortRecord| a@) == aborts_upto(old(self)@.slots, owned_texts(owned), now_ms, old(self)@.slots.len() as int),
    {
        let ghost f = |a: TxnAbortRecord| a@;
        let ghost who = owned_texts(owned);
        let ghost s0 = self@;
        let n: usize = self.slots.len();
        let mut out: Vec<TxnAbortRecord> = Vec::new();
        let mut k: usize = 0;
        assert(out@.map_values(f) =~= aborts_upto(s0.slots, who, now_ms, 0));
        while k < n
            invariant
                k <= n,
                n == self.slots@.len(),
                n == s0.slots.len(),
                s0.wf(),
                self@.wf(),
                f == (|a: TxnAbortRecord| a@),
                who == owned_texts(owned),
                out@.map_values(f) == aborts_upto(s0.slots, who, now_ms, k as int),
                forall|j: int| 0 <= j < k ==> #[trigger] self@.slots[j] == swept(s0.slots[j], who, now_ms),
                forall|j: int| k <= j < n ==> #[trigger] self@.slots[j] == s0.slots[j],
                forall|j: int| 0 <= j < k ==> #[trigger] self@.dirty[j] == (s0.dirty[j] || aborts_in(s0.slots[j], who, now_ms, order::in_order(s0.slots[j].dom())).len() > 0),
                forall|j: int| k <= j < n ==> #[trigger] self@.dirty[j] == s0.dirty[j],
            decreases n - k,
        {
            let ghost s1 = self@;
            let ghost m = s0.slots[k as int];
            assert(self@.slots[k as int] == m);
            let mut slot: TextMap<TxnEntry> = TextMap::new();
            std::mem::swap(&mut slot, &mut self.slots[k]);
            assert(m == entry_models(slot@));
            let changed: bool = reap_slot(&mut slot, now_ms, owned, &mut out);
            self.slots.set(k, slot);
            if changed {
                self.dirty.set(k, true);
            }
            proof {
                assert(self@.slots =~= s1.slots.update(k as int, swept(m, who, now_ms)));
                assert(swept(m, who, now_ms).dom() =~= m.dom());
                assert(out@.map_values(f) =~= aborts_upto(s0.slots, who, now_ms, k + 1));
            }
            k = k + 1;
        }
        assert(self@ =~= swept_store(s0, who, now_ms));
        out
    }

    /// Every entry of every slot; of two slots that hold an id the later one
    /// counts.
    pub fn snapshot(&self) -> (out: TextMap<TxnEntry>)
        requires
            self@.wf(),
        ensures
            entry_models(out@) == all_entries(self@.slots, self@.slots.len() as int),
    {
        let mut out: TextMap<TxnEntry> = TextMap::new();
        let mut k: usize = 0;
        assert(entry_models(out@) =~= all_entries(self@.slots, 0));
        while k < self.slots.len()
            invariant
                k <= self.slots@.len(),
                self@.slots == slot_models(self.slots@),
                entry_models(out@) == all_entries(self@.slots, k as int),
            decreases self.slots.len() - k,
        {
            let ghost before = entry_models(out@);
            let ghost m = self@.slots[k as int];
            let slot = &self.slots[k];
            let n: usize = slot.len();
            let ghost keys = slot.key_list();
            proof {
                lemma_entry_models(slot@, Seq::empty(), arbitrary());
                assert(m == entry_models(slot@));
            }
            let mut i: usize = 0;
            assert(entry_models(out@) =~= before.union_prefer_right(m.restrict(keys.take(0).to_set())));
            while i < n
                invariant
                    i <= n,
                    n == keys.len(),
                    keys == slot.key_list(),
                    m == entry_models(slot@),
                    m.dom() == slot@.dom(),
                    entry_models(out@) == before.union_prefer_right(m.restrict(keys.take(i as int).to_set())),
                decreases n - i,
            {
                let id = slot.key_at(i);
                let e = slot.value_at(i).clone();
                let ghost x = keys[i as int];
                proof {
                    assert(keys.take(i + 1) =~= keys.take(i as int).push(x));
                    keys.take(i as int).lemma_push_to_set_commute(x);
                    lemma_entry_models(out@, x, e);
                    assert(m[x] == e@);
                }
                out.insert(id.clone(), e);
                i = i + 1;
                assert(entry_models(out@) =~= before.union_prefer_right(m.restrict(keys.take(i as int).to_set())));
            }
            proof {
                assert(keys.take(i as int) =~= keys);
                assert(m.restrict(keys.to_set()) =~= m);
            }
            k = k + 1;
        }
        out
    }
}

pub proof fn lemma_slot_range(id: Seq<char>, n: int)
    requires
        n > 0,
    ensures
        0 <= slot_index(id, n) < n,
{
}

pub open spec fn all_entries(slots: Seq<Map<Seq<char>, EntryModel>>, n: int) -> Map<Seq<char>, EntryModel>
    decreases n,
{
    if n <= 0 {
        Map::empty()
    } else {
        all_entries(slots, n - 1).union_prefer_right(slots[n - 1])
    }
}

fn reap_slot(slot: &mut TextMap<TxnEntry>, now_ms: i64, owned: Option<&Vec<String>>, out: &mut Vec<TxnAbortRecord>) -> (changed: bool)
    ensures
        entry_models(final(slot)@) == swept(entry_models(old(slot)@), owned_texts(owned), now_ms),
        final(out)@.map_values(|a: TxnAbortRecord| a@) == old(out)@.map_values(|a: TxnAbortRecord| a@) + aborts_in(
            entry_models(old(slot)@),
            owned_texts(owned),
            now_ms,
            order::in_order(entry_models(old(slot)@).dom()),
        ),
        changed == (aborts_in(
            entry_models(old(slot)@),
            owned_texts(owned),
            now_ms,
            order::in_order(entry_models(old(slot)@).dom()),
        ).len() > 0),
{
    let ghost f = |a: TxnAbortRecord| a@;
    let ghost who = owned_texts(owned);
    let ghost m = entry_models(slot@);
    let ghost head = out@.map_values(f);
    proof {
        lemma_entry_models(slot@, Seq::empty(), arbitrary());
    }
    let ids = slot.sorted_keys();
    let ghost names = order::texts(ids@);
    let mut changed: bool = false;
    let mut i: usize = 0;
    proof {
        order::lemma_increasing_distinct(names);
        assert(head =~= head + aborts_in(m, who, now_ms, names.take(0)));
    }
    while i < ids.len()
        invariant
            i <= ids@.len(),
            names == order::texts(ids@),
            names.no_duplicates(),
            names.to_set() == m.dom(),
            f == (|a: TxnAbortRecord| a@),
            who == owned_texts(owned),
            entry_models(slot@).dom() == m.dom(),
            forall|j: int| 0 <= j < i ==> entry_models(slot@)[#[trigger] names[j]] == swept(m, who, now_ms)[names[j]],
            forall|j: int| i <= j < names.len() ==> entry_models(slot@)[#[trigger] names[j]] == m[names[j]],
            out@.map_values(f) == head + aborts_in(m, who, now_ms, names.take(i as int)),
            changed == (aborts_in(m, who, now_ms, names.take(i as int)).len() > 0),
        decreases ids.len() - i,
    {
        let ghost was = out@.map_values(f);
        let ghost now = entry_models(slot@);
        let ghost x = names[i as int];
        proof {
            assert(names.take(i + 1).drop_last() =~= names.take(i as int));
            assert(names.take(i + 1).last() == x);
            assert(names.to_set().contains(x));
            lemma_entry_models(slot@, x, arbitrary());
        }
        let mut hit: Option<TxnEntry> = None;
        match slot.get(&ids[i]) {
            Some(e) => {
                assert(e@ == m[x]);
                if e.state == TxnState::Ongoing && covers(owned, &ids[i]) && e.ongoing_since_ms != 0 && e.transaction_timeout_ms > 0
                    && (e.ongoing_since_ms as i128) + (e.transaction_timeout_ms as i128) <= now_ms as i128 {
                    hit = Some(e.clone());
                }
            },
            None => {},
        }
        assert(hit is Some <==> reaps(m[x], who, x, now_ms));
        match hit {
            Some(e) => {
                let old_epoch: i16 = e.epoch;
                let new_epoch: i16 = if e.epoch == i16::MAX { 0 } else { e.epoch + 1 };
                let record = TxnAbortRecord {
                    txn_id: ids[i].clone(),
                    pid: e.pid,
                    old_epoch,
                    new_epoch,
                    groups: copy_texts(&e.groups),
                };
                assert(record@ =~= abort_record(x, m[x]));
                let e2 = TxnEntry {
                    pid: e.pid,
                    epoch: new_epoch,
                    partitions: e.partitions,
                    ongoing_since_ms: 0,
                    transaction_timeout_ms: e.transaction_timeout_ms,
                    state: TxnState::PrepareAbort,
                    groups: e.groups,
                };
                assert(e2@ =~= reaped(m[x]));
                proof {
                    lemma_entry_models(slot@, x, e2);
                }
                slot.insert(ids[i].clone(), e2);
                out.push(record);
                changed = true;
                proof {
                    assert(out@.map_values(f) =~= was.push(record@));
                    assert forall|j: int| i < j < names.len() implies entry_models(slot@)[#[trigger] names[j]] == m[names[j]] by {
                        assert(names[j] != x);
                    }
                    assert forall|j: int| 0 <= j < i implies entry_models(slot@)[#[trigger] names[j]] == swept(m, who, now_ms)[names[j]] by {
                        assert(names[j] != x);
                        assert(names.to_set().contains(names[j]));
                    }
                    assert(entry_models(slot@).dom() =~= m.dom());
                }
            },
            None => {},
        }
        i = i + 1;
        assert(out@.map_values(f) =~= head + aborts_in(m, who, now_ms, names.take(i as int)));
    }
    proof {
        assert(names.take(i as int) =~= names);
        assert forall|k: Seq<char>| m.contains_key(k) implies entry_models(slot@)[k] == #[trigger] swept(m, who, now_ms)[k] by {
            assert(names.to_set().contains(k));
            let j = choose|j: int| 0 <= j < names.len() && names[j] == k;
            assert(entry_models(slot@)[names[j]] == swept(m, who, now_ms)[names[j]]);
        }
        assert(entry_models(slot@) =~= swept(m, who, now_ms));
    }
    changed
}

} // verus!
