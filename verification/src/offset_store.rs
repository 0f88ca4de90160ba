//! Committed offsets of consumer groups.
//!
//! Offsets live in three places: the maps here, which answer fetches; the
//! offsets that an open transaction has staged, which nobody sees before it
//! commits; and one file for each group. A change here names what is to be
//! written. The caller writes it and says how that went, so that a group whose
//! file lags behind is written again.

use vstd::prelude::*;
use crate::fence;
use crate::fence::FenceStamp;
use crate::keyed;
use crate::keyed::TextMap;
use crate::order;
use crate::text;
use crate::text::{chars_of, find_last, int_string, joined3, parse_decimal, slash_string, text_eq, text_of};

verus! {

/// Partitions of one topic that a fetch asks about.
#[derive(Debug, Clone)]
pub struct FetchSpec {
    pub topic: String,
    pub partitions: Vec<i32>,
}

/// The key of a partition's offset.
pub fn offset_key(topic: &str, partition: i32) -> (s: String)
    ensures
        s@ == text::slash_key(topic@, partition as int),
{
    slash_string(topic, partition as i64)
}

/// Whether a key is one of `topic`: what stands before its last slash is the
/// topic, and what stands behind it is a partition number.
pub open spec fn has_topic(key: Seq<char>, topic: Seq<char>) -> bool {
    match text::last_index(key, '/') {
        Some(i) => key.take(i) == topic && text::decimal_within(key.skip(i + 1), i32::MIN as int, i32::MAX as int) is Some,
        None => false,
    }
}

pub fn key_has_topic(key: &str, topic: &str) -> (r: bool)
    ensures
        r == has_topic(key@, topic@),
{
    let v = chars_of(key);
    let n: usize = v.len();
    match find_last(&v, '/') {
        Some(i) => {
            let t = text_of(&v, 0, i);
            let p = text_of(&v, i + 1, n);
            proof {
                assert(v@.subrange(0, i as int) =~= key@.take(i as int));
                assert(v@.subrange(i + 1, v@.len() as int) =~= key@.skip(i + 1));
            }
            if !text_eq(&t, topic) {
                return false;
            }
            match parse_decimal(&p) {
                Some(n) => n >= i32::MIN as i64 && n <= i32::MAX as i64,
                None => false,
            }
        },
        None => false,
    }
}

/// The name of the file of a group.
pub open spec fn file_named(group: Seq<char>) -> Seq<char> {
    group + ".json"@
}

pub fn file_name(group_id: &str) -> (s: String)
    ensures
        s@ == file_named(group_id@),
{
    let mut s = group_id.to_owned();
    s.push_str(".json");
    s
}

/// The group that a file is of, where it is one of a group.
pub open spec fn group_named(file: Seq<char>) -> Option<Seq<char>> {
    let end = ".json"@;
    if file.len() >= end.len() && file.skip(file.len() - end.len()) == end {
        Some(file.take(file.len() - end.len()))
    } else {
        None
    }
}

/// The groups that files are of; files of another kind are passed over.
pub open spec fn groups_named(files: Seq<Seq<char>>) -> Seq<Seq<char>>
    decreases files.len(),
{
    if files.len() == 0 {
        Seq::empty()
    } else {
        match group_named(files.last()) {
            Some(g) => groups_named(files.drop_last()).push(g),
            None => groups_named(files.drop_last()),
        }
    }
}

fn group_of_file(name: &str) -> (r: Option<String>)
    ensures
        match r {
            Some(g) => group_named(name@) == Some(g@),
            None => group_named(name@) is None,
        },
{
    let v = chars_of(name);
    let end = chars_of(".json");
    let n: usize = v.len();
    let m: usize = end.len();
    if n < m {
        return None;
    }
    let tail = text_of(&v, n - m, n);
    assert(v@.subrange(n - m, n as int) =~= name@.skip(n - m));
    if !text_eq(&tail, ".json") {
        return None;
    }
    let g = text_of(&v, 0, n - m);
    assert(v@.subrange(0, n - m) =~= name@.take(n - m));
    Some(g)
}

/// The groups with a file among the files of a directory.
pub fn group_ids_on_disk(file_names: &Vec<String>) -> (r: Vec<String>)
    ensures
        order::texts(r@) == groups_named(order::texts(file_names@)),
{
    let mut r: Vec<String> = Vec::new();
    let ghost files = order::texts(file_names@);
    let mut i: usize = 0;
    assert(order::texts(r@) =~= groups_named(files.take(0)));
    while i < file_names.len()
        invariant
            i <= file_names@.len(),
            files == order::texts(file_names@),
            order::texts(r@) == groups_named(files.take(i as int)),
        decreases file_names.len() - i,
    {
        let ghost had = r@;
        assert(files.take(i + 1).drop_last() =~= files.take(i as int));
        match group_of_file(&file_names[i]) {
            Some(g) => {
                r.push(g);
                assert(order::texts(r@) =~= order::texts(had).push(g@));
            },
            None => {},
        }
        i = i + 1;
    }
    assert(files.take(i as int) =~= files);
    r
}

/// A write that was refused: the file is stamped by a newer assignment.
#[derive(Debug, Clone, Copy, PartialEq, Eq, Structural)]
pub struct FencedOffsetWrite {
    pub on_disk: FenceStamp,
    pub local: FenceStamp,
}

/// A stamp in words.
pub open spec fn stamp_text(s: FenceStamp) -> Seq<char> {
    "FenceStamp { controller_epoch: "@ + text::int_text(s.controller_epoch as int) + ", assignment_version: "@ + text::int_text(
        s.assignment_version as int,
    ) + " }"@
}

fn stamp_string(s: FenceStamp) -> (r: String)
    ensures
        r@ == stamp_text(s),
{
    let e = int_string(s.controller_epoch);
    let v = int_string(s.assignment_version);
    let mut r = joined3("FenceStamp { controller_epoch: ", &e, ", assignment_version: ");
    r.push_str(&v);
    r.push_str(" }");
    r
}

impl FencedOffsetWrite {
    /// The refusal in words.
    pub fn message(&self) -> (s: String)
        ensures
            s@ == "offset write fenced: on-disk assignment "@ + stamp_text(self.on_disk) + " newer than local "@ + stamp_text(self.local),
    {
        let d = stamp_string(self.on_disk);
        let l = stamp_string(self.local);
        let mut s = joined3("offset write fenced: on-disk assignment ", &d, " newer than local ");
        s.push_str(&l);
        s
    }
}

/// The offsets of one group, with the note committed beside each.
pub struct GroupOffsets {
    pub offsets: TextMap<i64>,
    pub metadata: TextMap<String>,
}

#[verifier::ext_equal]
pub struct GroupOffsetsModel {
    pub offsets: Map<Seq<char>, i64>,
    pub notes: Map<Seq<char>, Seq<char>>,
}

pub open spec fn note_map(m: Map<Seq<char>, String>) -> Map<Seq<char>, Seq<char>> {
    m.map_values(|s: String| s@)
}

impl View for GroupOffsets {
    type V = GroupOffsetsModel;

    open spec fn view(&self) -> GroupOffsetsModel {
        GroupOffsetsModel { offsets: self.offsets@, notes: note_map(self.metadata@) }
    }
}

/// What the file of a group holds.
pub struct OffsetFile {
    pub group: GroupOffsets,
    pub fence: FenceStamp,
}

#[derive(Debug)]
pub struct OffsetStore {
    cache: TextMap<TextMap<i64>>,
    metadata: TextMap<TextMap<String>>,
    pending: TextMap<TextMap<i64>>,
    dirty: TextMap<bool>,
}

#[verifier::ext_equal]
pub struct OffsetModel {
    /// Offsets by group and key.
    pub cache: Map<Seq<char>, Map<Seq<char>, i64>>,
    /// Notes by group and key.
    pub notes: Map<Seq<char>, Map<Seq<char>, Seq<char>>>,
    /// Staged offsets by group and producer.
    pub pending: Map<Seq<char>, Map<Seq<char>, i64>>,
    /// Groups whose file may lag behind.
    pub dirty: Set<Seq<char>>,
}

pub open spec fn offset_view() -> spec_fn(TextMap<i64>) -> Map<Seq<char>, i64> {
    |m: TextMap<i64>| m@
}

pub open spec fn note_view() -> spec_fn(TextMap<String>) -> Map<Seq<char>, Seq<char>> {
    |m: TextMap<String>| note_map(m@)
}

impl View for OffsetStore {
    type V = OffsetModel;

    closed spec fn view(&self) -> OffsetModel {
        OffsetModel {
            cache: self.cache@.map_values(offset_view()),
            notes: self.metadata@.map_values(note_view()),
            pending: self.pending@.map_values(offset_view()),
            dirty: self.dirty@.dom(),
        }
    }
}

// What the operations do.

pub open spec fn empty_store() -> OffsetModel {
    OffsetModel { cache: Map::empty(), notes: Map::empty(), pending: Map::empty(), dirty: Set::empty() }
}

/// The offsets held for a group.
pub open spec fn offsets_of(m: OffsetModel, group: Seq<char>) -> Map<Seq<char>, i64> {
    if m.cache.contains_key(group) {
        m.cache[group]
    } else {
        Map::empty()
    }
}

/// The notes held for a group.
pub open spec fn notes_of(m: OffsetModel, group: Seq<char>) -> Map<Seq<char>, Seq<char>> {
    if m.notes.contains_key(group) {
        m.notes[group]
    } else {
        Map::empty()
    }
}

pub open spec fn snapshot_of(m: OffsetModel, group: Seq<char>) -> GroupOffsetsModel {
    GroupOffsetsModel { offsets: offsets_of(m, group), notes: notes_of(m, group) }
}

/// The committed offset under a key, -1 where there is none.
pub open spec fn committed_offset(m: OffsetModel, group: Seq<char>, key: Seq<char>) -> i64 {
    if offsets_of(m, group).contains_key(key) {
        offsets_of(m, group)[key]
    } else {
        -1i64
    }
}

/// Notes with others laid over them; an empty note takes its key out.
pub open spec fn laid_over(old_notes: Map<Seq<char>, Seq<char>>, new_notes: Map<Seq<char>, Seq<char>>) -> Map<
    Seq<char>,
    Seq<char>,
> {
    Map::new(
        |k: Seq<char>|
            if new_notes.contains_key(k) {
                new_notes[k].len() > 0
            } else {
                old_notes.contains_key(k)
            },
        |k: Seq<char>|
            if new_notes.contains_key(k) {
                new_notes[k]
            } else {
                old_notes[k]
            },
    )
}

/// The state after a commit.
pub open spec fn commit_next(
    m: OffsetModel,
    group: Seq<char>,
    offsets: Map<Seq<char>, i64>,
    notes: Map<Seq<char>, Seq<char>>,
) -> OffsetModel {
    OffsetModel {
        cache: m.cache.insert(group, offsets_of(m, group).union_prefer_right(offsets)),
        notes: m.notes.insert(group, laid_over(notes_of(m, group), notes)),
        pending: m.pending,
        dirty: m.dirty,
    }
}

/// Whether the offset under `k` is new or another one.
pub open spec fn offset_moves(held: Map<Seq<char>, i64>, offsets: Map<Seq<char>, i64>, k: Seq<char>) -> bool {
    offsets.contains_key(k) && !(held.contains_key(k) && held[k] == offsets[k])
}

/// Whether the note under `k` is new, another one, or goes.
pub open spec fn note_moves(held: Map<Seq<char>, Seq<char>>, notes: Map<Seq<char>, Seq<char>>, k: Seq<char>) -> bool {
    notes.contains_key(k) && if notes[k].len() == 0 {
        held.contains_key(k)
    } else {
        !(held.contains_key(k) && held[k] == notes[k])
    }
}

/// Whether a commit has to be written: it moves something, or the file may lag
/// behind.
pub open spec fn commit_writes(
    m: OffsetModel,
    group: Seq<char>,
    offsets: Map<Seq<char>, i64>,
    notes: Map<Seq<char>, Seq<char>>,
) -> bool {
    ||| exists|k: Seq<char>| #[trigger] offset_moves(offsets_of(m, group), offsets, k)
    ||| exists|k: Seq<char>| #[trigger] note_moves(notes_of(m, group), notes, k)
    ||| m.dirty.contains(group)
}

/// The key under which a transaction stages offsets of a group.
pub open spec fn pending_key(group: Seq<char>, producer: i64) -> Seq<char> {
    text::slash_key(group, producer as int)
}

pub open spec fn staged(m: OffsetModel, group: Seq<char>, producer: i64) -> Option<Map<Seq<char>, i64>> {
    let k = pending_key(group, producer);
    if m.pending.contains_key(k) {
        Some(m.pending[k])
    } else {
        None
    }
}

pub open spec fn stage_next(m: OffsetModel, group: Seq<char>, producer: i64, offsets: Map<Seq<char>, i64>) -> OffsetModel {
    let before = match staged(m, group, producer) {
        Some(s) => s,
        None => Map::empty(),
    };
    OffsetModel { pending: m.pending.insert(pending_key(group, producer), before.union_prefer_right(offsets)), ..m }
}

pub open spec fn unstage_next(m: OffsetModel, group: Seq<char>, producer: i64) -> OffsetModel {
    OffsetModel { pending: m.pending.remove(pending_key(group, producer)), ..m }
}

pub open spec fn commit_pending_next(m: OffsetModel, group: Seq<char>, producer: i64) -> OffsetModel {
    match staged(m, group, producer) {
        Some(s) => commit_next(unstage_next(m, group, producer), group, s, Map::empty()),
        None => m,
    }
}

/// A group without the offsets and notes under some keys.
pub open spec fn without_keys(m: OffsetModel, group: Seq<char>, keys: Set<Seq<char>>) -> OffsetModel {
    OffsetModel {
        cache: m.cache.insert(group, offsets_of(m, group).remove_keys(keys)),
        notes: if m.notes.contains_key(group) {
            m.notes.insert(group, m.notes[group].remove_keys(keys))
        } else {
            m.notes
        },
        ..m
    }
}

/// The keys of a topic.
pub open spec fn topic_keys(topic: Seq<char>) -> Set<Seq<char>> {
    Set::new(|k: Seq<char>| has_topic(k, topic))
}

pub open spec fn purge_next(m: OffsetModel, group: Seq<char>, topic: Seq<char>) -> OffsetModel {
    without_keys(m, group, offsets_of(m, group).dom().intersect(topic_keys(topic)))
}

pub open spec fn delete_next(m: OffsetModel, group: Seq<char>) -> OffsetModel {
    OffsetModel {
        cache: m.cache.remove(group),
        notes: m.notes.remove(group),
        dirty: m.dirty.remove(group),
        ..m
    }
}

pub open spec fn load_next(m: OffsetModel, group: Seq<char>, file: GroupOffsetsModel) -> OffsetModel {
    OffsetModel {
        cache: m.cache.insert(group, file.offsets),
        notes: if file.notes.dom().len() > 0 {
            m.notes.insert(group, file.notes)
        } else {
            m.notes
        },
        ..m
    }
}

/// Whether a write under `local` is refused.
pub open spec fn is_fenced(local: FenceStamp, on_disk: Option<FenceStamp>) -> bool {
    on_disk matches Some(d) && fence::newer(d, local)
}

pub open spec fn marked_dirty(m: OffsetModel, group: Seq<char>, lags: bool) -> OffsetModel {
    OffsetModel {
        dirty: if lags {
            m.dirty.insert(group)
        } else {
            m.dirty.remove(group)
        },
        ..m
    }
}

/// A fetch as topics with partitions.
pub open spec fn asked_rows(specs: Seq<FetchSpec>) -> Seq<(Seq<char>, Seq<i32>)> {
    specs.map_values(|s: FetchSpec| (s.topic@, s.partitions@))
}

pub open spec fn partition_keys(topic: Seq<char>, partitions: Seq<i32>) -> Seq<Seq<char>> {
    partitions.map_values(|p: i32| text::slash_key(topic, p as int))
}

/// The keys that a fetch asks about.
pub open spec fn asked_keys(rows: Seq<(Seq<char>, Seq<i32>)>) -> Seq<Seq<char>>
    decreases rows.len(),
{
    if rows.len() == 0 {
        Seq::empty()
    } else {
        asked_keys(rows.drop_last()) + partition_keys(rows.last().0, rows.last().1)
    }
}

// Helpers.

proof fn lemma_note_map(m: Map<Seq<char>, String>, k: Seq<char>, v: String)
    ensures
        note_map(m).dom() == m.dom(),
        note_map(m.insert(k, v)) == note_map(m).insert(k, v@),
        note_map(m.remove(k)) == note_map(m).remove(k),
        m.contains_key(k) ==> note_map(m)[k] == m[k]@,
{
    assert(note_map(m).dom() =~= m.dom());
    assert(note_map(m.insert(k, v)) =~= note_map(m).insert(k, v@));
    assert(note_map(m.remove(k)) =~= note_map(m).remove(k));
}

fn copy_offsets(m: &TextMap<i64>) -> (r: TextMap<i64>)
    ensures
        r@ == m@,
{
    let mut r: TextMap<i64> = TextMap::new();
    let n: usize = m.len();
    let ghost ks = m.key_list();
    let mut i: usize = 0;
    assert(r@ =~= m@.restrict(ks.take(0).to_set()));
    while i < n
        invariant
            i <= n,
            n == ks.len(),
            ks == m.key_list(),
            ks.to_set() == m@.dom(),
            r@ == m@.restrict(ks.take(i as int).to_set()),
        decreases n - i,
    {
        r.insert(m.key_at(i).clone(), *m.value_at(i));
        proof {
            assert(ks.take(i + 1) =~= ks.take(i as int).push(ks[i as int]));
            ks.take(i as int).lemma_push_to_set_commute(ks[i as int]);
            assert(r@ =~= m@.restrict(ks.take(i + 1).to_set()));
        }
        i = i + 1;
    }
    proof {
        assert(ks.take(i as int) =~= ks);
        assert(r@ =~= m@);
    }
    r
}

fn copy_notes(m: &TextMap<String>) -> (r: TextMap<String>)
    ensures
        r@ == m@,
{
    let mut r: TextMap<String> = TextMap::new();
    let n: usize = m.len();
    let ghost ks = m.key_list();
    let mut i: usize = 0;
    assert(r@ =~= m@.restrict(ks.take(0).to_set()));
    while i < n
        invariant
            i <= n,
            n == ks.len(),
            ks == m.key_list(),
            ks.to_set() == m@.dom(),
            r@ == m@.restrict(ks.take(i as int).to_set()),
        decreases n - i,
    {
        r.insert(m.key_at(i).clone(), m.value_at(i).clone());
        proof {
            assert(ks.take(i + 1) =~= ks.take(i as int).push(ks[i as int]));
            ks.take(i as int).lemma_push_to_set_commute(ks[i as int]);
            assert(r@ =~= m@.restrict(ks.take(i + 1).to_set()));
        }
        i = i + 1;
    }
    proof {
        assert(ks.take(i as int) =~= ks);
        assert(r@ =~= m@);
    }
    r
}

/// Lays offsets over others and says whether anything moved.
fn merge_offsets(into: &mut TextMap<i64>, from: &TextMap<i64>) -> (changed: bool)
    ensures
        final(into)@ == old(into)@.union_prefer_right(from@),
        changed == exists|k: Seq<char>| #[trigger] offset_moves(old(into)@, from@, k),
{
    let ghost held = into@;
    let n: usize = from.len();
    let ghost ks = from.key_list();
    let mut changed: bool = false;
    let ghost mut moved: Seq<char> = Seq::empty();
    let mut i: usize = 0;
    assert(into@ =~= held.union_prefer_right(from@.restrict(ks.take(0).to_set())));
    while i < n
        invariant
            i <= n,
            n == ks.len(),
            ks == from.key_list(),
            ks.no_duplicates(),
            ks.to_set() == from@.dom(),
            held == old(into)@,
            into@ == held.union_prefer_right(from@.restrict(ks.take(i as int).to_set())),
            changed ==> offset_moves(held, from@, moved),
            !changed ==> forall|j: int| 0 <= j < i ==> !offset_moves(held, from@, #[trigger] ks[j]),
        decreases n - i,
    {
        let k = from.key_at(i);
        let v: i64 = *from.value_at(i);
        let ghost key = ks[i as int];
        proof {
            assert(!ks.take(i as int).contains(key)) by {
                if ks.take(i as int).contains(key) {
                    let j = choose|j: int| 0 <= j < i && ks.take(i as int)[j] == key;
                    assert(ks[j] == ks[i as int]);
                }
            }
        }
        let same: bool = match into.get(k) {
            Some(x) => *x == v,
            None => false,
        };
        if !same {
            changed = true;
            proof {
                moved = key;
            }
        }
        into.insert(k.clone(), v);
        proof {
            assert(ks.take(i + 1) =~= ks.take(i as int).push(key));
            ks.take(i as int).lemma_push_to_set_commute(key);
            assert(into@ =~= held.union_prefer_right(from@.restrict(ks.take(i + 1).to_set())));
        }
        i = i + 1;
    }
    proof {
        assert(ks.take(i as int) =~= ks);
        assert(from@.restrict(ks.to_set()) =~= from@);
        if !changed {
            assert forall|k: Seq<char>| !(#[trigger] offset_moves(held, from@, k)) by {
                if from@.contains_key(k) {
                    assert(ks.to_set().contains(k));
                    let j = choose|j: int| 0 <= j < ks.len() && ks[j] == k;
                    assert(!offset_moves(held, from@, ks[j]));
                }
            }
        }
    }
    changed
}

/// Lays notes over others and says whether anything moved.
fn merge_notes(into: &mut TextMap<String>, from: &TextMap<String>) -> (changed: bool)
    ensures
        note_map(final(into)@) == laid_over(note_map(old(into)@), note_map(from@)),
        changed == exists|k: Seq<char>| #[trigger] note_moves(note_map(old(into)@), note_map(from@), k),
{
    let ghost held = note_map(into@);
    let ghost news = note_map(from@);
    let n: usize = from.len();
    let ghost ks = from.key_list();
    let mut changed: bool = false;
    let ghost mut moved: Seq<char> = Seq::empty();
    let mut i: usize = 0;
    proof {
        lemma_note_map(from@, Seq::empty(), arbitrary());
        lemma_note_map(into@, Seq::empty(), arbitrary());
        assert(note_map(into@) =~= laid_over(held, news.restrict(ks.take(0).to_set())));
    }
    while i < n
        invariant
            i <= n,
            n == ks.len(),
            ks == from.key_list(),
            ks.no_duplicates(),
            ks.to_set() == from@.dom(),
            news == note_map(from@),
            news.dom() == from@.dom(),
            held == note_map(old(into)@),
            note_map(into@) == laid_over(held, news.restrict(ks.take(i as int).to_set())),
            changed ==> note_moves(held, news, moved),
            !changed ==> forall|j: int| 0 <= j < i ==> !note_moves(held, news, #[trigger] ks[j]),
        decreases n - i,
    {
        let k = from.key_at(i);
        let v = from.value_at(i);
        let ghost key = ks[i as int];
        let ghost before = into@;
        proof {
            assert(!ks.take(i as int).contains(key)) by {
                if ks.take(i as int).contains(key) {
                    let j = choose|j: int| 0 <= j < i && ks.take(i as int)[j] == key;
                    assert(ks[j] == ks[i as int]);
                }
            }
            lemma_note_map(from@, key, *v);
            lemma_note_map(before, key, *v);
            assert(ks.take(i + 1) =~= ks.take(i as int).push(key));
            ks.take(i as int).lemma_push_to_set_commute(key);
        }
        if v.as_str().is_empty() {
            let gone = into.remove(k);
            if gone.is_some() {
                changed = true;
                proof {
                    moved = key;
                }
            }
        } else {
            let same: bool = match into.get(k) {
                Some(x) => text_eq(x, v),
                None => false,
            };
            if !same {
                changed = true;
                proof {
                    moved = key;
                }
            }
            into.insert(k.clone(), v.clone());
        }
        proof {
            assert(note_map(into@) =~= laid_over(held, news.restrict(ks.take(i + 1).to_set())));
        }
        i = i + 1;
    }
    proof {
        assert(ks.take(i as int) =~= ks);
        assert(news.restrict(ks.to_set()) =~= news);
        if !changed {
            assert forall|k: Seq<char>| !(#[trigger] note_moves(held, news, k)) by {
                if news.contains_key(k) {
                    assert(ks.to_set().contains(k));
                    let j = choose|j: int| 0 <= j < ks.len() && ks[j] == k;
                    assert(!note_moves(held, news, ks[j]));
                }
            }
        }
    }
    changed
}

/// Takes keys out of the offsets and the notes of a group.
fn drop_keys(group: &mut GroupOffsets, keys: &Vec<String>)
    ensures
        final(group)@ == (GroupOffsetsModel {
            offsets: old(group)@.offsets.remove_keys(order::texts(keys@).to_set()),
            notes: old(group)@.notes.remove_keys(order::texts(keys@).to_set()),
        }),
{
    let ghost g = group@;
    let ghost ks = order::texts(keys@);
    let mut i: usize = 0;
    proof {
        assert(g.offsets =~= g.offsets.remove_keys(ks.take(0).to_set()));
        assert(g.notes =~= g.notes.remove_keys(ks.take(0).to_set()));
    }
    while i < keys.len()
        invariant
            i <= keys@.len(),
            ks == order::texts(keys@),
            g == old(group)@,
            group@.offsets == g.offsets.remove_keys(ks.take(i as int).to_set()),
            group@.notes == g.notes.remove_keys(ks.take(i as int).to_set()),
        decreases keys.len() - i,
    {
        let ghost key = ks[i as int];
        proof {
            lemma_note_map(group.metadata@, key, arbitrary());
            assert(ks.take(i + 1) =~= ks.take(i as int).push(key));
            ks.take(i as int).lemma_push_to_set_commute(key);
        }
        let a = group.offsets.remove(&keys[i]);
        let b = group.metadata.remove(&keys[i]);
        proof {
            assert(group@.offsets =~= g.offsets.remove_keys(ks.take(i + 1).to_set()));
            assert(group@.notes =~= g.notes.remove_keys(ks.take(i + 1).to_set()));
        }
        i = i + 1;
    }
    assert(ks.take(i as int) =~= ks);
}

/// The keys of a topic among the offsets of a group.
fn keys_of_topic(offsets: &TextMap<i64>, topic: &str) -> (r: Vec<String>)
    ensures
        order::texts(r@).no_duplicates(),
        order::texts(r@).to_set() == offsets@.dom().intersect(topic_keys(topic@)),
        r@.len() == offsets@.dom().intersect(topic_keys(topic@)).len(),
{
    let mut r: Vec<String> = Vec::new();
    let n: usize = offsets.len();
    let ghost ks = offsets.key_list();
    let ghost of_topic = topic_keys(topic@);
    let mut i: usize = 0;
    assert(order::texts(r@).to_set() =~= ks.take(0).to_set().intersect(of_topic));
    while i < n
        invariant
            i <= n,
            n == ks.len(),
            ks == offsets.key_list(),
            ks.no_duplicates(),
            of_topic == topic_keys(topic@),
            order::texts(r@).no_duplicates(),
            order::texts(r@).to_set() == ks.take(i as int).to_set().intersect(of_topic),
        decreases n - i,
    {
        let ghost key = ks[i as int];
        let ghost before = order::texts(r@);
        let k = offsets.key_at(i);
        proof {
            assert(ks.take(i + 1) =~= ks.take(i as int).push(key));
            ks.take(i as int).lemma_push_to_set_commute(key);
            assert(!ks.take(i as int).contains(key)) by {
                if ks.take(i as int).contains(key) {
                    let j = choose|j: int| 0 <= j < i && ks.take(i as int)[j] == key;
                    assert(ks[j] == ks[i as int]);
                }
            }
        }
        if key_has_topic(k, topic) {
            r.push(k.clone());
            proof {
                assert(order::texts(r@) =~= before.push(key));
                before.lemma_push_to_set_commute(key);
                assert(!before.contains(key)) by {
                    if before.contains(key) {
                        assert(before.to_set().contains(key));
                        assert(ks.take(i as int).to_set().contains(key));
                    }
                }
            }
        }
        proof {
            assert(order::texts(r@).to_set() =~= ks.take(i + 1).to_set().intersect(of_topic));
        }
        i = i + 1;
    }
    proof {
        assert(ks.take(i as int) =~= ks);
        order::texts(r@).unique_seq_to_set();
    }
    r
}

/// The keys that a fetch asks about.
fn keys_asked(specs: &[FetchSpec]) -> (r: Vec<String>)
    ensures
        order::texts(r@) == asked_keys(asked_rows(specs@)),
{
    let ghost rows = asked_rows(specs@);
    let mut r: Vec<String> = Vec::new();
    let mut i: usize = 0;
    assert(order::texts(r@) =~= asked_keys(rows.take(0)));
    while i < specs.len()
        invariant
            i <= specs@.len(),
            rows == asked_rows(specs@),
            order::texts(r@) == asked_keys(rows.take(i as int)),
        decreases specs.len() - i,
    {
        let spec_i = &specs[i];
        let ghost topic = spec_i.topic@;
        let ghost parts = spec_i.partitions@;
        let ghost before = order::texts(r@);
        let mut j: usize = 0;
        assert(order::texts(r@) =~= before + partition_keys(topic, parts.take(0)));
        while j < spec_i.partitions.len()
            invariant
                j <= spec_i.partitions@.len(),
                topic == spec_i.topic@,
                parts == spec_i.partitions@,
                order::texts(r@) == before + partition_keys(topic, parts.take(j as int)),
            decreases spec_i.partitions.len() - j,
        {
            let ghost sofar = order::texts(r@);
            r.push(offset_key(&spec_i.topic, spec_i.partitions[j]));
            proof {
                assert(order::texts(r@) =~= sofar.push(text::slash_key(topic, parts[j as int] as int)));
                assert(order::texts(r@) =~= before + partition_keys(topic, parts.take(j + 1)));
            }
            j = j + 1;
        }
        proof {
            assert(parts.take(j as int) =~= parts);
            assert(rows.take(i + 1).drop_last() =~= rows.take(i as int));
            assert(rows.take(i + 1).last() == (topic, parts));
        }
        i = i + 1;
    }
    assert(rows.take(i as int) =~= rows);
    r
}

/// Takes the offsets of a topic out of what the file of a group holds, and
/// counts them; none where there are none.
pub fn purge_file(group: GroupOffsets, topic: &str) -> (r: Option<(usize, GroupOffsets)>)
    ensures
        match r {
            None => group@.offsets.dom().intersect(topic_keys(topic@)) == Set::<Seq<char>>::empty(),
            Some((n, left)) => n > 0 && n == group@.offsets.dom().intersect(topic_keys(topic@)).len() && left@ == (
            GroupOffsetsModel {
                offsets: group@.offsets.remove_keys(group@.offsets.dom().intersect(topic_keys(topic@))),
                notes: group@.notes.remove_keys(group@.offsets.dom().intersect(topic_keys(topic@))),
            }),
        },
{
    let doomed = keys_of_topic(&group.offsets, topic);
    if doomed.len() == 0 {
        assert(order::texts(doomed@).to_set() =~= Set::<Seq<char>>::empty());
        return None;
    }
    let mut left = group;
    drop_keys(&mut left, &doomed);
    Some((doomed.len(), left))
}

/// What a purge of a group that may be held here comes to.
pub enum Purge {
    /// The group is not held; its file has to be looked at.
    NotHeld,
    /// There is nothing to purge.
    Nothing,
    /// That many offsets went, and this is to be written.
    Write { count: usize, group: GroupOffsets },
}

impl OffsetStore {
    pub fn new() -> (s: Self)
        ensures
            s@ == empty_store(),
    {
        let s = OffsetStore {
            cache: TextMap::new(),
            metadata: TextMap::new(),
            pending: TextMap::new(),
            dirty: TextMap::new(),
        };
        assert(s@ =~= empty_store());
        s
    }

    /// The offsets and notes of a group, taken out of the maps.
    fn take_group(&mut self, group_id: &str) -> (r: GroupOffsets)
        ensures
            r@ == snapshot_of(old(self)@, group_id@),
            final(self)@ == (OffsetModel {
                cache: old(self)@.cache.remove(group_id@),
                notes: old(self)@.notes.remove(group_id@),
                ..old(self)@
            }),
    {
        proof {
            keyed::lemma_mapped(self.cache@, offset_view(), group_id@, arbitrary());
            keyed::lemma_mapped(self.metadata@, note_view(), group_id@, arbitrary());
        }
        let offsets: TextMap<i64> = match self.cache.remove(group_id) {
            Some(m) => m,
            None => TextMap::new(),
        };
        let metadata: TextMap<String> = match self.metadata.remove(group_id) {
            Some(m) => m,
            None => TextMap::new(),
        };
        let r = GroupOffsets { offsets, metadata };
        assert(r@ =~= snapshot_of(old(self)@, group_id@)) by {
            assert(note_map(Map::empty()) =~= Map::empty());
        }
        r
    }

    fn put_offsets(&mut self, group_id: &str, offsets: TextMap<i64>)
        ensures
            final(self)@ == (OffsetModel { cache: old(self)@.cache.insert(group_id@, offsets@), ..old(self)@ }),
    {
        proof {
            keyed::lemma_mapped(self.cache@, offset_view(), group_id@, offsets);
        }
        self.cache.insert(group_id.to_owned(), offsets);
    }

    fn put_notes(&mut self, group_id: &str, metadata: TextMap<String>)
        ensures
            final(self)@ == (OffsetModel { notes: old(self)@.notes.insert(group_id@, note_map(metadata@)), ..old(self)@ }),
    {
        proof {
            keyed::lemma_mapped(self.metadata@, note_view(), group_id@, metadata);
        }
        self.metadata.insert(group_id.to_owned(), metadata);
    }

    /// Stages offsets of an open transaction. No fetch sees them.
    pub fn store_pending(&mut self, group_id: &str, producer_id: i64, offsets: &TextMap<i64>)
        ensures
            final(self)@ == stage_next(old(self)@, group_id@, producer_id, offsets@),
    {
        let key = slash_string(group_id, producer_id);
        proof {
            keyed::lemma_mapped(self.pending@, offset_view(), key@, arbitrary());
        }
        let mut slot: TextMap<i64> = match self.pending.remove(&key) {
            Some(m) => m,
            None => TextMap::new(),
        };
        let moved = merge_offsets(&mut slot, offsets);
        proof {
            keyed::lemma_mapped(self.pending@, offset_view(), key@, slot);
        }
        self.pending.insert(key, slot);
        assert(self@ =~= stage_next(old(self)@, group_id@, producer_id, offsets@));
    }

    /// Commits what a transaction has staged; what has to be written, if
    /// anything. Without staged offsets nothing happens.
    pub fn commit_pending(&mut self, group_id: &str, producer_id: i64) -> (r: Option<GroupOffsets>)
        ensures
            final(self)@ == commit_pending_next(old(self)@, group_id@, producer_id),
            match staged(old(self)@, group_id@, producer_id) {
                Some(s) => r is Some <==> commit_writes(old(self)@, group_id@, s, Map::empty()),
                None => r is None,
            },
            r matches Some(g) ==> g@ == snapshot_of(final(self)@, group_id@),
    {
        let key = slash_string(group_id, producer_id);
        proof {
            keyed::lemma_mapped(self.pending@, offset_view(), key@, arbitrary());
        }
        match self.pending.remove(&key) {
            None => {
                assert(self@ =~= old(self)@);
                None
            },
            Some(offsets) => {
                assert(self@ =~= unstage_next(old(self)@, group_id@, producer_id));
                let ghost m = self@;
                let r = self.commit(group_id, &offsets);
                assert(offsets_of(m, group_id@) == offsets_of(old(self)@, group_id@));
                assert(notes_of(m, group_id@) == notes_of(old(self)@, group_id@));
                r
            },
        }
    }

    /// Drops what a transaction has staged.
    pub fn discard_pending(&mut self, group_id: &str, producer_id: i64)
        ensures
            final(self)@ == unstage_next(old(self)@, group_id@, producer_id),
    {
        let key = slash_string(group_id, producer_id);
        proof {
            keyed::lemma_mapped(self.pending@, offset_view(), key@, arbitrary());
        }
        let gone = self.pending.remove(&key);
    }

    /// What a transaction has staged.
    pub fn pending_for(&self, group_id: &str, producer_id: i64) -> (r: Option<TextMap<i64>>)
        ensures
            match r {
                Some(m) => staged(self@, group_id@, producer_id) == Some(m@),
                None => staged(self@, group_id@, producer_id) is None,
            },
    {
        let key = slash_string(group_id, producer_id);
        proof {
            keyed::lemma_mapped(self.pending@, offset_view(), key@, arbitrary());
        }
        match self.pending.get(&key) {
            Some(m) => Some(copy_offsets(m)),
            None => None,
        }
    }

    /// Commits offsets without notes.
    pub fn commit(&mut self, group_id: &str, offsets: &TextMap<i64>) -> (r: Option<GroupOffsets>)
        ensures
            final(self)@ == commit_next(old(self)@, group_id@, offsets@, Map::empty()),
            r is Some <==> commit_writes(old(self)@, group_id@, offsets@, Map::empty()),
            r matches Some(g) ==> g@ == snapshot_of(final(self)@, group_id@),
    {
        let none: TextMap<String> = TextMap::new();
        assert(note_map(none@) =~= Map::empty());
        self.commit_with_metadata(group_id, offsets, &none)
    }

    /// Commits offsets and notes; what has to be written, if anything. An
    /// empty note takes its key out.
    pub fn commit_with_metadata(&mut self, group_id: &str, offsets: &TextMap<i64>, metadata: &TextMap<String>) -> (r: Option<
        GroupOffsets,
    >)
        ensures
            final(self)@ == commit_next(old(self)@, group_id@, offsets@, note_map(metadata@)),
            r is Some <==> commit_writes(old(self)@, group_id@, offsets@, note_map(metadata@)),
            r matches Some(g) ==> g@ == snapshot_of(final(self)@, group_id@),
    {
        let mut group = self.take_group(group_id);
        let ghost held = group@;
        let a = merge_offsets(&mut group.offsets, offsets);
        let b = merge_notes(&mut group.metadata, metadata);
        let copy = GroupOffsets { offsets: copy_offsets(&group.offsets), metadata: copy_notes(&group.metadata) };
        self.put_offsets(group_id, group.offsets);
        self.put_notes(group_id, group.metadata);
        assert(self@ =~= commit_next(old(self)@, group_id@, offsets@, note_map(metadata@)));
        if a || b || self.dirty.contains_key(group_id) {
            Some(copy)
        } else {
            None
        }
    }

    /// Decides on a write: what the file is to hold, or that a newer
    /// assignment has written it. A refused write leaves the group to be
    /// written again.
    pub fn write_group(&mut self, group_id: &str, group: GroupOffsets, local: FenceStamp, on_disk: Option<FenceStamp>) -> (r:
        Result<OffsetFile, FencedOffsetWrite>)
        ensures
            match r {
                Ok(file) => !is_fenced(local, on_disk) && file.group@ == group@ && file.fence == local && final(self)@
                    == old(self)@,
                Err(e) => is_fenced(local, on_disk) && on_disk == Some(e.on_disk) && e.local == local && final(self)@
                    == marked_dirty(old(self)@, group_id@, true),
            },
    {
        match on_disk {
            Some(d) => {
                if d.newer_than(local) {
                    self.mark(group_id, true);
                    return Err(FencedOffsetWrite { on_disk: d, local });
                }
            },
            None => {},
        }
        Ok(OffsetFile { group, fence: local })
    }

    /// Takes down how a write went.
    pub fn write_finished(&mut self, group_id: &str, ok: bool)
        ensures
            final(self)@ == marked_dirty(old(self)@, group_id@, !ok),
    {
        self.mark(group_id, !ok);
    }

    fn mark(&mut self, group_id: &str, lags: bool)
        ensures
            final(self)@ == marked_dirty(old(self)@, group_id@, lags),
    {
        if lags {
            self.dirty.insert(group_id.to_owned(), true);
        } else {
            let gone = self.dirty.remove(group_id);
        }
        assert(self@ =~= marked_dirty(old(self)@, group_id@, lags));
    }

    /// The committed offset of each partition asked about, -1 where there is
    /// none.
    pub fn fetch(&self, group_id: &str, specs: &[FetchSpec]) -> (out: TextMap<i64>)
        ensures
            out@.dom() == asked_keys(asked_rows(specs@)).to_set(),
            forall|k: Seq<char>| out@.contains_key(k) ==> #[trigger] out@[k] == committed_offset(self@, group_id@, k),
    {
        proof {
            keyed::lemma_mapped(self.cache@, offset_view(), group_id@, arbitrary());
        }
        let keys = keys_asked(specs);
        let ghost ks = order::texts(keys@);
        let group = self.cache.get(group_id);
        let ghost held = offsets_of(self@, group_id@);
        let mut out: TextMap<i64> = TextMap::new();
        let mut i: usize = 0;
        assert(out@.dom() =~= ks.take(0).to_set());
        while i < keys.len()
            invariant
                i <= keys@.len(),
                ks == order::texts(keys@),
                held == offsets_of(self@, group_id@),
                match group {
                    Some(g) => g@ == held,
                    None => held == Map::<Seq<char>, i64>::empty(),
                },
                out@.dom() == ks.take(i as int).to_set(),
                forall|k: Seq<char>| out@.contains_key(k) ==> #[trigger] out@[k] == committed_offset(self@, group_id@, k),
            decreases keys.len() - i,
        {
            let v: i64 = match group {
                Some(g) => match g.get(&keys[i]) {
                    Some(x) => *x,
                    None => -1,
                },
                None => -1,
            };
            out.insert(keys[i].clone(), v);
            proof {
                assert(ks.take(i + 1) =~= ks.take(i as int).push(ks[i as int]));
                ks.take(i as int).lemma_push_to_set_commute(ks[i as int]);
                assert(out@.dom() =~= ks.take(i + 1).to_set());
            }
            i = i + 1;
        }
        assert(ks.take(i as int) =~= ks);
        out
    }

    /// The note of each partition asked about that has one.
    pub fn fetch_metadata(&self, group_id: &str, specs: &[FetchSpec]) -> (out: TextMap<String>)
        ensures
            note_map(out@) == notes_of(self@, group_id@).restrict(asked_keys(asked_rows(specs@)).to_set()),
    {
        proof {
            keyed::lemma_mapped(self.metadata@, note_view(), group_id@, arbitrary());
        }
        let keys = keys_asked(specs);
        let ghost ks = order::texts(keys@);
        let mut out: TextMap<String> = TextMap::new();
        let ghost held = notes_of(self@, group_id@);
        assert(note_map(out@) =~= held.restrict(ks.take(0).to_set()));
        match self.metadata.get(group_id) {
            None => {
                assert(note_map(out@) =~= held.restrict(ks.to_set()));
                out
            },
            Some(g) => {
                let mut i: usize = 0;
                while i < keys.len()
                    invariant
                        i <= keys@.len(),
                        ks == order::texts(keys@),
                        held == note_map(g@),
                        note_map(out@) == held.restrict(ks.take(i as int).to_set()),
                    decreases keys.len() - i,
                {
                    let ghost key = ks[i as int];
                    proof {
                        assert(ks.take(i + 1) =~= ks.take(i as int).push(key));
                        ks.take(i as int).lemma_push_to_set_commute(key);
                        lemma_note_map(g@, key, arbitrary());
                    }
                    match g.get(&keys[i]) {
                        Some(v) => {
                            proof {
                                lemma_note_map(out@, key, *v);
                            }
                            out.insert(keys[i].clone(), v.clone());
                        },
                        None => {},
                    }
                    assert(note_map(out@) =~= held.restrict(ks.take(i + 1).to_set()));
                    i = i + 1;
                }
                assert(ks.take(i as int) =~= ks);
                out
            },
        }
    }

    /// Whether offsets of a group are held here.
    pub fn has_group(&self, group_id: &str) -> (r: bool)
        ensures
            r == self@.cache.contains_key(group_id@),
    {
        proof {
            keyed::lemma_mapped(self.cache@, offset_view(), group_id@, arbitrary());
        }
        self.cache.contains_key(group_id)
    }

    /// Forgets a group; its file is to be removed.
    pub fn delete(&mut self, group_id: &str)
        ensures
            final(self)@ == delete_next(old(self)@, group_id@),
    {
        let gone = self.take_group(group_id);
        let lag = self.dirty.remove(group_id);
        assert(self@ =~= delete_next(old(self)@, group_id@));
    }

    /// Removes some offsets of a group, with their notes: the keys that went,
    /// and what is to be written. Nothing where the group is not held.
    pub fn delete_partitions(&mut self, group_id: &str, keys: &[String]) -> (r: Option<(Vec<String>, GroupOffsets)>)
        ensures
            match r {
                None => !old(self)@.cache.contains_key(group_id@) && final(self)@ == old(self)@,
                Some((gone, left)) => {
                    let hit = offsets_of(old(self)@, group_id@).dom().intersect(order::texts(keys@).to_set());
                    &&& old(self)@.cache.contains_key(group_id@)
                    &&& order::texts(gone@).no_duplicates()
                    &&& order::texts(gone@).to_set() == hit
                    &&& final(self)@ == without_keys(old(self)@, group_id@, hit)
                    &&& left@ == snapshot_of(final(self)@, group_id@)
                },
            },
    {
        if !self.has_group(group_id) {
            return None;
        }
        let had_notes: bool = self.has_notes(group_id);
        let mut group = self.take_group(group_id);
        let ghost held = group@;
        let ghost ks = order::texts(keys@);
        let mut gone: Vec<String> = Vec::new();
        let mut i: usize = 0;
        proof {
            assert(order::texts(gone@).to_set() =~= held.offsets.dom().intersect(ks.take(0).to_set()));
            assert(held.offsets =~= held.offsets.remove_keys(order::texts(gone@).to_set()));
        }
        while i < keys.len()
            invariant
                i <= keys@.len(),
                ks == order::texts(keys@),
                order::texts(gone@).no_duplicates(),
                order::texts(gone@).to_set() == held.offsets.dom().intersect(ks.take(i as int).to_set()),
                group.offsets@ == held.offsets.remove_keys(order::texts(gone@).to_set()),
                note_map(group.metadata@) == held.notes,
            decreases keys.len() - i,
        {
            let ghost key = ks[i as int];
            let ghost before = order::texts(gone@);
            proof {
                assert(ks.take(i + 1) =~= ks.take(i as int).push(key));
                ks.take(i as int).lemma_push_to_set_commute(key);
            }
            match group.offsets.remove(&keys[i]) {
                Some(x) => {
                    gone.push(keys[i].clone());
                    proof {
                        assert(order::texts(gone@) =~= before.push(key));
                        before.lemma_push_to_set_commute(key);
                        assert(!before.to_set().contains(key));
                    }
                },
                None => {
                    assert(held.offsets.dom().contains(key) ==> before.to_set().contains(key));
                },
            }
            proof {
                assert(order::texts(gone@).to_set() =~= held.offsets.dom().intersect(ks.take(i + 1).to_set()));
                assert(group.offsets@ =~= held.offsets.remove_keys(order::texts(gone@).to_set()));
            }
            i = i + 1;
        }
        assert(ks.take(i as int) =~= ks);
        let ghost hit = order::texts(gone@).to_set();
        drop_keys(&mut group, &gone);
        assert(group@.offsets =~= held.offsets.remove_keys(hit));
        let left = self.put_group(group_id, group, had_notes);
        assert(self@ =~= without_keys(old(self)@, group_id@, hit)) by {
            if !had_notes {
                assert(old(self)@.notes.remove(group_id@) =~= old(self)@.notes);
            }
        }
        assert(left@ =~= snapshot_of(self@, group_id@)) by {
            if !had_notes {
                assert(held.notes.remove_keys(hit) =~= Map::empty());
            }
        }
        Some((gone, left))
    }

    fn has_notes(&self, group_id: &str) -> (r: bool)
        ensures
            r == self@.notes.contains_key(group_id@),
    {
        proof {
            keyed::lemma_mapped(self.metadata@, note_view(), group_id@, arbitrary());
        }
        self.metadata.contains_key(group_id)
    }

    /// Puts a group back, and copies it.
    fn put_group(&mut self, group_id: &str, group: GroupOffsets, with_notes: bool) -> (copy: GroupOffsets)
        ensures
            copy@ == group@,
            final(self)@ == (OffsetModel {
                cache: old(self)@.cache.insert(group_id@, group@.offsets),
                notes: if with_notes {
                    old(self)@.notes.insert(group_id@, group@.notes)
                } else {
                    old(self)@.notes
                },
                ..old(self)@
            }),
    {
        let copy = GroupOffsets { offsets: copy_offsets(&group.offsets), metadata: copy_notes(&group.metadata) };
        self.put_offsets(group_id, group.offsets);
        if with_notes {
            self.put_notes(group_id, group.metadata);
        }
        copy
    }

    /// Drops every offset of a topic from a group that is held here.
    pub fn purge_topic(&mut self, group_id: &str, topic: &str) -> (r: Purge)
        ensures
            ({
                let hit = offsets_of(old(self)@, group_id@).dom().intersect(topic_keys(topic@));
                match r {
                    Purge::NotHeld => !old(self)@.cache.contains_key(group_id@) && final(self)@ == old(self)@,
                    Purge::Nothing => old(self)@.cache.contains_key(group_id@) && hit == Set::<Seq<char>>::empty()
                        && final(self)@ == old(self)@,
                    Purge::Write { count, group } => old(self)@.cache.contains_key(group_id@) && count > 0 && count == hit.len()
                        && final(self)@ == purge_next(old(self)@, group_id@, topic@) && group@ == snapshot_of(
                        final(self)@,
                        group_id@,
                    ),
                }
            }),
    {
        proof {
            keyed::lemma_mapped(self.cache@, offset_view(), group_id@, arbitrary());
        }
        let doomed = match self.cache.get(group_id) {
            None => {
                return Purge::NotHeld;
            },
            Some(g) => keys_of_topic(g, topic),
        };
        if doomed.len() == 0 {
            assert(order::texts(doomed@).to_set() =~= Set::<Seq<char>>::empty());
            return Purge::Nothing;
        }
        let had_notes: bool = self.has_notes(group_id);
        let mut group = self.take_group(group_id);
        let ghost held = group@;
        let ghost hit = order::texts(doomed@).to_set();
        drop_keys(&mut group, &doomed);
        let left = self.put_group(group_id, group, had_notes);
        assert(self@ =~= purge_next(old(self)@, group_id@, topic@)) by {
            if !had_notes {
                assert(old(self)@.notes.remove(group_id@) =~= old(self)@.notes);
            }
        }
        assert(left@ =~= snapshot_of(self@, group_id@)) by {
            if !had_notes {
                assert(held.notes.remove_keys(hit) =~= Map::empty());
            }
        }
        Purge::Write { count: doomed.len(), group: left }
    }

    /// Takes in what the file of a group holds.
    pub fn load(&mut self, group_id: &str, file: GroupOffsets)
        ensures
            final(self)@ == load_next(old(self)@, group_id@, file@),
    {
        proof {
            lemma_note_map(file.metadata@, Seq::empty(), arbitrary());
        }
        let with_notes: bool = file.metadata.len() > 0;
        self.put_offsets(group_id, file.offsets);
        if with_notes {
            self.put_notes(group_id, file.metadata);
        }
        assert(self@ =~= load_next(old(self)@, group_id@, file@));
    }
}

} // verus!
