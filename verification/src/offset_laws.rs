//! What holds of committed offsets across operations.

use vstd::prelude::*;
use crate::fence;
use crate::fence::FenceStamp;
use crate::offset_store;
use crate::offset_store::{GroupOffsetsModel, OffsetModel};
use crate::text;

verus! {

/// The key of an offset belongs to one topic and one partition.
pub proof fn law_keys_tell_partitions_apart(a: Seq<char>, p: i32, b: Seq<char>, q: i32)
    ensures
        text::slash_key(a, p as int) == text::slash_key(b, q as int) <==> a == b && p == q,
{
    if text::slash_key(a, p as int) == text::slash_key(b, q as int) {
        text::lemma_slash_key_injective(a, p as int, b, q as int);
    }
}

/// The key of a partition belongs to its topic and to no other, whatever
/// slashes the topics' names hold.
pub proof fn law_key_has_its_topic_only(topic: Seq<char>, partition: i32, other: Seq<char>)
    ensures
        offset_store::has_topic(text::slash_key(topic, partition as int), other) <==> topic == other,
{
    text::lemma_slash_key(topic, partition as int);
    text::lemma_int_text(partition as int);
}

/// The file of a group is of that group.
pub proof fn law_file_is_of_its_group(group: Seq<char>)
    ensures
        offset_store::group_named(offset_store::file_named(group)) == Some(group),
{
    let f = offset_store::file_named(group);
    let n = f.len() - ".json"@.len();
    assert(f.skip(n) =~= ".json"@);
    assert(f.take(n) =~= group);
}

/// A fetch gives back what was committed last. Other keys and other groups
/// keep what they had.
pub proof fn law_commit_then_fetch(
    m: OffsetModel,
    group: Seq<char>,
    offsets: Map<Seq<char>, i64>,
    notes: Map<Seq<char>, Seq<char>>,
    g: Seq<char>,
    k: Seq<char>,
)
    ensures
        offset_store::committed_offset(offset_store::commit_next(m, group, offsets, notes), g, k) == (if g == group
            && offsets.contains_key(k) {
            offsets[k]
        } else {
            offset_store::committed_offset(m, g, k)
        }),
{
}

/// An empty note clears the one under its key, and any other replaces it.
pub proof fn law_empty_note_clears(
    m: OffsetModel,
    group: Seq<char>,
    offsets: Map<Seq<char>, i64>,
    notes: Map<Seq<char>, Seq<char>>,
    k: Seq<char>,
)
    requires
        notes.contains_key(k),
    ensures
        ({
            let after = offset_store::notes_of(offset_store::commit_next(m, group, offsets, notes), group);
            &&& after.contains_key(k) <==> notes[k].len() > 0
            &&& notes[k].len() > 0 ==> after[k] == notes[k]
        }),
{
}

/// Committing the same again writes nothing, unless the file may lag behind.
pub proof fn law_same_commit_writes_nothing(
    m: OffsetModel,
    group: Seq<char>,
    offsets: Map<Seq<char>, i64>,
    notes: Map<Seq<char>, Seq<char>>,
)
    ensures
        ({
            let after = offset_store::commit_next(m, group, offsets, notes);
            &&& offset_store::commit_writes(after, group, offsets, notes) <==> m.dirty.contains(group)
            &&& offset_store::commit_next(after, group, offsets, notes) == after
        }),
{
    let after = offset_store::commit_next(m, group, offsets, notes);
    assert forall|k: Seq<char>| !(#[trigger] offset_store::offset_moves(offset_store::offsets_of(after, group), offsets, k)) by {}
    assert forall|k: Seq<char>| !(#[trigger] offset_store::note_moves(offset_store::notes_of(after, group), notes, k)) by {}
    let again = offset_store::commit_next(after, group, offsets, notes);
    assert(again.cache[group] =~= after.cache[group]);
    assert(again.notes[group] =~= after.notes[group]);
    assert(again.cache =~= after.cache);
    assert(again.notes =~= after.notes);
}

/// A commit that writes nothing leaves what was held as it was.
pub proof fn law_silent_commit_changes_no_offset(
    m: OffsetModel,
    group: Seq<char>,
    offsets: Map<Seq<char>, i64>,
    notes: Map<Seq<char>, Seq<char>>,
)
    requires
        !offset_store::commit_writes(m, group, offsets, notes),
    ensures
        offset_store::snapshot_of(offset_store::commit_next(m, group, offsets, notes), group)
            == offset_store::snapshot_of(m, group),
{
    let after = offset_store::commit_next(m, group, offsets, notes);
    let held = offset_store::snapshot_of(m, group);
    assert forall|k: Seq<char>| #[trigger] offsets.dom().contains(k) implies held.offsets.contains_key(k) && held.offsets[k] == offsets[k] by {
        assert(!offset_store::offset_moves(held.offsets, offsets, k));
    }
    assert forall|k: Seq<char>| #[trigger] notes.dom().contains(k) implies (if notes[k].len() == 0 {
        !held.notes.contains_key(k)
    } else {
        held.notes.contains_key(k) && held.notes[k] == notes[k]
    }) by {
        assert(!offset_store::note_moves(held.notes, notes, k));
    }
    assert(offset_store::offsets_of(after, group) =~= held.offsets);
    assert(offset_store::notes_of(after, group) =~= held.notes);
}

/// After a write that failed or was refused the next commit writes, whatever
/// it holds, until one succeeds.
pub proof fn law_lagging_file_is_written_again(
    m: OffsetModel,
    group: Seq<char>,
    offsets: Map<Seq<char>, i64>,
    notes: Map<Seq<char>, Seq<char>>,
)
    ensures
        offset_store::commit_writes(offset_store::marked_dirty(m, group, true), group, offsets, notes),
        !offset_store::marked_dirty(m, group, false).dirty.contains(group),
        offset_store::commit_next(m, group, offsets, notes).dirty == m.dirty,
{
}

/// Staged offsets are invisible until their transaction commits.
pub proof fn law_staged_offsets_are_invisible(
    m: OffsetModel,
    group: Seq<char>,
    producer: i64,
    offsets: Map<Seq<char>, i64>,
    g: Seq<char>,
    k: Seq<char>,
)
    ensures
        offset_store::committed_offset(offset_store::stage_next(m, group, producer, offsets), g, k)
            == offset_store::committed_offset(m, g, k),
{
}

/// Committing a transaction makes the offsets visible that it staged last.
pub proof fn law_staged_offsets_become_visible(
    m: OffsetModel,
    group: Seq<char>,
    producer: i64,
    offsets: Map<Seq<char>, i64>,
    k: Seq<char>,
)
    requires
        offsets.contains_key(k),
    ensures
        offset_store::committed_offset(
            offset_store::commit_pending_next(offset_store::stage_next(m, group, producer, offsets), group, producer),
            group,
            k,
        ) == offsets[k],
{
}

/// Once a transaction has committed or aborted nothing of it is left to
/// commit.
pub proof fn law_ended_transaction_has_nothing_staged(m: OffsetModel, group: Seq<char>, producer: i64)
    ensures
        ({
            let done = offset_store::commit_pending_next(m, group, producer);
            let dropped = offset_store::unstage_next(m, group, producer);
            &&& offset_store::staged(done, group, producer) is None
            &&& offset_store::commit_pending_next(done, group, producer) == done
            &&& offset_store::staged(dropped, group, producer) is None
            &&& offset_store::commit_pending_next(dropped, group, producer) == dropped
        }),
{
}

/// What one transaction stages, commits or drops leaves what another has
/// staged.
pub proof fn law_transactions_stage_apart(
    m: OffsetModel,
    group: Seq<char>,
    producer: i64,
    offsets: Map<Seq<char>, i64>,
    g: Seq<char>,
    p: i64,
)
    requires
        g != group || p != producer,
    ensures
        offset_store::staged(offset_store::stage_next(m, group, producer, offsets), g, p) == offset_store::staged(m, g, p),
        offset_store::staged(offset_store::commit_pending_next(m, group, producer), g, p) == offset_store::staged(m, g, p),
        offset_store::staged(offset_store::unstage_next(m, group, producer), g, p) == offset_store::staged(m, g, p),
{
    if offset_store::pending_key(g, p) == offset_store::pending_key(group, producer) {
        text::lemma_slash_key_injective(g, p as int, group, producer as int);
    }
}

/// A purge takes every offset of the topic and no other, and the notes with
/// them.
pub proof fn law_purge_takes_the_topic_only(
    m: OffsetModel,
    group: Seq<char>,
    topic: Seq<char>,
    g: Seq<char>,
    t: Seq<char>,
    p: i32,
)
    requires
        m.cache.contains_key(group),
    ensures
        ({
            let after = offset_store::purge_next(m, group, topic);
            let k = text::slash_key(t, p as int);
            &&& offset_store::committed_offset(after, g, k) == (if g == group && t == topic {
                -1i64
            } else {
                offset_store::committed_offset(m, g, k)
            })
            &&& (g == group && t == topic && offset_store::offsets_of(m, group).contains_key(k)) ==> !offset_store::notes_of(
                after,
                g,
            ).contains_key(k)
            &&& (g != group || t != topic) ==> {
                &&& offset_store::notes_of(after, g).contains_key(k) == offset_store::notes_of(m, g).contains_key(k)
                &&& offset_store::notes_of(m, g).contains_key(k) ==> offset_store::notes_of(after, g)[k]
                    == offset_store::notes_of(m, g)[k]
            }
        }),
{
    law_key_has_its_topic_only(t, p, topic);
}

/// Purging again finds nothing.
pub proof fn law_purge_is_idempotent(m: OffsetModel, group: Seq<char>, topic: Seq<char>)
    ensures
        offset_store::offsets_of(offset_store::purge_next(m, group, topic), group).dom().intersect(
            offset_store::topic_keys(topic),
        ) == Set::<Seq<char>>::empty(),
{
    let after = offset_store::purge_next(m, group, topic);
    assert(offset_store::offsets_of(after, group).dom().intersect(offset_store::topic_keys(topic)) =~= Set::<Seq<char>>::empty());
}

/// A coordinator that loads the file of a group answers as the one that wrote
/// it: the same offsets, and the same notes where it held none before.
pub proof fn law_loading_gives_back_what_was_written(m: OffsetModel, fresh: OffsetModel, group: Seq<char>, file: GroupOffsetsModel, k: Seq<char>)
    requires
        file == offset_store::snapshot_of(m, group),
        !fresh.notes.contains_key(group),
        file.notes.dom().finite(),
    ensures
        ({
            let loaded = offset_store::load_next(fresh, group, file);
            &&& offset_store::committed_offset(loaded, group, k) == offset_store::committed_offset(m, group, k)
            &&& offset_store::snapshot_of(loaded, group) == offset_store::snapshot_of(m, group)
        }),
{
    let loaded = offset_store::load_next(fresh, group, file);
    if file.notes.dom().len() == 0 {
        assert(file.notes.dom() =~= Set::empty());
        assert(file.notes =~= Map::empty());
    }
    assert(offset_store::notes_of(loaded, group) =~= offset_store::notes_of(m, group));
}

/// The stamp on a file never goes back: what is written carries a stamp that
/// the one before it does not exceed, and a newer one is never overwritten.
pub proof fn law_fence_never_goes_back(local: FenceStamp, on_disk: FenceStamp)
    ensures
        offset_store::is_fenced(local, Some(on_disk)) <==> fence::newer(on_disk, local),
        !offset_store::is_fenced(local, Some(on_disk)) ==> local == on_disk || fence::newer(local, on_disk),
        !offset_store::is_fenced(local, None),
{
}

/// A file without a stamp may be written under any that is not negative.
pub proof fn law_unstamped_file_is_open(local: FenceStamp)
    requires
        local.controller_epoch >= 0,
        local.assignment_version >= 0,
    ensures
        !offset_store::is_fenced(local, Some(FenceStamp { controller_epoch: 0, assignment_version: 0 })),
{
}

/// A deleted group is gone, and deleting it again changes nothing.
pub proof fn law_deleted_group_is_gone(m: OffsetModel, group: Seq<char>, k: Seq<char>)
    ensures
        ({
            let after = offset_store::delete_next(m, group);
            &&& !after.cache.contains_key(group)
            &&& offset_store::committed_offset(after, group, k) == -1
            &&& offset_store::delete_next(after, group) == after
        }),
{
    let after = offset_store::delete_next(m, group);
    assert(offset_store::delete_next(after, group) =~= after);
}

// What is held after each operation, key by key.

/// The offset that is shown under a key is the one that is held for the group,
/// and -1 where none is.
pub proof fn law_fetch_shows_what_is_held(m: OffsetModel, group: Seq<char>, k: Seq<char>)
    ensures
        m.cache.contains_key(group) && m.cache[group].contains_key(k) ==> offset_store::committed_offset(m, group, k)
            == m.cache[group][k],
        !m.cache.contains_key(group) || !m.cache[group].contains_key(k) ==> offset_store::committed_offset(m, group, k) == -1,
        offset_store::notes_of(m, group).contains_key(k) <==> m.notes.contains_key(group) && m.notes[group].contains_key(k),
        offset_store::notes_of(m, group).contains_key(k) ==> offset_store::notes_of(m, group)[k] == m.notes[group][k],
        offset_store::offsets_of(m, group).contains_key(k) <==> m.cache.contains_key(group) && m.cache[group].contains_key(k),
{
}

/// What is staged for a transaction lies under its group and producer.
pub open spec fn stages(m: OffsetModel, group: Seq<char>, producer: i64, k: Seq<char>) -> Option<i64> {
    let at = group.push('/') + text::int_text(producer as int);
    if m.pending.contains_key(at) && m.pending[at].contains_key(k) {
        Some(m.pending[at][k])
    } else {
        None
    }
}

/// Staging accumulates: a request puts its own offsets over those that the
/// transaction staged before, and leaves every other key of it, and every
/// other transaction and group, as it was. Nothing else is touched.
pub proof fn law_staging_accumulates(
    m: OffsetModel,
    group: Seq<char>,
    producer: i64,
    offsets: Map<Seq<char>, i64>,
    g: Seq<char>,
    p: i64,
    k: Seq<char>,
)
    ensures
        ({
            let after = offset_store::stage_next(m, group, producer, offsets);
            &&& stages(after, g, p, k) == (if g == group && p == producer && offsets.contains_key(k) {
                Some(offsets[k])
            } else {
                stages(m, g, p, k)
            })
            &&& after.cache == m.cache
            &&& after.notes == m.notes
            &&& after.dirty == m.dirty
        }),
{
    if text::slash_key(g, p as int) == text::slash_key(group, producer as int) {
        text::lemma_slash_key_injective(g, p as int, group, producer as int);
    }
}

/// Where several requests of one transaction stage offsets, its commit shows
/// under each key what the last of them that named the key gave it, also where
/// a later one did not name it; a key that none named keeps what it had.
pub proof fn law_commit_shows_every_staged_offset(
    m: OffsetModel,
    group: Seq<char>,
    producer: i64,
    first: Map<Seq<char>, i64>,
    second: Map<Seq<char>, i64>,
    g: Seq<char>,
    k: Seq<char>,
)
    ensures
        ({
            let both = offset_store::stage_next(offset_store::stage_next(m, group, producer, first), group, producer, second);
            let after = offset_store::commit_pending_next(both, group, producer);
            offset_store::committed_offset(after, g, k) == (if g == group && second.contains_key(k) {
                second[k]
            } else if g == group && first.contains_key(k) {
                first[k]
            } else if g == group && stages(m, group, producer, k) is Some {
                stages(m, group, producer, k)->0
            } else {
                offset_store::committed_offset(m, g, k)
            })
        }),
{
    let one = offset_store::stage_next(m, group, producer, first);
    let both = offset_store::stage_next(one, group, producer, second);
    law_staging_accumulates(m, group, producer, first, group, producer, k);
    law_staging_accumulates(one, group, producer, second, group, producer, k);
}

/// A transaction that commits moves what it staged among the offsets of the
/// group, takes it off, and touches no note and nothing of another group; one
/// that staged nothing changes nothing.
pub proof fn law_pending_commit_moves_the_staged(
    m: OffsetModel,
    group: Seq<char>,
    producer: i64,
    g: Seq<char>,
    p: i64,
    k: Seq<char>,
)
    ensures
        ({
            let after = offset_store::commit_pending_next(m, group, producer);
            &&& offset_store::committed_offset(after, g, k) == (if g == group && stages(m, group, producer, k) is Some {
                stages(m, group, producer, k)->0
            } else {
                offset_store::committed_offset(m, g, k)
            })
            &&& stages(after, g, p, k) == (if g == group && p == producer {
                None
            } else {
                stages(m, g, p, k)
            })
            &&& offset_store::notes_of(after, g) == offset_store::notes_of(m, g)
            &&& after.dirty == m.dirty
            &&& !m.pending.contains_key(text::slash_key(group, producer as int)) ==> after == m
        }),
{
    if text::slash_key(g, p as int) == text::slash_key(group, producer as int) {
        text::lemma_slash_key_injective(g, p as int, group, producer as int);
    }
    let after = offset_store::commit_pending_next(m, group, producer);
    assert(offset_store::notes_of(after, g) =~= offset_store::notes_of(m, g));
}

/// A transaction that aborts loses what it staged, and nothing else changes.
pub proof fn law_abort_drops_the_staged(m: OffsetModel, group: Seq<char>, producer: i64, g: Seq<char>, p: i64, k: Seq<char>)
    ensures
        ({
            let after = offset_store::unstage_next(m, group, producer);
            &&& stages(after, g, p, k) == (if g == group && p == producer {
                None
            } else {
                stages(m, g, p, k)
            })
            &&& after.cache == m.cache
            &&& after.notes == m.notes
            &&& after.dirty == m.dirty
        }),
{
    if text::slash_key(g, p as int) == text::slash_key(group, producer as int) {
        text::lemma_slash_key_injective(g, p as int, group, producer as int);
    }
}

/// A commit changes the group that it names only: a note that it does not name
/// stays, what is staged stays, and which files lag behind stays.
pub proof fn law_commit_touches_its_group_only(
    m: OffsetModel,
    group: Seq<char>,
    offsets: Map<Seq<char>, i64>,
    notes: Map<Seq<char>, Seq<char>>,
    g: Seq<char>,
    k: Seq<char>,
)
    ensures
        ({
            let after = offset_store::commit_next(m, group, offsets, notes);
            &&& after.pending == m.pending
            &&& after.dirty == m.dirty
            &&& after.cache.contains_key(group)
            &&& g != group ==> after.cache.contains_key(g) == m.cache.contains_key(g) && offset_store::snapshot_of(after, g)
                == offset_store::snapshot_of(m, g)
            &&& !notes.contains_key(k) ==> offset_store::notes_of(after, group).contains_key(k) == offset_store::notes_of(
                m,
                group,
            ).contains_key(k)
            &&& !notes.contains_key(k) && offset_store::notes_of(m, group).contains_key(k) ==> offset_store::notes_of(after, group)[k]
                == offset_store::notes_of(m, group)[k]
        }),
{
}

/// A commit is written exactly where the file may lag behind or the commit
/// changes an offset or a note that is held.
pub proof fn law_commit_is_written_where_it_changes_something(
    m: OffsetModel,
    group: Seq<char>,
    offsets: Map<Seq<char>, i64>,
    notes: Map<Seq<char>, Seq<char>>,
)
    ensures
        offset_store::commit_writes(m, group, offsets, notes) <==> m.dirty.contains(group) || offset_store::snapshot_of(
            offset_store::commit_next(m, group, offsets, notes),
            group,
        ) != offset_store::snapshot_of(m, group),
        offset_store::snapshot_of(m, group).offsets == offset_store::offsets_of(m, group),
        offset_store::snapshot_of(m, group).notes == offset_store::notes_of(m, group),
{
    let after = offset_store::commit_next(m, group, offsets, notes);
    let held = offset_store::snapshot_of(m, group);
    let now = offset_store::snapshot_of(after, group);
    if !offset_store::commit_writes(m, group, offsets, notes) {
        law_silent_commit_changes_no_offset(m, group, offsets, notes);
    }
    if exists|k: Seq<char>| #[trigger] offset_store::offset_moves(held.offsets, offsets, k) {
        let k = choose|k: Seq<char>| #[trigger] offset_store::offset_moves(held.offsets, offsets, k);
        assert(now.offsets.contains_key(k) && now.offsets[k] == offsets[k]);
    }
    if exists|k: Seq<char>| #[trigger] offset_store::note_moves(held.notes, notes, k) {
        let k = choose|k: Seq<char>| #[trigger] offset_store::note_moves(held.notes, notes, k);
        assert(now.notes.contains_key(k) <==> notes[k].len() > 0);
    }
}

/// Deleting offsets takes those under the keys out, with their notes, and
/// leaves every other key and group, and what is staged.
pub proof fn law_deleted_keys_are_gone(m: OffsetModel, group: Seq<char>, keys: Set<Seq<char>>, g: Seq<char>, k: Seq<char>)
    ensures
        ({
            let after = offset_store::without_keys(m, group, keys);
            let hit = g == group && keys.contains(k);
            &&& offset_store::committed_offset(after, g, k) == (if hit {
                -1i64
            } else {
                offset_store::committed_offset(m, g, k)
            })
            &&& hit ==> !offset_store::notes_of(after, g).contains_key(k)
            &&& !hit ==> offset_store::notes_of(after, g).contains_key(k) == offset_store::notes_of(m, g).contains_key(k)
            &&& !hit && offset_store::notes_of(m, g).contains_key(k) ==> offset_store::notes_of(after, g)[k] == offset_store::notes_of(
                m,
                g,
            )[k]
            &&& after.pending == m.pending
            &&& after.dirty == m.dirty
        }),
{
}

/// Deleting a group takes its offsets and notes, forgets whether its file lags
/// behind, and leaves the other groups and what is staged.
pub proof fn law_delete_touches_its_group_only(m: OffsetModel, group: Seq<char>, g: Seq<char>)
    ensures
        ({
            let after = offset_store::delete_next(m, group);
            &&& !after.cache.contains_key(group) && !after.notes.contains_key(group) && !after.dirty.contains(group)
            &&& g != group ==> after.cache.contains_key(g) == m.cache.contains_key(g) && offset_store::snapshot_of(after, g)
                == offset_store::snapshot_of(m, g) && after.dirty.contains(g) == m.dirty.contains(g)
            &&& after.pending == m.pending
        }),
{
}

/// Loading the file of a group replaces its offsets by those of the file, and
/// its notes where the file has any; the other groups, what is staged and
/// which files lag behind stay.
pub proof fn law_load_replaces_its_group_only(m: OffsetModel, group: Seq<char>, file: GroupOffsetsModel, g: Seq<char>, k: Seq<char>)
    requires
        file.notes.dom().finite(),
    ensures
        ({
            let after = offset_store::load_next(m, group, file);
            &&& offset_store::offsets_of(after, group) == file.offsets
            &&& file.notes.contains_key(k) ==> offset_store::notes_of(after, group) == file.notes
            &&& (forall|x: Seq<char>| !file.notes.contains_key(x)) ==> offset_store::notes_of(after, group) == offset_store::notes_of(m, group)
            &&& g != group ==> after.cache.contains_key(g) == m.cache.contains_key(g) && offset_store::snapshot_of(after, g)
                == offset_store::snapshot_of(m, g)
            &&& after.pending == m.pending
            &&& after.dirty == m.dirty
        }),
{
    if forall|x: Seq<char>| !file.notes.contains_key(x) {
        assert(file.notes.dom() =~= Set::empty());
    }
    if file.notes.contains_key(k) {
        assert(file.notes.dom().contains(k));
        vstd::set::axiom_set_contains_len(file.notes.dom(), k);
    }
}

/// A write that fails marks the group's file as lagging, one that succeeds
/// takes the mark off, and nothing else changes.
pub proof fn law_marks_follow_the_writes(m: OffsetModel, group: Seq<char>, lags: bool, g: Seq<char>)
    ensures
        ({
            let after = offset_store::marked_dirty(m, group, lags);
            &&& after.dirty.contains(g) == (if g == group {
                lags
            } else {
                m.dirty.contains(g)
            })
            &&& after.cache == m.cache
            &&& after.notes == m.notes
            &&& after.pending == m.pending
        }),
{
}

/// A fetch asks about the partitions that it names, by topic and number, and
/// about nothing else.
pub proof fn law_fetch_asks_what_it_names(rows: Seq<(Seq<char>, Seq<i32>)>, k: Seq<char>)
    ensures
        offset_store::asked_keys(rows).contains(k) <==> exists|i: int, j: int|
            0 <= i < rows.len() && 0 <= j < rows[i].1.len() && k == text::slash_key(rows[i].0, #[trigger] rows[i].1[j] as int),
    decreases rows.len(),
{
    let all = offset_store::asked_keys(rows);
    if rows.len() > 0 {
        let d = rows.drop_last();
        let last = rows.last();
        let head = offset_store::asked_keys(d);
        let tail = offset_store::partition_keys(last.0, last.1);
        law_fetch_asks_what_it_names(d, k);
        if all.contains(k) {
            let n = choose|n: int| 0 <= n < all.len() && all[n] == k;
            if n < head.len() {
                assert(head[n] == k);
                let (i, j) = choose|i: int, j: int|
                    0 <= i < d.len() && 0 <= j < d[i].1.len() && k == text::slash_key(d[i].0, #[trigger] d[i].1[j] as int);
                assert(k == text::slash_key(rows[i].0, rows[i].1[j] as int));
            } else {
                assert(tail[n - head.len()] == k);
                assert(k == text::slash_key(rows[rows.len() - 1].0, rows[rows.len() - 1].1[n - head.len()] as int));
            }
        }
        if exists|i: int, j: int|
            0 <= i < rows.len() && 0 <= j < rows[i].1.len() && k == text::slash_key(rows[i].0, #[trigger] rows[i].1[j] as int) {
            let (i, j) = choose|i: int, j: int|
                0 <= i < rows.len() && 0 <= j < rows[i].1.len() && k == text::slash_key(rows[i].0, #[trigger] rows[i].1[j] as int);
            if i < d.len() {
                assert(k == text::slash_key(d[i].0, d[i].1[j] as int));
                let n = choose|n: int| 0 <= n < head.len() && head[n] == k;
                assert(all[n] == k);
            } else {
                assert(all[head.len() + j] == k);
            }
        }
    }
}

/// The key of a partition is its topic, a slash and its number in decimal:
/// digit by digit, a minus sign first where it is negative.
pub proof fn law_key_is_written_out(topic: Seq<char>, partition: int, n: nat)
    ensures
        text::slash_key(topic, partition).take(topic.len() as int) == topic,
        text::slash_key(topic, partition)[topic.len() as int] == '/',
        text::slash_key(topic, partition).skip(topic.len() as int + 1) == text::int_text(partition),
        n < 10 ==> text::int_text(n as int) == seq![(48 + n) as char],
        n >= 10 ==> text::int_text(n as int) == text::int_text((n / 10) as int).push((48 + n % 10) as char),
        n > 0 ==> text::int_text(-n) == seq!['-'] + text::int_text(n as int),
{
    assert(text::slash_key(topic, partition).take(topic.len() as int) =~= topic);
    assert(text::slash_key(topic, partition).skip(topic.len() as int + 1) =~= text::int_text(partition));
}

/// A key is one of a topic exactly where the topic, a slash and a number that
/// a partition can have make it up.
pub proof fn law_topic_of_a_key(key: Seq<char>, topic: Seq<char>)
    ensures
        offset_store::has_topic(key, topic) ==> key.len() > topic.len() && key.take(topic.len() as int) == topic
            && key[topic.len() as int] == '/',
        offset_store::topic_keys(topic).contains(key) <==> offset_store::has_topic(key, topic),
{
    text::lemma_last_index(key, '/');
}

/// Of two stamps the one of the later controller epoch is the newer, and
/// within an epoch the one of the later version; a write is refused exactly
/// where the file carries a newer stamp than the writer's.
pub proof fn law_fence_goes_by_epoch_then_version(local: FenceStamp, on_disk: FenceStamp)
    ensures
        on_disk.controller_epoch > local.controller_epoch ==> offset_store::is_fenced(local, Some(on_disk)),
        on_disk.controller_epoch < local.controller_epoch ==> !offset_store::is_fenced(local, Some(on_disk)),
        on_disk.controller_epoch == local.controller_epoch ==> (offset_store::is_fenced(local, Some(on_disk)) <==> on_disk.assignment_version
            > local.assignment_version),
        !offset_store::is_fenced(local, None),
{
}

/// A store holds nothing at first.
pub proof fn law_new_store_is_empty(group: Seq<char>, producer: i64, k: Seq<char>)
    ensures
        offset_store::committed_offset(offset_store::empty_store(), group, k) == -1,
        !offset_store::empty_store().cache.contains_key(group),
        !offset_store::notes_of(offset_store::empty_store(), group).contains_key(k),
        stages(offset_store::empty_store(), group, producer, k) is None,
        !offset_store::empty_store().dirty.contains(group),
{
}

/// The file of a group is named by it, and a file is one of a group only where
/// its name ends so.
pub proof fn law_files_are_named_by_group(group: Seq<char>, file: Seq<char>)
    ensures
        offset_store::file_named(group) == group + seq!['.', 'j', 's', 'o', 'n'],
        offset_store::group_named(file) matches Some(g) ==> file == g + seq!['.', 'j', 's', 'o', 'n'],
        offset_store::group_named(file) is None ==> file != group + seq!['.', 'j', 's', 'o', 'n'],
{
    reveal_strlit(".json");
    assert(".json"@ =~= seq!['.', 'j', 's', 'o', 'n']);
    let n = file.len() - 5;
    if n >= 0 {
        assert(file =~= file.take(n) + file.skip(n));
    }
    law_file_is_of_its_group(group);
}

} // verus!
