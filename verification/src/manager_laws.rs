//! What the coordinator answers and writes, from what it holds.

use vstd::prelude::*;
use crate::group;
use crate::group::{GroupModel, GroupSnapshot};
use crate::manager;
use crate::manager::{
    BrokerEndpoint, CoordinatorResolution, FileModel, GroupAssignmentSource, LocalGroupSource, LocalTxnSource, StepModel, TxnAssignmentSource,
};
use crate::offset_store;
use crate::offset_store::OffsetModel;

verus! {

/// What a client is told that asks the wrong broker: to look for another one,
/// with code 16 and under its own member id.
pub proof fn law_other_brokers_groups_are_refused(member: Seq<char>, code: i16)
    ensures
        ({
            let r = manager::join_elsewhere(member);
            r.error_code == 16 && r.generation_id == -1 && r.member_id == member && r.members.len() == 0 && r.leader.len() == 0
                && r.protocol_name.len() == 0 && r.protocol_type.len() == 0
        }),
        manager::NOT_COORDINATOR == 16,
        manager::COORDINATOR_NOT_AVAILABLE == 15,
        manager::INVALID_REQUEST == 42,
        manager::GROUP_ID_NOT_FOUND == 69,
        manager::NON_EMPTY_GROUP == 67,
        group::sync_failed(code).error_code == code && group::sync_failed(code).assignment.len() == 0,
{
}

/// A coordinator that is found is named with its id, host and port and without
/// an error; one that is not is reported by the code alone.
pub proof fn law_coordinator_is_named_or_missing(r: CoordinatorResolution, e: BrokerEndpoint, code: i16)
    ensures
        manager::resolves(r, Some(e), code) <==> r.node_id == e.node_id && r.host@ == e.host@ && r.port == e.port && r.error_code == 0,
        manager::resolves(r, None, code) ==> r.error_code == code && r.host@.len() == 0 && r.port == 0 && r.node_id == 0,
{
}

/// A broker on its own coordinates everything.
pub proof fn law_lone_broker_owns_all(g: LocalGroupSource, t: LocalTxnSource, id: Seq<char>)
    ensures
        g.owns(id),
        g.coordinator_of(id) == Some(g.self_id@),
        t.owns_it(id),
        t.coordinator_for(id) == Some(t.self_id@),
{
}

/// A group that is not held begins anew.
pub proof fn law_unheld_group_is_new(groups: Map<Seq<char>, GroupModel>, id: Seq<char>)
    ensures
        groups.contains_key(id) ==> manager::group_at(groups, id) == groups[id],
        !groups.contains_key(id) ==> manager::group_at(groups, id) == group::new_group(id),
{
}

/// A source's share of some ids: those of them that it owns.
pub proof fn law_owned_ids<G: GroupAssignmentSource>(source: G, ids: Set<Seq<char>>, id: Seq<char>)
    ensures
        manager::owned_of(source, ids).contains(id) <==> ids.contains(id) && source.owns(id),
{
}

/// What the purge of one group asks for. Where the group is held it goes by
/// what is held, else by its file. A group with offsets of the topic is written
/// without them and without their notes, and their number is reported; a group
/// without any is not touched; and a file that cannot be read is reported.
pub proof fn law_purge_of_one_group(m: OffsetModel, files: Map<Seq<char>, FileModel>, id: Seq<char>, topic: Seq<char>, k: Seq<char>)
    ensures
        ({
            let step = manager::purge_step(m, files, id, topic);
            let held = m.cache.contains_key(id);
            &&& !held && !files.contains_key(id) ==> step is None
            &&& !held && files.contains_key(id) && files[id] is Unreadable ==> step == Some(StepModel::Failed { id })
            &&& held ==> purge_is(step, id, m.cache[id], offset_store::notes_of(m, id), topic, k)
            &&& !held && files.contains_key(id) ==> (files[id] matches FileModel::Read(g) ==> purge_is(step, id, g.offsets, g.notes, topic, k))
        }),
{
    let held = m.cache.contains_key(id);
    if held {
        lemma_purge_is(m.cache[id], topic);
        let hit = manager::doomed(m.cache[id], topic);
        if hit != Set::<Seq<char>>::empty() {
            let after = offset_store::snapshot_of(offset_store::purge_next(m, id, topic), id);
            assert(after.offsets.contains_key(k) == (m.cache[id].contains_key(k) && !hit.contains(k)));
        }
    } else if files.contains_key(id) {
        if let FileModel::Read(g) = files[id] {
            lemma_purge_is(g.offsets, topic);
        }
    }
}

/// What the store holds after the purge of one group: a group that is held has
/// lost its offsets of the topic and kept the others; one that is not held is
/// not taken in; and every other group is as it was.
pub proof fn law_purged_store(m: OffsetModel, id: Seq<char>, topic: Seq<char>, k: Seq<char>, other: Seq<char>)
    requires
        other != id,
    ensures
        ({
            let t = manager::purged(m, id, topic);
            &&& t.cache.contains_key(id) == m.cache.contains_key(id)
            &&& m.cache.contains_key(id) ==> {
                &&& t.cache[id].contains_key(k) <==> m.cache[id].contains_key(k) && !offset_store::has_topic(k, topic)
                &&& t.cache[id].contains_key(k) ==> t.cache[id][k] == m.cache[id][k]
                &&& t.notes.contains_key(id) == m.notes.contains_key(id)
                &&& m.notes.contains_key(id) && !offset_store::has_topic(k, topic) ==> t.notes[id].contains_key(k) == m.notes[id].contains_key(k)
            }
            &&& !m.cache.contains_key(id) ==> t == m
            &&& t.cache.contains_key(other) == m.cache.contains_key(other) && t.cache[other] == m.cache[other]
            &&& t.notes.contains_key(other) == m.notes.contains_key(other) && t.notes[other] == m.notes[other]
            &&& t.pending == m.pending
        }),
{
    if m.cache.contains_key(id) {
        let hit = manager::doomed(m.cache[id], topic);
        lemma_purge_is(m.cache[id], topic);
        assert(hit.contains(k) <==> m.cache[id].contains_key(k) && offset_store::has_topic(k, topic));
    }
}

/// A description is given of every group that is owned here and of no other. It
/// is of the group as it is held; a group that is not held rests, with nobody
/// in it.
pub proof fn law_description_is_given(s: Option<GroupSnapshot>, owned: bool, groups: Map<Seq<char>, GroupModel>, id: Seq<char>)
    requires
        manager::describes(s, owned, groups, id),
    ensures
        s is Some <==> owned,
        s matches Some(x) ==> {
            &&& groups.contains_key(id) ==> group::shows(x, groups[id])
            &&& !groups.contains_key(id) ==> x.id@ == id && x.state@ == "Empty"@ && x.generation_id == 0 && x.members@.len() == 0
        },
{
    if let Some(x) = s {
        if !groups.contains_key(id) {
            let g = group::new_group(id);
            assert(g.members.dom() =~= Set::<Seq<char>>::empty());
            crate::group_replies::law_description_is_of_the_group(x, g, id, 0);
        }
    }
}

/// Whether a step purges a topic of a group with these offsets and notes.
pub open spec fn purge_is(
    step: Option<StepModel>,
    id: Seq<char>,
    offsets: Map<Seq<char>, i64>,
    notes: Map<Seq<char>, Seq<char>>,
    topic: Seq<char>,
    k: Seq<char>,
) -> bool {
    let gone = offsets.dom().filter(|x: Seq<char>| offset_store::has_topic(x, topic));
    &&& step is None <==> gone == Set::<Seq<char>>::empty()
    &&& step matches Some(s) ==> (s matches StepModel::Write { id: i, count, group } && i == id && count == gone.len() && group.offsets.contains_key(k) == (
    offsets.contains_key(k) && !offset_store::has_topic(k, topic)) && (group.offsets.contains_key(k) ==> group.offsets[k] == offsets[k])
        && group.notes.contains_key(k) == (notes.contains_key(k) && !gone.contains(k)) && (group.notes.contains_key(k) ==> group.notes[k] == notes[k]))
}

proof fn lemma_purge_is(offsets: Map<Seq<char>, i64>, topic: Seq<char>)
    ensures
        manager::doomed(offsets, topic) == offsets.dom().filter(|x: Seq<char>| offset_store::has_topic(x, topic)),
{
    assert(manager::doomed(offsets, topic) =~= offsets.dom().filter(|x: Seq<char>| offset_store::has_topic(x, topic)));
}

proof fn lemma_purge_step_later(m: OffsetModel, files: Map<Seq<char>, FileModel>, ids: Seq<Seq<char>>, topic: Seq<char>, id: Seq<char>)
    requires
        !ids.contains(id),
    ensures
        manager::purge_step(manager::purge_all(m, files, ids, topic).0, files, id, topic) == manager::purge_step(m, files, id, topic),
{
    let n = manager::purge_all(m, files, ids, topic).0;
    manager::law_purge_spares_other_groups(m, files, ids, topic, id);
    assert(offset_store::snapshot_of(n, id).offsets == offset_store::snapshot_of(m, id).offsets);
    assert(offset_store::snapshot_of(n, id).notes == offset_store::snapshot_of(m, id).notes);
    if m.cache.contains_key(id) {
        let a = offset_store::snapshot_of(offset_store::purge_next(m, id, topic), id);
        let b = offset_store::snapshot_of(offset_store::purge_next(n, id, topic), id);
        assert(a.offsets =~= b.offsets);
        assert(a.notes =~= b.notes);
    }
}

/// A purge asks, of each group that it is about, for what the purge of that
/// group alone asks for, and for nothing else.
pub proof fn law_purge_asks_of_each_group(
    m: OffsetModel,
    files: Map<Seq<char>, FileModel>,
    ids: Seq<Seq<char>>,
    topic: Seq<char>,
    step: StepModel,
)
    requires
        ids.no_duplicates(),
    ensures
        manager::purge_all(m, files, ids, topic).1.contains(step) <==> exists|i: int|
            0 <= i < ids.len() && manager::purge_step(m, files, #[trigger] ids[i], topic) == Some(step),
    decreases ids.len(),
{
    if ids.len() > 0 {
        let d = ids.drop_last();
        assert(d.no_duplicates());
        law_purge_asks_of_each_group(m, files, d, topic, step);
        let last = ids.last();
        assert(!d.contains(last)) by {
            if d.contains(last) {
                let i = choose|i: int| 0 <= i < d.len() && d[i] == last;
                assert(ids[i] == ids[ids.len() - 1]);
            }
        }
        lemma_purge_step_later(m, files, d, topic, last);
        let steps = manager::purge_all(m, files, d, topic).1;
        let all = manager::purge_all(m, files, ids, topic).1;
        if all.contains(step) {
            let n = choose|n: int| 0 <= n < all.len() && all[n] == step;
            if n < steps.len() {
                assert(steps[n] == step);
                let i = choose|i: int| 0 <= i < d.len() && manager::purge_step(m, files, #[trigger] d[i], topic) == Some(step);
                assert(ids[i] == d[i]);
            } else {
                assert(manager::purge_step(m, files, ids[ids.len() - 1], topic) == Some(step));
            }
        }
        if exists|i: int| 0 <= i < ids.len() && manager::purge_step(m, files, #[trigger] ids[i], topic) == Some(step) {
            let i = choose|i: int| 0 <= i < ids.len() && manager::purge_step(m, files, #[trigger] ids[i], topic) == Some(step);
            if i < d.len() {
                assert(d[i] == ids[i]);
                let n = choose|n: int| 0 <= n < steps.len() && steps[n] == step;
                assert(all[n] == step);
            } else {
                assert(all[all.len() - 1] == step);
            }
        }
    } else {
        assert(manager::purge_all(m, files, ids, topic).1.len() == 0);
    }
}

/// What a purge comes to: as many offsets as went from each group, together,
/// and the groups of which none could go, in their order.
pub proof fn law_purge_is_summed_up(done: Seq<(String, Option<usize>)>, last: (String, Option<usize>))
    ensures
        manager::tally(Seq::empty()) == 0,
        manager::failures(Seq::empty()).len() == 0,
        last.1 matches Some(n) ==> manager::tally(done.push(last)) == manager::tally(done) + n && manager::failures(done.push(last))
            == manager::failures(done),
        last.1 is None ==> manager::tally(done.push(last)) == manager::tally(done) && manager::failures(done.push(last)) == manager::failures(done).push(last.0@),
{
    assert(done.push(last).drop_last() =~= done);
}

} // verus!
