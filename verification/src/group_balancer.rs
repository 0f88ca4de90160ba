//! Placement of consumer groups.
//!
//! A group keeps its coordinator while that broker is alive, reported or not.
//! A reported group without one goes where the brokers' own hash puts it, so
//! that the entry confirms what brokers did without it.

use vstd::prelude::*;
use crate::assignment;
use crate::assignment::{is_alive, BrokerAssignment, BrokerRow, ConsumerGroupAssignment, GroupRow};
use crate::group_hash;
use crate::group_hash::pick_group_coordinator;
use crate::order;
use crate::order::insert_name;
use crate::text::text_eq;

verus! {

/// A group that is active.
#[derive(Debug, PartialEq, Eq)]
pub struct GroupSpec {
    pub group_id: String,
}

impl Clone for GroupSpec {
    fn clone(&self) -> (r: Self)
        ensures
            r == *self,
    {
        GroupSpec { group_id: self.group_id.clone() }
    }
}

pub open spec fn group_names(s: Seq<GroupSpec>) -> Seq<Seq<char>> {
    s.map_values(|g: GroupSpec| g.group_id@)
}

/// The last entry of a group.
pub open spec fn entry_of(rows: Seq<GroupRow>, group: Seq<char>) -> Option<GroupRow>
    decreases rows.len(),
{
    if rows.len() == 0 {
        None
    } else if rows.last().group_id == group {
        Some(rows.last())
    } else {
        entry_of(rows.drop_last(), group)
    }
}

/// Whether a group's entry names an alive broker.
pub open spec fn is_kept(prev: Seq<GroupRow>, brokers: Seq<BrokerRow>, group: Seq<char>) -> bool {
    entry_of(prev, group) matches Some(e) && assignment::alive_in(brokers, e.broker)
}

/// The entry of a reported group.
pub open spec fn placed_row(prev: Seq<GroupRow>, brokers: Seq<BrokerRow>, group: Seq<char>) -> GroupRow {
    match entry_of(prev, group) {
        Some(e) => if assignment::alive_in(brokers, e.broker) {
            e
        } else {
            GroupRow {
                group_id: group,
                broker: picked(brokers, group),
                epoch: (e.epoch + 1) as u32,
            }
        },
        None => GroupRow { group_id: group, broker: picked(brokers, group), epoch: 1 },
    }
}

/// Whether the epoch of a group can rise where it has to.
pub open spec fn epoch_fits(prev: Seq<GroupRow>, brokers: Seq<BrokerRow>, group: Seq<char>) -> bool {
    entry_of(prev, group) matches Some(e) ==> assignment::alive_in(brokers, e.broker) || e.epoch < u32::MAX
}

/// Whether every epoch that has to rise can.
pub open spec fn epochs_fit(prev: Seq<GroupRow>, brokers: Seq<BrokerRow>, groups: Seq<Seq<char>>) -> bool {
    brokers.len() > 0 ==> forall|i: int| 0 <= i < groups.len() ==> epoch_fits(prev, brokers, #[trigger] groups[i])
}

/// Where the hash puts a group; an empty name where no broker is alive.
pub open spec fn picked(brokers: Seq<BrokerRow>, group: Seq<char>) -> Seq<char> {
    match group_hash::coordinator(group, brokers) {
        Some(id) => id,
        None => Seq::empty(),
    }
}

/// Names in their order, each once.
pub open spec fn first_ones(names: Seq<Seq<char>>) -> Seq<Seq<char>>
    decreases names.len(),
{
    if names.len() == 0 {
        Seq::empty()
    } else {
        let sofar = first_ones(names.drop_last());
        if names.drop_last().contains(names.last()) {
            sofar
        } else {
            sofar.push(names.last())
        }
    }
}

/// Groups that are not reported and keep their entry.
pub open spec fn unreported(prev: Seq<GroupRow>, brokers: Seq<BrokerRow>, groups: Seq<Seq<char>>) -> Set<Seq<char>> {
    prev.map_values(|e: GroupRow| e.group_id).to_set().filter(
        |g: Seq<char>| !groups.contains(g) && is_kept(prev, brokers, g),
    )
}

/// The entries of all groups: reported ones in their order, then the others
/// by name.
pub open spec fn placed(prev: Seq<GroupRow>, brokers: Seq<BrokerRow>, groups: Seq<Seq<char>>) -> Seq<GroupRow> {
    if brokers.len() == 0 {
        Seq::empty()
    } else {
        first_ones(groups).map_values(|g: Seq<char>| placed_row(prev, brokers, g)) + order::in_order(
            unreported(prev, brokers, groups),
        ).map_values(|g: Seq<char>| placed_row(prev, brokers, g))
    }
}

fn find_entry(prev: &[ConsumerGroupAssignment], group: &str) -> (r: Option<usize>)
    ensures
        match r {
            Some(i) => i < prev@.len() && entry_of(assignment::group_rows(prev@), group@) == Some(prev@[i as int]@),
            None => entry_of(assignment::group_rows(prev@), group@) is None,
        },
{
    let ghost all = assignment::group_rows(prev@);
    let mut n: usize = prev.len();
    assert(all.take(n as int) =~= all);
    while n > 0
        invariant
            n <= prev@.len(),
            all == assignment::group_rows(prev@),
            entry_of(all, group@) == entry_of(all.take(n as int), group@),
        decreases n,
    {
        assert(all.take(n as int).drop_last() =~= all.take(n - 1));
        if text_eq(&prev[n - 1].group_id, group) {
            return Some(n - 1);
        }
        n = n - 1;
    }
    None
}

fn reported(groups: &[GroupSpec], upto: usize, name: &str) -> (r: bool)
    requires
        upto <= groups@.len(),
    ensures
        r == group_names(groups@).take(upto as int).contains(name@),
{
    let ghost names = group_names(groups@).take(upto as int);
    let mut i: usize = 0;
    while i < upto
        invariant
            i <= upto <= groups@.len(),
            names == group_names(groups@).take(upto as int),
            forall|j: int| 0 <= j < i ==> names[j] != name@,
        decreases upto - i,
    {
        if text_eq(&groups[i].group_id, name) {
            assert(names[i as int] == name@);
            return true;
        }
        i = i + 1;
    }
    false
}

fn place_group(prev: &[ConsumerGroupAssignment], brokers: &[BrokerAssignment], group: &str) -> (r: Option<ConsumerGroupAssignment>)
    ensures
        r is Some <==> epoch_fits(assignment::group_rows(prev@), assignment::broker_rows(brokers@), group@),
        r matches Some(e) ==> e@ == placed_row(assignment::group_rows(prev@), assignment::broker_rows(brokers@), group@),
{
    let mut epoch: u32 = 1;
    match find_entry(prev, group) {
        Some(i) => {
            if is_alive(brokers, &prev[i].broker) {
                return Some(prev[i].clone());
            }
            if prev[i].epoch == u32::MAX {
                return None;
            }
            epoch = prev[i].epoch + 1;
        },
        None => {},
    }
    let broker: String = match pick_group_coordinator(group, brokers) {
        Some(id) => id,
        None => String::new(),
    };
    let r = ConsumerGroupAssignment { group_id: group.to_owned(), broker, epoch };
    assert(r@ =~= placed_row(assignment::group_rows(prev@), assignment::broker_rows(brokers@), group@));
    Some(r)
}

pub open spec fn rows_before(prev: Option<&[ConsumerGroupAssignment]>) -> Seq<GroupRow> {
    match prev {
        Some(p) => assignment::group_rows(p@),
        None => Seq::empty(),
    }
}

/// The coordinator of every group. `brokers` are all registered brokers.
pub fn balance_groups(
    prev: Option<&[ConsumerGroupAssignment]>,
    brokers: &[BrokerAssignment],
    groups: &[GroupSpec],
) -> (out: Vec<ConsumerGroupAssignment>)
    requires
        epochs_fit(rows_before(prev), assignment::broker_rows(brokers@), group_names(groups@)),
    ensures
        assignment::group_rows(out@) == placed(rows_before(prev), assignment::broker_rows(brokers@), group_names(groups@)),
{
    checked_balance_groups(prev, brokers, groups).unwrap()
}

/// The coordinator of every group; none where an epoch would have to rise
/// beyond its greatest value.
pub fn checked_balance_groups(
    prev: Option<&[ConsumerGroupAssignment]>,
    brokers: &[BrokerAssignment],
    groups: &[GroupSpec],
) -> (r: Option<Vec<ConsumerGroupAssignment>>)
    ensures
        r is Some <==> epochs_fit(rows_before(prev), assignment::broker_rows(brokers@), group_names(groups@)),
        r matches Some(out) ==> assignment::group_rows(out@) == placed(
            rows_before(prev),
            assignment::broker_rows(brokers@),
            group_names(groups@),
        ),
{
    let mut out: Vec<ConsumerGroupAssignment> = Vec::new();
    if brokers.len() == 0 {
        assert(assignment::group_rows(out@) =~= Seq::empty());
        return Some(out);
    }
    let none: Vec<ConsumerGroupAssignment> = Vec::new();
    let entries: &[ConsumerGroupAssignment] = match prev {
        Some(p) => p,
        None => none.as_slice(),
    };
    let ghost p = assignment::group_rows(entries@);
    proof {
        assert(assignment::group_rows(none@) =~= Seq::empty());
        assert(p == rows_before(prev));
    }
    let ghost rows = assignment::broker_rows(brokers@);
    let ghost names = group_names(groups@);
    let ghost place = |g: Seq<char>| placed_row(p, rows, g);
    let mut i: usize = 0;
    assert(assignment::group_rows(out@) =~= first_ones(names.take(0)).map_values(place));
    while i < groups.len()
        invariant
            i <= groups@.len(),
            p == assignment::group_rows(entries@),
            p == rows_before(prev),
            rows == assignment::broker_rows(brokers@),
            names == group_names(groups@),
            place == (|g: Seq<char>| placed_row(p, rows, g)),
            brokers@.len() > 0,
            forall|j: int| 0 <= j < i ==> epoch_fits(p, rows, #[trigger] names[j]),
            assignment::group_rows(out@) == first_ones(names.take(i as int)).map_values(place),
        decreases groups.len() - i,
    {
        let ghost before = assignment::group_rows(out@);
        proof {
            assert(names.take(i + 1).drop_last() =~= names.take(i as int));
            assert(names.take(i + 1).last() == names[i as int]);
        }
        if !reported(groups, i, &groups[i].group_id) {
            let e = match place_group(entries, brokers, &groups[i].group_id) {
                Some(e) => e,
                None => {
                    assert(!epoch_fits(p, rows, names[i as int]));
                    return None;
                },
            };
            let ghost row = e@;
            out.push(e);
            proof {
                assert(assignment::group_rows(out@) =~= before.push(row));
                assert(first_ones(names.take(i + 1)).map_values(place) =~= first_ones(names.take(i as int)).map_values(place).push(row));
            }
        } else {
            proof {
                let j = choose|j: int| 0 <= j < i && names.take(i as int)[j] == names[i as int];
                assert(epoch_fits(p, rows, names[j]));
            }
        }
        i = i + 1;
    }
    assert(names.take(i as int) =~= names);
    let rest = carried(entries, brokers, groups);
    let ghost minted = assignment::group_rows(out@);
    let ghost others = order::texts(rest@);
    proof {
        let ids = p.map_values(|e: GroupRow| e.group_id);
        lemma_set_list(ids, |x: Seq<char>| !names.contains(x) && is_kept(p, rows, x));
        assert forall|j: int| 0 <= j < others.len() implies epoch_fits(p, rows, #[trigger] others[j]) by {
            assert(others.to_set().contains(others[j]));
        }
    }
    let mut k: usize = 0;
    assert(assignment::group_rows(out@) =~= minted + others.take(0).map_values(place));
    while k < rest.len()
        invariant
            k <= rest@.len(),
            others == order::texts(rest@),
            p == assignment::group_rows(entries@),
            p == rows_before(prev),
            rows == assignment::broker_rows(brokers@),
            place == (|g: Seq<char>| placed_row(p, rows, g)),
            forall|j: int| 0 <= j < others.len() ==> epoch_fits(p, rows, #[trigger] others[j]),
            assignment::group_rows(out@) == minted + others.take(k as int).map_values(place),
        decreases rest.len() - k,
    {
        let ghost before = assignment::group_rows(out@);
        assert(epoch_fits(p, rows, others[k as int]));
        let e = place_group(entries, brokers, &rest[k]).unwrap();
        let ghost row = e@;
        out.push(e);
        proof {
            assert(assignment::group_rows(out@) =~= before.push(row));
            assert(others.take(k + 1) =~= others.take(k as int).push(others[k as int]));
            assert(assignment::group_rows(out@) =~= minted + others.take(k + 1).map_values(place));
        }
        k = k + 1;
    }
    proof {
        assert(others.take(k as int) =~= others);
        assert(assignment::group_rows(none@) =~= Seq::empty());
        assert(assignment::group_rows(out@) =~= placed(p, rows, names));
    }
    Some(out)
}

/// The groups that are not reported and keep their entry, by name.
fn carried(prev: &[ConsumerGroupAssignment], brokers: &[BrokerAssignment], groups: &[GroupSpec]) -> (r: Vec<String>)
    ensures
        order::texts(r@) == order::in_order(
            unreported(assignment::group_rows(prev@), assignment::broker_rows(brokers@), group_names(groups@)),
        ),
{
    let ghost p = assignment::group_rows(prev@);
    let ghost rows = assignment::broker_rows(brokers@);
    let ghost names = group_names(groups@);
    let ghost ids = p.map_values(|e: GroupRow| e.group_id);
    let ghost goes = |g: Seq<char>| !names.contains(g) && is_kept(p, rows, g);
    let mut r: Vec<String> = Vec::new();
    let mut i: usize = 0;
    assert(order::texts(r@).to_set() =~= ids.take(0).to_set().filter(goes));
    assert(names.take(groups@.len() as int) =~= names);
    while i < prev.len()
        invariant
            i <= prev@.len(),
            p == assignment::group_rows(prev@),
            rows == assignment::broker_rows(brokers@),
            names == group_names(groups@),
            names.take(groups@.len() as int) == names,
            ids == p.map_values(|e: GroupRow| e.group_id),
            goes == (|g: Seq<char>| !names.contains(g) && is_kept(p, rows, g)),
            order::increasing(order::texts(r@)),
            order::texts(r@).to_set() == ids.take(i as int).to_set().filter(goes),
        decreases prev.len() - i,
    {
        let id = &prev[i].group_id;
        proof {
            assert(ids[i as int] == id@);
            assert(ids.take(i + 1) =~= ids.take(i as int).push(ids[i as int]));
            ids.take(i as int).lemma_push_to_set_commute(ids[i as int]);
        }
        if !reported(groups, groups.len(), id) {
            match find_entry(prev, id) {
                Some(k) => {
                    if is_alive(brokers, &prev[k].broker) {
                        insert_name(&mut r, id.clone());
                    }
                },
                None => {},
            }
        }
        assert(order::texts(r@).to_set() =~= ids.take(i + 1).to_set().filter(goes));
        i = i + 1;
    }
    proof {
        assert(ids.take(i as int) =~= ids);
        order::lemma_in_order(order::texts(r@));
    }
    r
}

// Laws.

pub proof fn lemma_first_ones(names: Seq<Seq<char>>)
    ensures
        forall|g: Seq<char>| #[trigger] first_ones(names).contains(g) <==> names.contains(g),
        first_ones(names).no_duplicates(),
    decreases names.len(),
{
    if names.len() > 0 {
        let d = names.drop_last();
        lemma_first_ones(d);
        let f = first_ones(names);
        let sofar = first_ones(d);
        assert forall|g: Seq<char>| #[trigger] f.contains(g) <==> names.contains(g) by {
            assert(sofar.contains(g) <==> d.contains(g));
            if names.contains(g) {
                let i = choose|i: int| 0 <= i < names.len() && names[i] == g;
                if i < d.len() {
                    assert(d[i] == g);
                    let j = choose|j: int| 0 <= j < sofar.len() && sofar[j] == g;
                    assert(f[j] == g);
                } else if !d.contains(g) {
                    assert(f[f.len() - 1] == g);
                }
            }
            if f.contains(g) {
                let j = choose|j: int| 0 <= j < f.len() && f[j] == g;
                if j < sofar.len() {
                    assert(sofar[j] == g);
                    let i = choose|i: int| 0 <= i < d.len() && d[i] == g;
                    assert(names[i] == g);
                } else {
                    assert(names[names.len() - 1] == g);
                }
            }
        }
        if !d.contains(names.last()) {
            assert(!sofar.contains(names.last()));
        }
    }
}

pub proof fn lemma_entry_of(rows: Seq<GroupRow>, group: Seq<char>)
    ensures
        match entry_of(rows, group) {
            Some(e) => e.group_id == group && rows.contains(e) && rows.map_values(|e: GroupRow| e.group_id).contains(group),
            None => forall|i: int| 0 <= i < rows.len() ==> (#[trigger] rows[i]).group_id != group,
        },
    decreases rows.len(),
{
    let ids = rows.map_values(|e: GroupRow| e.group_id);
    if rows.len() > 0 {
        if rows.last().group_id == group {
            assert(rows[rows.len() - 1] == rows.last());
            assert(ids[rows.len() - 1] == group);
        } else {
            let d = rows.drop_last();
            lemma_entry_of(d, group);
            match entry_of(d, group) {
                Some(e) => {
                    let i = choose|i: int| 0 <= i < d.len() && d[i] == e;
                    assert(rows[i] == e);
                    assert(ids[i] == group);
                },
                None => {
                    assert forall|i: int| 0 <= i < rows.len() implies (#[trigger] rows[i]).group_id != group by {
                        if i < d.len() {
                            assert(d[i] == rows[i]);
                        }
                    }
                },
            }
        }
    }
}

/// Where each group has one entry, that is the one found.
proof fn lemma_entry_unique(rows: Seq<GroupRow>, i: int)
    requires
        0 <= i < rows.len(),
        forall|a: int, b: int| 0 <= a < b < rows.len() ==> (#[trigger] rows[a]).group_id != (#[trigger] rows[b]).group_id,
    ensures
        entry_of(rows, rows[i].group_id) == Some(rows[i]),
    decreases rows.len(),
{
    if i < rows.len() - 1 {
        assert(rows[i].group_id != rows[rows.len() - 1].group_id);
        let d = rows.drop_last();
        assert forall|a: int, b: int| 0 <= a < b < d.len() implies (#[trigger] d[a]).group_id != (#[trigger] d[b]).group_id by {
            assert(rows[a].group_id != rows[b].group_id);
        }
        lemma_entry_unique(d, i);
        assert(d[i] == rows[i]);
    }
}

/// Every group has one entry at most: a reported one its own, an unreported
/// one its previous entry where that broker is alive.
pub proof fn law_one_entry_for_each_group(prev: Seq<GroupRow>, brokers: Seq<BrokerRow>, groups: Seq<Seq<char>>, g: Seq<char>)
    requires
        brokers.len() > 0,
    ensures
        ({
            let rows = placed(prev, brokers, groups);
            &&& forall|a: int, b: int| 0 <= a < b < rows.len() ==> (#[trigger] rows[a]).group_id != (#[trigger] rows[b]).group_id
            &&& entry_of(rows, g) == (if groups.contains(g) || is_kept(prev, brokers, g) {
                Some(placed_row(prev, brokers, g))
            } else {
                None
            })
        }),
{
    let rows = placed(prev, brokers, groups);
    let place = |x: Seq<char>| placed_row(prev, brokers, x);
    let here = first_ones(groups);
    let ids = prev.map_values(|e: GroupRow| e.group_id);
    let others = order::in_order(unreported(prev, brokers, groups));
    lemma_first_ones(groups);
    // A finite set of names has its ordered list.
    let kept = unreported(prev, brokers, groups);
    lemma_set_list(ids, |x: Seq<char>| !groups.contains(x) && is_kept(prev, brokers, x));
    assert(order::increasing(others) && others.to_set() == kept);
    order::lemma_increasing_distinct(others);
    let all = here + others;
    assert(rows =~= all.map_values(place));
    assert forall|x: Seq<char>| (#[trigger] placed_row(prev, brokers, x)).group_id == x by {
        lemma_entry_of(prev, x);
    }
    assert forall|a: int, b: int| 0 <= a < b < all.len() implies all[a] != all[b] by {
        if b < here.len() {
            assert(here[a] != here[b]);
        } else if a >= here.len() {
            assert(others[a - here.len()] != others[b - here.len()]);
        } else {
            assert(here.contains(here[a]));
            assert(others.to_set().contains(others[b - here.len()]));
        }
    }
    assert forall|a: int, b: int| 0 <= a < b < rows.len() implies (#[trigger] rows[a]).group_id != (#[trigger] rows[b]).group_id by {
        assert(rows[a] == placed_row(prev, brokers, all[a]) && rows[b] == placed_row(prev, brokers, all[b]));
        assert(all[a] != all[b]);
    }
    if groups.contains(g) || is_kept(prev, brokers, g) {
        let i = if groups.contains(g) {
            assert(here.contains(g));
            choose|i: int| 0 <= i < here.len() && here[i] == g
        } else {
            lemma_entry_of(prev, g);
            assert(ids.to_set().contains(g));
            assert(kept.contains(g));
            assert(others.to_set().contains(g));
            here.len() + choose|i: int| 0 <= i < others.len() && others[i] == g
        };
        assert(all[i] == g);
        assert(rows[i] == placed_row(prev, brokers, g));
        lemma_entry_unique(rows, i);
    } else {
        lemma_entry_of(rows, g);
        if entry_of(rows, g) is Some {
            let e = entry_of(rows, g)->0;
            let i = choose|i: int| 0 <= i < rows.len() && rows[i] == e;
            assert(rows[i] == placed_row(prev, brokers, all[i]));
            assert(all[i] == g);
            if i < here.len() {
                assert(here.contains(g));
            } else {
                assert(others.to_set().contains(others[i - here.len()]));
            }
        }
    }
}

/// The names of a list that pass a test have an ordered list.
proof fn lemma_set_list(ids: Seq<Seq<char>>, ok: spec_fn(Seq<char>) -> bool)
    ensures
        order::increasing(order::in_order(ids.to_set().filter(ok))),
        order::in_order(ids.to_set().filter(ok)).to_set() == ids.to_set().filter(ok),
    decreases ids.len(),
{
    let t = ids.filter(ok);
    assert(t.to_set() =~= ids.to_set().filter(ok)) by {
        assert forall|x: Seq<char>| t.to_set().contains(x) <==> ids.to_set().filter(ok).contains(x) by {
            order::lemma_filtered(ids, ok, x);
        }
    }
    order::lemma_in_order_exists(t);
}

/// A group whose coordinator is alive keeps its entry as it is, reported or
/// not.
pub proof fn law_alive_coordinator_keeps_its_group(
    prev: Seq<GroupRow>,
    brokers: Seq<BrokerRow>,
    groups: Seq<Seq<char>>,
    g: Seq<char>,
)
    requires
        is_kept(prev, brokers, g),
    ensures
        entry_of(placed(prev, brokers, groups), g) == entry_of(prev, g),
{
    law_one_entry_for_each_group(prev, brokers, groups, g);
}

/// A group that is not reported loses its entry with its broker.
pub proof fn law_unreported_group_goes_with_its_broker(
    prev: Seq<GroupRow>,
    brokers: Seq<BrokerRow>,
    groups: Seq<Seq<char>>,
    g: Seq<char>,
)
    requires
        !groups.contains(g),
        !is_kept(prev, brokers, g),
    ensures
        entry_of(placed(prev, brokers, groups), g) is None,
{
    if brokers.len() > 0 {
        law_one_entry_for_each_group(prev, brokers, groups, g);
    }
}

/// A reported group has a coordinator that is alive, where any broker is. One
/// that moves gets a later epoch.
pub proof fn law_reported_group_is_coordinated(
    prev: Seq<GroupRow>,
    brokers: Seq<BrokerRow>,
    groups: Seq<Seq<char>>,
    g: Seq<char>,
    alive: Seq<char>,
)
    requires
        groups.contains(g),
        assignment::alive_in(brokers, alive),
        epoch_fits(prev, brokers, g),
    ensures
        entry_of(placed(prev, brokers, groups), g) matches Some(e) && assignment::alive_in(brokers, e.broker) && (entry_of(
            prev,
            g,
        ) matches Some(p) ==> e.epoch >= p.epoch && (e.broker != p.broker ==> e.epoch > p.epoch)),
{
    law_one_entry_for_each_group(prev, brokers, groups, g);
    group_hash::law_coordinator_is_alive(g, brokers);
}

/// The first entry of a group names the broker that the hash alone would
/// name, so that writing it moves nothing.
pub proof fn law_first_entry_confirms_the_hash(
    prev: Seq<GroupRow>,
    brokers: Seq<BrokerRow>,
    groups: Seq<Seq<char>>,
    g: Seq<char>,
    alive: Seq<char>,
)
    requires
        groups.contains(g),
        entry_of(prev, g) is None,
        assignment::alive_in(brokers, alive),
    ensures
        entry_of(placed(prev, brokers, groups), g) matches Some(e) && group_hash::coordinator(g, brokers) == Some(e.broker)
            && e.epoch == 1,
{
    law_one_entry_for_each_group(prev, brokers, groups, g);
    group_hash::law_coordinator_is_alive(g, brokers);
}

/// While some broker is alive, placing again changes nothing.
pub proof fn law_placement_of_groups_is_a_fixed_point(
    prev: Seq<GroupRow>,
    brokers: Seq<BrokerRow>,
    groups: Seq<Seq<char>>,
    alive: Seq<char>,
)
    requires
        assignment::alive_in(brokers, alive),
    ensures
        placed(placed(prev, brokers, groups), brokers, groups) == placed(prev, brokers, groups),
{
    let once = placed(prev, brokers, groups);
    let here = first_ones(groups);
    assert forall|g: Seq<char>| groups.contains(g) || is_kept(prev, brokers, g) implies #[trigger] placed_row(once, brokers, g) == placed_row(prev, brokers, g) by {
        law_one_entry_for_each_group(prev, brokers, groups, g);
        group_hash::law_coordinator_is_alive(g, brokers);
    }
    assert(unreported(once, brokers, groups) =~= unreported(prev, brokers, groups)) by {
        assert forall|g: Seq<char>| unreported(once, brokers, groups).contains(g) <==> unreported(prev, brokers, groups).contains(g) by {
            law_one_entry_for_each_group(prev, brokers, groups, g);
            lemma_entry_of(prev, g);
            lemma_entry_of(once, g);
        }
    }
    let ids = prev.map_values(|e: GroupRow| e.group_id);
    let others = order::in_order(unreported(prev, brokers, groups));
    lemma_set_list(ids, |x: Seq<char>| !groups.contains(x) && is_kept(prev, brokers, x));
    lemma_first_ones(groups);
    let f = |g: Seq<char>| placed_row(prev, brokers, g);
    let h = |g: Seq<char>| placed_row(once, brokers, g);
    assert forall|i: int| 0 <= i < here.len() implies #[trigger] here.map_values(h)[i] == here.map_values(f)[i] by {
        assert(here.contains(here[i]));
        assert(placed_row(once, brokers, here[i]) == placed_row(prev, brokers, here[i]));
    }
    assert(here.map_values(h) =~= here.map_values(f));
    assert forall|i: int| 0 <= i < others.len() implies #[trigger] others.map_values(h)[i] == others.map_values(f)[i] by {
        assert(others.to_set().contains(others[i]));
        assert(placed_row(once, brokers, others[i]) == placed_row(prev, brokers, others[i]));
    }
    assert(others.map_values(h) =~= others.map_values(f));
}

} // verus!
