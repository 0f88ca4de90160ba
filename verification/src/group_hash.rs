//! Which broker coordinates a group that no assignment names.
//!
//! A group hashes to a slot among all registered brokers, dead ones included,
//! so that losing a broker moves the groups of that broker and no others. That
//! the search goes on from the slot of a dead broker, in the order of the list
//! and round its end, to the first that is alive, is this library's own choice:
//! any rule that brokers share would do.

use vstd::prelude::*;
use vstd::arithmetic::div_mod;
use vstd::utf8;
use crate::assignment;
use crate::assignment::{is_alive, BrokerAssignment, BrokerRow};
use crate::txn_state;
use crate::txn_state::fnv1a_32;

verus! {

/// The slot of a group among `n` brokers.
pub open spec fn slot_of(group: Seq<char>, n: nat) -> int {
    txn_state::fnv1a(utf8::encode_utf8(group)) as int % n as int
}

/// The first alive broker from a slot on, `k` brokers having been passed.
pub open spec fn first_alive(rows: Seq<BrokerRow>, slot: int, k: nat) -> Option<Seq<char>>
    decreases rows.len() - k,
{
    if k >= rows.len() {
        None
    } else {
        let id = rows[(slot + k) % rows.len() as int].id;
        if assignment::alive_in(rows, id) {
            Some(id)
        } else {
            first_alive(rows, slot, k + 1)
        }
    }
}

/// The broker that coordinates a group, none where no broker is alive.
pub open spec fn coordinator(group: Seq<char>, rows: Seq<BrokerRow>) -> Option<Seq<char>> {
    if rows.len() == 0 {
        None
    } else {
        first_alive(rows, slot_of(group, rows.len()), 0)
    }
}

/// The slot of a group among `n` brokers.
pub fn group_coordinator_slot(group_id: &str, n: usize) -> (slot: usize)
    requires
        n > 0,
    ensures
        slot == slot_of(group_id@, n as nat),
        slot < n,
{
    let h: u32 = fnv1a_32(group_id.as_bytes());
    ((h as u64) % (n as u64)) as usize
}

pub fn pick_group_coordinator(group_id: &str, brokers: &[BrokerAssignment]) -> (r: Option<String>)
    ensures
        match r {
            Some(id) => coordinator(group_id@, assignment::broker_rows(brokers@)) == Some(id@),
            None => coordinator(group_id@, assignment::broker_rows(brokers@)) is None,
        },
{
    let ghost rows = assignment::broker_rows(brokers@);
    let n: usize = brokers.len();
    if n == 0 {
        return None;
    }
    let slot: usize = group_coordinator_slot(group_id, n);
    let mut k: usize = 0;
    let mut at: usize = slot;
    proof {
        div_mod::lemma_small_mod(slot as nat, n as nat);
    }
    while k < n
        invariant
            k <= n,
            n == brokers@.len(),
            n > 0,
            slot < n,
            at < n,
            at == (slot + k) % n as int,
            rows == assignment::broker_rows(brokers@),
            coordinator(group_id@, rows) == first_alive(rows, slot as int, k as nat),
        decreases n - k,
    {
        if is_alive(brokers, &brokers[at].id) {
            return Some(brokers[at].id.clone());
        }
        let next: usize = if at + 1 == n {
            0
        } else {
            at + 1
        };
        assert(next == (slot + k + 1) % n as int) by (nonlinear_arith)
            requires
                n > 0,
                at < n,
                at == (slot + k) % n as int,
                next == (if at + 1 == n { 0int } else { at + 1 }),
        ;
        at = next;
        k = k + 1;
    }
    None
}

proof fn lemma_first_alive(rows: Seq<BrokerRow>, slot: int, k: nat)
    requires
        slot >= 0,
    ensures
        match first_alive(rows, slot, k) {
            Some(id) => assignment::alive_in(rows, id) && assignment::broker_ids(rows).contains(id),
            None => forall|j: int| k <= j < rows.len() ==> !assignment::alive_in(rows, rows[#[trigger] ((slot + j) % rows.len() as int)].id),
        },
    decreases rows.len() - k,
{
    if k < rows.len() {
        let at = (slot + k) % rows.len() as int;
        assert(0 <= at < rows.len()) by (nonlinear_arith)
            requires
                rows.len() > 0,
                at == (slot + k) % rows.len() as int,
        ;
        assert(assignment::broker_ids(rows)[at] == rows[at].id);
        lemma_first_alive(rows, slot, k + 1);
    }
}

/// The coordinator of a group is alive, and there is one where any broker is.
pub proof fn law_coordinator_is_alive(group: Seq<char>, rows: Seq<BrokerRow>)
    ensures
        coordinator(group, rows) matches Some(id) ==> assignment::alive_in(rows, id) && assignment::broker_ids(rows).contains(id),
        coordinator(group, rows) is None <==> forall|id: Seq<char>| !#[trigger] assignment::alive_in(rows, id),
{
    if rows.len() > 0 {
        let n = rows.len() as int;
        let slot = slot_of(group, rows.len());
        lemma_first_alive(rows, slot, 0);
        if coordinator(group, rows) is None {
            assert forall|id: Seq<char>| !#[trigger] assignment::alive_in(rows, id) by {
                if assignment::alive_in(rows, id) {
                    let i = lemma_alive_has_row(rows, id);
                    let j = (i - slot) % n;
                    div_mod::lemma_mod_bound(i - slot, n);
                    div_mod::lemma_add_mod_noop_right(slot, i - slot, n);
                    div_mod::lemma_small_mod(i as nat, n as nat);
                    assert((slot + j) % n == i);
                    assert(!assignment::alive_in(rows, rows[(slot + j) % rows.len() as int].id));
                }
            }
        }
    }
}

proof fn lemma_alive_has_row(rows: Seq<BrokerRow>, id: Seq<char>) -> (i: int)
    requires
        assignment::alive_in(rows, id),
    ensures
        0 <= i < rows.len(),
        rows[i].id == id,
    decreases rows.len(),
{
    if rows.last().id == id {
        rows.len() - 1
    } else {
        lemma_alive_has_row(rows.drop_last(), id)
    }
}

proof fn lemma_survivors(before: Seq<BrokerRow>, after: Seq<BrokerRow>, slot: int, k: nat)
    requires
        slot >= 0,
        assignment::broker_ids(before) == assignment::broker_ids(after),
        forall|id: Seq<char>| #[trigger] assignment::alive_in(after, id) ==> assignment::alive_in(before, id),
        first_alive(before, slot, k) matches Some(id) && assignment::alive_in(after, id),
    ensures
        first_alive(after, slot, k) == first_alive(before, slot, k),
    decreases before.len() - k,
{
    assert(assignment::broker_ids(before).len() == before.len() && assignment::broker_ids(after).len() == after.len());
    let at = (slot + k) % before.len() as int;
    assert(0 <= at < before.len()) by (nonlinear_arith)
        requires
            before.len() > 0,
            at == (slot + k) % before.len() as int,
    ;
    assert(assignment::broker_ids(before)[at] == assignment::broker_ids(after)[at]);
    if !assignment::alive_in(before, before[at].id) {
        lemma_survivors(before, after, slot, k + 1);
    }
}

/// Where brokers are lost, a group whose coordinator lives on keeps it: the
/// hash is taken over all registered brokers.
pub proof fn law_losing_brokers_moves_only_their_groups(group: Seq<char>, before: Seq<BrokerRow>, after: Seq<BrokerRow>)
    requires
        assignment::broker_ids(before) == assignment::broker_ids(after),
        forall|id: Seq<char>| #[trigger] assignment::alive_in(after, id) ==> assignment::alive_in(before, id),
        coordinator(group, before) matches Some(id) && assignment::alive_in(after, id),
    ensures
        coordinator(group, after) == coordinator(group, before),
{
    assert(assignment::broker_ids(before).len() == before.len() && assignment::broker_ids(after).len() == after.len());
    lemma_survivors(before, after, slot_of(group, before.len()), 0);
}

} // verus!
