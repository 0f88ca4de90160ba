//! The table of groups, kept in a `dashmap::DashMap`.
//!
//! A `DashMap` can be changed through a shared reference. The table is held
//! in a private field of the manager, which hands out no reference to it and
//! changes it through exclusive ones only, so that its contents stay put while
//! a shared reference lasts.

use vstd::prelude::*;
use dashmap::DashMap;
use crate::group;
use crate::group::{Group, GroupSnapshot};
use crate::order;

verus! {

#[verifier::external_type_specification]
#[verifier::external_body]
#[verifier::reject_recursive_types(K)]
#[verifier::reject_recursive_types(V)]
#[verifier::reject_recursive_types(S)]
pub struct ExDashMap<K, V, S>(dashmap::DashMap<K, V, S>);

/// What a table holds: groups by id.
pub uninterp spec fn table(m: DashMap<String, Group>) -> Map<Seq<char>, Group>;

/// `DashMap::new` makes an empty map.
#[verifier::external_body]
pub(crate) fn table_new() -> (m: DashMap<String, Group>)
    ensures
        table(m).dom() == Set::<Seq<char>>::empty(),
{
    DashMap::new()
}

/// `DashMap::contains_key` tells whether a key is in the map.
#[verifier::external_body]
pub(crate) fn table_has(m: &DashMap<String, Group>, id: &str) -> (r: bool)
    ensures
        r == table(*m).contains_key(id@),
{
    m.contains_key(id)
}

/// `DashMap::insert` puts a value under a key, in place of the one that was
/// there.
#[verifier::external_body]
pub(crate) fn table_put(m: &mut DashMap<String, Group>, id: String, g: Group)
    ensures
        table(*final(m)) == table(*old(m)).insert(id@, g),
{
    m.insert(id, g);
}

/// `DashMap::remove` takes a key out and gives the value that was under it.
#[verifier::external_body]
pub(crate) fn table_take(m: &mut DashMap<String, Group>, id: &str) -> (r: Option<Group>)
    ensures
        table(*final(m)) == table(*old(m)).remove(id@),
        match r {
            Some(g) => table(*old(m)).contains_key(id@) && g == table(*old(m))[id@],
            None => !table(*old(m)).contains_key(id@),
        },
{
    m.remove(id).map(|e| e.1)
}

/// `DashMap::view` calls a function on the value under a key, where there is
/// one. Here the function is `Group::describe`.
#[verifier::external_body]
pub(crate) fn table_describe(m: &DashMap<String, Group>, id: &str) -> (r: Option<GroupSnapshot>)
    ensures
        match r {
            Some(s) => table(*m).contains_key(id@) && group::shows(s, table(*m)[id@]@),
            None => !table(*m).contains_key(id@),
        },
{
    m.view(id, |_id, g| g.describe())
}

/// `DashMap::iter` goes through every entry once, in no particular order.
/// Here the keys are kept.
#[verifier::external_body]
pub(crate) fn table_ids(m: &DashMap<String, Group>) -> (r: Vec<String>)
    ensures
        order::texts(r@).no_duplicates(),
        order::texts(r@).to_set() == table(*m).dom(),
{
    m.iter().map(|e| e.key().clone()).collect()
}

} // verus!
