//! The request kinds that the broker answers. The table of them is put together
//! from the rows of the single kinds, and looked up by key.

use vstd::prelude::*;
use crate::api::common::HeaderVersion;

verus! {

/// A header layout by version: one layout up to a version, another from it.
#[derive(Debug, Clone, Copy, PartialEq, Eq, Structural)]
pub struct HeaderRule {
    pub before: HeaderVersion,
    pub from: HeaderVersion,
    pub switch_at: i16,
}

impl HeaderRule {
    pub open spec fn layout(self, version: i16) -> HeaderVersion {
        if version >= self.switch_at {
            self.from
        } else {
            self.before
        }
    }

    pub fn at(&self, version: i16) -> (h: HeaderVersion)
        ensures
            h == self.layout(version),
    {
        if version >= self.switch_at {
            self.from
        } else {
            self.before
        }
    }
}

/// One request kind: its key, its versions and its headers.
#[derive(Debug, Clone, Copy, PartialEq, Eq)]
pub struct ApiSpec {
    pub key: i16,
    pub min_version: i16,
    pub max_version: i16,
    /// The first flexible version; none where no version is.
    pub min_flexible: Option<i16>,
    pub request_hdr: HeaderRule,
    pub response_hdr: HeaderRule,
}

impl ApiSpec {
    pub fn is_flexible(&self, version: i16) -> (r: bool)
        ensures
            r == (self.min_flexible matches Some(min) && version >= min),
    {
        match self.min_flexible {
            Some(min) => version >= min,
            None => false,
        }
    }
}

/// The keys of all request kinds that the broker answers.
pub const KEYS: [i16; 37] = [
    0, 1, 2, 3, 8, 9, 10, 11, 12, 13, 14, 15, 16, 17, 18, 19, 20, 21, 22, 24, 25, 26, 27, 28, 29, 30, 31, 32, 34, 35, 36, 37, 42, 44,
    47, 48, 49,
];

/// Whether the broker answers requests with a key.
pub fn is_registered(key: i16) -> (r: bool)
    ensures
        r == KEYS@.contains(key),
{
    let mut i: usize = 0;
    while i < 37
        invariant
            i <= 37,
            forall|j: int| 0 <= j < i ==> KEYS@[j] != key,
        decreases 37 - i,
    {
        if KEYS[i] == key {
            assert(KEYS@[i as int] == key);
            return true;
        }
        i = i + 1;
    }
    assert(KEYS@.len() == 37);
    false
}

/// The first row with a key, from number `i` of a table on.
pub open spec fn row_for(rows: Seq<ApiSpec>, key: i16, i: int) -> Option<ApiSpec>
    decreases rows.len() - i,
{
    if i < 0 || i >= rows.len() {
        None
    } else if rows[i].key == key {
        Some(rows[i])
    } else {
        row_for(rows, key, i + 1)
    }
}

/// The row of a table with a key.
pub fn lookup(rows: &[ApiSpec], key: i16) -> (r: Option<ApiSpec>)
    ensures
        r == row_for(rows@, key, 0),
{
    let mut i: usize = 0;
    while i < rows.len()
        invariant
            i <= rows@.len(),
            row_for(rows@, key, 0) == row_for(rows@, key, i as int),
        decreases rows.len() - i,
    {
        if rows[i].key == key {
            return Some(rows[i]);
        }
        i = i + 1;
    }
    None
}

/// Whether a table is the broker's: each of its request kinds has one row, and
/// no other kind has. The rows of Metadata and ApiVersions are known.
pub open spec fn is_whole(rows: Seq<ApiSpec>) -> bool {
    &&& rows.len() == KEYS@.len()
    &&& forall|i: int| 0 <= i < KEYS@.len() ==> row_for(rows, #[trigger] KEYS@[i], 0) is Some
    &&& row_for(rows, 3, 0) == Some(crate::api::metadata::row())
    &&& row_for(rows, 18, 0) matches Some(s) && s.min_version == 0 && s.max_version == 4 && s.min_flexible == Some(3i16)
}

/// Whether a table is the broker's.
pub fn whole(rows: &[ApiSpec]) -> (r: bool)
    ensures
        r == is_whole(rows@),
{
    if rows.len() != 37 {
        assert(KEYS@.len() == 37);
        return false;
    }
    let mut i: usize = 0;
    while i < 37
        invariant
            i <= 37,
            forall|j: int| 0 <= j < i ==> row_for(rows@, #[trigger] KEYS@[j], 0) is Some,
        decreases 37 - i,
    {
        if lookup(rows, KEYS[i]).is_none() {
            assert(row_for(rows@, KEYS@[i as int], 0) is None);
            return false;
        }
        i = i + 1;
    }
    assert(KEYS@.len() == 37);
    let metadata: bool = match lookup(rows, 3) {
        Some(s) => same_row(&s, &crate::api::metadata::spec()),
        None => false,
    };
    let api_versions: bool = match lookup(rows, 18) {
        Some(s) => s.min_version == 0 && s.max_version == 4 && s.min_flexible == Some(3i16),
        None => false,
    };
    metadata && api_versions
}

fn same_row(a: &ApiSpec, b: &ApiSpec) -> (r: bool)
    ensures
        r == (*a == *b),
{
    a.key == b.key && a.min_version == b.min_version && a.max_version == b.max_version && a.min_flexible == b.min_flexible && a.request_hdr
        == b.request_hdr && a.response_hdr == b.response_hdr
}

proof fn lemma_row_for(rows: Seq<ApiSpec>, key: i16, i: int)
    requires
        0 <= i,
    ensures
        match row_for(rows, key, i) {
            Some(s) => s.key == key && exists|j: int| i <= j < rows.len() && #[trigger] rows[j] == s,
            None => forall|j: int| i <= j < rows.len() ==> (#[trigger] rows[j]).key != key,
        },
    decreases rows.len() - i,
{
    if i < rows.len() {
        lemma_row_for(rows, key, i + 1);
    }
}

/// What is looked up has the key that was asked for, and a row is found exactly
/// where the table has one.
pub proof fn law_lookup_goes_by_key(rows: Seq<ApiSpec>, key: i16)
    ensures
        row_for(rows, key, 0) matches Some(s) ==> s.key == key && rows.contains(s),
        row_for(rows, key, 0) is Some <==> exists|j: int| 0 <= j < rows.len() && (#[trigger] rows[j]).key == key,
{
    lemma_row_for(rows, key, 0);
    match row_for(rows, key, 0) {
        Some(s) => {
            let j = choose|j: int| 0 <= j < rows.len() && #[trigger] rows[j] == s;
            assert(rows[j].key == key);
        },
        None => {},
    }
}

/// In the broker's table exactly the request kinds that it answers are found,
/// and no two rows have one key.
pub proof fn law_whole_table_answers_its_keys(rows: Seq<ApiSpec>, key: i16)
    requires
        is_whole(rows),
    ensures
        row_for(rows, key, 0) is Some <==> KEYS@.contains(key),
        forall|i: int, j: int| 0 <= i < j < rows.len() ==> (#[trigger] rows[i]).key != (#[trigger] rows[j]).key,
{
    let keys = rows.map_values(|s: ApiSpec| s.key);
    let all = KEYS@;
    law_keys_are_unique();
    assert(all.no_duplicates());
    assert forall|x: i16| #[trigger] all.to_set().contains(x) implies keys.to_set().contains(x) by {
        let i = choose|i: int| 0 <= i < all.len() && all[i] == x;
        assert(row_for(rows, KEYS@[i], 0) is Some);
        lemma_row_for(rows, x, 0);
        let s = row_for(rows, x, 0)->0;
        let j = choose|j: int| 0 <= j < rows.len() && #[trigger] rows[j] == s;
        assert(keys[j] == x);
    }
    all.unique_seq_to_set();
    keys.lemma_cardinality_of_set();
    vstd::set_lib::lemma_len_subset(all.to_set(), keys.to_set());
    vstd::set_lib::lemma_subset_equality(all.to_set(), keys.to_set());
    keys.lemma_no_dup_set_cardinality();
    assert forall|i: int, j: int| 0 <= i < j < rows.len() implies (#[trigger] rows[i]).key != (#[trigger] rows[j]).key by {
        assert(keys[i] != keys[j]);
    }
    lemma_row_for(rows, key, 0);
    match row_for(rows, key, 0) {
        Some(s) => {
            let j = choose|j: int| 0 <= j < rows.len() && #[trigger] rows[j] == s;
            assert(keys[j] == key);
            assert(all.to_set().contains(key));
        },
        None => {
            if all.contains(key) {
                let i = choose|i: int| 0 <= i < all.len() && all[i] == key;
                assert(row_for(rows, KEYS@[i], 0) is Some);
            }
        },
    }
}

/// No key stands twice among those that the broker answers.
pub proof fn law_keys_are_unique()
    ensures
        forall|i: int, j: int| 0 <= i < j < KEYS@.len() ==> KEYS@[i] < KEYS@[j],
{
}

} // verus!
