//! A map keyed by numbers, kept as a list of entries in increasing order.

use vstd::prelude::*;

verus! {

pub open spec fn ascending<V>(s: Seq<(i32, V)>) -> bool {
    forall|i: int, j: int| 0 <= i < j < s.len() ==> (#[trigger] s[i]).0 < (#[trigger] s[j]).0
}

/// The map that a list of entries stands for.
pub open spec fn number_map<V>(s: Seq<(i32, V)>) -> Map<i32, V>
    decreases s.len(),
{
    if s.len() == 0 {
        Map::empty()
    } else {
        number_map(s.drop_last()).insert(s.last().0, s.last().1)
    }
}

proof fn lemma_number_map<V>(s: Seq<(i32, V)>)
    requires
        ascending(s),
    ensures
        number_map(s).dom().finite(),
        number_map(s).dom().len() == s.len(),
        forall|k: i32| #[trigger] number_map(s).contains_key(k) ==> exists|i: int| 0 <= i < s.len() && (#[trigger] s[i]).0 == k,
        forall|i: int| 0 <= i < s.len() ==> number_map(s).contains_key((#[trigger] s[i]).0) && number_map(s)[s[i].0] == s[i].1,
    decreases s.len(),
{
    if s.len() > 0 {
        let d = s.drop_last();
        lemma_number_map(d);
        let k = s.last().0;
        assert(!number_map(d).contains_key(k)) by {
            if number_map(d).contains_key(k) {
                let i = choose|i: int| 0 <= i < d.len() && (#[trigger] d[i]).0 == k;
                assert(s[i].0 < s[s.len() - 1].0);
            }
        }
        assert forall|x: i32| #[trigger] number_map(s).contains_key(x) implies exists|i: int|
            0 <= i < s.len() && (#[trigger] s[i]).0 == x by {
            if x == k {
                assert(s[s.len() - 1].0 == x);
            } else {
                assert(number_map(d).contains_key(x));
                let i = choose|i: int| 0 <= i < d.len() && (#[trigger] d[i]).0 == x;
                assert(s[i].0 == x);
            }
        }
        assert forall|i: int| 0 <= i < s.len() implies number_map(s).contains_key((#[trigger] s[i]).0) && number_map(s)[s[i].0]
            == s[i].1 by {
            if i < d.len() {
                assert(d[i] == s[i]);
                assert(s[i].0 < s[s.len() - 1].0);
            }
        }
    }
}

/// Two lists in increasing order with the same entries stand for one map.
proof fn lemma_number_map_is<V>(s: Seq<(i32, V)>, m: Map<i32, V>)
    requires
        ascending(s),
        forall|k: i32| #[trigger] m.contains_key(k) ==> exists|i: int| 0 <= i < s.len() && (#[trigger] s[i]).0 == k,
        forall|i: int| 0 <= i < s.len() ==> m.contains_key((#[trigger] s[i]).0) && m[s[i].0] == s[i].1,
    ensures
        number_map(s) == m,
{
    lemma_number_map(s);
    assert forall|k: i32| number_map(s).contains_key(k) == m.contains_key(k) by {
        if number_map(s).contains_key(k) {
            let i = choose|i: int| 0 <= i < s.len() && (#[trigger] s[i]).0 == k;
            assert(m.contains_key(s[i].0));
        }
        if m.contains_key(k) {
            let i = choose|i: int| 0 <= i < s.len() && (#[trigger] s[i]).0 == k;
            assert(number_map(s).contains_key(s[i].0));
        }
    }
    assert forall|k: i32| number_map(s).contains_key(k) implies number_map(s)[k] == m[k] by {
        let i = choose|i: int| 0 <= i < s.len() && (#[trigger] s[i]).0 == k;
        assert(number_map(s)[s[i].0] == s[i].1);
    }
    assert(number_map(s) =~= m);
}

#[derive(Debug)]
pub struct NumberMap<V> {
    entries: Vec<(i32, V)>,
}

impl<V> View for NumberMap<V> {
    type V = Map<i32, V>;

    closed spec fn view(&self) -> Map<i32, V> {
        number_map(self.entries@)
    }
}

impl<V> NumberMap<V> {
    #[verifier::type_invariant]
    spec fn inv(self) -> bool {
        ascending(self.entries@)
    }

    /// The keys in increasing order.
    pub closed spec fn keys(&self) -> Seq<i32> {
        self.entries@.map_values(|e: (i32, V)| e.0)
    }

    pub fn new() -> (m: Self)
        ensures
            m@ == Map::<i32, V>::empty(),
    {
        NumberMap { entries: Vec::new() }
    }

    pub fn len(&self) -> (n: usize)
        ensures
            n == self@.dom().len(),
            n == self.keys().len(),
            self@.dom().finite(),
            forall|i: int, j: int| 0 <= i < j < n ==> #[trigger] self.keys()[i] < #[trigger] self.keys()[j],
            forall|i: int| 0 <= i < n ==> self@.contains_key(#[trigger] self.keys()[i]),
            forall|k: i32| #[trigger] self@.contains_key(k) ==> self.keys().contains(k),
    {
        proof {
            use_type_invariant(self);
            lemma_number_map(self.entries@);
            assert forall|i: int, j: int| 0 <= i < j < self.entries@.len() implies #[trigger] self.keys()[i] < #[trigger] self.keys()[j] by {
                assert(self.entries@[i].0 < self.entries@[j].0);
            }
            assert forall|i: int| 0 <= i < self.entries@.len() implies self@.contains_key(#[trigger] self.keys()[i]) by {
                assert(self@.contains_key(self.entries@[i].0));
            }
            assert forall|k: i32| #[trigger] self@.contains_key(k) implies self.keys().contains(k) by {
                let i = choose|i: int| 0 <= i < self.entries@.len() && (#[trigger] self.entries@[i]).0 == k;
                assert(self.keys()[i] == k);
            }
        }
        self.entries.len()
    }

    pub fn key_at(&self, i: usize) -> (k: i32)
        requires
            i < self.keys().len(),
        ensures
            k == self.keys()[i as int],
            self@.contains_key(k),
    {
        proof {
            use_type_invariant(self);
            lemma_number_map(self.entries@);
            assert(self@.contains_key(self.entries@[i as int].0));
        }
        self.entries[i].0
    }

    pub fn value_at(&self, i: usize) -> (v: &V)
        requires
            i < self.keys().len(),
        ensures
            *v == self@[self.keys()[i as int]],
    {
        proof {
            use_type_invariant(self);
            lemma_number_map(self.entries@);
            assert(self@[self.entries@[i as int].0] == self.entries@[i as int].1);
        }
        &self.entries[i].1
    }

    /// The first place whose key is not below `key`.
    fn place(&self, key: i32) -> (p: usize)
        ensures
            p <= self.entries@.len(),
            forall|i: int| 0 <= i < p ==> (#[trigger] self.entries@[i]).0 < key,
            forall|i: int| p <= i < self.entries@.len() ==> (#[trigger] self.entries@[i]).0 >= key,
    {
        proof {
            use_type_invariant(self);
        }
        let mut p: usize = 0;
        while p < self.entries.len() && self.entries[p].0 < key
            invariant
                p <= self.entries@.len(),
                forall|i: int| 0 <= i < p ==> (#[trigger] self.entries@[i]).0 < key,
            decreases self.entries.len() - p,
        {
            p = p + 1;
        }
        proof {
            assert forall|i: int| p <= i < self.entries@.len() implies (#[trigger] self.entries@[i]).0 >= key by {
                if i > p {
                    assert(self.entries@[p as int].0 < self.entries@[i].0);
                }
            }
        }
        p
    }

    pub fn get(&self, key: i32) -> (r: Option<&V>)
        ensures
            match r {
                Some(v) => self@.contains_key(key) && *v == self@[key],
                None => !self@.contains_key(key),
            },
    {
        let p = self.place(key);
        proof {
            use_type_invariant(self);
            lemma_number_map(self.entries@);
        }
        if p < self.entries.len() && self.entries[p].0 == key {
            assert(self@.contains_key(self.entries@[p as int].0));
            return Some(&self.entries[p].1);
        }
        proof {
            if self@.contains_key(key) {
                let i = choose|i: int| 0 <= i < self.entries@.len() && (#[trigger] self.entries@[i]).0 == key;
                if i > p {
                    assert(self.entries@[p as int].0 < self.entries@[i].0);
                }
            }
        }
        None
    }

    pub fn insert(&mut self, key: i32, value: V)
        ensures
            final(self)@ == old(self)@.insert(key, value),
    {
        let p = self.place(key);
        proof {
            use_type_invariant(&*self);
            lemma_number_map(self.entries@);
        }
        let ghost s = self.entries@;
        let ghost m = self@;
        let mut e: Vec<(i32, V)> = Vec::new();
        std::mem::swap(&mut self.entries, &mut e);
        if p < e.len() && e[p].0 == key {
            e.set(p, (key, value));
            proof {
                let t = e@;
                assert(ascending(t));
                assert forall|k: i32| #[trigger] m.insert(key, value).contains_key(k) implies exists|i: int|
                    0 <= i < t.len() && (#[trigger] t[i]).0 == k by {
                    if k == key {
                        assert(t[p as int].0 == k);
                    } else {
                        assert(m.contains_key(k));
                        let i = choose|i: int| 0 <= i < s.len() && (#[trigger] s[i]).0 == k;
                        assert(t[i].0 == k);
                    }
                }
                assert forall|i: int| 0 <= i < t.len() implies m.insert(key, value).contains_key((#[trigger] t[i]).0) && m.insert(
                    key,
                    value,
                )[t[i].0] == t[i].1 by {
                    if i != p {
                        assert(t[i] == s[i]);
                        assert(m.contains_key(s[i].0));
                        if i < p {
                            assert(s[i].0 < s[p as int].0);
                        } else {
                            assert(s[p as int].0 < s[i].0);
                        }
                    }
                }
                lemma_number_map_is(t, m.insert(key, value));
            }
        } else {
            e.insert(p, (key, value));
            proof {
                let t = e@;
                assert forall|i: int, j: int| 0 <= i < j < t.len() implies (#[trigger] t[i]).0 < (#[trigger] t[j]).0 by {
                    let a: int = if i < p { i } else { i - 1 };
                    let b: int = if j < p { j } else { j - 1 };
                    if i != p && j != p {
                        assert(t[i] == s[a] && t[j] == s[b]);
                        assert(s[a].0 < s[b].0);
                    } else if i == p {
                        assert(t[j] == s[b]);
                        assert(s[b].0 >= key);
                        if b == p {
                            assert(s[b].0 != key);
                        } else {
                            assert(s[p as int].0 < s[b].0);
                        }
                    } else {
                        assert(t[i] == s[a]);
                        assert(s[a].0 < key);
                    }
                }
                assert forall|k: i32| #[trigger] m.insert(key, value).contains_key(k) implies exists|i: int|
                    0 <= i < t.len() && (#[trigger] t[i]).0 == k by {
                    if k == key {
                        assert(t[p as int].0 == k);
                    } else {
                        assert(m.contains_key(k));
                        let i = choose|i: int| 0 <= i < s.len() && (#[trigger] s[i]).0 == k;
                        if i < p {
                            assert(t[i].0 == k);
                        } else {
                            assert(t[i + 1].0 == k);
                        }
                    }
                }
                assert forall|i: int| 0 <= i < t.len() implies m.insert(key, value).contains_key((#[trigger] t[i]).0) && m.insert(
                    key,
                    value,
                )[t[i].0] == t[i].1 by {
                    if i != p {
                        let a: int = if i < p { i } else { i - 1 };
                        assert(t[i] == s[a]);
                        assert(m.contains_key(s[a].0));
                        if i < p {
                            assert(t[i].0 < t[p as int].0);
                        } else {
                            assert(t[p as int].0 < t[i].0);
                        }
                    }
                }
                lemma_number_map_is(t, m.insert(key, value));
            }
        }
        self.entries = e;
    }

    pub fn remove(&mut self, key: i32)
        ensures
            final(self)@ == old(self)@.remove(key),
    {
        let p = self.place(key);
        proof {
            use_type_invariant(&*self);
            lemma_number_map(self.entries@);
        }
        let ghost s = self.entries@;
        let ghost m = self@;
        if p < self.entries.len() && self.entries[p].0 == key {
            let mut e: Vec<(i32, V)> = Vec::new();
            std::mem::swap(&mut self.entries, &mut e);
            e.remove(p);
            proof {
                let t = e@;
                assert forall|i: int, j: int| 0 <= i < j < t.len() implies (#[trigger] t[i]).0 < (#[trigger] t[j]).0 by {
                    let a: int = if i < p { i } else { i + 1 };
                    let b: int = if j < p { j } else { j + 1 };
                    assert(t[i] == s[a] && t[j] == s[b]);
                    assert(s[a].0 < s[b].0);
                }
                assert forall|k: i32| #[trigger] m.remove(key).contains_key(k) implies exists|i: int|
                    0 <= i < t.len() && (#[trigger] t[i]).0 == k by {
                    assert(m.contains_key(k));
                    let i = choose|i: int| 0 <= i < s.len() && (#[trigger] s[i]).0 == k;
                    if i < p {
                        assert(t[i].0 == k);
                    } else {
                        assert(t[i - 1].0 == k);
                    }
                }
                assert forall|i: int| 0 <= i < t.len() implies m.remove(key).contains_key((#[trigger] t[i]).0) && m.remove(key)[t[i].0]
                    == t[i].1 by {
                    let a: int = if i < p { i } else { i + 1 };
                    assert(t[i] == s[a]);
                    assert(m.contains_key(s[a].0));
                    if a < p {
                        assert(s[a].0 < s[p as int].0);
                    } else {
                        assert(s[p as int].0 < s[a].0);
                    }
                }
                lemma_number_map_is(t, m.remove(key));
            }
            self.entries = e;
        } else {
            proof {
                if m.contains_key(key) {
                    let i = choose|i: int| 0 <= i < s.len() && (#[trigger] s[i]).0 == key;
                    if i > p {
                        assert(s[p as int].0 < s[i].0);
                    }
                }
                assert(m.remove(key) =~= m);
            }
        }
    }
}

} // verus!
