//! A map keyed by text, kept as a list of entries without repeated keys.

use vstd::prelude::*;
use crate::order;
use crate::text::text_eq;

verus! {

/// The map that a list of entries stands for; a later entry wins.
pub open spec fn entry_map<V>(s: Seq<(String, V)>) -> Map<Seq<char>, V>
    decreases s.len(),
{
    if s.len() == 0 {
        Map::empty()
    } else {
        entry_map(s.drop_last()).insert(s.last().0@, s.last().1)
    }
}

pub open spec fn distinct_keys<V>(s: Seq<(String, V)>) -> bool {
    forall|i: int, j: int| 0 <= i < j < s.len() ==> (#[trigger] s[i]).0@ != (#[trigger] s[j]).0@
}

pub open spec fn entry_keys<V>(s: Seq<(String, V)>) -> Seq<Seq<char>> {
    s.map_values(|e: (String, V)| e.0@)
}

pub proof fn lemma_entry_map<V>(s: Seq<(String, V)>)
    requires
        distinct_keys(s),
    ensures
        entry_map(s).dom() == entry_keys(s).to_set(),
        entry_map(s).dom().finite(),
        entry_map(s).dom().len() == s.len(),
        entry_keys(s).no_duplicates(),
        forall|i: int| 0 <= i < s.len() ==> entry_map(s).contains_key((#[trigger] s[i]).0@) && entry_map(s)[s[i].0@] == s[i].1,
    decreases s.len(),
{
    if s.len() == 0 {
        assert(entry_keys(s).to_set() =~= Set::empty());
    } else {
        let d = s.drop_last();
        lemma_entry_map(d);
        assert(entry_keys(s) =~= entry_keys(d).push(s.last().0@));
        entry_keys(d).lemma_push_to_set_commute(s.last().0@);
        assert(entry_map(s).dom() =~= entry_keys(s).to_set());
        assert(!entry_keys(d).contains(s.last().0@)) by {
            if entry_keys(d).contains(s.last().0@) {
                let i = choose|i: int| 0 <= i < d.len() && entry_keys(d)[i] == s.last().0@;
                assert(s[i].0@ != s[s.len() - 1].0@);
            }
        }
        assert forall|i: int| 0 <= i < s.len() implies entry_map(s).contains_key((#[trigger] s[i]).0@) && entry_map(s)[s[i].0@] == s[i].1 by {
            if i < d.len() {
                assert(d[i] == s[i]);
                assert(s[i].0@ != s[s.len() - 1].0@);
            }
        }
    }
}

/// Mapping the values of a map keeps its keys and follows its changes.
pub proof fn lemma_mapped<K, V, W>(m: Map<K, V>, f: spec_fn(V) -> W, k: K, v: V)
    ensures
        m.map_values(f).dom() == m.dom(),
        m.insert(k, v).map_values(f) == m.map_values(f).insert(k, f(v)),
        m.remove(k).map_values(f) == m.map_values(f).remove(k),
        m.contains_key(k) ==> m.map_values(f)[k] == f(m[k]),
{
    assert(m.map_values(f).dom() =~= m.dom());
    assert(m.insert(k, v).map_values(f) =~= m.map_values(f).insert(k, f(v)));
    assert(m.remove(k).map_values(f) =~= m.map_values(f).remove(k));
}

#[derive(Debug)]
pub struct TextMap<V> {
    entries: Vec<(String, V)>,
}

impl<V> View for TextMap<V> {
    type V = Map<Seq<char>, V>;

    closed spec fn view(&self) -> Map<Seq<char>, V> {
        entry_map(self.entries@)
    }
}

impl<V> TextMap<V> {
    #[verifier::type_invariant]
    spec fn inv(self) -> bool {
        distinct_keys(self.entries@)
    }

    /// The keys in the order in which they were first put in.
    pub closed spec fn key_list(&self) -> Seq<Seq<char>> {
        entry_keys(self.entries@)
    }

    pub fn new() -> (m: Self)
        ensures
            m@ == Map::<Seq<char>, V>::empty(),
            m.key_list() == Seq::<Seq<char>>::empty(),
    {
        let m = TextMap { entries: Vec::new() };
        assert(m.key_list() =~= Seq::<Seq<char>>::empty());
        m
    }

    pub fn len(&self) -> (n: usize)
        ensures
            n == self@.dom().len(),
            n == self.key_list().len(),
            self@.dom().finite(),
            self.key_list().no_duplicates(),
            self.key_list().to_set() == self@.dom(),
    {
        proof {
            use_type_invariant(self);
            lemma_entry_map(self.entries@);
        }
        self.entries.len()
    }

    fn find(&self, key: &str) -> (r: Option<usize>)
        ensures
            match r {
                Some(i) => i < self.entries@.len() && self.entries@[i as int].0@ == key@
                    && self@.contains_key(key@) && self@[key@] == self.entries@[i as int].1,
                None => !self@.contains_key(key@) && forall|i: int| 0 <= i < self.entries@.len() ==> (#[trigger] self.entries@[i]).0@ != key@,
            },
    {
        proof {
            use_type_invariant(self);
            lemma_entry_map(self.entries@);
        }
        let mut i: usize = 0;
        while i < self.entries.len()
            invariant
                i <= self.entries@.len(),
                forall|j: int| 0 <= j < self.entries@.len() ==> self@.contains_key((#[trigger] self.entries@[j]).0@) && self@[self.entries@[j].0@] == self.entries@[j].1,
                forall|j: int| 0 <= j < i ==> (#[trigger] self.entries@[j]).0@ != key@,
            decreases self.entries.len() - i,
        {
            if text_eq(&self.entries[i].0, key) {
                return Some(i);
            }
            i = i + 1;
        }
        proof {
            if self@.contains_key(key@) {
                lemma_entry_map(self.entries@);
                assert(entry_keys(self.entries@).contains(key@));
                let k = choose|k: int| 0 <= k < self.entries@.len() && entry_keys(self.entries@)[k] == key@;
                assert(self.entries@[k].0@ == key@);
            }
        }
        None
    }

    pub fn contains_key(&self, key: &str) -> (r: bool)
        ensures
            r == self@.contains_key(key@),
    {
        self.find(key).is_some()
    }

    pub fn get(&self, key: &str) -> (r: Option<&V>)
        ensures
            match r {
                Some(v) => self@.contains_key(key@) && *v == self@[key@],
                None => !self@.contains_key(key@),
            },
    {
        match self.find(key) {
            Some(i) => Some(&self.entries[i].1),
            None => None,
        }
    }

    /// The key at place `i` of the list of keys.
    pub fn key_at(&self, i: usize) -> (r: &String)
        requires
            i < self.key_list().len(),
        ensures
            r@ == self.key_list()[i as int],
            self@.contains_key(r@),
    {
        proof {
            use_type_invariant(self);
            lemma_entry_map(self.entries@);
            assert(self@.contains_key(self.entries@[i as int].0@));
        }
        &self.entries[i].0
    }

    /// The value at place `i` of the list of keys.
    pub fn value_at(&self, i: usize) -> (r: &V)
        requires
            i < self.key_list().len(),
        ensures
            self@.contains_key(self.key_list()[i as int]),
            *r == self@[self.key_list()[i as int]],
    {
        proof {
            use_type_invariant(self);
            lemma_entry_map(self.entries@);
            assert(self.key_list()[i as int] == self.entries@[i as int].0@);
        }
        &self.entries[i].1
    }

    pub fn insert(&mut self, key: String, value: V)
        ensures
            final(self)@ == old(self)@.insert(key@, value),
    {
        proof {
            use_type_invariant(&*self);
        }
        let at = self.find(&key);
        let mut e: Vec<(String, V)> = Vec::new();
        std::mem::swap(&mut e, &mut self.entries);
        let ghost before = e@;
        let ghost pair = (key, value);
        match at {
            Some(i) => {
                e.set(i, (key, value));
                proof {
                    assert(e@ == before.update(i as int, pair));
                    assert forall|a: int, b: int| 0 <= a < b < e@.len() implies (#[trigger] e@[a]).0@ != (#[trigger] e@[b]).0@ by {
                        assert(before[a].0@ != before[b].0@);
                    }
                }
            },
            None => {
                e.push((key, value));
            },
        }
        proof {
            lemma_entry_map(before);
            lemma_entry_map(e@);
            let m = entry_map(before).insert(pair.0@, pair.1);
            assert forall|k: Seq<char>| #[trigger] entry_map(e@).dom().contains(k) <==> m.dom().contains(k) by {
                if entry_keys(e@).contains(k) {
                    let i = choose|i: int| 0 <= i < e@.len() && entry_keys(e@)[i] == k;
                    if i < before.len() && before[i] == e@[i] {
                        assert(entry_keys(before)[i] == k);
                    }
                }
                if entry_keys(before).contains(k) {
                    let i = choose|i: int| 0 <= i < before.len() && entry_keys(before)[i] == k;
                    assert(entry_keys(e@)[i] == k);
                }
                if k == pair.0@ {
                    match at {
                        Some(i) => { assert(entry_keys(e@)[i as int] == k); },
                        None => { assert(entry_keys(e@)[e@.len() - 1] == k); },
                    }
                }
            }
            assert forall|k: Seq<char>| entry_map(e@).dom().contains(k) implies #[trigger] entry_map(e@)[k] == m[k] by {
                assert(entry_keys(e@).contains(k));
                let i = choose|i: int| 0 <= i < e@.len() && entry_keys(e@)[i] == k;
                assert(e@[i].0@ == k);
                if i < before.len() && before[i] == e@[i] {
                    assert(before[i].0@ == k);
                }
            }
            assert(entry_map(e@) =~= m);
        }
        self.entries = e;
    }

    pub fn remove(&mut self, key: &str) -> (r: Option<V>)
        ensures
            final(self)@ == old(self)@.remove(key@),
            match r {
                Some(v) => old(self)@.contains_key(key@) && v == old(self)@[key@],
                None => !old(self)@.contains_key(key@),
            },
    {
        proof {
            use_type_invariant(&*self);
        }
        match self.find(key) {
            None => {
                assert(self@.remove(key@) =~= self@);
                None
            },
            Some(i) => {
                let mut e: Vec<(String, V)> = Vec::new();
                std::mem::swap(&mut e, &mut self.entries);
                let ghost before = e@;
                let (k, v) = e.remove(i);
                proof {
                    assert(e@ == before.remove(i as int));
                    assert forall|a: int, b: int| 0 <= a < b < e@.len() implies (#[trigger] e@[a]).0@ != (#[trigger] e@[b]).0@ by {
                        let a2 = if a < i { a } else { a + 1 };
                        let b2 = if b < i { b } else { b + 1 };
                        assert(before[a2].0@ != before[b2].0@);
                    }
                    lemma_entry_map(before);
                    lemma_entry_map(e@);
                    let m = entry_map(before).remove(key@);
                    assert forall|x: Seq<char>| #[trigger] entry_map(e@).dom().contains(x) <==> m.dom().contains(x) by {
                        if entry_keys(e@).contains(x) {
                            let j = choose|j: int| 0 <= j < e@.len() && entry_keys(e@)[j] == x;
                            let j2 = if j < i { j } else { j + 1 };
                            assert(entry_keys(before)[j2] == x);
                            assert(before[j2].0@ != before[i as int].0@);
                        }
                        if entry_keys(before).contains(x) && x != key@ {
                            let j = choose|j: int| 0 <= j < before.len() && entry_keys(before)[j] == x;
                            let j2 = if j < i { j } else { j - 1 };
                            assert(entry_keys(e@)[j2] == x);
                        }
                    }
                    assert forall|x: Seq<char>| entry_map(e@).dom().contains(x) implies #[trigger] entry_map(e@)[x] == m[x] by {
                        assert(entry_keys(e@).contains(x));
                        let j = choose|j: int| 0 <= j < e@.len() && entry_keys(e@)[j] == x;
                        let j2 = if j < i { j } else { j + 1 };
                        assert(e@[j].0@ == x);
                        assert(before[j2].0@ == x);
                    }
                    assert(entry_map(e@) =~= m);
                }
                self.entries = e;
                Some(v)
            },
        }
    }

    /// The keys in string order.
    pub fn sorted_keys(&self) -> (out: Vec<String>)
        ensures
            order::texts(out@) == order::in_order(self@.dom()),
            order::texts(out@).to_set() == self@.dom(),
            order::increasing(order::texts(out@)),
    {
        let mut out: Vec<String> = Vec::new();
        let n = self.len();
        let mut i: usize = 0;
        assert(order::texts(out@).to_set() =~= self.key_list().take(0).to_set());
        while i < n
            invariant
                i <= n,
                n == self.key_list().len(),
                order::increasing(order::texts(out@)),
                order::texts(out@).to_set() == self.key_list().take(i as int).to_set(),
            decreases n - i,
        {
            order::insert_name(&mut out, self.key_at(i).clone());
            proof {
                let all = self.key_list();
                assert(all.take(i + 1) =~= all.take(i as int).push(all[i as int]));
                all.take(i as int).lemma_push_to_set_commute(all[i as int]);
            }
            i = i + 1;
        }
        proof {
            assert(self.key_list().take(i as int) =~= self.key_list());
            order::lemma_in_order(order::texts(out@));
        }
        out
    }
}

} // verus!
