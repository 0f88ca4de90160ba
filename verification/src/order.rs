//! Ordering and counting: sorted names, first-best scans, multiplicities.

use vstd::prelude::*;
use vstd::relations::*;
use crate::text;
use crate::text::{text_eq, text_lt};

verus! {

/// The texts that a sequence of strings holds.
pub open spec fn texts(v: Seq<String>) -> Seq<Seq<char>> {
    v.map_values(|s: String| s@)
}

pub open spec fn text_leq() -> spec_fn(Seq<char>, Seq<char>) -> bool {
    |a: Seq<char>, b: Seq<char>| a == b || text::text_less(a, b)
}

/// Strictly increasing in string order, hence without repetition.
pub open spec fn increasing(s: Seq<Seq<char>>) -> bool {
    forall|i: int, j: int| 0 <= i < j < s.len() ==> text::text_less(#[trigger] s[i], #[trigger] s[j])
}

/// The members of a set of names in increasing order.
pub open spec fn in_order(names: Set<Seq<char>>) -> Seq<Seq<char>> {
    choose|s: Seq<Seq<char>>| #[trigger] increasing(s) && s.to_set() == names
}

proof fn lemma_increasing_unique(s: Seq<Seq<char>>, t: Seq<Seq<char>>)
    requires
        increasing(s),
        increasing(t),
        s.to_set() == t.to_set(),
    ensures
        s == t,
    decreases s.len(),
{
    assert(forall|i: int| 0 <= i < s.len() ==> s.to_set().contains(s[i]));
    assert(forall|i: int| 0 <= i < t.len() ==> t.to_set().contains(t[i]));
    if s.len() == 0 {
        assert(t.len() == 0) by {
            if t.len() > 0 {
                assert(t.to_set().contains(t[0]));
                assert(s.contains(t[0]));
            }
        }
        assert(s =~= t);
    } else {
        assert(t.len() > 0) by {
            assert(s.to_set().contains(s[0]));
            assert(t.contains(s[0]));
        }
        let m = (s.len() - 1) as int;
        let n = (t.len() - 1) as int;
        assert(s.last() == t.last()) by {
            assert(t.contains(s.last()));
            assert(s.contains(t.last()));
            let i = choose|i: int| 0 <= i < t.len() && t[i] == s.last();
            let j = choose|j: int| 0 <= j < s.len() && s[j] == t.last();
            text::lemma_text_less_total(s.last(), t.last());
            if i < n {
                assert(text::text_less(t[i], t[n]));
                if j < m {
                    assert(text::text_less(s[j], s[m]));
                }
            }
        }
        assert forall|x: Seq<char>| #[trigger] s.drop_last().to_set().contains(x) <==> t.drop_last().to_set().contains(x) by {
            if s.drop_last().contains(x) {
                let i = choose|i: int| 0 <= i < s.drop_last().len() && s.drop_last()[i] == x;
                assert(text::text_less(s[i], s[m]));
                text::lemma_text_less_total(s[i], s[m]);
                assert(t.contains(x)) by { assert(s.to_set().contains(s[i])); }
                let k = choose|k: int| 0 <= k < t.len() && t[k] == x;
                assert(t.drop_last()[k] == x);
            }
            if t.drop_last().contains(x) {
                let i = choose|i: int| 0 <= i < t.drop_last().len() && t.drop_last()[i] == x;
                assert(text::text_less(t[i], t[n]));
                text::lemma_text_less_total(t[i], t[n]);
                assert(s.contains(x)) by { assert(t.to_set().contains(t[i])); }
                let k = choose|k: int| 0 <= k < s.len() && s[k] == x;
                assert(s.drop_last()[k] == x);
            }
        }
        assert(s.drop_last().to_set() =~= t.drop_last().to_set());
        lemma_increasing_unique(s.drop_last(), t.drop_last());
        assert(s =~= s.drop_last().push(s.last()));
        assert(t =~= t.drop_last().push(t.last()));
    }
}

/// An increasing sequence lists its own set in order.
pub proof fn lemma_in_order(s: Seq<Seq<char>>)
    requires
        increasing(s),
    ensures
        in_order(s.to_set()) == s,
{
    let t = in_order(s.to_set());
    assert(increasing(t) && t.to_set() == s.to_set());
    lemma_increasing_unique(s, t);
}

pub proof fn lemma_text_leq_total()
    ensures
        total_ordering(text_leq()),
{
    let leq = text_leq();
    assert forall|x: Seq<char>, y: Seq<char>| #[trigger] leq(x, y) && #[trigger] leq(y, x) implies x == y by {
        text::lemma_text_less_total(x, y);
    }
    assert forall|x: Seq<char>, y: Seq<char>, z: Seq<char>|
        #[trigger] leq(x, y) && #[trigger] leq(y, z) implies leq(x, z) by {
        if x != y && y != z {
            text::lemma_text_less_transitive(x, y, z);
        }
    }
    assert forall|x: Seq<char>, y: Seq<char>| #[trigger] leq(x, y) || #[trigger] leq(y, x) by {
        text::lemma_text_less_total(x, y);
    }
}

/// Puts `s` into an increasing list of names, unless it is there.
pub fn insert_name(names: &mut Vec<String>, s: String)
    requires
        increasing(texts(old(names)@)),
    ensures
        increasing(texts(final(names)@)),
        texts(final(names)@).to_set() == texts(old(names)@).to_set().insert(s@),
{
    let ghost before = texts(names@);
    let mut i: usize = 0;
    while i < names.len() && text_lt(&names[i], &s)
        invariant
            i <= names@.len(),
            *names == *old(names),
            forall|j: int| 0 <= j < i ==> text::text_less(#[trigger] texts(names@)[j], s@),
        decreases names.len() - i,
    {
        i = i + 1;
    }
    if i < names.len() && text_eq(&names[i], &s) {
        proof {
            assert(texts(names@)[i as int] == s@);
            assert(texts(names@).to_set().insert(s@) =~= texts(names@).to_set());
        }
        return;
    }
    let ghost x = s@;
    names.insert(i, s);
    proof {
        assert(texts(names@) =~= before.insert(i as int, x));
        if i < before.len() {
            text::lemma_text_less_total(before[i as int], x);
        }
        lemma_insert_between(before, i as int, x);
    }
}

/// Inserting a name between its neighbours keeps the order and adds the name.
proof fn lemma_insert_between(before: Seq<Seq<char>>, i: int, x: Seq<char>)
    requires
        increasing(before),
        0 <= i <= before.len(),
        forall|j: int| 0 <= j < i ==> text::text_less(#[trigger] before[j], x),
        i < before.len() ==> text::text_less(x, before[i]),
    ensures
        increasing(before.insert(i, x)),
        before.insert(i, x).to_set() == before.to_set().insert(x),
{
    let after = before.insert(i, x);
    assert forall|a: int, b: int| 0 <= a < b < after.len() implies text::text_less(#[trigger] after[a], #[trigger] after[b]) by {
        if a < i && b == i {
            assert(after[a] == before[a]);
        } else if a == i && b > i {
            assert(after[b] == before[b - 1]);
            if b - 1 > i {
                assert(text::text_less(before[i], before[b - 1]));
                text::lemma_text_less_transitive(x, before[i], before[b - 1]);
            }
        } else if b < i {
            assert(text::text_less(before[a], before[b]));
        } else if a < i && b > i {
            assert(text::text_less(before[a], before[b - 1]));
        } else {
            assert(text::text_less(before[a - 1], before[b - 1]));
        }
    }
    assert forall|y: Seq<char>| #[trigger] after.to_set().contains(y) <==> before.to_set().insert(x).contains(y) by {
        if before.contains(y) {
            let k = choose|k: int| 0 <= k < before.len() && before[k] == y;
            if k < i {
                assert(after[k] == y);
            } else {
                assert(after[k + 1] == y);
            }
        }
        if y == x {
            assert(after[i] == y);
        }
        if after.contains(y) {
            let k = choose|k: int| 0 <= k < after.len() && after[k] == y;
            if k < i {
                assert(before[k] == y);
            } else if k > i {
                assert(before[k - 1] == y);
            }
        }
    }
    assert(after.to_set() =~= before.to_set().insert(x));
}

proof fn lemma_insert_exists(before: Seq<Seq<char>>, x: Seq<char>) -> (after: Seq<Seq<char>>)
    requires
        increasing(before),
    ensures
        increasing(after),
        after.to_set() == before.to_set().insert(x),
{
    if before.contains(x) {
        assert(before.to_set().insert(x) =~= before.to_set());
        before
    } else {
        let i = lemma_place_for(before, x, before.len() as int);
        if i < before.len() {
            text::lemma_text_less_total(x, before[i]);
            assert(before.contains(before[i]));
        }
        lemma_insert_between(before, i, x);
        before.insert(i, x)
    }
}

proof fn lemma_place_for(s: Seq<Seq<char>>, x: Seq<char>, n: int) -> (i: int)
    requires
        0 <= n <= s.len(),
        increasing(s),
        n < s.len() ==> !text::text_less(s[n], x),
    ensures
        0 <= i <= s.len(),
        forall|j: int| 0 <= j < i ==> text::text_less(#[trigger] s[j], x),
        i < s.len() ==> !text::text_less(s[i], x),
    decreases n,
{
    if n == 0 {
        0
    } else if text::text_less(s[n - 1], x) {
        assert forall|j: int| 0 <= j < n implies text::text_less(#[trigger] s[j], x) by {
            if j < n - 1 {
                assert(text::text_less(s[j], s[n - 1]));
                text::lemma_text_less_transitive(s[j], s[n - 1], x);
            }
        }
        n
    } else {
        lemma_place_for(s, x, n - 1)
    }
}

/// Every list of names can be put in order.
pub proof fn lemma_in_order_exists(s: Seq<Seq<char>>)
    ensures
        increasing(in_order(s.to_set())),
        in_order(s.to_set()).to_set() == s.to_set(),
{
    let t = lemma_ordered_list(s);
    assert(increasing(t) && t.to_set() == s.to_set());
}

proof fn lemma_ordered_list(s: Seq<Seq<char>>) -> (t: Seq<Seq<char>>)
    ensures
        increasing(t),
        t.to_set() == s.to_set(),
    decreases s.len(),
{
    if s.len() == 0 {
        s
    } else {
        let d = lemma_ordered_list(s.drop_last());
        let t = lemma_insert_exists(d, s.last());
        s.drop_last().lemma_push_to_set_commute(s.last());
        assert(s.drop_last().push(s.last()) =~= s);
        t
    }
}

/// An increasing list has no repetition.
pub proof fn lemma_increasing_distinct(s: Seq<Seq<char>>)
    requires
        increasing(s),
    ensures
        s.no_duplicates(),
{
    assert forall|i: int, j: int| 0 <= i < s.len() && 0 <= j < s.len() && i != j implies s[i] != s[j] by {
        if i < j {
            assert(text::text_less(s[i], s[j]));
            text::lemma_text_less_total(s[i], s[j]);
        } else {
            assert(text::text_less(s[j], s[i]));
            text::lemma_text_less_total(s[j], s[i]);
        }
    }
}

/// The distinct names of a list, in order.
pub fn distinct_names(v: &Vec<String>) -> (out: Vec<String>)
    ensures
        texts(out@) == in_order(texts(v@).to_set()),
{
    let mut out: Vec<String> = Vec::new();
    let mut i: usize = 0;
    assert(texts(out@).to_set() =~= texts(v@).take(0).to_set());
    while i < v.len()
        invariant
            i <= v@.len(),
            increasing(texts(out@)),
            texts(out@).to_set() == texts(v@).take(i as int).to_set(),
        decreases v.len() - i,
    {
        insert_name(&mut out, v[i].clone());
        proof {
            let all = texts(v@);
            assert(all.take(i + 1) =~= all.take(i as int).push(all[i as int]));
            all.take(i as int).lemma_push_to_set_commute(all[i as int]);
        }
        i = i + 1;
    }
    proof {
        assert(texts(v@).take(i as int) =~= texts(v@));
        lemma_in_order(texts(out@));
    }
    out
}

/// The same names in non-decreasing order, repetitions kept.
pub fn sorted_names(v: &[String]) -> (out: Vec<String>)
    ensures
        texts(out@) == texts(v@).sort_by(text_leq()),
{
    let mut out: Vec<String> = Vec::new();
    let mut i: usize = 0;
    let ghost all = texts(v@);
    proof {
        lemma_text_leq_total();
        assert(texts(out@) =~= all.take(0));
    }
    while i < v.len()
        invariant
            i <= v@.len(),
            all == texts(v@),
            total_ordering(text_leq()),
            sorted_by(texts(out@), text_leq()),
            texts(out@).to_multiset() == all.take(i as int).to_multiset(),
            texts(out@).len() == i,
        decreases v.len() - i,
    {
        let ghost before = texts(out@);
        let mut k: usize = out.len();
        while k > 0 && text_lt(&v[i as usize], &out[k - 1])
            invariant
                k <= out@.len(),
                i < v@.len(),
                forall|j: int| k <= j < out@.len() ==> text::text_less(v@[i as int]@, #[trigger] texts(out@)[j]),
            decreases k,
        {
            k = k - 1;
        }
        let ghost x = v@[i as int]@;
        proof {
            if k > 0 {
                text::lemma_text_less_total(x, before[k - 1]);
            }
        }
        out.insert(k, v[i].clone());
        proof {
            let after = texts(out@);
            let leq = text_leq();
            assert(after =~= before.insert(k as int, x));
            before.insert_ensures(k as int, x);
            vstd::seq_lib::to_multiset_insert(before, k as int, x);
            assert(all.take(i + 1) =~= all.take(i as int).push(x));
            vstd::seq_lib::to_multiset_build(all.take(i as int), x);
            assert forall|a: int, b: int| 0 <= a < b < after.len() implies #[trigger] leq(after[a], after[b]) by {
                if b < k {
                    assert(leq(before[a], before[b]));
                } else if b == k {
                    if a < k - 1 {
                        assert(leq(before[a], before[k - 1]));
                        assert(leq(before[k - 1], x));
                    }
                } else if a < k {
                    assert(leq(before[a], before[b - 1]));
                } else if a == k {
                    assert(text::text_less(x, before[b - 1]));
                } else {
                    assert(leq(before[a - 1], before[b - 1]));
                }
            }
        }
        i = i + 1;
    }
    proof {
        assert(all.take(i as int) =~= all);
        all.lemma_sort_by_ensures(text_leq());
        vstd::seq_lib::lemma_sorted_unique(texts(out@), all.sort_by(text_leq()), text_leq());
    }
    out
}

/// The item that a left-to-right scan keeps: the first that passes `ok`,
/// replaced whenever a later one that passes is better than it.
pub open spec fn scan_best<A>(
    s: Seq<A>,
    ok: spec_fn(A) -> bool,
    better: spec_fn(A, A) -> bool,
) -> Option<int>
    decreases s.len(),
{
    if s.len() == 0 {
        None
    } else {
        let kept = scan_best(s.drop_last(), ok, better);
        if !ok(s.last()) {
            kept
        } else {
            match kept {
                None => Some(s.len() - 1),
                Some(i) => if better(s.last(), s[i]) {
                    Some(s.len() - 1)
                } else {
                    kept
                },
            }
        }
    }
}

/// Accepts every item.
pub open spec fn every<A>() -> spec_fn(A) -> bool {
    |a: A| true
}

/// `better` ranks items: it is asymmetric, and not being better is transitive.
pub open spec fn ranks<A>(better: spec_fn(A, A) -> bool) -> bool {
    &&& forall|a: A, b: A| #[trigger] better(a, b) ==> !better(b, a)
    &&& forall|a: A, b: A, c: A|
        !#[trigger] better(a, b) && !#[trigger] better(b, c) ==> !better(a, c)
}

/// The scan keeps the first of the best items that pass.
pub proof fn lemma_scan_best<A>(
    s: Seq<A>,
    ok: spec_fn(A) -> bool,
    better: spec_fn(A, A) -> bool,
)
    requires
        ranks(better),
    ensures
        match scan_best(s, ok, better) {
            None => forall|j: int| 0 <= j < s.len() ==> !ok(#[trigger] s[j]),
            Some(i) => {
                &&& 0 <= i < s.len()
                &&& ok(s[i])
                &&& forall|j: int| 0 <= j < s.len() && ok(#[trigger] s[j]) ==> !better(s[j], s[i])
                &&& forall|j: int| 0 <= j < i && ok(#[trigger] s[j]) ==> better(s[i], s[j])
            },
        },
    decreases s.len(),
{
    if s.len() > 0 {
        let d = s.drop_last();
        lemma_scan_best(d, ok, better);
        assert(forall|j: int| 0 <= j < d.len() ==> d[j] == s[j]);
        let kept = scan_best(d, ok, better);
        let x = s.last();
        assert(!better(x, x)) by {
            if better(x, x) {
                assert(!better(x, x));
            }
        }
        if ok(x) {
            match kept {
                None => {},
                Some(i) => {
                    if better(x, s[i]) {
                        assert forall|j: int| 0 <= j < s.len() && ok(#[trigger] s[j]) implies !better(s[j], x) by {
                            if j < d.len() {
                                assert(ok(d[j]));
                                assert(!better(d[j], d[i]));
                                assert(!better(s[i], x));
                            }
                        }
                        assert forall|j: int| 0 <= j < d.len() && ok(#[trigger] s[j]) implies better(x, s[j]) by {
                            assert(ok(d[j]));
                            assert(!better(d[j], d[i]));
                            if !better(x, s[j]) {
                                assert(!better(x, s[i]));
                            }
                        }
                    } else {
                        assert forall|j: int| 0 <= j < s.len() && ok(#[trigger] s[j]) implies !better(s[j], s[i]) by {
                            if j < d.len() {
                                assert(ok(d[j]));
                            }
                        }
                    }
                },
            }
        } else {
            match kept {
                None => {},
                Some(i) => {
                    assert forall|j: int| 0 <= j < s.len() && ok(#[trigger] s[j]) implies !better(s[j], s[i]) by {
                        assert(ok(d[j]));
                    }
                },
            }
        }
    }
}

/// How often `k` occurs in `s`.
pub open spec fn count_of<K>(s: Seq<K>, k: K) -> nat
    decreases s.len(),
{
    if s.len() == 0 {
        0
    } else {
        count_of(s.drop_last(), k) + if s.last() == k { 1nat } else { 0nat }
    }
}

/// The number of pairs of places that hold the same item.
pub open spec fn pairs<K>(s: Seq<K>) -> nat
    decreases s.len(),
{
    if s.len() == 0 {
        0
    } else {
        pairs(s.drop_last()) + count_of(s.drop_last(), s.last())
    }
}

pub proof fn lemma_count_bounds<K>(s: Seq<K>, k: K)
    ensures
        count_of(s, k) <= s.len(),
        count_of(s, k) > 0 <==> s.contains(k),
    decreases s.len(),
{
    if s.len() > 0 {
        lemma_count_bounds(s.drop_last(), k);
        if s.drop_last().contains(k) {
            let i = choose|i: int| 0 <= i < s.drop_last().len() && s.drop_last()[i] == k;
            assert(s[i] == k);
        }
        if s.last() == k {
            assert(s[s.len() - 1] == k);
        }
        if s.contains(k) && s.last() != k {
            let i = choose|i: int| 0 <= i < s.len() && s[i] == k;
            assert(s.drop_last()[i] == k);
        }
    }
}

/// Replacing one item moves one occurrence from the old key to the new.
pub proof fn lemma_count_update<K>(s: Seq<K>, i: int, x: K, k: K)
    requires
        0 <= i < s.len(),
    ensures
        count_of(s.update(i, x), k) == count_of(s, k) - (if s[i] == k { 1int } else { 0int }) + (
        if x == k { 1int } else { 0int }),
    decreases s.len(),
{
    let t = s.update(i, x);
    if i == s.len() - 1 {
        assert(t.drop_last() =~= s.drop_last());
    } else {
        lemma_count_update(s.drop_last(), i, x, k);
        assert(t.drop_last() =~= s.drop_last().update(i, x));
    }
}

/// Moving one item from a key held `a` times to another held `b` times
/// breaks `a - 1` pairs and makes `b`.
pub proof fn lemma_pairs_update<K>(s: Seq<K>, i: int, x: K)
    requires
        0 <= i < s.len(),
        s[i] != x,
    ensures
        pairs(s.update(i, x)) == pairs(s) - (count_of(s, s[i]) - 1) + count_of(s, x),
    decreases s.len(),
{
    let t = s.update(i, x);
    let d = s.drop_last();
    if i == s.len() - 1 {
        assert(t.drop_last() =~= d);
    } else {
        lemma_pairs_update(d, i, x);
        lemma_count_update(d, i, x, s.last());
        assert(t.drop_last() =~= d.update(i, x));
        assert(t.last() == s.last());
    }
}

/// The kept index lies in range and passes.
pub proof fn lemma_scan_index<A>(
    s: Seq<A>,
    ok: spec_fn(A) -> bool,
    better: spec_fn(A, A) -> bool,
)
    ensures
        scan_best(s, ok, better) matches Some(i) ==> 0 <= i < s.len() && ok(s[i]),
        scan_best(s, ok, better) is None ==> forall|j: int| 0 <= j < s.len() ==> !ok(#[trigger] s[j]),
    decreases s.len(),
{
    if s.len() > 0 {
        lemma_scan_index(s.drop_last(), ok, better);
        assert(forall|j: int| 0 <= j < s.len() - 1 ==> s.drop_last()[j] == s[j]);
    }
}

/// One more item in the scan.
pub proof fn lemma_scan_step<A>(
    s: Seq<A>,
    i: int,
    ok: spec_fn(A) -> bool,
    better: spec_fn(A, A) -> bool,
)
    requires
        0 <= i < s.len(),
    ensures
        scan_best(s.take(i), ok, better) matches Some(k) ==> 0 <= k < i && ok(s[k]),
        scan_best(s.take(i + 1), ok, better) == (if !ok(s[i]) {
            scan_best(s.take(i), ok, better)
        } else {
            match scan_best(s.take(i), ok, better) {
                None => Some(i),
                Some(k) => if better(s[i], s[k]) {
                    Some(i)
                } else {
                    Some(k)
                },
            }
        }),
{
    lemma_scan_index(s.take(i), ok, better);
    assert(s.take(i + 1).drop_last() =~= s.take(i));
    assert(s.take(i + 1).last() == s[i]);
}

/// One more item in a count.
pub proof fn lemma_count_step<K>(s: Seq<K>, i: int, k: K)
    requires
        0 <= i < s.len(),
    ensures
        count_of(s.take(i + 1), k) == count_of(s.take(i), k) + (if s[i] == k { 1nat } else { 0nat }),
{
    assert(s.take(i + 1).drop_last() =~= s.take(i));
    assert(s.take(i + 1).last() == s[i]);
}

/// How many items satisfy `p`.
pub open spec fn count_if<K>(s: Seq<K>, p: spec_fn(K) -> bool) -> nat
    decreases s.len(),
{
    if s.len() == 0 {
        0
    } else {
        count_if(s.drop_last(), p) + if p(s.last()) { 1nat } else { 0nat }
    }
}

/// Occurrences of all the keys of a list.
pub open spec fn sum_counts<K>(s: Seq<K>, keys: Seq<K>) -> nat
    decreases keys.len(),
{
    if keys.len() == 0 {
        0
    } else {
        sum_counts(s, keys.drop_last()) + count_of(s, keys.last())
    }
}

pub open spec fn in_list<K>(keys: Seq<K>) -> spec_fn(K) -> bool {
    |x: K| keys.contains(x)
}

proof fn lemma_count_if_split<K>(s: Seq<K>, keys: Seq<K>)
    requires
        keys.len() > 0,
        keys.no_duplicates(),
    ensures
        count_if(s, in_list(keys)) == count_if(s, in_list(keys.drop_last())) + count_of(s, keys.last()),
    decreases s.len(),
{
    if s.len() > 0 {
        lemma_count_if_split(s.drop_last(), keys);
        let d = keys.drop_last();
        let x = s.last();
        if d.contains(x) {
            let i = choose|i: int| 0 <= i < d.len() && d[i] == x;
            assert(keys[i] == x);
            assert(keys[i] != keys[keys.len() - 1]);
        }
        if keys.contains(x) && x != keys.last() {
            let i = choose|i: int| 0 <= i < keys.len() && keys[i] == x;
            assert(d[i] == x);
        }
        if x == keys.last() {
            assert(keys[keys.len() - 1] == x);
        }
    }
}

/// Over distinct keys, the counts add up to the number of items among them.
pub proof fn lemma_sum_counts<K>(s: Seq<K>, keys: Seq<K>)
    requires
        keys.no_duplicates(),
    ensures
        sum_counts(s, keys) == count_if(s, in_list(keys)),
    decreases keys.len(),
{
    if keys.len() == 0 {
        lemma_count_if_none(s, keys);
    } else {
        lemma_sum_counts(s, keys.drop_last());
        lemma_count_if_split(s, keys);
    }
}

proof fn lemma_count_if_none<K>(s: Seq<K>, keys: Seq<K>)
    requires
        keys.len() == 0,
    ensures
        count_if(s, in_list(keys)) == 0,
    decreases s.len(),
{
    if s.len() > 0 {
        lemma_count_if_none(s.drop_last(), keys);
    }
}

pub proof fn lemma_count_if_bound<K>(s: Seq<K>, p: spec_fn(K) -> bool)
    ensures
        count_if(s, p) <= s.len(),
        (forall|i: int| 0 <= i < s.len() ==> p(#[trigger] s[i])) ==> count_if(s, p) == s.len(),
    decreases s.len(),
{
    if s.len() > 0 {
        lemma_count_if_bound(s.drop_last(), p);
        if forall|i: int| 0 <= i < s.len() ==> p(#[trigger] s[i]) {
            assert forall|i: int| 0 <= i < s.drop_last().len() implies p(#[trigger] s.drop_last()[i]) by {
                assert(s[i] == s.drop_last()[i]);
            }
            assert(p(s[s.len() - 1]));
        }
    }
}

/// A filtered list holds what the list holds and what passes.
pub proof fn lemma_filtered<A>(s: Seq<A>, ok: spec_fn(A) -> bool, x: A)
    ensures
        s.filter(ok).contains(x) <==> s.contains(x) && ok(x),
    decreases s.len(),
{
    reveal(Seq::filter);
    if s.len() > 0 {
        let d = s.drop_last();
        let f = s.filter(ok);
        lemma_filtered(d, ok, x);
        if s.contains(x) && ok(x) {
            let i = choose|i: int| 0 <= i < s.len() && s[i] == x;
            if i < d.len() {
                assert(d[i] == x);
                let j = choose|j: int| 0 <= j < d.filter(ok).len() && d.filter(ok)[j] == x;
                assert(f[j] == x);
            } else {
                assert(f[f.len() - 1] == x);
            }
        }
        if f.contains(x) {
            let j = choose|j: int| 0 <= j < f.len() && f[j] == x;
            if j < d.filter(ok).len() {
                assert(d.filter(ok)[j] == x);
                let i = choose|i: int| 0 <= i < d.len() && d[i] == x;
                assert(s[i] == x);
            } else {
                assert(s[s.len() - 1] == x);
            }
        }
    }
}

/// What a list holds with one item more.
pub proof fn lemma_push_contains<K>(s: Seq<K>, x: K)
    ensures
        forall|o: K| #[trigger] s.push(x).contains(o) == (s.contains(o) || o == x),
{
    assert forall|o: K| #[trigger] s.push(x).contains(o) == (s.contains(o) || o == x) by {
        if s.contains(o) {
            let j = choose|j: int| 0 <= j < s.len() && s[j] == o;
            assert(s.push(x)[j] == o);
        }
        if o == x {
            assert(s.push(x)[s.len() as int] == o);
        }
    }
}

/// What the beginning of a list holds with the next item.
pub proof fn lemma_take_contains<K>(s: Seq<K>, i: int)
    requires
        0 <= i < s.len(),
    ensures
        forall|o: K| #[trigger] s.take(i + 1).contains(o) == (s.take(i).contains(o) || o == s[i]),
{
    assert(s.take(i + 1) =~= s.take(i).push(s[i]));
    lemma_push_contains(s.take(i), s[i]);
}

} // verus!
