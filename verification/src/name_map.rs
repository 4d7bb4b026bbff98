//! A map from names to values that keeps its names in sorted order, as
//! `BTreeMap<String, V>` does.
use vstd::prelude::*;

use crate::text::{
    chars_of, lemma_name_lt_asymmetric, lemma_name_lt_irreflexive, lemma_name_lt_total,
    lemma_name_lt_transitive, name_less, name_lt,
};

verus! {

/// An optional value by its view.
pub open spec fn view_opt<A: View>(o: Option<A>) -> Option<A::V> {
    match o {
        Some(a) => Some(a@),
        None => None,
    }
}

/// Names strictly increasing.
pub open spec fn sorted_names<T>(s: Seq<(Seq<char>, T)>) -> bool {
    forall|i: int, j: int| 0 <= i < j < s.len() ==> name_lt(#[trigger] s[i].0, #[trigger] s[j].0)
}

/// `p` is where `k` stands or would stand in `s`.
pub open spec fn is_lower_bound<T>(s: Seq<(Seq<char>, T)>, k: Seq<char>, p: int) -> bool {
    &&& 0 <= p <= s.len()
    &&& forall|j: int| 0 <= j < p ==> name_lt(#[trigger] s[j].0, k)
    &&& p < s.len() ==> !name_lt(s[p].0, k)
}

pub open spec fn lower_bound<T>(s: Seq<(Seq<char>, T)>, k: Seq<char>) -> int {
    choose|p: int| is_lower_bound(s, k, p)
}

/// The value stored under `k`, if any.
pub open spec fn map_lookup<T>(s: Seq<(Seq<char>, T)>, k: Seq<char>) -> Option<T> {
    let p = lower_bound(s, k);
    if p < s.len() && s[p].0 == k {
        Some(s[p].1)
    } else {
        None
    }
}

/// `s` with `k` mapped to `v`: an existing entry is replaced in place, a
/// new one goes where its name sorts.
pub open spec fn map_insert<T>(s: Seq<(Seq<char>, T)>, k: Seq<char>, v: T) -> Seq<(Seq<char>, T)> {
    let p = lower_bound(s, k);
    if p < s.len() && s[p].0 == k {
        s.update(p, (k, v))
    } else {
        s.insert(p, (k, v))
    }
}

/// `s` without an entry for `k`.
pub open spec fn map_remove<T>(s: Seq<(Seq<char>, T)>, k: Seq<char>) -> Seq<(Seq<char>, T)> {
    let p = lower_bound(s, k);
    if p < s.len() && s[p].0 == k {
        s.remove(p)
    } else {
        s
    }
}

/// There is at most one place where a name stands.
pub proof fn lemma_lower_bound_is<T>(s: Seq<(Seq<char>, T)>, k: Seq<char>, p: int)
    requires
        is_lower_bound(s, k, p),
    ensures
        lower_bound(s, k) == p,
{
    let q = lower_bound(s, k);
    assert(is_lower_bound(s, k, q));
    if q < p {
        assert(name_lt(s[q].0, k));
    } else if p < q {
        assert(name_lt(s[p].0, k));
    }
}

/// A name greater than every stored name goes at the end.
pub proof fn lemma_insert_last<T>(s: Seq<(Seq<char>, T)>, k: Seq<char>, v: T)
    requires
        forall|j: int| 0 <= j < s.len() ==> name_lt(#[trigger] s[j].0, k),
    ensures
        map_insert(s, k, v) == s.push((k, v)),
        map_lookup(s, k).is_none(),
{
    lemma_lower_bound_is(s, k, s.len() as int);
    assert(s.insert(s.len() as int, (k, v)) =~= s.push((k, v)));
}

pub proof fn lemma_sorted_insert<T>(s: Seq<(Seq<char>, T)>, k: Seq<char>, v: T, p: int)
    requires
        sorted_names(s),
        is_lower_bound(s, k, p),
    ensures
        sorted_names(map_insert(s, k, v)),
        lower_bound(s, k) == p,
{
    lemma_lower_bound_is(s, k, p);
    let r = map_insert(s, k, v);
    if p < s.len() && s[p].0 == k {
        assert forall|i: int, j: int| 0 <= i < j < r.len() implies name_lt(
            #[trigger] r[i].0,
            #[trigger] r[j].0,
        ) by {
            assert(s[i].0 == r[i].0 && s[j].0 == r[j].0);
        }
    } else {
        if p < s.len() {
            lemma_name_lt_total(s[p].0, k);
        }
        assert forall|i: int, j: int| 0 <= i < j < r.len() implies name_lt(
            #[trigger] r[i].0,
            #[trigger] r[j].0,
        ) by {
            if j < p {
                assert(r[i] == s[i] && r[j] == s[j]);
            } else if j == p {
                assert(r[i] == s[i]);
            } else if i == p {
                assert(r[j] == s[j - 1]);
                if j - 1 > p {
                    lemma_name_lt_transitive(k, s[p].0, s[j - 1].0);
                }
            } else if i < p {
                assert(r[i] == s[i] && r[j] == s[j - 1]);
            } else {
                assert(r[i] == s[i - 1] && r[j] == s[j - 1]);
            }
        }
    }
}

pub proof fn lemma_sorted_remove<T>(s: Seq<(Seq<char>, T)>, p: int)
    requires
        sorted_names(s),
        0 <= p < s.len(),
    ensures
        sorted_names(s.remove(p)),
{
    let r = s.remove(p);
    assert forall|i: int, j: int| 0 <= i < j < r.len() implies name_lt(
        #[trigger] r[i].0,
        #[trigger] r[j].0,
    ) by {
        if j < p {
        } else if i < p {
            assert(r[j] == s[j + 1]);
        } else {
            assert(r[i] == s[i + 1] && r[j] == s[j + 1]);
        }
    }
}

/// A map from names to values, iterated in name order.
#[derive(Debug, PartialEq)]
pub struct NameMap<V: View> {
    entries: Vec<(String, V)>,
}

impl<V: View + Clone> Clone for NameMap<V> {
    /// The same names in the same order, each with a clone of its value.
    fn clone(&self) -> (r: Self)
        ensures
            r.spec_entries().len() == self.spec_entries().len(),
            forall|i: int|
                0 <= i < self.spec_entries().len() ==> #[trigger] r.spec_entries()[i].0
                    == self.spec_entries()[i].0,
    {
        proof {
            use_type_invariant(self);
        }
        let mut entries: Vec<(String, V)> = Vec::new();
        let mut i: usize = 0;
        while i < self.entries.len()
            invariant
                i <= self.entries.len(),
                entries@.len() == i,
                forall|j: int| 0 <= j < i ==> #[trigger] entries@[j].0@ == self.entries@[j].0@,
            decreases self.entries.len() - i,
        {
            let name = self.entries[i].0.clone();
            let value = self.entries[i].1.clone();
            entries.push((name, value));
            i += 1;
        }
        proof {
            let a = entries@.map_values(|e: (String, V)| (e.0@, e.1@));
            let b = self.entries@.map_values(|e: (String, V)| (e.0@, e.1@));
            assert(sorted_names(b));
            assert forall|x: int, y: int| 0 <= x < y < a.len() implies name_lt(
                #[trigger] a[x].0,
                #[trigger] a[y].0,
            ) by {
                assert(a[x].0 == b[x].0 && a[y].0 == b[y].0);
            }
        }
        NameMap { entries }
    }
}

impl<V: View> NameMap<V> {
    /// The entries in name order, names and values by their views.
    pub closed spec fn spec_entries(&self) -> Seq<(Seq<char>, V::V)> {
        self.entries@.map_values(|e: (String, V)| (e.0@, e.1@))
    }

    #[verifier::type_invariant]
    spec fn names_sorted(&self) -> bool {
        sorted_names(self.entries@.map_values(|e: (String, V)| (e.0@, e.1@)))
    }

    /// The names are in strictly increasing order.
    pub fn assert_sorted(&self)
        ensures
            sorted_names(self.spec_entries()),
    {
        proof {
            use_type_invariant(self);
        }
    }

    pub fn new() -> (m: Self)
        ensures
            m.spec_entries() == Seq::<(Seq<char>, V::V)>::empty(),
    {
        let m = NameMap { entries: Vec::new() };
        assert(m.spec_entries() =~= Seq::<(Seq<char>, V::V)>::empty());
        m
    }

    pub fn len(&self) -> (n: usize)
        ensures
            n == self.spec_entries().len(),
    {
        self.entries.len()
    }

    pub fn is_empty(&self) -> (b: bool)
        ensures
            b == (self.spec_entries().len() == 0),
    {
        self.entries.len() == 0
    }

    /// The `i`-th entry in name order.
    pub fn entry(&self, i: usize) -> (e: (&String, &V))
        requires
            i < self.spec_entries().len(),
        ensures
            (e.0@, e.1@) == self.spec_entries()[i as int],
    {
        let e = &self.entries[i];
        (&e.0, &e.1)
    }

    /// Where `key` stands or would stand, and whether it is there.
    fn locate(&self, key: &Vec<char>) -> (r: (usize, bool))
        ensures
            is_lower_bound(self.spec_entries(), key@, r.0 as int),
            r.1 == (r.0 < self.spec_entries().len() && self.spec_entries()[r.0 as int].0 == key@),
    {
        proof {
            use_type_invariant(self);
        }
        let ghost s = self.spec_entries();
        let mut i: usize = 0;
        while i < self.entries.len()
            invariant
                i <= self.entries.len(),
                s == self.spec_entries(),
                s.len() == self.entries.len(),
                forall|j: int| 0 <= j < i ==> name_lt(#[trigger] s[j].0, key@),
            decreases self.entries.len() - i,
        {
            let name = chars_of(self.entries[i].0.as_str());
            assert(name@ == s[i as int].0);
            if !name_less(&name, key) {
                let same = crate::text::chars_eq(&name, key);
                return (i, same);
            }
            i += 1;
        }
        (i, false)
    }

    /// The value stored under `key`.
    pub fn get(&self, key: &str) -> (r: Option<&V>)
        ensures
            view_opt(r) == map_lookup(self.spec_entries(), key@),
    {
        let k = chars_of(key);
        let (p, found) = self.locate(&k);
        proof {
            lemma_lower_bound_is(self.spec_entries(), key@, p as int);
        }
        if found {
            Some(&self.entries[p].1)
        } else {
            None
        }
    }

    /// Whether a value is stored under `key`.
    pub fn contains_key(&self, key: &str) -> (b: bool)
        ensures
            b == (map_lookup(self.spec_entries(), key@) is Some),
    {
        self.get(key).is_some()
    }

    /// Stores `value` under `key`, returning the value it replaces.
    pub fn insert(&mut self, key: String, value: V) -> (r: Option<V>)
        ensures
            final(self).spec_entries() == map_insert(old(self).spec_entries(), key@, value@),
            view_opt(r) == map_lookup(old(self).spec_entries(), key@),
    {
        proof {
            use_type_invariant(&*self);
        }
        let k = chars_of(key.as_str());
        let (p, found) = self.locate(&k);
        let ghost s = self.spec_entries();
        proof {
            lemma_sorted_insert(s, key@, value@, p as int);
        }
        let mut entries = Vec::new();
        std::mem::swap(&mut entries, &mut self.entries);
        let r;
        if found {
            let old = entries.remove(p);
            entries.insert(p, (key, value));
            r = Some(old.1);
        } else {
            entries.insert(p, (key, value));
            r = None;
        }
        assert(entries@.map_values(|e: (String, V)| (e.0@, e.1@)) =~= map_insert(
            s,
            key@,
            value@,
        ));
        self.entries = entries;
        r
    }

    /// Takes the entry for `key` out of the map.
    pub fn remove(&mut self, key: &str) -> (r: Option<V>)
        ensures
            final(self).spec_entries() == map_remove(old(self).spec_entries(), key@),
            view_opt(r) == map_lookup(old(self).spec_entries(), key@),
    {
        proof {
            use_type_invariant(&*self);
        }
        let k = chars_of(key);
        let (p, found) = self.locate(&k);
        let ghost s = self.spec_entries();
        proof {
            lemma_lower_bound_is(s, key@, p as int);
        }
        if found {
            proof {
                lemma_sorted_remove(s, p as int);
            }
            let mut entries = Vec::new();
            std::mem::swap(&mut entries, &mut self.entries);
            let old = entries.remove(p);
            assert(entries@.map_values(|e: (String, V)| (e.0@, e.1@)) =~= s.remove(p as int));
            self.entries = entries;
            Some(old.1)
        } else {
            None
        }
    }
}


/// Every name has a place among sorted or unsorted entries.
pub proof fn lemma_lower_bound_exists<T>(s: Seq<(Seq<char>, T)>, k: Seq<char>)
    ensures
        is_lower_bound(s, k, lower_bound(s, k)),
    decreases s.len(),
{
    if s.len() == 0 {
        assert(is_lower_bound(s, k, 0));
    } else {
        let s1 = s.drop_last();
        lemma_lower_bound_exists(s1, k);
        let p = lower_bound(s1, k);
        if p < s1.len() {
            assert(is_lower_bound(s, k, p)) by {
                assert forall|j: int| 0 <= j < p implies name_lt(#[trigger] s[j].0, k) by {
                    assert(s[j] == s1[j]);
                }
                assert(s[p] == s1[p]);
            }
        } else if name_lt(s.last().0, k) {
            assert(is_lower_bound(s, k, s.len() as int)) by {
                assert forall|j: int| 0 <= j < s.len() implies name_lt(#[trigger] s[j].0, k) by {
                    if j < s1.len() {
                        assert(s[j] == s1[j]);
                    }
                }
            }
        } else {
            assert(is_lower_bound(s, k, s1.len() as int)) by {
                assert forall|j: int| 0 <= j < s1.len() implies name_lt(#[trigger] s[j].0, k) by {
                    assert(s[j] == s1[j]);
                }
            }
        }
    }
}

/// In sorted entries, looking up a stored name finds its value.
pub proof fn lemma_lookup_at<T>(s: Seq<(Seq<char>, T)>, i: int)
    requires
        sorted_names(s),
        0 <= i < s.len(),
    ensures
        map_lookup(s, s[i].0) == Some(s[i].1),
{
    lemma_name_lt_irreflexive(s[i].0);
    lemma_lower_bound_is(s, s[i].0, i);
}

/// Looking up a name no entry has finds nothing.
pub proof fn lemma_lookup_absent<T>(s: Seq<(Seq<char>, T)>, k: Seq<char>)
    requires
        forall|i: int| 0 <= i < s.len() ==> (#[trigger] s[i]).0 != k,
    ensures
        map_lookup(s, k) is None,
{
    lemma_lower_bound_exists(s, k);
}

/// Looking up after storing: the stored value under its name, the old
/// lookup under any other.
pub proof fn lemma_lookup_insert<T>(s: Seq<(Seq<char>, T)>, k: Seq<char>, v: T, k2: Seq<char>)
    requires
        sorted_names(s),
    ensures
        sorted_names(map_insert(s, k, v)),
        map_lookup(map_insert(s, k, v), k2) == (if k2 == k {
            Some(v)
        } else {
            map_lookup(s, k2)
        }),
{
    lemma_lower_bound_exists(s, k);
    let p = lower_bound(s, k);
    lemma_sorted_insert(s, k, v, p);
    let r = map_insert(s, k, v);
    let replaced = p < s.len() && s[p].0 == k;
    // where (k, v) stands in r
    assert(r[p] == (k, v));
    if k2 == k {
        lemma_lookup_at(r, p);
    } else if exists|i: int| 0 <= i < s.len() && s[i].0 == k2 {
        let i = choose|i: int| 0 <= i < s.len() && s[i].0 == k2;
        lemma_lookup_at(s, i);
        let i2 = if replaced || i < p {
            i
        } else {
            i + 1
        };
        assert(r[i2] == s[i]);
        lemma_lookup_at(r, i2);
    } else {
        lemma_lookup_absent(s, k2);
        assert forall|j: int| 0 <= j < r.len() implies (#[trigger] r[j]).0 != k2 by {
            if j != p {
                if replaced || j < p {
                    assert(r[j] == s[j]);
                } else {
                    assert(r[j] == s[j - 1]);
                }
            }
        }
        lemma_lookup_absent(r, k2);
    }
}

/// Looking up after removing: nothing under the removed name, the old
/// lookup under any other.
pub proof fn law_lookup_after_remove<T>(s: Seq<(Seq<char>, T)>, k: Seq<char>, k2: Seq<char>)
    requires
        sorted_names(s),
    ensures
        sorted_names(map_remove(s, k)),
        map_lookup(map_remove(s, k), k2) == (if k2 == k {
            None
        } else {
            map_lookup(s, k2)
        }),
{
    lemma_lower_bound_exists(s, k);
    let p = lower_bound(s, k);
    lemma_lower_bound_is(s, k, p);
    let r = map_remove(s, k);
    let found = p < s.len() && s[p].0 == k;
    if found {
        lemma_sorted_remove(s, p);
    }
    if exists|i: int| 0 <= i < s.len() && s[i].0 == k2 {
        let i = choose|i: int| 0 <= i < s.len() && s[i].0 == k2;
        lemma_lookup_at(s, i);
        if k2 == k {
            // k2 stood at p, and p is gone
            lemma_name_lt_irreflexive(k);
            if i != p {
                if i < p {
                    assert(name_lt(s[i].0, k));
                } else {
                    assert(name_lt(s[p].0, s[i].0));
                    lemma_name_lt_asymmetric(s[p].0, k);
                }
            }
            assert forall|j: int| 0 <= j < r.len() implies (#[trigger] r[j]).0 != k2 by {
                if j < p {
                    assert(r[j] == s[j]);
                    assert(name_lt(s[j].0, s[p].0));
                } else {
                    assert(r[j] == s[j + 1]);
                    assert(name_lt(s[p].0, s[j + 1].0));
                }
            }
            lemma_lookup_absent(r, k2);
        } else {
            let i2 = if !found || i < p {
                i
            } else {
                i - 1
            };
            if found {
                assert(i != p);
            }
            assert(r[i2] == s[i]);
            lemma_lookup_at(r, i2);
        }
    } else {
        lemma_lookup_absent(s, k2);
        assert forall|j: int| 0 <= j < r.len() implies (#[trigger] r[j]).0 != k2 by {
            if found {
                if j < p {
                    assert(r[j] == s[j]);
                } else {
                    assert(r[j] == s[j + 1]);
                }
            }
        }
        lemma_lookup_absent(r, k2);
    }
}

/// `s` with the pairs of `ps` stored one after the other.
pub open spec fn insert_all<T>(s: Seq<(Seq<char>, T)>, ps: Seq<(Seq<char>, T)>) -> Seq<
    (Seq<char>, T),
>
    decreases ps.len(),
{
    if ps.len() == 0 {
        s
    } else {
        map_insert(insert_all(s, ps.drop_last()), ps.last().0, ps.last().1)
    }
}

/// No name occurs twice.
pub open spec fn distinct_names<T>(ps: Seq<(Seq<char>, T)>) -> bool {
    forall|i: int, j: int| 0 <= i < j < ps.len() ==> #[trigger] ps[i].0 != #[trigger] ps[j].0
}

/// After storing pairs with distinct names, each name finds its value and
/// every other name what it found before.
proof fn lemma_insert_all_lookup<T>(s: Seq<(Seq<char>, T)>, ps: Seq<(Seq<char>, T)>, k: Seq<char>)
    requires
        sorted_names(s),
        distinct_names(ps),
    ensures
        sorted_names(insert_all(s, ps)),
        forall|i: int|
            0 <= i < ps.len() && (#[trigger] ps[i]).0 == k ==> map_lookup(insert_all(s, ps), k)
                == Some(ps[i].1),
        (forall|i: int| 0 <= i < ps.len() ==> (#[trigger] ps[i]).0 != k) ==> map_lookup(
            insert_all(s, ps),
            k,
        ) == map_lookup(s, k),
    decreases ps.len(),
{
    if ps.len() > 0 {
        let ps1 = ps.drop_last();
        let n = ps.len() - 1;
        assert(distinct_names(ps1)) by {
            assert forall|i: int, j: int| 0 <= i < j < ps1.len() implies #[trigger] ps1[i].0
                != #[trigger] ps1[j].0 by {
                assert(ps1[i] == ps[i] && ps1[j] == ps[j]);
            }
        }
        lemma_insert_all_lookup(s, ps1, k);
        lemma_lookup_insert(insert_all(s, ps1), ps.last().0, ps.last().1, k);
        assert forall|i: int| 0 <= i < ps.len() && (#[trigger] ps[i]).0 == k implies map_lookup(
            insert_all(s, ps),
            k,
        ) == Some(ps[i].1) by {
            if i < n {
                assert(ps1[i] == ps[i]);
                assert(ps[i].0 != ps[n].0);
            }
        }
        if forall|i: int| 0 <= i < ps.len() ==> (#[trigger] ps[i]).0 != k {
            assert forall|i: int| 0 <= i < ps1.len() implies (#[trigger] ps1[i]).0 != k by {
                assert(ps1[i] == ps[i]);
            }
            assert(ps[n].0 != k);
        }
    }
}

/// In sorted entries, a name other than the first finds the same without
/// the first entry.
proof fn lemma_lookup_tail<T>(s: Seq<(Seq<char>, T)>, k: Seq<char>)
    requires
        sorted_names(s),
        s.len() > 0,
    ensures
        sorted_names(s.drop_first()),
        k != s[0].0 ==> map_lookup(s.drop_first(), k) == map_lookup(s, k),
        k == s[0].0 ==> map_lookup(s.drop_first(), k) is None,
{
    let t = s.drop_first();
    assert(sorted_names(t)) by {
        assert forall|i: int, j: int| 0 <= i < j < t.len() implies name_lt(
            #[trigger] t[i].0,
            #[trigger] t[j].0,
        ) by {
            assert(t[i] == s[i + 1] && t[j] == s[j + 1]);
        }
    }
    if exists|i: int| 0 <= i < t.len() && t[i].0 == k {
        let i = choose|i: int| 0 <= i < t.len() && t[i].0 == k;
        assert(t[i] == s[i + 1]);
        lemma_lookup_at(t, i);
        lemma_lookup_at(s, i + 1);
        if k == s[0].0 {
            assert(name_lt(s[0].0, s[i + 1].0));
            lemma_name_lt_irreflexive(k);
        }
    } else {
        lemma_lookup_absent(t, k);
        if k != s[0].0 {
            assert forall|i: int| 0 <= i < s.len() implies (#[trigger] s[i]).0 != k by {
                if i > 0 {
                    assert(s[i] == t[i - 1]);
                }
            }
            lemma_lookup_absent(s, k);
        }
    }
}

/// Sorted entries are fixed by what each name finds in them.
proof fn lemma_sorted_same_lookups<T>(a: Seq<(Seq<char>, T)>, b: Seq<(Seq<char>, T)>)
    requires
        sorted_names(a),
        sorted_names(b),
        forall|k: Seq<char>| #[trigger] map_lookup(a, k) == map_lookup(b, k),
    ensures
        a == b,
    decreases a.len(),
{
    if a.len() == 0 || b.len() == 0 {
        if b.len() > 0 {
            lemma_lookup_at(b, 0);
            lemma_lookup_absent(a, b[0].0);
        }
        if a.len() > 0 {
            lemma_lookup_at(a, 0);
            lemma_lookup_absent(b, a[0].0);
        }
        assert(a =~= b);
    } else {
        lemma_lookup_at(a, 0);
        lemma_lookup_at(b, 0);
        // where the first name of each stands in the other
        assert(exists|j: int| 0 <= j < b.len() && b[j].0 == a[0].0) by {
            if !exists|j: int| 0 <= j < b.len() && b[j].0 == a[0].0 {
                lemma_lookup_absent(b, a[0].0);
                assert(map_lookup(a, a[0].0) == map_lookup(b, a[0].0));
            }
        }
        assert(exists|i: int| 0 <= i < a.len() && a[i].0 == b[0].0) by {
            if !exists|i: int| 0 <= i < a.len() && a[i].0 == b[0].0 {
                lemma_lookup_absent(a, b[0].0);
                assert(map_lookup(a, b[0].0) == map_lookup(b, b[0].0));
            }
        }
        let j = choose|j: int| 0 <= j < b.len() && b[j].0 == a[0].0;
        let i = choose|i: int| 0 <= i < a.len() && a[i].0 == b[0].0;
        if j > 0 {
            assert(name_lt(b[0].0, b[j].0));
            if i > 0 {
                assert(name_lt(a[0].0, a[i].0));
                lemma_name_lt_asymmetric(a[0].0, b[0].0);
            } else {
                lemma_name_lt_irreflexive(b[0].0);
            }
        }
        assert(b[0].0 == a[0].0);
        assert(map_lookup(a, a[0].0) == map_lookup(b, a[0].0));
        assert(a[0] == b[0]);
        let a1 = a.drop_first();
        let b1 = b.drop_first();
        lemma_lookup_tail(a, a[0].0);
        lemma_lookup_tail(b, a[0].0);
        assert forall|k: Seq<char>| #[trigger] map_lookup(a1, k) == map_lookup(b1, k) by {
            lemma_lookup_tail(a, k);
            lemma_lookup_tail(b, k);
            assert(map_lookup(a, k) == map_lookup(b, k));
        }
        lemma_sorted_same_lookups(a1, b1);
        assert(a =~= b) by {
            assert forall|x: int| 0 <= x < a.len() implies a[x] == b[x] by {
                if x > 0 {
                    assert(a[x] == a1[x - 1] && b[x] == b1[x - 1]);
                }
            }
        }
    }
}

/// Storing the same pairs, no name twice, in any two orders gives the same
/// entries: the map does not depend on the order of insertion.
pub proof fn law_insert_order_irrelevant<T>(
    s: Seq<(Seq<char>, T)>,
    ps: Seq<(Seq<char>, T)>,
    qs: Seq<(Seq<char>, T)>,
)
    requires
        sorted_names(s),
        distinct_names(ps),
        distinct_names(qs),
        forall|i: int| 0 <= i < ps.len() ==> qs.contains(#[trigger] ps[i]),
        forall|j: int| 0 <= j < qs.len() ==> ps.contains(#[trigger] qs[j]),
    ensures
        insert_all(s, ps) == insert_all(s, qs),
        sorted_names(insert_all(s, ps)),
{
    let a = insert_all(s, ps);
    let b = insert_all(s, qs);
    assert forall|k: Seq<char>| #[trigger] map_lookup(a, k) == map_lookup(b, k) by {
        lemma_insert_all_lookup(s, ps, k);
        lemma_insert_all_lookup(s, qs, k);
        if exists|i: int| 0 <= i < ps.len() && ps[i].0 == k {
            let i = choose|i: int| 0 <= i < ps.len() && ps[i].0 == k;
            assert(qs.contains(ps[i]));
            let j = choose|j: int| 0 <= j < qs.len() && qs[j] == ps[i];
            assert(qs[j].0 == k);
        } else if exists|j: int| 0 <= j < qs.len() && qs[j].0 == k {
            let j = choose|j: int| 0 <= j < qs.len() && qs[j].0 == k;
            assert(ps.contains(qs[j]));
            let i = choose|i: int| 0 <= i < ps.len() && ps[i] == qs[j];
            assert(ps[i].0 == k);
        } else {
            assert forall|i: int| 0 <= i < ps.len() implies (#[trigger] ps[i]).0 != k by {}
            assert forall|j: int| 0 <= j < qs.len() implies (#[trigger] qs[j]).0 != k by {}
        }
    }
    lemma_insert_all_lookup(s, ps, Seq::empty());
    lemma_insert_all_lookup(s, qs, Seq::empty());
    lemma_sorted_same_lookups(a, b);
}

} // verus!
