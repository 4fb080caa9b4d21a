//! A map from strings to values that remembers the order of its keys.
//!
//! Forms, templates and field configurations look values up by name.  The
//! map keeps its entries in a vector, one entry per key: `insert` of a known
//! key replaces that entry's value in place, a new key goes to the end.
use vstd::prelude::*;
use crate::text::{chars_eq, chars_of};

verus! {

/// No key occurs twice.
pub open spec fn distinct_keys<T>(es: Seq<(Seq<char>, T)>) -> bool {
    forall|i: int, j: int| 0 <= i < j < es.len() ==> es[i].0 != es[j].0
}

/// `i` is the first position of key `k`.
pub open spec fn is_first_key<T>(es: Seq<(Seq<char>, T)>, k: Seq<char>, i: int) -> bool {
    &&& 0 <= i < es.len()
    &&& es[i].0 == k
    &&& forall|j: int| 0 <= j < i ==> es[j].0 != k
}

/// The position of key `k`, if it is present.
pub open spec fn key_index<T>(es: Seq<(Seq<char>, T)>, k: Seq<char>) -> Option<int> {
    if exists|i: int| is_first_key(es, k, i) {
        Some(choose|i: int| is_first_key(es, k, i))
    } else {
        None
    }
}

/// The value stored under `k`.
pub open spec fn assoc_get<T>(es: Seq<(Seq<char>, T)>, k: Seq<char>) -> Option<T> {
    match key_index(es, k) {
        Some(i) => Some(es[i].1),
        None => None,
    }
}

/// The entries after `k` is bound to `v`: the entry of `k` gets the new
/// value in place, or a new entry goes to the end.
pub open spec fn assoc_insert<T>(es: Seq<(Seq<char>, T)>, k: Seq<char>, v: T) -> Seq<
    (Seq<char>, T),
> {
    match key_index(es, k) {
        Some(i) => es.update(i, (k, v)),
        None => es.push((k, v)),
    }
}

/// The first position of a key is unique.
pub proof fn lemma_first_key_unique<T>(es: Seq<(Seq<char>, T)>, k: Seq<char>, i: int)
    requires
        is_first_key(es, k, i),
    ensures
        key_index(es, k) == Some(i),
{
    let c = choose|c: int| is_first_key(es, k, c);
    assert(is_first_key(es, k, c));
    if c < i {
        assert(es[c].0 != k);
    } else if i < c {
        assert(es[i].0 != k);
    }
}

/// A key that no entry has is absent.
pub proof fn lemma_key_absent<T>(es: Seq<(Seq<char>, T)>, k: Seq<char>)
    requires
        forall|j: int| 0 <= j < es.len() ==> es[j].0 != k,
    ensures
        key_index(es, k) is None,
{
}

/// An insertion keeps keys distinct.
pub proof fn lemma_insert_distinct<T>(es: Seq<(Seq<char>, T)>, k: Seq<char>, v: T)
    requires
        distinct_keys(es),
    ensures
        distinct_keys(assoc_insert(es, k, v)),
{
    match key_index(es, k) {
        Some(i) => {
            let c = choose|c: int| is_first_key(es, k, c);
            assert(is_first_key(es, k, c));
            let r = es.update(i, (k, v));
            assert forall|a: int, b: int| 0 <= a < b < r.len() implies r[a].0 != r[b].0 by {
                assert(es[a].0 != es[b].0);
            }
        },
        None => {
            assert forall|j: int| 0 <= j < es.len() implies es[j].0 != k by {
                if es[j].0 == k {
                    let f = choose_first(es, k, j);
                    assert(is_first_key(es, k, f));
                }
            }
        },
    }
}

/// Some position of `k` gives a first position of `k`.
pub proof fn choose_first<T>(es: Seq<(Seq<char>, T)>, k: Seq<char>, j: int) -> (f: int)
    requires
        0 <= j < es.len(),
        es[j].0 == k,
    ensures
        is_first_key(es, k, f),
    decreases j,
{
    if forall|m: int| 0 <= m < j ==> es[m].0 != k {
        j
    } else {
        let m = choose|m: int| 0 <= m < j && es[m].0 == k;
        choose_first(es, k, m)
    }
}

/// A key that is absent has no entry.
proof fn lemma_absent_no_entry<T>(es: Seq<(Seq<char>, T)>, k: Seq<char>)
    requires
        key_index(es, k) is None,
    ensures
        forall|j: int| 0 <= j < es.len() ==> es[j].0 != k,
{
    assert forall|j: int| 0 <= j < es.len() implies es[j].0 != k by {
        if es[j].0 == k {
            let f = choose_first(es, k, j);
            assert(is_first_key(es, k, f));
        }
    }
}

/// A read after a write gives what was written: once `k` is bound to `v`,
/// looking `k` up gives `v`.
pub proof fn law_get_after_insert<T>(es: Seq<(Seq<char>, T)>, k: Seq<char>, v: T)
    ensures
        assoc_get(assoc_insert(es, k, v), k) == Some(v),
{
    match key_index(es, k) {
        Some(i) => {
            let c = choose|c: int| is_first_key(es, k, c);
            assert(is_first_key(es, k, c));
            let r = es.update(i, (k, v));
            assert(is_first_key(r, k, i));
            lemma_first_key_unique(r, k, i);
        },
        None => {
            lemma_absent_no_entry(es, k);
            let r = es.push((k, v));
            assert(is_first_key(r, k, es.len() as int));
            lemma_first_key_unique(r, k, es.len() as int);
        },
    }
}

/// Binding one key leaves what every other key looks up unchanged.
pub proof fn law_insert_keeps_others<T>(es: Seq<(Seq<char>, T)>, k: Seq<char>, v: T, other: Seq<char>)
    requires
        other != k,
    ensures
        assoc_get(assoc_insert(es, k, v), other) == assoc_get(es, other),
{
    match key_index(es, k) {
        Some(i) => {
            let c = choose|c: int| is_first_key(es, k, c);
            assert(is_first_key(es, k, c));
            let r = es.update(i, (k, v));
            lemma_same_key_index(es, r, other);
            lemma_same_key_index(r, es, other);
        },
        None => {
            let r = es.push((k, v));
            match key_index(es, other) {
                Some(j) => {
                    let c = choose|c: int| is_first_key(es, other, c);
                    assert(is_first_key(es, other, c));
                    assert(is_first_key(r, other, j));
                    lemma_first_key_unique(r, other, j);
                },
                None => {
                    lemma_absent_no_entry(es, other);
                    lemma_key_absent(r, other);
                },
            }
        },
    }
}

/// The entries with each value mapped by `f`.
pub open spec fn map_vals<A, B>(es: Seq<(Seq<char>, A)>, f: spec_fn(A) -> B) -> Seq<(Seq<char>, B)> {
    es.map_values(|e: (Seq<char>, A)| (e.0, f(e.1)))
}

/// Entry lists with the same keys find a key at the same place.
pub proof fn lemma_same_key_index<A, B>(a: Seq<(Seq<char>, A)>, b: Seq<(Seq<char>, B)>, k: Seq<char>)
    requires
        a.len() == b.len(),
        forall|i: int| 0 <= i < a.len() ==> a[i].0 == b[i].0,
    ensures
        key_index(a, k) matches Some(i) ==> key_index(b, k) == Some(i),
        key_index(a, k) is None ==> key_index(b, k) is None,
{
    if exists|i: int| is_first_key(a, k, i) {
        let i = choose|i: int| is_first_key(a, k, i);
        assert(is_first_key(b, k, i));
        lemma_first_key_unique(b, k, i);
    } else {
        if exists|i: int| is_first_key(b, k, i) {
            let i = choose|i: int| is_first_key(b, k, i);
            assert(is_first_key(a, k, i));
        }
    }
}

/// Binding a key commutes with mapping the values.
pub proof fn lemma_insert_map_vals<A, B>(es: Seq<(Seq<char>, A)>, k: Seq<char>, v: A, f: spec_fn(A) -> B)
    ensures
        map_vals(assoc_insert(es, k, v), f) == assoc_insert(map_vals(es, f), k, f(v)),
{
    let mv = map_vals(es, f);
    lemma_same_key_index(es, mv, k);
    match key_index(es, k) {
        Some(i) => {
            assert(map_vals(es.update(i, (k, v)), f) =~= mv.update(i, (k, f(v))));
        },
        None => {
            assert(map_vals(es.push((k, v)), f) =~= mv.push((k, f(v))));
        },
    }
}

/// Looking a key up commutes with mapping the values.
pub proof fn lemma_get_map_vals<A, B>(es: Seq<(Seq<char>, A)>, k: Seq<char>, f: spec_fn(A) -> B)
    ensures
        assoc_get(map_vals(es, f), k) == match assoc_get(es, k) {
            Some(v) => Some(f(v)),
            None => None,
        },
{
    lemma_same_key_index(es, map_vals(es, f), k);
}

/// A string map whose entries keep the order in which their keys arrived.
#[derive(Debug)]
pub struct StringMap<T> {
    entries: Vec<(String, T)>,
}

impl<T> View for StringMap<T> {
    type V = Seq<(Seq<char>, T)>;

    closed spec fn view(&self) -> Seq<(Seq<char>, T)> {
        self.entries@.map_values(|e: (String, T)| (e.0@, e.1))
    }
}

impl<T> StringMap<T> {
    /// No key occurs twice.
    #[verifier::type_invariant]
    closed spec fn keys_distinct(&self) -> bool {
        distinct_keys(self@)
    }

    /// An empty map.
    pub fn new() -> (m: Self)
        ensures
            m@ == Seq::<(Seq<char>, T)>::empty(),
    {
        let m = StringMap { entries: Vec::new() };
        assert(m@ =~= Seq::<(Seq<char>, T)>::empty());
        m
    }

    /// The number of keys.
    pub fn len(&self) -> (n: usize)
        ensures
            n == self@.len(),
    {
        self.entries.len()
    }

    /// Whether the map has no key.
    pub fn is_empty(&self) -> (b: bool)
        ensures
            b == (self@.len() == 0),
    {
        self.entries.len() == 0
    }

    /// The key and the value of entry `i`.
    pub fn entry(&self, i: usize) -> (r: (&String, &T))
        requires
            i < self@.len(),
        ensures
            r.0@ == self@[i as int].0,
            *r.1 == self@[i as int].1,
            forall|j: int| 0 <= j < self@.len() && j != i ==> self@[j].0 != r.0@,
    {
        proof {
            use_type_invariant(self);
            assert forall|j: int| 0 <= j < self@.len() && j != i implies self@[j].0 != self@[i as int].0 by {
                if j < i {
                    assert(self@[j].0 != self@[i as int].0);
                } else {
                    assert(self@[i as int].0 != self@[j].0);
                }
            }
        }
        let e = &self.entries[i];
        (&e.0, &e.1)
    }

    /// The position of `key`.
    pub fn position(&self, key: &[char]) -> (r: Option<usize>)
        ensures
            match r {
                Some(i) => key_index(self@, key@) == Some(i as int),
                None => key_index(self@, key@) is None,
            },
    {
        let mut i: usize = 0;
        while i < self.entries.len()
            invariant
                i <= self@.len(),
                self@.len() == self.entries@.len(),
                forall|j: int| 0 <= j < i ==> self@[j].0 != key@,
            decreases self@.len() - i,
        {
            let k = chars_of(self.entries[i].0.as_str());
            assert(self@[i as int].0 == self.entries@[i as int].0@);
            if chars_eq(&k, key) {
                proof {
                    lemma_first_key_unique(self@, key@, i as int);
                }
                return Some(i);
            }
            i = i + 1;
        }
        None
    }

    /// The value stored under `key`.
    pub fn get(&self, key: &str) -> (r: Option<&T>)
        ensures
            match r {
                Some(v) => assoc_get(self@, key@) == Some(*v),
                None => assoc_get(self@, key@) is None,
            },
    {
        let k = chars_of(key);
        match self.position(&k) {
            Some(i) => Some(&self.entries[i].1),
            None => None,
        }
    }

    /// Whether `key` is present.
    pub fn contains_key(&self, key: &str) -> (b: bool)
        ensures
            b == (key_index(self@, key@) is Some),
    {
        let k = chars_of(key);
        self.position(&k).is_some()
    }

    /// Binds `key` to `value`; returns the value that `key` had.
    pub fn insert(&mut self, key: String, value: T) -> (r: Option<T>)
        ensures
            final(self)@ == assoc_insert(old(self)@, key@, value),
            r == assoc_get(old(self)@, key@),
    {
        proof {
            use_type_invariant(&*self);
            lemma_insert_distinct(self@, key@, value);
        }
        let k = chars_of(key.as_str());
        let pos = self.position(&k);
        let ghost before = self@;
        let mut entries: Vec<(String, T)> = Vec::new();
        std::mem::swap(&mut entries, &mut self.entries);
        let ghost view_of = |es: Seq<(String, T)>| es.map_values(|e: (String, T)| (e.0@, e.1));
        assert(view_of(entries@) == before);
        match pos {
            Some(i) => {
                let (_, old_value) = entries.remove(i);
                entries.insert(i, (key, value));
                assert(view_of(entries@) =~= before.update(i as int, (k@, value)));
                self.entries = entries;
                Some(old_value)
            },
            None => {
                entries.push((key, value));
                assert(view_of(entries@) =~= before.push((k@, value)));
                self.entries = entries;
                None
            },
        }
    }

    /// Adds a binding for a key that is not bound yet, at the end.
    pub fn push_new(&mut self, key: String, value: T)
        requires
            key_index(old(self)@, key@) is None,
        ensures
            final(self)@ == old(self)@.push((key@, value)),
    {
        proof {
            use_type_invariant(&*self);
            lemma_absent_no_entry(self@, key@);
        }
        let ghost k = key@;
        let ghost before = self@;
        let mut entries: Vec<(String, T)> = Vec::new();
        std::mem::swap(&mut entries, &mut self.entries);
        entries.push((key, value));
        assert(entries@.map_values(|e: (String, T)| (e.0@, e.1)) =~= before.push((k, value)));
        self.entries = entries;
    }
}

impl<T: Clone> Clone for StringMap<T> {
    /// A copy with the same keys in the same order, each value cloned.
    fn clone(&self) -> (r: Self)
        ensures
            r@.len() == self@.len(),
            forall|i: int| 0 <= i < self@.len() ==> #[trigger] r@[i].0 == self@[i].0,
    {
        proof {
            use_type_invariant(self);
        }
        let ghost view_of = |es: Seq<(String, T)>| es.map_values(|e: (String, T)| (e.0@, e.1));
        let mut entries: Vec<(String, T)> = Vec::new();
        let mut i: usize = 0;
        while i < self.entries.len()
            invariant
                i <= self.entries@.len(),
                entries@.len() == i,
                forall|j: int| 0 <= j < i ==> #[trigger] entries@[j].0@ == self.entries@[j].0@,
            decreases self.entries@.len() - i,
        {
            let e = &self.entries[i];
            entries.push((e.0.clone(), e.1.clone()));
            i = i + 1;
        }
        assert forall|a: int, b: int|
            #![trigger entries@[a], entries@[b]]
            0 <= a < b < entries@.len() implies entries@[a].0@ != entries@[b].0@ by {
            assert(self@[a].0 == self.entries@[a].0@);
            assert(self@[b].0 == self.entries@[b].0@);
            assert(self@[a].0 != self@[b].0);
        }
        assert(distinct_keys(view_of(entries@)));
        let r = StringMap { entries };
        r
    }
}

} // verus!
