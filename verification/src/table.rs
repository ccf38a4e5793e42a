//! A small keyed table: an ordered association list from text keys to values,
//! in which no key occurs twice.  Contracts speak of it as a sequence of
//! `(key, value)` pairs; the order is the order in which keys were first added.
use vstd::prelude::*;

verus! {

/// Whether the association list `s` holds the key `k`.
pub open spec fn has_key<V>(s: Seq<(Seq<char>, V)>, k: Seq<char>) -> bool {
    exists|i: int| #![trigger s[i]] 0 <= i < s.len() && s[i].0 == k
}

/// No key occurs twice in `s`.
pub open spec fn unique_keys<V>(s: Seq<(Seq<char>, V)>) -> bool {
    forall|i: int, j: int|
        #![trigger s[i], s[j]]
        0 <= i < s.len() && 0 <= j < s.len() && i != j ==> s[i].0 != s[j].0
}

/// The position of key `k` in `s` (meaningful only where `has_key(s, k)`).
pub open spec fn key_index<V>(s: Seq<(Seq<char>, V)>, k: Seq<char>) -> int {
    choose|i: int| 0 <= i < s.len() && s[i].0 == k
}

/// The value that `s` associates with `k`, if any.
pub open spec fn lookup<V>(s: Seq<(Seq<char>, V)>, k: Seq<char>) -> Option<V> {
    if has_key(s, k) {
        Some(s[key_index(s, k)].1)
    } else {
        None
    }
}

/// `s` with `k` bound to `v`: the value is replaced in place when the key is
/// present, and the pair is appended otherwise.
pub open spec fn assoc_insert<V>(s: Seq<(Seq<char>, V)>, k: Seq<char>, v: V) -> Seq<(Seq<char>, V)> {
    if has_key(s, k) {
        s.update(key_index(s, k), (k, v))
    } else {
        s.push((k, v))
    }
}

/// `s` without the pair for `k`; the other pairs keep their order.
pub open spec fn assoc_remove<V>(s: Seq<(Seq<char>, V)>, k: Seq<char>) -> Seq<(Seq<char>, V)> {
    if has_key(s, k) {
        s.remove(key_index(s, k))
    } else {
        s
    }
}

/// The keys of `s`, in order.
pub open spec fn assoc_keys<V>(s: Seq<(Seq<char>, V)>) -> Seq<Seq<char>> {
    s.map_values(|e: (Seq<char>, V)| e.0)
}

/// In a list without repeated keys, the pair at position `i` is the one that
/// `lookup` finds for its key.
pub proof fn lemma_key_index<V>(s: Seq<(Seq<char>, V)>, i: int)
    requires
        unique_keys(s),
        0 <= i < s.len(),
    ensures
        has_key(s, s[i].0),
        key_index(s, s[i].0) == i,
        lookup(s, s[i].0) == Some(s[i].1),
{
    assert(has_key(s, s[i].0));
    let j = key_index(s, s[i].0);
    assert(s[j].0 == s[i].0);
}

/// What binding a key does to the list: keys stay unique, the key is bound to
/// the new value, and every other key keeps its binding.
pub proof fn lemma_insert<V>(s: Seq<(Seq<char>, V)>, k: Seq<char>, v: V)
    requires
        unique_keys(s),
    ensures
        unique_keys(assoc_insert(s, k, v)),
        lookup(assoc_insert(s, k, v), k) == Some(v),
        has_key(assoc_insert(s, k, v), k),
        forall|k2: Seq<char>| k2 != k ==> #[trigger] lookup(assoc_insert(s, k, v), k2) == lookup(s, k2),
        forall|k2: Seq<char>| k2 != k ==> #[trigger] has_key(assoc_insert(s, k, v), k2) == has_key(s, k2),
        has_key(s, k) ==> assoc_insert(s, k, v).len() == s.len(),
        !has_key(s, k) ==> assoc_insert(s, k, v).len() == s.len() + 1,
{
    let t = assoc_insert(s, k, v);
    if has_key(s, k) {
        let i = key_index(s, k);
        assert(unique_keys(t));
        let j = t.len() - 1;
        assert(t[i].0 == k);
        lemma_key_index(t, i);
        assert forall|k2: Seq<char>| k2 != k implies #[trigger] has_key(t, k2) == has_key(s, k2) by {
            if has_key(s, k2) {
                let a = key_index(s, k2);
                assert(t[a].0 == k2);
            }
            if has_key(t, k2) {
                let a = key_index(t, k2);
                assert(s[a].0 == k2);
            }
        }
        assert forall|k2: Seq<char>| k2 != k implies #[trigger] lookup(t, k2) == lookup(s, k2) by {
            if has_key(s, k2) {
                let a = key_index(s, k2);
                lemma_key_index(s, a);
                lemma_key_index(t, a);
            }
        }
    } else {
        assert(unique_keys(t));
        lemma_key_index(t, s.len() as int);
        assert forall|k2: Seq<char>| k2 != k implies #[trigger] has_key(t, k2) == has_key(s, k2) by {
            if has_key(s, k2) {
                let a = key_index(s, k2);
                assert(t[a].0 == k2);
            }
            if has_key(t, k2) {
                let a = key_index(t, k2);
                assert(s[a].0 == k2);
            }
        }
        assert forall|k2: Seq<char>| k2 != k implies #[trigger] lookup(t, k2) == lookup(s, k2) by {
            if has_key(s, k2) {
                let a = key_index(s, k2);
                lemma_key_index(s, a);
                lemma_key_index(t, a);
            }
        }
    }
}

/// What removing a key does to the list: keys stay unique, the key is gone,
/// and every other key keeps its binding.
pub proof fn lemma_remove<V>(s: Seq<(Seq<char>, V)>, k: Seq<char>)
    requires
        unique_keys(s),
    ensures
        unique_keys(assoc_remove(s, k)),
        !has_key(assoc_remove(s, k), k),
        lookup(assoc_remove(s, k), k) == None::<V>,
        forall|k2: Seq<char>| k2 != k ==> #[trigger] lookup(assoc_remove(s, k), k2) == lookup(s, k2),
        forall|k2: Seq<char>| k2 != k ==> #[trigger] has_key(assoc_remove(s, k), k2) == has_key(s, k2),
        has_key(s, k) ==> assoc_remove(s, k).len() + 1 == s.len(),
        !has_key(s, k) ==> assoc_remove(s, k) == s,
{
    let t = assoc_remove(s, k);
    if has_key(s, k) {
        let i = key_index(s, k);
        assert(s[i].0 == k);
        assert forall|a: int, b: int|
            #![trigger t[a], t[b]]
            0 <= a < t.len() && 0 <= b < t.len() && a != b implies t[a].0 != t[b].0 by {
            let a2 = if a < i { a } else { a + 1 };
            let b2 = if b < i { b } else { b + 1 };
            assert(t[a] == s[a2]);
            assert(t[b] == s[b2]);
        }
        assert(!has_key(t, k)) by {
            if has_key(t, k) {
                let a = key_index(t, k);
                let a2 = if a < i { a } else { a + 1 };
                assert(t[a] == s[a2]);
            }
        }
        assert forall|k2: Seq<char>| k2 != k implies #[trigger] has_key(t, k2) == has_key(s, k2) by {
            if has_key(s, k2) {
                let a = key_index(s, k2);
                assert(a != i);
                let a2 = if a < i { a } else { a - 1 };
                assert(t[a2] == s[a]);
            }
            if has_key(t, k2) {
                let a = key_index(t, k2);
                let a2 = if a < i { a } else { a + 1 };
                assert(t[a] == s[a2]);
            }
        }
        assert forall|k2: Seq<char>| k2 != k implies #[trigger] lookup(t, k2) == lookup(s, k2) by {
            if has_key(s, k2) {
                let a = key_index(s, k2);
                assert(a != i);
                let a2 = if a < i { a } else { a - 1 };
                assert(t[a2] == s[a]);
                lemma_key_index(s, a);
                lemma_key_index(t, a2);
            }
        }
    }
}

/// Binding a key twice is binding it once to the second value.
pub proof fn lemma_insert_insert<V>(s: Seq<(Seq<char>, V)>, k: Seq<char>, v1: V, v2: V)
    requires
        unique_keys(s),
    ensures
        assoc_insert(assoc_insert(s, k, v1), k, v2) == assoc_insert(s, k, v2),
{
    lemma_insert(s, k, v1);
    let t = assoc_insert(s, k, v1);
    if has_key(s, k) {
        let i = key_index(s, k);
        lemma_key_index(s, i);
        lemma_key_index(t, i);
    } else {
        lemma_key_index(t, s.len() as int);
    }
    assert(assoc_insert(t, k, v2) =~= assoc_insert(s, k, v2));
}

/// Binding a key to the value it already has leaves the list as it is.
pub proof fn lemma_insert_same<V>(s: Seq<(Seq<char>, V)>, k: Seq<char>, v: V)
    requires
        unique_keys(s),
        lookup(s, k) == Some(v),
    ensures
        assoc_insert(s, k, v) == s,
{
    let i = key_index(s, k);
    assert(s[i].0 == k);
    assert(assoc_insert(s, k, v) =~= s);
}

/// A key just bound in a list is gone again once it is removed, leaving the
/// list as it was without that key.
pub proof fn lemma_remove_after_insert<V>(s: Seq<(Seq<char>, V)>, k: Seq<char>, v: V)
    requires
        unique_keys(s),
    ensures
        assoc_remove(assoc_insert(s, k, v), k) == assoc_remove(s, k),
{
    lemma_insert(s, k, v);
    let t = assoc_insert(s, k, v);
    if has_key(s, k) {
        let i = key_index(s, k);
        lemma_key_index(s, i);
        lemma_key_index(t, i);
        assert(assoc_remove(t, k) =~= assoc_remove(s, k));
    } else {
        lemma_key_index(t, s.len() as int);
        assert(assoc_remove(t, k) =~= s);
    }
}

/// A keyed table whose keys are kept unique (see `wf`).
pub struct Table<V> {
    entries: Vec<(String, V)>,
}

impl<V> View for Table<V> {
    type V = Seq<(Seq<char>, V)>;

    closed spec fn view(&self) -> Seq<(Seq<char>, V)> {
        self.entries@.map_values(|e: (String, V)| (e.0@, e.1))
    }
}

impl<V> Table<V> {
    /// The table's invariant: no key occurs twice.
    pub open spec fn wf(&self) -> bool {
        unique_keys(self@)
    }

    /// An empty table.
    pub fn new() -> (t: Self)
        ensures
            t@ == Seq::<(Seq<char>, V)>::empty(),
            t.wf(),
    {
        let t = Table { entries: Vec::new() };
        assert(t@ =~= Seq::<(Seq<char>, V)>::empty());
        t
    }

    /// The number of keys.
    pub fn len(&self) -> (n: usize)
        ensures
            n == self@.len(),
    {
        self.entries.len()
    }

    /// Whether the table has no key.
    pub fn is_empty(&self) -> (b: bool)
        ensures
            b == (self@.len() == 0),
    {
        self.entries.len() == 0
    }

    /// The position of `k`, if it is present.
    pub fn find(&self, k: &str) -> (r: Option<usize>)
        ensures
            match r {
                Some(i) => i < self@.len() && self@[i as int].0 == k@,
                None => !has_key(self@, k@),
            },
    {
        let key = k.to_owned();
        let mut i: usize = 0;
        while i < self.entries.len()
            invariant
                i <= self.entries@.len(),
                key@ == k@,
                forall|j: int| 0 <= j < i ==> #[trigger] self@[j].0 != k@,
            decreases self.entries@.len() - i,
        {
            if self.entries[i].0 == key {
                return Some(i);
            }
            i += 1;
        }
        None
    }

    /// Whether `k` is present.
    pub fn contains_key(&self, k: &str) -> (b: bool)
        ensures
            b == has_key(self@, k@),
    {
        self.find(k).is_some()
    }

    /// The key at position `i`.
    pub fn key_at(&self, i: usize) -> (k: &String)
        requires
            i < self@.len(),
        ensures
            k@ == self@[i as int].0,
    {
        &self.entries[i].0
    }

    /// The value at position `i`.
    pub fn value_at(&self, i: usize) -> (v: &V)
        requires
            i < self@.len(),
        ensures
            *v == self@[i as int].1,
    {
        &self.entries[i].1
    }

    /// The value at position `i`, to be changed in place; the keys stay as
    /// they are.
    pub fn value_at_mut(&mut self, i: usize) -> (v: &mut V)
        requires
            i < old(self)@.len(),
        ensures
            *v == old(self)@[i as int].1,
            final(self)@ == old(self)@.update(i as int, (old(self)@[i as int].0, *final(v))),
    {
        &mut self.entries[i].1
    }

    /// The value bound to `k`, if any.
    pub fn get(&self, k: &str) -> (r: Option<&V>)
        requires
            self.wf(),
        ensures
            match r {
                Some(v) => lookup(self@, k@) == Some(*v),
                None => lookup(self@, k@) == None::<V>,
            },
    {
        match self.find(k) {
            Some(i) => {
                proof {
                    lemma_key_index(self@, i as int);
                }
                Some(&self.entries[i].1)
            },
            None => None,
        }
    }

    /// Binds `k` to `v`, replacing an earlier value in place, or appending a
    /// new pair when `k` was absent.
    pub fn insert(&mut self, k: &str, v: V)
        requires
            old(self).wf(),
        ensures
            final(self)@ == assoc_insert(old(self)@, k@, v),
            final(self).wf(),
    {
        proof {
            lemma_insert(old(self)@, k@, v);
        }
        match self.find(k) {
            Some(i) => {
                proof {
                    lemma_key_index(old(self)@, i as int);
                }
                self.entries.set(i, (k.to_owned(), v));
                assert(self@ =~= assoc_insert(old(self)@, k@, v));
            },
            None => {
                self.entries.push((k.to_owned(), v));
                assert(self@ =~= assoc_insert(old(self)@, k@, v));
            },
        }
    }

    /// Removes the pair for `k` and hands back its value, if there was one.
    pub fn remove(&mut self, k: &str) -> (r: Option<V>)
        requires
            old(self).wf(),
        ensures
            final(self)@ == assoc_remove(old(self)@, k@),
            r == lookup(old(self)@, k@),
            final(self).wf(),
    {
        proof {
            lemma_remove(old(self)@, k@);
        }
        match self.find(k) {
            Some(i) => {
                proof {
                    lemma_key_index(old(self)@, i as int);
                }
                let (_, v) = self.entries.remove(i);
                assert(self@ =~= assoc_remove(old(self)@, k@));
                Some(v)
            },
            None => None,
        }
    }

    /// The keys, in order.
    pub fn keys(&self) -> (ks: Vec<String>)
        ensures
            ks@.map_values(|s: String| s@) == assoc_keys(self@),
    {
        let mut ks: Vec<String> = Vec::new();
        let mut i: usize = 0;
        while i < self.entries.len()
            invariant
                i <= self.entries@.len(),
                ks@.len() == i,
                forall|j: int| 0 <= j < i ==> #[trigger] ks@[j]@ == self@[j].0,
            decreases self.entries@.len() - i,
        {
            ks.push(self.entries[i].0.clone());
            i += 1;
        }
        assert(ks@.map_values(|s: String| s@) =~= assoc_keys(self@));
        ks
    }
}

impl Table<u64> {
    /// A copy of the table.
    pub fn copy(&self) -> (t: Self)
        ensures
            t@ == self@,
    {
        let mut entries: Vec<(String, u64)> = Vec::new();
        let mut i: usize = 0;
        while i < self.entries.len()
            invariant
                i <= self.entries@.len(),
                entries@.len() == i,
                forall|j: int| 0 <= j < i ==> #[trigger] entries@[j].0@ == self.entries@[j].0@
                    && entries@[j].1 == self.entries@[j].1,
            decreases self.entries@.len() - i,
        {
            entries.push((self.entries[i].0.clone(), self.entries[i].1));
            i += 1;
        }
        let t = Table { entries };
        assert(t@ =~= self@);
        t
    }
}

} // verus!
