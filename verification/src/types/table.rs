//! A finite map kept as a vector of entries with distinct keys.

use vstd::prelude::*;

verus! {

/// A type whose values can be compared for use as a [`Table`] key. `model` is the mathematical
/// value that two keys share exactly when `same` says they are the same key.
pub trait TableKey: Sized {
    type Model;

    spec fn model(&self) -> Self::Model;

    fn same(&self, other: &Self) -> (r: bool)
        ensures
            r == (self.model() == other.model()),
    ;
}

/// The first index at which `key` occurs in `entries`, counting from `from`; `entries.len()` when
/// there is none.
spec fn first_index<K: TableKey, V>(entries: Seq<(K, V)>, key: K::Model, from: int) -> int
    decreases entries.len() - from,
{
    if from >= entries.len() {
        entries.len() as int
    } else if entries[from].0.model() == key {
        from
    } else {
        first_index(entries, key, from + 1)
    }
}

proof fn lemma_first_index<K: TableKey, V>(entries: Seq<(K, V)>, key: K::Model, from: int, at: int)
    requires
        0 <= from <= at <= entries.len(),
        forall|j: int| from <= j < at ==> (#[trigger] entries[j]).0.model() != key,
        at < entries.len() ==> entries[at].0.model() == key,
    ensures
        first_index(entries, key, from) == at,
    decreases at - from,
{
    if from < at {
        lemma_first_index(entries, key, from + 1, at);
    }
}

/// A finite map from keys to values.
pub struct Table<K: TableKey, V> {
    entries: Vec<(K, V)>,
}

impl<K: TableKey, V> View for Table<K, V> {
    type V = Map<K::Model, V>;

    closed spec fn view(&self) -> Map<K::Model, V> {
        Map::new(
            |key: K::Model| first_index(self.entries@, key, 0) < self.entries@.len(),
            |key: K::Model| self.entries@[first_index(self.entries@, key, 0)].1,
        )
    }
}

impl<K: TableKey, V> Table<K, V> {
    #[verifier::type_invariant]
    spec fn distinct(self) -> bool {
        forall|i: int, j: int|
            0 <= i < j < self.entries@.len() ==> (#[trigger] self.entries@[i]).0.model()
                != (#[trigger] self.entries@[j]).0.model()
    }

    /// The table with no entries.
    pub fn new() -> (r: Self)
        ensures
            r@ == Map::<K::Model, V>::empty(),
    {
        let r = Table { entries: Vec::new() };
        assert(r@ =~= Map::<K::Model, V>::empty());
        r
    }

    /// The position of `key`, or the number of entries when it is absent.
    fn position(&self, key: &K) -> (at: usize)
        ensures
            at <= self.entries@.len(),
            at == first_index(self.entries@, key.model(), 0),
            at < self.entries@.len() ==> self.entries@[at as int].0.model() == key.model(),
            at < self.entries@.len() <==> self@.contains_key(key.model()),
            at < self.entries@.len() ==> self@[key.model()] == self.entries@[at as int].1,
    {
        let mut i: usize = 0;
        while i < self.entries.len()
            invariant
                i <= self.entries@.len(),
                forall|j: int| 0 <= j < i ==> (#[trigger] self.entries@[j]).0.model() != key.model(),
            decreases self.entries@.len() - i,
        {
            if self.entries[i].0.same(key) {
                proof {
                    lemma_first_index(self.entries@, key.model(), 0, i as int);
                }
                return i;
            }
            i = i + 1;
        }
        proof {
            lemma_first_index(self.entries@, key.model(), 0, i as int);
        }
        i
    }

    /// The value held for `key`.
    pub fn get(&self, key: &K) -> (r: Option<&V>)
        ensures
            match r {
                Some(v) => self@.contains_key(key.model()) && *v == self@[key.model()],
                None => !self@.contains_key(key.model()),
            },
    {
        let at: usize = self.position(key);
        if at < self.entries.len() {
            Some(&self.entries[at].1)
        } else {
            None
        }
    }

    /// Whether `key` has a value.
    pub fn contains_key(&self, key: &K) -> (r: bool)
        ensures
            r == self@.contains_key(key.model()),
    {
        self.position(key) < self.entries.len()
    }

    /// The number of entries.
    pub closed spec fn spec_len(&self) -> int {
        self.entries@.len() as int
    }

    /// The entry at a place.
    pub closed spec fn spec_entry(&self, at: int) -> (K, V) {
        self.entries@[at]
    }

    /// Every key with a value is that of an entry, and every entry's key has a value.
    pub proof fn lemma_entries(&self)
        ensures
            forall|key: K::Model| #[trigger]
                self@.contains_key(key) ==> exists|at: int|
                    0 <= at < self.spec_len() && (#[trigger] self.spec_entry(at)).0.model() == key,
            forall|at: int|
                0 <= at < self.spec_len() ==> self@.contains_key(
                    (#[trigger] self.spec_entry(at)).0.model(),
                ),
    {
        assert forall|at: int| 0 <= at < self.spec_len() implies self@.contains_key(
            (#[trigger] self.spec_entry(at)).0.model(),
        ) by {
            lemma_first_index_bounds(self.entries@, self.entries@[at].0.model(), 0);
        }
        assert forall|key: K::Model| #[trigger] self@.contains_key(key) implies exists|at: int|
            0 <= at < self.spec_len() && (#[trigger] self.spec_entry(at)).0.model() == key by {
            lemma_first_index_bounds(self.entries@, key, 0);
            let at = first_index(self.entries@, key, 0);
            assert(self.spec_entry(at).0.model() == key);
        }
    }

    /// The number of entries.
    pub fn len(&self) -> (r: usize)
        ensures
            r == self.spec_len(),
    {
        self.entries.len()
    }

    /// Whether there are no entries.
    pub fn is_empty(&self) -> (r: bool)
        ensures
            r ==> self@ == Map::<K::Model, V>::empty(),
            !r ==> exists|key: K::Model| #[trigger] self@.contains_key(key),
    {
        if self.entries.len() == 0 {
            assert(self@ =~= Map::<K::Model, V>::empty());
            true
        } else {
            proof {
                let key = self.entries@[0].0.model();
                assert(first_index(self.entries@, key, 0) == 0);
                assert(self@.contains_key(key));
            }
            false
        }
    }

    /// The entry at a place.
    pub fn entry(&self, at: usize) -> (r: (&K, &V))
        requires
            at < self.spec_len(),
        ensures
            *r.0 == self.spec_entry(at as int).0,
            *r.1 == self.spec_entry(at as int).1,
            self@.contains_key(r.0.model()),
            self@[r.0.model()] == *r.1,
            forall|j: int|
                0 <= j < self.spec_len() && j != at ==> (#[trigger] self.spec_entry(j)).0.model()
                    != r.0.model(),
    {
        proof {
            use_type_invariant(self);
            let key = self.entries@[at as int].0.model();
            lemma_first_index(self.entries@, key, 0, at as int);
        }
        (&self.entries[at].0, &self.entries[at].1)
    }

    /// Set the value of `key`.
    pub fn insert(&mut self, key: K, value: V)
        ensures
            final(self)@ == old(self)@.insert(key.model(), value),
    {
        proof {
            use_type_invariant(&*self);
        }
        let at: usize = self.position(&key);
        let mut entries: Vec<(K, V)> = Vec::new();
        std::mem::swap(&mut entries, &mut self.entries);
        let ghost before = entries@;
        let ghost k = key.model();
        proof {
            lemma_first_index_bounds(before, k, 0);
        }
        if at < entries.len() {
            entries.set(at, (key, value));
        } else {
            entries.push((key, value));
        }
        self.entries = entries;
        proof {
            assert forall|m: K::Model| first_index(self.entries@, m, 0) == (if m == k {
                at as int
            } else if first_index(before, m, 0) < before.len() {
                first_index(before, m, 0)
            } else {
                self.entries@.len() as int
            }) by {
                lemma_first_index_bounds(before, m, 0);
                let f = first_index(before, m, 0);
                lemma_first_index_bounds(before, k, 0);
                if m == k {
                    lemma_first_index(self.entries@, m, 0, at as int);
                } else if f < before.len() {
                    lemma_first_index(self.entries@, m, 0, f);
                } else {
                    lemma_first_index(self.entries@, m, 0, self.entries@.len() as int);
                }
            }
            assert forall|m: K::Model| (#[trigger] self@.contains_key(m) <==> old(self)@.insert(
                k,
                value,
            ).contains_key(m)) && (self@.contains_key(m) ==> self@[m] == old(self)@.insert(
                k,
                value,
            )[m]) by {
                lemma_first_index_bounds(before, m, 0);
                assert(old(self)@.contains_key(m) == (first_index(before, m, 0) < before.len()));
                assert(self@.contains_key(m) == (first_index(self.entries@, m, 0) < self.entries@.len()));
            }
            assert(self@ =~= old(self)@.insert(k, value));
        }
    }

    /// Drop the value of `key`, if it has one.
    pub fn remove(&mut self, key: &K) -> (r: Option<V>)
        ensures
            final(self)@ == old(self)@.remove(key.model()),
            r == (if old(self)@.contains_key(key.model()) {
                Some(old(self)@[key.model()])
            } else {
                None
            }),
    {
        proof {
            use_type_invariant(&*self);
        }
        let at: usize = self.position(key);
        let mut entries: Vec<(K, V)> = Vec::new();
        std::mem::swap(&mut entries, &mut self.entries);
        let ghost before = entries@;
        let mut removed: Option<V> = None;
        if at < entries.len() {
            let (k, v) = entries.remove(at);
            removed = Some(v);
        }
        self.entries = entries;
        proof {
            assert forall|m: K::Model| first_index(self.entries@, m, 0) == (if m == key.model()
                || first_index(before, m, 0) >= before.len() {
                self.entries@.len() as int
            } else if first_index(before, m, 0) > at {
                first_index(before, m, 0) - 1
            } else {
                first_index(before, m, 0)
            }) by {
                lemma_first_index_bounds(before, m, 0);
                lemma_first_index_bounds(before, key.model(), 0);
                let f = first_index(before, m, 0);
                let e = self.entries@;
                assert(at < before.len() ==> e =~= before.remove(at as int));
                assert(at >= before.len() ==> e =~= before);
                if m == key.model() || f >= before.len() {
                    assert forall|j: int| 0 <= j < e.len() implies (#[trigger] e[j]).0.model() != m by {
                        if at < before.len() {
                            if j < at {
                                assert(e[j] == before[j]);
                            } else {
                                assert(e[j] == before[j + 1]);
                            }
                        }
                    }
                    lemma_first_index(e, m, 0, e.len() as int);
                } else if f > at {
                    assert forall|j: int| 0 <= j < f - 1 implies (#[trigger] e[j]).0.model() != m by {
                        if j < at {
                            assert(e[j] == before[j]);
                        } else {
                            assert(e[j] == before[j + 1]);
                        }
                    }
                    assert(e[f - 1] == before[f]);
                    lemma_first_index(e, m, 0, f - 1);
                } else {
                    assert forall|j: int| 0 <= j < f implies (#[trigger] e[j]).0.model() != m by {
                        assert(e[j] == before[j]);
                    }
                    lemma_first_index(e, m, 0, f);
                }
            }
            assert forall|m: K::Model| (#[trigger] self@.contains_key(m) <==> old(self)@.remove(
                key.model(),
            ).contains_key(m)) && (self@.contains_key(m) ==> self@[m] == old(self)@[m]) by {
                lemma_first_index_bounds(before, m, 0);
                lemma_first_index_bounds(before, key.model(), 0);
                assert(old(self)@.contains_key(m) == (first_index(before, m, 0) < before.len()));
                assert(self@.contains_key(m) == (first_index(self.entries@, m, 0) < self.entries@.len()));
            }
            assert(self@ =~= old(self)@.remove(key.model()));
        }
        removed
    }
}

proof fn lemma_first_index_bounds<K: TableKey, V>(entries: Seq<(K, V)>, key: K::Model, from: int)
    requires
        0 <= from <= entries.len(),
    ensures
        from <= first_index(entries, key, from) <= entries.len(),
        first_index(entries, key, from) < entries.len()
            ==> entries[first_index(entries, key, from)].0.model() == key,
        forall|j: int|
            from <= j < first_index(entries, key, from) ==> (#[trigger] entries[j]).0.model() != key,
    decreases entries.len() - from,
{
    if from < entries.len() && entries[from].0.model() != key {
        lemma_first_index_bounds(entries, key, from + 1);
    }
}

} // verus!
