//! A small association table: a vector of entries with unique keys, seen as a map.
use vstd::prelude::*;

verus! {

/// A key of a [`Table`]: a plain value whose equality can be tested.
pub trait TableKey: Copy + Sized {
    fn same(&self, other: &Self) -> (r: bool)
        ensures
            r == (*self == *other),
    ;
}

#[derive(Clone, Copy)]
pub struct Entry<K, V> {
    pub key: K,
    pub value: V,
}

/// A finite map from keys to values, stored as a vector with no key twice.
pub struct Table<K, V> {
    entries: Vec<Entry<K, V>>,
}

pub open spec fn keys_unique<K, V>(s: Seq<Entry<K, V>>) -> bool {
    forall|i: int, j: int|
        0 <= i < s.len() && 0 <= j < s.len() && #[trigger] s[i].key == #[trigger] s[j].key ==> i
            == j
}

pub open spec fn has_key_at<K, V>(s: Seq<Entry<K, V>>, k: K, i: int) -> bool {
    0 <= i < s.len() && s[i].key == k
}

pub open spec fn map_of<K, V>(s: Seq<Entry<K, V>>) -> Map<K, V> {
    Map::new(
        |k: K| exists|i: int| #[trigger] has_key_at(s, k, i),
        |k: K| s[choose|i: int| #[trigger] has_key_at(s, k, i)].value,
    )
}

proof fn lemma_map_of_at<K, V>(s: Seq<Entry<K, V>>, i: int)
    requires
        keys_unique(s),
        0 <= i < s.len(),
    ensures
        map_of(s).contains_key(s[i].key),
        map_of(s)[s[i].key] == s[i].value,
{
    let k = s[i].key;
    assert(has_key_at(s, k, i));
    let j = choose|j: int| #[trigger] has_key_at(s, k, j);
    assert(s[j].key == s[i].key);
}

impl<K: TableKey, V: Copy> Table<K, V> {
    pub closed spec fn wf(&self) -> bool {
        keys_unique(self.entries@)
    }

    pub closed spec fn view(&self) -> Map<K, V> {
        map_of(self.entries@)
    }

    pub fn new() -> (r: Self)
        ensures
            r.wf(),
            r.view() == Map::<K, V>::empty(),
    {
        let r = Table { entries: Vec::new() };
        assert(r.view() =~= Map::<K, V>::empty());
        r
    }

    fn find(&self, k: &K) -> (r: Option<usize>)
        ensures
            match r {
                Some(i) => i < self.entries@.len() && self.entries@[i as int].key == *k,
                None => forall|i: int|
                    0 <= i < self.entries@.len() ==> self.entries@[i].key != *k,
            },
    {
        let mut i: usize = 0;
        while i < self.entries.len()
            invariant
                i <= self.entries@.len(),
                forall|j: int| 0 <= j < i ==> self.entries@[j].key != *k,
            decreases self.entries@.len() - i,
        {
            if self.entries[i].key.same(k) {
                return Some(i);
            }
            i = i + 1;
        }
        None
    }

    pub fn get(&self, k: &K) -> (r: Option<V>)
        requires
            self.wf(),
        ensures
            r == (if self.view().contains_key(*k) {
                Some(self.view()[*k])
            } else {
                None::<V>
            }),
    {
        match self.find(k) {
            Some(i) => {
                proof {
                    lemma_map_of_at(self.entries@, i as int);
                }
                Some(self.entries[i].value)
            },
            None => {
                assert(!self.view().contains_key(*k)) by {
                    if exists|i: int| #[trigger] has_key_at(self.entries@, *k, i) {
                        let i = choose|i: int| #[trigger] has_key_at(self.entries@, *k, i);
                        assert(self.entries@[i].key != *k);
                    }
                }
                None
            },
        }
    }

    pub fn contains(&self, k: &K) -> (r: bool)
        requires
            self.wf(),
        ensures
            r == self.view().contains_key(*k),
    {
        self.get(k).is_some()
    }

    pub fn insert(&mut self, k: K, v: V)
        requires
            old(self).wf(),
        ensures
            final(self).wf(),
            final(self).view() == old(self).view().insert(k, v),
    {
        let ghost s0 = self.entries@;
        match self.find(&k) {
            Some(i) => {
                self.entries.set(i, Entry { key: k, value: v });
                let ghost s1 = self.entries@;
                assert(keys_unique(s1)) by {
                    assert forall|a: int, b: int|
                        0 <= a < s1.len() && 0 <= b < s1.len() && #[trigger] s1[a].key
                            == #[trigger] s1[b].key implies a == b by {
                        assert(s1[a].key == s0[a].key);
                        assert(s1[b].key == s0[b].key);
                    }
                }
                assert(map_of(s1) =~= map_of(s0).insert(k, v)) by {
                    assert forall|key: K| #[trigger]
                        map_of(s1).contains_key(key) == map_of(s0).insert(k, v).contains_key(
                            key,
                        ) by {
                        if map_of(s1).contains_key(key) {
                            let j = choose|j: int| #[trigger] has_key_at(s1, key, j);
                            if key != k {
                                assert(has_key_at(s0, key, j));
                            }
                        }
                        if map_of(s0).contains_key(key) {
                            let j = choose|j: int| #[trigger] has_key_at(s0, key, j);
                            assert(has_key_at(s1, key, j));
                        }
                        assert(has_key_at(s1, k, i as int));
                    }
                    assert forall|key: K| #[trigger] map_of(s1).contains_key(key) implies map_of(
                        s1,
                    )[key] == map_of(s0).insert(k, v)[key] by {
                        let j = choose|j: int| #[trigger] has_key_at(s1, key, j);
                        lemma_map_of_at(s1, j);
                        if key != k {
                            assert(s0[j].key == key);
                            lemma_map_of_at(s0, j);
                        }
                    }
                }
            },
            None => {
                self.entries.push(Entry { key: k, value: v });
                let ghost s1 = self.entries@;
                assert(keys_unique(s1)) by {
                    assert forall|a: int, b: int|
                        0 <= a < s1.len() && 0 <= b < s1.len() && #[trigger] s1[a].key
                            == #[trigger] s1[b].key implies a == b by {
                        if a < s0.len() {
                            assert(s1[a].key == s0[a].key);
                        }
                        if b < s0.len() {
                            assert(s1[b].key == s0[b].key);
                        }
                    }
                }
                assert(map_of(s1) =~= map_of(s0).insert(k, v)) by {
                    assert forall|key: K| #[trigger]
                        map_of(s1).contains_key(key) == map_of(s0).insert(k, v).contains_key(
                            key,
                        ) by {
                        if map_of(s1).contains_key(key) {
                            let j = choose|j: int| #[trigger] has_key_at(s1, key, j);
                            if key != k {
                                assert(has_key_at(s0, key, j));
                            }
                        }
                        if map_of(s0).contains_key(key) {
                            let j = choose|j: int| #[trigger] has_key_at(s0, key, j);
                            assert(has_key_at(s1, key, j));
                        }
                        assert(has_key_at(s1, k, s0.len() as int));
                    }
                    assert forall|key: K| #[trigger] map_of(s1).contains_key(key) implies map_of(
                        s1,
                    )[key] == map_of(s0).insert(k, v)[key] by {
                        let j = choose|j: int| #[trigger] has_key_at(s1, key, j);
                        lemma_map_of_at(s1, j);
                        if key != k {
                            assert(s0[j].key == key);
                            lemma_map_of_at(s0, j);
                        }
                    }
                }
            },
        }
    }

    pub fn remove(&mut self, k: &K)
        requires
            old(self).wf(),
        ensures
            final(self).wf(),
            final(self).view() == old(self).view().remove(*k),
    {
        let ghost s0 = self.entries@;
        match self.find(k) {
            Some(i) => {
                self.entries.remove(i);
                let ghost s1 = self.entries@;
                assert(forall|a: int| 0 <= a < s1.len() ==> #[trigger] s1[a] == (if a < i {
                    s0[a]
                } else {
                    s0[a + 1]
                }));
                assert(keys_unique(s1)) by {
                    assert forall|a: int, b: int|
                        0 <= a < s1.len() && 0 <= b < s1.len() && #[trigger] s1[a].key
                            == #[trigger] s1[b].key implies a == b by {
                        let a0 = if a < i {
                            a
                        } else {
                            a + 1
                        };
                        let b0 = if b < i {
                            b
                        } else {
                            b + 1
                        };
                        assert(s0[a0].key == s0[b0].key);
                    }
                }
                assert(map_of(s1) =~= map_of(s0).remove(*k)) by {
                    assert forall|key: K| #[trigger]
                        map_of(s1).contains_key(key) == map_of(s0).remove(*k).contains_key(
                            key,
                        ) by {
                        if map_of(s1).contains_key(key) {
                            let j = choose|j: int| #[trigger] has_key_at(s1, key, j);
                            let j0 = if j < i {
                                j
                            } else {
                                j + 1
                            };
                            assert(has_key_at(s0, key, j0));
                            assert(j0 != i);
                        }
                        if map_of(s0).contains_key(key) && key != *k {
                            let j = choose|j: int| #[trigger] has_key_at(s0, key, j);
                            assert(j != i);
                            let j1 = if j < i {
                                j
                            } else {
                                j - 1
                            };
                            assert(has_key_at(s1, key, j1));
                        }
                    }
                    assert forall|key: K| #[trigger] map_of(s1).contains_key(key) implies map_of(
                        s1,
                    )[key] == map_of(s0).remove(*k)[key] by {
                        let j = choose|j: int| #[trigger] has_key_at(s1, key, j);
                        lemma_map_of_at(s1, j);
                        let j0 = if j < i {
                            j
                        } else {
                            j + 1
                        };
                        assert(s0[j0].key == key);
                        lemma_map_of_at(s0, j0);
                    }
                }
            },
            None => {
                assert(map_of(s0) =~= map_of(s0).remove(*k)) by {
                    if map_of(s0).contains_key(*k) {
                        let j = choose|j: int| #[trigger] has_key_at(s0, *k, j);
                    }
                }
            },
        }
    }

    /// A copy of the table.
    pub fn duplicate(&self) -> (r: Self)
        requires
            self.wf(),
        ensures
            r.wf(),
            r.view() == self.view(),
    {
        let mut entries: Vec<Entry<K, V>> = Vec::new();
        let mut i: usize = 0;
        while i < self.entries.len()
            invariant
                i <= self.entries@.len(),
                entries@ == self.entries@.subrange(0, i as int),
            decreases self.entries@.len() - i,
        {
            entries.push(self.entries[i]);
            i = i + 1;
            assert(entries@ =~= self.entries@.subrange(0, i as int));
        }
        assert(entries@ =~= self.entries@);
        Table { entries }
    }

    /// The table's keys are finitely many.
    pub proof fn lemma_dom_finite(&self)
        requires
            self.wf(),
        ensures
            self.view().dom().finite(),
    {
        let s = self.entries@;
        let ks = s.map_values(|e: Entry<K, V>| e.key);
        assert forall|k: K| self.view().dom().contains(k) <==> ks.to_set().contains(k) by {
            if self.view().dom().contains(k) {
                let j = choose|j: int| #[trigger] has_key_at(s, k, j);
                assert(ks[j] == k);
            }
            if ks.to_set().contains(k) {
                let j = choose|j: int| 0 <= j < ks.len() && ks[j] == k;
                assert(has_key_at(s, k, j));
            }
        }
        assert(self.view().dom() =~= ks.to_set());
        vstd::seq_lib::seq_to_set_is_finite(ks);
    }

    /// The keys of the table, in storage order.
    pub fn keys(&self) -> (r: Vec<K>)
        requires
            self.wf(),
        ensures
            r@.len() == self.view().dom().len(),
            forall|i: int| 0 <= i < r@.len() ==> self.view().contains_key(#[trigger] r@[i]),
            forall|k: K| self.view().contains_key(k) ==> r@.contains(k),
            forall|i: int, j: int| 0 <= i < j < r@.len() ==> r@[i] != r@[j],
    {
        let mut r: Vec<K> = Vec::new();
        let mut i: usize = 0;
        while i < self.entries.len()
            invariant
                i <= self.entries@.len(),
                keys_unique(self.entries@),
                r@.len() == i,
                forall|j: int| 0 <= j < i ==> r@[j] == #[trigger] self.entries@[j].key,
            decreases self.entries@.len() - i,
        {
            r.push(self.entries[i].key);
            i = i + 1;
        }
        proof {
            let s = self.entries@;
            assert forall|j: int| 0 <= j < r@.len() implies self.view().contains_key(
                #[trigger] r@[j],
            ) by {
                lemma_map_of_at(s, j);
            }
            assert forall|k: K| self.view().contains_key(k) implies r@.contains(k) by {
                let j = choose|j: int| #[trigger] has_key_at(s, k, j);
                assert(r@[j] == k);
            }
            assert forall|a: int, b: int| 0 <= a < b < r@.len() implies r@[a] != r@[b] by {
                assert(r@[a] == s[a].key && r@[b] == s[b].key);
            }
            assert(r@.no_duplicates());
            assert(self.view().dom() =~= r@.to_set());
            r@.unique_seq_to_set();
        }
        r
    }
}

} // verus!
