//! A small map from text keys to values, kept as a vector of entries
//! with distinct keys.
use vstd::prelude::*;

verus! {

/// Keys that can be compared by their view.
pub trait TableKey: View + Sized {
    fn same_key(&self, other: &Self) -> (r: bool)
        ensures
            r == (self@ == other@),
    ;
}

impl TableKey for String {
    fn same_key(&self, other: &String) -> (r: bool) {
        *self == *other
    }
}

impl TableKey for (String, String) {
    fn same_key(&self, other: &(String, String)) -> (r: bool) {
        self.0 == other.0 && self.1 == other.1
    }
}

/// No two entries have equal keys.
pub open spec fn distinct_keys<K: View, V>(s: Seq<(K, V)>) -> bool {
    forall|i: int, j: int|
        0 <= i < s.len() && 0 <= j < s.len() && i != j ==> s[i].0@ != s[j].0@
}

/// Some entry has key `k`.
pub open spec fn has_key<K: View, V>(s: Seq<(K, V)>, k: K::V) -> bool {
    exists|i: int| 0 <= i < s.len() && s[i].0@ == k
}

/// The index of an entry with key `k`.
pub open spec fn index_of_key<K: View, V>(s: Seq<(K, V)>, k: K::V) -> int {
    choose|i: int| 0 <= i < s.len() && s[i].0@ == k
}

/// The map that the entries stand for.
pub open spec fn entries_map<K: View, V>(s: Seq<(K, V)>) -> Map<K::V, V> {
    Map::new(|k: K::V| has_key(s, k), |k: K::V| s[index_of_key(s, k)].1)
}

/// With distinct keys, the entry with a given key is the only one.
pub proof fn lemma_index_of_key<K: View, V>(s: Seq<(K, V)>, i: int)
    requires
        distinct_keys(s),
        0 <= i < s.len(),
    ensures
        has_key(s, s[i].0@),
        index_of_key(s, s[i].0@) == i,
{
    assert(0 <= i < s.len() && s[i].0@ == s[i].0@);
}

/// A map from keys to values.
pub struct Table<K: TableKey, V> {
    entries: Vec<(K, V)>,
}

impl<K: TableKey, V> Table<K, V> {
    #[verifier::type_invariant]
    closed spec fn keys_are_distinct(self) -> bool {
        distinct_keys(self.entries@)
    }

    /// The map the table holds.
    pub closed spec fn as_map(self) -> Map<K::V, V> {
        entries_map(self.entries@)
    }

    /// A table holds finitely many keys.
    pub proof fn lemma_finite(self)
        ensures
            self.as_map().dom().finite(),
    {
        let es = self.entries@;
        let keys = es.map_values(|e: (K, V)| e.0@);
        vstd::seq_lib::seq_to_set_is_finite(keys);
        assert(self.as_map().dom().subset_of(keys.to_set())) by {
            assert forall|k: K::V| self.as_map().dom().contains(k) implies keys.to_set().contains(
                k,
            ) by {
                let i = choose|i: int| 0 <= i < es.len() && es[i].0@ == k;
                assert(keys[i] == k);
            }
        }
        vstd::set_lib::lemma_set_subset_finite(keys.to_set(), self.as_map().dom());
    }

    /// An empty table.
    pub fn new() -> (t: Self)
        ensures
            t.as_map() == Map::<K::V, V>::empty(),
    {
        let t = Table { entries: Vec::new() };
        assert(t.as_map() =~= Map::<K::V, V>::empty());
        t
    }

    /// The index of the entry with `key`, if there is one.
    fn find(&self, key: &K) -> (r: Option<usize>)
        ensures
            match r {
                Some(i) => i < self.entries@.len() && self.entries@[i as int].0@ == key@,
                None => !has_key(self.entries@, key@),
            },
    {
        let mut i: usize = 0;
        while i < self.entries.len()
            invariant
                0 <= i <= self.entries@.len(),
                forall|j: int| 0 <= j < i ==> self.entries@[j].0@ != key@,
            decreases self.entries@.len() - i,
        {
            if self.entries[i].0.same_key(key) {
                return Some(i);
            }
            i = i + 1;
        }
        None
    }

    /// The value stored under `key`.
    pub fn get(&self, key: &K) -> (r: Option<&V>)
        ensures
            r == (if self.as_map().contains_key(key@) {
                Some(&self.as_map()[key@])
            } else {
                None
            }),
    {
        proof {
            use_type_invariant(self);
        }
        match self.find(key) {
            Some(i) => {
                proof {
                    lemma_index_of_key(self.entries@, i as int);
                }
                Some(&self.entries[i].1)
            },
            None => None,
        }
    }

    /// Stores `value` under `key`, replacing what was there.
    pub fn insert(&mut self, key: K, value: V)
        ensures
            final(self).as_map() == old(self).as_map().insert(key@, value),
    {
        proof {
            use_type_invariant(&*self);
        }
        let ghost old_entries = self.entries@;
        let ghost k = key@;
        let found = self.find(&key);
        let mut es: Vec<(K, V)> = Vec::new();
        std::mem::swap(&mut es, &mut self.entries);
        match found {
            Some(i) => {
                es.set(i, (key, value));
                proof {
                    let s = es@;
                    assert(s == old_entries.update(i as int, (s[i as int].0, value)));
                    assert(distinct_keys(s)) by {
                        assert forall|a: int, b: int|
                            0 <= a < s.len() && 0 <= b < s.len() && a != b implies s[a].0@
                            != s[b].0@ by {
                            if a != i && b != i {
                                assert(s[a] == old_entries[a] && s[b] == old_entries[b]);
                            } else if a == i {
                                assert(s[b] == old_entries[b]);
                            } else {
                                assert(s[a] == old_entries[a]);
                            }
                        }
                    }
                    assert forall|q: K::V| #[trigger] has_key(s, q) == has_key(old_entries, q) by {
                        if has_key(s, q) {
                            let j = choose|j: int| 0 <= j < s.len() && s[j].0@ == q;
                            assert(old_entries[j].0@ == q);
                        }
                        if has_key(old_entries, q) {
                            let j = choose|j: int| 0 <= j < old_entries.len() && old_entries[j].0@ == q;
                            assert(s[j].0@ == q);
                        }
                    }
                    assert forall|q: K::V| has_key(s, q) implies #[trigger] entries_map(s)[q] == (
                    if q == k {
                        value
                    } else {
                        entries_map(old_entries)[q]
                    }) by {
                        let j = choose|j: int| 0 <= j < s.len() && s[j].0@ == q;
                        lemma_index_of_key(s, j);
                        lemma_index_of_key(old_entries, j);
                    }
                    assert(entries_map(s) =~= entries_map(old_entries).insert(k, value));
                }
            },
            None => {
                es.push((key, value));
                proof {
                    let s = es@;
                    let n = old_entries.len() as int;
                    assert(s == old_entries.push((s[n].0, value)));
                    assert(distinct_keys(s)) by {
                        assert forall|a: int, b: int|
                            0 <= a < s.len() && 0 <= b < s.len() && a != b implies s[a].0@
                            != s[b].0@ by {
                            if a != n && b != n {
                                assert(s[a] == old_entries[a] && s[b] == old_entries[b]);
                            } else if a == n {
                                assert(s[b] == old_entries[b]);
                            } else {
                                assert(s[a] == old_entries[a]);
                            }
                        }
                    }
                    assert forall|q: K::V| #[trigger] has_key(s, q) == (has_key(old_entries, q) || q
                        == k) by {
                        if has_key(s, q) {
                            let j = choose|j: int| 0 <= j < s.len() && s[j].0@ == q;
                            if j < n {
                                assert(old_entries[j].0@ == q);
                            }
                        }
                        if has_key(old_entries, q) {
                            let j = choose|j: int| 0 <= j < old_entries.len() && old_entries[j].0@ == q;
                            assert(s[j].0@ == q);
                        }
                        if q == k {
                            assert(s[n].0@ == q);
                        }
                    }
                    assert forall|q: K::V| has_key(s, q) implies #[trigger] entries_map(s)[q] == (
                    if q == k {
                        value
                    } else {
                        entries_map(old_entries)[q]
                    }) by {
                        let j = choose|j: int| 0 <= j < s.len() && s[j].0@ == q;
                        lemma_index_of_key(s, j);
                        if j < n {
                            lemma_index_of_key(old_entries, j);
                        }
                    }
                    assert(entries_map(s) =~= entries_map(old_entries).insert(k, value));
                }
            },
        }
        self.entries = es;
    }
}

} // verus!
