//! The LRU cache engine.
//!
//! `Cache` pairs a fixed capacity with a recency-ordered sequence of entries
//! (front = least recently used, back = most recently used).  Lookup and
//! removal scan that sequence; the externally visible behaviour is exactly
//! the functional model in `crate::model`.

use vstd::prelude::*;
use vstd::std_specs::cmp::PartialEqSpec;
use crate::model::{
    distinct_keys, has_key, lemma_key_index_unique, lemma_push_fresh_keeps_distinct,
    lemma_remove_keeps_distinct, lemma_run_puts_snoc, run_puts, spec_lookup, spec_promote,
    spec_put,
};

verus! {

/// The executable equality of `K` agrees with equality of deep views: `==`
/// returns true exactly when the two keys have the same abstract value.  This
/// holds for well-behaved `Eq` types (integers, strings, vectors of such);
/// the cache's contracts are stated under this hypothesis.
pub open spec fn eq_matches_view<K: PartialEq + DeepView>() -> bool {
    &&& K::obeys_eq_spec()
    &&& forall|x: K, y: K| #[trigger] x.eq_spec(&y) <==> x.deep_view() == y.deep_view()
}

/// The abstract contents of a sequence of entries: each key replaced by its
/// deep view, values kept as they are.
pub open spec fn pair_views<K: DeepView, V>(s: Seq<(K, V)>) -> Seq<(<K as DeepView>::V, V)> {
    s.map_values(|p: (K, V)| (p.0.deep_view(), p.1))
}

/// A fixed-capacity least-recently-used cache.
#[derive(Debug)]
pub struct Cache<K: PartialEq + DeepView, V> {
    capacity: usize,
    entries: Vec<(K, V)>,
}

/// The basic operations of an LRU cache.
pub trait LRUCache<K, V> {
    /// Inserts or updates a pair; a full cache evicts its
    /// least-recently-used entry to make room for a fresh key.
    fn put(&mut self, key: K, value: V);

    /// Looks a key up and, on a hit, marks it most-recently-used.
    fn get(&mut self, key: &K) -> Option<&V>;
}

/// Failure of a persistence operation (an unreadable or unwritable file).
#[derive(Debug)]
pub struct PersistError {}

/// Mirroring a cache to a file and rebuilding it from one.  The cache
/// library itself performs no file I/O: implementations live with the
/// caller, which moves bytes between disk and the verified codec.
pub trait Persistence<K, V>: Sized {
    /// Writes the current contents to the named file, replacing it.
    fn save_to_file(&self, filename: &str) -> Result<(), PersistError>;

    /// Reads the named file back as key-value pairs, in file order.
    fn load_from_file(filename: &str) -> Result<Vec<(K, V)>, PersistError>;
}

impl<K: PartialEq + DeepView, V> Cache<K, V> {
    /// The abstract state: `(key view, value)` pairs from least- to
    /// most-recently-used.
    pub closed spec fn model(&self) -> Seq<(<K as DeepView>::V, V)> {
        pair_views(self.entries@)
    }

    /// The capacity fixed at construction.
    pub closed spec fn spec_capacity(&self) -> nat {
        self.capacity as nat
    }

    /// Well-formedness: never more entries than the capacity allows, and no
    /// key occurs twice.
    pub closed spec fn wf(&self) -> bool {
        &&& self.entries@.len() <= self.capacity
        &&& distinct_keys(self.model())
    }

    /// A well-formed cache never holds more entries than its capacity, and
    /// holds each key at most once — whatever operations produced it.
    pub proof fn lemma_wf_bounds(&self)
        requires
            self.wf(),
        ensures
            self.model().len() <= self.spec_capacity(),
            distinct_keys(self.model()),
    {
    }

    /// Creates an empty cache that will hold at most `capacity` entries.
    pub fn new(capacity: usize) -> (c: Self)
        ensures
            c.wf(),
            c.model() == Seq::<(<K as DeepView>::V, V)>::empty(),
            c.spec_capacity() == capacity,
    {
        let c = Cache { capacity, entries: Vec::new() };
        proof {
            assert(c.model() =~= Seq::<(<K as DeepView>::V, V)>::empty());
        }
        c
    }

    /// The index of the entry holding `key`, scanning from the
    /// least-recently-used end.
    fn find_index(&self, key: &K) -> (r: Option<usize>)
        ensures
            match r {
                Some(i) => {
                    &&& i < self.model().len()
                    &&& eq_matches_view::<K>() ==> self.model()[i as int].0 == key.deep_view()
                },
                None => eq_matches_view::<K>() ==> !has_key(self.model(), key.deep_view()),
            },
    {
        let n = self.entries.len();
        let mut i: usize = 0;
        while i < n
            invariant
                n == self.entries@.len(),
                i <= n,
                eq_matches_view::<K>() ==> forall|j: int|
                    0 <= j < i ==> self.model()[j].0 != key.deep_view(),
            decreases n - i,
        {
            if self.entries[i].0 == *key {
                return Some(i);
            }
            i += 1;
        }
        None
    }

    /// Inserts `value` under `key`.  An existing key is re-bound and becomes
    /// most-recently-used; a fresh key is appended, and when the cache is
    /// already full the least-recently-used entry is evicted first.  With
    /// capacity zero the entry is conceptually inserted and at once evicted,
    /// so nothing is ever retained.
    pub fn put(&mut self, key: K, value: V)
        ensures
            final(self).spec_capacity() == old(self).spec_capacity(),
            eq_matches_view::<K>() && old(self).wf() ==> {
                &&& final(self).wf()
                &&& final(self).model() == spec_put(
                    old(self).model(),
                    old(self).spec_capacity(),
                    key.deep_view(),
                    value,
                )
            },
    {
        if self.capacity == 0 {
            return ;
        }
        let ghost m0 = self.model();
        let ghost kd = key.deep_view();
        let found = self.find_index(&key);
        match found {
            Some(i) => {
                self.entries.remove(i);
                proof {
                    assert(self.model() =~= m0.remove(i as int));
                    if eq_matches_view::<K>() && old(self).wf() {
                        lemma_key_index_unique(m0, kd, i as int);
                        lemma_remove_keeps_distinct(m0, i as int);
                    }
                }
            },
            None => {
                if self.entries.len() == self.capacity {
                    self.entries.remove(0);
                    proof {
                        assert(self.model() =~= m0.drop_first());
                        if eq_matches_view::<K>() && old(self).wf() {
                            lemma_remove_keeps_distinct(m0, 0);
                            assert(m0.drop_first() =~= m0.remove(0));
                        }
                    }
                }
            },
        }
        let ghost m1 = self.model();
        self.entries.push((key, value));
        proof {
            assert(self.model() =~= m1.push((kd, value)));
            if eq_matches_view::<K>() && old(self).wf() {
                lemma_push_fresh_keeps_distinct(m1, kd, value);
            }
        }
    }

    /// Looks `key` up.  On a hit the entry is promoted to most-recently-used
    /// — also when it already is — and its value is returned; a miss changes
    /// nothing.
    pub fn get(&mut self, key: &K) -> (r: Option<&V>)
        ensures
            final(self).spec_capacity() == old(self).spec_capacity(),
            eq_matches_view::<K>() && old(self).wf() ==> {
                &&& final(self).wf()
                &&& final(self).model() == spec_promote(old(self).model(), key.deep_view())
                &&& match r {
                    Some(v) => spec_lookup(old(self).model(), key.deep_view()) == Some(*v),
                    None => spec_lookup(old(self).model(), key.deep_view()) is None,
                }
            },
    {
        let ghost m0 = self.model();
        let ghost kd = key.deep_view();
        let found = self.find_index(key);
        match found {
            Some(i) => {
                let p = self.entries.remove(i);
                proof {
                    assert(self.model() =~= m0.remove(i as int));
                    if eq_matches_view::<K>() && old(self).wf() {
                        lemma_key_index_unique(m0, kd, i as int);
                        lemma_remove_keeps_distinct(m0, i as int);
                        lemma_push_fresh_keeps_distinct(m0.remove(i as int), m0[i as int].0, m0[i as int].1);
                    }
                }
                let ghost m1 = self.model();
                self.entries.push(p);
                let n = self.entries.len();
                let v = &self.entries[n - 1].1;
                proof {
                    assert(self.model() =~= m1.push((m0[i as int].0, m0[i as int].1)));
                    assert(m0.remove(i as int).push(m0[i as int]) == m0.remove(i as int).push(
                        (m0[i as int].0, m0[i as int].1),
                    ));
                }
                Some(v)
            },
            None => None,
        }
    }

    /// Creates a cache of the given capacity and replays `pairs` through
    /// `put`, in order.  Duplicate keys overwrite, so the last `capacity`
    /// distinct keys survive, in order of their last occurrence.
    pub fn new_from_pairs(capacity: usize, pairs: Vec<(K, V)>) -> (c: Self)
        ensures
            c.spec_capacity() == capacity,
            eq_matches_view::<K>() ==> {
                &&& c.wf()
                &&& c.model() == run_puts(
                    Seq::<(<K as DeepView>::V, V)>::empty(),
                    capacity as nat,
                    pair_views(pairs@),
                )
            },
    {
        let ghost all = pair_views(pairs@);
        let ghost empty = Seq::<(<K as DeepView>::V, V)>::empty();
        let mut pairs = pairs;
        let mut c = Cache::new(capacity);
        let ghost done: int = 0;
        while pairs.len() > 0
            invariant
                c.spec_capacity() == capacity,
                0 <= done <= all.len(),
                pair_views(pairs@) =~= all.skip(done),
                pairs@.len() == all.len() - done,
                eq_matches_view::<K>() ==> {
                    &&& c.wf()
                    &&& c.model() == run_puts(empty, capacity as nat, all.take(done))
                },
            decreases pairs.len(),
        {
            let ghost pv = pairs@;
            let p = pairs.remove(0);
            proof {
                assert(pairs@ =~= pv.drop_first());
                assert forall|i: int| 0 <= i < pairs@.len() implies pair_views(pairs@)[i]
                    == all.skip(done + 1)[i] by {
                    assert(pairs@[i] == pv[i + 1]);
                    assert(pair_views(pv)[i + 1] == all.skip(done)[i + 1]);
                }
                assert(pair_views(pairs@) =~= all.skip(done + 1));
                assert(pair_views(pv)[0] == all.skip(done)[0]);
                assert(p.0.deep_view() == all[done].0 && p.1 == all[done].1);
            }
            c.put(p.0, p.1);
            proof {
                if eq_matches_view::<K>() {
                    lemma_run_puts_snoc(empty, capacity as nat, all.take(done), all[done]);
                    assert(all.take(done + 1) =~= all.take(done).push(all[done]));
                }
                done = done + 1;
            }
        }
        proof {
            assert(all.take(done) =~= all);
        }
        c
    }

    /// The number of entries currently held.
    pub fn len(&self) -> (n: usize)
        ensures
            n == self.model().len(),
    {
        self.entries.len()
    }

    /// The entry at position `i` of the recency order: position 0 is the
    /// least-recently-used entry, the last position the most recent.
    pub fn entry_at(&self, i: usize) -> (r: &(K, V))
        requires
            i < self.model().len(),
        ensures
            r.0.deep_view() == self.model()[i as int].0,
            r.1 == self.model()[i as int].1,
    {
        &self.entries[i]
    }
}

impl<K: PartialEq + DeepView, V> LRUCache<K, V> for Cache<K, V> {
    fn put(&mut self, key: K, value: V) {
        Cache::put(self, key, value)
    }

    fn get(&mut self, key: &K) -> Option<&V> {
        Cache::get(self, key)
    }
}

} // verus!
