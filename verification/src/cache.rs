//! Key/value cache that remembers the result computed for each key.
//!
//! `get_or_insert_with` runs the supplied closure only when the key has no
//! cached value yet, so repeated requests for one key pay for the computation
//! once; `replace_with` recomputes unconditionally and caches the fresh
//! result. The view is the map from keys to their cached values.

use vstd::prelude::*;

verus! {

/// Whether `k` occurs in `s`.
pub open spec fn has_key(s: Seq<u64>, k: u64) -> bool {
    exists|i: int| 0 <= i < s.len() && s[i] == k
}

/// The index at which `k` occurs (unique when the keys are distinct).
pub open spec fn key_index(s: Seq<u64>, k: u64) -> int {
    choose|i: int| 0 <= i < s.len() && s[i] == k
}

/// No key occurs twice.
pub open spec fn distinct_keys(s: Seq<u64>) -> bool {
    forall|i: int, j: int| 0 <= i < j < s.len() ==> s[i] != s[j]
}

proof fn lemma_key_index_unique(s: Seq<u64>, i: int)
    requires
        distinct_keys(s),
        0 <= i < s.len(),
    ensures
        key_index(s, s[i]) == i,
{
    let k = s[i];
    assert(has_key(s, k));
    let x = key_index(s, k);
    assert(0 <= x < s.len() && s[x] == k);
    if x < i {
        assert(s[x] != s[i]);
    }
    if i < x {
        assert(s[i] != s[x]);
    }
}

/// Cache that remembers the result for each key.
#[derive(Debug)]
pub struct Cache<V> {
    keys: Vec<u64>,
    vals: Vec<V>,
}

impl<V> View for Cache<V> {
    type V = Map<u64, V>;

    closed spec fn view(&self) -> Map<u64, V> {
        Map::new(
            |k: u64| has_key(self.keys@, k),
            |k: u64| self.vals@[key_index(self.keys@, k)],
        )
    }
}

impl<V: Copy> Cache<V> {
    pub closed spec fn wf(self) -> bool {
        &&& self.keys@.len() == self.vals@.len()
        &&& distinct_keys(self.keys@)
    }

    /// An empty cache.
    pub fn new() -> (r: Self)
        ensures
            r.wf(),
            r@ == Map::<u64, V>::empty(),
    {
        let r = Cache { keys: Vec::new(), vals: Vec::new() };
        proof {
            assert(r@ =~= Map::<u64, V>::empty());
        }
        r
    }

    /// Retrieve the value or insert a new one created by `f`.
    ///
    /// `f` runs only when `key` has no cached value yet: even repeated
    /// requests for one key compute its value once.
    pub fn get_or_insert_with<F: FnOnce(u64) -> V>(&mut self, key: u64, f: F) -> (r: V)
        requires
            old(self).wf(),
            !old(self)@.contains_key(key) ==> call_requires(f, (key,)),
        ensures
            final(self).wf(),
            old(self)@.contains_key(key) ==> r == old(self)@[key] && final(self)@ == old(self)@,
            !old(self)@.contains_key(key) ==> call_ensures(f, (key,), r) && final(self)@ == old(
                self,
            )@.insert(key, r),
    {
        let n = self.keys.len();
        let mut i: usize = 0;
        while i < n
            invariant
                self.wf(),
                n == self.keys@.len(),
                i <= n,
                forall|x: int| 0 <= x < i ==> self.keys@[x] != key,
                *self == *old(self),
            decreases n - i,
        {
            if self.keys[i] == key {
                proof {
                    lemma_key_index_unique(self.keys@, i as int);
                    assert(self@.contains_key(key));
                    assert(self@[key] == self.vals@[i as int]);
                }
                return self.vals[i];
            }
            i = i + 1;
        }
        proof {
            assert(!has_key(self.keys@, key));
            assert(!self@.contains_key(key));
        }
        let v = f(key);
        let ghost pre = *self;
        self.keys.push(key);
        self.vals.push(v);
        proof {
            let ks = self.keys@;
            assert forall|a: int, b: int| 0 <= a < b < ks.len() implies ks[a] != ks[b] by {
                if b == ks.len() - 1 {
                    assert(ks[a] == pre.keys@[a]);
                }
            }
            assert(self@ =~= pre@.insert(key, v)) by {
                assert forall|k2: u64| has_key(ks, k2) == (has_key(pre.keys@, k2) || k2 == key) by {
                    if has_key(ks, k2) {
                        let x = key_index(ks, k2);
                        if x < ks.len() - 1 {
                            assert(pre.keys@[x] == k2);
                        }
                    }
                    if has_key(pre.keys@, k2) {
                        let x = key_index(pre.keys@, k2);
                        assert(ks[x] == k2);
                    }
                    if k2 == key {
                        assert(ks[ks.len() - 1] == k2);
                    }
                }
                assert forall|k2: u64| has_key(ks, k2) implies self.vals@[key_index(ks, k2)] == (
                if k2 == key {
                    v
                } else {
                    pre.vals@[key_index(pre.keys@, k2)]
                }) by {
                    if k2 == key {
                        lemma_key_index_unique(ks, ks.len() - 1);
                    } else {
                        let x = key_index(pre.keys@, k2);
                        assert(pre.keys@[x] == k2);
                        assert(ks[x] == k2);
                        lemma_key_index_unique(ks, x);
                    }
                }
            }
        }
        v
    }

    /// Recompute the value for `key` with `f`, cache it, and return it.
    pub fn replace_with<F: FnOnce(u64) -> V>(&mut self, key: u64, f: F) -> (r: V)
        requires
            old(self).wf(),
            call_requires(f, (key,)),
        ensures
            final(self).wf(),
            call_ensures(f, (key,), r),
            final(self)@ == old(self)@.insert(key, r),
    {
        let v = f(key);
        let n = self.keys.len();
        let mut i: usize = 0;
        while i < n
            invariant
                self.wf(),
                n == self.keys@.len(),
                i <= n,
                forall|x: int| 0 <= x < i ==> self.keys@[x] != key,
                *self == *old(self),
                call_ensures(f, (key,), v),
            decreases n - i,
        {
            if self.keys[i] == key {
                let ghost pre = *self;
                proof {
                    lemma_key_index_unique(self.keys@, i as int);
                }
                self.vals[i] = v;
                proof {
                    assert(self@ =~= pre@.insert(key, v)) by {
                        assert forall|k2: u64| has_key(self.keys@, k2) && k2 != key implies
                            self.vals@[key_index(self.keys@, k2)] == pre.vals@[key_index(
                            pre.keys@,
                            k2,
                        )] by {
                            let x = key_index(self.keys@, k2);
                            assert(0 <= x < self.keys@.len() && self.keys@[x] == k2);
                            assert(x != i as int);
                        }
                        assert(self.vals@[key_index(self.keys@, key)] == v);
                    }
                }
                return v;
            }
            i = i + 1;
        }
        let ghost pre = *self;
        self.keys.push(key);
        self.vals.push(v);
        proof {
            let ks = self.keys@;
            assert forall|a: int, b: int| 0 <= a < b < ks.len() implies ks[a] != ks[b] by {
                if b == ks.len() - 1 {
                    assert(ks[a] == pre.keys@[a]);
                }
            }
            assert(self@ =~= pre@.insert(key, v)) by {
                assert forall|k2: u64| has_key(ks, k2) == (has_key(pre.keys@, k2) || k2 == key) by {
                    if has_key(ks, k2) {
                        let x = key_index(ks, k2);
                        if x < ks.len() - 1 {
                            assert(pre.keys@[x] == k2);
                        }
                    }
                    if has_key(pre.keys@, k2) {
                        let x = key_index(pre.keys@, k2);
                        assert(ks[x] == k2);
                    }
                    if k2 == key {
                        assert(ks[ks.len() - 1] == k2);
                    }
                }
                assert forall|k2: u64| has_key(ks, k2) implies self.vals@[key_index(ks, k2)] == (
                if k2 == key {
                    v
                } else {
                    pre.vals@[key_index(pre.keys@, k2)]
                }) by {
                    if k2 == key {
                        lemma_key_index_unique(ks, ks.len() - 1);
                    } else {
                        let x = key_index(pre.keys@, k2);
                        assert(pre.keys@[x] == k2);
                        assert(ks[x] == k2);
                        lemma_key_index_unique(ks, x);
                    }
                }
            }
        }
        v
    }
}

impl<V: Copy> Default for Cache<V> {
    fn default() -> (r: Self)
        ensures
            r.wf(),
            r@ == Map::<u64, V>::empty(),
    {
        Cache::new()
    }
}

} // verus!
