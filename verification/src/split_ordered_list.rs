//! Split-ordered map: a growing hash table over one sorted list.
//!
//! Keys are integers below `2^63`. Every real entry sits in the shared sorted
//! list under the transformed key `reverse_bits(key) | 1`; every logical
//! bucket `b`, once materialized, contributes a sentinel node under
//! `reverse_bits(b)`. Bit reversal makes "bucket `b` under a table of size
//! `2^s`" a prefix of the order, so doubling the bucket count never moves a
//! node: a new bucket's sentinel simply splits an old bucket's run of
//! entries. The growable array caches, per bucket, the sentinel key it was
//! materialized under, so operations can start their search at the bucket
//! rather than at an arbitrary point, and buckets are created lazily: a
//! bucket's sentinel is linked in relative to its parent bucket (the index
//! with the highest set bit cleared), recursively down to bucket 0, which is
//! created with the map.
//!
//! The map's view is the plain partial map from logical keys to values;
//! `insert` refuses duplicates and hands the value back, `delete` returns the
//! removed value.

use vstd::prelude::*;

verus! {

use crate::bits::{
    entry_key,
    entry_key_of,
    lemma_entry_key_injective,
    lemma_key_parity,
    lemma_parent_bucket,
    lemma_prefix_rev_le,
    lemma_sentinel_separation,
    lemma_top_bit_bounds,
    parent_bucket,
    parent_bucket_spec,
    sentinel_key,
    sentinel_key_of,
    top_bit,
    valid_key,
};
use crate::growable_array::GrowableArray;
use crate::list::{
    contains_key,
    index_of_key,
    lemma_contains_insert,
    lemma_contains_remove,
    lemma_num_entries_insert,
    lemma_num_entries_le_len,
    lemma_num_entries_remove,
    lemma_value_insert,
    lemma_value_of_key,
    lemma_value_remove,
    num_entries,
    value_of_key,
    List,
    Node,
};
use vstd::arithmetic::div_mod::{
    lemma_mod_division_less_than_divisor,
    lemma_mod_mod,
};
use vstd::arithmetic::power2::{
    lemma2_to64,
    lemma_pow2_adds,
    lemma_pow2_pos,
    lemma_pow2_strictly_increases,
    lemma_pow2_unfold,
    pow2,
};
use vstd::bits::{lemma_u64_low_bits_mask_is_mod, lemma_u64_pow2_no_overflow, low_bits_mask};

broadcast use lemma_mod_division_less_than_divisor, lemma_pow2_pos;

/// Sentinel key of bucket `b`, as a word.
pub open spec fn skey(b: u64) -> u64 {
    sentinel_key(b as nat) as u64
}

/// Transformed key of the entry for logical key `k`, as a word.
pub open spec fn ekey(k: u64) -> u64 {
    entry_key(k as nat) as u64
}

/// The bucket a key hashes to under `size` logical buckets.
pub open spec fn bucket_of(k: u64, size: u64) -> u64 {
    ((k as nat) % (size as nat)) as u64
}

/// Casting the two transformed keys to words loses nothing, and they keep
/// their parities: sentinel keys are even, entry keys odd.
proof fn lemma_fit(x: u64)
    requires
        (x as nat) < pow2(63),
    ensures
        skey(x) as nat == sentinel_key(x as nat),
        ekey(x) as nat == entry_key(x as nat),
        skey(x) % 2 == 0,
        ekey(x) % 2 == 1,
{
    lemma_key_parity(x as nat, x as nat);
    vstd::arithmetic::power2::lemma2_to64_rest();
}

/// The sentinel of any bucket made of a key's low bits sorts strictly before
/// the key's own entry.
proof fn lemma_skey_below_ekey(key: u64, a: u64, t: nat)
    requires
        valid_key(key),
        t <= 63,
        (a as nat) == (key as nat) % pow2(t),
    ensures
        (a as nat) < pow2(63),
        skey(a) < ekey(key),
        skey(a) % 2 == 0,
        ekey(key) % 2 == 1,
{
    assert((a as nat) < pow2(t));
    if t < 63 {
        lemma_pow2_strictly_increases(t, 63);
    }
    lemma_prefix_rev_le(key as nat, t);
    lemma_fit(a);
    lemma_fit(key);
}

/// A parent bucket's sentinel sorts strictly before its child's.
proof fn lemma_parent_skey(b: u64, p: u64)
    requires
        1 <= b,
        (b as nat) < pow2(63),
        (p as nat) == parent_bucket_spec(b as nat),
    ensures
        p < b,
        (p as nat) < pow2(63),
        skey(p) < skey(b),
{
    lemma_parent_bucket(b as nat);
    lemma_fit(b);
    lemma_fit(p);
}

/// Taking the parent of a low-bits prefix of `key` yields a shorter low-bits
/// prefix of `key`.
proof fn lemma_ancestor_step(key: u64, a: u64, p: u64, t: nat)
    requires
        t <= 63,
        (a as nat) == (key as nat) % pow2(t),
        a >= 1,
        (p as nat) == parent_bucket_spec(a as nat),
    ensures
        exists|t2: nat| t2 <= 63 && (p as nat) == (key as nat) % pow2(t2),
{
    let t2 = top_bit(a as nat);
    lemma_top_bit_bounds(a as nat);
    assert((a as nat) < pow2(t));
    assert(t2 < t) by {
        if t2 >= t {
            if t2 > t {
                lemma_pow2_strictly_increases(t, t2);
            }
            assert(pow2(t) <= pow2(t2) <= (a as nat));
        }
    }
    lemma_pow2_adds(t2, (t - t2) as nat);
    lemma_mod_mod(key as int, pow2(t2) as int, pow2((t - t2) as nat) as int);
    assert((p as nat) == (key as nat) % pow2(t2));
}

/// Entry keys of distinct valid keys differ, as words.
proof fn lemma_ekey_injective(k1: u64, k2: u64)
    requires
        valid_key(k1),
        valid_key(k2),
        ekey(k1) == ekey(k2),
    ensures
        k1 == k2,
{
    lemma_fit(k1);
    lemma_fit(k2);
    lemma_entry_key_injective(k1 as nat, k2 as nat);
}

/// Map from keys in `[0, 2^63)` to `V`, kept as one globally sorted list of
/// entries and bucket sentinels plus a growable bucket index.
#[derive(Debug)]
pub struct SplitOrderedList<V> {
    /// The shared list, sorted by transformed key.
    list: List<V>,
    /// Bucket number to the sentinel key it was materialized under.
    buckets: GrowableArray<u64>,
    /// Number of logical buckets; a power of two, only ever doubled.
    size: u64,
    /// Number of real entries.
    count: u64,
}

impl<V> SplitOrderedList<V> {
    /// `size` is doubled when `count` exceeds `size * LOAD_FACTOR`.
    pub const LOAD_FACTOR: u64 = 2;

    /// The nodes of the shared list, in list order: the ghost subject of the
    /// split-order invariant.
    pub closed spec fn spec_nodes(self) -> Seq<Node<V>> {
        self.list@
    }

    /// The current logical bucket count.
    pub closed spec fn spec_size(self) -> u64 {
        self.size
    }

    /// The number of real entries.
    pub closed spec fn spec_count(self) -> nat {
        num_entries(self.list@)
    }

    /// Bucket `b` has been materialized: its slot caches its sentinel key.
    pub closed spec fn bucket_initialized(self, b: u64) -> bool {
        self.buckets.spec_at(b as nat) == Some(skey(b))
    }

    /// Every cached slot holds exactly its bucket's sentinel key, for a
    /// bucket below the current size whose sentinel is linked into the list.
    spec fn slots_ok(self) -> bool {
        forall|b: u64|
            (#[trigger] self.buckets.spec_at(b as nat)) is Some ==> self.bucket_initialized(b) && b
                < self.size && contains_key(self.list@, skey(b))
    }

    /// Every node is either a sentinel of a materialized bucket (even key, no
    /// payload) or the entry of a valid logical key (odd key, with payload).
    spec fn node_ok(self, n: Node<V>) -> bool {
        if n.key % 2 == 0 {
            n.value is None && exists|b: u64| #[trigger] self.bucket_initialized(b) && n.key
                == skey(b)
        } else {
            n.value is Some && exists|k: u64| valid_key(k) && n.key == #[trigger] ekey(k)
        }
    }

    spec fn nodes_ok(self) -> bool {
        forall|i: int| 0 <= i < self.list@.len() ==> self.node_ok(#[trigger] self.list@[i])
    }

    /// The size is a power of two between 2 and 2^63.
    spec fn size_ok(self) -> bool {
        exists|s: nat| 1 <= s <= 63 && (self.size as nat) == pow2(s)
    }

    /// Well-formedness: the split-order invariant and its bookkeeping.
    pub closed spec fn wf(self) -> bool {
        &&& self.list.wf()
        &&& self.buckets.wf()
        &&& self.size_ok()
        &&& self.count as nat == num_entries(self.list@)
        &&& self.bucket_initialized(0)
        &&& self.slots_ok()
        &&& self.nodes_ok()
    }

    /// Whether logical key `k` has an entry in the list.
    pub closed spec fn spec_has(self, k: u64) -> bool {
        valid_key(k) && contains_key(self.list@, ekey(k))
    }

    /// Creates a new split ordered list: two logical buckets, bucket 0
    /// materialized with its sentinel pre-linked at the list head.
    pub fn new() -> (r: Self)
        ensures
            r.wf(),
            r@ == Map::<u64, V>::empty(),
            r.spec_count() == 0,
            r.spec_size() == 2,
    {
        let mut list: List<V> = List::new();
        list.insert_at(0, Node { key: 0, value: None });
        let mut buckets: GrowableArray<u64> = GrowableArray::new();
        buckets.set(0, 0);
        let r = SplitOrderedList { list, buckets, size: 2, count: 0 };
        proof {
            crate::bits::lemma_rev_zero(64);
            assert(skey(0) == 0);
            assert(r.bucket_initialized(0));
            lemma2_to64();
            assert((r.size as nat) == pow2(1));
            assert(r.size_ok());
            let s = r.list@;
            assert(s.len() == 1 && s[0].key == 0);
            assert(num_entries(s) == 0) by {
                assert(s.drop_last().len() == 0);
                assert(num_entries(s.drop_last()) == 0);
                assert(s.last().value is None);
            }
            assert forall|b: u64| (#[trigger] r.buckets.spec_at(b as nat)) is Some implies r
                .bucket_initialized(b) && b < r.size && contains_key(r.list@, skey(b)) by {
                assert(r.buckets.spec_at(b as nat) == if b as nat == 0nat {
                    Some(0u64)
                } else {
                    None::<u64>
                });
                assert(b == 0);
                assert(s[0].key == skey(0));
            }
            assert forall|i: int| 0 <= i < s.len() implies r.node_ok(#[trigger] s[i]) by {
                assert(s[i].key == 0);
                assert(r.bucket_initialized(0) && s[i].key == skey(0));
            }
            assert(r@ =~= Map::<u64, V>::empty()) by {
                assert forall|k: u64| !r.spec_has(k) by {
                    if contains_key(s, ekey(k)) {
                        let x = index_of_key(s, ekey(k));
                        assert(s[x].key == ekey(k));
                        if valid_key(k) {
                            lemma_fit(k);
                        }
                    }
                }
            }
        }
        r
    }

    /// The bucket `key` hashes to: its low bits under the current mask.
    fn bucket_index(&self, key: u64) -> (b: u64)
        requires
            self.wf(),
        ensures
            b == bucket_of(key, self.spec_size()),
            b < self.spec_size(),
            exists|s: nat| 1 <= s <= 63 && (b as nat) == (key as nat) % pow2(s) && (
            self.spec_size() as nat) == pow2(s),
    {
        proof {
            let s = choose|s: nat| 1 <= s <= 63 && (self.size as nat) == pow2(s);
            lemma_u64_pow2_no_overflow(s);
            assert((self.size - 1) as u64 == low_bits_mask(s) as u64);
            lemma_u64_low_bits_mask_is_mod(key, s);
        }
        key & (self.size - 1)
    }

    /// Position of the sentinel of a materialized bucket.
    fn find_sentinel(&self, b: u64) -> (pos: usize)
        requires
            self.wf(),
            self.bucket_initialized(b),
            b < self.spec_size(),
        ensures
            pos < self.list@.len(),
            self.list@[pos as int].key == skey(b),
    {
        proof {
            assert(self.buckets.spec_at(b as nat) is Some);
        }
        let k = sentinel_key_of(b);
        let (found, pos) = self.list.find_from(0, k);
        proof {
            assert(contains_key(self.list@, skey(b)));
            assert(k == skey(b));
        }
        pos
    }

    /// Creates a cursor on the bucket for `b`. If the bucket was never
    /// materialized, recursively materializes it: the parent bucket is
    /// located first, and the new sentinel is linked in relative to the
    /// parent's, then cached in the bucket index.
    fn lookup_bucket(&mut self, b: u64) -> (pos: usize)
        requires
            old(self).wf(),
            b < old(self).spec_size(),
        ensures
            final(self).wf(),
            final(self)@ == old(self)@,
            final(self).spec_size() == old(self).spec_size(),
            final(self).spec_count() == old(self).spec_count(),
            final(self).bucket_initialized(b),
            forall|b2: u64|
                old(self).bucket_initialized(b2) ==> final(self).bucket_initialized(b2),
            pos < final(self).list@.len(),
            final(self).list@[pos as int].key == skey(b),
        decreases b,
    {
        proof {
            let s = choose|s: nat| 1 <= s <= 63 && (old(self).size as nat) == pow2(s);
            if s < 63 {
                lemma_pow2_strictly_increases(s, 63);
            }
            assert((b as nat) < pow2(63));
        }
        if self.buckets.get(b).is_some() {
            proof {
                assert(self.buckets.spec_at(b as nat) is Some);
            }
            return self.find_sentinel(b);
        }
        // Bucket 0 is materialized at construction, so an unmaterialized
        // bucket has a parent.
        proof {
            assert(self.buckets.spec_at(0nat) is Some);
            assert(b != 0);
        }
        let p = parent_bucket(b);
        proof {
            lemma_parent_skey(b, p);
        }
        let ppos = self.lookup_bucket(p);
        let sk = sentinel_key_of(b);
        proof {
            lemma_fit(b);
            assert(sk == skey(b));
            assert forall|x: int| 0 <= x < ppos implies self.list@[x].key < sk by {
                assert(self.list@[x].key < self.list@[ppos as int].key);
            }
        }
        let (found, pos) = self.list.find_from(ppos, sk);
        let ghost pre = *self;
        if found {
            self.buckets.set(b, sk);
            proof {
                self.lemma_after_slot_set(pre, b);
            }
            return pos;
        }
        proof {
            assert forall|x: int| pos <= x < self.list@.len() implies self.list@[x].key > sk by {
                if x > pos {
                    assert(self.list@[pos as int].key < self.list@[x].key);
                }
            }
        }
        self.list.insert_at(pos, Node { key: sk, value: None });
        let ghost mid = *self;
        self.buckets.set(b, sk);
        proof {
            let s1 = pre.list@;
            let s2 = self.list@;
            let node = Node::<V> { key: sk, value: None };
            assert(s2 == s1.insert(pos as int, node));
            // The list grew by one sentinel: entry count and the key set of
            // entries are unchanged, so the view is unchanged.
            lemma_num_entries_insert(s1, pos as int, node);
            assert(self.count as nat == num_entries(s2));
            assert forall|b2: u64| (#[trigger] self.buckets.spec_at(b2 as nat)) is Some implies self
                .bucket_initialized(b2) && b2 < self.size && contains_key(s2, skey(b2)) by {
                lemma_contains_insert(s1, pos as int, node, skey(b2));
                if b2 != b {
                    assert(self.buckets.spec_at(b2 as nat) == pre.buckets.spec_at(b2 as nat));
                }
            }
            assert forall|i: int| 0 <= i < s2.len() implies self.node_ok(#[trigger] s2[i]) by {
                if i == pos as int {
                    assert(self.bucket_initialized(b) && s2[i].key == skey(b));
                } else {
                    let iold: int = if i < pos as int {
                        i
                    } else {
                        i - 1
                    };
                    assert(s2[i] == s1[iold]);
                    assert(pre.node_ok(s1[iold]));
                    self.lemma_node_ok_monotone(pre, s1[iold]);
                }
            }
            assert(self@ =~= pre@) by {
                assert forall|k2: u64| self.spec_has(k2) == pre.spec_has(k2) by {
                    if valid_key(k2) {
                        lemma_fit(k2);
                        lemma_contains_insert(s1, pos as int, node, ekey(k2));
                    }
                }
                assert forall|k2: u64| #[trigger] pre.spec_has(k2) implies self.map_value(k2)
                    == pre.map_value(k2) by {
                    lemma_fit(k2);
                    lemma_value_insert(s1, pos as int, node, ekey(k2));
                }
            }
        }
        pos
    }

    /// A node acceptable in one state is acceptable after more buckets were
    /// materialized; neither the size nor existing slots shrank.
    proof fn lemma_node_ok_monotone(self, pre: Self, n: Node<V>)
        requires
            pre.node_ok(n),
            pre.size <= self.size,
            forall|b2: u64| pre.bucket_initialized(b2) ==> self.bucket_initialized(b2),
        ensures
            self.node_ok(n),
    {
        if n.key % 2 == 0 {
            let b = choose|b: u64| #[trigger] pre.bucket_initialized(b) && n.key == skey(b);
            assert(self.bucket_initialized(b) && n.key == skey(b));
        }
    }

    /// Re-establishes well-formedness after caching a sentinel key that was
    /// already linked into an unchanged list.
    proof fn lemma_after_slot_set(self, pre: Self, b: u64)
        requires
            pre.wf(),
            b < pre.size,
            contains_key(pre.list@, skey(b)),
            self.list == pre.list,
            self.size == pre.size,
            self.count == pre.count,
            self.buckets.wf(),
            forall|j: nat|
                #[trigger] self.buckets.spec_at(j) == (if j == b as nat {
                    Some(skey(b))
                } else {
                    pre.buckets.spec_at(j)
                }),
        ensures
            self.wf(),
            self@ == pre@,
            self.bucket_initialized(b),
            forall|b2: u64| pre.bucket_initialized(b2) ==> self.bucket_initialized(b2),
    {
        assert(self.bucket_initialized(b));
        assert forall|b2: u64|
            (#[trigger] self.buckets.spec_at(b2 as nat)) is Some implies self.bucket_initialized(
            b2,
        ) && b2 < self.size && contains_key(self.list@, skey(b2)) by {
            if b2 as nat != b as nat {
                assert(self.buckets.spec_at(b2 as nat) == pre.buckets.spec_at(b2 as nat));
            }
        }
        assert forall|i: int| 0 <= i < self.list@.len() implies self.node_ok(
            #[trigger] self.list@[i],
        ) by {
            assert(pre.node_ok(pre.list@[i]));
            self.lemma_node_ok_monotone(pre, pre.list@[i]);
        }
        assert(self.bucket_initialized(0)) by {
            if b != 0 {
                assert(self.buckets.spec_at(0nat) == pre.buckets.spec_at(0nat));
            }
        }
        assert(self@ =~= pre@);
    }

    /// Moves a bucket cursor to the position of the given key: materializes
    /// the key's bucket and searches forward from its sentinel. Returns
    /// whether the key's entry exists, and the position of the first node
    /// with a key at least as large as the entry's.
    fn find(&mut self, key: u64) -> (r: (bool, usize))
        requires
            old(self).wf(),
            valid_key(key),
        ensures
            final(self).wf(),
            final(self)@ == old(self)@,
            final(self).spec_size() == old(self).spec_size(),
            final(self).spec_count() == old(self).spec_count(),
            r.1 <= final(self).list@.len(),
            forall|x: int| 0 <= x < r.1 ==> final(self).list@[x].key < ekey(key),
            r.1 < final(self).list@.len() ==> final(self).list@[r.1 as int].key >= ekey(key),
            r.0 <==> contains_key(final(self).list@, ekey(key)),
            r.0 <==> final(self).spec_has(key),
            r.0 ==> r.1 < final(self).list@.len() && final(self).list@[r.1 as int].key == ekey(
                key,
            ),
    {
        let b = self.bucket_index(key);
        let ghost s_exp = choose|s: nat|
            1 <= s <= 63 && (b as nat) == (key as nat) % pow2(s) && (self.size as nat) == pow2(s);
        let spos = self.lookup_bucket(b);
        let ek = entry_key_of(key);
        proof {
            lemma_skey_below_ekey(key, b, s_exp);
            assert(ek == ekey(key));
            assert forall|x: int| 0 <= x < spos implies self.list@[x].key < ek by {
                assert(self.list@[x].key < self.list@[spos as int].key);
            }
        }
        self.list.find_from(spos, ek)
    }

    /// The value stored under `k`, of a key the map has.
    spec fn map_value(self, k: u64) -> V {
        value_of_key(self.list@, ekey(k))->Some_0
    }

    /// Looks up a key. No side effects: the search starts from the nearest
    /// materialized ancestor of the key's bucket.
    pub fn lookup(&self, key: u64) -> (r: Option<&V>)
        requires
            self.wf(),
            valid_key(key),
        ensures
            (match r {
                Some(v) => self@.contains_key(key) && *v == self@[key],
                None => !self@.contains_key(key),
            }),
    {
        let b = self.bucket_index(key);
        let mut a = b;
        proof {
            let s = choose|s: nat|
                1 <= s <= 63 && (a as nat) == (key as nat) % pow2(s) && (self.size as nat) == pow2(
                    s,
                );
            assert(exists|t: nat| t <= 63 && (a as nat) == (key as nat) % pow2(t));
        }
        // Walk to the nearest materialized ancestor bucket; bucket 0 is
        // always materialized, so the walk ends.
        while self.buckets.get(a).is_none()
            invariant
                self.wf(),
                valid_key(key),
                exists|t: nat| t <= 63 && (a as nat) == (key as nat) % pow2(t),
            decreases a,
        {
            proof {
                assert(self.buckets.spec_at(a as nat) is None);
                assert(self.buckets.spec_at(0nat) is Some);
                assert(a != 0);
                let t = choose|t: nat| t <= 63 && (a as nat) == (key as nat) % pow2(t);
                if t < 63 {
                    lemma_pow2_strictly_increases(t, 63);
                }
                assert((a as nat) < pow2(63));
            }
            let p = parent_bucket(a);
            proof {
                let t = choose|t: nat| t <= 63 && (a as nat) == (key as nat) % pow2(t);
                lemma_ancestor_step(key, a, p, t);
            }
            a = p;
        }
        proof {
            assert(self.buckets.spec_at(a as nat) is Some);
        }
        let apos = self.find_sentinel(a);
        let ek = entry_key_of(key);
        proof {
            let t = choose|t: nat| t <= 63 && (a as nat) == (key as nat) % pow2(t);
            lemma_skey_below_ekey(key, a, t);
            assert(ek == ekey(key));
            assert forall|x: int| 0 <= x < apos implies self.list@[x].key < ek by {
                assert(self.list@[x].key < self.list@[apos as int].key);
            }
        }
        let (found, pos) = self.list.find_from(apos, ek);
        if found {
            let node = self.list.node_at(pos);
            proof {
                assert(self.node_ok(self.list@[pos as int]));
                lemma_fit(key);
                assert(self.list@[pos as int].value is Some);
                lemma_value_of_key(self.list@, pos as int);
                assert(self.spec_has(key));
            }
            node.value.as_ref()
        } else {
            proof {
                assert(!self.spec_has(key));
            }
            None
        }
    }

    /// Inserts an entry. Fails, handing the value back unconsumed, exactly
    /// when the key is already present; duplicate keys are rejected, not
    /// overwritten. After a successful insert the table doubles its logical
    /// bucket count if the entry count now exceeds `size * LOAD_FACTOR`.
    pub fn insert(&mut self, key: u64, value: V) -> (r: Result<(), V>)
        requires
            old(self).wf(),
            valid_key(key),
        ensures
            final(self).wf(),
            (match r {
                Ok(()) => {
                    &&& !old(self)@.contains_key(key)
                    &&& final(self)@ == old(self)@.insert(key, value)
                    &&& final(self).spec_count() == old(self).spec_count() + 1
                    &&& final(self).spec_size() as int == (if final(self).spec_count()
                        > Self::LOAD_FACTOR * old(self).spec_size() {
                        2 * old(self).spec_size() as int
                    } else {
                        old(self).spec_size() as int
                    })
                },
                Err(v) => {
                    &&& v == value
                    &&& old(self)@.contains_key(key)
                    &&& final(self)@ == old(self)@
                    &&& final(self).spec_count() == old(self).spec_count()
                    &&& final(self).spec_size() == old(self).spec_size()
                },
            }),
    {
        let (found, pos) = self.find(key);
        if found {
            return Err(value);
        }
        proof {
            assert forall|x: int| pos <= x < self.list@.len() implies self.list@[x].key > ekey(
                key,
            ) by {
                if x > pos {
                    assert(self.list@[pos as int].key < self.list@[x].key);
                }
            }
        }
        let ghost pre = *self;
        let ek = entry_key_of(key);
        proof {
            lemma_fit(key);
        }
        let node = Node { key: ek, value: Some(value) };
        self.list.insert_at(pos, node);
        let n = self.list.len();
        proof {
            lemma_num_entries_insert(pre.list@, pos as int, node);
            lemma_num_entries_le_len(self.list@);
            assert(num_entries(self.list@) == self.count + 1);
            assert(self.count + 1 <= n <= usize::MAX);
        }
        self.count = self.count + 1;
        // One advisory doubling attempt: `count > size * LOAD_FACTOR`,
        // phrased without overflowing the multiplication.
        if (self.count - 1) / Self::LOAD_FACTOR >= self.size {
            proof {
                lemma_num_entries_le_len(self.list@);
                assert(2 * self.size < u64::MAX) by {
                    assert(self.size <= (self.count - 1) / 2);
                }
            }
            self.size = self.size * 2;
        }
        proof {
            self.lemma_insert_restores(pre, *old(self), key, value, pos as int);
        }
        Ok(())
    }

    /// Re-establishes well-formedness and the view update after linking the
    /// entry node for `key` at `pos` and adjusting `count` and `size`.
    proof fn lemma_insert_restores(self, pre: Self, orig: Self, key: u64, value: V, pos: int)
        requires
            pre.wf(),
            valid_key(key),
            pre@ == orig@,
            pre.spec_count() == orig.spec_count(),
            pre.spec_size() == orig.spec_size(),
            !contains_key(pre.list@, ekey(key)),
            0 <= pos <= pre.list@.len(),
            self.list@ == pre.list@.insert(pos, Node { key: ekey(key), value: Some(value) }),
            self.list.wf(),
            self.buckets == pre.buckets,
            self.count as nat == pre.count as nat + 1,
            self.count as nat == num_entries(self.list@),
            (self.size == pre.size && !(self.count as nat > 2 * pre.size as nat)) || (self.size
                as nat == 2 * pre.size as nat && self.count as nat > 2 * pre.size as nat),
        ensures
            self.wf(),
            self@ == orig@.insert(key, value),
            self.spec_count() == orig.spec_count() + 1,
            self.spec_size() as nat == (if self.spec_count() > 2 * orig.spec_size() as nat {
                2 * orig.spec_size() as nat
            } else {
                orig.spec_size() as nat
            }),
    {
        let s1 = pre.list@;
        let s2 = self.list@;
        let node = Node::<V> { key: ekey(key), value: Some(value) };
        lemma_fit(key);
        // Size stays a power of two within range: a doubling only happens
        // while the size is below the entry count, which fits a word.
        assert(self.size_ok()) by {
            let s = choose|s: nat| 1 <= s <= 63 && (pre.size as nat) == pow2(s);
            if self.size != pre.size {
                lemma_pow2_unfold(s + 1);
                assert((self.size as nat) == pow2(s + 1));
                assert(s + 1 <= 63) by {
                    if s == 63 {
                        lemma_num_entries_le_len(s2);
                        assert(self.count as nat > 2 * pow2(63));
                        lemma2_to64();
                        vstd::arithmetic::power2::lemma2_to64_rest();
                        assert(self.count as nat >= pow2(64));
                    }
                }
            }
        }
        assert(self.slots_ok()) by {
            assert forall|b2: u64|
                (#[trigger] self.buckets.spec_at(b2 as nat)) is Some implies self
                .bucket_initialized(b2) && b2 < self.size && contains_key(s2, skey(b2)) by {
                lemma_contains_insert(s1, pos, node, skey(b2));
            }
        }
        assert(self.nodes_ok()) by {
            assert forall|i: int| 0 <= i < s2.len() implies self.node_ok(#[trigger] s2[i]) by {
                if i == pos {
                    assert(s2[i].key == ekey(key) && valid_key(key));
                } else {
                    let iold: int = if i < pos {
                        i
                    } else {
                        i - 1
                    };
                    assert(s2[i] == s1[iold]);
                    assert(pre.node_ok(s1[iold]));
                    self.lemma_node_ok_monotone(pre, s1[iold]);
                }
            }
        }
        assert(self.bucket_initialized(0)) by {
            assert(pre.bucket_initialized(0));
        }
        lemma_value_of_key(s2, pos);
        assert(self@ =~= orig@.insert(key, value)) by {
            assert forall|k2: u64|
                self.spec_has(k2) == (pre.spec_has(k2) || k2 == key) by {
                if valid_key(k2) {
                    lemma_fit(k2);
                    lemma_contains_insert(s1, pos, node, ekey(k2));
                    if ekey(k2) == ekey(key) {
                        lemma_ekey_injective(k2, key);
                    }
                }
            }
            assert forall|k2: u64| #[trigger] self.spec_has(k2) implies self.map_value(k2) == (if k2
                == key {
                value
            } else {
                pre.map_value(k2)
            }) by {
                lemma_fit(k2);
                if k2 == key {
                    assert(value_of_key(s2, ekey(key)) == Some(value));
                } else {
                    lemma_ekey_injective_contra(k2, key);
                    lemma_value_insert(s1, pos, node, ekey(k2));
                }
            }
        }
    }

    /// Deletes an entry, returning its value, or reports that the key is
    /// absent.
    pub fn delete(&mut self, key: u64) -> (r: Result<V, ()>)
        requires
            old(self).wf(),
            valid_key(key),
        ensures
            final(self).wf(),
            (match r {
                Ok(v) => {
                    &&& old(self)@.contains_key(key)
                    &&& v == old(self)@[key]
                    &&& final(self)@ == old(self)@.remove(key)
                    &&& final(self).spec_count() + 1 == old(self).spec_count()
                    &&& final(self).spec_size() == old(self).spec_size()
                },
                Err(()) => {
                    &&& !old(self)@.contains_key(key)
                    &&& final(self)@ == old(self)@
                    &&& final(self).spec_count() == old(self).spec_count()
                    &&& final(self).spec_size() == old(self).spec_size()
                },
            }),
    {
        let (found, pos) = self.find(key);
        if !found {
            return Err(());
        }
        let ghost pre = *self;
        proof {
            assert(self.node_ok(self.list@[pos as int]));
            lemma_fit(key);
            assert(self.list@[pos as int].value is Some);
            lemma_num_entries_remove(self.list@, pos as int);
            lemma_value_of_key(self.list@, pos as int);
        }
        let node = self.list.remove_at(pos);
        self.count = self.count - 1;
        proof {
            self.lemma_delete_restores(pre, key, pos as int);
        }
        match node.value {
            Some(v) => Ok(v),
            None => {
                proof {
                    assert(false);
                }
                Err(())
            },
        }
    }

    /// Re-establishes well-formedness and the view update after unlinking
    /// the entry node for `key` from `pos`.
    proof fn lemma_delete_restores(self, pre: Self, key: u64, pos: int)
        requires
            pre.wf(),
            valid_key(key),
            0 <= pos < pre.list@.len(),
            pre.list@[pos].key == ekey(key),
            self.list@ == pre.list@.remove(pos),
            self.list.wf(),
            self.buckets == pre.buckets,
            self.size == pre.size,
            self.count as nat + 1 == pre.count as nat,
        ensures
            self.wf(),
            self@ == pre@.remove(key),
            self.spec_count() + 1 == pre.spec_count(),
            pre@.contains_key(key),
            pre@[key] == pre.list@[pos].value->Some_0,
    {
        let s1 = pre.list@;
        let s2 = self.list@;
        lemma_fit(key);
        lemma_num_entries_remove(s1, pos);
        assert(pre.node_ok(s1[pos]));
        assert(s1[pos].value is Some);
        assert(self.count as nat == num_entries(s2));
        assert(self.slots_ok()) by {
            assert forall|b2: u64|
                (#[trigger] self.buckets.spec_at(b2 as nat)) is Some implies self
                .bucket_initialized(b2) && b2 < self.size && contains_key(s2, skey(b2)) by {
                let sl = choose|sl: nat| 1 <= sl <= 63 && (pre.size as nat) == pow2(sl);
                if sl < 63 {
                    lemma_pow2_strictly_increases(sl, 63);
                }
                assert((b2 as nat) < pow2(63));
                lemma_fit(b2);
                lemma_contains_remove(s1, pos, skey(b2));
            }
        }
        assert(self.nodes_ok()) by {
            assert forall|i: int| 0 <= i < s2.len() implies self.node_ok(#[trigger] s2[i]) by {
                let iold: int = if i < pos {
                    i
                } else {
                    i + 1
                };
                assert(s2[i] == s1[iold]);
                assert(pre.node_ok(s1[iold]));
                self.lemma_node_ok_monotone(pre, s1[iold]);
            }
        }
        lemma_value_of_key(s1, pos);
        assert(pre.spec_has(key));
        assert(pre@[key] == s1[pos].value->Some_0);
        assert(self@ =~= pre@.remove(key)) by {
            assert forall|k2: u64|
                self.spec_has(k2) == (pre.spec_has(k2) && k2 != key) by {
                if valid_key(k2) {
                    lemma_fit(k2);
                    lemma_contains_remove(s1, pos, ekey(k2));
                    if ekey(k2) == ekey(key) {
                        lemma_ekey_injective(k2, key);
                    }
                    if k2 == key {
                        assert(s1[pos].key == ekey(k2));
                    }
                }
            }
            assert forall|k2: u64| #[trigger] self.spec_has(k2) implies self.map_value(k2)
                == pre.map_value(k2) by {
                lemma_fit(k2);
                lemma_ekey_injective_contra(k2, key);
                lemma_value_remove(s1, pos, ekey(k2));
            }
        }
    }

    /// Current logical bucket count.
    pub fn size(&self) -> (r: u64)
        ensures
            r == self.spec_size(),
    {
        self.size
    }

    /// Current number of entries.
    pub fn count(&self) -> (r: u64)
        requires
            self.wf(),
        ensures
            r as nat == self.spec_count(),
    {
        self.count
    }
}

/// Distinct valid keys keep distinct entry keys; the contrapositive form the
/// view proofs need.
proof fn lemma_ekey_injective_contra(k1: u64, k2: u64)
    requires
        valid_key(k1),
        valid_key(k2),
        k1 != k2,
    ensures
        ekey(k1) != ekey(k2),
{
    if ekey(k1) == ekey(k2) {
        lemma_ekey_injective(k1, k2);
    }
}

impl<V> View for SplitOrderedList<V> {
    type V = Map<u64, V>;

    /// The map the table represents: every real entry's logical key, mapped
    /// to its value.
    closed spec fn view(&self) -> Map<u64, V> {
        Map::new(|k: u64| self.spec_has(k), |k: u64| self.map_value(k))
    }
}

impl<V> Default for SplitOrderedList<V> {
    fn default() -> (r: Self)
        ensures
            r.wf(),
            r@ == Map::<u64, V>::empty(),
            r.spec_count() == 0,
            r.spec_size() == 2,
    {
        SplitOrderedList::new()
    }
}

/// The split-order invariant, positionally: for a real entry at `i` with
/// logical key `k`, and any sentinel at `j`, the sentinel key either is the
/// sentinel of `k`'s own bucket, or lies strictly below it, or strictly above
/// the entry's key. Together with sortedness this says every entry sits
/// between its bucket's sentinel and the next sentinel present in the list.
pub proof fn lemma_split_order_invariant<V>(m: &SplitOrderedList<V>, i: int, j: int, k: u64)
    requires
        m.wf(),
        0 <= i < m.spec_nodes().len(),
        0 <= j < m.spec_nodes().len(),
        valid_key(k),
        m.spec_nodes()[i].key == ekey(k),
        m.spec_nodes()[j].key % 2 == 0,
    ensures
        skey(bucket_of(k, m.spec_size())) < ekey(k),
        m.spec_nodes()[j].key == skey(bucket_of(k, m.spec_size())) || m.spec_nodes()[j].key < skey(
            bucket_of(k, m.spec_size()),
        ) || m.spec_nodes()[j].key > ekey(k),
{
    let size = m.spec_size();
    let s = choose|s: nat| 1 <= s <= 63 && (size as nat) == pow2(s);
    let b = bucket_of(k, size);
    assert((b as nat) == (k as nat) % pow2(s));
    lemma_skey_below_ekey(k, b, s);
    assert(m.node_ok(m.spec_nodes()[j]));
    let b2 = choose|b2: u64| #[trigger] m.bucket_initialized(b2) && m.spec_nodes()[j].key == skey(
        b2,
    );
    assert(m.buckets.spec_at(b2 as nat) is Some);
    assert(b2 < size);
    if b2 != b {
        lemma_sentinel_separation(k as nat, s, b2 as nat);
        if s < 63 {
            lemma_pow2_strictly_increases(s, 63);
        }
        lemma_fit(b2);
        lemma_fit(b);
        lemma_fit(k);
    }
}

/// Round trip: after inserting `k`, a lookup yields the inserted value, a
/// delete removes exactly `k`, and a subsequent lookup yields nothing. Stated
/// over the map view that `insert`, `lookup` and `delete` are specified
/// against.
pub proof fn lemma_round_trip<V>(m: Map<u64, V>, k: u64, v: V)
    ensures
        m.insert(k, v).contains_key(k),
        m.insert(k, v)[k] == v,
        !m.insert(k, v).remove(k).contains_key(k),
{
}

/// Inserting one key never disturbs another: the growth policy (bucket
/// doubling included) is invisible to lookups of other keys.
pub proof fn lemma_insert_preserves_others<V>(m: Map<u64, V>, k: u64, v: V, k2: u64)
    requires
        k2 != k,
    ensures
        m.insert(k, v).contains_key(k2) == m.contains_key(k2),
        m.contains_key(k2) ==> m.insert(k, v)[k2] == m[k2],
{
}

/// Operations on distinct keys impose no order on each other: inserts of two
/// different keys commute on the map view, and so do an insert and a delete.
pub proof fn lemma_disjoint_keys_commute<V>(m: Map<u64, V>, k1: u64, v1: V, k2: u64, v2: V)
    requires
        k1 != k2,
    ensures
        m.insert(k1, v1).insert(k2, v2) == m.insert(k2, v2).insert(k1, v1),
        m.insert(k1, v1).remove(k2) == m.remove(k2).insert(k1, v1),
{
    assert(m.insert(k1, v1).insert(k2, v2) =~= m.insert(k2, v2).insert(k1, v1));
    assert(m.insert(k1, v1).remove(k2) =~= m.remove(k2).insert(k1, v1));
}

} // verus!
