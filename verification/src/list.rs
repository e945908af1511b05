//! The sorted list that backs the split-ordered map.
//!
//! One global list holds every node — real entries and bucket sentinels — in
//! strictly increasing key order. The map layer hands this module transformed
//! (bit-reversed) keys and positions to start searching from; this module
//! knows nothing about hashing or buckets. Its interface mirrors the classic
//! sorted-list primitive: position a cursor on the first node with a key at
//! least as large as the search key, insert at a cursor, delete at a cursor.

use vstd::prelude::*;

verus! {

/// One node of the list: a sentinel (`value` is `None`) or a real entry.
#[derive(Debug)]
pub struct Node<V> {
    pub key: u64,
    pub value: Option<V>,
}

/// A list of nodes sorted by strictly increasing key.
#[derive(Debug)]
pub struct List<V> {
    nodes: Vec<Node<V>>,
}

/// Strictly increasing keys: the list order is the key order, and no key
/// occurs twice.
pub open spec fn sorted<V>(s: Seq<Node<V>>) -> bool {
    forall|a: int, b: int| 0 <= a < b < s.len() ==> s[a].key < s[b].key
}

/// Whether some node carries `key`.
pub open spec fn contains_key<V>(s: Seq<Node<V>>, key: u64) -> bool {
    exists|x: int| 0 <= x < s.len() && s[x].key == key
}

/// The index of the node carrying `key` (unique in a sorted list).
pub open spec fn index_of_key<V>(s: Seq<Node<V>>, key: u64) -> int {
    choose|x: int| 0 <= x < s.len() && s[x].key == key
}

/// The payload of the node carrying `key`.
pub open spec fn value_of_key<V>(s: Seq<Node<V>>, key: u64) -> Option<V> {
    s[index_of_key(s, key)].value
}

/// In a sorted list a key appears at one index only.
pub proof fn lemma_key_unique<V>(s: Seq<Node<V>>, i: int, j: int)
    requires
        sorted(s),
        0 <= i < s.len(),
        0 <= j < s.len(),
        s[i].key == s[j].key,
    ensures
        i == j,
{
    if i < j {
        assert(s[i].key < s[j].key);
    }
    if j < i {
        assert(s[j].key < s[i].key);
    }
}

/// Inserting a node adds exactly its key to the key set.
pub proof fn lemma_contains_insert<V>(s: Seq<Node<V>>, p: int, node: Node<V>, key: u64)
    requires
        0 <= p <= s.len(),
    ensures
        contains_key(s.insert(p, node), key) <==> (contains_key(s, key) || node.key == key),
{
    let t = s.insert(p, node);
    if contains_key(t, key) {
        let x = choose|x: int| 0 <= x < t.len() && t[x].key == key;
        if x < p {
            assert(s[x].key == key);
        } else if x == p {
            assert(node.key == key);
        } else {
            assert(s[x - 1].key == key);
        }
    }
    if node.key == key {
        assert(t[p].key == key);
    }
    if contains_key(s, key) {
        let x = choose|x: int| 0 <= x < s.len() && s[x].key == key;
        if x < p {
            assert(t[x].key == key);
        } else {
            assert(t[x + 1].key == key);
        }
    }
}

/// Removing the node at `p` removes exactly its key from the key set of a
/// sorted list.
pub proof fn lemma_contains_remove<V>(s: Seq<Node<V>>, p: int, key: u64)
    requires
        sorted(s),
        0 <= p < s.len(),
    ensures
        contains_key(s.remove(p), key) <==> (contains_key(s, key) && s[p].key != key),
{
    let t = s.remove(p);
    if contains_key(t, key) {
        let x = choose|x: int| 0 <= x < t.len() && t[x].key == key;
        if x < p {
            assert(s[x].key == key);
            if s[p].key == key {
                lemma_key_unique(s, x, p);
            }
        } else {
            assert(s[x + 1].key == key);
            if s[p].key == key {
                lemma_key_unique(s, x + 1, p);
            }
        }
        assert(contains_key(s, key) && s[p].key != key);
    }
    if contains_key(s, key) && s[p].key != key {
        let x = choose|x: int| 0 <= x < s.len() && s[x].key == key;
        if x < p {
            assert(t[x].key == key);
        } else {
            assert(t[x - 1].key == key);
        }
    }
}

/// The value found under a key is the value of any node that carries it.
pub proof fn lemma_value_of_key<V>(s: Seq<Node<V>>, i: int)
    requires
        sorted(s),
        0 <= i < s.len(),
    ensures
        value_of_key(s, s[i].key) == s[i].value,
        index_of_key(s, s[i].key) == i,
{
    let key = s[i].key;
    assert(contains_key(s, key));
    let x = index_of_key(s, key);
    assert(0 <= x < s.len() && s[x].key == key);
    lemma_key_unique(s, x, i);
}

/// Inserting elsewhere does not change the value found under a key.
pub proof fn lemma_value_insert<V>(s: Seq<Node<V>>, p: int, node: Node<V>, key: u64)
    requires
        sorted(s),
        sorted(s.insert(p, node)),
        0 <= p <= s.len(),
        node.key != key,
        contains_key(s, key),
    ensures
        contains_key(s.insert(p, node), key),
        value_of_key(s.insert(p, node), key) == value_of_key(s, key),
{
    let t = s.insert(p, node);
    let x = index_of_key(s, key);
    assert(0 <= x < s.len() && s[x].key == key);
    lemma_value_of_key(s, x);
    let x2: int = if x < p {
        x
    } else {
        x + 1
    };
    assert(t[x2] == s[x]);
    lemma_value_of_key(t, x2);
}

/// Removing another node does not change the value found under a key.
pub proof fn lemma_value_remove<V>(s: Seq<Node<V>>, p: int, key: u64)
    requires
        sorted(s),
        0 <= p < s.len(),
        s[p].key != key,
        contains_key(s, key),
    ensures
        contains_key(s.remove(p), key),
        value_of_key(s.remove(p), key) == value_of_key(s, key),
{
    let t = s.remove(p);
    assert(sorted(t)) by {
        assert forall|a: int, b: int| 0 <= a < b < t.len() implies t[a].key < t[b].key by {
            if b < p {
            } else if a >= p {
                assert(t[a] == s[a + 1] && t[b] == s[b + 1]);
            } else {
                assert(t[a] == s[a] && t[b] == s[b + 1]);
            }
        }
    }
    let x = index_of_key(s, key);
    assert(0 <= x < s.len() && s[x].key == key);
    lemma_value_of_key(s, x);
    let x2: int = if x < p {
        x
    } else {
        x - 1
    };
    assert(t[x2] == s[x]);
    lemma_value_of_key(t, x2);
}

/// Number of real entries (nodes carrying a payload) in a list.
pub open spec fn num_entries<V>(s: Seq<Node<V>>) -> nat
    decreases s.len(),
{
    if s.len() == 0 {
        0
    } else {
        num_entries(s.drop_last()) + (if s.last().value is Some {
            1nat
        } else {
            0nat
        })
    }
}

pub proof fn lemma_num_entries_le_len<V>(s: Seq<Node<V>>)
    ensures
        num_entries(s) <= s.len(),
    decreases s.len(),
{
    if s.len() > 0 {
        lemma_num_entries_le_len(s.drop_last());
    }
}

pub proof fn lemma_num_entries_insert<V>(s: Seq<Node<V>>, p: int, node: Node<V>)
    requires
        0 <= p <= s.len(),
    ensures
        num_entries(s.insert(p, node)) == num_entries(s) + (if node.value is Some {
            1nat
        } else {
            0nat
        }),
    decreases s.len(),
{
    let t = s.insert(p, node);
    if p == s.len() {
        assert(t.drop_last() =~= s);
        assert(t.last() == node);
    } else {
        assert(t.last() == s.last());
        assert(t.drop_last() =~= s.drop_last().insert(p, node));
        lemma_num_entries_insert(s.drop_last(), p, node);
    }
}

pub proof fn lemma_num_entries_remove<V>(s: Seq<Node<V>>, p: int)
    requires
        0 <= p < s.len(),
    ensures
        num_entries(s) == num_entries(s.remove(p)) + (if s[p].value is Some {
            1nat
        } else {
            0nat
        }),
    decreases s.len(),
{
    let t = s.remove(p);
    if p == s.len() - 1 {
        assert(t =~= s.drop_last());
        assert(s.last() == s[p]);
    } else {
        assert(t.last() == s.last());
        assert(t.drop_last() =~= s.drop_last().remove(p));
        lemma_num_entries_remove(s.drop_last(), p);
    }
}

impl<V> View for List<V> {
    type V = Seq<Node<V>>;

    closed spec fn view(&self) -> Seq<Node<V>> {
        self.nodes@
    }
}

impl<V> List<V> {
    pub open spec fn wf(self) -> bool {
        sorted(self@)
    }

    /// A new, empty list.
    pub fn new() -> (r: Self)
        ensures
            r.wf(),
            r@ == Seq::<Node<V>>::empty(),
    {
        List { nodes: Vec::new() }
    }

    pub fn len(&self) -> (r: usize)
        ensures
            r == self@.len(),
    {
        self.nodes.len()
    }

    /// The node at a cursor position.
    pub fn node_at(&self, pos: usize) -> (r: &Node<V>)
        requires
            pos < self@.len(),
        ensures
            *r == self@[pos as int],
    {
        &self.nodes[pos]
    }

    /// The ordered find of the list primitive: starting from `start` (all
    /// earlier nodes are known to have smaller keys), advance to the first
    /// node whose key is at least `key`. Returns whether an exact match was
    /// found, and the final position.
    pub fn find_from(&self, start: usize, key: u64) -> (r: (bool, usize))
        requires
            self.wf(),
            start <= self@.len(),
            forall|x: int| 0 <= x < start ==> self@[x].key < key,
        ensures
            start <= r.1 <= self@.len(),
            forall|x: int| 0 <= x < r.1 ==> self@[x].key < key,
            r.1 < self@.len() ==> self@[r.1 as int].key >= key,
            r.0 <==> contains_key(self@, key),
            r.0 ==> r.1 < self@.len() && self@[r.1 as int].key == key,
    {
        let mut pos = start;
        while pos < self.nodes.len() && self.nodes[pos].key < key
            invariant
                start <= pos <= self@.len(),
                forall|x: int| 0 <= x < pos ==> self@[x].key < key,
            decreases self@.len() - pos,
        {
            pos = pos + 1;
        }
        let found = pos < self.nodes.len() && self.nodes[pos].key == key;
        proof {
            if found {
                assert(contains_key(self@, key));
            } else {
                if contains_key(self@, key) {
                    let x = index_of_key(self@, key);
                    assert(0 <= x < self@.len() && self@[x].key == key);
                    assert(x >= pos);
                    if x > pos {
                        assert(self@[pos as int].key < self@[x].key);
                    }
                }
            }
        }
        (found, pos)
    }

    /// The ordered insert of the list primitive: link a node at a cursor
    /// whose neighbours bracket the node's key.
    pub fn insert_at(&mut self, pos: usize, node: Node<V>)
        requires
            old(self).wf(),
            pos <= old(self)@.len(),
            forall|x: int| 0 <= x < pos ==> old(self)@[x].key < node.key,
            forall|x: int| pos <= x < old(self)@.len() ==> old(self)@[x].key > node.key,
        ensures
            final(self).wf(),
            final(self)@ == old(self)@.insert(pos as int, node),
    {
        self.nodes.insert(pos, node);
        proof {
            let s = self@;
            assert forall|a: int, b: int| 0 <= a < b < s.len() implies s[a].key < s[b].key by {
                if b < pos {
                } else if a > pos {
                } else if a == pos {
                    assert(s[b] == old(self)@[b - 1]);
                } else if b == pos {
                    assert(s[a] == old(self)@[a]);
                } else {
                    assert(s[a] == old(self)@[a] && s[b] == old(self)@[b - 1]);
                }
            }
        }
    }

    /// The delete of the list primitive: unlink the node at the cursor and
    /// hand its payload to the caller.
    pub fn remove_at(&mut self, pos: usize) -> (r: Node<V>)
        requires
            old(self).wf(),
            pos < old(self)@.len(),
        ensures
            final(self).wf(),
            r == old(self)@[pos as int],
            final(self)@ == old(self)@.remove(pos as int),
    {
        let r = self.nodes.remove(pos);
        proof {
            let s = self@;
            assert forall|a: int, b: int| 0 <= a < b < s.len() implies s[a].key < s[b].key by {
                if b < pos {
                } else if a >= pos {
                    assert(s[a] == old(self)@[a + 1] && s[b] == old(self)@[b + 1]);
                } else {
                    assert(s[a] == old(self)@[a] && s[b] == old(self)@[b + 1]);
                }
            }
        }
        r
    }
}

} // verus!
