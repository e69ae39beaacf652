//! An insertion-ordered map from node ids to values.
//!
//! Iteration order is insertion order; inserting over an existing key keeps
//! its position.  The mod registry of the arena is kept in one of these.

use vstd::prelude::*;

verus! {

/// Index of the first entry with key `k`, or `-1` when no entry has it.
pub open spec fn key_index<V>(es: Seq<(u32, V)>, k: u32) -> int
    decreases es.len(),
{
    if es.len() == 0 {
        -1
    } else if es[0].0 == k {
        0
    } else {
        let r = key_index(es.drop_first(), k);
        if r < 0 {
            -1
        } else {
            r + 1
        }
    }
}

/// Whether some entry has key `k`.
pub open spec fn has_key<V>(es: Seq<(u32, V)>, k: u32) -> bool {
    key_index(es, k) >= 0
}

/// The value at key `k`, when present.
pub open spec fn key_lookup<V>(es: Seq<(u32, V)>, k: u32) -> Option<V> {
    if has_key(es, k) {
        Some(es[key_index(es, k)].1)
    } else {
        None
    }
}

/// Entries after an insertion-ordered insert.
pub open spec fn key_insert<V>(es: Seq<(u32, V)>, k: u32, v: V) -> Seq<(u32, V)> {
    if has_key(es, k) {
        es.update(key_index(es, k), (k, v))
    } else {
        es.push((k, v))
    }
}

/// `key_index` lands on an entry with the looked-up key.
pub proof fn lemma_key_index<V>(es: Seq<(u32, V)>, k: u32)
    ensures
        key_index(es, k) >= 0 ==> key_index(es, k) < es.len() && es[key_index(es, k)].0 == k,
        key_index(es, k) == -1 ==> forall|i: int| 0 <= i < es.len() ==> es[i].0 != k,
        key_index(es, k) >= -1,
        forall|i: int| 0 <= i < key_index(es, k) ==> es[i].0 != k,
    decreases es.len(),
{
    if es.len() > 0 && es[0].0 != k {
        lemma_key_index(es.drop_first(), k);
        if key_index(es, k) == -1 {
            assert forall|i: int| 0 <= i < es.len() implies es[i].0 != k by {
                if i >= 1 {
                    assert(es[i] == es.drop_first()[i - 1]);
                }
            }
        } else {
            assert forall|i: int| 0 <= i < key_index(es, k) implies es[i].0 != k by {
                if i >= 1 {
                    assert(es[i] == es.drop_first()[i - 1]);
                }
            }
        }
    }
}

/// Keys are pairwise distinct.
pub open spec fn keys_unique<V>(es: Seq<(u32, V)>) -> bool {
    forall|a: int, b: int| 0 <= a < b < es.len() ==> es[a].0 != es[b].0
}

/// An insertion-ordered map with `u32` keys.
pub struct IndexedOrderedMap<V> {
    entries: Vec<(u32, V)>,
}

impl<V> View for IndexedOrderedMap<V> {
    type V = Seq<(u32, V)>;

    closed spec fn view(&self) -> Seq<(u32, V)> {
        self.entries@
    }
}

impl<V> IndexedOrderedMap<V> {
    /// Keys are pairwise distinct; every map built by these methods keeps this.
    pub open spec fn wf(&self) -> bool {
        keys_unique(self@)
    }

    /// An empty map.
    pub fn new() -> (r: Self)
        ensures
            r@ =~= Seq::<(u32, V)>::empty(),
            r.wf(),
    {
        IndexedOrderedMap { entries: Vec::new() }
    }

    /// Number of entries.
    pub fn len(&self) -> (r: usize)
        ensures
            r == self@.len(),
    {
        self.entries.len()
    }

    /// Whether the map has no entries.
    pub fn is_empty(&self) -> (r: bool)
        ensures
            r == (self@.len() == 0),
    {
        self.entries.len() == 0
    }

    /// Drop every entry.
    pub fn clear(&mut self)
        ensures
            final(self)@ =~= Seq::<(u32, V)>::empty(),
            final(self).wf(),
    {
        self.entries.clear();
    }

    /// Position of `k` among the entries, if present.
    fn find(&self, k: u32) -> (r: Option<usize>)
        ensures
            r matches Some(i) ==> i == key_index(self@, k) && i < self@.len() && self@[i as int].0
                == k,
            r is None ==> key_index(self@, k) == -1,
    {
        let mut i: usize = 0;
        while i < self.entries.len()
            invariant
                i <= self.entries.len(),
                forall|j: int| 0 <= j < i ==> self.entries@[j].0 != k,
            decreases self.entries.len() - i,
        {
            if self.entries[i].0 == k {
                proof {
                    lemma_key_index(self@, k);
                }
                return Some(i);
            }
            i = i + 1;
        }
        proof {
            lemma_key_index(self@, k);
        }
        None
    }

    /// Whether the map stores a value for `k`.
    pub fn contains_key(&self, k: u32) -> (r: bool)
        ensures
            r == has_key(self@, k),
    {
        self.find(k).is_some()
    }

    /// The value stored for `k`, if any.
    pub fn get(&self, k: u32) -> (r: Option<&V>)
        ensures
            r matches Some(v) ==> key_lookup(self@, k) == Some(*v),
            r is None ==> !has_key(self@, k),
    {
        match self.find(k) {
            Some(i) => Some(&self.entries[i].1),
            None => None,
        }
    }

    /// Insert `v` for `k`: an existing key keeps its position and takes the
    /// new value; a new key goes last.
    pub fn insert(&mut self, k: u32, v: V)
        ensures
            final(self)@ == key_insert(old(self)@, k, v),
            old(self).wf() ==> final(self).wf(),
    {
        proof {
            lemma_key_index(self@, k);
        }
        match self.find(k) {
            Some(i) => {
                self.entries.remove(i);
                self.entries.insert(i, (k, v));
                proof {
                    assert(self.entries@ =~= old(self)@.update(key_index(old(self)@, k), (k, v)));
                }
            },
            None => {
                self.entries.push((k, v));
            },
        }
    }

    /// Remove `k`, keeping the order of the other entries.
    pub fn shift_remove(&mut self, k: u32) -> (r: Option<V>)
        ensures
            !has_key(old(self)@, k) ==> final(self)@ == old(self)@ && r is None,
            has_key(old(self)@, k) ==> final(self)@ == old(self)@.remove(key_index(old(self)@, k))
                && (r matches Some(v) && Some(v) == key_lookup(old(self)@, k)),
            old(self).wf() ==> final(self).wf(),
    {
        match self.find(k) {
            Some(i) => {
                let (_, v) = self.entries.remove(i);
                Some(v)
            },
            None => None,
        }
    }

    /// The first entry in order, when the map is not empty.
    pub fn first(&self) -> (r: Option<&(u32, V)>)
        ensures
            self@.len() == 0 ==> r is None,
            self@.len() > 0 ==> (r matches Some(e) && *e == self@[0]),
    {
        if self.entries.len() == 0 {
            None
        } else {
            Some(&self.entries[0])
        }
    }

    /// The last entry in order, when the map is not empty.
    pub fn last(&self) -> (r: Option<&(u32, V)>)
        ensures
            self@.len() == 0 ==> r is None,
            self@.len() > 0 ==> (r matches Some(e) && *e == self@[self@.len() - 1]),
    {
        if self.entries.len() == 0 {
            None
        } else {
            Some(&self.entries[self.entries.len() - 1])
        }
    }

    /// The entries in order.
    pub fn entries(&self) -> (r: &Vec<(u32, V)>)
        ensures
            r@ == self@,
    {
        &self.entries
    }
}

} // verus!
