//! Trusted interface to `indexmap`'s insertion-ordered map.
//!
//! The tree keeps each node's children in an `indexmap::IndexMap`, whose
//! iteration order is insertion order and whose `insert` keeps the position of
//! an existing key.  The contents of such a map are named by uninterpreted
//! spec functions; the wrappers below state, over those names, what the
//! crate's own documentation and source promise of each call.

use vstd::prelude::*;

verus! {

#[verifier::external_type_specification]
#[verifier::external_body]
#[verifier::reject_recursive_types(K)]
#[verifier::reject_recursive_types(V)]
#[verifier::reject_recursive_types(S)]
pub struct ExIndexMap<K, V, S>(indexmap::IndexMap<K, V, S>);

/// What a children map holds: its key/value pairs in iteration order.
pub uninterp spec fn child_entries(m: indexmap::IndexMap<String, u32>) -> Seq<(Seq<char>, u32)>;

/// What a name index holds: each name mapped to the node ids recorded for it.
pub uninterp spec fn name_index(m: indexmap::IndexMap<String, Vec<u32>>) -> Map<
    Seq<char>,
    Seq<u32>,
>;

/// Index of the first entry with key `k`, or `-1` when no entry has it.
pub open spec fn entry_index(es: Seq<(Seq<char>, u32)>, k: Seq<char>) -> int
    decreases es.len(),
{
    if es.len() == 0 {
        -1
    } else if es[0].0 == k {
        0
    } else {
        let r = entry_index(es.drop_first(), k);
        if r < 0 {
            -1
        } else {
            r + 1
        }
    }
}

/// Whether some entry has key `k`.
pub open spec fn has_entry(es: Seq<(Seq<char>, u32)>, k: Seq<char>) -> bool {
    entry_index(es, k) >= 0
}

/// The value at key `k`, when present.
pub open spec fn entry_lookup(es: Seq<(Seq<char>, u32)>, k: Seq<char>) -> Option<u32> {
    if has_entry(es, k) {
        Some(es[entry_index(es, k)].1)
    } else {
        None
    }
}

/// Entries after an insertion-ordered insert: an existing key keeps its
/// position and takes the new value; a new key is appended.
pub open spec fn entry_insert(es: Seq<(Seq<char>, u32)>, k: Seq<char>, v: u32) -> Seq<
    (Seq<char>, u32),
> {
    if has_entry(es, k) {
        es.update(entry_index(es, k), (k, v))
    } else {
        es.push((k, v))
    }
}

/// `entry_index` lands on an entry with the looked-up key.
pub proof fn lemma_entry_index(es: Seq<(Seq<char>, u32)>, k: Seq<char>)
    ensures
        entry_index(es, k) >= 0 ==> {
            &&& entry_index(es, k) < es.len()
            &&& es[entry_index(es, k)].0 == k
        },
        entry_index(es, k) == -1 ==> forall|i: int| 0 <= i < es.len() ==> es[i].0 != k,
        entry_index(es, k) >= -1,
    decreases es.len(),
{
    if es.len() > 0 && es[0].0 != k {
        lemma_entry_index(es.drop_first(), k);
        if entry_index(es, k) == -1 {
            assert forall|i: int| 0 <= i < es.len() implies es[i].0 != k by {
                if i >= 1 {
                    assert(es[i] == es.drop_first()[i - 1]);
                }
            }
        }
    }
}

/// Inserting at one key leaves every other key's lookup unchanged, and the
/// inserted key maps to the new value.
pub proof fn lemma_entry_insert_lookup(es: Seq<(Seq<char>, u32)>, k: Seq<char>, v: u32)
    requires
        forall|a: int, b: int| 0 <= a < b < es.len() ==> es[a].0 != es[b].0,
    ensures
        entry_lookup(entry_insert(es, k, v), k) == Some(v),
        forall|k2: Seq<char>|
            k2 != k ==> entry_lookup(entry_insert(es, k, v), k2) == entry_lookup(es, k2),
        forall|a: int, b: int|
            0 <= a < b < entry_insert(es, k, v).len() ==> entry_insert(es, k, v)[a].0
                != entry_insert(es, k, v)[b].0,
{
    lemma_entry_index(es, k);
    let es2 = entry_insert(es, k, v);
    assert forall|k2: Seq<char>| k2 != k implies entry_lookup(es2, k2) == entry_lookup(es, k2) by {
        lemma_entry_index(es, k2);
        lemma_entry_index(es2, k2);
        if entry_index(es, k2) >= 0 {
            let i2 = entry_index(es, k2);
            assert(es2[i2].0 == k2);
            lemma_entry_index_of_member(es2, k2, i2);
        } else {
            if entry_index(es2, k2) >= 0 {
                assert(es2[entry_index(es2, k2)].0 == k2);
                assert(false);
            }
        }
    }
    lemma_entry_index_of_member(es2, k, if has_entry(es, k) {
        entry_index(es, k)
    } else {
        es.len() as int
    });
}

/// When some entry at `at` has key `k` and keys are unique, `entry_index`
/// finds exactly that entry.
pub proof fn lemma_entry_index_of_member(es: Seq<(Seq<char>, u32)>, k: Seq<char>, at: int)
    requires
        0 <= at < es.len(),
        es[at].0 == k,
        forall|a: int, b: int| 0 <= a < b < es.len() ==> es[a].0 != es[b].0,
    ensures
        entry_index(es, k) == at,
        entry_lookup(es, k) == Some(es[at].1),
{
    lemma_entry_index(es, k);
    let e = entry_index(es, k);
    if e != at {
        if e >= 0 {
            assert(es[e].0 == k);
            assert(false);
        } else {
            assert(false);
        }
    }
}

/// Relies on `IndexMap::with_hasher`: a freshly built map is empty.
#[verifier::external_body]
pub fn cm_new() -> (r: indexmap::IndexMap<String, u32>)
    ensures
        child_entries(r) == Seq::<(Seq<char>, u32)>::empty(),
{
    indexmap::IndexMap::with_hasher(std::collections::hash_map::RandomState::new())
}

/// Relies on `IndexMap::len`: the number of entries.
#[verifier::external_body]
pub fn cm_len(m: &indexmap::IndexMap<String, u32>) -> (r: usize)
    ensures
        r == child_entries(*m).len(),
{
    m.len()
}

/// Relies on `IndexMap::get`: the value stored for an equal key, if any.
#[verifier::external_body]
pub fn cm_get(m: &indexmap::IndexMap<String, u32>, k: &str) -> (r: Option<u32>)
    ensures
        r == entry_lookup(child_entries(*m), k@),
{
    m.get(k).copied()
}

/// Relies on `IndexMap::insert`: an existing key keeps its position and takes
/// the new value; a new key is appended last.
#[verifier::external_body]
pub fn cm_insert(m: &mut indexmap::IndexMap<String, u32>, k: String, v: u32)
    ensures
        child_entries(*final(m)) == entry_insert(child_entries(*old(m)), k@, v),
{
    m.insert(k, v);
}

/// Relies on `IndexMap::iter`: the entries in iteration (= insertion) order.
#[verifier::external_body]
pub fn cm_entries(m: &indexmap::IndexMap<String, u32>) -> (r: Vec<(String, u32)>)
    ensures
        r@.len() == child_entries(*m).len(),
        forall|i: int|
            0 <= i < r@.len() ==> (#[trigger] r@[i].0)@ == child_entries(*m)[i].0 && r@[i].1
                == child_entries(*m)[i].1,
{
    m.iter().map(|(k, v)| (k.clone(), *v)).collect()
}

/// Relies on `IndexMap::with_hasher`: a freshly built map is empty.
#[verifier::external_body]
pub fn nm_new() -> (r: indexmap::IndexMap<String, Vec<u32>>)
    ensures
        forall|k: Seq<char>| !name_index(r).contains_key(k),
{
    indexmap::IndexMap::with_hasher(std::collections::hash_map::RandomState::new())
}

/// Relies on `IndexMap::get`: the value stored for an equal key, if any.
#[verifier::external_body]
pub fn nm_get(m: &indexmap::IndexMap<String, Vec<u32>>, k: &str) -> (r: Option<Vec<u32>>)
    ensures
        r matches Some(v) ==> name_index(*m).contains_key(k@) && v@ == name_index(*m)[k@],
        r is None ==> !name_index(*m).contains_key(k@),
{
    m.get(k).cloned()
}

/// Relies on `IndexMap::insert`: the map afterwards stores `v` for `k`.
#[verifier::external_body]
pub fn nm_insert(m: &mut indexmap::IndexMap<String, Vec<u32>>, k: String, v: Vec<u32>)
    ensures
        name_index(*final(m)) == name_index(*old(m)).insert(k@, v@),
{
    m.insert(k, v);
}

} // verus!
