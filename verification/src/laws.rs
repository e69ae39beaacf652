//! The library's general laws, stated and proved once over the models that
//! the executable functions' contracts speak of.

use crate::arena::{
    arena_wf, node_ok, remap_ids, remap_node, ArenaModel, NodeId,
};
use crate::imaps::{entry_lookup, lemma_entry_insert_lookup, lemma_entry_index};
use crate::loc::{loc_match, loc_model};
use crate::node_type::attach_ok;
use crate::script::extract_model;
use crate::arena::unify_model;
use crate::tree::{
    can_attach_entries, lemma_merge_all_frame, lemma_set_child_model_frame,
    lemma_unify_model_frame, merge_all,
};
use vstd::prelude::*;

verus! {

/// Every parent-child edge of a well-formed arena obeys the attachment rule:
/// the parent's type dominates the child's, or one of the two is Virtual.
/// This is the library's form of the rule over all attachment operations:
/// `set_child` (and everything built on it) demands the rule as a
/// precondition, so no verified caller can violate it, and well-formedness
/// carries it over every edge ever created; a violation, which the engine
/// must treat as fatal, is impossible rather than detected.
pub proof fn lemma_attachment_invariant(m: ArenaModel)
    requires
        arena_wf(m),
    ensures
        forall|i: int, j: int|
            0 <= i < m.n() && 0 <= j < m.kids(i).len() ==> attach_ok(
                m.ty(i),
                m.ty((#[trigger] m.kids(i)[j]).1 as int),
            ),
{
    assert forall|i: int, j: int|
        0 <= i < m.n() && 0 <= j < m.kids(i).len() implies attach_ok(
        m.ty(i),
        m.ty((#[trigger] m.kids(i)[j]).1 as int),
    ) by {
        assert(node_ok(m, i));
    }
}

/// After a conflict-aware merge, the destination maps every merged key to
/// the incoming child: whatever is merged in last wins.
pub proof fn lemma_merge_lookup_after(m: ArenaModel, dst: int, entries: Seq<(Seq<char>, NodeId)>, i: int)
    requires
        0 <= dst < m.n(),
        0 <= i <= entries.len(),
        can_attach_entries(m, dst, entries),
        forall|a: int, b: int| 0 <= a < b < entries.len() ==> entries[a].0 != entries[b].0,
        forall|a: int, b: int|
            0 <= a < b < m.kids(dst).len() ==> m.kids(dst)[a].0 != m.kids(dst)[b].0,
        forall|j: int| 0 <= j < m.kids(dst).len() ==> (#[trigger] m.kids(dst)[j]).1 < m.n(),
    ensures
        forall|j: int|
            0 <= j < i ==> entry_lookup(
                merge_all(m, dst, entries, i).0.kids(dst),
                (#[trigger] entries[j]).0,
            ) == Some(entries[j].1),
    decreases i,
{
    if i > 0 {
        lemma_merge_lookup_after(m, dst, entries, i - 1);
        lemma_merge_all_frame(m, dst, entries, i - 1);
        let mp = merge_all(m, dst, entries, i - 1).0;
        let k = entries[i - 1].0;
        let oid = entries[i - 1].1;
        let exist = entry_lookup(mp.kids(dst), k);
        let conflicted = {
            &&& exist matches Some(e)
            &&& exist.unwrap() != oid
            &&& mp.nodes[exist.unwrap() as int].slot != mp.nodes[oid as int].slot
            &&& !crate::arena::same_elems(mp.srcs(exist.unwrap() as int), mp.srcs(oid as int))
            &&& !crate::tree::allowlisted(k)
        };
        let m1 = if conflicted {
            unify_model(mp, exist.unwrap() as int, oid as int)
        } else {
            mp
        };
        if conflicted {
            lemma_entry_index(mp.kids(dst), k);
            lemma_unify_model_frame(mp, exist.unwrap() as int, oid as int);
        }
        lemma_set_child_model_frame(m1, dst, k, oid as int, true);
        lemma_entry_insert_lookup(m1.kids(dst), k, oid);
    }
}

/// Re-merging already-merged arguments reports no new conflict paths: once
/// the destination already maps each key to the incoming child, every step
/// of a second identical merge finds the very node it would attach.
pub proof fn lemma_merge_idempotent(m: ArenaModel, dst: int, entries: Seq<(Seq<char>, NodeId)>, i: int)
    requires
        0 <= dst < m.n(),
        0 <= i <= entries.len(),
        can_attach_entries(m, dst, entries),
        forall|a: int, b: int| 0 <= a < b < entries.len() ==> entries[a].0 != entries[b].0,
        forall|a: int, b: int|
            0 <= a < b < m.kids(dst).len() ==> m.kids(dst)[a].0 != m.kids(dst)[b].0,
        forall|j: int| 0 <= j < m.kids(dst).len() ==> (#[trigger] m.kids(dst)[j]).1 < m.n(),
        forall|j: int|
            0 <= j < entries.len() ==> entry_lookup(m.kids(dst), (#[trigger] entries[j]).0)
                == Some(entries[j].1),
    ensures
        merge_all(m, dst, entries, i).1 == Seq::<Seq<Seq<char>>>::empty(),
        forall|j: int|
            0 <= j < entries.len() ==> entry_lookup(
                merge_all(m, dst, entries, i).0.kids(dst),
                (#[trigger] entries[j]).0,
            ) == Some(entries[j].1),
    decreases i,
{
    if i == 0 {
        assert(merge_all(m, dst, entries, 0).1 =~= Seq::<Seq<Seq<char>>>::empty());
    } else {
        lemma_merge_idempotent(m, dst, entries, i - 1);
        lemma_merge_all_frame(m, dst, entries, i - 1);
        let mp = merge_all(m, dst, entries, i - 1).0;
        let k = entries[i - 1].0;
        let oid = entries[i - 1].1;
        assert(entry_lookup(mp.kids(dst), k) == Some(oid));
        lemma_set_child_model_frame(mp, dst, k, oid as int, true);
        lemma_entry_insert_lookup(mp.kids(dst), k, oid);
        assert forall|j: int|
            0 <= j < entries.len() implies entry_lookup(
            merge_all(m, dst, entries, i).0.kids(dst),
            (#[trigger] entries[j]).0,
        ) == Some(entries[j].1) by {
            if entries[j].0 == k {
                assert(entry_lookup(merge_all(m, dst, entries, i).0.kids(dst), k) == Some(oid));
                if j != i - 1 {
                    assert(entry_lookup(mp.kids(dst), entries[j].0) == Some(entries[j].1));
                }
            }
        }
    }
}

/// Calling the conflict-aware merge twice with the same already-merged
/// arguments reports no new conflict paths: the first merge leaves the
/// destination mapping every key to the incoming child, so the second finds
/// only identities.
pub proof fn lemma_merge_twice(m: ArenaModel, dst: int, entries: Seq<(Seq<char>, NodeId)>)
    requires
        0 <= dst < m.n(),
        can_attach_entries(m, dst, entries),
        forall|a: int, b: int| 0 <= a < b < entries.len() ==> entries[a].0 != entries[b].0,
        forall|a: int, b: int|
            0 <= a < b < m.kids(dst).len() ==> m.kids(dst)[a].0 != m.kids(dst)[b].0,
        forall|j: int| 0 <= j < m.kids(dst).len() ==> (#[trigger] m.kids(dst)[j]).1 < m.n(),
    ensures
        merge_all(
            merge_all(m, dst, entries, entries.len() as int).0,
            dst,
            entries,
            entries.len() as int,
        ).1 == Seq::<Seq<Seq<char>>>::empty(),
{
    let n = entries.len() as int;
    lemma_merge_lookup_after(m, dst, entries, n);
    lemma_merge_all_frame(m, dst, entries, n);
    let m1 = merge_all(m, dst, entries, n).0;
    assert(can_attach_entries(m1, dst, entries)) by {
        assert forall|j: int|
            0 <= j < entries.len() implies {
            let v = (#[trigger] entries[j]).1 as int;
            &&& 0 <= v < m1.n()
            &&& v != dst
            &&& attach_ok(m1.ty(dst), m1.ty(v))
            &&& !(m1.ty(dst) == crate::node_type::NodeType::File && m1.ty(v)
                == crate::node_type::NodeType::File)
        } by {
            let v = entries[j].1 as int;
            assert(m1.ty(v) == m.ty(v));
            assert(m1.ty(dst) == m.ty(dst));
        }
    }
    lemma_merge_idempotent(m1, dst, entries, n);
}


/// Conflict paths only accumulate: a longer merge keeps every path a shorter
/// prefix of it found.
pub proof fn lemma_merge_conflicts_grow(m: ArenaModel, dst: int, entries: Seq<(Seq<char>, NodeId)>, i: int, i2: int)
    requires
        0 <= i <= i2 <= entries.len(),
    ensures
        forall|p: Seq<Seq<char>>|
            merge_all(m, dst, entries, i).1.contains(p) ==> #[trigger] merge_all(
                m,
                dst,
                entries,
                i2,
            ).1.contains(p),
    decreases i2 - i,
{
    if i < i2 {
        lemma_merge_conflicts_grow(m, dst, entries, i, i2 - 1);
        let prev = merge_all(m, dst, entries, i2 - 1).1;
        let cur = merge_all(m, dst, entries, i2).1;
        assert forall|p: Seq<Seq<char>>| prev.contains(p) implies cur.contains(p) by {
            let w = choose|w: int| 0 <= w < prev.len() && prev[w] == p;
            if cur != prev {
                assert(cur[w] == p);
            }
        }
    }
}

/// Where two mods supplied a key with distinct provenance at a merge step,
/// the whole merge reports the full path (container directory plus key):
/// the two-mod override scenario's conflict is in the returned set.
pub proof fn lemma_merge_reports_conflict(m: ArenaModel, dst: int, entries: Seq<(Seq<char>, NodeId)>, j: int)
    requires
        0 <= dst < m.n(),
        0 <= j < entries.len(),
        ({
            let mp = merge_all(m, dst, entries, j).0;
            let exist = entry_lookup(mp.kids(dst), entries[j].0);
            &&& exist matches Some(e)
            &&& exist.unwrap() != entries[j].1
            &&& mp.nodes[exist.unwrap() as int].slot != mp.nodes[entries[j].1 as int].slot
            &&& !crate::arena::same_elems(
                mp.srcs(exist.unwrap() as int),
                mp.srcs(entries[j].1 as int),
            )
            &&& !crate::tree::allowlisted(entries[j].0)
        }),
    ensures
        merge_all(m, dst, entries, entries.len() as int).1.contains(
            merge_all(m, dst, entries, j).0.nodes[dst].rel_dir.push(entries[j].0),
        ),
{
    let mp = merge_all(m, dst, entries, j).0;
    let path = mp.nodes[dst].rel_dir.push(entries[j].0);
    let after = merge_all(m, dst, entries, j + 1).1;
    assert(after == merge_all(m, dst, entries, j).1.push(path));
    assert(after[after.len() - 1] == path);
    assert(after.contains(path));
    lemma_merge_conflicts_grow(m, dst, entries, j + 1, entries.len() as int);
}

/// Bulk-appending an empty arena is a no-op: the four components keep their
/// values (the shapes below are exactly what `extend` ensures).
pub proof fn lemma_extend_with_empty(m0: ArenaModel, mo: ArenaModel, m2: ArenaModel)
    requires
        mo.n() == 0,
        mo.sets.len() == 0,
        m2.nodes == m0.nodes + Seq::new(mo.n() as nat, |i: int| remap_node(mo.nodes[i], m0.n(), m0.sets.len() as int)),
        m2.sets == m0.sets + Seq::new(mo.sets.len(), |s: int| remap_ids(mo.sets[s], m0.n())),
        m2.library == crate::arena::lib_extend(m0.library, m2.nodes, m0.n(), mo.n()),
        m2.mods == m0.mods,
    ensures
        m2.nodes == m0.nodes,
        m2.sets == m0.sets,
        m2.library == m0.library,
        m2.mods == m0.mods,
{
    assert(m2.nodes =~= m0.nodes);
    assert(m2.sets =~= m0.sets);
}

/// After a bulk append, resolving any of the appended ids yields the source
/// arena's node with parent, children and provenance references offset by
/// the base sizes (the shapes below are exactly what `extend` ensures).
pub proof fn lemma_extend_remapped(m0: ArenaModel, mo: ArenaModel, m2: ArenaModel, i: int)
    requires
        0 <= i < mo.n(),
        forall|j: int| 0 <= j < mo.n() ==> node_ok(mo, j),
        m2.nodes == m0.nodes + Seq::new(mo.n() as nat, |j: int| remap_node(mo.nodes[j], m0.n(), m0.sets.len() as int)),
        m2.sets == m0.sets + Seq::new(mo.sets.len(), |s: int| remap_ids(mo.sets[s], m0.n())),
    ensures
        m2.nodes[m0.n() + i] == remap_node(mo.nodes[i], m0.n(), m0.sets.len() as int),
        m2.srcs(m0.n() + i) == remap_ids(mo.srcs(i), m0.n()),
{
    assert(node_ok(mo, i));
    assert(m2.nodes[m0.n() + i].slot == mo.nodes[i].slot + m0.sets.len());
    assert(m2.sets[mo.nodes[i].slot + m0.sets.len()] == remap_ids(mo.sets[mo.nodes[i].slot], m0.n()));
}

/// Extracting anything past a positive depth limit adds nothing: no node,
/// no partial structure, no error.
pub proof fn lemma_depth_cutoff(m: ArenaModel, c: crate::script::CstNode, root: NodeId, max_depth: int, depth: int)
    requires
        max_depth > 0,
        depth > max_depth,
    ensures
        extract_model(m, c, root, max_depth, depth) == m,
{
}

/// A non-matching localization line produces nothing.
pub proof fn lemma_nonmatching_line(m: ArenaModel, line: Seq<char>)
    requires
        loc_match(line) is None,
    ensures
        loc_model(m, seq![line], 0) == m,
{
    assert(loc_model(m, seq![line], 1) == m);
}

} // verus!
