//! The tree facade: navigation and mutation over an arena, rooted at a
//! stable id, including the order-sensitive conflict-aware merge.

use crate::arena::{
    can_set_child, entry_lookup_valid, set_child_model, unify_model, Arena, ArenaModel, NodeId,
};
use crate::imaps::{entry_index, entry_insert, entry_lookup, has_entry, lemma_entry_index};
use crate::node_type::{attach_ok, NodeType};
use crate::path::RelPath;
use vstd::prelude::*;

verus! {

/// A definition tree: an arena plus the id of its root node.
pub struct ParadoxModDefinitionTree {
    /// The node store.
    pub arena: Arena,
    /// The root node's id.
    pub root: NodeId,
}

/// Walk `dir`'s segments from `cur`, skipping `"."` segments, failing the
/// moment a segment is absent.
pub open spec fn get_by_dir_spec(m: ArenaModel, cur: NodeId, dir: Seq<Seq<char>>) -> Option<NodeId>
    decreases dir.len(),
{
    if dir.len() == 0 {
        Some(cur)
    } else if dir[0] == seq!['.'] {
        get_by_dir_spec(m, cur, dir.drop_first())
    } else {
        match entry_lookup(m.kids(cur as int), dir[0]) {
            Some(c) => get_by_dir_spec(m, c, dir.drop_first()),
            None => None,
        }
    }
}

/// Whether `s` is the single-dot segment standing for "current directory".
fn is_dot(s: &str) -> (r: bool)
    ensures
        r == (s@ == seq!['.']),
{
    let r = s.unicode_len() == 1 && s.get_char(0) == '.';
    proof {
        if r {
            assert(s@ =~= seq!['.']);
        } else {
            assert(s@ != seq!['.']) by {
                if s@.len() == 1 {
                    assert(seq!['.'][0] == '.');
                }
            }
        }
    }
    r
}

impl ParadoxModDefinitionTree {
    /// The tree's arena is well formed and its root id valid.
    pub open spec fn wf(&self) -> bool {
        &&& self.arena.wf()
        &&& (self.root as int) < self.arena@.n()
    }

    /// A fresh tree holding only a Virtual root named `<root>`: no value, no
    /// parent, no children, no recorded sources, an empty directory.
    pub fn new() -> (r: Self)
        ensures
            r.wf(),
            r.arena@.n() == 1,
            r.root == 0,
            r.arena@.nodes[0] == crate::arena::fresh_node(
                "<root>"@,
                Seq::empty(),
                None,
                NodeType::Virtual,
                0,
            ),
            r.arena@.srcs(0).len() == 0,
            r.arena@.mods.len() == 0,
    {
        let mut arena = Arena::new();
        let root = arena.new_node(root_marker(), RelPath::empty(), None);
        proof {
            reveal_strlit("<root>");
            assert(arena@.nodes[0] =~~= crate::arena::fresh_node(
                "<root>"@,
                Seq::empty(),
                None,
                NodeType::Virtual,
                0,
            ));
            assert(arena@.srcs(0) =~= Seq::<NodeId>::empty());
        }
        ParadoxModDefinitionTree { arena, root }
    }

    /// The root node's id.
    pub fn get_root(&self) -> (r: NodeId)
        ensures
            r == self.root,
    {
        self.root
    }

    /// Number of nodes in the arena.
    pub fn get_node_num(&self) -> (r: usize)
        ensures
            r == self.arena@.n(),
    {
        self.arena.len()
    }

    /// Create a fresh classified node (not yet attached anywhere).
    pub fn new_node(&mut self, name: String, rel_dir: RelPath, value: Option<String>) -> (r:
        NodeId)
        requires
            old(self).wf(),
            old(self).arena@.n() < u32::MAX,
        ensures
            final(self).wf(),
            r == old(self).arena@.n(),
            final(self).arena@.nodes == old(self).arena@.nodes.push(
                crate::arena::fresh_node(
                    name@,
                    rel_dir@,
                    value.deep_view(),
                    crate::node_type::classify(name@, rel_dir@, value.deep_view()),
                    old(self).arena@.sets.len() as int,
                ),
            ),
            final(self).root == old(self).root,
    {
        self.arena.new_node(name, rel_dir, value)
    }

    /// The child of `node` at `key`, or the supplied default.
    pub fn get(&self, node: NodeId, key: &str, default: Option<NodeId>) -> (r: Option<NodeId>)
        requires
            self.wf(),
            node < self.arena@.n(),
        ensures
            r == match entry_lookup(self.arena@.kids(node as int), key@) {
                Some(c) => Some(c),
                None => default,
            },
    {
        match self.arena.get(node).get(key) {
            Some(c) => Some(c),
            None => default,
        }
    }

    /// Walk `dir` from `node`, skipping `"."` segments; the supplied default
    /// comes back the moment any segment is absent.
    pub fn get_by_dir(&self, node: NodeId, dir: &RelPath, default: Option<NodeId>) -> (r: Option<
        NodeId,
    >)
        requires
            self.wf(),
            node < self.arena@.n(),
        ensures
            r == match get_by_dir_spec(self.arena@, node, dir@) {
                Some(c) => Some(c),
                None => default,
            },
            (get_by_dir_spec(self.arena@, node, dir@) matches Some(c) ==> c < self.arena@.n()),
    {
        let ghost m = self.arena@;
        let mut cur = node;
        let mut i: usize = 0;
        let n = dir.len();
        proof {
            assert(dir@.skip(0) =~= dir@);
        }
        while i < n
            invariant
                self.wf(),
                i <= n,
                n == dir@.len(),
                cur < self.arena@.n(),
                m == self.arena@,
                get_by_dir_spec(m, node, dir@) == get_by_dir_spec(m, cur, dir@.skip(i as int)),
            decreases n - i,
        {
            let ghost pre = dir@.skip(i as int);
            proof {
                assert(pre.drop_first() =~= dir@.skip(i + 1));
                assert(pre[0] == dir@[i as int]);
            }
            let part = dir.seg(i);
            if is_dot(part.as_str()) {
            } else {
                match self.arena.get(cur).get(part.as_str()) {
                    Some(c) => {
                        proof {
                            entry_lookup_valid(m, cur as int, dir@[i as int]);
                        }
                        cur = c;
                    },
                    None => {
                        return default;
                    },
                }
            }
            i = i + 1;
        }
        proof {
            assert(dir@.skip(n as int) =~= Seq::<Seq<char>>::empty());
        }
        Some(cur)
    }
}

/// The name given to every tree root.
fn root_marker() -> (r: String)
    ensures
        r@ == "<root>"@,
{
    proof {
        reveal_strlit("<root>");
    }
    String::from_str("<root>")
}


/// The merge allow-list: keys whose repetition across files is structural,
/// not an override.
pub open spec fn allowlisted(k: Seq<char>) -> bool {
    k == "namespace"@
}

/// Whether `s` is an allow-listed key.
fn is_allowlisted(s: &String) -> (r: bool)
    ensures
        r == allowlisted(s@),
{
    let ns = String::from_str("namespace");
    s.eq(&ns)
}

/// Everything `set_child_model` leaves untouched.
pub proof fn lemma_set_child_model_frame(m: ArenaModel, p: int, k: Seq<char>, v: int, mark: bool)
    requires
        0 <= p < m.n(),
        0 <= v < m.n(),
        p != v,
    ensures
        set_child_model(m, p, k, v, mark).nodes.len() == m.nodes.len(),
        forall|x: int|
            0 <= x < m.n() ==> #[trigger] set_child_model(m, p, k, v, mark).ty(x) == m.ty(x),
        forall|x: int|
            0 <= x < m.n() ==> (#[trigger] set_child_model(m, p, k, v, mark).nodes[x]).name
                == m.nodes[x].name && set_child_model(m, p, k, v, mark).nodes[x].rel_dir
                == m.nodes[x].rel_dir && set_child_model(m, p, k, v, mark).nodes[x].slot
                == m.nodes[x].slot,
        forall|x: int|
            0 <= x < m.n() && x != p ==> #[trigger] set_child_model(m, p, k, v, mark).kids(x)
                == m.kids(x),
        set_child_model(m, p, k, v, mark).kids(p) == entry_insert(m.kids(p), k, v as u32),
        set_child_model(m, p, k, v, mark).library == m.library,
        set_child_model(m, p, k, v, mark).mods == m.mods,
{
}

/// Everything `unify_model` leaves untouched.
pub proof fn lemma_unify_model_frame(m: ArenaModel, e: int, o: int)
    requires
        0 <= e < m.n(),
        0 <= o < m.n(),
    ensures
        unify_model(m, e, o).nodes.len() == m.nodes.len(),
        forall|x: int| 0 <= x < m.n() ==> #[trigger] unify_model(m, e, o).ty(x) == m.ty(x),
        forall|x: int|
            0 <= x < m.n() ==> (#[trigger] unify_model(m, e, o).nodes[x]).name == m.nodes[x].name
                && unify_model(m, e, o).nodes[x].rel_dir == m.nodes[x].rel_dir,
        forall|x: int| 0 <= x < m.n() ==> #[trigger] unify_model(m, e, o).kids(x) == m.kids(x),
        unify_model(m, e, o).library == m.library,
        unify_model(m, e, o).mods == m.mods,
{
}

/// What every attached entry must satisfy: a valid node, distinct from the
/// destination, the attachment rule, and no File-under-File marking.
pub open spec fn can_attach_entries(m: ArenaModel, dst: int, entries: Seq<(Seq<char>, NodeId)>) -> bool {
    forall|j: int|
        0 <= j < entries.len() ==> {
            let v = (#[trigger] entries[j]).1 as int;
            &&& 0 <= v < m.n()
            &&& v != dst
            &&& attach_ok(m.ty(dst), m.ty(v))
            &&& !(m.ty(dst) == NodeType::File && m.ty(v) == NodeType::File)
        }
}

/// For the conflict-aware merge: where destination and source both hold a
/// key with different nodes, the two children sit at the same provenance
/// rank, so their sets may be unioned and shared.
pub open spec fn can_merge_entries(m: ArenaModel, dst: int, entries: Seq<(Seq<char>, NodeId)>) -> bool {
    forall|j: int|
        0 <= j < entries.len() ==> match entry_lookup(m.kids(dst), (#[trigger] entries[j]).0) {
            Some(e) => e == entries[j].1 || crate::arena::prov_rank(m.ty(e as int))
                == crate::arena::prov_rank(m.ty(entries[j].1 as int)),
            None => true,
        }
}

/// The model after attaching entries `[0, i)` onto `dst`, in order, always
/// marking provenance.
pub open spec fn attach_all(m: ArenaModel, dst: int, entries: Seq<(Seq<char>, NodeId)>, i: int) -> ArenaModel
    decreases i,
{
    if i <= 0 {
        m
    } else {
        set_child_model(attach_all(m, dst, entries, i - 1), dst, entries[i - 1].0, entries[i - 1].1 as int, true)
    }
}

/// One step of the conflict-aware merge at key `k` with incoming child
/// `oid`: a conflict is recorded exactly when the destination already holds
/// a different node at `k` whose provenance set is a different object with
/// different contents, and `k` is not allow-listed; the two sets are then
/// unioned and shared.  Either way the incoming child wins the mapping.
pub open spec fn merge_one(m: ArenaModel, dst: int, k: Seq<char>, oid: NodeId) -> (ArenaModel, Option<Seq<Seq<char>>>) {
    let exist = entry_lookup(m.kids(dst), k);
    let conflicted = {
        &&& exist matches Some(e)
        &&& exist.unwrap() != oid
        &&& m.nodes[exist.unwrap() as int].slot != m.nodes[oid as int].slot
        &&& !crate::arena::same_elems(m.srcs(exist.unwrap() as int), m.srcs(oid as int))
        &&& !allowlisted(k)
    };
    let m1 = if conflicted {
        unify_model(m, exist.unwrap() as int, oid as int)
    } else {
        m
    };
    (
        set_child_model(m1, dst, k, oid as int, true),
        if conflicted {
            Some(m.nodes[dst].rel_dir.push(k))
        } else {
            None
        },
    )
}

/// The conflict-aware merge over entries `[0, i)`: the folded model and the
/// conflict paths discovered, in encounter order.
pub open spec fn merge_all(m: ArenaModel, dst: int, entries: Seq<(Seq<char>, NodeId)>, i: int) -> (ArenaModel, Seq<Seq<Seq<char>>>)
    decreases i,
{
    if i <= 0 {
        (m, Seq::empty())
    } else {
        let prev = merge_all(m, dst, entries, i - 1);
        let step = merge_one(prev.0, dst, entries[i - 1].0, entries[i - 1].1);
        (
            step.0,
            match step.1 {
                Some(p) => prev.1.push(p),
                None => prev.1,
            },
        )
    }
}

/// Through `merge_all`, node count, types, names, directories, the name
/// index and the registry stay; only keys among the processed entries
/// change the destination's lookup.
pub proof fn lemma_merge_all_frame(m: ArenaModel, dst: int, entries: Seq<(Seq<char>, NodeId)>, i: int)
    requires
        0 <= dst < m.n(),
        0 <= i <= entries.len(),
        can_attach_entries(m, dst, entries),
        forall|a: int, b: int| 0 <= a < b < m.kids(dst).len() ==> m.kids(dst)[a].0 != m.kids(dst)[b].0,
        forall|j: int| 0 <= j < m.kids(dst).len() ==> (#[trigger] m.kids(dst)[j]).1 < m.n(),
    ensures
        merge_all(m, dst, entries, i).0.nodes.len() == m.nodes.len(),
        forall|x: int| 0 <= x < m.n() ==> #[trigger] merge_all(m, dst, entries, i).0.ty(x) == m.ty(x),
        forall|x: int|
            0 <= x < m.n() ==> (#[trigger] merge_all(m, dst, entries, i).0.nodes[x]).name
                == m.nodes[x].name && merge_all(m, dst, entries, i).0.nodes[x].rel_dir
                == m.nodes[x].rel_dir,
        forall|x: int|
            0 <= x < m.n() && x != dst ==> #[trigger] merge_all(m, dst, entries, i).0.kids(x)
                == m.kids(x),
        forall|k2: Seq<char>|
            (forall|j: int| 0 <= j < i ==> (#[trigger] entries[j]).0 != k2) ==> entry_lookup(
                #[trigger] merge_all(m, dst, entries, i).0.kids(dst),
                k2,
            ) == entry_lookup(m.kids(dst), k2),
        forall|a: int, b: int|
            0 <= a < b < merge_all(m, dst, entries, i).0.kids(dst).len() ==> merge_all(
                m,
                dst,
                entries,
                i,
            ).0.kids(dst)[a].0 != merge_all(m, dst, entries, i).0.kids(dst)[b].0,
        forall|j: int|
            0 <= j < merge_all(m, dst, entries, i).0.kids(dst).len() ==> (#[trigger] merge_all(
                m,
                dst,
                entries,
                i,
            ).0.kids(dst)[j]).1 < m.n(),
        merge_all(m, dst, entries, i).0.library == m.library,
        merge_all(m, dst, entries, i).0.mods == m.mods,
    decreases i,
{
    if i > 0 {
        lemma_merge_all_frame(m, dst, entries, i - 1);
        let mp = merge_all(m, dst, entries, i - 1).0;
        let k = entries[i - 1].0;
        let oid = entries[i - 1].1;
        let exist = entry_lookup(mp.kids(dst), k);
        let conflicted = {
            &&& exist matches Some(e)
            &&& exist.unwrap() != oid
            &&& mp.nodes[exist.unwrap() as int].slot != mp.nodes[oid as int].slot
            &&& !crate::arena::same_elems(mp.srcs(exist.unwrap() as int), mp.srcs(oid as int))
            &&& !allowlisted(k)
        };
        let m1 = if conflicted {
            unify_model(mp, exist.unwrap() as int, oid as int)
        } else {
            mp
        };
        crate::imaps::lemma_entry_index(mp.kids(dst), k);
        if exist is Some {
            assert(mp.kids(dst)[entry_index(mp.kids(dst), k)].1 < m.n());
        }
        if conflicted {
            lemma_unify_model_frame(mp, exist.unwrap() as int, oid as int);
        }
        lemma_set_child_model_frame(m1, dst, k, oid as int, true);
        crate::imaps::lemma_entry_insert_lookup(m1.kids(dst), k, oid);
        assert forall|k2: Seq<char>|
            (forall|j: int| 0 <= j < i ==> (#[trigger] entries[j]).0 != k2) implies entry_lookup(
            #[trigger] merge_all(m, dst, entries, i).0.kids(dst),
            k2,
        ) == entry_lookup(m.kids(dst), k2) by {
            assert(entries[i - 1].0 != k2);
            assert(entry_lookup(merge_all(m, dst, entries, i).0.kids(dst), k2) == entry_lookup(
                m1.kids(dst),
                k2,
            ));
        }
    }
}


impl ParadoxModDefinitionTree {
    /// Attach `value` under `node` at `key`: the tree's indexed write.
    pub fn set(&mut self, node: NodeId, key: String, value: NodeId, mark_source: bool)
        requires
            old(self).wf(),
            can_set_child(old(self).arena@, node as int, value as int, mark_source),
        ensures
            final(self).wf(),
            final(self).arena@ == set_child_model(
                old(self).arena@,
                node as int,
                key@,
                value as int,
                mark_source,
            ),
            final(self).root == old(self).root,
    {
        self.arena.set_child(node, key, value, mark_source);
    }

    /// Shallow merge without conflict bookkeeping: every child of `src` is
    /// attached onto `dst`, always marking provenance; the last write wins.
    pub fn update(&mut self, dst: NodeId, src: NodeId)
        requires
            old(self).wf(),
            dst < old(self).arena@.n(),
            src < old(self).arena@.n(),
            dst != src,
            can_attach_entries(old(self).arena@, dst as int, old(self).arena@.kids(src as int)),
        ensures
            final(self).wf(),
            final(self).arena@ == attach_all(
                old(self).arena@,
                dst as int,
                old(self).arena@.kids(src as int),
                old(self).arena@.kids(src as int).len() as int,
            ),
            final(self).arena@.n() == old(self).arena@.n(),
            final(self).root == old(self).root,
    {
        let ghost m0 = self.arena@;
        let ghost ges = m0.kids(src as int);
        let entries = self.arena.get(src).children_entries();
        proof {
            assert forall|j: int|
                0 <= j < ges.len() implies (#[trigger] entries@[j].0)@ == ges[j].0 && entries@[j].1
                == ges[j].1 by {
                assert((entries@[j].0)@ == m0.nodes[src as int].children[j].0);
            }
        }
        let mut k: usize = 0;
        while k < entries.len()
            invariant
                k <= entries@.len(),
                entries@.len() == ges.len(),
                forall|j: int|
                    0 <= j < ges.len() ==> (#[trigger] entries@[j].0)@ == ges[j].0 && entries@[j].1
                        == ges[j].1,
                0 <= (dst as int) < m0.n(),
                dst != src,
                can_attach_entries(m0, dst as int, ges),
                self.wf(),
                self.root == old(self).root,
                self.arena@ == attach_all(m0, dst as int, ges, k as int),
            decreases entries@.len() - k,
        {
            proof {
                lemma_attach_all_frame(m0, dst as int, ges, k as int);
                assert(can_set_child(self.arena@, dst as int, ges[k as int].1 as int, true));
            }
            let key = entries[k].0.clone();
            let v = entries[k].1;
            self.arena.set_child(dst, key, v, true);
            k = k + 1;
        }
        proof {
            lemma_attach_all_frame(m0, dst as int, ges, ges.len() as int);
        }
    }

    /// Order-sensitive merge with conflict bookkeeping.  For each child of
    /// `src`, in `src`'s own order: where `dst` already holds a different
    /// node whose provenance set is a different object with different
    /// contents and the key is not allow-listed, the full path is recorded
    /// as a conflict and the two sets are unioned into one shared object;
    /// the incoming child then overwrites the mapping regardless, so
    /// whatever is merged in last wins.  Content is never inspected: only
    /// identity of provenance decides.
    pub fn update_with_conflict_check(&mut self, dst: NodeId, src: NodeId) -> (r: Vec<RelPath>)
        requires
            old(self).wf(),
            dst < old(self).arena@.n(),
            src < old(self).arena@.n(),
            dst != src,
            can_attach_entries(old(self).arena@, dst as int, old(self).arena@.kids(src as int)),
            can_merge_entries(old(self).arena@, dst as int, old(self).arena@.kids(src as int)),
        ensures
            final(self).wf(),
            final(self).arena@ == merge_all(
                old(self).arena@,
                dst as int,
                old(self).arena@.kids(src as int),
                old(self).arena@.kids(src as int).len() as int,
            ).0,
            r.deep_view() == merge_all(
                old(self).arena@,
                dst as int,
                old(self).arena@.kids(src as int),
                old(self).arena@.kids(src as int).len() as int,
            ).1,
            final(self).arena@.n() == old(self).arena@.n(),
            final(self).root == old(self).root,
    {
        let ghost m0 = self.arena@;
        let ghost ges = m0.kids(src as int);
        proof {
            assert(crate::arena::node_ok(m0, dst as int));
            assert(crate::arena::node_ok(m0, src as int));
        }
        let entries = self.arena.get(src).children_entries();
        let mut conflicts: Vec<RelPath> = Vec::new();
        let mut k: usize = 0;
        while k < entries.len()
            invariant
                k <= entries@.len(),
                entries@.len() == ges.len(),
                forall|j: int|
                    0 <= j < ges.len() ==> (#[trigger] entries@[j].0)@ == ges[j].0 && entries@[j].1
                        == ges[j].1,
                0 <= (dst as int) < m0.n(),
                dst != src,
                can_attach_entries(m0, dst as int, ges),
                can_merge_entries(m0, dst as int, ges),
                forall|a: int, b: int| 0 <= a < b < ges.len() ==> ges[a].0 != ges[b].0,
                forall|a: int, b: int|
                    0 <= a < b < m0.kids(dst as int).len() ==> m0.kids(dst as int)[a].0 != m0.kids(
                        dst as int,
                    )[b].0,
                forall|j: int|
                    0 <= j < m0.kids(dst as int).len() ==> (#[trigger] m0.kids(dst as int)[j]).1
                        < m0.n(),
                self.wf(),
                self.root == old(self).root,
                self.arena@ == merge_all(m0, dst as int, ges, k as int).0,
                conflicts.deep_view() == merge_all(m0, dst as int, ges, k as int).1,
            decreases entries@.len() - k,
        {
            let ghost mp = self.arena@;
            proof {
                lemma_merge_all_frame(m0, dst as int, ges, k as int);
            }
            let key = entries[k].0.clone();
            let oid = entries[k].1;
            let exist_opt = self.arena.get(dst).get(key.as_str());
            proof {
                if exist_opt is Some {
                    crate::imaps::lemma_entry_index(mp.kids(dst as int), key@);
                }
            }
            match exist_opt {
                Some(eid) if eid != oid => {
                    let eslot = self.arena.get(eid).slot_index();
                    let oslot = self.arena.get(oid).slot_index();
                    if eslot != oslot {
                        let same_vals = self.arena.sources_same(eid, oid);
                        let allow = is_allowlisted(&key);
                        if !same_vals && !allow {
                            // a genuine conflict: record the path, union and
                            // share the two provenance sets
                            let path = self.arena.get(dst).rel_dir().join(key.as_str());
                            let ghost prev_conflicts = conflicts.deep_view();
                            conflicts.push(path);
                            proof {
                                assert(conflicts.deep_view() =~= prev_conflicts.push(
                                    mp.nodes[dst as int].rel_dir.push(key@),
                                ));
                                // the rank compatibility comes from the
                                // precondition over the starting model, whose
                                // lookup at this key is still current
                                assert(forall|j: int| 0 <= j < k ==> (#[trigger] ges[j]).0 != key@);
                                assert(entry_lookup(mp.kids(dst as int), key@) == entry_lookup(
                                    m0.kids(dst as int),
                                    key@,
                                ));
                                assert(crate::arena::prov_rank(mp.ty(eid as int))
                                    == crate::arena::prov_rank(mp.ty(oid as int))) by {
                                    assert(entry_lookup(m0.kids(dst as int), key@) == Some(eid));
                                    assert(crate::arena::prov_rank(m0.ty(eid as int))
                                        == crate::arena::prov_rank(m0.ty(oid as int)));
                                }
                            }
                            self.arena.unify_sources(eid, oid);
                        }
                    }
                },
                _ => {},
            }
            let ghost m1 = self.arena@;
            proof {
                assert(can_set_child(m1, dst as int, oid as int, true)) by {
                    if m1 != mp {
                        lemma_unify_model_frame(mp, entry_lookup(mp.kids(dst as int), key@).unwrap() as int, oid as int);
                    }
                }
            }
            self.arena.set_child(dst, key, oid, true);
            proof {
                assert(self.arena@ == merge_all(m0, dst as int, ges, k + 1).0);
                assert(conflicts.deep_view() == merge_all(m0, dst as int, ges, k + 1).1);
            }
            k = k + 1;
        }
        proof {
            lemma_merge_all_frame(m0, dst as int, ges, ges.len() as int);
        }
        conflicts
    }
}

/// `attach_all` keeps node count, types and every other node's children.
pub proof fn lemma_attach_all_frame(m: ArenaModel, dst: int, entries: Seq<(Seq<char>, NodeId)>, i: int)
    requires
        0 <= dst < m.n(),
        0 <= i <= entries.len(),
        can_attach_entries(m, dst, entries),
    ensures
        attach_all(m, dst, entries, i).nodes.len() == m.nodes.len(),
        forall|x: int| 0 <= x < m.n() ==> #[trigger] attach_all(m, dst, entries, i).ty(x) == m.ty(x),
        forall|x: int|
            0 <= x < m.n() && x != dst ==> #[trigger] attach_all(m, dst, entries, i).kids(x)
                == m.kids(x),
        attach_all(m, dst, entries, i).library == m.library,
        attach_all(m, dst, entries, i).mods == m.mods,
    decreases i,
{
    if i > 0 {
        lemma_attach_all_frame(m, dst, entries, i - 1);
        lemma_set_child_model_frame(
            attach_all(m, dst, entries, i - 1),
            dst,
            entries[i - 1].0,
            entries[i - 1].1 as int,
            true,
        );
    }
}


/// The model after appending one freshly classified node (no value), with
/// its name recorded in the index.
pub open spec fn push_model(m: ArenaModel, name: Seq<char>, rd: Seq<Seq<char>>) -> ArenaModel {
    ArenaModel {
        nodes: m.nodes.push(
            crate::arena::fresh_node(
                name,
                rd,
                None,
                crate::node_type::classify(name, rd, None),
                m.sets.len() as int,
            ),
        ),
        sets: m.sets.push(Seq::empty()),
        library: crate::arena::lib_add(m.library, name, m.n() as NodeId),
        mods: m.mods,
    }
}

/// What `setdefault` does: an existing child is returned untouched; a given
/// default is attached; otherwise a fresh node is created with the key as
/// its name, inheriting the parent's directory extended by the key.
pub open spec fn setdefault_model(m: ArenaModel, node: int, k: Seq<char>, default: Option<NodeId>) -> (ArenaModel, NodeId) {
    match entry_lookup(m.kids(node), k) {
        Some(c) => (m, c),
        None => match default {
            Some(d) => (set_child_model(m, node, k, d as int, true), d),
            None => {
                let nid = m.n() as NodeId;
                let m1 = push_model(m, k, m.nodes[node].rel_dir.push(k));
                (set_child_model(m1, node, k, nid as int, true), nid)
            },
        },
    }
}

/// What `setdefault` asks of its caller when it has to attach something.
pub open spec fn can_setdefault(m: ArenaModel, node: int, k: Seq<char>, default: Option<NodeId>) -> bool {
    match entry_lookup(m.kids(node), k) {
        Some(c) => true,
        None => match default {
            Some(d) => can_set_child(m, node, d as int, true),
            None => {
                let t = crate::node_type::classify(k, m.nodes[node].rel_dir.push(k), None);
                &&& m.n() < u32::MAX
                &&& attach_ok(m.ty(node), t)
                &&& !(m.ty(node) == NodeType::File && t == NodeType::File)
            },
        },
    }
}

/// Walk `parts` from `cur`, creating what is absent; every created
/// intermediate is named after its path segment, the terminal one after
/// `dname`.
pub open spec fn setdefault_by_dir_model(m: ArenaModel, cur: NodeId, parts: Seq<Seq<char>>, dname: Seq<char>) -> (ArenaModel, NodeId)
    decreases parts.len(),
{
    if parts.len() == 0 {
        (m, cur)
    } else {
        let k = parts[0];
        match entry_lookup(m.kids(cur as int), k) {
            Some(c) => setdefault_by_dir_model(m, c, parts.drop_first(), dname),
            None => {
                let name = if parts.len() == 1 {
                    dname
                } else {
                    k
                };
                let nid = m.n() as NodeId;
                let m1 = push_model(m, name, m.nodes[cur as int].rel_dir.push(k));
                let m2 = set_child_model(m1, cur as int, k, nid as int, true);
                setdefault_by_dir_model(m2, nid, parts.drop_first(), dname)
            },
        }
    }
}

/// What the walking creator asks of its caller, segment by segment.
pub open spec fn can_setdefault_by_dir(m: ArenaModel, cur: NodeId, parts: Seq<Seq<char>>, dname: Seq<char>) -> bool
    decreases parts.len(),
{
    if parts.len() == 0 {
        true
    } else {
        let k = parts[0];
        match entry_lookup(m.kids(cur as int), k) {
            Some(c) => can_setdefault_by_dir(m, c, parts.drop_first(), dname),
            None => {
                let name = if parts.len() == 1 {
                    dname
                } else {
                    k
                };
                let t = crate::node_type::classify(name, m.nodes[cur as int].rel_dir.push(k), None);
                let nid = m.n() as NodeId;
                let m1 = push_model(m, name, m.nodes[cur as int].rel_dir.push(k));
                let m2 = set_child_model(m1, cur as int, k, nid as int, true);
                &&& m.n() < u32::MAX
                &&& attach_ok(m.ty(cur as int), t)
                &&& !(m.ty(cur as int) == NodeType::File && t == NodeType::File)
                &&& can_setdefault_by_dir(m2, nid, parts.drop_first(), dname)
            },
        }
    }
}

/// Walk `parts` from `cur`, creating absent intermediates named after their
/// segments, and force-attach `value` at the terminal position: the terminal
/// mapping is always overwritten, last write wins.
pub open spec fn set_by_dir_model(m: ArenaModel, cur: NodeId, parts: Seq<Seq<char>>, value: NodeId) -> ArenaModel
    decreases parts.len(),
{
    if parts.len() == 0 {
        m
    } else if parts.len() == 1 {
        set_child_model(m, cur as int, parts[0], value as int, true)
    } else {
        let k = parts[0];
        match entry_lookup(m.kids(cur as int), k) {
            Some(c) => set_by_dir_model(m, c, parts.drop_first(), value),
            None => {
                let nid = m.n() as NodeId;
                let m1 = push_model(m, k, m.nodes[cur as int].rel_dir.push(k));
                let m2 = set_child_model(m1, cur as int, k, nid as int, true);
                set_by_dir_model(m2, nid, parts.drop_first(), value)
            },
        }
    }
}

/// What the forcing walker asks of its caller, segment by segment.
pub open spec fn can_set_by_dir(m: ArenaModel, cur: NodeId, parts: Seq<Seq<char>>, value: NodeId) -> bool
    decreases parts.len(),
{
    if parts.len() == 0 {
        true
    } else if parts.len() == 1 {
        can_set_child(m, cur as int, value as int, true)
    } else {
        let k = parts[0];
        match entry_lookup(m.kids(cur as int), k) {
            Some(c) => can_set_by_dir(m, c, parts.drop_first(), value),
            None => {
                let t = crate::node_type::classify(k, m.nodes[cur as int].rel_dir.push(k), None);
                let nid = m.n() as NodeId;
                let m1 = push_model(m, k, m.nodes[cur as int].rel_dir.push(k));
                let m2 = set_child_model(m1, cur as int, k, nid as int, true);
                &&& m.n() < u32::MAX
                &&& attach_ok(m.ty(cur as int), t)
                &&& !(m.ty(cur as int) == NodeType::File && t == NodeType::File)
                &&& can_set_by_dir(m2, nid, parts.drop_first(), value)
            },
        }
    }
}

impl ParadoxModDefinitionTree {
    /// Return the child at `key`, creating and attaching one when absent:
    /// the given default node, or a fresh node named after the key whose
    /// directory extends the parent's.
    pub fn setdefault(&mut self, node: NodeId, key: String, default: Option<NodeId>) -> (r: NodeId)
        requires
            old(self).wf(),
            node < old(self).arena@.n(),
            (default matches Some(d) ==> d < old(self).arena@.n()),
            can_setdefault(old(self).arena@, node as int, key@, default),
        ensures
            final(self).wf(),
            final(self).arena@ == setdefault_model(old(self).arena@, node as int, key@, default).0,
            r == setdefault_model(old(self).arena@, node as int, key@, default).1,
            r < final(self).arena@.n(),
            final(self).root == old(self).root,
    {
        let existing = self.arena.get(node).get(key.as_str());
        match existing {
            Some(c) => {
                proof {
                    entry_lookup_valid(self.arena@, node as int, key@);
                }
                c
            },
            None => {
                match default {
                    Some(d) => {
                        self.arena.set_child(node, key, d, true);
                        d
                    },
                    None => {
                        let rel_dir = self.arena.get(node).rel_dir().join(key.as_str());
                        let nid = self.arena.new_node(key.clone(), rel_dir, None);
                        proof {
                            assert(self.arena@ =~= push_model(
                                old(self).arena@,
                                key@,
                                old(self).arena@.nodes[node as int].rel_dir.push(key@),
                            ));
                        }
                        self.arena.set_child(node, key, nid, true);
                        nid
                    },
                }
            },
        }
    }

    /// Multi-segment create-if-absent; the terminal node is named `dname`
    /// rather than its path key (used to canonicalize the last segment to a
    /// synthetic marker).
    pub fn setdefault_by_dir(&mut self, node: NodeId, dir: &RelPath, dname: &str) -> (r: NodeId)
        requires
            old(self).wf(),
            node < old(self).arena@.n(),
            can_setdefault_by_dir(old(self).arena@, node, dir@, dname@),
        ensures
            final(self).wf(),
            final(self).arena@ == setdefault_by_dir_model(
                old(self).arena@,
                node,
                dir@,
                dname@,
            ).0,
            r == setdefault_by_dir_model(old(self).arena@, node, dir@, dname@).1,
            r < final(self).arena@.n(),
            final(self).arena@.n() >= old(self).arena@.n(),
            final(self).root == old(self).root,
    {
        let ghost m0 = self.arena@;
        let mut cur = node;
        let mut i: usize = 0;
        let n = dir.len();
        proof {
            assert(dir@.skip(0) =~= dir@);
        }
        while i < n
            invariant
                i <= n,
                n == dir@.len(),
                self.wf(),
                self.root == old(self).root,
                cur < self.arena@.n(),
                self.arena@.n() >= m0.n(),
                can_setdefault_by_dir(self.arena@, cur, dir@.skip(i as int), dname@),
                setdefault_by_dir_model(m0, node, dir@, dname@) == setdefault_by_dir_model(
                    self.arena@,
                    cur,
                    dir@.skip(i as int),
                    dname@,
                ),
            decreases n - i,
        {
            let ghost pre = dir@.skip(i as int);
            proof {
                assert(pre.drop_first() =~= dir@.skip(i + 1));
            }
            let key = dir.seg(i);
            let existing = self.arena.get(cur).get(key.as_str());
            match existing {
                Some(c) => {
                    proof {
                        entry_lookup_valid(self.arena@, cur as int, key@);
                    }
                    cur = c;
                },
                None => {
                    let is_last = i == n - 1;
                    let node_name = if is_last {
                        dname.to_owned()
                    } else {
                        key.clone()
                    };
                    let rel_dir = self.arena.get(cur).rel_dir().join(key.as_str());
                    let ghost mpre = self.arena@;
                    let nid = self.arena.new_node(node_name, rel_dir, None);
                    proof {
                        assert(self.arena@ =~= push_model(
                            mpre,
                            if pre.len() == 1 {
                                dname@
                            } else {
                                pre[0]
                            },
                            mpre.nodes[cur as int].rel_dir.push(pre[0]),
                        ));
                    }
                    self.arena.set_child(cur, key.clone(), nid, true);
                    cur = nid;
                },
            }
            i = i + 1;
        }
        proof {
            assert(dir@.skip(n as int) =~= Seq::<Seq<char>>::empty());
        }
        cur
    }

    /// Force-attach `value` at the terminal position of `dir`, creating
    /// absent intermediate nodes along the way; an existing terminal mapping
    /// is overwritten, last write wins.
    pub fn set_by_dir(&mut self, node: NodeId, dir: &RelPath, value: NodeId)
        requires
            old(self).wf(),
            node < old(self).arena@.n(),
            value < old(self).arena@.n(),
            can_set_by_dir(old(self).arena@, node, dir@, value),
        ensures
            final(self).wf(),
            final(self).arena@ == set_by_dir_model(old(self).arena@, node, dir@, value),
            final(self).arena@.n() >= old(self).arena@.n(),
            final(self).root == old(self).root,
    {
        let ghost m0 = self.arena@;
        let mut cur = node;
        let mut i: usize = 0;
        let n = dir.len();
        proof {
            assert(dir@.skip(0) =~= dir@);
        }
        while i < n
            invariant
                i <= n,
                n == dir@.len(),
                self.wf(),
                self.root == old(self).root,
                cur < self.arena@.n(),
                value < self.arena@.n(),
                self.arena@.n() >= m0.n(),
                can_set_by_dir(self.arena@, cur, dir@.skip(i as int), value),
                set_by_dir_model(m0, node, dir@, value) == set_by_dir_model(
                    self.arena@,
                    cur,
                    dir@.skip(i as int),
                    value,
                ),
            decreases n - i,
        {
            let ghost pre = dir@.skip(i as int);
            proof {
                assert(pre.drop_first() =~= dir@.skip(i + 1));
            }
            let key = dir.seg(i);
            if i == n - 1 {
                // the terminal position is always overwritten: last write wins
                self.arena.set_child(cur, key.clone(), value, true);
                proof {
                    assert(set_by_dir_model(self.arena@, value, pre.drop_first(), value)
                        == self.arena@);
                }
                cur = value;
            } else {
                let existing = self.arena.get(cur).get(key.as_str());
                match existing {
                    Some(c) => {
                        proof {
                            entry_lookup_valid(self.arena@, cur as int, key@);
                        }
                        cur = c;
                    },
                    None => {
                        let rel_dir = self.arena.get(cur).rel_dir().join(key.as_str());
                        let ghost mpre = self.arena@;
                        let nid = self.arena.new_node(key.clone(), rel_dir, None);
                        proof {
                            assert(self.arena@ =~= push_model(
                                mpre,
                                pre[0],
                                mpre.nodes[cur as int].rel_dir.push(pre[0]),
                            ));
                        }
                        self.arena.set_child(cur, key.clone(), nid, true);
                        cur = nid;
                    },
                }
            }
            i = i + 1;
        }
        proof {
            assert(dir@.skip(n as int) =~= Seq::<Seq<char>>::empty());
        }
    }
}


/// The most recently recorded contributor of node `i`.
pub open spec fn last_source(m: ArenaModel, i: int) -> Option<NodeId> {
    if m.srcs(i).len() == 0 {
        None
    } else {
        Some(m.srcs(i).last())
    }
}

/// Follow the chain of most-recent contributors until one of type `t` is
/// found.  `fuel` bounds the walk; the provenance ranks bound every real
/// chain, so any fuel above the node's rank gives the same answer.
pub open spec fn super_source_spec(m: ArenaModel, i: int, t: NodeType, fuel: nat) -> Option<NodeId>
    decreases fuel,
{
    if fuel == 0 {
        None
    } else {
        match last_source(m, i) {
            None => None,
            Some(s) => if m.ty(s as int) == t {
                Some(s)
            } else {
                super_source_spec(m, s as int, t, (fuel - 1) as nat)
            },
        }
    }
}

/// A node of provenance rank zero records no sources.
proof fn lemma_rank_zero_no_sources(m: ArenaModel, i: int)
    requires
        crate::arena::arena_wf(m),
        0 <= i < m.n(),
        crate::arena::prov_rank(m.ty(i)) == 0,
    ensures
        m.srcs(i).len() == 0,
{
    if m.srcs(i).len() > 0 {
        assert(crate::arena::prov_rank(m.ty(m.srcs(i)[0] as int)) < 0);
    }
}

/// Any fuel at or above the node's provenance rank gives the same walk.
pub proof fn lemma_super_source_fuel(m: ArenaModel, i: int, t: NodeType, f1: nat, f2: nat)
    requires
        crate::arena::arena_wf(m),
        0 <= i < m.n(),
        f1 >= crate::arena::prov_rank(m.ty(i)),
        f2 >= crate::arena::prov_rank(m.ty(i)),
    ensures
        super_source_spec(m, i, t, f1) == super_source_spec(m, i, t, f2),
    decreases crate::arena::prov_rank(m.ty(i)),
{
    if crate::arena::prov_rank(m.ty(i)) == 0 {
        lemma_rank_zero_no_sources(m, i);
    } else {
        assert(f1 > 0 && f2 > 0);
        match last_source(m, i) {
            None => {},
            Some(s) => {
                let li = m.srcs(i).len() - 1;
                assert(m.srcs(i)[li] == s);
                assert(crate::arena::node_ok(m, i));
                assert(crate::arena::set_ok(m, m.nodes[i].slot));
                assert(s < m.n());
                assert(crate::arena::prov_rank(m.ty(s as int)) < crate::arena::prov_rank(m.ty(i)));
                if m.ty(s as int) != t {
                    lemma_super_source_fuel(m, s as int, t, (f1 - 1) as nat, (f2 - 1) as nat);
                }
            },
        }
    }
}

/// All contributors of type `t` reachable through the provenance chains of
/// the nodes in `list`, in encounter order.
pub open spec fn super_sources_list(m: ArenaModel, list: Seq<NodeId>, t: NodeType, fuel: nat) -> Seq<NodeId>
    decreases fuel, 1int, list.len(),
{
    if list.len() == 0 {
        Seq::empty()
    } else {
        let head = if m.ty(list[0] as int) == t {
            seq![list[0]]
        } else {
            super_sources_node(m, list[0] as int, t, fuel)
        };
        head + super_sources_list(m, list.drop_first(), t, fuel)
    }
}

/// All contributors of type `t` reachable through `i`'s provenance chains.
pub open spec fn super_sources_node(m: ArenaModel, i: int, t: NodeType, fuel: nat) -> Seq<NodeId>
    decreases fuel, 0int, 0int,
{
    if fuel == 0 {
        Seq::empty()
    } else {
        super_sources_list(m, m.srcs(i), t, (fuel - 1) as nat)
    }
}

/// Splitting the walked list from the right.
proof fn lemma_ssl_snoc(m: ArenaModel, list: Seq<NodeId>, x: NodeId, t: NodeType, fuel: nat)
    ensures
        super_sources_list(m, list.push(x), t, fuel) == super_sources_list(m, list, t, fuel) + (
        if m.ty(x as int) == t {
            seq![x]
        } else {
            super_sources_node(m, x as int, t, fuel)
        }),
    decreases list.len(),
{
    if list.len() == 0 {
        assert(list.push(x).drop_first() =~= Seq::<NodeId>::empty());
        assert(list.push(x)[0] == x);
        assert(list.push(x).len() == 1);
        assert(super_sources_list(m, Seq::<NodeId>::empty(), t, fuel) =~= Seq::<NodeId>::empty());
        assert(super_sources_list(m, list.push(x), t, fuel) =~= (if m.ty(x as int) == t {
            seq![x]
        } else {
            super_sources_node(m, x as int, t, fuel)
        }));
        assert(super_sources_list(m, list, t, fuel) + (if m.ty(x as int) == t {
            seq![x]
        } else {
            super_sources_node(m, x as int, t, fuel)
        }) =~= (if m.ty(x as int) == t {
            seq![x]
        } else {
            super_sources_node(m, x as int, t, fuel)
        }));
    } else {
        assert(list.push(x).drop_first() =~= list.drop_first().push(x));
        assert(list.push(x)[0] == list[0]);
        lemma_ssl_snoc(m, list.drop_first(), x, t, fuel);
        assert(super_sources_list(m, list, t, fuel) + (if m.ty(x as int) == t {
            seq![x]
        } else {
            super_sources_node(m, x as int, t, fuel)
        }) =~= super_sources_list(m, list.push(x), t, fuel));
    }
}

/// Any fuel at or above one more than every listed node's rank walks the
/// same contributors.
pub proof fn lemma_super_sources_fuel_list(m: ArenaModel, list: Seq<NodeId>, t: NodeType, rank_bound: int, f1: nat, f2: nat)
    requires
        crate::arena::arena_wf(m),
        forall|j: int|
            0 <= j < list.len() ==> (#[trigger] list[j]) < m.n() && crate::arena::prov_rank(
                m.ty(list[j] as int),
            ) < rank_bound,
        f1 + 1 >= rank_bound,
        f2 + 1 >= rank_bound,
    ensures
        super_sources_list(m, list, t, f1) == super_sources_list(m, list, t, f2),
    decreases rank_bound, 0int, list.len(),
{
    if list.len() > 0 {
        assert(list[0] < m.n());
        if m.ty(list[0] as int) != t {
            lemma_super_sources_fuel_node(m, list[0] as int, t, f1, f2);
        }
        lemma_super_sources_fuel_list(m, list.drop_first(), t, rank_bound, f1, f2);
    }
}

/// Fuel irrelevance for one node's walk.
pub proof fn lemma_super_sources_fuel_node(m: ArenaModel, i: int, t: NodeType, f1: nat, f2: nat)
    requires
        crate::arena::arena_wf(m),
        0 <= i < m.n(),
        f1 >= crate::arena::prov_rank(m.ty(i)),
        f2 >= crate::arena::prov_rank(m.ty(i)),
    ensures
        super_sources_node(m, i, t, f1) == super_sources_node(m, i, t, f2),
    decreases crate::arena::prov_rank(m.ty(i)), 1int, 0int,
{
    if crate::arena::prov_rank(m.ty(i)) == 0 {
        lemma_rank_zero_no_sources(m, i);
        if f1 > 0 {
            assert(super_sources_node(m, i, t, f1) =~= Seq::<NodeId>::empty());
        }
        if f2 > 0 {
            assert(super_sources_node(m, i, t, f2) =~= Seq::<NodeId>::empty());
        }
    } else {
        assert(f1 > 0 && f2 > 0);
        assert(crate::arena::node_ok(m, i));
        assert(crate::arena::set_ok(m, m.nodes[i].slot));
        assert forall|j: int| 0 <= j < m.srcs(i).len() implies (#[trigger] m.srcs(i)[j]) < m.n()
            && crate::arena::prov_rank(m.ty(m.srcs(i)[j] as int)) < crate::arena::prov_rank(
            m.ty(i),
        ) by {}
        lemma_super_sources_fuel_list(
            m,
            m.srcs(i),
            t,
            crate::arena::prov_rank(m.ty(i)),
            (f1 - 1) as nat,
            (f2 - 1) as nat,
        );
    }
}

/// Keep the first occurrence of each id, in order.
pub open spec fn dedup_first(s: Seq<NodeId>) -> Seq<NodeId>
    decreases s.len(),
{
    if s.len() == 0 {
        Seq::empty()
    } else {
        let d = dedup_first(s.drop_last());
        if d.contains(s.last()) {
            d
        } else {
            d.push(s.last())
        }
    }
}

impl ParadoxModDefinitionTree {
    /// The most recently recorded contributor of `node`, if any.
    pub fn get_source(&self, node: NodeId) -> (r: Option<NodeId>)
        requires
            self.wf(),
            node < self.arena@.n(),
        ensures
            r == last_source(self.arena@, node as int),
    {
        self.arena.get_source(node)
    }

    /// Every recorded contributor of `node`, in recording order.
    pub fn get_sources(&self, node: NodeId) -> (r: Vec<NodeId>)
        requires
            self.wf(),
            node < self.arena@.n(),
        ensures
            r@ == self.arena@.srcs(node as int),
    {
        self.arena.get_sources(node)
    }

    /// More than one recorded contributor means conflict.
    pub fn has_conflict(&self, node: NodeId) -> (r: bool)
        requires
            self.wf(),
            node < self.arena@.n(),
        ensures
            r == (self.arena@.srcs(node as int).len() > 1),
    {
        self.arena.has_conflict(node)
    }

    /// Follow the chain of most-recent contributors to the first one of the
    /// requested type.
    pub fn get_super_source_by_type(&self, node: NodeId, source_type: NodeType) -> (r: Option<
        NodeId,
    >)
        requires
            self.wf(),
            node < self.arena@.n(),
        ensures
            r == super_source_spec(self.arena@, node as int, source_type, 3),
            (r matches Some(s) ==> s < self.arena@.n() && self.arena@.ty(s as int) == source_type),
        decreases crate::arena::prov_rank(self.arena@.ty(node as int)),
    {
        let ghost m = self.arena@;
        proof {
            assert(crate::arena::node_ok(m, node as int));
            assert(crate::arena::set_ok(m, m.nodes[node as int].slot));
        }
        match self.arena.get_source(node) {
            None => None,
            Some(s) => {
                proof {
                    let li = m.srcs(node as int).len() - 1;
                    assert(m.srcs(node as int)[li] == s);
                    assert(s < m.n());
                    assert(crate::arena::prov_rank(m.ty(s as int)) < crate::arena::prov_rank(
                        m.ty(node as int),
                    ));
                }
                if self.arena.get(s).node_type() == source_type {
                    Some(s)
                } else {
                    let r = self.get_super_source_by_type(s, source_type);
                    proof {
                        lemma_super_source_fuel(m, s as int, source_type, 3, 2);
                    }
                    r
                }
            },
        }
    }

    /// Every contributor of the requested type reachable through `node`'s
    /// provenance chains, in encounter order (duplicates kept).
    pub fn get_super_sources_by_type(&self, node: NodeId, source_type: NodeType) -> (r: Vec<
        NodeId,
    >)
        requires
            self.wf(),
            node < self.arena@.n(),
        ensures
            r@ == super_sources_node(self.arena@, node as int, source_type, 3),
            forall|j: int| 0 <= j < r@.len() ==> (#[trigger] r@[j]) < self.arena@.n(),
        decreases crate::arena::prov_rank(self.arena@.ty(node as int)),
    {
        let ghost m = self.arena@;
        proof {
            assert(crate::arena::node_ok(m, node as int));
            assert(crate::arena::set_ok(m, m.nodes[node as int].slot));
        }
        let sources = self.arena.get_sources(node);
        let mut results: Vec<NodeId> = Vec::new();
        let mut j: usize = 0;
        proof {
            assert(m.srcs(node as int).take(0) =~= Seq::<NodeId>::empty());
            assert(super_sources_list(m, m.srcs(node as int).take(0), source_type, 2)
                =~= Seq::<NodeId>::empty());
        }
        while j < sources.len()
            invariant
                j <= sources@.len(),
                self.wf(),
                m == self.arena@,
                node < m.n(),
                sources@ == m.srcs(node as int),
                crate::arena::set_ok(m, m.nodes[node as int].slot),
                forall|x: int|
                    0 <= x < sources@.len() ==> (#[trigger] sources@[x]) < m.n()
                        && crate::arena::prov_rank(m.ty(sources@[x] as int))
                        < crate::arena::prov_rank(m.ty(node as int)),
                results@ == super_sources_list(
                    m,
                    m.srcs(node as int).take(j as int),
                    source_type,
                    2,
                ),
                forall|x: int| 0 <= x < results@.len() ==> (#[trigger] results@[x]) < m.n(),
            decreases sources@.len() - j,
        {
            let s = sources[j];
            proof {
                assert(m.srcs(node as int).take(j + 1) =~= m.srcs(node as int).take(
                    j as int,
                ).push(s));
                lemma_ssl_snoc(m, m.srcs(node as int).take(j as int), s, source_type, 2);
            }
            if self.arena.get(s).node_type() == source_type {
                results.push(s);
            } else {
                let mut sub = self.get_super_sources_by_type(s, source_type);
                proof {
                    lemma_super_sources_fuel_node(m, s as int, source_type, 3, 2);
                }
                results.append(&mut sub);
            }
            j = j + 1;
        }
        proof {
            assert(m.srcs(node as int).take(sources@.len() as int) =~= m.srcs(node as int));
        }
        results
    }

    /// The distinct owning mods of `node`: walk every contributor's own
    /// provenance chain to the nearest Mod-typed node, keeping first
    /// occurrences in order.
    pub fn get_mod_sources(&self, node: NodeId) -> (r: Vec<NodeId>)
        requires
            self.wf(),
            node < self.arena@.n(),
        ensures
            r@ == dedup_first(super_sources_list(
                self.arena@,
                self.arena@.srcs(node as int),
                NodeType::Mod,
                2,
            )),
    {
        let ghost m = self.arena@;
        proof {
            assert(crate::arena::node_ok(m, node as int));
            assert(crate::arena::set_ok(m, m.nodes[node as int].slot));
        }
        let sources = self.arena.get_sources(node);
        let mut gathered: Vec<NodeId> = Vec::new();
        let mut j: usize = 0;
        proof {
            assert(m.srcs(node as int).take(0) =~= Seq::<NodeId>::empty());
            assert(super_sources_list(m, m.srcs(node as int).take(0), NodeType::Mod, 2)
                =~= Seq::<NodeId>::empty());
        }
        while j < sources.len()
            invariant
                j <= sources@.len(),
                self.wf(),
                m == self.arena@,
                node < m.n(),
                sources@ == m.srcs(node as int),
                forall|x: int|
                    0 <= x < sources@.len() ==> (#[trigger] sources@[x]) < m.n()
                        && crate::arena::prov_rank(m.ty(sources@[x] as int))
                        < crate::arena::prov_rank(m.ty(node as int)),
                gathered@ == super_sources_list(
                    m,
                    m.srcs(node as int).take(j as int),
                    NodeType::Mod,
                    2,
                ),
            decreases sources@.len() - j,
        {
            let s = sources[j];
            proof {
                assert(m.srcs(node as int).take(j + 1) =~= m.srcs(node as int).take(
                    j as int,
                ).push(s));
                lemma_ssl_snoc(m, m.srcs(node as int).take(j as int), s, NodeType::Mod, 2);
            }
            if self.arena.get(s).node_type() == NodeType::Mod {
                gathered.push(s);
            } else {
                let mut sub = self.get_super_sources_by_type(s, NodeType::Mod);
                proof {
                    lemma_super_sources_fuel_node(m, s as int, NodeType::Mod, 3, 2);
                }
                gathered.append(&mut sub);
            }
            j = j + 1;
        }
        proof {
            assert(m.srcs(node as int).take(sources@.len() as int) =~= m.srcs(node as int));
        }
        // keep the first occurrence of each mod
        let mut out: Vec<NodeId> = Vec::new();
        let mut k: usize = 0;
        proof {
            assert(gathered@.take(0) =~= Seq::<NodeId>::empty());
            assert(dedup_first(gathered@.take(0)) =~= Seq::<NodeId>::empty());
        }
        while k < gathered.len()
            invariant
                k <= gathered@.len(),
                out@ == dedup_first(gathered@.take(k as int)),
            decreases gathered@.len() - k,
        {
            let x = gathered[k];
            proof {
                assert(gathered@.take(k + 1) =~= gathered@.take(k as int).push(x));
                assert(gathered@.take(k + 1).drop_last() =~= gathered@.take(k as int));
            }
            let mut seen = false;
            let mut q: usize = 0;
            while q < out.len()
                invariant
                    q <= out@.len(),
                    seen == exists|y: int| 0 <= y < q && out@[y] == x,
                decreases out@.len() - q,
            {
                if out[q] == x {
                    seen = true;
                }
                q = q + 1;
            }
            proof {
                assert(seen == out@.contains(x));
            }
            if !seen {
                out.push(x);
            }
            k = k + 1;
        }
        proof {
            assert(gathered@.take(gathered@.len() as int) =~= gathered@);
        }
        out
    }
}

} // verus!
