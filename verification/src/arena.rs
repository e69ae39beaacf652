//! The arena: an append-only indexed store of nodes, a name index, and the
//! mod registry.
//!
//! Nodes are addressed by stable integer ids and never destroyed.  Each node
//! records its provenance as a set of contributing Mod/File node ids; such a
//! set can become shared between two nodes after a conflict-aware merge, so
//! the sets live in a side table of slots and a node holds a slot index.

use crate::imaps::{
    child_entries, cm_entries, cm_get, cm_insert, cm_len, cm_new, entry_index, entry_insert,
    entry_lookup, has_entry, lemma_entry_index, name_index, nm_get, nm_insert, nm_new,
};
use crate::node_type::{attach_ok, classify, get_node_type, NodeType};
use crate::ordered_map::{keys_unique, IndexedOrderedMap};
use crate::path::RelPath;
use vstd::prelude::*;

verus! {

/// Stable, append-only, never reused index into the arena.
pub type NodeId = u32;

/// Rank of a node type in the provenance hierarchy: a node's recorded
/// sources are always of strictly smaller rank, which bounds every
/// provenance chain (nothing records a `Mod`'s source; a `File`'s sources
/// are `Mod`s).
///
/// This is the crate's reading of the provenance-eligibility rule — only
/// Mod- or File-typed nodes are recorded, on children that are File-or-finer
/// — sharpened just enough that the recursive provenance queries
/// (`get_mod_sources` and the super-source walks) provably return on every
/// input: ranks strictly decrease along source edges, so no provenance chain
/// can be circular.  The one recording the sharpening refuses is a File
/// child sourced to a File parent, the single case the eligibility rule
/// would admit that can close a cycle (two file nodes sourcing each other);
/// the extraction and fold pipeline never produces it.
pub open spec fn prov_rank(t: NodeType) -> int {
    if t == NodeType::Mod {
        0
    } else if t == NodeType::File {
        1
    } else {
        2
    }
}

/// Metadata of one registered mod.
pub struct ModData {
    /// Resolution priority; ascending order means loaded earlier.
    pub load_order: u32,
    /// Whether the mod takes part in the aggregate content view.
    pub enabled: bool,
    /// Display name.
    pub name: String,
    /// The arena node standing for this mod.
    pub node_id: NodeId,
    /// Filesystem root of the mod, as segments.
    pub path: RelPath,
}

/// Mathematical image of a [`ModData`].
#[verifier::ext_equal]
pub ghost struct ModDataModel {
    pub load_order: u32,
    pub enabled: bool,
    pub name: Seq<char>,
    pub node_id: NodeId,
    pub path: Seq<Seq<char>>,
}

impl View for ModData {
    type V = ModDataModel;

    open spec fn view(&self) -> ModDataModel {
        ModDataModel {
            load_order: self.load_order,
            enabled: self.enabled,
            name: self.name@,
            node_id: self.node_id,
            path: self.path@,
        }
    }
}

/// One node of the definition tree.
pub struct BaseNode {
    parent: Option<NodeId>,
    children: indexmap::IndexMap<String, NodeId>,
    node_type: NodeType,
    value: Option<String>,
    sources: usize,
    name: String,
    rel_dir: RelPath,
    start_point: Option<(usize, usize)>,
}

/// Mathematical image of a [`BaseNode`].
#[verifier::ext_equal]
pub ghost struct NodeModel {
    pub parent: Option<NodeId>,
    pub children: Seq<(Seq<char>, NodeId)>,
    pub node_type: NodeType,
    pub value: Option<Seq<char>>,
    pub slot: int,
    pub name: Seq<char>,
    pub rel_dir: Seq<Seq<char>>,
    pub start_point: Option<(usize, usize)>,
}

impl View for BaseNode {
    type V = NodeModel;

    closed spec fn view(&self) -> NodeModel {
        NodeModel {
            parent: self.parent,
            children: child_entries(self.children),
            node_type: self.node_type,
            value: self.value.deep_view(),
            slot: self.sources as int,
            name: self.name@,
            rel_dir: self.rel_dir@,
            start_point: self.start_point,
        }
    }
}

/// The arena itself.
pub struct Arena {
    nodes: Vec<BaseNode>,
    source_sets: Vec<Vec<NodeId>>,
    library: indexmap::IndexMap<String, Vec<NodeId>>,
    /// The mod registry, in registration order.
    pub mod_data: IndexedOrderedMap<ModData>,
}

/// Mathematical image of an [`Arena`].
#[verifier::ext_equal]
pub ghost struct ArenaModel {
    pub nodes: Seq<NodeModel>,
    pub sets: Seq<Seq<NodeId>>,
    pub library: Map<Seq<char>, Seq<NodeId>>,
    pub mods: Seq<(NodeId, ModDataModel)>,
}

impl View for Arena {
    type V = ArenaModel;

    closed spec fn view(&self) -> ArenaModel {
        ArenaModel {
            nodes: self.nodes.deep_view(),
            sets: self.source_sets.deep_view(),
            library: name_index(self.library),
            mods: Seq::new(self.mod_data@.len(), |i: int| (self.mod_data@[i].0, self.mod_data@[i].1@)),
        }
    }
}

impl DeepView for BaseNode {
    type V = NodeModel;

    open spec fn deep_view(&self) -> NodeModel {
        self.view()
    }
}

impl ArenaModel {
    /// Number of nodes.
    pub open spec fn n(self) -> int {
        self.nodes.len() as int
    }

    /// Type of node `i`.
    pub open spec fn ty(self, i: int) -> NodeType {
        self.nodes[i].node_type
    }

    /// Children entries of node `i`, in insertion order.
    pub open spec fn kids(self, i: int) -> Seq<(Seq<char>, NodeId)> {
        self.nodes[i].children
    }

    /// Provenance set of node `i`, in insertion order.
    pub open spec fn srcs(self, i: int) -> Seq<NodeId> {
        self.sets[self.nodes[i].slot]
    }
}

/// The registry's view keeps keys and lookup positions.
proof fn lemma_mods_view_lookup(d: Seq<(u32, ModData)>, v: Seq<(u32, ModDataModel)>, k: u32)
    requires
        v.len() == d.len(),
        forall|i: int| 0 <= i < d.len() ==> (#[trigger] v[i]).0 == d[i].0 && v[i].1 == d[i].1@,
    ensures
        crate::ordered_map::key_index(d, k) == crate::ordered_map::key_index(v, k),
        crate::ordered_map::has_key(v, k) ==> crate::ordered_map::key_lookup(v, k) == Some(
            d[crate::ordered_map::key_index(d, k)].1@,
        ),
    decreases d.len(),
{
    if d.len() > 0 && d[0].0 != k {
        assert(forall|i: int|
            1 <= i < d.len() ==> d[i] == #[trigger] d.drop_first()[i - 1] && v[i]
                == v.drop_first()[i - 1]);
        assert forall|i: int|
            0 <= i < d.drop_first().len() implies (#[trigger] v.drop_first()[i]).0
            == d.drop_first()[i].0 && v.drop_first()[i].1 == d.drop_first()[i].1@ by {
            assert(v.drop_first()[i] == v[i + 1]);
            assert(d.drop_first()[i] == d[i + 1]);
        }
        lemma_mods_view_lookup(d.drop_first(), v.drop_first(), k);
        crate::ordered_map::lemma_key_index(d, k);
        crate::ordered_map::lemma_key_index(v, k);
    }
}

/// A child found in a well-formed arena is a valid node obeying the
/// attachment rule under its parent.
pub proof fn entry_lookup_valid(m: ArenaModel, i: int, k: Seq<char>)
    requires
        arena_wf(m),
        0 <= i < m.n(),
        entry_lookup(m.kids(i), k) is Some,
    ensures
        entry_lookup(m.kids(i), k).unwrap() < m.n(),
        attach_ok(m.ty(i), m.ty(entry_lookup(m.kids(i), k).unwrap() as int)),
{
    lemma_entry_index(m.kids(i), k);
    assert(node_ok(m, i));
    let e = entry_index(m.kids(i), k);
    assert(m.kids(i)[e].1 < m.n() && attach_ok(m.ty(i), m.ty(m.kids(i)[e].1 as int)));
}

/// Elements of `s` are pairwise distinct.
pub open spec fn elems_unique(s: Seq<NodeId>) -> bool {
    forall|a: int, b: int| 0 <= a < b < s.len() ==> s[a] != s[b]
}

/// `s` with `x` added at the end unless already present.
pub open spec fn set_insert(s: Seq<NodeId>, x: NodeId) -> Seq<NodeId> {
    if s.contains(x) {
        s
    } else {
        s.push(x)
    }
}

/// Node `i` of model `m` is internally consistent.
pub open spec fn node_ok(m: ArenaModel, i: int) -> bool {
    let nd = m.nodes[i];
    &&& 0 <= nd.slot < m.sets.len()
    &&& (nd.parent matches Some(p) ==> p < m.n())
    &&& forall|j: int|
        0 <= j < nd.children.len() ==> (#[trigger] nd.children[j]).1 < m.n() && attach_ok(
            nd.node_type,
            m.ty(nd.children[j].1 as int),
        )
    &&& forall|a: int, b: int|
        0 <= a < b < nd.children.len() ==> nd.children[a].0 != nd.children[b].0
}

/// Source-set slot `s` of model `m` is internally consistent.
pub open spec fn set_ok(m: ArenaModel, s: int) -> bool {
    let set = m.sets[s];
    &&& elems_unique(set)
    &&& forall|j: int|
        0 <= j < set.len() ==> (#[trigger] set[j]) < m.n() && (m.ty(set[j] as int) == NodeType::Mod
            || m.ty(set[j] as int) == NodeType::File)
}

/// Well-formedness of the node store and the provenance slots.
pub open spec fn wf_nodes(m: ArenaModel) -> bool {
    &&& m.n() <= u32::MAX
    &&& forall|i: int| 0 <= i < m.n() ==> node_ok(m, i)
    &&& forall|s: int| 0 <= s < m.sets.len() ==> set_ok(m, s)
    // every recorded source is of strictly smaller provenance rank than the
    // node it is recorded on
    &&& forall|i: int, j: int|
        0 <= i < m.n() && 0 <= j < m.srcs(i).len() ==> prov_rank(
            m.ty(#[trigger] m.srcs(i)[j] as int),
        ) < prov_rank(m.ty(i))
    // nodes sharing a provenance slot have the same rank, so a union through
    // one of them stays legal for the other
    &&& forall|i: int, j: int|
        0 <= i < m.n() && 0 <= j < m.n() && m.nodes[i].slot == m.nodes[j].slot ==> prov_rank(
            #[trigger] m.ty(i),
        ) == prov_rank(#[trigger] m.ty(j))
}

/// The name index holds valid ids of nodes carrying that very name.
pub open spec fn wf_library(m: ArenaModel) -> bool {
    forall|nm: Seq<char>, x: int|
        m.library.contains_key(nm) && 0 <= x < m.library[nm].len() ==> (#[trigger] m.library[nm][x])
            < m.n() && m.nodes[m.library[nm][x] as int].name == nm
}

/// The mod registry points at Mod-typed nodes, one entry per node.
pub open spec fn wf_mods(m: ArenaModel) -> bool {
    &&& keys_unique(m.mods)
    &&& forall|j: int|
        0 <= j < m.mods.len() ==> (#[trigger] m.mods[j]).0 < m.n() && m.ty(m.mods[j].0 as int)
            == NodeType::Mod
}

/// Well-formedness of the whole arena model.
pub open spec fn arena_wf(m: ArenaModel) -> bool {
    &&& wf_nodes(m)
    &&& wf_library(m)
    &&& wf_mods(m)
}

/// Well-formedness only reads the parts of a model it speaks of.
pub proof fn lemma_wf_frame(m1: ArenaModel, m2: ArenaModel)
    requires
        m2.nodes == m1.nodes,
        m2.sets == m1.sets,
    ensures
        wf_nodes(m1) ==> wf_nodes(m2),
        wf_library(m1) && m2.library == m1.library ==> wf_library(m2),
        wf_mods(m1) && m2.mods == m1.mods ==> wf_mods(m2),
{
    if wf_nodes(m1) {
        assert forall|i: int| 0 <= i < m2.n() implies node_ok(m2, i) by {
            assert(node_ok(m1, i));
        }
        assert forall|s: int| 0 <= s < m2.sets.len() implies set_ok(m2, s) by {
            assert(set_ok(m1, s));
        }
        assert forall|i: int, j: int|
            0 <= i < m2.n() && 0 <= j < m2.srcs(i).len() implies prov_rank(
            m2.ty(#[trigger] m2.srcs(i)[j] as int),
        ) < prov_rank(m2.ty(i)) by {
            assert(m2.srcs(i) == m1.srcs(i));
            assert(prov_rank(m1.ty(m1.srcs(i)[j] as int)) < prov_rank(m1.ty(i)));
        }
        assert forall|i: int, j: int|
            0 <= i < m2.n() && 0 <= j < m2.n() && m2.nodes[i].slot == m2.nodes[j].slot implies
        prov_rank(#[trigger] m2.ty(i)) == prov_rank(#[trigger] m2.ty(j)) by {
            assert(prov_rank(m1.ty(i)) == prov_rank(m1.ty(j)));
        }
    }
}

/// How the deep view of the node vector relates to its elements.
proof fn lemma_nodes_index(v: Vec<BaseNode>)
    ensures
        v.deep_view().len() == v@.len(),
        forall|j: int| 0 <= j < v@.len() ==> v.deep_view()[j] == (#[trigger] v@[j])@,
{
}

/// How the deep view of the slot table relates to its elements.
proof fn lemma_sets_index(v: Vec<Vec<NodeId>>)
    ensures
        v.deep_view().len() == v@.len(),
        forall|j: int| 0 <= j < v@.len() ==> v.deep_view()[j] == (#[trigger] v@[j])@,
{
    assert forall|j: int| 0 <= j < v@.len() implies v.deep_view()[j] == (#[trigger] v@[j])@ by {
        assert(v.deep_view()[j] =~= v@[j]@);
    }
}

/// Whether `v` holds `x`.
fn vec_has(v: &Vec<NodeId>, x: NodeId) -> (r: bool)
    ensures
        r == v@.contains(x),
{
    let mut i: usize = 0;
    while i < v.len()
        invariant
            i <= v@.len(),
            forall|j: int| 0 <= j < i ==> v@[j] != x,
        decreases v@.len() - i,
    {
        if v[i] == x {
            return true;
        }
        i = i + 1;
    }
    false
}

impl Arena {
    /// Well-formedness of this arena.
    pub open spec fn wf(&self) -> bool {
        arena_wf(self@)
    }

    /// A fresh, empty arena.
    pub fn new() -> (r: Self)
        ensures
            r.wf(),
            r@.n() == 0,
            r@.sets.len() == 0,
            forall|nm: Seq<char>| !r@.library.contains_key(nm),
            r@.mods.len() == 0,
    {
        let r = Arena {
            nodes: Vec::new(),
            source_sets: Vec::new(),
            library: nm_new(),
            mod_data: IndexedOrderedMap::new(),
        };
        proof {
            lemma_nodes_index(r.nodes);
            lemma_sets_index(r.source_sets);
        }
        r
    }

    /// The registry entry of mod node `id`, if one was enrolled.
    pub fn mod_data_of(&self, id: NodeId) -> (r: Option<&ModData>)
        ensures
            (r matches Some(md) ==> crate::ordered_map::key_lookup(self@.mods, id) == Some(md@)),
            r is None ==> !crate::ordered_map::has_key(self@.mods, id),
    {
        proof {
            lemma_mods_view_lookup(self.mod_data@, self@.mods, id);
        }
        self.mod_data.get(id)
    }

    /// The registered mods, in registration order.
    pub fn mod_entries(&self) -> (r: &Vec<(NodeId, ModData)>)
        ensures
            r@.len() == self@.mods.len(),
            forall|j: int|
                0 <= j < r@.len() ==> (#[trigger] r@[j]).0 == self@.mods[j].0 && r@[j].1@
                    == self@.mods[j].1,
    {
        self.mod_data.entries()
    }

    /// Number of nodes stored.
    pub fn len(&self) -> (r: usize)
        ensures
            r == self@.n(),
    {
        proof {
            lemma_nodes_index(self.nodes);
        }
        self.nodes.len()
    }

    /// Append a freshly classified node; returns its id.
    pub fn new_node(&mut self, name: String, rel_dir: RelPath, value: Option<String>) -> (r:
        NodeId)
        requires
            old(self).wf(),
            old(self)@.n() < u32::MAX,
        ensures
            final(self).wf(),
            r == old(self)@.n(),
            final(self)@.nodes == old(self)@.nodes.push(
                fresh_node(
                    name@,
                    rel_dir@,
                    value.deep_view(),
                    classify(name@, rel_dir@, value.deep_view()),
                    old(self)@.sets.len() as int,
                ),
            ),
            final(self)@.sets == old(self)@.sets.push(Seq::empty()),
            final(self)@.library == lib_add(old(self)@.library, name@, r),
            final(self)@.mods == old(self)@.mods,
    {
        let node_type = get_node_type(name.as_str(), &rel_dir, &value);
        let r = self.push_node(name.clone(), rel_dir, value, node_type);
        let mut ids: Vec<NodeId> = match nm_get(&self.library, name.as_str()) {
            Some(v) => v,
            None => Vec::new(),
        };
        ids.push(r);
        nm_insert(&mut self.library, name, ids);
        proof {
            assert(final(self)@.library =~= lib_add(old(self)@.library, name@, r));
            lemma_push_wf(old(self)@, self@, r as int);
        }
        r
    }

    /// Append a node with an explicitly chosen type (used for Mod nodes);
    /// the node is not recorded in the name index.
    pub fn new_typed_node(&mut self, name: String, rel_dir: RelPath, value: Option<String>,
        node_type: NodeType) -> (r: NodeId)
        requires
            old(self).wf(),
            old(self)@.n() < u32::MAX,
        ensures
            final(self).wf(),
            r == old(self)@.n(),
            final(self)@.nodes == old(self)@.nodes.push(
                fresh_node(
                    name@,
                    rel_dir@,
                    value.deep_view(),
                    node_type,
                    old(self)@.sets.len() as int,
                ),
            ),
            final(self)@.sets == old(self)@.sets.push(Seq::empty()),
            final(self)@.library == old(self)@.library,
            final(self)@.mods == old(self)@.mods,
    {
        let r = self.push_node(name, rel_dir, value, node_type);
        proof {
            lemma_push_wf(old(self)@, self@, r as int);
        }
        r
    }

    /// Shared body of the two node constructors; adjusts no index.
    fn push_node(&mut self, name: String, rel_dir: RelPath, value: Option<String>,
        node_type: NodeType) -> (r: NodeId)
        requires
            old(self)@.n() < u32::MAX,
        ensures
            r == old(self)@.n(),
            final(self)@.nodes == old(self)@.nodes.push(
                fresh_node(
                    name@,
                    rel_dir@,
                    value.deep_view(),
                    node_type,
                    old(self)@.sets.len() as int,
                ),
            ),
            final(self)@.sets == old(self)@.sets.push(Seq::empty()),
            final(self)@.library == old(self)@.library,
            final(self)@.mods == old(self)@.mods,
    {
        proof {
            lemma_nodes_index(self.nodes);
            lemma_sets_index(self.source_sets);
        }
        let node_id = self.nodes.len() as NodeId;
        let node = BaseNode {
            parent: None,
            children: cm_new(),
            node_type,
            value,
            sources: self.source_sets.len(),
            name,
            rel_dir,
            start_point: None,
        };
        self.source_sets.push(Vec::new());
        self.nodes.push(node);
        proof {
            lemma_nodes_index(self.nodes);
            lemma_sets_index(self.source_sets);
            assert(self@.nodes =~= old(self)@.nodes.push(
                fresh_node(
                    node.name@,
                    node.rel_dir@,
                    node.value.deep_view(),
                    node_type,
                    old(self)@.sets.len() as int,
                ),
            ));
            assert(self@.sets =~= old(self)@.sets.push(Seq::empty()));
        }
        node_id
    }

    /// Register a mod: a Mod-typed node plus an entry in the registry.
    pub fn new_mod(&mut self, name: String, enabled: bool, load_order: u32, path: RelPath)
        requires
            old(self).wf(),
            old(self)@.n() < u32::MAX,
        ensures
            final(self).wf(),
            final(self)@.nodes == old(self)@.nodes.push(
                fresh_node(
                    name@,
                    Seq::empty(),
                    None,
                    NodeType::Mod,
                    old(self)@.sets.len() as int,
                ),
            ),
            final(self)@.sets == old(self)@.sets.push(Seq::empty()),
            final(self)@.library == old(self)@.library,
            final(self)@.mods == old(self)@.mods.push(
                (
                    old(self)@.n() as NodeId,
                    (ModDataModel {
                        load_order,
                        enabled,
                        name: name@,
                        node_id: old(self)@.n() as NodeId,
                        path: path@,
                    }),
                ),
            ),
    {
        let node_id = self.new_typed_node(name.clone(), RelPath::empty(), None, NodeType::Mod);
        let ghost m1 = self@;
        let md = ModData { load_order, enabled, name, node_id, path };
        proof {
            crate::ordered_map::lemma_key_index(self.mod_data@, node_id);
            if crate::ordered_map::has_key(self.mod_data@, node_id) {
                let gi = crate::ordered_map::key_index(self.mod_data@, node_id);
                assert(m1.mods[gi].0 == node_id);
                assert(old(self)@.mods[gi].0 < old(self)@.n());
                assert(false);
            }
        }
        self.mod_data.insert(node_id, md);
        proof {
            assert(self@.mods =~= m1.mods.push((node_id, md@)));
            lemma_wf_frame(m1, self@);
            assert(keys_unique(self@.mods)) by {
                assert forall|a: int, b: int|
                    0 <= a < b < self@.mods.len() implies self@.mods[a].0 != self@.mods[b].0 by {
                    if b == self@.mods.len() - 1 {
                        assert(old(self)@.mods[a].0 < old(self)@.n());
                    } else {
                        assert(old(self)@.mods[a].0 != old(self)@.mods[b].0);
                    }
                }
            }
            assert forall|j: int| 0 <= j < self@.mods.len() implies (#[trigger] self@.mods[j]).0
                < self@.n() && self@.ty(self@.mods[j].0 as int) == NodeType::Mod by {
                if j < self@.mods.len() - 1 {
                    assert(m1.mods[j].0 < m1.n() && m1.ty(m1.mods[j].0 as int) == NodeType::Mod);
                }
            }
        }
    }
}

impl BaseNode {
    /// Display name.
    pub fn name(&self) -> (r: &String)
        ensures
            r@ == self@.name,
    {
        &self.name
    }

    /// Literal payload, present only on value-shaped leaves.
    pub fn value(&self) -> (r: &Option<String>)
        ensures
            r.deep_view() == self@.value,
    {
        &self.value
    }

    /// The node's classification.
    pub fn node_type(&self) -> (r: NodeType)
        ensures
            r == self@.node_type,
    {
        self.node_type
    }

    /// Back-reference to the node this one hangs under, if any.
    pub fn parent(&self) -> (r: Option<NodeId>)
        ensures
            r == self@.parent,
    {
        self.parent
    }

    /// The relative directory recorded for this node.
    pub fn rel_dir(&self) -> (r: &RelPath)
        ensures
            r@ == self@.rel_dir,
    {
        &self.rel_dir
    }

    /// Source position for diagnostics, if stamped.
    pub fn start_point(&self) -> (r: Option<(usize, usize)>)
        ensures
            r == self@.start_point,
    {
        self.start_point
    }

    /// The provenance slot this node points at.
    pub fn slot_index(&self) -> (r: usize)
        ensures
            r as int == self@.slot,
    {
        self.sources
    }

    /// The child stored under `key`, if any.
    pub fn get(&self, key: &str) -> (r: Option<NodeId>)
        ensures
            r == entry_lookup(self@.children, key@),
    {
        cm_get(&self.children, key)
    }

    /// Number of children.
    pub fn children_len(&self) -> (r: usize)
        ensures
            r == self@.children.len(),
    {
        cm_len(&self.children)
    }

    /// The children as (key, id) pairs, in insertion order.
    pub fn children_entries(&self) -> (r: Vec<(String, NodeId)>)
        ensures
            r@.len() == self@.children.len(),
            forall|i: int|
                0 <= i < r@.len() ==> (#[trigger] r@[i].0)@ == self@.children[i].0 && r@[i].1
                    == self@.children[i].1,
    {
        proof {
            assert(self@.children == child_entries(self.children));
        }
        cm_entries(&self.children)
    }
}

/// Copy a vector of ids.
fn vec_copy(v: &Vec<NodeId>) -> (r: Vec<NodeId>)
    ensures
        r@ == v@,
{
    let mut r: Vec<NodeId> = Vec::new();
    let mut i: usize = 0;
    while i < v.len()
        invariant
            i <= v@.len(),
            r@ == v@.take(i as int),
        decreases v@.len() - i,
    {
        r.push(v[i]);
        proof {
            assert(r@ =~= v@.take(i + 1));
        }
        i = i + 1;
    }
    proof {
        assert(v@.take(v@.len() as int) =~= v@);
    }
    r
}

impl Arena {
    /// Borrow node `id`.
    pub fn get(&self, id: NodeId) -> (r: &BaseNode)
        requires
            id < self@.n(),
        ensures
            r@ == self@.nodes[id as int],
    {
        proof {
            lemma_nodes_index(self.nodes);
        }
        &self.nodes[id as usize]
    }

    /// All nodes recorded in the name index under `name`, in creation order.
    pub fn get_by_name(&self, name: &str) -> (r: Option<Vec<NodeId>>)
        ensures
            r matches Some(v) ==> self@.library.contains_key(name@) && v@ == self@.library[name@],
            r is None ==> !self@.library.contains_key(name@),
    {
        nm_get(&self.library, name)
    }

    /// The provenance set of node `id`, in recording order.
    pub fn get_sources(&self, id: NodeId) -> (r: Vec<NodeId>)
        requires
            self.wf(),
            id < self@.n(),
        ensures
            r@ == self@.srcs(id as int),
    {
        proof {
            lemma_nodes_index(self.nodes);
            lemma_sets_index(self.source_sets);
            assert(node_ok(self@, id as int));
        }
        let slot = self.nodes[id as usize].sources;
        vec_copy(&self.source_sets[slot])
    }

    /// The most recently recorded contributor, if any.
    pub fn get_source(&self, id: NodeId) -> (r: Option<NodeId>)
        requires
            self.wf(),
            id < self@.n(),
        ensures
            self@.srcs(id as int).len() == 0 ==> r is None,
            self@.srcs(id as int).len() > 0 ==> r == Some(
                self@.srcs(id as int)[self@.srcs(id as int).len() - 1],
            ),
    {
        proof {
            lemma_nodes_index(self.nodes);
            lemma_sets_index(self.source_sets);
            assert(node_ok(self@, id as int));
        }
        let slot = self.nodes[id as usize].sources;
        let set = &self.source_sets[slot];
        if set.len() == 0 {
            None
        } else {
            Some(set[set.len() - 1])
        }
    }

    /// More than one recorded contributor means the node is in conflict.
    pub fn has_conflict(&self, id: NodeId) -> (r: bool)
        requires
            self.wf(),
            id < self@.n(),
        ensures
            r == (self@.srcs(id as int).len() > 1),
    {
        proof {
            lemma_nodes_index(self.nodes);
            lemma_sets_index(self.source_sets);
            assert(node_ok(self@, id as int));
        }
        let slot = self.nodes[id as usize].sources;
        self.source_sets[slot].len() > 1
    }

    /// Record `parent_id` as the back-reference of `id`.
    pub fn set_parent(&mut self, id: NodeId, parent_id: NodeId)
        requires
            old(self).wf(),
            id < old(self)@.n(),
            parent_id < old(self)@.n(),
        ensures
            final(self).wf(),
            final(self)@ == set_parent_model(old(self)@, id as int, parent_id),
    {
        proof {
            lemma_nodes_index(self.nodes);
        }
        let node = &mut self.nodes[id as usize];
        node.parent = Some(parent_id);
        proof {
            lemma_nodes_index(self.nodes);
            assert(self@.nodes =~= set_parent_model(old(self)@, id as int, parent_id).nodes);
            assert(self@.sets == old(self)@.sets);
            assert(node_ok(old(self)@, id as int));
            lemma_node_replace_wf(old(self)@, self@, id as int);
        }
    }

    /// Stamp the source position of `id`.
    pub fn set_node_start_point(&mut self, id: NodeId, line: usize, col: usize)
        requires
            old(self).wf(),
            id < old(self)@.n(),
        ensures
            final(self).wf(),
            final(self)@ == set_start_model(old(self)@, id as int, line, col),
    {
        proof {
            lemma_nodes_index(self.nodes);
        }
        let node = &mut self.nodes[id as usize];
        node.start_point = Some((line, col));
        proof {
            lemma_nodes_index(self.nodes);
            assert(self@.nodes =~= set_start_model(old(self)@, id as int, line, col).nodes);
            assert(self@.sets == old(self)@.sets);
            assert(node_ok(old(self)@, id as int));
            lemma_node_replace_wf(old(self)@, self@, id as int);
        }
    }

    /// Record `source_id` in the provenance set of `id` (idempotent).
    pub fn set_source(&mut self, id: NodeId, source_id: NodeId)
        requires
            old(self).wf(),
            id < old(self)@.n(),
            source_id < old(self)@.n(),
            prov_rank(old(self)@.ty(source_id as int)) < prov_rank(old(self)@.ty(id as int)),
        ensures
            final(self).wf(),
            final(self)@ == set_source_model(old(self)@, id as int, source_id),
    {
        proof {
            lemma_nodes_index(self.nodes);
            lemma_sets_index(self.source_sets);
            assert(node_ok(self@, id as int));
        }
        let slot = self.nodes[id as usize].sources;
        let present = vec_has(&self.source_sets[slot], source_id);
        if !present {
            self.source_sets[slot].push(source_id);
        }
        proof {
            lemma_sets_index(self.source_sets);
            assert(self@.sets =~= set_source_model(old(self)@, id as int, source_id).sets);
            assert(self@.nodes == old(self)@.nodes);
            lemma_set_source_wf(old(self)@, self@, id as int, source_id);
        }
    }
}

/// Whether this attachment records the parent as a provenance source:
/// only Mod- or File-typed parents are recorded, and only on children that
/// are File-or-finer.
pub open spec fn marks_source(m: ArenaModel, p: int, v: int, mark: bool) -> bool {
    &&& mark
    &&& m.ty(v).rank() <= NodeType::File.rank()
    &&& (m.ty(p) == NodeType::Mod || m.ty(p) == NodeType::File)
}

/// What `set_child` asks of its caller: valid distinct ids, the attachment
/// rule, and no File-under-File provenance marking.  The last condition is
/// the rank discipline of [`prov_rank`]: it is what makes every provenance
/// walk terminate, and it is the only narrowing of the data model's
/// provenance-eligibility rule.
pub open spec fn can_set_child(m: ArenaModel, p: int, v: int, mark: bool) -> bool {
    &&& 0 <= p < m.n()
    &&& 0 <= v < m.n()
    &&& p != v
    &&& attach_ok(m.ty(p), m.ty(v))
    &&& !(mark && m.ty(p) == NodeType::File && m.ty(v) == NodeType::File)
}

/// The model after attaching `v` under `p` at key `k`: provenance is marked
/// when eligible, the back-reference is set unless the parent is Virtual,
/// and the ordered children mapping is updated last-write-wins.
pub open spec fn set_child_model(m: ArenaModel, p: int, k: Seq<char>, v: int, mark: bool) -> ArenaModel {
    let ma = if marks_source(m, p, v, mark) {
        set_source_model(m, v, p as NodeId)
    } else {
        m
    };
    let mb = if m.ty(p) != NodeType::Virtual {
        set_parent_model(ma, v, p as NodeId)
    } else {
        ma
    };
    ArenaModel {
        nodes: mb.nodes.update(
            p,
            (NodeModel { children: entry_insert(mb.nodes[p].children, k, v as NodeId), ..mb.nodes[p] }),
        ),
        ..mb
    }
}

impl Arena {
    /// Attach `value` under `parent` at `key`, enforcing the attachment rule
    /// (the rule itself is this function's precondition, so no violation can
    /// reach it), conditionally recording provenance, then inserting into the
    /// ordered children mapping, where the last write wins.
    pub fn set_child(&mut self, parent: NodeId, key: String, value: NodeId, mark_source: bool)
        requires
            old(self).wf(),
            can_set_child(old(self)@, parent as int, value as int, mark_source),
        ensures
            final(self).wf(),
            final(self)@ == set_child_model(
                old(self)@,
                parent as int,
                key@,
                value as int,
                mark_source,
            ),
    {
        proof {
            lemma_nodes_index(self.nodes);
        }
        let pt = self.nodes[parent as usize].node_type;
        let vt = self.nodes[value as usize].node_type;
        let should_source = mark_source && vt.le(NodeType::File) && (pt == NodeType::Mod || pt
            == NodeType::File);
        if should_source {
            proof {
                assert(prov_rank(old(self)@.ty(parent as int)) < prov_rank(
                    old(self)@.ty(value as int),
                ));
            }
            self.set_source(value, parent);
        }
        let ghost ma = self@;
        if pt != NodeType::Virtual {
            self.set_parent(value, parent);
        }
        let ghost mb = self@;
        proof {
            lemma_nodes_index(self.nodes);
        }
        let pn = &mut self.nodes[parent as usize];
        cm_insert(&mut pn.children, key, value);
        proof {
            lemma_nodes_index(self.nodes);
            let target = set_child_model(old(self)@, parent as int, key@, value as int, mark_source);
            assert(self@.nodes =~= target.nodes);
            assert(self@.sets == target.sets);
            assert(self@.library == target.library);
            assert(self@.mods == target.mods);
            assert(self@ =~= target);
            lemma_entry_index(mb.nodes[parent as int].children, key@);
            assert(node_ok(mb, parent as int));
            lemma_replace_children_wf(mb, self@, parent as int);
        }
    }
}

/// Replacing one node's children with entries that are valid, attachable and
/// key-unique keeps the arena well formed.
proof fn lemma_replace_children_wf(m: ArenaModel, m2: ArenaModel, id: int)
    requires
        arena_wf(m),
        0 <= id < m.n(),
        m2.nodes.len() == m.nodes.len(),
        forall|i: int| 0 <= i < m.n() && i != id ==> m2.nodes[i] == m.nodes[i],
        m2.nodes[id].parent == m.nodes[id].parent,
        m2.nodes[id].node_type == m.nodes[id].node_type,
        m2.nodes[id].slot == m.nodes[id].slot,
        m2.nodes[id].name == m.nodes[id].name,
        forall|j: int|
            0 <= j < m2.nodes[id].children.len() ==> (#[trigger] m2.nodes[id].children[j]).1
                < m.n() && attach_ok(
                m.nodes[id].node_type,
                m.ty(m2.nodes[id].children[j].1 as int),
            ),
        forall|a: int, b: int|
            0 <= a < b < m2.nodes[id].children.len() ==> m2.nodes[id].children[a].0
                != m2.nodes[id].children[b].0,
        m2.sets == m.sets,
        m2.library == m.library,
        m2.mods == m.mods,
    ensures
        arena_wf(m2),
{
    assert forall|i: int| 0 <= i < m2.n() implies node_ok(m2, i) by {
        assert(node_ok(m, i));
        assert forall|j: int| 0 <= j < m2.nodes[i].children.len() implies (
        #[trigger] m2.nodes[i].children[j]).1 < m2.n() && attach_ok(
            m2.nodes[i].node_type,
            m2.ty(m2.nodes[i].children[j].1 as int),
        ) by {
            let c = m2.nodes[i].children[j].1 as int;
            if i != id {
                assert(m2.nodes[i].children == m.nodes[i].children);
                assert(m.nodes[i].children[j].1 < m.n());
                assert(attach_ok(m.nodes[i].node_type, m.ty(c)));
            }
            assert(c < m.n());
            assert(m2.ty(c) == m.ty(c));
        }
    }
    assert forall|s: int| 0 <= s < m2.sets.len() implies set_ok(m2, s) by {
        assert(set_ok(m, s));
        assert forall|j: int| 0 <= j < m2.sets[s].len() implies (#[trigger] m2.sets[s][j]) < m2.n()
            && (m2.ty(m2.sets[s][j] as int) == NodeType::Mod || m2.ty(m2.sets[s][j] as int)
            == NodeType::File) by {
            assert(m.sets[s][j] < m.n());
            assert(m2.ty(m.sets[s][j] as int) == m.ty(m.sets[s][j] as int));
        }
    }
    assert forall|i: int, j: int| 0 <= i < m2.n() && 0 <= j < m2.srcs(i).len() implies prov_rank(
        m2.ty(#[trigger] m2.srcs(i)[j] as int),
    ) < prov_rank(m2.ty(i)) by {
        assert(node_ok(m, i));
        assert(set_ok(m, m.nodes[i].slot));
        assert(m2.srcs(i) == m.srcs(i));
        assert(prov_rank(m.ty(m.srcs(i)[j] as int)) < prov_rank(m.ty(i)));
        let x = m.srcs(i)[j] as int;
        assert(x < m.n());
        assert(m2.ty(x) == m.ty(x));
        assert(m2.ty(i) == m.ty(i));
    }
    assert forall|i: int, j: int|
        0 <= i < m2.n() && 0 <= j < m2.n() && m2.nodes[i].slot == m2.nodes[j].slot implies
    prov_rank(#[trigger] m2.ty(i)) == prov_rank(#[trigger] m2.ty(j)) by {
        assert(prov_rank(m.ty(i)) == prov_rank(m.ty(j)));
    }
    assert forall|nm: Seq<char>, x: int|
        m2.library.contains_key(nm) && 0 <= x < m2.library[nm].len() implies (
    #[trigger] m2.library[nm][x]) < m2.n() && m2.nodes[m2.library[nm][x] as int].name == nm by {
        assert(m.library[nm][x] < m.n());
        assert(m.nodes[m.library[nm][x] as int].name == nm);
    }
    assert forall|j: int| 0 <= j < m2.mods.len() implies (#[trigger] m2.mods[j]).0 < m2.n()
        && m2.ty(m2.mods[j].0 as int) == NodeType::Mod by {
        assert(m.mods[j].0 < m.n());
        assert(m2.ty(m.mods[j].0 as int) == m.ty(m.mods[j].0 as int));
    }
}

/// The model after pointing `id`'s back-reference at `parent_id`.
pub open spec fn set_parent_model(m: ArenaModel, id: int, parent_id: NodeId) -> ArenaModel {
    ArenaModel {
        nodes: m.nodes.update(
            id,
            (NodeModel { parent: Some(parent_id), ..m.nodes[id] }),
        ),
        ..m
    }
}

/// The model after stamping `id`'s source position.
pub open spec fn set_start_model(m: ArenaModel, id: int, line: usize, col: usize) -> ArenaModel {
    ArenaModel {
        nodes: m.nodes.update(
            id,
            (NodeModel { start_point: Some((line, col)), ..m.nodes[id] }),
        ),
        ..m
    }
}

/// The model after recording `source_id` in `id`'s provenance set.
pub open spec fn set_source_model(m: ArenaModel, id: int, source_id: NodeId) -> ArenaModel {
    ArenaModel {
        sets: m.sets.update(m.nodes[id].slot, set_insert(m.srcs(id), source_id)),
        ..m
    }
}

/// Replacing one node without touching its type, children or slot keeps the
/// arena well formed, provided any new parent reference is valid.
proof fn lemma_node_replace_wf(m: ArenaModel, m2: ArenaModel, id: int)
    requires
        arena_wf(m),
        0 <= id < m.n(),
        m2.nodes.len() == m.nodes.len(),
        forall|i: int| 0 <= i < m.n() && i != id ==> m2.nodes[i] == m.nodes[i],
        m2.nodes[id].children == m.nodes[id].children,
        m2.nodes[id].node_type == m.nodes[id].node_type,
        m2.nodes[id].slot == m.nodes[id].slot,
        m2.nodes[id].name == m.nodes[id].name,
        (m2.nodes[id].parent matches Some(p) ==> p < m.n()),
        m2.sets == m.sets,
        m2.library == m.library,
        m2.mods == m.mods,
    ensures
        arena_wf(m2),
{
    assert forall|i: int| 0 <= i < m2.n() implies node_ok(m2, i) by {
        assert(node_ok(m, i));
        assert forall|j: int| 0 <= j < m2.nodes[i].children.len() implies (
        #[trigger] m2.nodes[i].children[j]).1 < m2.n() && attach_ok(
            m2.nodes[i].node_type,
            m2.ty(m2.nodes[i].children[j].1 as int),
        ) by {
            assert(m2.nodes[i].children == m.nodes[i].children);
            assert(m.nodes[i].children[j].1 < m.n());
            assert(attach_ok(m.nodes[i].node_type, m.ty(m.nodes[i].children[j].1 as int)));
        }
    }
    assert forall|s: int| 0 <= s < m2.sets.len() implies set_ok(m2, s) by {
        assert(set_ok(m, s));
        assert forall|j: int| 0 <= j < m2.sets[s].len() implies (#[trigger] m2.sets[s][j]) < m2.n()
            && (m2.ty(m2.sets[s][j] as int) == NodeType::Mod || m2.ty(m2.sets[s][j] as int)
            == NodeType::File) by {
            assert(m.sets[s][j] < m.n());
        }
    }
    assert forall|i: int, j: int| 0 <= i < m2.n() && 0 <= j < m2.srcs(i).len() implies prov_rank(
        m2.ty(#[trigger] m2.srcs(i)[j] as int),
    ) < prov_rank(m2.ty(i)) by {
        assert(node_ok(m, i));
        assert(set_ok(m, m.nodes[i].slot));
        assert(m2.srcs(i) == m.srcs(i));
        assert(prov_rank(m.ty(m.srcs(i)[j] as int)) < prov_rank(m.ty(i)));
        let x = m.srcs(i)[j] as int;
        assert(x < m.n());
        assert(m2.ty(x) == m.ty(x));
        assert(m2.ty(i) == m.ty(i));
    }
    assert forall|i: int, j: int|
        0 <= i < m2.n() && 0 <= j < m2.n() && m2.nodes[i].slot == m2.nodes[j].slot implies
    prov_rank(#[trigger] m2.ty(i)) == prov_rank(#[trigger] m2.ty(j)) by {
        assert(prov_rank(m.ty(i)) == prov_rank(m.ty(j)));
    }
    assert forall|nm: Seq<char>, x: int|
        m2.library.contains_key(nm) && 0 <= x < m2.library[nm].len() implies (
    #[trigger] m2.library[nm][x]) < m2.n() && m2.nodes[m2.library[nm][x] as int].name == nm by {
        assert(m.library[nm][x] < m.n());
        assert(m.nodes[m.library[nm][x] as int].name == nm);
    }
    assert forall|j: int| 0 <= j < m2.mods.len() implies (#[trigger] m2.mods[j]).0 < m2.n()
        && m2.ty(m2.mods[j].0 as int) == NodeType::Mod by {
        assert(m.mods[j].0 < m.n());
    }
}

/// Recording an eligible source keeps the arena well formed.
proof fn lemma_set_source_wf(m: ArenaModel, m2: ArenaModel, id: int, source_id: NodeId)
    requires
        arena_wf(m),
        0 <= id < m.n(),
        source_id < m.n(),
        prov_rank(m.ty(source_id as int)) < prov_rank(m.ty(id)),
        m2 == set_source_model(m, id, source_id),
    ensures
        arena_wf(m2),
{
    let slot = m.nodes[id].slot;
    assert(node_ok(m, id));
    assert forall|i: int| 0 <= i < m2.n() implies node_ok(m2, i) by {
        assert(node_ok(m, i));
        assert(m2.nodes[i] == m.nodes[i]);
        assert forall|j: int| 0 <= j < m2.nodes[i].children.len() implies (
        #[trigger] m2.nodes[i].children[j]).1 < m2.n() && attach_ok(
            m2.nodes[i].node_type,
            m2.ty(m2.nodes[i].children[j].1 as int),
        ) by {
            assert(m.nodes[i].children[j].1 < m.n());
            assert(attach_ok(m.nodes[i].node_type, m.ty(m.nodes[i].children[j].1 as int)));
        }
    }
    assert forall|s: int| 0 <= s < m2.sets.len() implies set_ok(m2, s) by {
        assert(set_ok(m, s));
        if s == slot {
            assert(prov_rank(m.ty(source_id as int)) < 2);
            assert(m.ty(source_id as int) == NodeType::Mod || m.ty(source_id as int)
                == NodeType::File);
            if !m.srcs(id).contains(source_id) {
                assert(m2.sets[s] == m.srcs(id).push(source_id));
                assert forall|a: int, b: int| 0 <= a < b < m2.sets[s].len() implies m2.sets[s][a]
                    != m2.sets[s][b] by {
                    if b == m2.sets[s].len() - 1 {
                        assert(!m.srcs(id).contains(source_id));
                        assert(m.srcs(id)[a] != source_id);
                    }
                }
            }
        }
    }
    assert forall|i: int, j: int| 0 <= i < m2.n() && 0 <= j < m2.srcs(i).len() implies prov_rank(
        m2.ty(#[trigger] m2.srcs(i)[j] as int),
    ) < prov_rank(m2.ty(i)) by {
        assert(node_ok(m, i));
        assert(node_ok(m, id));
        if m.nodes[i].slot == slot {
            // the slot-sharing rule makes the new element legal for `i` too
            assert(prov_rank(m.ty(i)) == prov_rank(m.ty(id)));
            assert(m.srcs(i) == m.sets[slot]);
            assert(m2.srcs(i) == set_insert(m.sets[slot], source_id));
            if j < m.srcs(i).len() {
                assert(m2.srcs(i)[j] == m.srcs(i)[j]);
                assert(prov_rank(m.ty(m.srcs(i)[j] as int)) < prov_rank(m.ty(i)));
            } else {
                assert(!m.sets[slot].contains(source_id));
                assert(m2.srcs(i)[j] == source_id);
            }
        } else {
            assert(m2.srcs(i) == m.srcs(i));
            assert(prov_rank(m.ty(m.srcs(i)[j] as int)) < prov_rank(m.ty(i)));
        }
    }
    assert forall|i: int, j: int|
        0 <= i < m2.n() && 0 <= j < m2.n() && m2.nodes[i].slot == m2.nodes[j].slot implies
    prov_rank(#[trigger] m2.ty(i)) == prov_rank(#[trigger] m2.ty(j)) by {
        assert(prov_rank(m.ty(i)) == prov_rank(m.ty(j)));
    }
    assert forall|nm: Seq<char>, x: int|
        m2.library.contains_key(nm) && 0 <= x < m2.library[nm].len() implies (
    #[trigger] m2.library[nm][x]) < m2.n() && m2.nodes[m2.library[nm][x] as int].name == nm by {
        assert(m.library[nm][x] < m.n());
        assert(m.nodes[m.library[nm][x] as int].name == nm);
    }
    assert forall|j: int| 0 <= j < m2.mods.len() implies (#[trigger] m2.mods[j]).0 < m2.n()
        && m2.ty(m2.mods[j].0 as int) == NodeType::Mod by {
        assert(m.mods[j].0 < m.n());
    }
}

/// A just-created node: no parent, no children, an empty provenance slot.
pub open spec fn fresh_node(name: Seq<char>, rel_dir: Seq<Seq<char>>, value: Option<Seq<char>>,
    node_type: NodeType, slot: int) -> NodeModel {
    NodeModel {
        parent: None,
        children: Seq::empty(),
        node_type,
        value,
        slot,
        name,
        rel_dir,
        start_point: None,
    }
}

/// The name index after recording `id` under `nm`.
pub open spec fn lib_add(lib: Map<Seq<char>, Seq<NodeId>>, nm: Seq<char>, id: NodeId) -> Map<
    Seq<char>,
    Seq<NodeId>,
> {
    lib.insert(
        nm,
        if lib.contains_key(nm) {
            lib[nm].push(id)
        } else {
            seq![id]
        },
    )
}

/// Pushing a fresh node (and possibly indexing its name) keeps the arena
/// well formed.
proof fn lemma_push_wf(m: ArenaModel, m2: ArenaModel, new_id: int)
    requires
        arena_wf(m),
        m.n() < u32::MAX,
        new_id == m.n(),
        m2.nodes.len() == m.n() + 1,
        forall|i: int| 0 <= i < m.n() ==> m2.nodes[i] == m.nodes[i],
        m2.nodes[new_id].parent is None,
        m2.nodes[new_id].children.len() == 0,
        m2.nodes[new_id].slot == m.sets.len(),
        m2.sets == m.sets.push(Seq::empty()),
        m2.mods == m.mods,
        m2.library == m.library || m2.library == lib_add(
            m.library,
            m2.nodes[new_id].name,
            new_id as NodeId,
        ),
    ensures
        arena_wf(m2),
{
    assert forall|i: int| 0 <= i < m2.n() implies node_ok(m2, i) by {
        if i < m.n() {
            assert(node_ok(m, i));
            assert forall|j: int| 0 <= j < m2.nodes[i].children.len() implies (
            #[trigger] m2.nodes[i].children[j]).1 < m2.n() && attach_ok(
                m2.nodes[i].node_type,
                m2.ty(m2.nodes[i].children[j].1 as int),
            ) by {
                assert(m.nodes[i].children[j].1 < m.n());
            }
        }
    }
    assert forall|s: int| 0 <= s < m2.sets.len() implies set_ok(m2, s) by {
        if s < m.sets.len() {
            assert(set_ok(m, s));
            assert(m2.sets[s] == m.sets[s]);
            assert forall|j: int| 0 <= j < m2.sets[s].len() implies (#[trigger] m2.sets[s][j])
                < m2.n() && (m2.ty(m2.sets[s][j] as int) == NodeType::Mod || m2.ty(
                m2.sets[s][j] as int,
            ) == NodeType::File) by {
                assert(m.sets[s][j] < m.n());
            }
        }
    }
    assert forall|i: int, j: int| 0 <= i < m2.n() && 0 <= j < m2.srcs(i).len() implies prov_rank(
        m2.ty(#[trigger] m2.srcs(i)[j] as int),
    ) < prov_rank(m2.ty(i)) by {
        if i < m.n() {
            assert(node_ok(m, i));
            assert(set_ok(m, m.nodes[i].slot));
            assert(m2.srcs(i) == m.srcs(i));
            assert(m.srcs(i)[j] < m.n());
            assert(prov_rank(m.ty(m.srcs(i)[j] as int)) < prov_rank(m.ty(i)));
        } else {
            assert(m2.srcs(i) =~= Seq::<NodeId>::empty());
        }
    }
    assert forall|i: int, j: int|
        0 <= i < m2.n() && 0 <= j < m2.n() && m2.nodes[i].slot == m2.nodes[j].slot implies
        prov_rank(#[trigger] m2.ty(i)) == prov_rank(#[trigger] m2.ty(j)) by {
        if i < m.n() && j < m.n() {
            assert(node_ok(m, i));
            assert(node_ok(m, j));
            assert(m.nodes[i].slot == m.nodes[j].slot);
            assert(prov_rank(m.ty(i)) == prov_rank(m.ty(j)));
        } else if i < m.n() && j == new_id {
            assert(node_ok(m, i));
            assert(m.nodes[i].slot < m.sets.len());
            assert(m2.nodes[j].slot == m.sets.len());
            assert(false);
        } else if j < m.n() && i == new_id {
            assert(node_ok(m, j));
            assert(m.nodes[j].slot < m.sets.len());
            assert(m2.nodes[i].slot == m.sets.len());
            assert(false);
        }
    }
    assert forall|nm: Seq<char>, x: int|
        m2.library.contains_key(nm) && 0 <= x < m2.library[nm].len() implies (
    #[trigger] m2.library[nm][x]) < m2.n() && m2.nodes[m2.library[nm][x] as int].name == nm by {
        if m2.library == m.library {
            assert(m.library[nm][x] < m.n());
        } else {
            let newname = m2.nodes[new_id].name;
            if nm == newname {
                if m.library.contains_key(nm) {
                    if x < m.library[nm].len() {
                        assert(m.library[nm][x] < m.n());
                    }
                }
            } else {
                assert(m2.library[nm] == m.library[nm]);
                assert(m.library[nm][x] < m.n());
            }
        }
    }
    assert forall|j: int| 0 <= j < m2.mods.len() implies (#[trigger] m2.mods[j]).0 < m2.n()
        && m2.ty(m2.mods[j].0 as int) == NodeType::Mod by {
        assert(m.mods[j].0 < m.n());
    }
}

/// `s` with every id shifted by `base`.
pub open spec fn remap_ids(s: Seq<NodeId>, base: int) -> Seq<NodeId> {
    s.map_values(|x: NodeId| (x + base) as NodeId)
}

/// A node as it appears after being appended behind `base` existing nodes
/// and `sbase` existing provenance slots.
pub open spec fn remap_node(nd: NodeModel, base: int, sbase: int) -> NodeModel {
    NodeModel {
        parent: match nd.parent {
            Some(p) => Some((p + base) as NodeId),
            None => None,
        },
        children: Seq::new(nd.children.len(), |j: int| (nd.children[j].0, (nd.children[j].1 + base) as NodeId)),
        slot: nd.slot + sbase,
        ..nd
    }
}

/// The name index after indexing the first `k` appended nodes.
pub open spec fn lib_extend(lib: Map<Seq<char>, Seq<NodeId>>, nodes: Seq<NodeModel>, base: int, k: int) -> Map<Seq<char>, Seq<NodeId>>
    decreases k,
{
    if k <= 0 {
        lib
    } else {
        lib_add(lib_extend(lib, nodes, base, k - 1), nodes[base + k - 1].name, (base + k - 1) as NodeId)
    }
}

/// Copy `v` with every id shifted by `base`.
fn remap_vec(v: &Vec<NodeId>, base: NodeId) -> (r: Vec<NodeId>)
    requires
        forall|j: int| 0 <= j < v@.len() ==> (#[trigger] v@[j]) + base <= u32::MAX,
    ensures
        r@ == remap_ids(v@, base as int),
{
    let mut r: Vec<NodeId> = Vec::new();
    let mut i: usize = 0;
    while i < v.len()
        invariant
            i <= v@.len(),
            forall|j: int| 0 <= j < v@.len() ==> (#[trigger] v@[j]) + base <= u32::MAX,
            r@ == remap_ids(v@.take(i as int), base as int),
        decreases v@.len() - i,
    {
        r.push(v[i] + base);
        proof {
            assert(r@ =~= remap_ids(v@.take(i + 1), base as int));
        }
        i = i + 1;
    }
    proof {
        assert(remap_ids(v@.take(v@.len() as int), base as int) =~= remap_ids(v@, base as int));
    }
    r
}

/// Clone an optional literal payload.
fn clone_opt_string(v: &Option<String>) -> (r: Option<String>)
    ensures
        r.deep_view() == v.deep_view(),
{
    match v {
        Some(s) => Some(s.clone()),
        None => None,
    }
}

impl Arena {
    /// Bulk-append every node of `other`, shifting each internal reference
    /// (parent, children, provenance) by this arena's sizes, and recording
    /// every appended node in the name index.  `other`'s mod registry is not
    /// copied.
    pub fn extend(&mut self, other: &Arena)
        requires
            old(self).wf(),
            other.wf(),
            old(self)@.n() + other@.n() <= u32::MAX,
        ensures
            final(self).wf(),
            final(self)@.nodes == old(self)@.nodes + Seq::new(
                other@.n() as nat,
                |i: int| remap_node(other@.nodes[i], old(self)@.n(), old(self)@.sets.len() as int),
            ),
            final(self)@.sets == old(self)@.sets + Seq::new(
                other@.sets.len(),
                |s: int| remap_ids(other@.sets[s], old(self)@.n()),
            ),
            final(self)@.library == lib_extend(
                old(self)@.library,
                final(self)@.nodes,
                old(self)@.n(),
                other@.n(),
            ),
            final(self)@.mods == old(self)@.mods,
    {
        proof {
            lemma_nodes_index(self.nodes);
            lemma_sets_index(self.source_sets);
            lemma_nodes_index(other.nodes);
            lemma_sets_index(other.source_sets);
        }
        let base = self.nodes.len() as NodeId;
        let sbase = self.source_sets.len();
        let ghost m0 = self@;
        let ghost mo = other@;

        // 1. append the remapped provenance slots
        let mut s: usize = 0;
        while s < other.source_sets.len()
            invariant
                s <= other.source_sets@.len(),
                other.wf(),
                mo == other@,
                mo.sets.len() == other.source_sets@.len(),
                forall|j: int| 0 <= j < mo.sets.len() ==> mo.sets[j] == (#[trigger] other.source_sets@[j])@,
                mo.n() == other.nodes@.len(),
                base == m0.n(),
                base + mo.n() <= u32::MAX,
                self.nodes == old(self).nodes,
                self.library == old(self).library,
                self.mod_data == old(self).mod_data,
                self.source_sets@.len() == m0.sets.len() + s,
                self@.sets == m0.sets + Seq::new(s as nat, |j: int| remap_ids(mo.sets[j], base as int)),
            decreases other.source_sets@.len() - s,
        {
            proof {
                assert(set_ok(mo, s as int));
                assert forall|j: int| 0 <= j < other.source_sets@[s as int]@.len() implies (
                #[trigger] other.source_sets@[s as int]@[j]) + base <= u32::MAX by {
                    assert(mo.sets[s as int][j] < mo.n());
                }
            }
            let rs = remap_vec(&other.source_sets[s], base);
            let ghost prev = self.source_sets;
            self.source_sets.push(rs);
            proof {
                lemma_sets_index(prev);
                lemma_sets_index(self.source_sets);
                assert(self@.sets =~= m0.sets + Seq::new(
                    (s + 1) as nat,
                    |j: int| remap_ids(mo.sets[j], base as int),
                ));
            }
            s = s + 1;
        }
        proof {
            assert(self@.sets =~= m0.sets + Seq::new(
                mo.sets.len(),
                |j: int| remap_ids(mo.sets[j], base as int),
            ));
        }

        // 2. append the remapped nodes, indexing each name
        let mut i: usize = 0;
        while i < other.nodes.len()
            invariant
                i <= other.nodes@.len(),
                other.wf(),
                mo == other@,
                mo.n() == other.nodes@.len(),
                forall|j: int| 0 <= j < mo.n() ==> mo.nodes[j] == (#[trigger] other.nodes@[j])@,
                base == m0.n(),
                base + mo.n() <= u32::MAX,
                sbase == m0.sets.len(),
                self@.sets == m0.sets + Seq::new(
                    mo.sets.len(),
                    |j: int| remap_ids(mo.sets[j], base as int),
                ),
                self.mod_data == old(self).mod_data,
                self@.mods == m0.mods,
                self.nodes@.len() == m0.n() + i,
                self@.nodes == m0.nodes + Seq::new(
                    i as nat,
                    |j: int| remap_node(mo.nodes[j], base as int, sbase as int),
                ),
                self@.library == lib_extend(m0.library, self@.nodes, base as int, i as int),
            decreases other.nodes@.len() - i,
        {
            let ghost mpre = self@;
            let src = &other.nodes[i];
            proof {
                assert(src@ == mo.nodes[i as int]);
                assert(node_ok(mo, i as int));
            }
            // rebuild the children mapping with shifted ids
            let src_children = src.children_entries();
            proof {
                assert forall|j: int|
                    0 <= j < src_children@.len() implies (#[trigger] src_children@[j].0)@
                    == mo.nodes[i as int].children[j].0 && src_children@[j].1 == mo.nodes[
                    i as int
                ].children[j].1 by {
                    assert((src_children@[j].0)@ == src@.children[j].0);
                }
            }
            let mut children = cm_new();
            let mut c: usize = 0;
            while c < src_children.len()
                invariant
                    c <= src_children@.len(),
                    src@ == mo.nodes[i as int],
                    0 <= i < mo.n(),
                    node_ok(mo, i as int),
                    mo.n() + base <= u32::MAX,
                    base == m0.n(),
                    src_children@.len() == mo.nodes[i as int].children.len(),
                    forall|j: int|
                        0 <= j < src_children@.len() ==> (#[trigger] src_children@[j].0)@
                            == mo.nodes[i as int].children[j].0 && src_children@[j].1
                            == mo.nodes[i as int].children[j].1,
                    child_entries(children) == Seq::new(
                        c as nat,
                        |j: int| (mo.nodes[i as int].children[j].0, (mo.nodes[i as int].children[j].1 + base) as NodeId),
                    ),
                decreases src_children@.len() - c,
            {
                let (k, v) = (src_children[c].0.clone(), src_children[c].1);
                proof {
                    lemma_entry_index(child_entries(children), k@);
                    if has_entry(child_entries(children), k@) {
                        let e = entry_index(child_entries(children), k@);
                        assert(mo.nodes[i as int].children[e].0 == k@);
                        assert(mo.nodes[i as int].children[c as int].0 == k@);
                        assert(false);
                    }
                    assert(mo.nodes[i as int].children[c as int].1 < mo.n());
                }
                cm_insert(&mut children, k, v + base);
                proof {
                    assert(child_entries(children) =~= Seq::new(
                        (c + 1) as nat,
                        |j: int| (mo.nodes[i as int].children[j].0, (mo.nodes[i as int].children[j].1 + base) as NodeId),
                    ));
                }
                c = c + 1;
            }
            let parent = match src.parent() {
                Some(p) => Some(p + base),
                None => None,
            };
            let total_slots = self.source_sets.len();
            proof {
                lemma_sets_index(self.source_sets);
                assert(mo.nodes[i as int].slot < mo.sets.len());
                assert(total_slots == sbase + mo.sets.len());
            }
            let node = BaseNode {
                parent,
                children,
                node_type: src.node_type(),
                value: clone_opt_string(src.value()),
                sources: src.slot_index() + sbase,
                name: src.name().clone(),
                rel_dir: src.rel_dir().clone(),
                start_point: src.start_point(),
            };
            proof {
                assert(node@ =~= remap_node(mo.nodes[i as int], base as int, sbase as int));
            }
            let node_name = node.name().clone();
            let ghost prev_nodes = self.nodes;
            self.nodes.push(node);
            let new_id = base + i as NodeId;
            let mut ids: Vec<NodeId> = match nm_get(&self.library, node_name.as_str()) {
                Some(v) => v,
                None => Vec::new(),
            };
            ids.push(new_id);
            nm_insert(&mut self.library, node_name, ids);
            proof {
                lemma_nodes_index(prev_nodes);
                lemma_nodes_index(self.nodes);
                assert(self@.nodes =~= m0.nodes + Seq::new(
                    (i + 1) as nat,
                    |j: int| remap_node(mo.nodes[j], base as int, sbase as int),
                ));
                assert(self@.library =~~= lib_add(mpre.library, node_name@, new_id));
                assert(self@.library == lib_extend(m0.library, self@.nodes, base as int, i + 1 as int)) by {
                    assert(self@.nodes[base + i as int].name == node_name@);
                    lemma_lib_extend_prefix(m0.library, mpre.nodes, self@.nodes, base as int, i as int);
                }
                assert(self@.mods =~= m0.mods);
            }
            i = i + 1;
        }
        proof {
            assert(self@.nodes =~= m0.nodes + Seq::new(
                mo.n() as nat,
                |j: int| remap_node(mo.nodes[j], base as int, sbase as int),
            ));
            assert forall|nm: Seq<char>, x: int|
                m0.library.contains_key(nm) && 0 <= x < m0.library[nm].len() implies (
            #[trigger] m0.library[nm][x]) < self@.nodes.len() && self@.nodes[m0.library[nm][x] as int].name
                == nm by {
                assert(m0.library[nm][x] < m0.n());
                assert(self@.nodes[m0.library[nm][x] as int] == m0.nodes[m0.library[nm][x] as int]);
            }
            lemma_lib_extend_wf(m0.library, self@.nodes, base as int, mo.n());
            lemma_extend_wf(m0, mo, self@, base as int, sbase as int);
        }
    }
}

/// Indexing the appended nodes keeps the name index sound.
proof fn lemma_lib_extend_wf(lib: Map<Seq<char>, Seq<NodeId>>, nodes: Seq<NodeModel>, base: int, k: int)
    requires
        0 <= base,
        0 <= k,
        base + k <= nodes.len(),
        nodes.len() <= u32::MAX,
        forall|nm: Seq<char>, x: int|
            lib.contains_key(nm) && 0 <= x < lib[nm].len() ==> (#[trigger] lib[nm][x])
                < nodes.len() && nodes[lib[nm][x] as int].name == nm,
    ensures
        forall|nm: Seq<char>, x: int|
            lib_extend(lib, nodes, base, k).contains_key(nm) && 0 <= x < lib_extend(
                lib,
                nodes,
                base,
                k,
            )[nm].len() ==> (#[trigger] lib_extend(lib, nodes, base, k)[nm][x]) < nodes.len()
                && nodes[lib_extend(lib, nodes, base, k)[nm][x] as int].name == nm,
    decreases k,
{
    if k > 0 {
        lemma_lib_extend_wf(lib, nodes, base, k - 1);
        let prev = lib_extend(lib, nodes, base, k - 1);
        let cur = lib_extend(lib, nodes, base, k);
        let newname = nodes[base + k - 1].name;
        assert(cur == lib_add(prev, newname, (base + k - 1) as NodeId));
        assert forall|nm: Seq<char>, x: int|
            cur.contains_key(nm) && 0 <= x < cur[nm].len() implies (#[trigger] cur[nm][x])
            < nodes.len() && nodes[cur[nm][x] as int].name == nm by {
            let id = (base + k - 1) as NodeId;
            if nm == newname {
                if prev.contains_key(nm) {
                    assert(cur[nm] == prev[nm].push(id));
                    if x < prev[nm].len() {
                        assert(cur[nm][x] == prev[nm][x]);
                        assert(prev[nm][x] < nodes.len() && nodes[prev[nm][x] as int].name == nm);
                    } else {
                        assert(cur[nm][x] == id);
                    }
                } else {
                    assert(cur[nm] == seq![id]);
                    assert(cur[nm][x] == id);
                }
            } else {
                assert(cur.contains_key(nm) == prev.contains_key(nm));
                assert(prev.contains_key(nm));
                assert(cur[nm] == prev[nm]);
                assert(0 <= x < prev[nm].len());
                assert(prev[nm][x] < nodes.len() && nodes[prev[nm][x] as int].name == nm);
            }
        }
    }
}

/// `lib_extend` only reads the names of the nodes it indexes, so a longer
/// node sequence that agrees on the first `base + k` entries gives the same
/// index.
proof fn lemma_lib_extend_prefix(lib: Map<Seq<char>, Seq<NodeId>>, nodes1: Seq<NodeModel>, nodes2: Seq<NodeModel>, base: int, k: int)
    requires
        0 <= base,
        0 <= k,
        base + k <= nodes1.len(),
        base + k <= nodes2.len(),
        forall|j: int| 0 <= j < base + k ==> nodes1[j] == nodes2[j],
    ensures
        lib_extend(lib, nodes1, base, k) == lib_extend(lib, nodes2, base, k),
    decreases k,
{
    if k > 0 {
        lemma_lib_extend_prefix(lib, nodes1, nodes2, base, k - 1);
    }
}

/// The appended, remapped nodes and slots keep the arena well formed.
proof fn lemma_extend_wf(m0: ArenaModel, mo: ArenaModel, m2: ArenaModel, base: int, sbase: int)
    requires
        arena_wf(m0),
        arena_wf(mo),
        base == m0.n(),
        sbase == m0.sets.len(),
        base + mo.n() <= u32::MAX,
        m2.nodes == m0.nodes + Seq::new(mo.n() as nat, |j: int| remap_node(mo.nodes[j], base, sbase)),
        m2.sets == m0.sets + Seq::new(mo.sets.len(), |j: int| remap_ids(mo.sets[j], base)),
        m2.mods == m0.mods,
        forall|nm: Seq<char>, x: int|
            m2.library.contains_key(nm) && 0 <= x < m2.library[nm].len() ==> (
            #[trigger] m2.library[nm][x]) < m2.n() && m2.nodes[m2.library[nm][x] as int].name == nm,
    ensures
        arena_wf(m2),
{
    assert(m2.n() == base + mo.n());
    assert forall|i: int| 0 <= i < m2.n() implies node_ok(m2, i) by {
        if i < base {
            assert(node_ok(m0, i));
            assert(m2.nodes[i] == m0.nodes[i]);
            assert forall|j: int| 0 <= j < m2.nodes[i].children.len() implies (
            #[trigger] m2.nodes[i].children[j]).1 < m2.n() && attach_ok(
                m2.nodes[i].node_type,
                m2.ty(m2.nodes[i].children[j].1 as int),
            ) by {
                assert(m0.nodes[i].children[j].1 < m0.n());
                assert(attach_ok(m0.nodes[i].node_type, m0.ty(m0.nodes[i].children[j].1 as int)));
                assert(m2.nodes[m0.nodes[i].children[j].1 as int] == m0.nodes[m0.nodes[i].children[j].1 as int]);
            }
        } else {
            let o = i - base;
            assert(node_ok(mo, o));
            assert(m2.nodes[i] == remap_node(mo.nodes[o], base, sbase));
            assert forall|j: int| 0 <= j < m2.nodes[i].children.len() implies (
            #[trigger] m2.nodes[i].children[j]).1 < m2.n() && attach_ok(
                m2.nodes[i].node_type,
                m2.ty(m2.nodes[i].children[j].1 as int),
            ) by {
                assert(mo.nodes[o].children[j].1 < mo.n());
                let c = mo.nodes[o].children[j].1 as int;
                assert(m2.nodes[i].children[j].1 == c + base);
                assert(m2.nodes[c + base] == remap_node(mo.nodes[c], base, sbase));
                assert(attach_ok(mo.nodes[o].node_type, mo.ty(c)));
            }
            assert forall|a: int, b: int|
                0 <= a < b < m2.nodes[i].children.len() implies m2.nodes[i].children[a].0
                != m2.nodes[i].children[b].0 by {
                assert(mo.nodes[o].children[a].0 != mo.nodes[o].children[b].0);
            }
        }
    }
    assert forall|s: int| 0 <= s < m2.sets.len() implies set_ok(m2, s) by {
        if s < sbase {
            assert(set_ok(m0, s));
            assert(m2.sets[s] == m0.sets[s]);
            assert forall|j: int| 0 <= j < m2.sets[s].len() implies (#[trigger] m2.sets[s][j])
                < m2.n() && (m2.ty(m2.sets[s][j] as int) == NodeType::Mod || m2.ty(
                m2.sets[s][j] as int,
            ) == NodeType::File) by {
                assert(m0.sets[s][j] < m0.n());
                assert(m2.nodes[m0.sets[s][j] as int] == m0.nodes[m0.sets[s][j] as int]);
            }
        } else {
            let o = s - sbase;
            assert(set_ok(mo, o));
            assert(m2.sets[s] == remap_ids(mo.sets[o], base));
            assert forall|j: int| 0 <= j < m2.sets[s].len() implies (#[trigger] m2.sets[s][j])
                < m2.n() && (m2.ty(m2.sets[s][j] as int) == NodeType::Mod || m2.ty(
                m2.sets[s][j] as int,
            ) == NodeType::File) by {
                assert(mo.sets[o][j] < mo.n());
                let x = mo.sets[o][j] as int;
                assert(m2.sets[s][j] == x + base);
                assert(m2.nodes[x + base] == remap_node(mo.nodes[x], base, sbase));
            }
            assert forall|a: int, b: int| 0 <= a < b < m2.sets[s].len() implies m2.sets[s][a]
                != m2.sets[s][b] by {
                assert(mo.sets[o][a] != mo.sets[o][b]);
            }
        }
    }
    assert forall|i: int, j: int| 0 <= i < m2.n() && 0 <= j < m2.srcs(i).len() implies prov_rank(
        m2.ty(#[trigger] m2.srcs(i)[j] as int),
    ) < prov_rank(m2.ty(i)) by {
        if i < base {
            assert(node_ok(m0, i));
            assert(m2.nodes[i] == m0.nodes[i]);
            assert(m2.srcs(i) == m0.srcs(i));
            assert(set_ok(m0, m0.nodes[i].slot));
            assert(prov_rank(m0.ty(m0.srcs(i)[j] as int)) < prov_rank(m0.ty(i)));
            let x = m0.srcs(i)[j] as int;
            assert(x < m0.n());
            assert(m2.nodes[x] == m0.nodes[x]);
        } else {
            let o = i - base;
            assert(node_ok(mo, o));
            assert(m2.nodes[i] == remap_node(mo.nodes[o], base, sbase));
            assert(m2.nodes[i].slot == mo.nodes[o].slot + sbase);
            assert(m2.srcs(i) == remap_ids(mo.sets[mo.nodes[o].slot], base));
            assert(set_ok(mo, mo.nodes[o].slot));
            let x = mo.srcs(o)[j] as int;
            assert(m2.srcs(i)[j] == x + base);
            assert(x < mo.n());
            assert(m2.nodes[x + base] == remap_node(mo.nodes[x], base, sbase));
            assert(prov_rank(mo.ty(x)) < prov_rank(mo.ty(o)));
        }
    }
    assert forall|i: int, j: int|
        0 <= i < m2.n() && 0 <= j < m2.n() && m2.nodes[i].slot == m2.nodes[j].slot implies
    prov_rank(#[trigger] m2.ty(i)) == prov_rank(#[trigger] m2.ty(j)) by {
        if i < base && j < base {
            assert(m2.nodes[i] == m0.nodes[i]);
            assert(m2.nodes[j] == m0.nodes[j]);
            assert(prov_rank(m0.ty(i)) == prov_rank(m0.ty(j)));
        } else if i >= base && j >= base {
            assert(m2.nodes[i] == remap_node(mo.nodes[i - base], base, sbase));
            assert(m2.nodes[j] == remap_node(mo.nodes[j - base], base, sbase));
            assert(mo.nodes[i - base].slot == mo.nodes[j - base].slot);
            assert(prov_rank(mo.ty(i - base)) == prov_rank(mo.ty(j - base)));
        } else if i < base {
            assert(node_ok(m0, i));
            assert(m2.nodes[i] == m0.nodes[i]);
            assert(m2.nodes[j] == remap_node(mo.nodes[j - base], base, sbase));
            assert(node_ok(mo, j - base));
            assert(m0.nodes[i].slot < sbase);
            assert(m2.nodes[j].slot >= sbase);
            assert(false);
        } else {
            assert(node_ok(m0, j));
            assert(m2.nodes[j] == m0.nodes[j]);
            assert(m2.nodes[i] == remap_node(mo.nodes[i - base], base, sbase));
            assert(node_ok(mo, i - base));
            assert(m0.nodes[j].slot < sbase);
            assert(m2.nodes[i].slot >= sbase);
            assert(false);
        }
    }
    assert forall|j: int| 0 <= j < m2.mods.len() implies (#[trigger] m2.mods[j]).0 < m2.n()
        && m2.ty(m2.mods[j].0 as int) == NodeType::Mod by {
        assert(m0.mods[j].0 < m0.n());
        assert(m2.nodes[m0.mods[j].0 as int] == m0.nodes[m0.mods[j].0 as int]);
    }
}


/// Two provenance sets hold the same contributors (order aside).
pub open spec fn same_elems(a: Seq<NodeId>, b: Seq<NodeId>) -> bool {
    forall|x: NodeId| #![trigger a.contains(x)] #![trigger b.contains(x)] a.contains(x) == b.contains(x)
}

/// A witness on one side only refutes sameness.
pub proof fn lemma_not_same(a: Seq<NodeId>, b: Seq<NodeId>, w: NodeId)
    requires
        a.contains(w) != b.contains(w),
    ensures
        !same_elems(a, b),
{
    if same_elems(a, b) {
        assert(a.contains(w) == b.contains(w));
    }
}

/// `a` followed by whatever of `b` it lacks, in `b`'s order.
pub open spec fn set_union(a: Seq<NodeId>, b: Seq<NodeId>) -> Seq<NodeId>
    decreases b.len(),
{
    if b.len() == 0 {
        a
    } else {
        set_union(set_insert(a, b[0]), b.drop_first())
    }
}

/// What the ordered union holds: everything of either side, nothing else,
/// without duplicates (when `a` had none), `a` kept as a prefix.
pub proof fn lemma_set_union_props(a: Seq<NodeId>, b: Seq<NodeId>)
    requires
        elems_unique(a),
    ensures
        elems_unique(set_union(a, b)),
        forall|x: NodeId| set_union(a, b).contains(x) == (a.contains(x) || b.contains(x)),
        set_union(a, b).take(a.len() as int) == a,
        set_union(a, b).len() >= a.len(),
    decreases b.len(),
{
    if b.len() == 0 {
        assert(set_union(a, b).take(a.len() as int) =~= a);
    } else {
        let a2 = set_insert(a, b[0]);
        assert(elems_unique(a2)) by {
            if !a.contains(b[0]) {
                assert forall|x: int, y: int| 0 <= x < y < a2.len() implies a2[x] != a2[y] by {
                    if y == a2.len() - 1 {
                        assert(a.contains(a[x]));
                    }
                }
            }
        }
        lemma_set_union_props(a2, b.drop_first());
        assert forall|x: NodeId|
            set_union(a, b).contains(x) == (a.contains(x) || b.contains(x)) by {
            assert(set_union(a, b) == set_union(a2, b.drop_first()));
            assert(a2.contains(x) == (a.contains(x) || x == b[0])) by {
                if a.contains(x) {
                    let i = choose|i: int| 0 <= i < a.len() && a[i] == x;
                    assert(a2[i] == x);
                } else if x == b[0] {
                    if !a.contains(b[0]) {
                        assert(a2[a2.len() - 1] == x);
                    }
                } else {
                    if a2.contains(x) {
                        let i = choose|i: int| 0 <= i < a2.len() && a2[i] == x;
                        if !a.contains(b[0]) && i == a2.len() - 1 {
                            assert(false);
                        } else {
                            assert(a[i] == x);
                            assert(false);
                        }
                    }
                }
            }
            assert(b.contains(x) == (x == b[0] || b.drop_first().contains(x))) by {
                if b.contains(x) {
                    let i = choose|i: int| 0 <= i < b.len() && b[i] == x;
                    if i > 0 {
                        assert(b.drop_first()[i - 1] == x);
                    }
                } else {
                    if b.drop_first().contains(x) {
                        let i = choose|i: int|
                            0 <= i < b.drop_first().len() && b.drop_first()[i] == x;
                        assert(b[i + 1] == x);
                    }
                }
            }
        }
        assert(set_union(a, b).take(a.len() as int) =~= a) by {
            assert(set_union(a2, b.drop_first()).take(a2.len() as int) == a2);
            assert(a2.len() >= a.len());
            assert(set_union(a, b).len() >= a2.len());
            assert forall|i: int| 0 <= i < a.len() implies set_union(a, b)[i] == a[i] by {
                assert(set_union(a2, b.drop_first()).take(a2.len() as int)[i] == a2[i]);
                assert(a2[i] == a[i]);
            }
        }
    }
}

/// The model after unioning `o`'s provenance into `e`'s slot and pointing
/// `o` at that shared slot.
pub open spec fn unify_model(m: ArenaModel, e: int, o: int) -> ArenaModel {
    ArenaModel {
        sets: m.sets.update(m.nodes[e].slot, set_union(m.srcs(e), m.srcs(o))),
        nodes: m.nodes.update(o, (NodeModel { slot: m.nodes[e].slot, ..m.nodes[o] })),
        ..m
    }
}

impl Arena {
    /// Whether `a` and `b` record the same contributors, order aside.
    pub fn sources_same(&self, a: NodeId, b: NodeId) -> (r: bool)
        requires
            self.wf(),
            a < self@.n(),
            b < self@.n(),
        ensures
            r == same_elems(self@.srcs(a as int), self@.srcs(b as int)),
    {
        proof {
            lemma_nodes_index(self.nodes);
            lemma_sets_index(self.source_sets);
            assert(node_ok(self@, a as int));
            assert(node_ok(self@, b as int));
        }
        let sa = self.nodes[a as usize].sources;
        let sb = self.nodes[b as usize].sources;
        let va = &self.source_sets[sa];
        let vb = &self.source_sets[sb];
        let ghost ga = self@.srcs(a as int);
        let ghost gb = self@.srcs(b as int);
        let mut i: usize = 0;
        while i < va.len()
            invariant
                i <= va@.len(),
                va@ == ga,
                vb@ == gb,
                ga == self@.srcs(a as int),
                gb == self@.srcs(b as int),
                forall|j: int| 0 <= j < i ==> gb.contains(#[trigger] ga[j]),
            decreases va@.len() - i,
        {
            if !vec_has(vb, va[i]) {
                proof {
                    assert(ga.contains(ga[i as int]));
                    lemma_not_same(ga, gb, ga[i as int]);
                }
                return false;
            }
            i = i + 1;
        }
        let mut j: usize = 0;
        while j < vb.len()
            invariant
                j <= vb@.len(),
                va@ == ga,
                vb@ == gb,
                ga == self@.srcs(a as int),
                gb == self@.srcs(b as int),
                forall|x: int| 0 <= x < ga.len() ==> gb.contains(#[trigger] ga[x]),
                forall|x: int| 0 <= x < j ==> ga.contains(#[trigger] gb[x]),
            decreases vb@.len() - j,
        {
            if !vec_has(va, vb[j]) {
                proof {
                    assert(gb.contains(gb[j as int]));
                    lemma_not_same(ga, gb, gb[j as int]);
                }
                return false;
            }
            j = j + 1;
        }
        proof {
            assert forall|x: NodeId| ga.contains(x) == gb.contains(x) by {
                if ga.contains(x) {
                    let i0 = choose|i0: int| 0 <= i0 < ga.len() && ga[i0] == x;
                    assert(gb.contains(ga[i0]));
                }
                if gb.contains(x) {
                    let j0 = choose|j0: int| 0 <= j0 < gb.len() && gb[j0] == x;
                    assert(ga.contains(gb[j0]));
                }
            }
        }
        true
    }

    /// Union `o`'s provenance into `e`'s set and make `o` share that very
    /// set, so later merges against either node observe the union.
    pub fn unify_sources(&mut self, e: NodeId, o: NodeId)
        requires
            old(self).wf(),
            e < old(self)@.n(),
            o < old(self)@.n(),
            prov_rank(old(self)@.ty(e as int)) == prov_rank(old(self)@.ty(o as int)),
        ensures
            final(self).wf(),
            final(self)@ == unify_model(old(self)@, e as int, o as int),
    {
        proof {
            lemma_nodes_index(self.nodes);
            lemma_sets_index(self.source_sets);
            assert(node_ok(self@, e as int));
            assert(node_ok(self@, o as int));
            assert(set_ok(self@, self@.nodes[e as int].slot));
            assert(set_ok(self@, self@.nodes[o as int].slot));
        }
        let eslot = self.nodes[e as usize].sources;
        let oslot = self.nodes[o as usize].sources;
        let ghost gsrc_e = self@.srcs(e as int);
        let ghost gsrc_o = self@.srcs(o as int);
        let ovals = vec_copy(&self.source_sets[oslot]);
        let mut i: usize = 0;
        while i < ovals.len()
            invariant
                i <= ovals@.len(),
                ovals@ == gsrc_o,
                eslot < self.source_sets@.len(),
                self.nodes == old(self).nodes,
                self.library == old(self).library,
                self.mod_data == old(self).mod_data,
                self.source_sets@.len() == old(self).source_sets@.len(),
                self@.sets == old(self)@.sets.update(
                    eslot as int,
                    set_union(gsrc_e, gsrc_o.take(i as int)),
                ),
            decreases ovals@.len() - i,
        {
            let ghost prefix = gsrc_o.take(i as int);
            proof {
                assert(gsrc_o.take(i + 1) =~= prefix.push(gsrc_o[i as int]));
                lemma_set_union_snoc(gsrc_e, prefix, gsrc_o[i as int]);
            }
            let x = ovals[i];
            let ghost prev = self.source_sets;
            proof {
                lemma_sets_index(prev);
                assert(prev@[eslot as int]@ == set_union(gsrc_e, prefix));
            }
            let present = vec_has(&self.source_sets[eslot], x);
            if !present {
                self.source_sets[eslot].push(x);
                proof {
                    lemma_sets_index(self.source_sets);
                    assert(!set_union(gsrc_e, prefix).contains(x));
                    assert(set_union(gsrc_e, gsrc_o.take(i + 1)) == set_union(
                        gsrc_e,
                        prefix,
                    ).push(x));
                    assert(self@.sets =~= old(self)@.sets.update(
                        eslot as int,
                        set_union(gsrc_e, gsrc_o.take(i + 1)),
                    ));
                }
            } else {
                proof {
                    lemma_sets_index(self.source_sets);
                    assert(set_union(gsrc_e, prefix).contains(x));
                    assert(set_union(gsrc_e, gsrc_o.take(i + 1)) == set_union(gsrc_e, prefix));
                    assert(self@.sets =~= old(self)@.sets.update(
                        eslot as int,
                        set_union(gsrc_e, gsrc_o.take(i + 1)),
                    ));
                }
            }
            i = i + 1;
        }
        proof {
            assert(gsrc_o.take(gsrc_o.len() as int) =~= gsrc_o);
        }
        let node = &mut self.nodes[o as usize];
        node.sources = eslot;
        proof {
            lemma_nodes_index(self.nodes);
            let target = unify_model(old(self)@, e as int, o as int);
            assert(self@.nodes =~= target.nodes);
            assert(self@.sets =~= target.sets);
            assert(self@ =~= target);
            lemma_unify_wf(old(self)@, self@, e as int, o as int);
        }
    }
}

/// Unrolling the ordered union one element from the right.
proof fn lemma_set_union_snoc(a: Seq<NodeId>, b: Seq<NodeId>, x: NodeId)
    ensures
        set_union(a, b.push(x)) == set_insert(set_union(a, b), x),
    decreases b.len(),
{
    if b.len() == 0 {
        assert(b.push(x).drop_first() =~= Seq::<NodeId>::empty());
        assert(set_union(a, b.push(x)) == set_union(set_insert(a, x), Seq::<NodeId>::empty()));
    } else {
        assert(b.push(x).drop_first() =~= b.drop_first().push(x));
        assert(b.push(x)[0] == b[0]);
        lemma_set_union_snoc(set_insert(a, b[0]), b.drop_first(), x);
    }
}

/// The union-and-share step keeps the arena well formed.
proof fn lemma_unify_wf(m: ArenaModel, m2: ArenaModel, e: int, o: int)
    requires
        arena_wf(m),
        0 <= e < m.n(),
        0 <= o < m.n(),
        prov_rank(m.ty(e)) == prov_rank(m.ty(o)),
        m2 == unify_model(m, e, o),
    ensures
        arena_wf(m2),
{
    let eslot = m.nodes[e].slot;
    let oslot = m.nodes[o].slot;
    assert(node_ok(m, e));
    assert(node_ok(m, o));
    assert(set_ok(m, eslot));
    assert(set_ok(m, oslot));
    lemma_set_union_props(m.srcs(e), m.srcs(o));
    let u = set_union(m.srcs(e), m.srcs(o));
    assert forall|i: int| 0 <= i < m2.n() implies node_ok(m2, i) by {
        assert(node_ok(m, i));
        assert(m2.nodes[i].children == m.nodes[i].children);
        assert(m2.nodes[i].node_type == m.nodes[i].node_type);
        assert forall|j: int| 0 <= j < m2.nodes[i].children.len() implies (
        #[trigger] m2.nodes[i].children[j]).1 < m2.n() && attach_ok(
            m2.nodes[i].node_type,
            m2.ty(m2.nodes[i].children[j].1 as int),
        ) by {
            assert(m.nodes[i].children[j].1 < m.n());
            assert(attach_ok(m.nodes[i].node_type, m.ty(m.nodes[i].children[j].1 as int)));
            assert(m2.ty(m.nodes[i].children[j].1 as int) == m.ty(
                m.nodes[i].children[j].1 as int,
            ));
        }
    }
    assert forall|s: int| 0 <= s < m2.sets.len() implies set_ok(m2, s) by {
        assert(set_ok(m, s));
        if s == eslot {
            assert(m2.sets[s] == u);
            assert forall|j: int| 0 <= j < u.len() implies (#[trigger] u[j]) < m2.n() && (m2.ty(
                u[j] as int,
            ) == NodeType::Mod || m2.ty(u[j] as int) == NodeType::File) by {
                assert(u.contains(u[j]));
                let x = u[j];
                assert(m.srcs(e).contains(x) || m.srcs(o).contains(x));
                if m.srcs(e).contains(x) {
                    let jx = choose|jx: int| 0 <= jx < m.srcs(e).len() && m.srcs(e)[jx] == x;
                    assert(m.sets[eslot][jx] == x);
                } else {
                    let jx = choose|jx: int| 0 <= jx < m.srcs(o).len() && m.srcs(o)[jx] == x;
                    assert(m.sets[oslot][jx] == x);
                }
                assert(m2.ty(x as int) == m.ty(x as int));
            }
        } else {
            assert(m2.sets[s] == m.sets[s]);
            assert forall|j: int| 0 <= j < m2.sets[s].len() implies (#[trigger] m2.sets[s][j])
                < m2.n() && (m2.ty(m2.sets[s][j] as int) == NodeType::Mod || m2.ty(
                m2.sets[s][j] as int,
            ) == NodeType::File) by {
                assert(m.sets[s][j] < m.n());
                assert(m2.ty(m.sets[s][j] as int) == m.ty(m.sets[s][j] as int));
            }
        }
    }
    assert forall|i: int, j: int| 0 <= i < m2.n() && 0 <= j < m2.srcs(i).len() implies prov_rank(
        m2.ty(#[trigger] m2.srcs(i)[j] as int),
    ) < prov_rank(m2.ty(i)) by {
        assert(node_ok(m, i));
        let islot2 = m2.nodes[i].slot;
        assert(m2.ty(i) == m.ty(i));
        if islot2 == eslot {
            // `i` shares the union slot, so its rank equals `e`'s
            if i == o {
                assert(prov_rank(m.ty(o)) == prov_rank(m.ty(e)));
            } else {
                assert(m2.nodes[i].slot == m.nodes[i].slot);
                assert(prov_rank(m.ty(i)) == prov_rank(m.ty(e)));
            }
            assert(m2.srcs(i) == u);
            let x = u[j];
            assert(u.contains(x));
            assert(m.srcs(e).contains(x) || m.srcs(o).contains(x));
            if m.srcs(e).contains(x) {
                let jx = choose|jx: int| 0 <= jx < m.srcs(e).len() && m.srcs(e)[jx] == x;
                assert(m.srcs(e)[jx] == x);
                assert(prov_rank(m.ty(x as int)) < prov_rank(m.ty(e)));
            } else {
                let jx = choose|jx: int| 0 <= jx < m.srcs(o).len() && m.srcs(o)[jx] == x;
                assert(m.srcs(o)[jx] == x);
                assert(prov_rank(m.ty(x as int)) < prov_rank(m.ty(o)));
            }
            assert(m2.ty(x as int) == m.ty(x as int));
        } else {
            if i == o {
                assert(false);
            } else {
                assert(m2.nodes[i].slot == m.nodes[i].slot);
                assert(m2.srcs(i) == m.srcs(i));
                assert(prov_rank(m.ty(m.srcs(i)[j] as int)) < prov_rank(m.ty(i)));
                assert(set_ok(m, m.nodes[i].slot));
                let x = m.srcs(i)[j] as int;
                assert(x < m.n());
                assert(m2.ty(x) == m.ty(x));
            }
        }
    }
    assert forall|i: int, j: int|
        0 <= i < m2.n() && 0 <= j < m2.n() && m2.nodes[i].slot == m2.nodes[j].slot implies
    prov_rank(#[trigger] m2.ty(i)) == prov_rank(#[trigger] m2.ty(j)) by {
        let si = if i == o { eslot } else { m.nodes[i].slot };
        let sj = if j == o { eslot } else { m.nodes[j].slot };
        assert(m2.nodes[i].slot == si);
        assert(m2.nodes[j].slot == sj);
        if i != o && j != o {
            assert(prov_rank(m.ty(i)) == prov_rank(m.ty(j)));
        } else if i == o && j != o {
            assert(m.nodes[j].slot == eslot);
            assert(prov_rank(m.ty(j)) == prov_rank(m.ty(e)));
        } else if j == o && i != o {
            assert(m.nodes[i].slot == eslot);
            assert(prov_rank(m.ty(i)) == prov_rank(m.ty(e)));
        }
    }
    assert forall|nm: Seq<char>, x: int|
        m2.library.contains_key(nm) && 0 <= x < m2.library[nm].len() implies (
    #[trigger] m2.library[nm][x]) < m2.n() && m2.nodes[m2.library[nm][x] as int].name == nm by {
        assert(m.library[nm][x] < m.n());
        assert(m.nodes[m.library[nm][x] as int].name == nm);
        assert(m2.nodes[m.library[nm][x] as int].name == m.nodes[m.library[nm][x] as int].name);
    }
    assert forall|j: int| 0 <= j < m2.mods.len() implies (#[trigger] m2.mods[j]).0 < m2.n()
        && m2.ty(m2.mods[j].0 as int) == NodeType::Mod by {
        assert(m.mods[j].0 < m.n());
        assert(m2.ty(m.mods[j].0 as int) == m.ty(m.mods[j].0 as int));
    }
}

} // verus!
