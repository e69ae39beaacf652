//! Grammar-directed script extraction.
//!
//! The grammar collaborator turns raw script text into a concrete syntax
//! tree; only a fixed vocabulary of node kinds and the `key` / `value` /
//! `tag` fields are relied upon, so the tree is modelled here as a plain
//! recursive value that the adapter layer fills in.

use crate::arena::{
    fresh_node, lib_add, set_child_model, set_start_model, Arena, ArenaModel, NodeId,
};
use crate::node_type::{attach_ok, classify, NodeType};
use crate::path::RelPath;
use crate::tree::ParadoxModDefinitionTree;
use vstd::prelude::*;

verus! {

/// Relies on `String::push`: appends exactly one character.
pub assume_specification[ String::push ](s: &mut String, ch: char)
    ensures
        final(s)@ == old(s)@.push(ch),
;

/// The fixed vocabulary of syntax-node kinds the extractor understands.
#[derive(Clone, Copy, PartialEq, Eq, Structural, Debug)]
pub enum CstKind {
    /// Raw brace punctuation; ignored entirely.
    Brace,
    /// A statement: scalar children become self-named leaves.
    Statement,
    /// The top-level file wrapper; a pure container.
    SourceFile,
    /// A `{ ... }` block; a pure container.
    MapBlock,
    /// `key = value`.
    Assignment,
    /// `key = tag { ... }` at the statement level.
    TypedAssignment,
    /// A bare scalar token.
    SimpleValue,
    /// `{ a b c }` holding scalar elements.
    ArrayValue,
    /// A tag followed by an array.
    TaggedArray,
    /// Anything else; ignored.
    Other,
}

/// One node of the concrete syntax tree, as plain values.
pub struct CstNode {
    /// The node's kind.
    pub kind: CstKind,
    /// The source text of this node (read on scalars, keys and tags).
    pub text: String,
    /// Start line of the node's token.
    pub line: usize,
    /// Start column of the node's token.
    pub col: usize,
    /// Ordered children.
    pub children: Vec<CstNode>,
    /// The `key` field of an assignment.
    pub key: Option<Box<CstNode>>,
    /// The `value` field of an assignment or tagged array.
    pub value: Option<Box<CstNode>>,
    /// The `tag` field of a tagged array.
    pub tag: Option<Box<CstNode>>,
}

/// `c` with a backslash escape where needed, as the rendered list writes it.
pub open spec fn esc_char(c: char) -> Seq<char> {
    if c == '"' || c == '\\' {
        seq!['\\', c]
    } else {
        seq![c]
    }
}

/// `s` with every quote and backslash escaped.
pub open spec fn esc(s: Seq<char>) -> Seq<char>
    decreases s.len(),
{
    if s.len() == 0 {
        Seq::empty()
    } else {
        esc(s.drop_last()) + esc_char(s.last())
    }
}

/// `s` escaped and wrapped in double quotes.
pub open spec fn quoted(s: Seq<char>) -> Seq<char> {
    seq!['"'] + esc(s) + seq!['"']
}

/// The comma-separated quoted elements.
pub open spec fn rendered_inner(vals: Seq<Seq<char>>) -> Seq<char>
    decreases vals.len(),
{
    if vals.len() == 0 {
        Seq::empty()
    } else if vals.len() == 1 {
        quoted(vals[0])
    } else {
        rendered_inner(vals.drop_last()) + seq![',', ' '] + quoted(vals.last())
    }
}

/// The rendered-list payload of an array value: its scalar elements, in
/// order, quoted and bracketed.
pub open spec fn rendered(vals: Seq<Seq<char>>) -> Seq<char> {
    seq!['['] + rendered_inner(vals) + seq![']']
}

/// The texts of the scalar elements among `cs`, in order.
pub open spec fn array_vals(cs: Seq<CstNode>) -> Seq<Seq<char>>
    decreases cs.len(),
{
    if cs.len() == 0 {
        Seq::empty()
    } else {
        let rest = array_vals(cs.drop_last());
        if cs.last().kind == CstKind::SimpleValue {
            rest.push(cs.last().text@)
        } else {
            rest
        }
    }
}

/// The model after appending one freshly classified node carrying `value`.
pub open spec fn push_node_model(m: ArenaModel, name: Seq<char>, rd: Seq<Seq<char>>, value: Option<Seq<char>>) -> ArenaModel {
    ArenaModel {
        nodes: m.nodes.push(fresh_node(name, rd, value, classify(name, rd, value), m.sets.len() as int)),
        sets: m.sets.push(Seq::empty()),
        library: lib_add(m.library, name, m.n() as NodeId),
        mods: m.mods,
    }
}

/// The arena after extracting syntax node `c` into container `root`.
///
/// Dispatch follows the node kind: braces are dropped; statements turn bare
/// scalars into self-named stamped leaves and recurse elsewhere; the file
/// wrapper and blocks recurse; assignments extract the key and dispatch on
/// the value's shape (scalar leaf, rendered array, tag plus rendered array,
/// or a container child extracted recursively), stamping the container with
/// the key's position.  A positive `max_depth` silently drops anything
/// deeper.  Unknown kinds are ignored.
pub open spec fn extract_model(m: ArenaModel, c: CstNode, root: NodeId, max_depth: int, depth: int) -> ArenaModel
    decreases c, 0int, 0int,
{
    if max_depth > 0 && depth > max_depth {
        m
    } else if c.kind == CstKind::Brace {
        m
    } else if c.kind == CstKind::Statement {
        extract_list_model(m, c.children@, 0, root, max_depth, depth, true)
    } else if c.kind == CstKind::SourceFile || c.kind == CstKind::MapBlock {
        extract_list_model(m, c.children@, 0, root, max_depth, depth, false)
    } else if (c.kind == CstKind::Assignment || c.kind == CstKind::TypedAssignment) && c.key is Some
        && c.value is Some {
        let key = *c.key.unwrap();
        let val = *c.value.unwrap();
        let rd = m.nodes[root as int].rel_dir;
        let m3 = if val.kind == CstKind::SimpleValue {
            let m1 = push_node_model(m, key.text@, rd, Some(val.text@));
            set_child_model(m1, root as int, key.text@, m.n(), true)
        } else if val.kind == CstKind::ArrayValue {
            let m1 = push_node_model(m, key.text@, rd, Some(rendered(array_vals(val.children@))));
            set_child_model(m1, root as int, key.text@, m.n(), true)
        } else if val.kind == CstKind::TaggedArray && val.tag is Some && val.value is Some {
            let payload = val.tag.unwrap().text@ + rendered(array_vals(val.value.unwrap().children@));
            let m1 = push_node_model(m, key.text@, rd, Some(payload));
            set_child_model(m1, root as int, key.text@, m.n(), true)
        } else {
            let m1 = push_node_model(m, key.text@, rd, None);
            let m2 = set_child_model(m1, root as int, key.text@, m.n(), true);
            extract_model(m2, val, m.n() as NodeId, max_depth, depth + 1)
        };
        set_start_model(m3, root as int, key.line, key.col)
    } else {
        m
    }
}

/// Extract the children `cs[i..]` into `root`, in order.  Under a statement
/// (`stmt`), a scalar child becomes a self-named leaf stamped with its own
/// position; any other child recurses one level deeper.
pub open spec fn extract_list_model(m: ArenaModel, cs: Seq<CstNode>, i: int, root: NodeId, max_depth: int, depth: int, stmt: bool) -> ArenaModel
    decreases cs, 1int, cs.len() - i,
{
    if i < 0 || i >= cs.len() {
        m
    } else {
        let c = cs[i];
        let m2 = if stmt && c.kind == CstKind::SimpleValue {
            let rd = m.nodes[root as int].rel_dir;
            let m1 = push_node_model(m, c.text@, rd, Some(c.text@));
            let ms = set_start_model(m1, m.n(), c.line, c.col);
            set_child_model(ms, root as int, c.text@, m.n(), true)
        } else {
            extract_model(m, c, root, max_depth, depth + 1)
        };
        extract_list_model(m2, cs, i + 1, root, max_depth, depth, stmt)
    }
}

/// What extraction asks of the arena it grows: room for every created node,
/// and the attachment rule wherever a container child is created.  Leaves
/// are always attachable (`Value` is the least node type).  Under a
/// File-typed root this also refuses a nested-block key that itself carries
/// a recognized file extension (it would classify as a File child of a File
/// parent, the one source recording the provenance rank discipline of
/// [`crate::arena::prov_rank`] excludes).
pub open spec fn extract_ok(m: ArenaModel, c: CstNode, root: NodeId, max_depth: int, depth: int) -> bool
    decreases c, 0int, 0int,
{
    if max_depth > 0 && depth > max_depth {
        true
    } else if c.kind == CstKind::Brace {
        true
    } else if c.kind == CstKind::Statement {
        extract_list_ok(m, c.children@, 0, root, max_depth, depth, true)
    } else if c.kind == CstKind::SourceFile || c.kind == CstKind::MapBlock {
        extract_list_ok(m, c.children@, 0, root, max_depth, depth, false)
    } else if c.kind == CstKind::Assignment || c.kind == CstKind::TypedAssignment {
        c.key is Some && c.value is Some && {
            let key = *c.key.unwrap();
            let val = *c.value.unwrap();
            let rd = m.nodes[root as int].rel_dir;
            if val.kind == CstKind::SimpleValue || val.kind == CstKind::ArrayValue {
                m.n() < u32::MAX
            } else if val.kind == CstKind::TaggedArray {
                val.tag is Some && val.value is Some && m.n() < u32::MAX
            } else {
                let t = classify(key.text@, rd, None);
                let m1 = push_node_model(m, key.text@, rd, None);
                let m2 = set_child_model(m1, root as int, key.text@, m.n(), true);
                &&& m.n() < u32::MAX
                &&& attach_ok(m.ty(root as int), t)
                &&& !(m.ty(root as int) == NodeType::File && t == NodeType::File)
                &&& extract_ok(m2, val, m.n() as NodeId, max_depth, depth + 1)
            }
        }
    } else {
        true
    }
}

/// [`extract_ok`] over a child list.
pub open spec fn extract_list_ok(m: ArenaModel, cs: Seq<CstNode>, i: int, root: NodeId, max_depth: int, depth: int, stmt: bool) -> bool
    decreases cs, 1int, cs.len() - i,
{
    if i < 0 || i >= cs.len() {
        true
    } else {
        let c = cs[i];
        if stmt && c.kind == CstKind::SimpleValue {
            let rd = m.nodes[root as int].rel_dir;
            let m1 = push_node_model(m, c.text@, rd, Some(c.text@));
            let ms = set_start_model(m1, m.n(), c.line, c.col);
            let m2 = set_child_model(ms, root as int, c.text@, m.n(), true);
            m.n() < u32::MAX && extract_list_ok(m2, cs, i + 1, root, max_depth, depth, stmt)
        } else {
            extract_ok(m, c, root, max_depth, depth + 1) && extract_list_ok(
                extract_model(m, c, root, max_depth, depth + 1),
                cs,
                i + 1,
                root,
                max_depth,
                depth,
                stmt,
            )
        }
    }
}


/// Structural size of a syntax node, bounding the extraction's recursion
/// depth.
pub open spec fn cst_size(c: CstNode) -> nat
    decreases c, 0int, 0int,
{
    1 + cst_list_size(c.children@, 0) + (match c.key {
        Some(b) => cst_size(*b),
        None => 0,
    }) + (match c.value {
        Some(b) => cst_size(*b),
        None => 0,
    }) + (match c.tag {
        Some(b) => cst_size(*b),
        None => 0,
    })
}

/// Combined size of the children from index `i` on.
pub open spec fn cst_list_size(cs: Seq<CstNode>, i: int) -> nat
    decreases cs, 1int, cs.len() - i,
{
    if i < 0 || i >= cs.len() {
        0
    } else {
        cst_size(cs[i]) + cst_list_size(cs, i + 1)
    }
}

/// Every element's size is bounded by the list size it sits in.
proof fn lemma_cst_list_size(cs: Seq<CstNode>, i: int, j: int)
    requires
        0 <= i <= j < cs.len(),
    ensures
        cst_size(cs[j]) <= cst_list_size(cs, i),
    decreases j - i,
{
    if i < j {
        lemma_cst_list_size(cs, i + 1, j);
    }
}

/// The texts of the scalar elements among the children of `c`.
fn collect_array_vals(c: &CstNode) -> (r: Vec<String>)
    ensures
        r.deep_view() == array_vals(c.children@),
{
    let mut r: Vec<String> = Vec::new();
    let mut i: usize = 0;
    while i < c.children.len()
        invariant
            i <= c.children@.len(),
            r.deep_view() == array_vals(c.children@.take(i as int)),
        decreases c.children@.len() - i,
    {
        let ghost pre = c.children@.take(i as int);
        proof {
            assert(c.children@.take(i + 1).drop_last() =~= pre);
            assert(c.children@.take(i + 1).last() == c.children@[i as int]);
        }
        if c.children[i].kind == CstKind::SimpleValue {
            let ghost prev = r.deep_view();
            r.push(c.children[i].text.clone());
            proof {
                assert(r.deep_view() =~= prev.push(c.children@[i as int].text@));
            }
        }
        i = i + 1;
    }
    proof {
        assert(c.children@.take(c.children@.len() as int) =~= c.children@);
    }
    r
}

/// Render scalar elements as the bracketed, quoted, comma-separated payload.
pub fn render_array(vals: &Vec<String>) -> (r: String)
    ensures
        r@ == rendered(vals.deep_view()),
{
    let ghost gv = vals.deep_view();
    let mut out = String::new();
    out.push('[');
    proof {
        assert(out@ =~= seq!['['] + rendered_inner(gv.take(0)));
        assert(rendered_inner(gv.take(0)) =~= Seq::<char>::empty());
    }
    let mut i: usize = 0;
    while i < vals.len()
        invariant
            i <= gv.len(),
            gv == vals.deep_view(),
            gv.len() == vals@.len(),
            forall|j: int| 0 <= j < gv.len() ==> gv[j] == (#[trigger] vals@[j])@,
            out@ == seq!['['] + rendered_inner(gv.take(i as int)),
        decreases gv.len() - i,
    {
        let ghost pre = gv.take(i as int);
        proof {
            assert(gv.take(i + 1).drop_last() =~= pre);
            assert(gv.take(i + 1).last() == gv[i as int]);
        }
        if i > 0 {
            out.push(',');
            out.push(' ');
        }
        out.push('"');
        let ghost mid = out@;
        let v = &vals[i];
        let n = v.as_str().unicode_len();
        let mut j: usize = 0;
        proof {
            assert(esc(v@.take(0)) =~= Seq::<char>::empty());
            assert(mid =~= mid + esc(v@.take(0)));
        }
        while j < n
            invariant
                j <= n,
                n == v@.len(),
                out@ == mid + esc(v@.take(j as int)),
            decreases n - j,
        {
            let ch = v.as_str().get_char(j);
            proof {
                assert(v@.take(j + 1).drop_last() =~= v@.take(j as int));
                assert(v@.take(j + 1).last() == v@[j as int]);
            }
            if ch == '"' || ch == '\\' {
                out.push('\\');
            }
            out.push(ch);
            proof {
                assert(out@ =~= mid + esc(v@.take(j + 1)));
            }
            j = j + 1;
        }
        out.push('"');
        proof {
            assert(v@.take(n as int) =~= v@);
            assert(gv[i as int] == v@);
            if i == 0 {
                assert(rendered_inner(gv.take(1)) =~= quoted(gv[0]));
                assert(out@ =~= seq!['['] + rendered_inner(gv.take(i + 1)));
            } else {
                assert(rendered_inner(gv.take(i + 1)) == rendered_inner(pre) + seq![',', ' ']
                    + quoted(gv[i as int]));
                assert(out@ =~= seq!['['] + rendered_inner(gv.take(i + 1)));
            }
        }
        i = i + 1;
    }
    out.push(']');
    proof {
        assert(gv.take(gv.len() as int) =~= gv);
        assert(out@ =~= rendered(gv));
    }
    out
}


/// The arena a standalone extraction starts from: one Virtual root named
/// `<root>` whose directory is the single "current directory" segment.
pub open spec fn script_root_model() -> ArenaModel {
    push_node_model(
        (ArenaModel {
            nodes: Seq::empty(),
            sets: Seq::empty(),
            library: Map::empty(),
            mods: Seq::empty(),
        }),
        "<root>"@,
        seq![seq!['.']],
        None,
    )
}

/// Extract syntax node `node` into the container `root` of `arena`.
pub fn extract_script_definitions(arena: &mut Arena, node: &CstNode, root: NodeId, max_depth: i32, depth: i32)
    requires
        old(arena).wf(),
        root < old(arena)@.n(),
        extract_ok(old(arena)@, *node, root, max_depth as int, depth as int),
        0 <= depth,
        depth + cst_size(*node) <= i32::MAX,
    ensures
        final(arena).wf(),
        final(arena)@ == extract_model(old(arena)@, *node, root, max_depth as int, depth as int),
        final(arena)@.n() >= old(arena)@.n(),
    decreases cst_size(*node), 0int,
{
    if max_depth > 0 && depth > max_depth {
        return ;
    }
    match node.kind {
        CstKind::Statement => {
            extract_children(arena, node, root, max_depth, depth, true);
        },
        CstKind::SourceFile | CstKind::MapBlock => {
            extract_children(arena, node, root, max_depth, depth, false);
        },
        CstKind::Assignment | CstKind::TypedAssignment => {
            match (&node.key, &node.value) {
                (Some(kb), Some(vb)) => {
                    let key = &**kb;
                    let val = &**vb;
                    let ghost m0 = arena@;
                    let rd = arena.get(root).rel_dir().clone();
                    match val.kind {
                        CstKind::SimpleValue => {
                            let nid = arena.new_node(
                                key.text.clone(),
                                rd,
                                Some(val.text.clone()),
                            );
                            proof {
                                assert(arena@ =~= push_node_model(
                                    m0,
                                    key.text@,
                                    m0.nodes[root as int].rel_dir,
                                    Some(val.text@),
                                ));
                            }
                            arena.set_child(root, key.text.clone(), nid, true);
                        },
                        CstKind::ArrayValue => {
                            let vals = collect_array_vals(val);
                            let payload = render_array(&vals);
                            let nid = arena.new_node(key.text.clone(), rd, Some(payload));
                            proof {
                                assert(arena@ =~= push_node_model(
                                    m0,
                                    key.text@,
                                    m0.nodes[root as int].rel_dir,
                                    Some(rendered(array_vals(val.children@))),
                                ));
                            }
                            arena.set_child(root, key.text.clone(), nid, true);
                        },
                        CstKind::TaggedArray => {
                            match (&val.tag, &val.value) {
                                (Some(tb), Some(ab)) => {
                                    let vals = collect_array_vals(&**ab);
                                    let body = render_array(&vals);
                                    let payload = tb.text.clone().concat(body.as_str());
                                    let nid = arena.new_node(key.text.clone(), rd, Some(payload));
                                    proof {
                                        assert(arena@ =~= push_node_model(
                                            m0,
                                            key.text@,
                                            m0.nodes[root as int].rel_dir,
                                            Some(val.tag.unwrap().text@ + rendered(
                                                array_vals(val.value.unwrap().children@),
                                            )),
                                        ));
                                    }
                                    arena.set_child(root, key.text.clone(), nid, true);
                                },
                                _ => {
                                    proof {
                                        assert(false);
                                    }
                                },
                            }
                        },
                        _ => {
                            let nid = arena.new_node(key.text.clone(), rd, None);
                            proof {
                                assert(arena@ =~= push_node_model(
                                    m0,
                                    key.text@,
                                    m0.nodes[root as int].rel_dir,
                                    None,
                                ));
                            }
                            arena.set_child(root, key.text.clone(), nid, true);
                            proof {
                                assert(cst_size(*node) >= 1 + cst_size(**vb));
                            }
                            extract_script_definitions(arena, val, nid, max_depth, depth + 1);
                        },
                    }
                    arena.set_node_start_point(root, key.line, key.col);
                },
                _ => {
                    proof {
                        assert(false);
                    }
                },
            }
        },
        _ => {},
    }
}

/// Extract every child of `node` into `root`, in order.
fn extract_children(arena: &mut Arena, node: &CstNode, root: NodeId, max_depth: i32, depth: i32, stmt: bool)
    requires
        old(arena).wf(),
        root < old(arena)@.n(),
        extract_list_ok(old(arena)@, node.children@, 0, root, max_depth as int, depth as int, stmt),
        0 <= depth,
        depth + 1 + cst_list_size(node.children@, 0) <= i32::MAX,
    ensures
        final(arena).wf(),
        final(arena)@ == extract_list_model(
            old(arena)@,
            node.children@,
            0,
            root,
            max_depth as int,
            depth as int,
            stmt,
        ),
        final(arena)@.n() >= old(arena)@.n(),
    decreases cst_list_size(node.children@, 0), 1int,
{
    let ghost cs = node.children@;
    let ghost m0 = arena@;
    let mut i: usize = 0;
    while i < node.children.len()
        invariant
            i <= cs.len(),
            cs == node.children@,
            arena.wf(),
            root < arena@.n(),
            arena@.n() >= m0.n(),
            0 <= depth,
            depth + 1 + cst_list_size(cs, i as int) <= i32::MAX,
            extract_list_ok(arena@, cs, i as int, root, max_depth as int, depth as int, stmt),
            extract_list_model(m0, cs, 0, root, max_depth as int, depth as int, stmt)
                == extract_list_model(
                arena@,
                cs,
                i as int,
                root,
                max_depth as int,
                depth as int,
                stmt,
            ),
        decreases cs.len() - i,
    {
        let c = &node.children[i];
        let ghost mpre = arena@;
        if stmt && c.kind == CstKind::SimpleValue {
            let rd = arena.get(root).rel_dir().clone();
            let nid = arena.new_node(c.text.clone(), rd, Some(c.text.clone()));
            proof {
                assert(arena@ =~= push_node_model(
                    mpre,
                    cs[i as int].text@,
                    mpre.nodes[root as int].rel_dir,
                    Some(cs[i as int].text@),
                ));
            }
            arena.set_node_start_point(nid, c.line, c.col);
            arena.set_child(root, c.text.clone(), nid, true);
        } else {
            proof {
                lemma_cst_list_size(cs, 0, i as int);
                assert(cst_size(cs[i as int]) <= cst_list_size(cs, 0));
            }
            extract_script_definitions(arena, c, root, max_depth, depth + 1);
        }
        proof {
            assert(cst_list_size(cs, i as int) >= cst_list_size(cs, i + 1));
        }
        i = i + 1;
    }
}

impl ParadoxModDefinitionTree {
    /// Standalone single-file script extraction: build a tree holding only a
    /// Virtual root, then extract `cst` into it.  Usable without any mod
    /// context.
    pub fn extract_script(cst: &CstNode, max_depth: i32) -> (r: ParadoxModDefinitionTree)
        requires
            extract_ok(script_root_model(), *cst, 0, max_depth as int, 0),
            cst_size(*cst) <= i32::MAX,
        ensures
            r.wf(),
            r.root == 0,
            r.arena@ == extract_model(script_root_model(), *cst, 0, max_depth as int, 0),
    {
        let mut arena = Arena::new();
        let rel_dir = RelPath::empty().join(".");
        proof {
            reveal_strlit(".");
            assert(rel_dir@ =~~= seq![seq!['.']]);
        }
        let root = arena.new_node(root_name(), rel_dir, None);
        proof {
            assert(arena@ =~= script_root_model());
        }
        extract_script_definitions(&mut arena, cst, root, max_depth, 0);
        ParadoxModDefinitionTree { arena, root: 0 }
    }
}

/// The marker name of a standalone extraction root.
fn root_name() -> (r: String)
    ensures
        r@ == "<root>"@,
{
    String::from_str("<root>")
}

} // verus!
