use paradox_defs::arena::Arena;
use paradox_defs::node_type::{attach_ok_exec, get_node_type, NodeType};
use paradox_defs::path::RelPath;
use paradox_defs::script::{CstKind, CstNode};
use paradox_defs::tree::ParadoxModDefinitionTree;

fn rp(segs: &[&str]) -> RelPath {
    RelPath::from_segs(segs.iter().map(|s| s.to_string()).collect())
}

fn leaf(kind: CstKind, text: &str, line: usize, col: usize) -> CstNode {
    CstNode {
        kind,
        text: text.to_string(),
        line,
        col,
        children: Vec::new(),
        key: None,
        value: None,
        tag: None,
    }
}

fn node(kind: CstKind, children: Vec<CstNode>) -> CstNode {
    CstNode {
        kind,
        text: String::new(),
        line: 0,
        col: 0,
        children,
        key: None,
        value: None,
        tag: None,
    }
}

fn assignment(key: &str, value: CstNode) -> CstNode {
    CstNode {
        kind: CstKind::Assignment,
        text: String::new(),
        line: 0,
        col: 0,
        children: Vec::new(),
        key: Some(Box::new(leaf(CstKind::SimpleValue, key, 0, 0))),
        value: Some(Box::new(value)),
        tag: None,
    }
}

/// The syntax tree of `foo = bar`.
fn cst_scalar_assignment() -> CstNode {
    node(
        CstKind::SourceFile,
        vec![assignment("foo", leaf(CstKind::SimpleValue, "bar", 0, 6))],
    )
}

#[test]
fn classifier_value_wins() {
    let t = get_node_type("anything", &rp(&["a"]), &Some("v".to_string()));
    assert_eq!(t, NodeType::Value);
}

#[test]
fn classifier_marker_is_virtual() {
    assert_eq!(get_node_type("<root>", &rp(&["a"]), &None), NodeType::Virtual);
    assert_eq!(get_node_type("<def>", &rp(&["x"]), &None), NodeType::Virtual);
}

#[test]
fn classifier_empty_dir_is_virtual() {
    assert_eq!(get_node_type("plain", &RelPath::empty(), &None), NodeType::Virtual);
}

#[test]
fn classifier_extension_cases() {
    assert_eq!(get_node_type("file.txt", &rp(&["common"]), &None), NodeType::File);
    assert_eq!(get_node_type("file.TXT", &rp(&["common"]), &None), NodeType::File);
    assert_eq!(get_node_type("loc.yml", &rp(&["l"]), &None), NodeType::File);
    // a dotted identifier with an unrecognized extension is no file
    assert_eq!(
        get_node_type("capital_county.culture", &rp(&["common"]), &None),
        NodeType::Directory
    );
    // beneath a known file everything is an identifier
    assert_eq!(
        get_node_type("my_trait", &rp(&["common", "traits.txt"]), &None),
        NodeType::Identifier
    );
    // a leading dot is no extension
    assert_eq!(get_node_type(".gitignore", &rp(&["common"]), &None), NodeType::Directory);
}

#[test]
fn attachment_rule() {
    assert!(attach_ok_exec(NodeType::Directory, NodeType::File));
    assert!(!attach_ok_exec(NodeType::File, NodeType::Directory));
    assert!(attach_ok_exec(NodeType::Virtual, NodeType::Mod));
    assert!(attach_ok_exec(NodeType::Value, NodeType::Virtual));
    assert!(attach_ok_exec(NodeType::File, NodeType::File));
}

#[test]
fn node_type_names() {
    assert_eq!(NodeType::Virtual.as_str(), "Virtual");
    assert_eq!(NodeType::Value.as_str(), "Value");
    assert!(NodeType::Value.le(NodeType::Mod));
    assert!(!NodeType::Mod.le(NodeType::Value));
}

#[test]
fn scalar_assignment_extracts_leaf() {
    let cst = cst_scalar_assignment();
    let tree = ParadoxModDefinitionTree::extract_script(&cst, -1);
    let root = tree.arena.get(0);
    let kids = root.children_entries();
    assert_eq!(kids.len(), 1);
    assert_eq!(kids[0].0, "foo");
    let child = tree.arena.get(kids[0].1);
    assert_eq!(child.name(), "foo");
    assert_eq!(child.value().as_deref(), Some("bar"));
}

#[test]
fn array_assignment_renders_in_order() {
    let arr = node(
        CstKind::ArrayValue,
        vec![
            leaf(CstKind::SimpleValue, "a", 0, 7),
            leaf(CstKind::SimpleValue, "b", 0, 9),
            leaf(CstKind::SimpleValue, "c", 0, 11),
        ],
    );
    let cst = node(CstKind::SourceFile, vec![assignment("foo", arr)]);
    let tree = ParadoxModDefinitionTree::extract_script(&cst, -1);
    let kids = tree.arena.get(0).children_entries();
    assert_eq!(kids.len(), 1);
    let child = tree.arena.get(kids[0].1);
    assert_eq!(child.value().as_deref(), Some("[\"a\", \"b\", \"c\"]"));
}

#[test]
fn tagged_array_prepends_tag() {
    let arr = node(
        CstKind::ArrayValue,
        vec![leaf(CstKind::SimpleValue, "a", 0, 11), leaf(CstKind::SimpleValue, "b", 0, 13)],
    );
    let tagged = CstNode {
        kind: CstKind::TaggedArray,
        text: String::new(),
        line: 0,
        col: 0,
        children: Vec::new(),
        key: None,
        value: Some(Box::new(arr)),
        tag: Some(Box::new(leaf(CstKind::SimpleValue, "tag", 0, 6))),
    };
    let cst = node(CstKind::SourceFile, vec![assignment("foo", tagged)]);
    let tree = ParadoxModDefinitionTree::extract_script(&cst, -1);
    let kids = tree.arena.get(0).children_entries();
    let child = tree.arena.get(kids[0].1);
    assert_eq!(child.value().as_deref(), Some("tag[\"a\", \"b\"]"));
}

#[test]
fn statement_scalars_become_self_named_leaves() {
    let stmt = node(
        CstKind::Statement,
        vec![leaf(CstKind::SimpleValue, "alpha", 3, 2), leaf(CstKind::SimpleValue, "beta", 3, 8)],
    );
    let cst = node(CstKind::SourceFile, vec![stmt]);
    let tree = ParadoxModDefinitionTree::extract_script(&cst, -1);
    let kids = tree.arena.get(0).children_entries();
    assert_eq!(kids.len(), 2);
    assert_eq!(kids[0].0, "alpha");
    let a = tree.arena.get(kids[0].1);
    assert_eq!(a.value().as_deref(), Some("alpha"));
    assert_eq!(a.start_point(), Some((3, 2)));
}

#[test]
fn depth_limit_drops_nested_blocks() {
    // outer = { inner = { leaf = x } }
    let innermost = node(CstKind::MapBlock, vec![assignment(
        "leaf",
        leaf(CstKind::SimpleValue, "x", 0, 0),
    )]);
    let inner = node(CstKind::MapBlock, vec![assignment("inner", innermost)]);
    let cst = node(CstKind::SourceFile, vec![assignment("outer", inner)]);

    // unlimited: outer -> inner -> leaf all exist
    let full = ParadoxModDefinitionTree::extract_script(&cst, -1);
    let outer = full.get(0, "outer", None).unwrap();
    let inner_id = full.get(outer, "inner", None).unwrap();
    assert!(full.get(inner_id, "leaf", None).is_some());

    // a low limit leaves `outer` but nothing under it; no partial node, no
    // error
    let shallow = ParadoxModDefinitionTree::extract_script(&cst, 2);
    let outer2 = shallow.get(0, "outer", None).unwrap();
    assert_eq!(shallow.arena.get(outer2).children_len(), 0);

    // a deeper limit reaches `inner` but cuts the leaf beyond it
    let cut = ParadoxModDefinitionTree::extract_script(&cst, 4);
    let outer3 = cut.get(0, "outer", None).unwrap();
    let inner3 = cut.get(outer3, "inner", None).unwrap();
    assert_eq!(cut.arena.get(inner3).children_len(), 0);
}

#[test]
fn braces_and_unknown_kinds_are_ignored() {
    let cst = node(
        CstKind::SourceFile,
        vec![leaf(CstKind::Brace, "{", 0, 0), leaf(CstKind::Other, "??", 0, 1)],
    );
    let tree = ParadoxModDefinitionTree::extract_script(&cst, -1);
    assert_eq!(tree.arena.get(0).children_len(), 0);
}

#[test]
fn container_stamped_with_last_key_position() {
    let block = node(CstKind::MapBlock, vec![]);
    let mut a1 = assignment("first", leaf(CstKind::SimpleValue, "1", 0, 0));
    if let Some(k) = a1.key.as_mut() {
        k.line = 5;
        k.col = 1;
    }
    let mut a2 = assignment("second", block);
    if let Some(k) = a2.key.as_mut() {
        k.line = 9;
        k.col = 4;
    }
    let cst = node(CstKind::SourceFile, vec![a1, a2]);
    let tree = ParadoxModDefinitionTree::extract_script(&cst, -1);
    // the root container carries the last-processed key's position
    assert_eq!(tree.arena.get(0).start_point(), Some((9, 4)));
}

#[test]
fn get_by_dir_skips_current_directory_segments() {
    let mut tree = ParadoxModDefinitionTree::new();
    let a = tree.setdefault(0, "a".to_string(), None);
    let b = tree.setdefault(a, "b".to_string(), None);
    let found = tree.get_by_dir(0, &rp(&[".", "a", ".", "b"]), None);
    assert_eq!(found, Some(b));
    // the supplied default comes back the moment a segment is absent
    let missing = tree.get_by_dir(0, &rp(&["a", "zz"]), Some(77));
    assert_eq!(missing, Some(77));
    let missing_none = tree.get_by_dir(0, &rp(&["zz"]), None);
    assert_eq!(missing_none, None);
}

#[test]
fn setdefault_returns_existing_child() {
    let mut tree = ParadoxModDefinitionTree::new();
    let a = tree.setdefault(0, "a".to_string(), None);
    let again = tree.setdefault(0, "a".to_string(), None);
    assert_eq!(a, again);
    // a created node inherits the parent's directory extended by the key
    let nd = tree.arena.get(a);
    assert_eq!(nd.rel_dir().segments(), &vec!["a".to_string()]);
}

#[test]
fn setdefault_by_dir_names_terminal_differently() {
    let mut tree = ParadoxModDefinitionTree::new();
    let end = tree.setdefault_by_dir(0, &rp(&["x", "y"]), "<def>");
    // intermediate named after its segment, terminal after the marker
    let x = tree.get(0, "x", None).unwrap();
    assert_eq!(tree.arena.get(x).name(), "x");
    assert_eq!(tree.arena.get(end).name(), "<def>");
    assert_eq!(tree.get(x, "y", None), Some(end));
}

#[test]
fn set_by_dir_forces_terminal_value() {
    let mut tree = ParadoxModDefinitionTree::new();
    let v = tree.new_node("v.txt".to_string(), rp(&["d", "v.txt"]), None);
    tree.set_by_dir(0, &rp(&["d", "v.txt"]), v);
    let d = tree.get(0, "d", None).unwrap();
    assert_eq!(tree.get(d, "v.txt", None), Some(v));
    // an existing terminal mapping is overwritten: last write wins
    let w = tree.new_node("v.txt".to_string(), rp(&["d", "v.txt"]), None);
    tree.set_by_dir(0, &rp(&["d", "v.txt"]), w);
    assert_eq!(tree.get(d, "v.txt", None), Some(w));
}

#[test]
fn update_last_write_wins() {
    let mut tree = ParadoxModDefinitionTree::new();
    let src = tree.setdefault(0, "src".to_string(), None);
    let dst = tree.setdefault(0, "dst".to_string(), None);
    let c1 = tree.new_node("k".to_string(), rp(&["src", "k"]), Some("one".to_string()));
    tree.set(src, "k".to_string(), c1, true);
    tree.update(dst, src);
    assert_eq!(tree.get(dst, "k", None), Some(c1));
}
