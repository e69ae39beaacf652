use paradox_defs::arena::Arena;
use paradox_defs::node_type::NodeType;
use paradox_defs::path::RelPath;
use paradox_defs::pipeline::{classify_mod_file, get_rel_dir, DefinitionExtractor, FileBucket};
use paradox_defs::tree::ParadoxModDefinitionTree;

fn rp(segs: &[&str]) -> RelPath {
    RelPath::from_segs(segs.iter().map(|s| s.to_string()).collect())
}

/// Two mods defining the same script key at the same relative path: folding
/// the first then the second flags the path, the live value is the second
/// mod's, and both mods are reported as contributors.
#[test]
fn two_mods_conflict_last_wins() {
    let mut tree = ParadoxModDefinitionTree::new();
    let mod_a = tree.arena.new_typed_node("A".to_string(), RelPath::empty(), None, NodeType::Mod);
    let mod_b = tree.arena.new_typed_node("B".to_string(), RelPath::empty(), None, NodeType::Mod);

    // mod A's extracted file: x.txt holding `x = 1`
    let file_a = tree.new_node("x.txt".to_string(), rp(&["common", "x.txt"]), None);
    tree.arena.set_source(file_a, mod_a);
    let xa = tree.new_node("x".to_string(), rp(&["common", "x.txt"]), Some("1".to_string()));
    tree.arena.set_child(file_a, "x".to_string(), xa, true);

    // mod B's extracted file: same key, different body
    let file_b = tree.new_node("x.txt".to_string(), rp(&["common", "x.txt"]), None);
    tree.arena.set_source(file_b, mod_b);
    let xb = tree.new_node("x".to_string(), rp(&["common", "x.txt"]), Some("2".to_string()));
    tree.arena.set_child(file_b, "x".to_string(), xb, true);

    // the aggregate container, then fold A before B
    let def = tree.setdefault(0, "<def>".to_string(), None);
    let c1 = tree.update_with_conflict_check(def, file_a);
    assert!(c1.is_empty());
    let c2 = tree.update_with_conflict_check(def, file_b);
    assert_eq!(c2.len(), 1);
    assert_eq!(c2[0].segments(), &vec!["<def>".to_string(), "x".to_string()]);

    // last merged wins
    let live = tree.get(def, "x", None).unwrap();
    assert_eq!(live, xb);
    assert_eq!(tree.arena.get(live).value().as_deref(), Some("2"));

    // the conflicting node now carries both mods, through its file sources
    assert!(tree.has_conflict(live));
    let mods = tree.get_mod_sources(live);
    assert_eq!(mods, vec![mod_a, mod_b]);

    // re-merging the same already-merged arguments reports nothing new
    let c3 = tree.update_with_conflict_check(def, file_b);
    assert!(c3.is_empty());
    let c4 = tree.update_with_conflict_check(def, file_b);
    assert!(c4.is_empty());
}

#[test]
fn identical_provenance_is_no_conflict() {
    let mut tree = ParadoxModDefinitionTree::new();
    let dst = tree.setdefault(0, "dst".to_string(), None);
    let src = tree.setdefault(0, "src".to_string(), None);
    let c = tree.new_node("k".to_string(), rp(&["src", "k"]), Some("v".to_string()));
    tree.set(src, "k".to_string(), c, true);
    // first merge attaches; a second merge sees the identical node
    let c1 = tree.update_with_conflict_check(dst, src);
    assert!(c1.is_empty());
    let c2 = tree.update_with_conflict_check(dst, src);
    assert!(c2.is_empty());
}

#[test]
fn allowlisted_key_never_conflicts() {
    let mut tree = ParadoxModDefinitionTree::new();
    let mod_a = tree.arena.new_typed_node("A".to_string(), RelPath::empty(), None, NodeType::Mod);
    let mod_b = tree.arena.new_typed_node("B".to_string(), RelPath::empty(), None, NodeType::Mod);
    let fa = tree.new_node("a.txt".to_string(), rp(&["e", "a.txt"]), None);
    tree.arena.set_source(fa, mod_a);
    let na = tree.new_node("namespace".to_string(), rp(&["e", "a.txt"]), Some("n1".to_string()));
    tree.arena.set_child(fa, "namespace".to_string(), na, true);
    let fb = tree.new_node("a.txt".to_string(), rp(&["e", "a.txt"]), None);
    tree.arena.set_source(fb, mod_b);
    let nb = tree.new_node("namespace".to_string(), rp(&["e", "a.txt"]), Some("n2".to_string()));
    tree.arena.set_child(fb, "namespace".to_string(), nb, true);
    let def = tree.setdefault(0, "<def>".to_string(), None);
    let c1 = tree.update_with_conflict_check(def, fa);
    let c2 = tree.update_with_conflict_check(def, fb);
    assert!(c1.is_empty());
    assert!(c2.is_empty());
    // still last write wins
    assert_eq!(tree.get(def, "namespace", None), Some(nb));
}

#[test]
fn extend_of_empty_arena_is_noop() {
    let mut tree = ParadoxModDefinitionTree::new();
    tree.setdefault(0, "a".to_string(), None);
    let before = tree.get_node_num();
    let empty = Arena::new();
    tree.arena.extend(&empty);
    assert_eq!(tree.get_node_num(), before);
    assert_eq!(tree.get(0, "a", None).is_some(), true);
}

#[test]
fn extend_remaps_all_references() {
    // build a small arena: a file with one child and a provenance edge
    let mut other = ParadoxModDefinitionTree::new();
    let f = other.new_node("f.txt".to_string(), rp(&["d", "f.txt"]), None);
    let v = other.new_node("k".to_string(), rp(&["d", "f.txt"]), Some("val".to_string()));
    other.arena.set_child(f, "k".to_string(), v, true);

    let mut main = ParadoxModDefinitionTree::new();
    main.setdefault(0, "pad".to_string(), None);
    let base = main.get_node_num() as u32;
    main.arena.extend(&other.arena);

    // the remapped file node keeps its name and children, offset by the base
    let rf = main.arena.get(base + f);
    assert_eq!(rf.name(), "f.txt");
    let kids = rf.children_entries();
    assert_eq!(kids.len(), 1);
    assert_eq!(kids[0].0, "k");
    assert_eq!(kids[0].1, base + v);
    let rv = main.arena.get(base + v);
    assert_eq!(rv.value().as_deref(), Some("val"));
    assert_eq!(rv.parent(), Some(base + f));
    // provenance offsets too: v's source was f
    assert_eq!(main.arena.get_sources(base + v), vec![base + f]);
    // and the name index covers the appended nodes
    let found = main.arena.get_by_name("k").unwrap();
    assert!(found.contains(&(base + v)));
}

#[test]
fn localization_extracts_matching_lines_only() {
    let text = " KEY:0 \"Hello\"\nnot a match\nOTHER.key-2: \"World\"  # trailing\n";
    let tree = ParadoxModDefinitionTree::extract_localization(text);
    let root = tree.arena.get(0);
    let kids = root.children_entries();
    assert_eq!(kids.len(), 2);
    assert_eq!(kids[0].0, "KEY");
    let k = tree.arena.get(kids[0].1);
    assert_eq!(k.value().as_deref(), Some("Hello"));
    assert_eq!(k.start_point(), Some((0, 0)));
    assert_eq!(k.node_type(), NodeType::Value);
    assert_eq!(kids[1].0, "OTHER.key-2");
    let w = tree.arena.get(kids[1].1);
    assert_eq!(w.value().as_deref(), Some("World"));
    assert_eq!(w.start_point(), Some((2, 0)));
}

#[test]
fn localization_nonmatching_text_yields_nothing() {
    let tree = ParadoxModDefinitionTree::extract_localization("just some words\nno: colon quote\n");
    assert_eq!(tree.arena.get(0).children_len(), 0);
}

#[test]
fn localization_value_takes_longest_quote() {
    let tree = ParadoxModDefinitionTree::extract_localization("K:1 \"a \"quoted\" part\"\n");
    let kids = tree.arena.get(0).children_entries();
    assert_eq!(kids.len(), 1);
    let k = tree.arena.get(kids[0].1);
    assert_eq!(k.value().as_deref(), Some("a \"quoted\" part"));
}

#[test]
fn classify_buckets() {
    let lang = Some("english".to_string());
    assert_eq!(classify_mod_file(&rp(&["common", "traits", "a.txt"]), &lang), FileBucket::Script);
    assert_eq!(classify_mod_file(&rp(&["gfx", "icon.dds"]), &lang), FileBucket::Other);
    assert_eq!(classify_mod_file(&rp(&["descriptor.mod"]), &lang), FileBucket::Skip);
    assert_eq!(classify_mod_file(&rp(&[".git", "config"]), &lang), FileBucket::Skip);
    assert_eq!(
        classify_mod_file(&rp(&["localization", "english", "a_l_english.yml"]), &lang),
        FileBucket::Localization
    );
    assert_eq!(
        classify_mod_file(&rp(&["localization", "french", "a_l_french.yml"]), &lang),
        FileBucket::Other
    );
    assert_eq!(
        classify_mod_file(&rp(&["localization", "english", "readme.txt"]), &lang),
        FileBucket::Skip
    );
    assert_eq!(
        classify_mod_file(&rp(&["localization", "ENGLISH", "b.yml"]), &lang),
        FileBucket::Localization
    );
}

#[test]
fn rel_dir_strips_root_and_identifier() {
    let workshop = rp(&["steam", "workshop"]);
    let mods = rp(&["docs", "mod"]);
    let under_workshop = rp(&["steam", "workshop", "12345", "common", "a.txt"]);
    assert_eq!(
        get_rel_dir(&under_workshop, &workshop, &mods).segments(),
        &vec!["common".to_string(), "a.txt".to_string()]
    );
    let under_mods = rp(&["docs", "mod", "my_mod", "events", "b.txt"]);
    assert_eq!(
        get_rel_dir(&under_mods, &workshop, &mods).segments(),
        &vec!["events".to_string(), "b.txt".to_string()]
    );
    let elsewhere = rp(&["tmp", "c.txt"]);
    assert_eq!(get_rel_dir(&elsewhere, &workshop, &mods).segments(), &vec!["c.txt".to_string()]);
}

#[test]
fn extractor_registry_and_conflict_accumulation() {
    let mut ex = DefinitionExtractor::new(rp(&["w"]), rp(&["m"]), None);
    ex.enroll_mod("Alpha".to_string(), true, 0, rp(&["w", "1"]));
    ex.enroll_mod("Beta".to_string(), false, 1, rp(&["m", "2"]));
    let alpha = ex.get_mod_node_by_name("Alpha").unwrap();
    let beta = ex.get_mod_node_by_name("Beta").unwrap();
    assert_ne!(alpha, beta);
    assert_eq!(ex.get_mod_node_by_name("Gamma"), None);
    assert_eq!(ex.tree.arena.get(alpha).node_type(), NodeType::Mod);
    ex.add_conflicts(vec![rp(&["<def>", "x"])]);
    ex.add_conflicts(vec![rp(&["<def>", "y"])]);
    assert_eq!(ex.conflicts.len(), 2);
    // names are indexed globally, ambiguity intended
    let mut t2 = ParadoxModDefinitionTree::new();
    let n1 = t2.new_node("dup".to_string(), rp(&["a"]), None);
    let n2 = t2.new_node("dup".to_string(), rp(&["b"]), None);
    assert_eq!(t2.arena.get_by_name("dup"), Some(vec![n1, n2]));
}

/// Drive the verified fold steps directly: two mods, one script file each at
/// the same relative path, folded in ascending load order.
#[test]
fn fold_two_mods_reports_conflict() {
    let mut ex = DefinitionExtractor::new(rp(&["w"]), rp(&["m"]), None);
    ex.enroll_mod("Alpha".to_string(), true, 0, rp(&["w", "1"]));
    ex.enroll_mod("Beta".to_string(), true, 1, rp(&["w", "2"]));
    let alpha = ex.get_mod_node_by_name("Alpha").unwrap();
    let beta = ex.get_mod_node_by_name("Beta").unwrap();

    // each mod's extracted per-file arena: x.txt holding `x = <body>`
    let build = |body: &str| {
        let mut a = Arena::new();
        let root = a.new_node("x.txt".to_string(), rp(&["common", "x.txt"]), None);
        let leaf = a.new_node(
            "x".to_string(),
            rp(&["common", "x.txt"]),
            Some(body.to_string()),
        );
        a.set_child(root, "x".to_string(), leaf, true);
        a
    };
    ex.fold_file(alpha, true, &build("1"), FileBucket::Script);
    assert!(ex.conflicts.is_empty());
    ex.fold_file(beta, true, &build("2"), FileBucket::Script);

    // the conflict set holds the aggregate path of the overridden key
    assert_eq!(ex.conflicts.len(), 1);
    // the path carries the extractor root's "current directory" prefix
    assert_eq!(
        ex.conflicts[0].segments(),
        &vec![".".to_string(), "common".to_string(), "<def>".to_string(), "x".to_string()]
    );

    // the live value under the aggregate is the later mod's
    let def = ex.tree.get_by_dir(0, &rp(&["common", "<def>"]), None).unwrap();
    let live = ex.tree.get(def, "x", None).unwrap();
    assert_eq!(ex.tree.arena.get(live).value().as_deref(), Some("2"));
    assert_eq!(ex.tree.get_mod_sources(live), vec![alpha, beta]);

    // both file roots stay linked at the literal path, merged not replaced
    let file_node = ex.tree.get_by_dir(0, &rp(&["common", "x.txt"]), None).unwrap();
    assert!(ex.tree.get(file_node, "x", None).is_some());

    // the conflict paths resolve to the live nodes
    let ids = ex.get_conflict_identifiers();
    assert_eq!(ids, vec![live]);

    // and the grouped report files the node under both contributing mods
    let by_mod = ex.get_conflicts_by_mod();
    assert_eq!(by_mod.len(), 2);
    assert_eq!(by_mod[0].0, "Alpha");
    assert_eq!(by_mod[0].1, vec![live]);
    assert_eq!(by_mod[1].0, "Beta");
    assert_eq!(by_mod[1].1, vec![live]);
}

#[test]
fn fold_preflight_rejects_bad_inputs() {
    let mut ex = DefinitionExtractor::new(rp(&["w"]), rp(&["m"]), None);
    ex.enroll_mod("Alpha".to_string(), true, 0, rp(&["w", "1"]));
    let alpha = ex.get_mod_node_by_name("Alpha").unwrap();
    let mut fa = Arena::new();
    fa.new_node("a.txt".to_string(), rp(&["common", "a.txt"]), None);
    assert!(ex.fold_preflight(alpha, &fa));
    // an empty per-file arena is refused
    assert!(!ex.fold_preflight(alpha, &Arena::new()));
    // the tree root is no registered mod
    assert!(!ex.fold_preflight(0, &fa));
}

#[test]
fn fold_other_links_and_sources() {
    let mut ex = DefinitionExtractor::new(rp(&["w"]), rp(&["m"]), None);
    ex.enroll_mod("Alpha".to_string(), true, 0, rp(&["w", "1"]));
    ex.enroll_mod("Beta".to_string(), true, 1, rp(&["w", "2"]));
    let alpha = ex.get_mod_node_by_name("Alpha").unwrap();
    let beta = ex.get_mod_node_by_name("Beta").unwrap();
    ex.fold_other(alpha, "icon.dds".to_string(), &rp(&["gfx", "icon.dds"]));
    let node = ex.tree.get_by_dir(0, &rp(&["gfx", "icon.dds"]), None).unwrap();
    assert_eq!(ex.tree.get_sources(node), vec![alpha]);
    // a second mod touching the same path only gains provenance
    let before = ex.tree.get_node_num();
    ex.fold_other(beta, "icon.dds".to_string(), &rp(&["gfx", "icon.dds"]));
    assert_eq!(ex.tree.get_node_num(), before);
    assert_eq!(ex.tree.get_sources(node), vec![alpha, beta]);
    assert!(ex.tree.has_conflict(node));
}
