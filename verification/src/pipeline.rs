//! The multi-mod pipeline's decisions: file discovery classification, the
//! mod-relative display path, and the extractor state that accumulates the
//! run-wide conflict set.
//!
//! The adapter layer walks directories, reads files and runs the per-file
//! extraction in parallel; every decision it acts on is computed here, and
//! the fold into the shared tree is the sequence of verified tree
//! operations, performed mod by mod in ascending load order.

use crate::arena::{
    lib_extend, prov_rank, remap_ids, remap_node, set_source_model, Arena, ArenaModel, NodeId,
};
use crate::node_type::{ext_of, fold_u32, NodeType};
use crate::path::RelPath;
use crate::tree::{
    attach_all, can_attach_entries, can_merge_entries, can_set_by_dir, can_setdefault_by_dir,
    get_by_dir_spec, merge_all, set_by_dir_model, setdefault_by_dir_model,
    ParadoxModDefinitionTree,
};
use vstd::prelude::*;

verus! {

/// Where a discovered file goes.
#[derive(Clone, Copy, PartialEq, Eq, Structural, Debug)]
pub enum FileBucket {
    /// A script file, grammar-extracted.
    Script,
    /// A localization file in the target language, line-extracted.
    Localization,
    /// Anything else: linked as a bare file node.
    Other,
    /// Not considered at all (too shallow, or an ignored top directory).
    Skip,
}

/// The path segments joined with `/`, as one text.
pub open spec fn joined(p: Seq<Seq<char>>) -> Seq<char>
    decreases p.len(),
{
    if p.len() == 0 {
        Seq::empty()
    } else if p.len() == 1 {
        p[0]
    } else {
        joined(p.drop_last()) + seq!['/'] + p.last()
    }
}

/// Whether `needle` matches in `hay` at offset `o`, after ASCII case folding.
pub open spec fn matches_at(hay: Seq<char>, needle: Seq<char>, o: int) -> bool {
    forall|k: int|
        0 <= k < needle.len() ==> fold_u32(#[trigger] hay[o + k]) == fold_u32(needle[k])
}

/// Whether `needle` occurs in `hay`, compared with ASCII case folding.
pub open spec fn contains_ci(hay: Seq<char>, needle: Seq<char>) -> bool {
    exists|o: int|
        0 <= o && o + needle.len() <= hay.len() && #[trigger] matches_at(hay, needle, o)
}

/// Executable [`contains_ci`].
pub fn contains_ci_exec(hay: &str, needle: &str) -> (r: bool)
    ensures
        r == contains_ci(hay@, needle@),
{
    let hn = hay.unicode_len();
    let nn = needle.unicode_len();
    if nn > hn {
        return false;
    }
    let mut o: usize = 0;
    while o <= hn - nn
        invariant
            hn == hay@.len(),
            nn == needle@.len(),
            nn <= hn,
            o <= hn,
            forall|x: int| 0 <= x < o ==> !matches_at(hay@, needle@, x),
        decreases hn - o,
    {
        let mut k: usize = 0;
        let mut all = true;
        while k < nn
            invariant
                k <= nn,
                o + nn <= hn,
                hn == hay@.len(),
                nn == needle@.len(),
                all == (forall|x: int|
                    0 <= x < k ==> fold_u32(#[trigger] hay@[o + x]) == fold_u32(needle@[x])),
            decreases nn - k,
        {
            let ghost prev = all;
            if crate::node_type::fold_u32_exec(hay.get_char(o + k)) != crate::node_type::fold_u32_exec(
                needle.get_char(k),
            ) {
                all = false;
            }
            proof {
                if all {
                    assert(forall|x: int|
                        0 <= x < k + 1 ==> fold_u32(#[trigger] hay@[o + x]) == fold_u32(
                            needle@[x],
                        ));
                }
            }
            k = k + 1;
        }
        if all {
            proof {
                assert(matches_at(hay@, needle@, o as int));
            }
            return true;
        }
        proof {
            assert(!matches_at(hay@, needle@, o as int));
        }
        o = o + 1;
    }
    proof {
        assert forall|x: int|
            0 <= x && x + needle@.len() <= hay@.len() implies !matches_at(hay@, needle@, x) by {
            assert(x < o);
        }
    }
    false
}

/// The exact extension test the discovery uses: lower-case letters, matched
/// exactly.
pub open spec fn has_ext(p: Seq<Seq<char>>, e: Seq<char>) -> bool {
    p.len() > 0 && ext_of(p[p.len() - 1]) == Some(e)
}

/// The bucket of one discovered file, by its mod-relative path.  Everything
/// at depth one or under an ignored top directory is skipped; under the
/// `localization` top directory only `yml` files count, and only when the
/// path text contains the target language name (case-insensitively);
/// elsewhere `txt` files are scripts and the rest is other content.
pub open spec fn classify_file(p: Seq<Seq<char>>, lang: Option<Seq<char>>) -> FileBucket {
    if p.len() <= 1 {
        FileBucket::Skip
    } else if p[0] == ".git"@ || p[0] == "src"@ || p[0] == ".vscode"@ {
        FileBucket::Skip
    } else if p[0] == "localization"@ {
        if has_ext(p, seq!['y', 'm', 'l']) {
            match lang {
                Some(l) => if contains_ci(joined(p), l) {
                    FileBucket::Localization
                } else {
                    FileBucket::Other
                },
                None => FileBucket::Localization,
            }
        } else {
            FileBucket::Skip
        }
    } else {
        if has_ext(p, seq!['t', 'x', 't']) {
            FileBucket::Script
        } else {
            FileBucket::Other
        }
    }
}

/// Compare two texts, character by character.
fn seg_is(s: &str, lit: &str) -> (r: bool)
    ensures
        r == (s@ == lit@),
{
    let n = s.unicode_len();
    if n != lit.unicode_len() {
        return false;
    }
    let mut i: usize = 0;
    while i < n
        invariant
            i <= n,
            n == s@.len(),
            n == lit@.len(),
            forall|j: int| 0 <= j < i ==> s@[j] == lit@[j],
        decreases n - i,
    {
        if s.get_char(i) != lit.get_char(i) {
            return false;
        }
        i = i + 1;
    }
    proof {
        assert(s@ =~= lit@);
    }
    true
}

/// Join the segments with `/` into one text.
pub fn joined_exec(p: &RelPath) -> (r: String)
    ensures
        r@ == joined(p@),
{
    let mut out = String::new();
    let mut i: usize = 0;
    let n = p.len();
    proof {
        assert(p@.take(0) =~= Seq::<Seq<char>>::empty());
        assert(out@ =~= joined(p@.take(0)));
    }
    while i < n
        invariant
            i <= n,
            n == p@.len(),
            out@ == joined(p@.take(i as int)),
        decreases n - i,
    {
        proof {
            assert(p@.take(i + 1).drop_last() =~= p@.take(i as int));
            assert(p@.take(i + 1).last() == p@[i as int]);
        }
        if i > 0 {
            out.push('/');
        }
        let seg = p.seg(i);
        let ghost mid = out@;
        let m = seg.as_str().unicode_len();
        let mut j: usize = 0;
        proof {
            assert(mid + seg@.take(0) =~= mid);
        }
        while j < m
            invariant
                j <= m,
                m == seg@.len(),
                out@ == mid + seg@.take(j as int),
            decreases m - j,
        {
            out.push(seg.as_str().get_char(j));
            proof {
                assert(seg@.take(j + 1) =~= seg@.take(j as int).push(seg@[j as int]));
                assert(out@ =~= mid + seg@.take(j + 1));
            }
            j = j + 1;
        }
        proof {
            assert(seg@.take(m as int) =~= seg@);
            if i == 0 {
                assert(joined(p@.take(1)) == p@[0]);
                assert(out@ =~= joined(p@.take(i + 1)));
            } else {
                assert(joined(p@.take(i + 1)) == joined(p@.take(i as int)) + seq!['/'] + p@[
                    i as int
                ]);
                assert(out@ =~= joined(p@.take(i + 1)));
            }
        }
        i = i + 1;
    }
    proof {
        assert(p@.take(n as int) =~= p@);
    }
    out
}

/// Classify one discovered file by its mod-relative path.
pub fn classify_mod_file(rel_path: &RelPath, language: &Option<String>) -> (r: FileBucket)
    ensures
        r == classify_file(rel_path@, language.deep_view()),
{
    if rel_path.len() <= 1 {
        return FileBucket::Skip;
    }
    let first = rel_path.seg(0);
    if seg_is(first.as_str(), ".git") || seg_is(first.as_str(), "src") || seg_is(
        first.as_str(),
        ".vscode",
    ) {
        return FileBucket::Skip;
    }
    let last = rel_path.seg(rel_path.len() - 1);
    if seg_is(first.as_str(), "localization") {
        if ext_is(last.as_str(), &['y', 'm', 'l']) {
            match language {
                Some(l) => {
                    let text = joined_exec(rel_path);
                    if contains_ci_exec(text.as_str(), l.as_str()) {
                        FileBucket::Localization
                    } else {
                        FileBucket::Other
                    }
                },
                None => FileBucket::Localization,
            }
        } else {
            FileBucket::Skip
        }
    } else {
        if ext_is(last.as_str(), &['t', 'x', 't']) {
            FileBucket::Script
        } else {
            FileBucket::Other
        }
    }
}

/// Whether the file name's extension is exactly `e`.
fn ext_is(s: &str, e: &[char]) -> (r: bool)
    ensures
        r == (ext_of(s@) == Some(e@)),
{
    match crate::node_type::ext_range(s) {
        None => false,
        Some((lo, hi)) => {
            if hi - lo != e.len() {
                proof {
                    assert(ext_of(s@).unwrap().len() == hi - lo);
                }
                return false;
            }
            let mut i: usize = 0;
            while i < e.len()
                invariant
                    i <= e@.len(),
                    lo + e@.len() == hi <= s@.len(),
                    ext_of(s@) matches Some(x) && x == s@.subrange(lo as int, hi as int),
                    forall|j: int| 0 <= j < i ==> s@[lo + j] == e@[j],
                decreases e@.len() - i,
            {
                if s.get_char(lo + i) != e[i] {
                    proof {
                        assert(ext_of(s@).unwrap()[i as int] == s@[lo + i]);
                    }
                    return false;
                }
                i = i + 1;
            }
            proof {
                assert(ext_of(s@).unwrap() =~= e@);
            }
            true
        },
    }
}

/// The mod-relative display path of a file: the remainder behind whichever
/// of the two roots contains it, with one further leading component (the
/// distribution identifier) stripped; a file under neither root keeps only
/// its file name.
pub open spec fn rel_dir_of(file: Seq<Seq<char>>, workshop: Seq<Seq<char>>, mods: Seq<Seq<char>>) -> Seq<Seq<char>> {
    if is_seg_prefix(workshop, file) {
        if file.len() > workshop.len() {
            file.skip(workshop.len() + 1 as int)
        } else {
            Seq::empty()
        }
    } else if is_seg_prefix(mods, file) {
        if file.len() > mods.len() {
            file.skip(mods.len() + 1 as int)
        } else {
            Seq::empty()
        }
    } else {
        if file.len() == 0 {
            seq!["unknown"@]
        } else {
            seq![file[file.len() - 1]]
        }
    }
}

/// Whether `p` starts with every segment of `pre`.
pub open spec fn is_seg_prefix(pre: Seq<Seq<char>>, p: Seq<Seq<char>>) -> bool {
    pre.len() <= p.len() && forall|i: int| 0 <= i < pre.len() ==> p[i] == pre[i]
}

/// Whether `p` starts with the segments of `pre`, executably.
fn is_seg_prefix_exec(pre: &RelPath, p: &RelPath) -> (r: bool)
    ensures
        r == is_seg_prefix(pre@, p@),
{
    if pre.len() > p.len() {
        return false;
    }
    let mut i: usize = 0;
    while i < pre.len()
        invariant
            i <= pre@.len() <= p@.len(),
            forall|j: int| 0 <= j < i ==> p@[j] == pre@[j],
        decreases pre@.len() - i,
    {
        if !p.seg(i).eq(pre.seg(i)) {
            return false;
        }
        i = i + 1;
    }
    true
}

/// Compute the mod-relative display path of one file.
pub fn get_rel_dir(file: &RelPath, workshop_dir: &RelPath, mods_dir: &RelPath) -> (r: RelPath)
    ensures
        r@ == rel_dir_of(file@, workshop_dir@, mods_dir@),
{
    if is_seg_prefix_exec(workshop_dir, file) {
        strip_one_more(file, workshop_dir.len())
    } else if is_seg_prefix_exec(mods_dir, file) {
        strip_one_more(file, mods_dir.len())
    } else {
        let mut out = RelPath::empty();
        match file.last_seg() {
            Some(s) => {
                let r = out.join(s.as_str());
                proof {
                    assert(r@ =~= seq![file@[file@.len() - 1]]);
                }
                r
            },
            None => {
                let r = out.join("unknown");
                proof {
                    assert(r@ =~= seq!["unknown"@]);
                }
                r
            },
        }
    }
}

/// The path without its first `base` segments and one more.
fn strip_one_more(file: &RelPath, base: usize) -> (r: RelPath)
    requires
        base <= file@.len(),
    ensures
        file@.len() > base ==> r@ == file@.skip(base + 1),
        file@.len() == base ==> r@ == Seq::<Seq<char>>::empty(),
{
    let mut out = RelPath::empty();
    if file.len() == base {
        return out;
    }
    let mut i: usize = base + 1;
    proof {
        assert(out@ =~= file@.subrange(base + 1, base + 1));
    }
    while i < file.len()
        invariant
            base + 1 <= i <= file@.len(),
            out@ == file@.subrange(base + 1, i as int),
        decreases file@.len() - i,
    {
        let r2 = out.join(file.seg(i).as_str());
        proof {
            assert(r2@ =~= file@.subrange(base + 1, i + 1));
        }
        out = r2;
        i = i + 1;
    }
    proof {
        assert(file@.subrange(base + 1, file@.len() as int) =~= file@.skip(base + 1));
    }
    out
}

/// The extractor: configuration, the shared tree, and the run-wide conflict
/// accumulation.  Script conflicts are checked by default; localization
/// conflicts are not.
pub struct DefinitionExtractor {
    /// Root of remotely distributed mods.
    pub workshop_dir: RelPath,
    /// Root of locally installed mods.
    pub mods_dir: RelPath,
    /// Target language for localization discovery.
    pub language: Option<String>,
    /// Conflict paths accumulated across the whole run.
    pub conflicts: Vec<RelPath>,
    /// The shared definition tree.
    pub tree: ParadoxModDefinitionTree,
    /// Whether localization folds check conflicts.
    pub check_loc_conflicts: bool,
    /// Whether script folds check conflicts.
    pub check_script_conflicts: bool,
}

impl DefinitionExtractor {
    /// The extractor's tree is well formed and rooted at node zero.
    pub open spec fn wf(&self) -> bool {
        &&& self.tree.wf()
        &&& self.tree.root == 0
        &&& self.tree.arena@.n() >= 1
    }

    /// A fresh extractor with an empty tree; the language defaults to
    /// `english`, script conflict checking is on, localization checking off.
    pub fn new(workshop_dir: RelPath, mods_dir: RelPath, language: Option<String>) -> (r:
        DefinitionExtractor)
        ensures
            r.wf(),
            r.check_script_conflicts,
            !r.check_loc_conflicts,
            r.conflicts@.len() == 0,
            (language matches Some(l) ==> (r.language matches Some(l2) && l2@ == l@)),
            (language is None ==> (r.language matches Some(l2) && l2@ == "english"@)),
            r.tree.root == 0,
            r.tree.arena@.n() == 1,
            r.tree.arena@.nodes[0] == crate::arena::fresh_node(
                "<root>"@,
                seq![seq!['.']],
                None,
                NodeType::Virtual,
                0,
            ),
            r.tree.arena@.srcs(0).len() == 0,
            r.tree.arena@.mods.len() == 0,
            r.workshop_dir@ == workshop_dir@,
            r.mods_dir@ == mods_dir@,
    {
        let language = match language {
            Some(l) => Some(l),
            None => Some(String::from_str("english")),
        };
        let mut arena = Arena::new();
        let rel_dir = RelPath::empty().join(".");
        proof {
            reveal_strlit("<root>");
            reveal_strlit(".");
            assert(rel_dir@ =~~= seq![seq!['.']]);
        }
        let root = arena.new_node(extractor_root_name(), rel_dir, None);
        proof {
            assert(arena@.nodes[0] =~~= crate::arena::fresh_node(
                "<root>"@,
                seq![seq!['.']],
                None,
                NodeType::Virtual,
                0,
            ));
            assert(arena@.srcs(0) =~= Seq::<NodeId>::empty());
        }
        DefinitionExtractor {
            workshop_dir,
            mods_dir,
            language,
            conflicts: Vec::new(),
            tree: ParadoxModDefinitionTree { arena, root: 0 },
            check_loc_conflicts: false,
            check_script_conflicts: true,
        }
    }

    /// Register one mod in the arena's registry.
    pub fn enroll_mod(&mut self, name: String, enabled: bool, load_order: u32, path: RelPath)
        requires
            old(self).wf(),
            old(self).tree.arena@.n() < u32::MAX,
        ensures
            final(self).wf(),
            final(self).tree.arena@.mods == old(self).tree.arena@.mods.push(
                (
                    old(self).tree.arena@.n() as NodeId,
                    (crate::arena::ModDataModel {
                        load_order,
                        enabled,
                        name: name@,
                        node_id: old(self).tree.arena@.n() as NodeId,
                        path: path@,
                    }),
                ),
            ),
            final(self).conflicts == old(self).conflicts,
    {
        self.tree.arena.new_mod(name, enabled, load_order, path);
    }

    /// All nodes recorded in the name index under `name` (ambiguous on
    /// purpose: every node sharing that literal name, for diagnostics).
    pub fn get_node_by_name(&self, name: &str) -> (r: Option<Vec<NodeId>>)
        ensures
            r matches Some(v) ==> self.tree.arena@.library.contains_key(name@) && v@
                == self.tree.arena@.library[name@],
            r is None ==> !self.tree.arena@.library.contains_key(name@),
    {
        self.tree.arena.get_by_name(name)
    }

    /// The Mod node registered under `name`, if any (first match in
    /// registration order).
    pub fn get_mod_node_by_name(&self, name: &str) -> (r: Option<NodeId>)
        ensures
            r == mod_by_name(self.tree.arena@.mods, name@, 0),
    {
        let entries = self.tree.arena.mod_entries();
        let ghost gm = self.tree.arena@.mods;
        let mut i: usize = 0;
        proof {
            assert(gm.len() == entries@.len());
        }
        while i < entries.len()
            invariant
                i <= entries@.len(),
                gm == self.tree.arena@.mods,
                gm.len() == entries@.len(),
                forall|j: int|
                    0 <= j < gm.len() ==> gm[j].0 == (#[trigger] entries@[j]).0 && gm[j].1.name
                        == entries@[j].1.name@,
                mod_by_name(gm, name@, 0) == mod_by_name(gm, name@, i as int),
            decreases entries@.len() - i,
        {
            if seg_is(entries[i].1.name.as_str(), name) {
                return Some(entries[i].0);
            }
            i = i + 1;
        }
        None
    }

    /// Record newly found conflict paths into the run-wide set.
    pub fn add_conflicts(&mut self, found: Vec<RelPath>)
        ensures
            final(self).conflicts.deep_view() == old(self).conflicts.deep_view()
                + found.deep_view(),
            final(self).tree == old(self).tree,
            final(self).wf() == old(self).wf(),
            final(self).check_script_conflicts == old(self).check_script_conflicts,
            final(self).check_loc_conflicts == old(self).check_loc_conflicts,
    {
        let ghost pre = self.conflicts.deep_view();
        let ghost gf = found.deep_view();
        let ghost flen = found@.len();
        let mut i: usize = 0;
        while i < found.len()
            invariant
                i <= found@.len(),
                found@.len() == flen,
                gf == found.deep_view(),
                gf.len() == flen,
                self.conflicts.deep_view() == pre + gf.take(i as int),
                self.tree == old(self).tree,
                self.check_script_conflicts == old(self).check_script_conflicts,
                self.check_loc_conflicts == old(self).check_loc_conflicts,
            decreases found@.len() - i,
        {
            let p = found[i].clone();
            let ghost before = self.conflicts.deep_view();
            self.conflicts.push(p);
            proof {
                assert(self.conflicts.deep_view() =~= before.push(gf[i as int]));
                assert(self.conflicts.deep_view() =~= pre + gf.take(i + 1));
            }
            i = i + 1;
        }
        proof {
            assert(gf.take(flen as int) =~= gf);
        }
    }
}

/// First registered mod with the given name, from entry `i` on.
pub open spec fn mod_by_name(mods: Seq<(NodeId, crate::arena::ModDataModel)>, name: Seq<char>, i: int) -> Option<NodeId>
    decreases mods.len() - i,
{
    if i < 0 || i >= mods.len() {
        None
    } else if mods[i].1.name == name {
        Some(mods[i].0)
    } else {
        mod_by_name(mods, name, i + 1)
    }
}

/// The marker name of the extractor's root.
fn extractor_root_name() -> (r: String)
    ensures
        r@ == "<root>"@,
{
    String::from_str("<root>")
}


/// The model after bulk-appending `mo` (what `extend` ensures, as one value).
pub open spec fn extend_model(m: ArenaModel, mo: ArenaModel) -> ArenaModel {
    let nodes2 = m.nodes + Seq::new(
        mo.n() as nat,
        |i: int| remap_node(mo.nodes[i], m.n(), m.sets.len() as int),
    );
    ArenaModel {
        nodes: nodes2,
        sets: m.sets + Seq::new(mo.sets.len(), |s: int| remap_ids(mo.sets[s], m.n())),
        library: lib_extend(m.library, nodes2, m.n(), mo.n()),
        mods: m.mods,
    }
}

/// The synthetic aggregate container's name for a bucket.
pub open spec fn marker_of(bucket: FileBucket) -> Seq<char> {
    if bucket == FileBucket::Script {
        "<def>"@
    } else {
        "<loc>"@
    }
}

/// The middle of a fold step: linking the appended file root under the
/// synthetic aggregate container of its parent directory.  Skipped content
/// (a disabled mod's scripts) stays out of the aggregate; otherwise the
/// children are merged in, with conflict bookkeeping when checking is on.
pub open spec fn fold_step2(m1: ArenaModel, base: NodeId, skip: bool, check: bool, marker: Seq<char>) -> (ArenaModel, Seq<Seq<Seq<char>>>) {
    let rd = m1.nodes[base as int].rel_dir;
    if rd.len() > 0 {
        let agg_path = rd.take(rd.len() - 1).push(marker);
        let m2a = setdefault_by_dir_model(m1, 0, agg_path, marker).0;
        match get_by_dir_spec(m2a, 0, agg_path) {
            Some(agg) => if skip {
                (m2a, Seq::<Seq<Seq<char>>>::empty())
            } else if !check {
                (
                    attach_all(m2a, agg as int, m2a.kids(base as int), m2a.kids(base as int).len() as int),
                    Seq::<Seq<Seq<char>>>::empty(),
                )
            } else {
                merge_all(m2a, agg as int, m2a.kids(base as int), m2a.kids(base as int).len() as int)
            },
            None => (m2a, Seq::<Seq<Seq<char>>>::empty()),
        }
    } else {
        (m1, Seq::<Seq<Seq<char>>>::empty())
    }
}

/// One fold step: append the per-file arena, record the owning mod on its
/// root, link that root under the synthetic aggregate of its parent
/// directory (skipped for a disabled mod's script content; merged with
/// conflict bookkeeping when checking is on), and link it at its literal
/// file path, merging into an existing node there rather than replacing it.
/// Returns the folded model and the conflict paths found.
pub open spec fn fold_model(m: ArenaModel, fa: ArenaModel, mod_id: NodeId, skip: bool, check: bool, marker: Seq<char>) -> (ArenaModel, Seq<Seq<Seq<char>>>) {
    let base = m.n() as NodeId;
    let m1 = set_source_model(extend_model(m, fa), base as int, mod_id);
    let rd = m1.nodes[base as int].rel_dir;
    let step2 = fold_step2(m1, base, skip, check, marker);
    let m2 = step2.0;
    let m3 = match get_by_dir_spec(m2, 0, rd) {
        Some(existing) => {
            let ms = set_source_model(m2, existing as int, mod_id);
            attach_all(ms, existing as int, ms.kids(base as int), ms.kids(base as int).len() as int)
        },
        None => set_by_dir_model(m2, 0, rd, base),
    };
    (m3, step2.1)
}

/// What one fold step asks of its inputs, stage by stage over the very
/// models the step passes through.
pub open spec fn can_fold_file(m: ArenaModel, fa: ArenaModel, mod_id: NodeId, skip: bool, check: bool, marker: Seq<char>) -> bool {
    let base = m.n() as NodeId;
    let m1 = set_source_model(extend_model(m, fa), base as int, mod_id);
    let rd = m1.nodes[base as int].rel_dir;
    let m2 = fold_step2(m1, base, skip, check, marker).0;
    &&& m.n() >= 1
    &&& m.n() + fa.n() <= u32::MAX
    &&& fa.n() >= 1
    &&& mod_id < m.n()
    &&& m.ty(mod_id as int) == NodeType::Mod
    &&& fa.ty(0) != NodeType::Mod
    &&& (rd.len() > 0 ==> {
        let agg_path = rd.take(rd.len() - 1).push(marker);
        let m2a = setdefault_by_dir_model(m1, 0, agg_path, marker).0;
        &&& can_setdefault_by_dir(m1, 0, agg_path, marker)
        &&& match get_by_dir_spec(m2a, 0, agg_path) {
            Some(agg) => skip || {
                &&& agg != base
                &&& can_attach_entries(m2a, agg as int, m2a.kids(base as int))
                &&& (check ==> can_merge_entries(m2a, agg as int, m2a.kids(base as int)))
            },
            None => true,
        }
    })
    &&& match get_by_dir_spec(m2, 0, rd) {
        Some(existing) => {
            &&& existing != base
            &&& prov_rank(m2.ty(mod_id as int)) < prov_rank(m2.ty(existing as int))
            &&& can_attach_entries(
                set_source_model(m2, existing as int, mod_id),
                existing as int,
                set_source_model(m2, existing as int, mod_id).kids(base as int),
            )
        },
        None => can_set_by_dir(m2, 0, rd, base),
    }
}

impl DefinitionExtractor {
    /// Whether a fold keeps this content out of the aggregate view: a
    /// disabled mod's script content stays linked at its path only.
    pub open spec fn fold_skip(bucket: FileBucket, enabled: bool) -> bool {
        bucket == FileBucket::Script && !enabled
    }

    /// Whether a fold of this bucket checks conflicts.
    pub open spec fn fold_check(&self, bucket: FileBucket) -> bool {
        if bucket == FileBucket::Script {
            self.check_script_conflicts
        } else {
            self.check_loc_conflicts
        }
    }

    /// The machine-testable part of [`can_fold_file`]: id-space room, a
    /// registered Mod-typed `mod_id`, and a non-Mod per-file root.  The
    /// adapter tests this before folding and halts on a violation; the
    /// remaining conditions of [`can_fold_file`] are structural facts of
    /// extractor-produced arenas (file roots classify as files, extracted
    /// children are identifier or value leaves, aggregate containers are
    /// Virtual markers).
    pub fn fold_preflight(&self, mod_id: NodeId, file_arena: &Arena) -> (r: bool)
        requires
            self.wf(),
            file_arena.wf(),
        ensures
            r == ({
                &&& self.tree.arena@.n() + file_arena@.n() <= u32::MAX
                &&& file_arena@.n() >= 1
                &&& mod_id < self.tree.arena@.n()
                &&& self.tree.arena@.ty(mod_id as int) == NodeType::Mod
                &&& file_arena@.ty(0) != NodeType::Mod
            }),
    {
        let a = self.tree.arena.len();
        let b = file_arena.len();
        if (a as u64) + (b as u64) > u32::MAX as u64 {
            return false;
        }
        if b == 0 {
            return false;
        }
        if !((mod_id as usize) < a) {
            return false;
        }
        if self.tree.arena.get(mod_id).node_type() != NodeType::Mod {
            return false;
        }
        file_arena.get(0).node_type() != NodeType::Mod
    }

    /// Fold one extracted per-file arena into the shared tree and accumulate
    /// whatever conflicts the merge finds.
    pub fn fold_file(&mut self, mod_id: NodeId, enabled: bool, file_arena: &Arena, bucket: FileBucket)
        requires
            old(self).wf(),
            file_arena.wf(),
            bucket == FileBucket::Script || bucket == FileBucket::Localization,
            can_fold_file(
                old(self).tree.arena@,
                file_arena@,
                mod_id,
                DefinitionExtractor::fold_skip(bucket, enabled),
                old(self).fold_check(bucket),
                marker_of(bucket),
            ),
        ensures
            final(self).wf(),
            final(self).tree.arena@ == fold_model(
                old(self).tree.arena@,
                file_arena@,
                mod_id,
                DefinitionExtractor::fold_skip(bucket, enabled),
                old(self).fold_check(bucket),
                marker_of(bucket),
            ).0,
            final(self).conflicts.deep_view() == old(self).conflicts.deep_view() + fold_model(
                old(self).tree.arena@,
                file_arena@,
                mod_id,
                DefinitionExtractor::fold_skip(bucket, enabled),
                old(self).fold_check(bucket),
                marker_of(bucket),
            ).1,
            final(self).check_script_conflicts == old(self).check_script_conflicts,
            final(self).check_loc_conflicts == old(self).check_loc_conflicts,
    {
        let ghost m0 = self.tree.arena@;
        let ghost gfa = file_arena@;
        let ghost gskip = DefinitionExtractor::fold_skip(bucket, enabled);
        let ghost gcheck = self.fold_check(bucket);
        let ghost gmarker = marker_of(bucket);
        let skip = bucket == FileBucket::Script && !enabled;
        let check = if bucket == FileBucket::Script {
            self.check_script_conflicts
        } else {
            self.check_loc_conflicts
        };
        let marker = if bucket == FileBucket::Script {
            marker_def()
        } else {
            marker_loc()
        };

        let base = self.tree.arena.len() as NodeId;
        self.tree.arena.extend(file_arena);
        proof {
            assert(self.tree.arena@ =~= extend_model(m0, gfa));
            assert(extend_model(m0, gfa).nodes[base as int] == remap_node(
                gfa.nodes[0],
                m0.n(),
                m0.sets.len() as int,
            ));
        }
        self.tree.arena.set_source(base, mod_id);
        let ghost m1 = self.tree.arena@;
        proof {
            assert(m1 == set_source_model(extend_model(m0, gfa), base as int, mod_id));
        }
        let ghost gstep2 = fold_step2(m1, base, gskip, gcheck, gmarker);
        let ghost pre_conflicts = self.conflicts.deep_view();

        let rd = self.tree.arena.get(base).rel_dir().clone();
        if rd.len() > 0 {
            let parent_rd = match rd.parent() {
                Some(p) => p,
                None => RelPath::empty(),
            };
            let agg_path = parent_rd.join(marker.as_str());
            proof {
                assert(agg_path@ == m1.nodes[base as int].rel_dir.take(
                    m1.nodes[base as int].rel_dir.len() - 1,
                ).push(gmarker));
            }
            self.tree.setdefault_by_dir(0, &agg_path, marker.as_str());
            let ghost m2a = self.tree.arena@;
            proof {
                assert(m2a == setdefault_by_dir_model(m1, 0, agg_path@, gmarker).0);
            }
            match self.tree.get_by_dir(0, &agg_path, None) {
                Some(agg) => {
                    if skip {
                        // a disabled mod's script content is kept out of the
                        // aggregate content view
                    } else if !check {
                        self.tree.update(agg, base);
                    } else {
                        let found = self.tree.update_with_conflict_check(agg, base);
                        self.add_conflicts(found);
                    }
                },
                None => {},
            }
        }
        proof {
            assert(self.tree.arena@ == gstep2.0);
            assert(self.conflicts.deep_view() =~= pre_conflicts + gstep2.1);
        }

        match self.tree.get_by_dir(0, &rd, None) {
            Some(existing) => {
                self.tree.arena.set_source(existing, mod_id);
                self.tree.update(existing, base);
            },
            None => {
                self.tree.set_by_dir(0, &rd, base);
            },
        }
        proof {
            assert(self.tree.arena@ =~= fold_model(m0, gfa, mod_id, gskip, gcheck, gmarker).0);
            assert(self.conflicts.deep_view() =~= old(self).conflicts.deep_view() + fold_model(
                m0,
                gfa,
                mod_id,
                gskip,
                gcheck,
                gmarker,
            ).1);
        }
    }
}


/// Linking one "other"-bucket file: an existing node at its path just gains
/// the mod as a further contributor; otherwise a bare file node is created,
/// linked at the path, and sourced to the mod.
pub open spec fn fold_other_model(m: ArenaModel, mod_id: NodeId, name: Seq<char>, rd: Seq<Seq<char>>) -> ArenaModel {
    match get_by_dir_spec(m, 0, rd) {
        Some(existing) => set_source_model(m, existing as int, mod_id),
        None => {
            let nid = m.n() as NodeId;
            let m1 = crate::script::push_node_model(m, name, rd, None);
            let m2 = set_by_dir_model(m1, 0, rd, nid);
            set_source_model(m2, nid as int, mod_id)
        },
    }
}

/// What the "other"-file link asks of its inputs.
pub open spec fn can_fold_other(m: ArenaModel, mod_id: NodeId, name: Seq<char>, rd: Seq<Seq<char>>) -> bool {
    &&& m.n() >= 1
    &&& mod_id < m.n()
    &&& m.ty(mod_id as int) == NodeType::Mod
    &&& match get_by_dir_spec(m, 0, rd) {
        Some(existing) => prov_rank(m.ty(mod_id as int)) < prov_rank(m.ty(existing as int)),
        None => {
            let nid = m.n() as NodeId;
            let m1 = crate::script::push_node_model(m, name, rd, None);
            let m2 = set_by_dir_model(m1, 0, rd, nid);
            &&& m.n() < u32::MAX
            &&& can_set_by_dir(m1, 0, rd, nid)
            &&& nid < m2.n()
            &&& prov_rank(m2.ty(mod_id as int)) < prov_rank(m2.ty(nid as int))
        },
    }
}

impl DefinitionExtractor {
    /// Link one "other"-bucket file at its path, recording the mod as a
    /// contributor; no content is extracted from it.
    pub fn fold_other(&mut self, mod_id: NodeId, name: String, rd: &RelPath)
        requires
            old(self).wf(),
            can_fold_other(old(self).tree.arena@, mod_id, name@, rd@),
        ensures
            final(self).wf(),
            final(self).tree.arena@ == fold_other_model(
                old(self).tree.arena@,
                mod_id,
                name@,
                rd@,
            ),
            final(self).conflicts == old(self).conflicts,
            final(self).check_script_conflicts == old(self).check_script_conflicts,
            final(self).check_loc_conflicts == old(self).check_loc_conflicts,
    {
        let ghost m0 = self.tree.arena@;
        match self.tree.get_by_dir(0, rd, None) {
            Some(existing) => {
                self.tree.arena.set_source(existing, mod_id);
            },
            None => {
                let ghost gname = name@;
                let nid = self.tree.arena.new_node(name, rd.clone(), None);
                proof {
                    assert(self.tree.arena@ =~= crate::script::push_node_model(m0, gname, rd@, None));
                }
                self.tree.set_by_dir(0, rd, nid);
                self.tree.arena.set_source(nid, mod_id);
            },
        }
    }
}


/// Index of the first bucket named `k`, or `-1`.
pub open spec fn bname_index<V>(es: Seq<(Seq<char>, V)>, k: Seq<char>) -> int
    decreases es.len(),
{
    if es.len() == 0 {
        -1
    } else if es[0].0 == k {
        0
    } else {
        let r = bname_index(es.drop_first(), k);
        if r < 0 {
            -1
        } else {
            r + 1
        }
    }
}

/// `bname_index` finds the first bucket with the looked-up name.
pub proof fn lemma_bname_index<V>(es: Seq<(Seq<char>, V)>, k: Seq<char>)
    ensures
        bname_index(es, k) >= 0 ==> bname_index(es, k) < es.len() && es[bname_index(es, k)].0 == k,
        bname_index(es, k) == -1 ==> forall|i: int| 0 <= i < es.len() ==> es[i].0 != k,
        bname_index(es, k) >= -1,
        forall|i: int| 0 <= i < bname_index(es, k) ==> es[i].0 != k,
    decreases es.len(),
{
    if es.len() > 0 && es[0].0 != k {
        lemma_bname_index(es.drop_first(), k);
        if bname_index(es, k) == -1 {
            assert forall|i: int| 0 <= i < es.len() implies es[i].0 != k by {
                if i >= 1 {
                    assert(es[i] == es.drop_first()[i - 1]);
                }
            }
        } else {
            assert forall|i: int| 0 <= i < bname_index(es, k) implies es[i].0 != k by {
                if i >= 1 {
                    assert(es[i] == es.drop_first()[i - 1]);
                }
            }
        }
    }
}

/// `node` filed under `name`: appended to an existing bucket, or a new
/// bucket at the end.
pub open spec fn bucket_add(bs: Seq<(Seq<char>, Seq<NodeId>)>, name: Seq<char>, node: NodeId) -> Seq<(Seq<char>, Seq<NodeId>)> {
    let i = bname_index(bs, name);
    if i >= 0 {
        bs.update(i, (name, bs[i].1.push(node)))
    } else {
        bs.push((name, seq![node]))
    }
}

/// File `node` under the names of the registered mods among `srcs[j..]`,
/// in order; contributors without a registry entry are passed over.
pub open spec fn add_mod_buckets(m: ArenaModel, bs: Seq<(Seq<char>, Seq<NodeId>)>, node: NodeId, srcs: Seq<NodeId>, j: int) -> Seq<(Seq<char>, Seq<NodeId>)>
    decreases srcs.len() - j,
{
    if j < 0 || j >= srcs.len() {
        bs
    } else {
        let b2 = match crate::ordered_map::key_lookup(m.mods, srcs[j]) {
            Some(md) => bucket_add(bs, md.name, node),
            None => bs,
        };
        add_mod_buckets(m, b2, node, srcs, j + 1)
    }
}

/// The distinct owning mods of `node`, as `get_mod_sources` reports them.
pub open spec fn mod_sources_of(m: ArenaModel, node: NodeId) -> Seq<NodeId> {
    crate::tree::dedup_first(
        crate::tree::super_sources_list(m, m.srcs(node as int), NodeType::Mod, 2),
    )
}

/// The conflict report grouped by contributing mod name: walk the conflict
/// paths `[i..)` in order, resolve each to its node (an unresolvable path is
/// passed over), and file the node under the name of every owning mod.
pub open spec fn conflicts_by_mod_model(m: ArenaModel, paths: Seq<Seq<Seq<char>>>, i: int, bs: Seq<(Seq<char>, Seq<NodeId>)>) -> Seq<(Seq<char>, Seq<NodeId>)>
    decreases paths.len() - i,
{
    if i < 0 || i >= paths.len() {
        bs
    } else {
        let b2 = match get_by_dir_spec(m, 0, paths[i]) {
            Some(node) => add_mod_buckets(m, bs, node, mod_sources_of(m, node), 0),
            None => bs,
        };
        conflicts_by_mod_model(m, paths, i + 1, b2)
    }
}

impl DefinitionExtractor {
    /// The node each accumulated conflict path resolves to, in accumulation
    /// order; a path no longer resolvable falls back to the root id.
    pub fn get_conflict_identifiers(&self) -> (r: Vec<NodeId>)
        requires
            self.wf(),
        ensures
            r@.len() == self.conflicts.deep_view().len(),
            forall|i: int|
                0 <= i < r@.len() ==> #[trigger] r@[i] == match get_by_dir_spec(
                    self.tree.arena@,
                    0,
                    self.conflicts.deep_view()[i],
                ) {
                    Some(c) => c,
                    None => 0,
                },
    {
        let mut r: Vec<NodeId> = Vec::new();
        let mut i: usize = 0;
        while i < self.conflicts.len()
            invariant
                self.wf(),
                i <= self.conflicts@.len(),
                self.conflicts.deep_view().len() == self.conflicts@.len(),
                forall|j: int|
                    0 <= j < self.conflicts@.len() ==> (#[trigger] self.conflicts@[j])@
                        == self.conflicts.deep_view()[j],
                r@.len() == i,
                forall|j: int|
                    0 <= j < i ==> #[trigger] r@[j] == match get_by_dir_spec(
                        self.tree.arena@,
                        0,
                        self.conflicts.deep_view()[j],
                    ) {
                        Some(c) => c,
                        None => 0,
                    },
            decreases self.conflicts@.len() - i,
        {
            let found = match self.tree.get_by_dir(0, &self.conflicts[i], None) {
                Some(c) => c,
                None => 0,
            };
            r.push(found);
            i = i + 1;
        }
        r
    }

    /// The conflict report grouped by mod: for each accumulated conflict
    /// path, the node it resolves to is filed under the name of every mod
    /// that owns it (through its provenance chains), in encounter order.
    pub fn get_conflicts_by_mod(&self) -> (r: Vec<(String, Vec<NodeId>)>)
        requires
            self.wf(),
        ensures
            r.deep_view() == conflicts_by_mod_model(
                self.tree.arena@,
                self.conflicts.deep_view(),
                0,
                Seq::empty(),
            ),
    {
        let ghost m = self.tree.arena@;
        let ghost paths = self.conflicts.deep_view();
        let mut buckets: Vec<(String, Vec<NodeId>)> = Vec::new();
        proof {
            lemma_buckets_index(buckets);
            assert(buckets.deep_view() =~= Seq::<(Seq<char>, Seq<NodeId>)>::empty());
        }
        let mut i: usize = 0;
        while i < self.conflicts.len()
            invariant
                self.wf(),
                m == self.tree.arena@,
                paths == self.conflicts.deep_view(),
                i <= self.conflicts@.len(),
                paths.len() == self.conflicts@.len(),
                forall|j: int|
                    0 <= j < self.conflicts@.len() ==> (#[trigger] self.conflicts@[j])@ == paths[j],
                conflicts_by_mod_model(m, paths, 0, Seq::empty()) == conflicts_by_mod_model(
                    m,
                    paths,
                    i as int,
                    buckets.deep_view(),
                ),
            decreases self.conflicts@.len() - i,
        {
            let ghost b0 = buckets.deep_view();
            match self.tree.get_by_dir(0, &self.conflicts[i], None) {
                Some(node) => {
                    let srcs = self.tree.get_mod_sources(node);
                    let ghost gsrcs = mod_sources_of(m, node);
                    let mut j: usize = 0;
                    while j < srcs.len()
                        invariant
                            self.wf(),
                            m == self.tree.arena@,
                            j <= srcs@.len(),
                            srcs@ == gsrcs,
                            node < m.n(),
                            add_mod_buckets(m, b0, node, gsrcs, 0) == add_mod_buckets(
                                m,
                                buckets.deep_view(),
                                node,
                                gsrcs,
                                j as int,
                            ),
                        decreases srcs@.len() - j,
                    {
                        let s = srcs[j];
                        match self.tree.arena.mod_data_of(s) {
                            Some(md) => {
                                let ghost pre = buckets.deep_view();
                                let name = md.name.clone();
                                proof {
                                    lemma_buckets_index(buckets);
                                }
                                let mut k: usize = 0;
                                let mut at: Option<usize> = None;
                                while k < buckets.len()
                                    invariant
                                        k <= buckets@.len(),
                                        pre == buckets.deep_view(),
                                        pre.len() == buckets@.len(),
                                        forall|x: int|
                                            0 <= x < buckets@.len() ==> (#[trigger] pre[x]).0
                                                == buckets@[x].0@ && pre[x].1 == buckets@[x].1@,
                                        name@ == md.name@,
                                        (at matches Some(f) ==> f < k && pre[f as int].0 == name@
                                            && (forall|x: int| 0 <= x < f ==> pre[x].0 != name@)),
                                        (at is None ==> forall|x: int|
                                            0 <= x < k ==> pre[x].0 != name@),
                                    decreases buckets@.len() - k,
                                {
                                    if at.is_none() && seg_is(buckets[k].0.as_str(), name.as_str())
                                    {
                                        at = Some(k);
                                    }
                                    k = k + 1;
                                }
                                proof {
                                    lemma_bname_index(pre, name@);
                                    match at {
                                        Some(f) => {
                                            if bname_index(pre, name@) != f as int {
                                                assert(false);
                                            }
                                        },
                                        None => {
                                            if bname_index(pre, name@) >= 0 {
                                                assert(pre[bname_index(pre, name@)].0 == name@);
                                                assert(false);
                                            }
                                        },
                                    }
                                }
                                match at {
                                    Some(f) => {
                                        buckets[f].1.push(node);
                                        proof {
                                            lemma_buckets_index(buckets);
                                            assert(buckets.deep_view() =~= bucket_add(
                                                pre,
                                                name@,
                                                node,
                                            ));
                                        }
                                    },
                                    None => {
                                        let mut fresh: Vec<NodeId> = Vec::new();
                                        fresh.push(node);
                                        buckets.push((name, fresh));
                                        proof {
                                            lemma_buckets_index(buckets);
                                            assert(buckets.deep_view() =~= bucket_add(
                                                pre,
                                                md.name@,
                                                node,
                                            ));
                                        }
                                    },
                                }
                                proof {
                                    assert(crate::ordered_map::key_lookup(m.mods, gsrcs[j as int])
                                        == Some(md@));
                                    assert(add_mod_buckets(m, pre, node, gsrcs, j as int)
                                        == add_mod_buckets(
                                        m,
                                        buckets.deep_view(),
                                        node,
                                        gsrcs,
                                        j + 1,
                                    ));
                                }
                            },
                            None => {
                                proof {
                                    assert(add_mod_buckets(m, buckets.deep_view(), node, gsrcs, j as int)
                                        == add_mod_buckets(
                                        m,
                                        buckets.deep_view(),
                                        node,
                                        gsrcs,
                                        j + 1,
                                    ));
                                }
                            },
                        }
                        j = j + 1;
                    }
                    proof {
                        assert(conflicts_by_mod_model(m, paths, i as int, b0)
                            == conflicts_by_mod_model(m, paths, i + 1, buckets.deep_view()));
                    }
                },
                None => {
                    proof {
                        assert(conflicts_by_mod_model(m, paths, i as int, b0)
                            == conflicts_by_mod_model(m, paths, i + 1, buckets.deep_view()));
                    }
                },
            }
            i = i + 1;
        }
        buckets
    }
}

/// How the deep view of a bucket vector relates to its entries.
proof fn lemma_buckets_index(v: Vec<(String, Vec<NodeId>)>)
    ensures
        v.deep_view().len() == v@.len(),
        forall|j: int|
            0 <= j < v@.len() ==> (#[trigger] v.deep_view()[j]).0 == v@[j].0@ && v.deep_view()[j].1
                == v@[j].1@,
{
    assert forall|j: int|
        0 <= j < v@.len() implies (#[trigger] v.deep_view()[j]).0 == v@[j].0@ && v.deep_view()[j].1
        == v@[j].1@ by {
        assert(v.deep_view()[j].1 =~= v@[j].1@);
    }
}

/// The aggregate marker for script content.
fn marker_def() -> (r: String)
    ensures
        r@ == "<def>"@,
{
    String::from_str("<def>")
}

/// The aggregate marker for localization content.
fn marker_loc() -> (r: String)
    ensures
        r@ == "<loc>"@,
{
    String::from_str("<loc>")
}

} // verus!
