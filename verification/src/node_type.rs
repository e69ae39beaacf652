//! The node classification: a small totally ordered hierarchy of node kinds,
//! and the pure classifier that assigns a kind from a node's name, directory
//! and optional literal value.

use crate::path::RelPath;
use vstd::prelude::*;

verus! {

/// Classification of a tree node.  The variants are totally ordered
/// (`Value < Identifier < File < Directory < Mod < Virtual`); attachment of a
/// child under a parent requires `parent >= child` unless one of the two is
/// `Virtual`.
#[derive(Clone, Copy, PartialEq, Eq, Structural, Debug)]
pub enum NodeType {
    /// A leaf holding a literal value (or a rendered array) as a string.
    Value,
    /// A named entry extracted from inside a file.
    Identifier,
    /// A node standing for a file.
    File,
    /// A node standing for a directory.
    Directory,
    /// A node standing for a whole content package.
    Mod,
    /// An organizational node with no filesystem counterpart.
    Virtual,
}

impl NodeType {
    /// Position of this variant in the total order.
    pub open spec fn rank(self) -> int {
        match self {
            NodeType::Value => 0,
            NodeType::Identifier => 1,
            NodeType::File => 2,
            NodeType::Directory => 3,
            NodeType::Mod => 4,
            NodeType::Virtual => 5,
        }
    }

    /// Executable rank, used to compare two node types.
    pub fn rank_u8(self) -> (r: u8)
        ensures
            r as int == self.rank(),
    {
        match self {
            NodeType::Value => 0,
            NodeType::Identifier => 1,
            NodeType::File => 2,
            NodeType::Directory => 3,
            NodeType::Mod => 4,
            NodeType::Virtual => 5,
        }
    }

    /// `self <= other` in the node-type order.
    pub fn le(self, other: NodeType) -> (r: bool)
        ensures
            r == (self.rank() <= other.rank()),
    {
        self.rank_u8() <= other.rank_u8()
    }

    /// The display name of this variant.
    pub fn as_str(self) -> (r: &'static str)
        ensures
            r@ == self.name_spec(),
    {
        match self {
            NodeType::Virtual => "Virtual",
            NodeType::Mod => "Mod",
            NodeType::Directory => "Directory",
            NodeType::File => "File",
            NodeType::Identifier => "Identifier",
            NodeType::Value => "Value",
        }
    }

    /// The display name, as a sequence of characters.
    pub open spec fn name_spec(self) -> Seq<char> {
        match self {
            NodeType::Virtual => "Virtual"@,
            NodeType::Mod => "Mod"@,
            NodeType::Directory => "Directory"@,
            NodeType::File => "File"@,
            NodeType::Identifier => "Identifier"@,
            NodeType::Value => "Value"@,
        }
    }
}

/// The attachment rule: a child may hang under a parent only if the parent's
/// type dominates the child's, or one of the two is organizational.
pub open spec fn attach_ok(parent: NodeType, child: NodeType) -> bool {
    ||| parent == NodeType::Virtual
    ||| child == NodeType::Virtual
    ||| child.rank() <= parent.rank()
}

/// Executable check of [`attach_ok`].
pub fn attach_ok_exec(parent: NodeType, child: NodeType) -> (r: bool)
    ensures
        r == attach_ok(parent, child),
{
    parent == NodeType::Virtual || child == NodeType::Virtual || child.le(parent)
}

/// The code point of `c` with an ASCII capital folded to lower case.
pub open spec fn fold_u32(c: char) -> int {
    if 'A' <= c && c <= 'Z' {
        c as u32 + 32
    } else {
        c as u32 as int
    }
}

/// Executable [`fold_u32`].
pub fn fold_u32_exec(c: char) -> (r: u32)
    ensures
        r == fold_u32(c),
{
    if 'A' <= c && c <= 'Z' {
        c as u32 + 32
    } else {
        c as u32
    }
}

/// Whether `s` equals `t` after ASCII case folding of `s` (`t` is lower case).
pub open spec fn ci_eq(s: Seq<char>, t: Seq<char>) -> bool {
    s.len() == t.len() && forall|i: int| 0 <= i < s.len() ==> fold_u32(s[i]) == t[i] as u32
}

/// Index of the last `'.'` in `s`, or `-1` when there is none.
pub open spec fn last_dot(s: Seq<char>) -> int
    decreases s.len(),
{
    if s.len() == 0 {
        -1
    } else if s[s.len() - 1] == '.' {
        s.len() - 1
    } else {
        last_dot(s.take(s.len() - 1))
    }
}

/// A dot at `d` with none after it is the last dot.
proof fn lemma_last_dot_at(s: Seq<char>, d: int)
    requires
        0 <= d < s.len(),
        s[d] == '.',
        forall|k: int| d < k < s.len() ==> s[k] != '.',
    ensures
        last_dot(s) == d,
    decreases s.len(),
{
    if d < s.len() - 1 {
        lemma_last_dot_at(s.take(s.len() - 1), d);
    }
}

/// With no dot at all, `last_dot` is `-1`.
proof fn lemma_last_dot_none(s: Seq<char>)
    requires
        forall|k: int| 0 <= k < s.len() ==> s[k] != '.',
    ensures
        last_dot(s) == -1,
    decreases s.len(),
{
    if s.len() > 0 {
        lemma_last_dot_none(s.take(s.len() - 1));
    }
}

/// The file-name extension: what follows the last dot, provided that dot is
/// not the leading character.  Mirrors how a path library reads a single
/// normal component.
pub open spec fn ext_of(s: Seq<char>) -> Option<Seq<char>> {
    if last_dot(s) >= 1 {
        Some(s.subrange(last_dot(s) + 1, s.len() as int))
    } else {
        None
    }
}

/// The fixed set of recognized file extensions, compared case-insensitively.
pub open spec fn recognized_ext(e: Seq<char>) -> bool {
    ||| ci_eq(e, seq!['t', 'x', 't'])
    ||| ci_eq(e, seq!['y', 'm', 'l'])
    ||| ci_eq(e, seq!['y', 'a', 'm', 'l'])
    ||| ci_eq(e, seq!['g', 'u', 'i'])
    ||| ci_eq(e, seq!['c', 's', 'v'])
    ||| ci_eq(e, seq!['d', 'd', 's'])
    ||| ci_eq(e, seq!['j', 's', 'o', 'n'])
    ||| ci_eq(e, seq!['m', 'o', 'd'])
}

/// Whether the name carries a recognized extension.
pub open spec fn has_recognized_ext(s: Seq<char>) -> bool {
    match ext_of(s) {
        Some(e) => recognized_ext(e),
        None => false,
    }
}

/// Compare `s[lo..hi]` with `t` after case folding.
fn ci_eq_range(s: &str, lo: usize, hi: usize, t: &[char]) -> (r: bool)
    requires
        lo <= hi <= s@.len(),
    ensures
        r == ci_eq(s@.subrange(lo as int, hi as int), t@),
{
    if hi - lo != t.len() {
        return false;
    }
    let mut i: usize = 0;
    while i < t.len()
        invariant
            i <= t.len(),
            lo <= hi <= s@.len(),
            hi - lo == t@.len(),
            forall|j: int| 0 <= j < i ==> fold_u32(s@[lo + j]) == t@[j] as u32,
        decreases t.len() - i,
    {
        let c = s.get_char(lo + i);
        if fold_u32_exec(c) != t[i] as u32 {
            proof {
                assert(s@.subrange(lo as int, hi as int)[i as int] == s@[lo + i]);
            }
            return false;
        }
        i = i + 1;
    }
    proof {
        assert forall|j: int| 0 <= j < t@.len() implies fold_u32(
            s@.subrange(lo as int, hi as int)[j],
        ) == t@[j] as u32 by {
            assert(s@.subrange(lo as int, hi as int)[j] == s@[lo + j]);
        }
    }
    true
}

/// Find the last dot of `s`, as [`last_dot`] names it.
fn find_last_dot(s: &str) -> (r: Option<usize>)
    ensures
        match r {
            Some(d) => d == last_dot(s@) && d < s@.len(),
            None => last_dot(s@) == -1,
        },
{
    let n = s.unicode_len();
    let mut j: usize = n;
    while j > 0
        invariant
            j <= n,
            n == s@.len(),
            forall|k: int| j <= k < n ==> s@[k] != '.',
        decreases j,
    {
        let c = s.get_char(j - 1);
        if c == '.' {
            proof {
                lemma_last_dot_at(s@, j - 1);
            }
            return Some(j - 1);
        }
        j = j - 1;
    }
    proof {
        lemma_last_dot_none(s@);
    }
    None
}


/// The character range of the name's extension: what follows the last dot,
/// when that dot is not the leading character.
pub fn ext_range(s: &str) -> (r: Option<(usize, usize)>)
    ensures
        r matches Some(p) ==> p.0 <= p.1 && p.1 == s@.len() && ext_of(s@) == Some(
            s@.subrange(p.0 as int, p.1 as int),
        ),
        r is None ==> ext_of(s@) is None,
{
    let n = s.unicode_len();
    match find_last_dot(s) {
        Some(d) => {
            if d >= 1 {
                Some((d + 1, n))
            } else {
                None
            }
        },
        None => None,
    }
}

/// Whether `s` names a file with a recognized extension.
pub fn has_recognized_ext_exec(s: &str) -> (r: bool)
    ensures
        r == has_recognized_ext(s@),
{
    let n = s.unicode_len();
    match find_last_dot(s) {
        None => false,
        Some(d) => {
            if d < 1 {
                false
            } else {
                let lo = d + 1;
                ci_eq_range(s, lo, n, &['t', 'x', 't']) || ci_eq_range(s, lo, n, &['y', 'm', 'l'])
                    || ci_eq_range(s, lo, n, &['y', 'a', 'm', 'l']) || ci_eq_range(
                    s,
                    lo,
                    n,
                    &['g', 'u', 'i'],
                ) || ci_eq_range(s, lo, n, &['c', 's', 'v']) || ci_eq_range(
                    s,
                    lo,
                    n,
                    &['d', 'd', 's'],
                ) || ci_eq_range(s, lo, n, &['j', 's', 'o', 'n']) || ci_eq_range(
                    s,
                    lo,
                    n,
                    &['m', 'o', 'd'],
                )
            }
        },
    }
}

/// Whether the name is wrapped in angle brackets (a synthetic marker).
pub open spec fn is_marker_name(name: Seq<char>) -> bool {
    name.len() >= 1 && name[0] == '<' && name[name.len() - 1] == '>'
}

/// The pure classifier: a node with a literal value is `Value`; a marker name
/// or an empty directory is `Virtual`; a recognized extension on the name
/// makes a `File`, one on the containing directory an `Identifier` (a node
/// beneath a known file); anything else is a `Directory`.
pub open spec fn classify(name: Seq<char>, rel_dir: Seq<Seq<char>>, value: Option<
    Seq<char>,
>) -> NodeType {
    if value is Some {
        NodeType::Value
    } else if is_marker_name(name) {
        NodeType::Virtual
    } else if rel_dir.len() == 0 {
        NodeType::Virtual
    } else if has_recognized_ext(name) {
        NodeType::File
    } else if has_recognized_ext(rel_dir[rel_dir.len() - 1]) {
        NodeType::Identifier
    } else {
        NodeType::Directory
    }
}

/// Executable [`classify`].  Never touches a filesystem: the tree is often
/// synthetic, so classification depends on the given strings alone.
pub fn get_node_type(name: &str, rel_dir: &RelPath, value: &Option<String>) -> (r: NodeType)
    ensures
        r == classify(name@, rel_dir@, value.deep_view()),
{
    if value.is_some() {
        return NodeType::Value;
    }
    let n = name.unicode_len();
    if n >= 1 && name.get_char(0) == '<' && name.get_char(n - 1) == '>' {
        return NodeType::Virtual;
    }
    if rel_dir.is_empty() {
        return NodeType::Virtual;
    }
    if has_recognized_ext_exec(name) {
        return NodeType::File;
    }
    match rel_dir.last_seg() {
        Some(last) => {
            if has_recognized_ext_exec(last.as_str()) {
                NodeType::Identifier
            } else {
                NodeType::Directory
            }
        },
        None => NodeType::Directory,
    }
}

} // verus!
