//! Line-oriented localization extraction.
//!
//! Raw flat text, one entry per physical line: optional leading whitespace,
//! a key of letters, digits, underscores, dots and hyphens, a colon, an
//! optional numeric version suffix, a double-quoted value running to the end
//! of the line, and an optional trailing `#` comment.  Non-matching lines
//! are skipped; matching never spans lines.

use crate::arena::{set_child_model, set_start_model, Arena, ArenaModel, NodeId};
use crate::node_type::NodeType;
use crate::script::push_node_model;
use vstd::prelude::*;

verus! {

/// The Unicode whitespace characters (the `White_Space` property).
pub open spec fn is_ws(c: char) -> bool {
    ||| c == '\t'
    ||| c == '\n'
    ||| c == '\u{b}'
    ||| c == '\u{c}'
    ||| c == '\r'
    ||| c == ' '
    ||| c == '\u{85}'
    ||| c == '\u{a0}'
    ||| c == '\u{1680}'
    ||| ('\u{2000}' <= c && c <= '\u{200a}')
    ||| c == '\u{2028}'
    ||| c == '\u{2029}'
    ||| c == '\u{202f}'
    ||| c == '\u{205f}'
    ||| c == '\u{3000}'
}

/// Executable [`is_ws`].
pub fn is_ws_exec(c: char) -> (r: bool)
    ensures
        r == is_ws(c),
{
    c == '\t' || c == '\n' || c == '\u{b}' || c == '\u{c}' || c == '\r' || c == ' ' || c == '\u{85}'
        || c == '\u{a0}' || c == '\u{1680}' || ('\u{2000}' <= c && c <= '\u{200a}') || c
        == '\u{2028}' || c == '\u{2029}' || c == '\u{202f}' || c == '\u{205f}' || c == '\u{3000}'
}

/// A key character: letter, digit, underscore, dot or hyphen.
pub open spec fn is_key_char(c: char) -> bool {
    ||| ('A' <= c && c <= 'Z')
    ||| ('a' <= c && c <= 'z')
    ||| ('0' <= c && c <= '9')
    ||| c == '_'
    ||| c == '.'
    ||| c == '-'
}

/// Executable [`is_key_char`].
pub fn is_key_char_exec(c: char) -> (r: bool)
    ensures
        r == is_key_char(c),
{
    ('A' <= c && c <= 'Z') || ('a' <= c && c <= 'z') || ('0' <= c && c <= '9') || c == '_' || c
        == '.' || c == '-'
}

/// An ASCII decimal digit.
pub open spec fn is_digit(c: char) -> bool {
    '0' <= c && c <= '9'
}

/// End of the whitespace run starting at `i`.
pub open spec fn ws_end(s: Seq<char>, i: int) -> int
    decreases s.len() - i,
{
    if 0 <= i < s.len() && is_ws(s[i]) {
        ws_end(s, i + 1)
    } else {
        i
    }
}

/// End of the key-character run starting at `i`.
pub open spec fn key_end(s: Seq<char>, i: int) -> int
    decreases s.len() - i,
{
    if 0 <= i < s.len() && is_key_char(s[i]) {
        key_end(s, i + 1)
    } else {
        i
    }
}

/// End of the digit run starting at `i`.
pub open spec fn digits_end(s: Seq<char>, i: int) -> int
    decreases s.len() - i,
{
    if 0 <= i < s.len() && is_digit(s[i]) {
        digits_end(s, i + 1)
    } else {
        i
    }
}

/// After the value's closing quote only whitespace and an optional `#`
/// comment may follow.
pub open spec fn tail_ok(s: Seq<char>, i: int) -> bool {
    let w = ws_end(s, i);
    w >= s.len() || s[w] == '#'
}

/// No carriage return in `s[a..b)`.
pub open spec fn no_cr(s: Seq<char>, a: int, b: int) -> bool {
    forall|x: int| a <= x < b ==> s[x] != '\r'
}

/// The rightmost closing quote at or below `q`: a `"` whose tail is only
/// whitespace or a comment, with no carriage return between the opening
/// quote at `p` and it.
pub open spec fn find_close(s: Seq<char>, p: int, q: int) -> int
    decreases q - p,
{
    if q <= p {
        -1
    } else if s[q] == '"' && tail_ok(s, q + 1) && no_cr(s, p + 1, q) {
        q
    } else {
        find_close(s, p, q - 1)
    }
}

/// Match one physical line: `\s* key : digits? \s* "value" \s* (#...)?`.
/// The value is the longest run of non-newline characters whose closing
/// quote leaves only whitespace or a comment behind.
pub open spec fn loc_match(line: Seq<char>) -> Option<(Seq<char>, Seq<char>)> {
    let i0 = ws_end(line, 0);
    let j = key_end(line, i0);
    if j == i0 || j >= line.len() || line[j] != ':' {
        None
    } else {
        let k = digits_end(line, j + 1);
        let p = ws_end(line, k);
        if p >= line.len() || line[p] != '"' {
            None
        } else {
            let q = find_close(line, p, line.len() - 1);
            if q < 0 {
                None
            } else {
                Some((line.subrange(i0, j), line.subrange(p + 1, q)))
            }
        }
    }
}

/// First newline at or after `i`, or the text's length.
pub open spec fn nl_at(s: Seq<char>, i: int) -> int
    decreases s.len() - i,
{
    if i >= s.len() {
        s.len() as int
    } else if s[i] == '\n' {
        i
    } else {
        nl_at(s, i + 1)
    }
}

/// The physical lines of `s` from position `i` on: split at newlines, a
/// carriage return directly before a newline stripped, no phantom line
/// after a final newline.
pub open spec fn split_lines_from(s: Seq<char>, i: int) -> Seq<Seq<char>>
    decreases s.len() - i,
    via split_lines_from_decreases
{
    if i < 0 || i >= s.len() {
        Seq::empty()
    } else {
        let e = nl_at(s, i);
        let stop = if e < s.len() && e > i && s[e - 1] == '\r' {
            e - 1
        } else {
            e
        };
        seq![s.subrange(i, stop)] + split_lines_from(
            s,
            if e < s.len() {
                e + 1
            } else {
                e
            },
        )
    }
}

#[via_fn]
proof fn split_lines_from_decreases(s: Seq<char>, i: int) {
    if 0 <= i < s.len() {
        lemma_nl_at(s, i);
    }
}

/// The physical lines of `s`.
pub open spec fn split_lines(s: Seq<char>) -> Seq<Seq<char>> {
    split_lines_from(s, 0)
}

/// The arena after processing lines `[i..)`: each matching line adds one
/// value leaf under the root (node `0`), keyed and named by the matched key,
/// stamped with its line index at column zero.
pub open spec fn loc_model(m: ArenaModel, lines: Seq<Seq<char>>, i: int) -> ArenaModel
    decreases lines.len() - i,
{
    if i < 0 || i >= lines.len() {
        m
    } else {
        let m2 = match loc_match(lines[i]) {
            None => m,
            Some(kv) => {
                let nid = m.n() as NodeId;
                let m1 = push_node_model(m, kv.0, m.nodes[0].rel_dir, Some(kv.1));
                let ms = set_start_model(m1, nid as int, i as usize, 0);
                set_child_model(ms, 0, kv.0, nid as int, true)
            },
        };
        loc_model(m2, lines, i + 1)
    }
}

/// There are never more lines than characters, plus one.
proof fn lemma_split_lines_count(s: Seq<char>, i: int)
    requires
        0 <= i <= s.len(),
    ensures
        split_lines_from(s, i).len() <= s.len() - i + 1,
    decreases s.len() - i,
{
    if i < s.len() {
        let e = nl_at(s, i);
        lemma_nl_at(s, i);
        if e < s.len() {
            lemma_split_lines_count(s, e + 1);
        } else {
            lemma_split_lines_count(s, e);
        }
    }
}

/// Where the first newline sits.
proof fn lemma_nl_at(s: Seq<char>, i: int)
    requires
        0 <= i <= s.len(),
    ensures
        i <= nl_at(s, i) <= s.len(),
        nl_at(s, i) < s.len() ==> s[nl_at(s, i)] == '\n',
        forall|x: int| i <= x < nl_at(s, i) ==> s[x] != '\n',
    decreases s.len() - i,
{
    if i < s.len() && s[i] != '\n' {
        lemma_nl_at(s, i + 1);
    }
}


/// First newline is where the scan stopped.
proof fn lemma_nl_at_char(s: Seq<char>, i: int, q: int)
    requires
        0 <= i <= q <= s.len(),
        forall|x: int| i <= x < q ==> s[x] != '\n',
        q < s.len() ==> s[q] == '\n',
    ensures
        nl_at(s, i) == q,
    decreases q - i,
{
    if i < q {
        lemma_nl_at_char(s, i + 1, q);
    }
}

/// End of the whitespace run, executably.
fn scan_ws(s: &str, from: usize) -> (r: usize)
    requires
        from <= s@.len(),
    ensures
        r == ws_end(s@, from as int),
        from <= r <= s@.len(),
{
    let n = s.unicode_len();
    let mut cur = from;
    while cur < n && is_ws_exec(s.get_char(cur))
        invariant
            from <= cur <= n,
            n == s@.len(),
            ws_end(s@, from as int) == ws_end(s@, cur as int),
        decreases n - cur,
    {
        cur = cur + 1;
    }
    cur
}

/// End of the key-character run, executably.
fn scan_key(s: &str, from: usize) -> (r: usize)
    requires
        from <= s@.len(),
    ensures
        r == key_end(s@, from as int),
        from <= r <= s@.len(),
{
    let n = s.unicode_len();
    let mut cur = from;
    while cur < n && is_key_char_exec(s.get_char(cur))
        invariant
            from <= cur <= n,
            n == s@.len(),
            key_end(s@, from as int) == key_end(s@, cur as int),
        decreases n - cur,
    {
        cur = cur + 1;
    }
    cur
}

/// End of the digit run, executably.
fn scan_digits(s: &str, from: usize) -> (r: usize)
    requires
        from <= s@.len(),
    ensures
        r == digits_end(s@, from as int),
        from <= r <= s@.len(),
{
    let n = s.unicode_len();
    let mut cur = from;
    while cur < n && '0' <= s.get_char(cur) && s.get_char(cur) <= '9'
        invariant
            from <= cur <= n,
            n == s@.len(),
            digits_end(s@, from as int) == digits_end(s@, cur as int),
        decreases n - cur,
    {
        cur = cur + 1;
    }
    cur
}

/// Whether only whitespace and an optional comment follow, executably.
fn tail_ok_exec(s: &str, from: usize) -> (r: bool)
    requires
        from <= s@.len(),
    ensures
        r == tail_ok(s@, from as int),
{
    let n = s.unicode_len();
    let w = scan_ws(s, from);
    w >= n || s.get_char(w) == '#'
}

/// Whether no carriage return sits in `s[a..b)`, executably.
fn no_cr_exec(s: &str, a: usize, b: usize) -> (r: bool)
    requires
        a <= b <= s@.len(),
    ensures
        r == no_cr(s@, a as int, b as int),
{
    let mut x = a;
    while x < b
        invariant
            a <= x <= b <= s@.len(),
            forall|y: int| a <= y < x ==> s@[y] != '\r',
        decreases b - x,
    {
        if s.get_char(x) == '\r' {
            return false;
        }
        x = x + 1;
    }
    true
}

/// Match one physical line against the localization entry shape.
pub fn match_line(line: &str) -> (r: Option<(String, String)>)
    ensures
        r is Some <==> loc_match(line@) is Some,
        (r matches Some(kv) ==> loc_match(line@) == Some((kv.0@, kv.1@))),
{
    let n = line.unicode_len();
    let i0 = scan_ws(line, 0);
    let j = scan_key(line, i0);
    if j == i0 || j >= n {
        return None;
    }
    if line.get_char(j) != ':' {
        return None;
    }
    let k = scan_digits(line, j + 1);
    let p = scan_ws(line, k);
    if p >= n {
        return None;
    }
    if line.get_char(p) != '"' {
        return None;
    }
    let ghost gq = find_close(line@, p as int, (line@.len() - 1) as int);
    let mut qq = n;
    loop
        invariant
            n == line@.len(),
            i0 == ws_end(line@, 0),
            j == key_end(line@, i0 as int),
            i0 < j < n,
            line@[j as int] == ':',
            k == digits_end(line@, j + 1),
            p == ws_end(line@, k as int),
            p < n,
            line@[p as int] == '"',
            p + 1 <= qq <= n,
            gq == find_close(line@, p as int, qq - 1),
            gq == find_close(line@, p as int, n - 1),
        decreases qq,
    {
        if qq <= p + 1 {
            return None;
        }
        let cand = qq - 1;
        if line.get_char(cand) == '"' && tail_ok_exec(line, cand + 1) && no_cr_exec(
            line,
            p + 1,
            cand,
        ) {
            let key = line.substring_char(i0, j).to_owned();
            let value = line.substring_char(p + 1, cand).to_owned();
            return Some((key, value));
        }
        qq = qq - 1;
    }
}

/// Extract localization entries from raw flat text into the tree rooted at
/// node `0` of `arena`: one value leaf per matching line, keyed by the
/// matched key, stamped with its line index at column zero.  Non-matching
/// lines produce nothing.
pub fn extract_loc_definitions(arena: &mut Arena, loc_txt: &str)
    requires
        old(arena).wf(),
        0 < old(arena)@.n(),
        old(arena)@.n() + loc_txt@.len() + 1 <= u32::MAX,
    ensures
        final(arena).wf(),
        final(arena)@ == loc_model(old(arena)@, split_lines(loc_txt@), 0),
        final(arena)@.n() >= old(arena)@.n(),
{
    let ghost gt = loc_txt@;
    let ghost gl = split_lines(gt);
    let ghost m0 = arena@;
    proof {
        lemma_split_lines_count(gt, 0);
        assert(gl.skip(0) =~= gl);
    }
    let n = loc_txt.unicode_len();
    let mut pos: usize = 0;
    let mut line_no: usize = 0;
    while pos < n
        invariant
            pos <= n,
            n == gt.len(),
            gt == loc_txt@,
            gl == split_lines(gt),
            gl.len() <= gt.len() + 1,
            line_no <= gl.len(),
            split_lines_from(gt, pos as int) == gl.skip(line_no as int),
            arena.wf(),
            0 < arena@.n(),
            m0.n() <= arena@.n() <= m0.n() + line_no,
            m0.n() + gt.len() + 1 <= u32::MAX,
            loc_model(m0, gl, 0) == loc_model(arena@, gl, line_no as int),
        decreases n - pos,
    {
        let ghost mpre = arena@;
        // find the end of this physical line
        let mut q = pos;
        while q < n && loc_txt.get_char(q) != '\n'
            invariant
                pos <= q <= n,
                n == gt.len(),
                gt == loc_txt@,
                forall|x: int| pos <= x < q ==> gt[x] != '\n',
            decreases n - q,
        {
            q = q + 1;
        }
        proof {
            lemma_nl_at_char(gt, pos as int, q as int);
        }
        let stop = if q < n && q > pos && loc_txt.get_char(q - 1) == '\r' {
            q - 1
        } else {
            q
        };
        let ghost ge = nl_at(gt, pos as int);
        let ghost gnext: int = if ge < gt.len() {
            ge + 1
        } else {
            ge
        };
        let line = loc_txt.substring_char(pos, stop);
        proof {
            assert(ge == q);
            assert(split_lines_from(gt, pos as int) == seq![
                gt.subrange(pos as int, stop as int),
            ] + split_lines_from(gt, gnext));
            assert(split_lines_from(gt, pos as int)[0] == gt.subrange(pos as int, stop as int));
            assert(split_lines_from(gt, pos as int).len() >= 1);
            assert(line_no < gl.len());
            assert(gl.skip(line_no as int)[0] == gl[line_no as int]);
            assert(gl[line_no as int] == line@);
        }
        match match_line(line) {
            Some((key, value)) => {
                let root_rd = arena.get(0).rel_dir().clone();
                let nid = arena.new_node(key.clone(), root_rd, Some(value));
                proof {
                    assert(arena@ =~= crate::script::push_node_model(
                        mpre,
                        key@,
                        mpre.nodes[0].rel_dir,
                        Some(loc_match(gl[line_no as int]).unwrap().1),
                    ));
                }
                arena.set_node_start_point(nid, line_no, 0);
                arena.set_child(0, key, nid, true);
            },
            None => {},
        }
        proof {
            assert(loc_model(mpre, gl, line_no as int) == loc_model(arena@, gl, line_no + 1));
            assert(gl.skip(line_no as int).drop_first() =~= gl.skip(line_no + 1));
        }
        pos = if q < n {
            q + 1
        } else {
            q
        };
        line_no = line_no + 1;
    }
    proof {
        assert(split_lines_from(gt, pos as int) =~= Seq::<Seq<char>>::empty());
        assert(gl.skip(line_no as int) =~= Seq::<Seq<char>>::empty());
        assert(line_no == gl.len());
    }
}

impl crate::tree::ParadoxModDefinitionTree {
    /// Standalone single-file localization extraction: build a tree holding
    /// only a Virtual root, then extract `loc_txt` into it.  Usable without
    /// any mod context.
    pub fn extract_localization(loc_txt: &str) -> (r: crate::tree::ParadoxModDefinitionTree)
        requires
            loc_txt@.len() + 2 <= u32::MAX,
        ensures
            r.wf(),
            r.root == 0,
            r.arena@ == loc_model(crate::script::script_root_model(), split_lines(loc_txt@), 0),
    {
        let mut arena = Arena::new();
        let rel_dir = crate::path::RelPath::empty().join(".");
        proof {
            reveal_strlit(".");
            assert(rel_dir@ =~~= seq![seq!['.']]);
        }
        let root = arena.new_node(loc_root_name(), rel_dir, None);
        proof {
            assert(arena@ =~= crate::script::script_root_model());
        }
        extract_loc_definitions(&mut arena, loc_txt);
        crate::tree::ParadoxModDefinitionTree { arena, root: 0 }
    }
}

/// The marker name of a standalone extraction root.
fn loc_root_name() -> (r: String)
    ensures
        r@ == "<root>"@,
{
    String::from_str("<root>")
}

} // verus!
