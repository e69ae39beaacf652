//! Mod metadata: load order, enablement, and version bookkeeping.

use crate::loc::{is_ws, is_ws_exec};
use crate::path::RelPath;
use vstd::prelude::*;

verus! {

/// Decimal digit character of `d`.
pub open spec fn digit_char(d: int) -> char {
    if d == 0 {
        '0'
    } else if d == 1 {
        '1'
    } else if d == 2 {
        '2'
    } else if d == 3 {
        '3'
    } else if d == 4 {
        '4'
    } else if d == 5 {
        '5'
    } else if d == 6 {
        '6'
    } else if d == 7 {
        '7'
    } else if d == 8 {
        '8'
    } else {
        '9'
    }
}

/// The decimal rendering of `n`.
pub open spec fn dec_str(n: nat) -> Seq<char>
    decreases n,
{
    if n < 10 {
        seq![digit_char(n as int)]
    } else {
        dec_str(n / 10).push(digit_char((n % 10) as int))
    }
}

/// Executable decimal digit.
fn digit_char_exec(d: u32) -> (r: char)
    requires
        d < 10,
    ensures
        r == digit_char(d as int),
{
    match d {
        0 => '0',
        1 => '1',
        2 => '2',
        3 => '3',
        4 => '4',
        5 => '5',
        6 => '6',
        7 => '7',
        8 => '8',
        _ => '9',
    }
}

/// Render `v` in decimal.
pub fn u32_to_string(v: u32) -> (r: String)
    ensures
        r@ == dec_str(v as nat),
{
    let mut digits: Vec<char> = Vec::new();
    let mut rest = v;
    loop
        invariant_except_break
            dec_str(v as nat) == dec_str(rest as nat) + digits@.reverse(),
        ensures
            dec_str(v as nat) == digits@.reverse(),
        decreases rest,
    {
        let d = rest % 10;
        let ghost pre = digits@;
        digits.push(digit_char_exec(d));
        proof {
            assert(digits@.reverse() =~= seq![digit_char(d as int)] + pre.reverse());
            if rest >= 10 {
                assert(dec_str(rest as nat) == dec_str((rest / 10) as nat).push(
                    digit_char((rest % 10) as int),
                ));
                assert(dec_str(rest as nat) =~= dec_str((rest / 10) as nat) + seq![
                    digit_char(d as int),
                ]);
                assert(dec_str(v as nat) =~= dec_str((rest / 10) as nat) + digits@.reverse());
            } else {
                assert(d == rest);
                assert(dec_str(rest as nat) == seq![digit_char(rest as int)]);
                assert(digits@.reverse() =~= dec_str(rest as nat) + pre.reverse());
                assert(dec_str(v as nat) =~= digits@.reverse());
            }
        }
        if rest < 10 {
            break ;
        }
        rest = rest / 10;
    }
    let mut out = String::new();
    let mut i: usize = digits.len();
    proof {
        assert(out@ =~= digits@.reverse().take(digits@.len() - i));
    }
    while i > 0
        invariant
            i <= digits@.len(),
            out@ == digits@.reverse().take(digits@.len() - i),
        decreases i,
    {
        out.push(digits[i - 1]);
        proof {
            assert(digits@.reverse()[digits@.len() - i] == digits@[i - 1]);
            assert(out@ =~= digits@.reverse().take(digits@.len() - (i - 1)));
        }
        i = i - 1;
    }
    proof {
        assert(digits@.reverse().take(digits@.len() as int) =~= digits@.reverse());
    }
    out
}

/// Whether every character of `s` is an ASCII digit, and `s` is nonempty.
pub open spec fn all_digits(s: Seq<char>) -> bool {
    s.len() > 0 && forall|i: int| 0 <= i < s.len() ==> '0' <= #[trigger] s[i] && s[i] <= '9'
}

/// Numeric value of a digit string.
pub open spec fn dec_value(s: Seq<char>) -> int
    decreases s.len(),
{
    if s.len() == 0 {
        0
    } else {
        dec_value(s.drop_last()) * 10 + (s.last() as int - '0' as int)
    }
}

/// Parse a version component: a nonempty run of ASCII digits whose value
/// fits an `i32`; anything else is no number.
pub open spec fn parse_component(s: Seq<char>) -> Option<int> {
    if all_digits(s) && dec_value(s) <= i32::MAX {
        Some(dec_value(s))
    } else {
        None
    }
}

/// Executable [`parse_component`].
fn parse_component_exec(s: &str) -> (r: Option<i32>)
    ensures
        r matches Some(v) ==> parse_component(s@) == Some(v as int),
        r is None ==> parse_component(s@) is None,
{
    let n = s.unicode_len();
    if n == 0 {
        return None;
    }
    let mut acc: i64 = 0;
    let mut i: usize = 0;
    while i < n
        invariant
            i <= n,
            n == s@.len(),
            forall|j: int| 0 <= j < i ==> '0' <= #[trigger] s@[j] && s@[j] <= '9',
            acc == dec_value(s@.take(i as int)),
            0 <= acc <= i32::MAX,
        decreases n - i,
    {
        let c = s.get_char(i);
        if c < '0' || c > '9' {
            proof {
                assert(!all_digits(s@));
            }
            return None;
        }
        proof {
            assert(s@.take(i + 1).drop_last() =~= s@.take(i as int));
            assert(s@.take(i + 1).last() == s@[i as int]);
        }
        let d = (c as u32 - '0' as u32) as i64;
        let next = acc * 10 + d;
        if next > i32::MAX as i64 {
            proof {
                if all_digits(s@) && dec_value(s@) <= i32::MAX {
                    lemma_dec_value_grows(s@, i + 1, s@.len() as int);
                    assert(s@.take(s@.len() as int) =~= s@);
                    assert(false);
                }
            }
            return None;
        }
        acc = next;
        i = i + 1;
    }
    proof {
        assert(s@.take(n as int) =~= s@);
    }
    Some(acc as i32)
}

/// Appending digits multiplies the value up.
proof fn lemma_dec_value_grows(s: Seq<char>, i: int, j: int)
    requires
        0 <= i <= j <= s.len(),
        forall|x: int| 0 <= x < j ==> '0' <= #[trigger] s[x] && s[x] <= '9',
    ensures
        dec_value(s.take(j)) >= dec_value(s.take(i)),
        dec_value(s.take(j)) >= 0,
    decreases j - i,
{
    if i == j {
        lemma_dec_value_nonneg(s.take(i));
    } else {
        lemma_dec_value_grows(s, i, j - 1);
        assert(s.take(j).drop_last() =~= s.take(j - 1));
        assert(dec_value(s.take(j)) == dec_value(s.take(j - 1)) * 10 + (s[j - 1] as int
            - '0' as int));
    }
}

/// A digit string's value is not negative.
proof fn lemma_dec_value_nonneg(s: Seq<char>)
    requires
        forall|x: int| 0 <= x < s.len() ==> '0' <= #[trigger] s[x] && s[x] <= '9',
    ensures
        dec_value(s) >= 0,
    decreases s.len(),
{
    if s.len() > 0 {
        lemma_dec_value_nonneg(s.drop_last());
        assert(forall|x: int|
            0 <= x < s.drop_last().len() ==> '0' <= #[trigger] s.drop_last()[x] && s.drop_last()[x]
                <= '9');
    }
}

/// A content package with metadata.
pub struct Mod {
    /// Resolution priority; ascending means loaded earlier.
    pub load_order: i32,
    /// Whether the package takes part in the run.
    pub enabled: bool,
    /// Display name.
    pub name: String,
    /// The package's own version string.
    pub version: String,
    /// Filesystem root, as segments.
    pub path: RelPath,
    /// Free-form tags.
    pub tags: Vec<String>,
    /// The newest game version the package declares support for.
    pub supported_version: Option<String>,
    /// Workshop identifier, if distributed remotely.
    pub remote_file_id: Option<String>,
    /// Whether enabled mods sort ahead of disabled ones.
    pub enabled_first: bool,
    /// Cached sort position derived from enablement.
    pub sort_index: i32,
    /// Discriminator among equally named mods.
    pub dup_id: i32,
}

impl Mod {
    /// Build a mod; enabled mods sort first when `enabled_first` is set.
    pub fn new(load_order: i32, enabled: bool, name: String, version: String, path: RelPath,
        enabled_first: bool) -> (r: Mod)
        ensures
            r.load_order == load_order,
            r.enabled == enabled,
            r.name@ == name@,
            r.version@ == version@,
            r.path@ == path@,
            r.sort_key() == (if enabled && enabled_first {
                0int
            } else {
                1int
            }),
            r.dup_key() == 0,
    {
        let sort_index: i32 = if enabled && enabled_first {
            0
        } else {
            1
        };
        Mod {
            load_order,
            enabled,
            name,
            version,
            path,
            tags: Vec::new(),
            supported_version: None,
            remote_file_id: None,
            enabled_first,
            sort_index,
            dup_id: 0,
        }
    }

    /// Where the mod sorts before load order is considered.
    pub open spec fn sort_key(&self) -> int {
        self.sort_index as int
    }

    /// The duplicate discriminator.
    pub open spec fn dup_key(&self) -> int {
        self.dup_id as int
    }

    /// Set enablement, refreshing the sort position when enabled-first
    /// ordering is on.
    pub fn set_enabled(&mut self, value: bool)
        ensures
            final(self).enabled == value,
            final(self).name@ == old(self).name@,
            old(self).enabled_first ==> final(self).sort_key() == (if value {
                0int
            } else {
                1int
            }),
            !old(self).enabled_first ==> final(self).sort_key() == old(self).sort_key(),
    {
        self.enabled = value;
        if self.enabled_first {
            self.sort_index = if value {
                0
            } else {
                1
            };
        }
    }

    /// Read the duplicate discriminator.
    pub fn get_dup_id(&self) -> (r: i32)
        ensures
            r as int == self.dup_key(),
    {
        self.dup_id
    }

    /// Set the duplicate discriminator.
    pub fn set_dup_id(&mut self, value: i32)
        ensures
            final(self).dup_key() == value as int,
            final(self).name@ == old(self).name@,
    {
        self.dup_id = value;
    }

    /// The display name with a `#n` suffix for duplicates.
    pub fn dup_name(&self) -> (r: String)
        ensures
            self.dup_key() > 0 ==> r@ == self.name@ + seq!['#'] + dec_str(self.dup_key() as nat),
            self.dup_key() <= 0 ==> r@ == self.name@,
    {
        if self.dup_id > 0 {
            let mut out = self.name.clone();
            out.push('#');
            let digits = u32_to_string(self.dup_id as u32);
            let out2 = out.concat(digits.as_str());
            proof {
                assert(out2@ =~= self.name@ + seq!['#'] + dec_str(self.dup_key() as nat));
            }
            out2
        } else {
            self.name.clone()
        }
    }

    /// Whether the supported version is strictly older than the current game
    /// version: dotted components are compared numerically left to right;
    /// the first difference decides; any unparsable component (a wildcard,
    /// say) means not outdated; with no supported version recorded, not
    /// outdated.
    pub fn is_outdated(&self, current_version: &str) -> (r: bool)
        ensures
            r == match self.supported_version {
                None => false,
                Some(sv) => outdated_spec(
                    split_dots(trim_ws(sv@)),
                    split_dots(current_version@),
                    0,
                ),
            },
    {
        let sv = match &self.supported_version {
            None => {
                return false;
            },
            Some(sv) => sv,
        };
        let trimmed = trim_exec(sv.as_str());
        let supported_parts = split_dots_exec(trimmed);
        let current_parts = split_dots_exec(current_version);
        let ghost gs = split_dots(trim_ws(sv@));
        let ghost gc = split_dots(current_version@);
        let limit = if supported_parts.len() < current_parts.len() {
            supported_parts.len()
        } else {
            current_parts.len()
        };
        let mut i: usize = 0;
        while i < limit
            invariant
                i <= limit,
                limit == (if gs.len() < gc.len() {
                    gs.len()
                } else {
                    gc.len()
                }),
                (self.supported_version matches Some(svv) && gs == split_dots(trim_ws(svv@))),
                gc == split_dots(current_version@),
                supported_parts@.len() == gs.len(),
                current_parts@.len() == gc.len(),
                forall|j: int| 0 <= j < gs.len() ==> (#[trigger] supported_parts@[j])@ == gs[j],
                forall|j: int| 0 <= j < gc.len() ==> (#[trigger] current_parts@[j])@ == gc[j],
                outdated_spec(gs, gc, 0) == outdated_spec(gs, gc, i as int),
            decreases limit - i,
        {
            let p0 = parse_component_exec(supported_parts[i].as_str());
            let p1 = parse_component_exec(current_parts[i].as_str());
            match (p0, p1) {
                (Some(a), Some(b)) => {
                    if a < b {
                        return true;
                    } else if a > b {
                        return false;
                    }
                },
                _ => {
                    return false;
                },
            }
            i = i + 1;
        }
        false
    }
}

/// `s` without leading and trailing whitespace.
pub open spec fn trim_ws(s: Seq<char>) -> Seq<char> {
    let a = crate::loc::ws_end(s, 0);
    let b = last_non_ws(s);
    if a <= b {
        s.subrange(a, b + 1)
    } else {
        Seq::empty()
    }
}

/// Index of the last non-whitespace character, or `-1`.
pub open spec fn last_non_ws(s: Seq<char>) -> int
    decreases s.len(),
{
    if s.len() == 0 {
        -1
    } else if !is_ws(s.last()) {
        s.len() - 1
    } else {
        last_non_ws(s.drop_last())
    }
}

/// The dot-separated components of `s`, split left to right.
pub open spec fn split_dots(s: Seq<char>) -> Seq<Seq<char>>
    decreases s.len(),
    via split_dots_decreases
{
    let d = dot_at(s, 0);
    if d >= s.len() {
        seq![s]
    } else {
        seq![s.subrange(0, d)] + split_dots(s.subrange(d + 1, s.len() as int))
    }
}

#[via_fn]
proof fn split_dots_decreases(s: Seq<char>) {
    lemma_dot_at_bounds(s, 0);
}

/// The scan for a dot stays within bounds.
proof fn lemma_dot_at_bounds(s: Seq<char>, i: int)
    requires
        0 <= i <= s.len(),
    ensures
        i <= dot_at(s, i) <= s.len(),
    decreases s.len() - i,
{
    if i < s.len() && s[i] != '.' {
        lemma_dot_at_bounds(s, i + 1);
    }
}

/// First dot at or after `i`, or the length.
pub open spec fn dot_at(s: Seq<char>, i: int) -> int
    decreases s.len() - i,
{
    if i < 0 || i >= s.len() {
        s.len() as int
    } else if s[i] == '.' {
        i
    } else {
        dot_at(s, i + 1)
    }
}

/// Compare dotted versions numerically from component `i` on: the first
/// numeric difference decides; an unparsable component stops the walk.
pub open spec fn outdated_spec(sup: Seq<Seq<char>>, cur: Seq<Seq<char>>, i: int) -> bool
    decreases (if sup.len() < cur.len() {
        sup.len()
    } else {
        cur.len()
    }) - i,
{
    let limit: int = if sup.len() < cur.len() {
        sup.len() as int
    } else {
        cur.len() as int
    };
    if i < 0 || i >= limit {
        false
    } else {
        match (parse_component(sup[i]), parse_component(cur[i])) {
            (Some(a), Some(b)) => if a < b {
                true
            } else if a > b {
                false
            } else {
                outdated_spec(sup, cur, i + 1)
            },
            _ => false,
        }
    }
}

/// Trim whitespace from both ends, executably.
fn trim_exec(s: &str) -> (r: &str)
    ensures
        r@ == trim_ws(s@),
{
    let n = s.unicode_len();
    let mut a: usize = 0;
    while a < n && is_ws_exec(s.get_char(a))
        invariant
            a <= n,
            n == s@.len(),
            crate::loc::ws_end(s@, 0) == crate::loc::ws_end(s@, a as int),
        decreases n - a,
    {
        a = a + 1;
    }
    let mut b: usize = n;
    proof {
        assert(s@.take(n as int) =~= s@);
    }
    while b > 0 && is_ws_exec(s.get_char(b - 1))
        invariant
            b <= n,
            n == s@.len(),
            last_non_ws(s@) == last_non_ws(s@.take(b as int)),
            forall|x: int| b <= x < n ==> is_ws(s@[x]),
        decreases b,
    {
        proof {
            assert(s@.take(b as int).drop_last() =~= s@.take(b - 1));
        }
        b = b - 1;
    }
    proof {
        if b > 0 {
            assert(s@.take(b as int).last() == s@[b - 1]);
            assert(last_non_ws(s@.take(b as int)) == b - 1);
        } else {
            assert(s@.take(0) =~= Seq::<char>::empty());
        }
        lemma_ws_end_bounds(s@, 0);
    }
    if a < b {
        let r = s.substring_char(a, b);
        proof {
            assert(r@ =~= trim_ws(s@));
        }
        r
    } else {
        let r = s.substring_char(0, 0);
        proof {
            assert(r@ =~= Seq::<char>::empty());
            assert(trim_ws(s@) =~= Seq::<char>::empty());
        }
        r
    }
}

/// The whitespace scan stays within bounds.
proof fn lemma_ws_end_bounds(s: Seq<char>, i: int)
    requires
        0 <= i <= s.len(),
    ensures
        i <= crate::loc::ws_end(s, i) <= s.len(),
    decreases s.len() - i,
{
    if i < s.len() && is_ws(s[i]) {
        lemma_ws_end_bounds(s, i + 1);
    }
}

/// Split at dots, executably.
fn split_dots_exec(s: &str) -> (r: Vec<String>)
    ensures
        r.deep_view() == split_dots(s@),
{
    let n = s.unicode_len();
    let mut out: Vec<String> = Vec::new();
    let mut pos: usize = 0;
    proof {
        assert(s@.subrange(0, n as int) =~= s@);
        assert(out.deep_view() =~= Seq::<Seq<char>>::empty());
        assert(out.deep_view() + split_dots(s@.subrange(0, n as int)) =~= split_dots(s@));
    }
    loop
        invariant_except_break
            split_dots(s@) == out.deep_view() + split_dots(s@.subrange(pos as int, n as int)),
        invariant
            pos <= n,
            n == s@.len(),
        ensures
            out.deep_view() == split_dots(s@),
        decreases n - pos,
    {
        let ghost rest = s@.subrange(pos as int, n as int);
        // find the next dot
        let mut q = pos;
        while q < n && s.get_char(q) != '.'
            invariant
                pos <= q <= n,
                n == s@.len(),
                forall|x: int| pos <= x < q ==> s@[x] != '.',
            decreases n - q,
        {
            q = q + 1;
        }
        proof {
            lemma_dot_at_char(rest, 0, q - pos as int);
            assert forall|x: int| 0 <= x < q - pos implies rest[x] != '.' by {
                assert(rest[x] == s@[pos + x]);
            }
            if q < n {
                assert(rest[q - pos as int] == s@[q as int]);
            }
            lemma_dot_at_char(rest, 0, q - pos as int);
        }
        let piece = s.substring_char(pos, q).to_owned();
        let ghost prev = out.deep_view();
        out.push(piece);
        proof {
            assert(out.deep_view() =~= prev.push(s@.subrange(pos as int, q as int)));
            assert(rest.subrange(0, q - pos as int) =~= s@.subrange(pos as int, q as int));
            if q < n {
                assert(rest.subrange(q - pos + 1, rest.len() as int) =~= s@.subrange(
                    q + 1,
                    n as int,
                ));
                assert(split_dots(rest) == seq![rest.subrange(0, q - pos as int)] + split_dots(
                    s@.subrange(q + 1, n as int),
                ));
                assert(out.deep_view() + split_dots(s@.subrange(q + 1, n as int)) =~= prev
                    + split_dots(rest));
            } else {
                assert(rest.subrange(0, q - pos as int) =~= rest);
                assert(split_dots(rest) == seq![rest]);
                assert(out.deep_view() =~= prev + split_dots(rest));
                assert(out.deep_view() =~= split_dots(s@));
            }
        }
        if q < n {
            pos = q + 1;
        } else {
            break ;
        }
    }
    out
}

/// The first dot is where the scan stopped.
proof fn lemma_dot_at_char(s: Seq<char>, i: int, q: int)
    requires
        0 <= i <= q <= s.len(),
        forall|x: int| i <= x < q ==> s[x] != '.',
        q < s.len() ==> s[q] == '.',
    ensures
        dot_at(s, i) == q,
    decreases q - i,
{
    if i < q {
        lemma_dot_at_char(s, i + 1, q);
    }
}

} // verus!
