//! Input validation and normalization.
//!
//! Raw text is accepted only when it holds at least one balanced bracket
//! group and no bracket pair enclosing nothing but whitespace. Accepted
//! text is then normalized: tabs are stripped, whitespace runs collapse to
//! a single space, and the space left standing before an opening bracket
//! is removed.

use vstd::prelude::*;

verus! {

/// The whitespace characters recognized by this crate: space, tab, line
/// break, carriage return, vertical tab and form feed.
pub open spec fn is_wspace(c: char) -> bool {
    c == ' ' || c == '\t' || c == '\n' || c == '\r' || c == '\u{000b}' || c == '\u{000c}'
}

/// Executable twin of [`is_wspace`].
pub fn wspace(c: char) -> (r: bool)
    ensures
        r == is_wspace(c),
{
    c == ' ' || c == '\t' || c == '\n' || c == '\r' || c == '\u{000b}' || c == '\u{000c}'
}

/// The suffix of `s` from `i` on, with every tab removed.
pub open spec fn strip_tabs_from(s: Seq<char>, i: int) -> Seq<char>
    decreases s.len() - i,
{
    if i < 0 || i >= s.len() {
        Seq::empty()
    } else if s[i] == '\t' {
        strip_tabs_from(s, i + 1)
    } else {
        seq![s[i]] + strip_tabs_from(s, i + 1)
    }
}

/// The suffix of `s` from `i` on, with every maximal run of whitespace
/// replaced by one space; `prev_ws` records whether position `i` is
/// preceded by whitespace already covered by an emitted space.
pub open spec fn collapse_from(s: Seq<char>, i: int, prev_ws: bool) -> Seq<char>
    decreases s.len() - i,
{
    if i < 0 || i >= s.len() {
        Seq::empty()
    } else if is_wspace(s[i]) {
        if prev_ws {
            collapse_from(s, i + 1, true)
        } else {
            seq![' '] + collapse_from(s, i + 1, true)
        }
    } else {
        seq![s[i]] + collapse_from(s, i + 1, false)
    }
}

/// The suffix of `s` from `i` on, with every space standing directly
/// before an opening bracket removed.
pub open spec fn drop_space_open_from(s: Seq<char>, i: int) -> Seq<char>
    decreases s.len() - i,
{
    if i < 0 || i >= s.len() {
        Seq::empty()
    } else if s[i] == ' ' && i + 1 < s.len() && s[i + 1] == '[' {
        drop_space_open_from(s, i + 1)
    } else {
        seq![s[i]] + drop_space_open_from(s, i + 1)
    }
}

/// The full normalization pipeline, in order: strip tabs, collapse
/// whitespace runs, drop the space before an opening bracket.
pub open spec fn sanitize_spec(s: Seq<char>) -> Seq<char> {
    drop_space_open_from(collapse_from(strip_tabs_from(s, 0), 0, false), 0)
}

fn strip_tabs(s: &str) -> (r: String)
    ensures
        r@ == strip_tabs_from(s@, 0),
{
    let n = s.unicode_len();
    let mut out = String::new();
    let mut i: usize = 0;
    while i < n
        invariant
            n == s@.len(),
            i <= n,
            out@ + strip_tabs_from(s@, i as int) == strip_tabs_from(s@, 0),
        decreases n - i,
    {
        let c = s.get_char(i);
        if c != '\t' {
            let ghost out0 = out@;
            let piece = s.substring_char(i, i + 1);
            proof {
                assert(piece@ =~= seq![s@[i as int]]);
            }
            out.append(piece);
            proof {
                assert(out@ + strip_tabs_from(s@, i + 1) =~= out0 + strip_tabs_from(s@, i as int));
            }
        }
        i += 1;
    }
    out
}

fn collapse_ws(s: &str) -> (r: String)
    ensures
        r@ == collapse_from(s@, 0, false),
{
    let n = s.unicode_len();
    let mut out = String::new();
    let mut prev_ws = false;
    let mut i: usize = 0;
    while i < n
        invariant
            n == s@.len(),
            i <= n,
            out@ + collapse_from(s@, i as int, prev_ws) == collapse_from(s@, 0, false),
        decreases n - i,
    {
        let c = s.get_char(i);
        let ghost out0 = out@;
        if wspace(c) {
            if !prev_ws {
                out.append(" ");
                proof {
                    reveal_strlit(" ");
                    assert(out@ + collapse_from(s@, i + 1, true) =~= out0 + collapse_from(
                        s@,
                        i as int,
                        false,
                    ));
                }
            }
            prev_ws = true;
        } else {
            let piece = s.substring_char(i, i + 1);
            proof {
                assert(piece@ =~= seq![s@[i as int]]);
            }
            out.append(piece);
            proof {
                assert(out@ + collapse_from(s@, i + 1, false) =~= out0 + collapse_from(
                    s@,
                    i as int,
                    prev_ws,
                ));
            }
            prev_ws = false;
        }
        i += 1;
    }
    out
}

fn drop_space_open(s: &str) -> (r: String)
    ensures
        r@ == drop_space_open_from(s@, 0),
{
    let n = s.unicode_len();
    let mut out = String::new();
    let mut i: usize = 0;
    while i < n
        invariant
            n == s@.len(),
            i <= n,
            out@ + drop_space_open_from(s@, i as int) == drop_space_open_from(s@, 0),
        decreases n - i,
    {
        let c = s.get_char(i);
        let dropped = c == ' ' && i + 1 < n && s.get_char(i + 1) == '[';
        if !dropped {
            let ghost out0 = out@;
            let piece = s.substring_char(i, i + 1);
            proof {
                assert(piece@ =~= seq![s@[i as int]]);
            }
            out.append(piece);
            proof {
                assert(out@ + drop_space_open_from(s@, i + 1) =~= out0 + drop_space_open_from(
                    s@,
                    i as int,
                ));
            }
        }
        i += 1;
    }
    out
}

/// Normalize accepted input text.
pub fn sanitize(s: &str) -> (r: String)
    ensures
        r@ == sanitize_spec(s@),
{
    let a = strip_tabs(s);
    let b = collapse_ws(a.as_str());
    drop_space_open(b.as_str())
}

/// Positions `i < j` delimit a bracket pair in `s` whose interior is
/// nothing but whitespace.
pub open spec fn empty_pair_at(s: Seq<char>, i: int, j: int) -> bool {
    &&& 0 <= i < j < s.len()
    &&& s[i] == '['
    &&& s[j] == ']'
    &&& forall|k: int| i < k < j ==> is_wspace(s[k])
}

/// Somewhere in `s` a bracket pair encloses nothing but whitespace.
pub open spec fn has_empty_pair(s: Seq<char>) -> bool {
    exists|i: int, j: int| empty_pair_at(s, i, j)
}

/// Scanning `s` from `i` with `depth` open brackets behind the cursor:
/// holds when a closing bracket is reached with at least one bracket
/// open, that is, when `s` holds a balanced bracket group.
pub open spec fn group_scan(s: Seq<char>, i: int, depth: int) -> bool
    decreases s.len() - i,
{
    if i < 0 || i >= s.len() {
        false
    } else if s[i] == ']' && depth > 0 {
        true
    } else {
        group_scan(
            s,
            i + 1,
            if s[i] == '[' {
                depth + 1
            } else {
                depth
            },
        )
    }
}

/// Text the parser accepts: non-empty, holding a balanced bracket group,
/// and holding no bracket pair that encloses nothing but whitespace.
pub open spec fn valid_input(s: Seq<char>) -> bool {
    s.len() >= 1 && group_scan(s, 0, 0) && !has_empty_pair(s)
}

fn contains_group(s: &str) -> (r: bool)
    ensures
        r == group_scan(s@, 0, 0),
{
    let n = s.unicode_len();
    let mut depth: usize = 0;
    let mut i: usize = 0;
    while i < n
        invariant
            n == s@.len(),
            i <= n,
            depth <= i,
            group_scan(s@, 0, 0) == group_scan(s@, i as int, depth as int),
        decreases n - i,
    {
        let c = s.get_char(i);
        if c == ']' && depth > 0 {
            return true;
        }
        if c == '[' {
            depth += 1;
        }
        i += 1;
    }
    false
}

fn find_empty_pair(s: &str) -> (r: bool)
    ensures
        r == has_empty_pair(s@),
{
    let n = s.unicode_len();
    let mut i: usize = 0;
    while i < n
        invariant
            n == s@.len(),
            i <= n,
            forall|a: int, b: int| a < i ==> !empty_pair_at(s@, a, b),
        decreases n - i,
    {
        if s.get_char(i) == '[' {
            let mut j: usize = i + 1;
            while j < n && wspace(s.get_char(j))
                invariant
                    n == s@.len(),
                    i < j <= n,
                    forall|k: int| i < k < j ==> is_wspace(s@[k]),
                decreases n - j,
            {
                j += 1;
            }
            if j < n && s.get_char(j) == ']' {
                proof {
                    assert(empty_pair_at(s@, i as int, j as int));
                }
                return true;
            }
            proof {
                assert forall|b: int| !empty_pair_at(s@, i as int, b) by {
                    if empty_pair_at(s@, i as int, b) {
                        if b < j {
                            assert(is_wspace(s@[b]));
                        } else if b == j {
                            assert(j < n);
                        } else {
                            assert(is_wspace(s@[j as int]));
                        }
                    }
                }
            }
        } else {
            proof {
                assert forall|b: int| !empty_pair_at(s@, i as int, b) by {
                    if empty_pair_at(s@, i as int, b) {
                        assert(s@[i as int] == '[');
                    }
                }
            }
        }
        i += 1;
    }
    false
}

/// Decide whether raw text is acceptable to the parser.
pub fn is_valid(data: &str) -> (r: bool)
    ensures
        r == valid_input(data@),
{
    let n = data.unicode_len();
    if n < 1 {
        return false;
    }
    contains_group(data) && !find_empty_pair(data)
}

proof fn lemma_ws_no_group(s: Seq<char>, i: int, depth: int)
    requires
        forall|k: int| 0 <= k < s.len() ==> is_wspace(s[k]),
    ensures
        !group_scan(s, i, depth),
    decreases s.len() - i,
{
    if 0 <= i < s.len() {
        assert(is_wspace(s[i]));
        lemma_ws_no_group(s, i + 1, depth);
    }
}

/// Validation rejection: the empty string, a string of nothing but
/// whitespace, and a bracket pair enclosing only a space are all refused.
pub proof fn lemma_validation_rejects(s: Seq<char>)
    ensures
        s.len() == 0 ==> !valid_input(s),
        (forall|k: int| 0 <= k < s.len() ==> is_wspace(s[k])) ==> !valid_input(s),
        s == seq!['[', ' ', ']'] ==> !valid_input(s),
{
    if forall|k: int| 0 <= k < s.len() ==> is_wspace(s[k]) {
        lemma_ws_no_group(s, 0, 0);
    }
    if s == seq!['[', ' ', ']'] {
        assert(empty_pair_at(s, 0, 2));
    }
}

} // verus!
