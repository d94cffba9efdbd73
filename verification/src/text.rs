//! Small verified text operations the parser is built from: trimming,
//! the `<>` placeholder for a literal space, locating the first space of
//! a label fragment, and rendering a number in decimal for subscripts.

use crate::sanitize::is_wspace;
use crate::tokens::{drop_leading_ws, drop_trailing_ws, trim_spec};
use vstd::prelude::*;

verus! {

/// Trim surrounding whitespace from `s`.
pub fn trim_str(s: &str) -> (r: String)
    ensures
        r@ == trim_spec(s@),
{
    let n = s.unicode_len();
    proof {
        assert(s@.skip(0) =~= s@);
    }
    let mut a: usize = 0;
    while a < n && wspace_at(s, a)
        invariant
            n == s@.len(),
            a <= n,
            drop_leading_ws(s@) == drop_leading_ws(s@.skip(a as int)),
        decreases n - a,
    {
        proof {
            assert(s@.skip(a as int).drop_first() =~= s@.skip(a as int + 1));
        }
        a += 1;
    }
    proof {
        if a == n {
            assert(s@.skip(a as int) =~= Seq::<char>::empty());
        }
        assert(drop_leading_ws(s@) == s@.skip(a as int));
    }
    let mut b: usize = n;
    while b > a && wspace_at(s, b - 1)
        invariant
            n == s@.len(),
            a <= b <= n,
            drop_leading_ws(s@) == s@.skip(a as int),
            drop_trailing_ws(s@.skip(a as int)) == drop_trailing_ws(s@.subrange(a as int, b as int)),
        decreases b,
    {
        proof {
            assert(s@.skip(a as int) =~= s@.subrange(a as int, n as int));
            assert(s@.subrange(a as int, b as int).drop_last() =~= s@.subrange(
                a as int,
                b as int - 1,
            ));
        }
        b -= 1;
    }
    proof {
        assert(s@.skip(a as int) =~= s@.subrange(a as int, n as int));
        if b == a {
            assert(s@.subrange(a as int, b as int) =~= Seq::<char>::empty());
        }
        assert(trim_spec(s@) == s@.subrange(a as int, b as int));
    }
    s.substring_char(a, b).to_owned()
}

fn wspace_at(s: &str, i: usize) -> (r: bool)
    requires
        i < s@.len(),
    ensures
        r == is_wspace(s@[i as int]),
{
    crate::sanitize::wspace(s.get_char(i))
}

/// The suffix of `s` from `i` on, with each `<>` placeholder replaced by
/// one literal space, left to right and without overlap.
pub open spec fn unescape_spaces_from(s: Seq<char>, i: int) -> Seq<char>
    decreases s.len() - i,
{
    if i < 0 || i >= s.len() {
        Seq::empty()
    } else if s[i] == '<' && i + 1 < s.len() && s[i + 1] == '>' {
        seq![' '] + unescape_spaces_from(s, i + 2)
    } else {
        seq![s[i]] + unescape_spaces_from(s, i + 1)
    }
}

/// Replace each `<>` placeholder in `s` by a literal space.
pub fn unescape_spaces(s: &str) -> (r: String)
    ensures
        r@ == unescape_spaces_from(s@, 0),
{
    let n = s.unicode_len();
    let mut out = String::new();
    let mut i: usize = 0;
    while i < n
        invariant
            n == s@.len(),
            i <= n,
            out@ + unescape_spaces_from(s@, i as int) == unescape_spaces_from(s@, 0),
        decreases n - i,
    {
        let ghost out0 = out@;
        if s.get_char(i) == '<' && i + 1 < n && s.get_char(i + 1) == '>' {
            out.append(" ");
            proof {
                reveal_strlit(" ");
                assert(out@ + unescape_spaces_from(s@, i + 2) =~= out0 + unescape_spaces_from(
                    s@,
                    i as int,
                ));
            }
            i += 2;
        } else {
            let piece = s.substring_char(i, i + 1);
            proof {
                assert(piece@ =~= seq![s@[i as int]]);
            }
            out.append(piece);
            proof {
                assert(out@ + unescape_spaces_from(s@, i + 1) =~= out0 + unescape_spaces_from(
                    s@,
                    i as int,
                ));
            }
            i += 1;
        }
    }
    out
}

/// The index of the first space of `s` at or past `i`, or 0 when there
/// is none. A leading space therefore reads the same as no space at all:
/// the tree builder leans on exactly that.
pub open spec fn first_space_idx(s: Seq<char>, i: int) -> int
    decreases s.len() - i,
{
    if i < 0 || i >= s.len() {
        0
    } else if s[i] == ' ' {
        i
    } else {
        first_space_idx(s, i + 1)
    }
}

/// Locate the first space of `s`, reporting 0 when there is none.
pub fn first_space(s: &str) -> (r: usize)
    ensures
        r as int == first_space_idx(s@, 0),
        r < s@.len() || r == 0,
{
    let n = s.unicode_len();
    let mut i: usize = 0;
    while i < n
        invariant
            n == s@.len(),
            i <= n,
            first_space_idx(s@, 0) == first_space_idx(s@, i as int),
        decreases n - i,
    {
        if s.get_char(i) == ' ' {
            return i;
        }
        i += 1;
    }
    0
}

/// The digit character for `d`; meaningful for `0 <= d <= 9`.
pub open spec fn digit_char(d: int) -> char {
    if d == 0 {
        '0'
    } else if d == 1 {
        '1'
    } else if d == 2 {
        '2'
    } else if d == 3 {
        '3'
    } else if d == 4 {
        '4'
    } else if d == 5 {
        '5'
    } else if d == 6 {
        '6'
    } else if d == 7 {
        '7'
    } else if d == 8 {
        '8'
    } else {
        '9'
    }
}

/// `n` written in decimal, most significant digit first.
pub open spec fn dec_of(n: int) -> Seq<char>
    decreases n,
{
    if n < 10 {
        seq![digit_char(n)]
    } else {
        dec_of(n / 10).push(digit_char(n % 10))
    }
}

/// Append `n` in decimal to `out`.
pub fn push_dec(out: &mut String, n: usize)
    ensures
        final(out)@ == old(out)@ + dec_of(n as int),
    decreases n,
{
    let ghost start = out@;
    if n >= 10 {
        push_dec(out, n / 10);
    }
    let ghost mid = out@;
    let d = n % 10;
    if d == 0 {
        out.append("0");
        proof {
            reveal_strlit("0");
        }
    } else if d == 1 {
        out.append("1");
        proof {
            reveal_strlit("1");
        }
    } else if d == 2 {
        out.append("2");
        proof {
            reveal_strlit("2");
        }
    } else if d == 3 {
        out.append("3");
        proof {
            reveal_strlit("3");
        }
    } else if d == 4 {
        out.append("4");
        proof {
            reveal_strlit("4");
        }
    } else if d == 5 {
        out.append("5");
        proof {
            reveal_strlit("5");
        }
    } else if d == 6 {
        out.append("6");
        proof {
            reveal_strlit("6");
        }
    } else if d == 7 {
        out.append("7");
        proof {
            reveal_strlit("7");
        }
    } else if d == 8 {
        out.append("8");
        proof {
            reveal_strlit("8");
        }
    } else {
        out.append("9");
        proof {
            reveal_strlit("9");
        }
    }
    proof {
        assert(out@ =~= mid + seq![digit_char(d as int)]);
        if n >= 10 {
            assert(out@ =~= start + dec_of(n as int));
        } else {
            assert(out@ =~= start + dec_of(n as int));
        }
    }
}

/// Every character of a decimal rendering is a digit, never an
/// underscore.
pub proof fn lemma_dec_no_underscore(n: int)
    requires
        0 <= n,
    ensures
        forall|i: int| 0 <= i < dec_of(n).len() ==> dec_of(n)[i] != '_',
    decreases n,
{
    if n >= 10 {
        lemma_dec_no_underscore(n / 10);
        assert forall|i: int| 0 <= i < dec_of(n).len() implies dec_of(n)[i] != '_' by {
            if i < dec_of(n).len() - 1 {
                assert(dec_of(n)[i] == dec_of(n / 10)[i]);
            } else {
                assert(dec_of(n)[i] == digit_char(n % 10));
            }
        }
    }
}

/// A decimal rendering is never empty.
pub proof fn lemma_dec_len(n: int)
    ensures
        dec_of(n).len() >= 1,
    decreases n,
{
    if n >= 10 {
        lemma_dec_len(n / 10);
    }
}

/// Decimal rendering tells distinct numbers apart.
pub proof fn lemma_dec_injective(a: int, b: int)
    requires
        0 <= a,
        0 <= b,
        dec_of(a) == dec_of(b),
    ensures
        a == b,
    decreases a + b,
{
    if a < 10 && b < 10 {
        assert(dec_of(a)[0] == digit_char(a));
        assert(dec_of(b)[0] == digit_char(b));
    } else if a < 10 {
        lemma_dec_len(b / 10);
        assert(dec_of(b).len() >= 2);
    } else if b < 10 {
        lemma_dec_len(a / 10);
        assert(dec_of(a).len() >= 2);
    } else {
        assert(dec_of(a).last() == digit_char(a % 10));
        assert(dec_of(b).last() == digit_char(b % 10));
        assert(a % 10 == b % 10);
        assert(dec_of(a).drop_last() =~= dec_of(a / 10));
        assert(dec_of(b).drop_last() =~= dec_of(b / 10));
        lemma_dec_injective(a / 10, b / 10);
    }
}

} // verus!
