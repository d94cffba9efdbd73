//! Mathematical model of the tokenizer.
//!
//! A token is one grammatical unit: a bracket-opening label fragment, a
//! bare leaf word, or a standalone closing bracket. The scan walks the
//! input character by character, honoring a backslash escape for literal
//! brackets; an unescaped opening bracket met after the first scanned
//! character is a lookahead boundary left for the next call, and an
//! unescaped closing bracket always ends the token.

use crate::sanitize::is_wspace;
use vstd::prelude::*;

verus! {

/// One step short of `s`'s end, counted from `p` plus `cnt` consumed
/// characters: the raw token accumulated so far together with the final
/// count of consumed characters.
///
/// `tok` is the token buffer, `esc` the pending-escape flag. The rules,
/// per character: an escaped bracket is a literal content character; an
/// unescaped `[` begins the token when nothing was consumed yet and is
/// otherwise a boundary that stays unconsumed by the token; an unescaped
/// `]` joins the token only as its sole character and always ends the
/// scan; a backslash sets the escape flag and is never emitted; a line
/// break is skipped; anything else joins the token and clears a pending
/// escape.
pub open spec fn token_scan(s: Seq<char>, p: int, cnt: int, tok: Seq<char>, esc: bool) -> (
    Seq<char>,
    int,
)
    decreases s.len() - (p + cnt),
{
    if p + cnt < 0 || p + cnt >= s.len() {
        (tok, cnt)
    } else {
        let c = s[p + cnt];
        if c == '[' {
            if esc {
                token_scan(s, p, cnt + 1, tok.push(c), false)
            } else if cnt > 0 {
                (tok, cnt + 1)
            } else {
                token_scan(s, p, cnt + 1, tok.push(c), false)
            }
        } else if c == ']' {
            if esc {
                token_scan(s, p, cnt + 1, tok.push(c), false)
            } else if cnt == 0 {
                (tok.push(c), cnt + 1)
            } else {
                (tok, cnt + 1)
            }
        } else if c == '\\' {
            token_scan(s, p, cnt + 1, tok, true)
        } else if c == '\n' || c == '\r' {
            token_scan(s, p, cnt + 1, tok, esc)
        } else {
            token_scan(s, p, cnt + 1, tok.push(c), false)
        }
    }
}

/// `s` without its leading whitespace.
pub open spec fn drop_leading_ws(s: Seq<char>) -> Seq<char>
    decreases s.len(),
{
    if s.len() > 0 && is_wspace(s[0]) {
        drop_leading_ws(s.drop_first())
    } else {
        s
    }
}

/// `s` without its trailing whitespace.
pub open spec fn drop_trailing_ws(s: Seq<char>) -> Seq<char>
    decreases s.len(),
{
    if s.len() > 0 && is_wspace(s.last()) {
        drop_trailing_ws(s.drop_last())
    } else {
        s
    }
}

/// `s` without leading and trailing whitespace.
pub open spec fn trim_spec(s: Seq<char>) -> Seq<char> {
    drop_trailing_ws(drop_leading_ws(s))
}

/// What one tokenizer call yields on `s` at cursor `pos`: the trimmed
/// token and the new cursor. Within one position of the end, the cursor
/// stands still and the token is empty; otherwise the cursor advances by
/// the consumed count less the unconsumed boundary character, and by one
/// at least.
pub open spec fn next_token_spec(s: Seq<char>, pos: int) -> (Seq<char>, int) {
    if pos + 1 >= s.len() {
        (Seq::empty(), pos)
    } else {
        let (raw, cnt) = token_scan(s, pos, 0, Seq::empty(), false);
        let adv: int = if cnt > 1 {
            cnt - 1
        } else {
            1
        };
        (trim_spec(raw), pos + adv)
    }
}

/// The count of consumed characters leaves the cursor inside the text:
/// it stays above the characters scanned so far and never passes the end.
pub proof fn lemma_token_scan_cnt(s: Seq<char>, p: int, cnt: int, tok: Seq<char>, esc: bool)
    requires
        0 <= p,
        0 <= cnt,
        p + cnt <= s.len(),
    ensures
        cnt <= token_scan(s, p, cnt, tok, esc).1,
        p + token_scan(s, p, cnt, tok, esc).1 <= s.len() + 1,
        p + cnt < s.len() ==> p + token_scan(s, p, cnt, tok, esc).1 <= s.len(),
    decreases s.len() - (p + cnt),
{
    if p + cnt < s.len() {
        let c = s[p + cnt];
        if c == '[' {
            if esc {
                lemma_token_scan_cnt(s, p, cnt + 1, tok.push(c), false);
            } else if cnt > 0 {
            } else {
                lemma_token_scan_cnt(s, p, cnt + 1, tok.push(c), false);
            }
        } else if c == ']' {
            if esc {
                lemma_token_scan_cnt(s, p, cnt + 1, tok.push(c), false);
            }
        } else if c == '\\' {
            lemma_token_scan_cnt(s, p, cnt + 1, tok, true);
        } else if c == '\n' || c == '\r' {
            lemma_token_scan_cnt(s, p, cnt + 1, tok, esc);
        } else {
            lemma_token_scan_cnt(s, p, cnt + 1, tok.push(c), false);
        }
    }
}

/// One tokenizer call keeps the cursor inside the text and, away from
/// the end guard, advances it by at least one position.
pub proof fn lemma_next_token_advances(s: Seq<char>, pos: int)
    requires
        0 <= pos <= s.len(),
    ensures
        pos <= next_token_spec(s, pos).1,
        next_token_spec(s, pos).1 <= s.len(),
        pos + 1 < s.len() ==> pos < next_token_spec(s, pos).1 < s.len(),
{
    if pos + 1 < s.len() {
        lemma_token_scan_cnt(s, pos, 0, Seq::empty(), false);
    }
}

/// The stream of tokens drawn from `s` starting at cursor `pos`: each
/// call's trimmed token in order, ending once the cursor reaches the
/// tokenizer's end guard. Empty trimmed tokens mid-stream are kept: the
/// tree builder reads them as the end of one nesting frame.
pub open spec fn token_list(s: Seq<char>, pos: int) -> Seq<Seq<char>>
    decreases s.len() - pos,
    when 0 <= pos
{
    if pos + 1 >= s.len() {
        Seq::empty()
    } else {
        let (tok, npos) = next_token_spec(s, pos);
        if npos <= pos || npos > s.len() {
            Seq::empty()
        } else {
            seq![tok] + token_list(s, npos)
        }
    }
}

/// The token buffer grows by at most one character per consumed
/// character.
pub proof fn lemma_token_scan_tok_len(s: Seq<char>, p: int, cnt: int, tok: Seq<char>, esc: bool)
    requires
        0 <= p,
        0 <= cnt,
        p + cnt <= s.len(),
    ensures
        token_scan(s, p, cnt, tok, esc).0.len() - tok.len() <= token_scan(s, p, cnt, tok, esc).1
            - cnt,
    decreases s.len() - (p + cnt),
{
    if p + cnt < s.len() {
        let c = s[p + cnt];
        if c == '[' {
            if esc {
                lemma_token_scan_tok_len(s, p, cnt + 1, tok.push(c), false);
            } else if cnt > 0 {
            } else {
                lemma_token_scan_tok_len(s, p, cnt + 1, tok.push(c), false);
            }
        } else if c == ']' {
            if esc {
                lemma_token_scan_tok_len(s, p, cnt + 1, tok.push(c), false);
            }
        } else if c == '\\' {
            lemma_token_scan_tok_len(s, p, cnt + 1, tok, true);
        } else if c == '\n' || c == '\r' {
            lemma_token_scan_tok_len(s, p, cnt + 1, tok, esc);
        } else {
            lemma_token_scan_tok_len(s, p, cnt + 1, tok.push(c), false);
        }
    }
}

/// Trimming never lengthens a token.
pub proof fn lemma_drop_leading_ws_len(s: Seq<char>)
    ensures
        drop_leading_ws(s).len() <= s.len(),
    decreases s.len(),
{
    if s.len() > 0 && is_wspace(s[0]) {
        lemma_drop_leading_ws_len(s.drop_first());
    }
}

/// Trimming never lengthens a token.
pub proof fn lemma_drop_trailing_ws_len(s: Seq<char>)
    ensures
        drop_trailing_ws(s).len() <= s.len(),
    decreases s.len(),
{
    if s.len() > 0 && is_wspace(s.last()) {
        lemma_drop_trailing_ws_len(s.drop_last());
    }
}

/// Trimming never lengthens a token.
pub proof fn lemma_trim_len(s: Seq<char>)
    ensures
        trim_spec(s).len() <= s.len(),
{
    lemma_drop_leading_ws_len(s);
    lemma_drop_trailing_ws_len(drop_leading_ws(s));
}

/// A trimmed token at least two characters long was scanned from at
/// least three consumed characters, so the cursor advanced by at least
/// the token's length less one.
pub proof fn lemma_next_token_long_advance(s: Seq<char>, pos: int)
    requires
        0 <= pos,
        pos + 1 < s.len(),
    ensures
        next_token_spec(s, pos).1 - pos >= next_token_spec(s, pos).0.len() - 1,
{
    let (raw, cnt) = token_scan(s, pos, 0, Seq::empty(), false);
    lemma_token_scan_cnt(s, pos, 0, Seq::empty(), false);
    lemma_token_scan_tok_len(s, pos, 0, Seq::empty(), false);
    lemma_trim_len(raw);
}

/// One step of the token stream: away from the end guard, the stream
/// opens with the next call's token, followed by the stream from the
/// advanced cursor.
pub proof fn lemma_token_list_step(s: Seq<char>, pos: int)
    requires
        0 <= pos,
        pos + 1 < s.len(),
    ensures
        pos < next_token_spec(s, pos).1 < s.len(),
        token_list(s, pos) == seq![next_token_spec(s, pos).0] + token_list(
            s,
            next_token_spec(s, pos).1,
        ),
{
    lemma_next_token_advances(s, pos);
}

/// Escaping keeps brackets literal: a backslash before an opening or a
/// closing bracket makes the bracket a plain content character of the
/// token in hand — it neither opens a lookahead boundary nor ends the
/// token, and the scan walks on past it.
pub proof fn lemma_escaped_bracket_literal(s: Seq<char>, p: int, cnt: int, tok: Seq<char>)
    requires
        0 <= p,
        0 <= cnt,
        p + cnt + 1 < s.len(),
        s[p + cnt] == '\\',
        s[p + cnt + 1] == '[' || s[p + cnt + 1] == ']',
    ensures
        token_scan(s, p, cnt, tok, false) == token_scan(
            s,
            p,
            cnt + 2,
            tok.push(s[p + cnt + 1]),
            false,
        ),
{
    assert(token_scan(s, p, cnt, tok, false) == token_scan(s, p, cnt + 1, tok, true));
    assert(token_scan(s, p, cnt + 1, tok, true) == token_scan(
        s,
        p,
        cnt + 2,
        tok.push(s[p + cnt + 1]),
        false,
    ));
}

} // verus!
