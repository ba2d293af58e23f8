//! Lexical helpers: insignificant whitespace and comments, identifiers,
//! digit runs and quoted string literals, all over the input's bytes.

use vstd::prelude::*;

verus! {

pub open spec fn is_space(b: u8) -> bool {
    b == 0x20 || b == 0x09 || b == 0x0a || b == 0x0d
}

pub open spec fn is_digit(b: u8) -> bool {
    0x30 <= b <= 0x39
}

pub open spec fn is_ident_start(b: u8) -> bool {
    (0x61 <= b <= 0x7a) || (0x41 <= b <= 0x5a) || b == 0x5f
}

pub open spec fn is_ident_char(b: u8) -> bool {
    is_ident_start(b) || is_digit(b)
}

pub open spec fn is_quote(b: u8) -> bool {
    b == 0x27 || b == 0x22
}

/// How many bytes of whitespace and `#` line comments start at `i`.
pub open spec fn ignorable_len(s: Seq<u8>, i: int) -> nat
    decreases s.len() - i, 0int,
{
    if 0 <= i < s.len() {
        if is_space(s[i]) {
            1 + ignorable_len(s, i + 1)
        } else if s[i] == 0x23 {
            1 + comment_len(s, i + 1)
        } else {
            0
        }
    } else {
        0
    }
}

/// Inside a comment: the bytes up to the end of the line, then whatever is
/// ignorable after it.
pub open spec fn comment_len(s: Seq<u8>, i: int) -> nat
    decreases s.len() - i, 1int,
{
    if 0 <= i < s.len() && s[i] != 0x0a {
        1 + comment_len(s, i + 1)
    } else {
        ignorable_len(s, i)
    }
}

/// The first offset at or after `i` that is not whitespace or comment.
pub open spec fn skip_ws(s: Seq<u8>, i: int) -> int {
    i + ignorable_len(s, i)
}

/// Length of the run of identifier characters starting at `i`.
pub open spec fn ident_run(s: Seq<u8>, i: int) -> nat
    decreases s.len() - i,
{
    if 0 <= i < s.len() && is_ident_char(s[i]) {
        1 + ident_run(s, i + 1)
    } else {
        0
    }
}

/// Length of the run of decimal digits starting at `i`.
pub open spec fn digit_run(s: Seq<u8>, i: int) -> nat
    decreases s.len() - i,
{
    if 0 <= i < s.len() && is_digit(s[i]) {
        1 + digit_run(s, i + 1)
    } else {
        0
    }
}

/// Inside a string quoted by `q`, from offset `i`: the offset just past the
/// closing quote and the decoded contents. A backslash takes the next byte
/// literally. `None` when the input ends before the closing quote.
pub open spec fn quoted_rest(s: Seq<u8>, i: int, q: u8) -> Option<(int, Seq<u8>)>
    decreases s.len() - i,
{
    if 0 <= i < s.len() {
        if s[i] == q {
            Some((i + 1, Seq::empty()))
        } else if s[i] == 0x5c {
            if i + 1 < s.len() {
                prefixed(seq![s[i + 1]], quoted_rest(s, i + 2, q))
            } else {
                None
            }
        } else {
            prefixed(seq![s[i]], quoted_rest(s, i + 1, q))
        }
    } else {
        None
    }
}

pub open spec fn prefixed(p: Seq<u8>, r: Option<(int, Seq<u8>)>) -> Option<(int, Seq<u8>)> {
    match r {
        Some((e, d)) => Some((e, p + d)),
        None => None,
    }
}

/// A quoted string literal after optional leading whitespace: the offset after
/// it and the whitespace that follows, the decoded contents, and the range
/// from the opening to the closing quote.
pub open spec fn string_literal(s: Seq<u8>, i: int) -> Option<(int, Seq<u8>, (int, int))> {
    let i0 = skip_ws(s, i);
    if 0 <= i0 < s.len() && is_quote(s[i0]) {
        match quoted_rest(s, i0 + 1, s[i0]) {
            Some((e, d)) => Some((skip_ws(s, e), d, (i0, e))),
            None => None,
        }
    } else {
        None
    }
}

/// The text that a byte string spells.
pub uninterp spec fn utf8_lossy(bytes: Seq<u8>) -> Seq<char>;

/// Relies on `String::from_utf8_lossy`: the text of a byte string, which
/// depends on the bytes alone.
#[verifier::external_body]
pub(crate) fn text_of(bytes: &[u8]) -> (r: String)
    ensures
        r@ == utf8_lossy(bytes@),
{
    String::from_utf8_lossy(bytes).into_owned()
}

/// Skips whitespace and `#` comments from `pos`.
pub fn skip_ignorable(s: &[u8], pos: usize) -> (r: usize)
    requires
        pos <= s@.len(),
    ensures
        r as int == skip_ws(s@, pos as int),
        pos <= r <= s@.len(),
{
    let mut i: usize = pos;
    let mut in_comment = false;
    while i < s.len()
        invariant
            pos <= i <= s@.len(),
            skip_ws(s@, pos as int) == i + (if in_comment {
                comment_len(s@, i as int)
            } else {
                ignorable_len(s@, i as int)
            }),
        decreases s@.len() - i,
    {
        let b = s[i];
        if in_comment {
            if b == 0x0a {
                assert(comment_len(s@, i as int) == ignorable_len(s@, i as int));
                assert(ignorable_len(s@, i as int) == 1 + ignorable_len(s@, i + 1));
                in_comment = false;
            }
            i = i + 1;
        } else if b == 0x20 || b == 0x09 || b == 0x0a || b == 0x0d {
            i = i + 1;
        } else if b == 0x23 {
            in_comment = true;
            i = i + 1;
        } else {
            return i;
        }
    }
    i
}

/// The offset where the run of identifier characters from `pos` ends.
pub fn scan_ident(s: &[u8], pos: usize) -> (r: usize)
    requires
        pos <= s@.len(),
    ensures
        r == pos + ident_run(s@, pos as int),
        r <= s@.len(),
{
    let mut i: usize = pos;
    while i < s.len()
        invariant
            pos <= i <= s@.len(),
            pos + ident_run(s@, pos as int) == i + ident_run(s@, i as int),
        decreases s@.len() - i,
    {
        let b = s[i];
        if (0x61 <= b && b <= 0x7a) || (0x41 <= b && b <= 0x5a) || b == 0x5f || (0x30 <= b
            && b <= 0x39) {
            i = i + 1;
        } else {
            return i;
        }
    }
    i
}

/// The offset where the run of decimal digits from `pos` ends.
pub fn scan_digits(s: &[u8], pos: usize) -> (r: usize)
    requires
        pos <= s@.len(),
    ensures
        r == pos + digit_run(s@, pos as int),
        r <= s@.len(),
{
    let mut i: usize = pos;
    while i < s.len()
        invariant
            pos <= i <= s@.len(),
            pos + digit_run(s@, pos as int) == i + digit_run(s@, i as int),
        decreases s@.len() - i,
    {
        let b = s[i];
        if 0x30 <= b && b <= 0x39 {
            i = i + 1;
        } else {
            return i;
        }
    }
    i
}

/// Reads a quoted string literal after optional whitespace, and the
/// whitespace after it.
pub fn parse_string_literal(s: &[u8], pos: usize) -> (r: Option<(usize, Vec<u8>, (usize, usize))>)
    requires
        pos <= s@.len(),
    ensures
        match (r, string_literal(s@, pos as int)) {
            (Some((e, d, (a, b))), Some((e2, d2, (a2, b2)))) => e == e2 && d@ == d2 && a == a2 && b
                == b2 && e <= s@.len(),
            (None, None) => true,
            _ => false,
        },
{
    let i0 = skip_ignorable(s, pos);
    if i0 >= s.len() {
        return None;
    }
    let q = s[i0];
    if q != 0x27 && q != 0x22 {
        return None;
    }
    let mut acc: Vec<u8> = Vec::new();
    let mut i: usize = i0 + 1;
    proof {
        if let Some((e, d)) = quoted_rest(s@, i0 + 1, q) {
            assert(acc@ + d =~= d);
        }
    }
    while i < s.len()
        invariant
            i0 < i <= s@.len(),
            i0 < s@.len(),
            i0 as int == skip_ws(s@, pos as int),
            q == s@[i0 as int],
            is_quote(q),
            quoted_rest(s@, i0 + 1, q) == prefixed(acc@, quoted_rest(s@, i as int, q)),
        decreases s@.len() - i,
    {
        let b = s[i];
        if b == q {
            assert(acc@ + Seq::<u8>::empty() =~= acc@);
            assert(quoted_rest(s@, i as int, q) == Some((i + 1, Seq::<u8>::empty())));
            let e = skip_ignorable(s, i + 1);
            return Some((e, acc, (i0, i + 1)));
        } else if b == 0x5c {
            if i + 1 >= s.len() {
                return None;
            }
            let c = s[i + 1];
            proof {
                let rest = quoted_rest(s@, i + 2, q);
                if let Some((e, d)) = rest {
                    assert(acc@ + (seq![c] + d) =~= acc@.push(c) + d);
                }
            }
            acc.push(c);
            i = i + 2;
        } else {
            proof {
                let rest = quoted_rest(s@, i + 1, q);
                if let Some((e, d)) = rest {
                    assert(acc@ + (seq![b] + d) =~= acc@.push(b) + d);
                }
            }
            acc.push(b);
            i = i + 1;
        }
    }
    None
}

} // verus!

verus! {

/// After skipping whitespace and comments there is nothing left to skip.
pub proof fn lemma_skip_stops(s: Seq<u8>, i: int)
    ensures
        ignorable_len(s, skip_ws(s, i)) == 0,
    decreases s.len() - i, 0int,
{
    if 0 <= i < s.len() {
        if is_space(s[i]) {
            lemma_skip_stops(s, i + 1);
        } else if s[i] == 0x23 {
            lemma_comment_stops(s, i + 1);
        }
    }
}

/// After the rest of a comment and what follows it there is nothing left to skip.
pub proof fn lemma_comment_stops(s: Seq<u8>, i: int)
    ensures
        ignorable_len(s, i + comment_len(s, i)) == 0,
    decreases s.len() - i, 1int,
{
    if 0 <= i < s.len() && s[i] != 0x0a {
        lemma_comment_stops(s, i + 1);
    } else {
        lemma_skip_stops(s, i);
    }
}

} // verus!
