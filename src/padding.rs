//! Reading an input that has whitespace after it: every production reads the
//! same value with the same locations; an offset that reached the end of the
//! input may instead reach the end of the whitespace.

use vstd::prelude::*;
use crate::lexer::{
    comment_len, digit_run, ident_run, ignorable_len, is_ident_start, is_quote, is_space,
    quoted_rest, skip_ws, string_literal,
};
use crate::lit_expr::{
    array_at, close_array, close_object, done_at, items_after, lit_at, number_text_at, object_at,
    past_comma, path_lit_at, primitive_at, prop_at, props_after, word_at, word_false, word_null,
    word_true, insert_prop, strip, LitV, PropV, Step,
};
use crate::location::ParsedV;
use crate::path::{key_at, path_at, path_tail, var_name_end};
use crate::relocation::{lemma_digit_bound, lemma_ident_bound, lemma_quoted_end};

verus! {

/// `t` is `s` followed by whitespace.
pub open spec fn pads(t: Seq<u8>, s: Seq<u8>) -> bool {
    &&& t.len() >= s.len()
    &&& forall|j: int| 0 <= j < s.len() ==> #[trigger] t[j] == s[j]
    &&& forall|j: int| s.len() <= j < t.len() ==> is_space(#[trigger] t[j])
}

/// An offset of `s` moved to the end of `t` when it is the end of `s`.
pub open spec fn lift(s: Seq<u8>, t: Seq<u8>, x: int) -> int {
    if x == s.len() {
        t.len() as int
    } else {
        x
    }
}

/// Offsets that stand for the same place: equal, or the two ends.
pub open spec fn rel(s: Seq<u8>, t: Seq<u8>, a: int, b: int) -> bool {
    b == a || (a == s.len() && b == t.len())
}

/// Outcomes that agree: the same value at related ends, no match in both, or
/// the same failure.
pub open spec fn rel_step<T>(s: Seq<u8>, t: Seq<u8>, x: Step<T>, y: Step<T>) -> bool {
    match (x, y) {
        (Step::Done(e1, v1), Step::Done(e2, v2)) => v1 == v2 && rel(s, t, e1, e2) && e1 <= s.len(),
        (Step::Miss, Step::Miss) => true,
        (Step::Abort(p), Step::Abort(q)) => p == q,
        _ => false,
    }
}

pub proof fn lemma_tail_ignorable(t: Seq<u8>, s: Seq<u8>, j: int)
    requires
        pads(t, s),
        s.len() <= j <= t.len(),
    ensures
        ignorable_len(t, j) == t.len() - j,
        comment_len(t, j) == t.len() - j,
    decreases t.len() - j,
{
    if j < t.len() {
        assert(is_space(t[j]));
        lemma_tail_ignorable(t, s, j + 1);
    }
}

pub proof fn lemma_skip_pad(t: Seq<u8>, s: Seq<u8>, i: int)
    requires
        pads(t, s),
        0 <= i <= s.len(),
    ensures
        skip_ws(t, i) == lift(s, t, skip_ws(s, i)),
        skip_ws(s, i) <= s.len(),
    decreases s.len() - i, 0int,
{
    if i < s.len() {
        assert(t[i] == s[i]);
        if is_space(s[i]) {
            lemma_skip_pad(t, s, i + 1);
        } else if s[i] == 0x23 {
            lemma_comment_pad(t, s, i + 1);
        }
    } else {
        lemma_tail_ignorable(t, s, i);
    }
}

pub proof fn lemma_comment_pad(t: Seq<u8>, s: Seq<u8>, i: int)
    requires
        pads(t, s),
        0 <= i <= s.len(),
    ensures
        i + comment_len(t, i) == lift(s, t, i + comment_len(s, i)),
        i + comment_len(s, i) <= s.len(),
    decreases s.len() - i, 1int,
{
    if i < s.len() {
        assert(t[i] == s[i]);
        if s[i] != 0x0a {
            lemma_comment_pad(t, s, i + 1);
            assert(comment_len(s, i) == 1 + comment_len(s, i + 1));
            assert(comment_len(t, i) == 1 + comment_len(t, i + 1));
        } else {
            lemma_skip_pad(t, s, i);
            assert(comment_len(s, i) == ignorable_len(s, i));
            assert(comment_len(t, i) == ignorable_len(t, i));
        }
    } else {
        lemma_tail_ignorable(t, s, i);
        assert(comment_len(s, i) == ignorable_len(s, i));
    }
}

pub proof fn lemma_skip_rel(t: Seq<u8>, s: Seq<u8>, a: int, b: int)
    requires
        pads(t, s),
        0 <= a <= s.len(),
        rel(s, t, a, b),
    ensures
        skip_ws(t, b) == lift(s, t, skip_ws(s, a)),
        skip_ws(s, a) <= s.len(),
{
    lemma_skip_pad(t, s, a);
    if b != a {
        lemma_tail_ignorable(t, s, b);
    }
}

pub proof fn lemma_ident_pad(t: Seq<u8>, s: Seq<u8>, i: int)
    requires
        pads(t, s),
        0 <= i <= s.len(),
    ensures
        ident_run(t, i) == ident_run(s, i),
        digit_run(t, i) == digit_run(s, i),
        i + ident_run(s, i) <= s.len(),
        i + digit_run(s, i) <= s.len(),
    decreases s.len() - i,
{
    lemma_ident_bound(s, i);
    lemma_digit_bound(s, i);
    if i < s.len() {
        assert(t[i] == s[i]);
        lemma_ident_pad(t, s, i + 1);
    } else if i < t.len() {
        assert(is_space(t[i]));
    }
}

pub proof fn lemma_quoted_tail(t: Seq<u8>, s: Seq<u8>, j: int, q: u8)
    requires
        pads(t, s),
        s.len() <= j,
        is_quote(q),
    ensures
        quoted_rest(t, j, q) is None,
    decreases t.len() - j,
{
    if j < t.len() {
        assert(is_space(t[j]));
        lemma_quoted_tail(t, s, j + 1, q);
    }
}

pub proof fn lemma_quoted_pad(t: Seq<u8>, s: Seq<u8>, i: int, q: u8)
    requires
        pads(t, s),
        0 <= i <= s.len(),
        is_quote(q),
    ensures
        quoted_rest(t, i, q) == quoted_rest(s, i, q),
        quoted_rest(s, i, q) matches Some((e, _)) ==> e <= s.len(),
    decreases s.len() - i,
{
    if i < s.len() {
        assert(t[i] == s[i]);
        if s[i] == q {
        } else if s[i] == 0x5c {
            if i + 1 < s.len() {
                assert(t[i + 1] == s[i + 1]);
                lemma_quoted_pad(t, s, i + 2, q);
            } else if i + 1 < t.len() {
                lemma_quoted_tail(t, s, i + 2, q);
            }
        } else {
            lemma_quoted_pad(t, s, i + 1, q);
        }
    } else {
        lemma_quoted_tail(t, s, i, q);
    }
}

pub proof fn lemma_string_pad(t: Seq<u8>, s: Seq<u8>, a: int, b: int)
    requires
        pads(t, s),
        0 <= a <= s.len(),
        rel(s, t, a, b),
    ensures
        string_literal(t, b) == match string_literal(s, a) {
            Some((e, c, r)) => Some((lift(s, t, e), c, r)),
            None => None,
        },
        string_literal(s, a) matches Some((e, _, _)) ==> a <= e <= s.len(),
{
    lemma_skip_rel(t, s, a, b);
    let i0 = skip_ws(s, a);
    if i0 < s.len() {
        assert(t[i0] == s[i0]);
        if is_quote(s[i0]) {
            lemma_quoted_pad(t, s, i0 + 1, s[i0]);
            lemma_quoted_end(s, i0 + 1, s[i0]);
            if let Some((e, c)) = quoted_rest(s, i0 + 1, s[i0]) {
                lemma_skip_pad(t, s, e);
            }
        }
    }
}

pub proof fn lemma_key_pad(t: Seq<u8>, s: Seq<u8>, a: int, b: int)
    requires
        pads(t, s),
        0 <= a <= s.len(),
        rel(s, t, a, b),
    ensures
        key_at(t, b) == match key_at(s, a) {
            Some((e, k)) => Some((lift(s, t, e), k)),
            None => None,
        },
        key_at(s, a) matches Some((e, _)) ==> a <= e <= s.len(),
{
    lemma_skip_rel(t, s, a, b);
    lemma_string_pad(t, s, a, b);
    let i0 = skip_ws(s, a);
    if i0 < s.len() {
        assert(t[i0] == s[i0]);
        lemma_ident_pad(t, s, i0);
        let e = i0 + ident_run(s, i0);
        lemma_skip_pad(t, s, e);
        assert(t.subrange(i0, e) =~= s.subrange(i0, e));
    } else if skip_ws(t, b) < t.len() {
        assert(false);
    }
    if let Some((e, c, r)) = string_literal(s, a) {
        lemma_quoted_end(s, i0 + 1, s[i0]);
    }
}

pub proof fn lemma_tail_pad(t: Seq<u8>, s: Seq<u8>, a: int, b: int)
    requires
        pads(t, s),
        0 <= a <= s.len(),
        rel(s, t, a, b),
    ensures
        path_tail(t, b).1 == path_tail(s, a).1,
        rel(s, t, path_tail(s, a).0, path_tail(t, b).0),
        a <= path_tail(s, a).0 <= s.len(),
    decreases s.len() - a,
{
    lemma_skip_rel(t, s, a, b);
    let i0 = skip_ws(s, a);
    if i0 < s.len() {
        assert(t[i0] == s[i0]);
        lemma_key_pad(t, s, i0 + 1, i0 + 1);
        if s[i0] == 0x2e {
            if let Some((e, k)) = key_at(s, i0 + 1) {
                if a < e <= s.len() {
                    lemma_tail_pad(t, s, e, lift(s, t, e));
                }
            }
        }
    }
}

pub proof fn lemma_path_pad(t: Seq<u8>, s: Seq<u8>, a: int, b: int)
    requires
        pads(t, s),
        0 <= a <= s.len(),
        rel(s, t, a, b),
    ensures
        match (path_at(s, a), path_at(t, b)) {
            (Some((e1, pv1)), Some((e2, pv2))) => pv1 == pv2 && rel(s, t, e1, e2) && e1 <= s.len(),
            (None, None) => true,
            _ => false,
        },
{
    lemma_skip_rel(t, s, a, b);
    let i0 = skip_ws(s, a);
    if i0 < s.len() {
        assert(t[i0] == s[i0]);
        if s[i0] == 0x24 {
            if i0 + 1 < s.len() {
                assert(t[i0 + 1] == s[i0 + 1]);
            } else if i0 + 1 < t.len() {
                assert(is_space(t[i0 + 1]));
            }
            lemma_ident_pad(t, s, i0 + 1);
            let n = var_name_end(s, i0 + 1);
            assert(var_name_end(t, i0 + 1) == n);
            assert(t.subrange(i0 + 1, n) =~= s.subrange(i0 + 1, n));
            lemma_tail_pad(t, s, n, n);
        } else if s[i0] == 0x2e {
            lemma_key_pad(t, s, i0 + 1, i0 + 1);
            if let Some((e, k)) = key_at(s, i0 + 1) {
                lemma_tail_pad(t, s, e, lift(s, t, e));
            }
        } else {
            lemma_key_pad(t, s, i0, i0);
            if let Some((e, k)) = key_at(s, i0) {
                lemma_tail_pad(t, s, e, lift(s, t, e));
            }
        }
    }
}

} // verus!

verus! {

pub proof fn lemma_number_pad(t: Seq<u8>, s: Seq<u8>, a: int, b: int)
    requires
        pads(t, s),
        0 <= a <= s.len(),
        rel(s, t, a, b),
    ensures
        match (number_text_at(s, a), number_text_at(t, b)) {
            (Some((e1, x1, l1)), Some((e2, x2, l2))) => x1 == x2 && l1 == l2 && rel(s, t, e1, e2)
                && e1 <= s.len(),
            (None, None) => true,
            _ => false,
        },
{
    lemma_skip_rel(t, s, a, b);
    let i0 = skip_ws(s, a);
    if i0 < s.len() {
        assert(t[i0] == s[i0]);
        lemma_skip_pad(t, s, i0 + 1);
    }
    let neg = 0 <= i0 < s.len() && s[i0] == 0x2d;
    let j = if neg {
        skip_ws(s, i0 + 1)
    } else {
        i0
    };
    if j < s.len() {
        assert(t[j] == s[j]);
        lemma_ident_pad(t, s, j);
        let e = j + digit_run(s, j);
        assert(t.subrange(j, e) =~= s.subrange(j, e));
        lemma_skip_pad(t, s, e);
        let k = skip_ws(s, e);
        if k < s.len() {
            assert(t[k] == s[k]);
            lemma_skip_pad(t, s, k + 1);
            let k2 = skip_ws(s, k + 1);
            lemma_ident_pad(t, s, k2);
            if k2 == s.len() {
                lemma_ident_pad(t, s, k2);
                if t.len() > s.len() {
                    assert(is_space(t[t.len() as int]) || digit_run(t, t.len() as int) == 0);
                }
            }
            let f = k2 + digit_run(s, k2);
            assert(t.subrange(k2, f) =~= s.subrange(k2, f));
        } else if skip_ws(t, e) < t.len() {
            assert(false);
        }
        lemma_skip_pad(t, s, j + 1);
        let m2 = skip_ws(s, j + 1);
        lemma_ident_pad(t, s, m2);
        let g = m2 + digit_run(s, m2);
        assert(t.subrange(m2, g) =~= s.subrange(m2, g));
    }
}

pub proof fn lemma_word_pad(t: Seq<u8>, s: Seq<u8>, a: int, b: int, w: Seq<u8>)
    requires
        pads(t, s),
        0 <= a <= s.len(),
        rel(s, t, a, b),
        w.len() > 0,
        forall|k: int| 0 <= k < w.len() ==> !is_space(#[trigger] w[k]),
    ensures
        word_at(t, b, w) == word_at(s, a, w),
{
    if b == a {
        if a + w.len() <= s.len() {
            assert(t.subrange(a, a + w.len()) =~= s.subrange(a, a + w.len()));
        } else if a + w.len() <= t.len() {
            let k = s.len() - a;
            assert(t.subrange(a, a + w.len())[k] == t[s.len() as int]);
            assert(is_space(t[s.len() as int]));
            assert(!is_space(w[k]));
        }
    } else {
        assert(b == t.len());
    }
}

pub proof fn lemma_words_have_no_spaces()
    ensures
        forall|k: int| 0 <= k < word_true().len() ==> !is_space(#[trigger] word_true()[k]),
        forall|k: int| 0 <= k < word_false().len() ==> !is_space(#[trigger] word_false()[k]),
        forall|k: int| 0 <= k < word_null().len() ==> !is_space(#[trigger] word_null()[k]),
        word_true().len() == 4,
        word_false().len() == 5,
        word_null().len() == 4,
{
}

pub proof fn lemma_done_pad(t: Seq<u8>, s: Seq<u8>, e1: int, e2: int, node: LitV, loc: crate::location::SpanV)
    requires
        pads(t, s),
        0 <= e1 <= s.len(),
        rel(s, t, e1, e2),
    ensures
        rel_step(s, t, done_at(s, e1, node, loc), done_at(t, e2, node, loc)),
{
    lemma_skip_rel(t, s, e1, e2);
}

pub proof fn lemma_primitive_pad(t: Seq<u8>, s: Seq<u8>, a: int, b: int)
    requires
        pads(t, s),
        0 <= a <= s.len(),
        rel(s, t, a, b),
    ensures
        match (primitive_at(s, a), primitive_at(t, b)) {
            (Some(x), Some(y)) => rel_step(s, t, x, y),
            (None, None) => true,
            _ => false,
        },
{
    lemma_string_pad(t, s, a, b);
    lemma_number_pad(t, s, a, b);
    lemma_words_have_no_spaces();
    lemma_word_pad(t, s, a, b, word_true());
    lemma_word_pad(t, s, a, b, word_false());
    lemma_word_pad(t, s, a, b, word_null());
    lemma_skip_rel(t, s, a, b);
    if let Some((e, c, r)) = string_literal(s, a) {
        lemma_done_pad(t, s, e, lift(s, t, e), LitV::String(crate::lexer::utf8_lossy(c)), Some(r));
    } else if let Some((e, text, loc)) = number_text_at(s, a) {
        if let Some((e2, text2, loc2)) = number_text_at(t, b) {
            if let Some(n) = crate::json_number::json_number_of(crate::lexer::utf8_lossy(text)) {
                lemma_done_pad(t, s, e, e2, LitV::Number(n), loc);
            }
        }
    } else {
        if word_at(s, a, word_true()) {
            lemma_done_pad(t, s, a + 4, b + 4, LitV::Bool(true), Some((a, a + 4)));
        } else if word_at(s, a, word_false()) {
            lemma_done_pad(t, s, a + 5, b + 5, LitV::Bool(false), Some((a, a + 5)));
        } else if word_at(s, a, word_null()) {
            lemma_done_pad(t, s, a + 4, b + 4, LitV::Null, Some((a, a + 4)));
        }
    }
}

} // verus!

verus! {

pub proof fn lemma_past_comma_pad(t: Seq<u8>, s: Seq<u8>, a: int, b: int)
    requires
        pads(t, s),
        0 <= a <= s.len(),
        rel(s, t, a, b),
    ensures
        rel(s, t, past_comma(s, a), past_comma(t, b)),
        a <= past_comma(s, a) <= s.len(),
{
    if a < s.len() {
        assert(t[a] == s[a]);
    } else if b < t.len() {
        assert(is_space(t[b]));
    }
}

pub proof fn lemma_close_array_pad(
    t: Seq<u8>,
    s: Seq<u8>,
    a: int,
    b: int,
    items: Seq<ParsedV<LitV>>,
    open: int,
)
    requires
        pads(t, s),
        0 <= a <= s.len(),
        rel(s, t, a, b),
    ensures
        rel_step(s, t, close_array(s, a, items, open), close_array(t, b, items, open)),
{
    lemma_skip_rel(t, s, a, b);
    let c = skip_ws(s, a);
    if c < s.len() {
        assert(t[c] == s[c]);
        lemma_done_pad(t, s, c + 1, c + 1, LitV::Array(items), Some((open, c + 1)));
    }
}

pub proof fn lemma_close_object_pad(
    t: Seq<u8>,
    s: Seq<u8>,
    a: int,
    b: int,
    props: Seq<PropV>,
    open: int,
)
    requires
        pads(t, s),
        0 <= a <= s.len(),
        rel(s, t, a, b),
    ensures
        rel_step(s, t, close_object(s, a, props, open), close_object(t, b, props, open)),
{
    lemma_skip_rel(t, s, a, b);
    let c = skip_ws(s, a);
    if c < s.len() {
        assert(t[c] == s[c]);
        lemma_done_pad(t, s, c + 1, c + 1, LitV::Object(props), Some((open, c + 1)));
    }
}

pub proof fn lemma_lit_pad(t: Seq<u8>, s: Seq<u8>, a: int, b: int)
    requires
        pads(t, s),
        0 <= a <= s.len(),
        rel(s, t, a, b),
    ensures
        rel_step(s, t, lit_at(s, a), lit_at(t, b)),
    decreases s.len() - a, 2int,
{
    lemma_skip_rel(t, s, a, b);
    let i0 = skip_ws(s, a);
    let i1 = skip_ws(t, b);
    lemma_primitive_pad(t, s, i0, i1);
    lemma_object_pad(t, s, a, b);
    lemma_array_pad(t, s, a, b);
    lemma_path_pad(t, s, i0, i1);
    if let Some((e1, pv1)) = path_at(s, i0) {
        if let Some((e2, pv2)) = path_at(t, i1) {
            lemma_path_end_pad(s, i0);
            lemma_done_pad(
                t,
                s,
                e1,
                e2,
                LitV::Path(ParsedV { node: crate::path::PathSelectionV { path: pv1 }, loc: pv1.loc }),
                pv1.loc,
            );
        }
    }
}

pub proof fn lemma_path_end_pad(s: Seq<u8>, i: int)
    requires
        0 <= i,
    ensures
        path_at(s, i) matches Some((e, _)) ==> e >= 0,
{
    crate::relocation::lemma_path_end(s, i);
}

pub proof fn lemma_array_pad(t: Seq<u8>, s: Seq<u8>, a: int, b: int)
    requires
        pads(t, s),
        0 <= a <= s.len(),
        rel(s, t, a, b),
    ensures
        rel_step(s, t, array_at(s, a), array_at(t, b)),
    decreases s.len() - a, 1int,
{
    lemma_skip_rel(t, s, a, b);
    let i0 = skip_ws(s, a);
    if i0 < s.len() {
        assert(t[i0] == s[i0]);
        if s[i0] == 0x5b {
            lemma_lit_pad(t, s, i0 + 1, i0 + 1);
            lemma_close_array_pad(t, s, i0 + 1, i0 + 1, Seq::empty(), i0);
            if let Step::Done(e, first) = lit_at(s, i0 + 1) {
                if let Step::Done(e2, first2) = lit_at(t, i0 + 1) {
                    if i0 < e <= s.len() {
                        lemma_items_pad(t, s, e, e2, seq![first]);
                        if let Step::Done(f1, items) = items_after(s, e, seq![first]) {
                            if let Step::Done(f2, items2) = items_after(t, e2, seq![first]) {
                                lemma_past_comma_pad(t, s, f1, f2);
                                lemma_close_array_pad(
                                    t,
                                    s,
                                    past_comma(s, f1),
                                    past_comma(t, f2),
                                    items,
                                    i0,
                                );
                            }
                        }
                    }
                }
            }
        }
    } else if skip_ws(t, b) < t.len() {
        assert(false);
    }
}

pub proof fn lemma_items_pad(
    t: Seq<u8>,
    s: Seq<u8>,
    a: int,
    b: int,
    acc: Seq<ParsedV<LitV>>,
)
    requires
        pads(t, s),
        0 <= a <= s.len(),
        rel(s, t, a, b),
    ensures
        rel_step(s, t, items_after(s, a, acc), items_after(t, b, acc)),
        items_after(s, a, acc) matches Step::Done(e, _) ==> a <= e,
    decreases s.len() - a, 0int,
{
    if a < s.len() {
        assert(t[a] == s[a]);
        if s[a] == 0x2c {
            lemma_lit_pad(t, s, a + 1, a + 1);
            if let Step::Done(e, v) = lit_at(s, a + 1) {
                if let Step::Done(e2, v2) = lit_at(t, a + 1) {
                    if a < e <= s.len() {
                        lemma_items_pad(t, s, e, e2, acc.push(v));
                    }
                }
            }
        }
    } else if b < t.len() {
        assert(is_space(t[b]));
    }
}

pub proof fn lemma_prop_pad(t: Seq<u8>, s: Seq<u8>, a: int, b: int)
    requires
        pads(t, s),
        0 <= a <= s.len(),
        rel(s, t, a, b),
    ensures
        rel_step(s, t, prop_at(s, a), prop_at(t, b)),
    decreases s.len() - a, 3int,
{
    lemma_key_pad(t, s, a, b);
    if let Some((ke, k)) = key_at(s, a) {
        if ke < s.len() {
            assert(t[ke] == s[ke]);
            if a <= ke && s[ke] == 0x3a {
                lemma_lit_pad(t, s, ke + 1, ke + 1);
            }
        } else if lift(s, t, ke) < t.len() {
            assert(false);
        }
    }
}

pub proof fn lemma_props_pad(t: Seq<u8>, s: Seq<u8>, a: int, b: int, acc: Seq<PropV>)
    requires
        pads(t, s),
        0 <= a <= s.len(),
        rel(s, t, a, b),
    ensures
        rel_step(s, t, props_after(s, a, acc), props_after(t, b, acc)),
        props_after(s, a, acc) matches Step::Done(e, _) ==> a <= e,
    decreases s.len() - a, 0int,
{
    if a < s.len() {
        assert(t[a] == s[a]);
        if s[a] == 0x2c {
            lemma_prop_pad(t, s, a + 1, a + 1);
            if let Step::Done(e, p) = prop_at(s, a + 1) {
                if let Step::Done(e2, pv2) = prop_at(t, a + 1) {
                    if a < e <= s.len() {
                        lemma_props_pad(t, s, e, e2, insert_prop(acc, p));
                    }
                }
            }
        }
    } else if b < t.len() {
        assert(is_space(t[b]));
    }
}

pub proof fn lemma_object_pad(t: Seq<u8>, s: Seq<u8>, a: int, b: int)
    requires
        pads(t, s),
        0 <= a <= s.len(),
        rel(s, t, a, b),
    ensures
        rel_step(s, t, object_at(s, a), object_at(t, b)),
    decreases s.len() - a, 1int,
{
    lemma_skip_rel(t, s, a, b);
    let i0 = skip_ws(s, a);
    if i0 < s.len() {
        assert(t[i0] == s[i0]);
        if s[i0] == 0x7b {
            lemma_prop_pad(t, s, i0 + 1, i0 + 1);
            lemma_close_object_pad(t, s, i0 + 1, i0 + 1, Seq::empty(), i0);
            if let Step::Done(e, first) = prop_at(s, i0 + 1) {
                if let Step::Done(e2, first2) = prop_at(t, i0 + 1) {
                    if i0 < e <= s.len() {
                        lemma_props_pad(t, s, e, e2, seq![first]);
                        if let Step::Done(f1, props) = props_after(s, e, seq![first]) {
                            if let Step::Done(f2, props2) = props_after(t, e2, seq![first]) {
                                lemma_past_comma_pad(t, s, f1, f2);
                                lemma_close_object_pad(
                                    t,
                                    s,
                                    past_comma(s, f1),
                                    past_comma(t, f2),
                                    props,
                                    i0,
                                );
                            }
                        }
                    }
                }
            }
        }
    } else if skip_ws(t, b) < t.len() {
        assert(false);
    }
}

/// Whitespace appended after an input does not change the literal read from
/// it: the outcome is the same, with the same value and locations, except
/// that a literal that reached the end of the input now reaches the end of
/// the whitespace.
pub proof fn lemma_trailing_whitespace(s: Seq<u8>, w: Seq<u8>)
    requires
        forall|k: int| 0 <= k < w.len() ==> is_space(#[trigger] w[k]),
    ensures
        match (lit_at(s, 0), lit_at(s + w, 0)) {
            (Step::Done(e1, v1), Step::Done(e2, v2)) => v1 == v2 && (e2 == e1 || (e1 == s.len()
                && e2 == s.len() + w.len())),
            (Step::Miss, Step::Miss) => true,
            (Step::Abort(p), Step::Abort(q)) => p == q,
            _ => false,
        },
{
    let t = s + w;
    assert forall|j: int| 0 <= j < s.len() implies #[trigger] t[j] == s[j] by {}
    assert forall|j: int| s.len() <= j < t.len() implies is_space(#[trigger] t[j]) by {
        assert(t[j] == w[j - s.len()]);
    }
    lemma_lit_pad(t, s, 0, 0);
}

/// Whitespace put around a literal, before it and after it, does not change
/// the literal once locations are stripped.
pub proof fn lemma_surrounding_whitespace(w1: Seq<u8>, s: Seq<u8>, w2: Seq<u8>)
    requires
        forall|k: int| 0 <= k < w1.len() ==> is_space(#[trigger] w1[k]),
        forall|k: int| 0 <= k < w2.len() ==> is_space(#[trigger] w2[k]),
    ensures
        lit_at(s, 0) matches Step::Done(_, b) ==> (lit_at(w1 + (s + w2), 0) matches Step::Done(
            _,
            a,
        ) && strip(a.node) == strip(b.node)),
        lit_at(s, 0) is Miss ==> lit_at(w1 + (s + w2), 0) is Miss,
{
    lemma_trailing_whitespace(s, w2);
    crate::relocation::lemma_leading_whitespace(w1, s + w2);
    if let Step::Done(e, b) = lit_at(s + w2, 0) {
        crate::relocation::lemma_strip_shift(b.node, w1.len() as int);
    }
}

} // verus!
