//! Reading an input that has more bytes in front of it: every production reads
//! the same, with each offset and location moved by the number of bytes in
//! front. From this, whitespace put before a literal does not change the
//! literal once locations are stripped.

use vstd::prelude::*;
use crate::lexer::{
    comment_len, digit_run, ident_run, ignorable_len, is_space, quoted_rest, skip_ws,
    string_literal,
};
use crate::lit_expr::{
    array_at, close_array, close_object, done_at, items_after, lit_at, number_text_at, object_at,
    past_comma, path_lit_at, primitive_at, prop_at, props_after, word_at, word_false, word_null,
    word_true, find_key, insert_prop, strip, LitV, PropV, Step, lemma_ignorable_around_literal,
};
use crate::location::{merge_spans, ParsedV, SpanV};
use crate::path::{
    key_at, path_at, path_tail, strip_path, var_name_end, KeyV, PathListV, PathSelectionV,
};

verus! {

/// `t` is `s` with `d` bytes in front of it.
pub open spec fn has_prefix_of(t: Seq<u8>, s: Seq<u8>, d: int) -> bool {
    &&& d >= 0
    &&& t.len() == s.len() + d
    &&& forall|j: int| 0 <= j < s.len() ==> #[trigger] t[j + d] == s[j]
}

pub open spec fn shift_span(l: SpanV, d: int) -> SpanV {
    match l {
        Some((a, b)) => Some((a + d, b + d)),
        None => None,
    }
}

pub open spec fn shift_key(k: ParsedV<KeyV>, d: int) -> ParsedV<KeyV> {
    ParsedV { node: k.node, loc: shift_span(k.loc, d) }
}

/// A path with every location moved by `d`.
pub open spec fn shift_path(p: ParsedV<PathListV>, d: int) -> ParsedV<PathListV>
    decreases p,
{
    match p.node {
        PathListV::Var(v, rest) => ParsedV {
            node: PathListV::Var(
                ParsedV { node: v.node, loc: shift_span(v.loc, d) },
                Box::new(shift_path(*rest, d)),
            ),
            loc: shift_span(p.loc, d),
        },
        PathListV::Key(k, rest) => ParsedV {
            node: PathListV::Key(shift_key(k, d), Box::new(shift_path(*rest, d))),
            loc: shift_span(p.loc, d),
        },
        PathListV::Empty => ParsedV { node: PathListV::Empty, loc: shift_span(p.loc, d) },
    }
}

pub proof fn lemma_merge_shift(a: SpanV, b: SpanV, d: int)
    ensures
        merge_spans(shift_span(a, d), shift_span(b, d)) == shift_span(merge_spans(a, b), d),
{
}

pub proof fn lemma_subrange_shift(t: Seq<u8>, s: Seq<u8>, d: int, a: int, b: int)
    requires
        has_prefix_of(t, s, d),
        0 <= a <= b <= s.len(),
    ensures
        t.subrange(a + d, b + d) == s.subrange(a, b),
{
    assert forall|j: int| 0 <= j < b - a implies #[trigger] t.subrange(a + d, b + d)[j] == s.subrange(
        a,
        b,
    )[j] by {
        assert(t[(a + j) + d] == s[a + j]);
    }
    assert(t.subrange(a + d, b + d) =~= s.subrange(a, b));
}

pub proof fn lemma_ignorable_shift(t: Seq<u8>, s: Seq<u8>, d: int, i: int)
    requires
        has_prefix_of(t, s, d),
        0 <= i,
    ensures
        ignorable_len(t, i + d) == ignorable_len(s, i),
        skip_ws(t, i + d) == skip_ws(s, i) + d,
    decreases s.len() - i, 0int,
{
    if i < s.len() {
        assert(t[i + d] == s[i]);
        if is_space(s[i]) {
            lemma_ignorable_shift(t, s, d, i + 1);
            assert(i + 1 + d == i + d + 1);
        } else if s[i] == 0x23 {
            lemma_comment_shift(t, s, d, i + 1);
            assert(i + 1 + d == i + d + 1);
        }
    }
}

pub proof fn lemma_comment_shift(t: Seq<u8>, s: Seq<u8>, d: int, i: int)
    requires
        has_prefix_of(t, s, d),
        0 <= i,
    ensures
        comment_len(t, i + d) == comment_len(s, i),
    decreases s.len() - i, 1int,
{
    if i < s.len() {
        assert(t[i + d] == s[i]);
    }
    if i < s.len() && s[i] != 0x0a {
        lemma_comment_shift(t, s, d, i + 1);
        assert(i + 1 + d == i + d + 1);
    } else {
        lemma_ignorable_shift(t, s, d, i);
    }
}

pub proof fn lemma_ident_run_shift(t: Seq<u8>, s: Seq<u8>, d: int, i: int)
    requires
        has_prefix_of(t, s, d),
        0 <= i,
    ensures
        ident_run(t, i + d) == ident_run(s, i),
    decreases s.len() - i,
{
    if i < s.len() {
        assert(t[i + d] == s[i]);
        lemma_ident_run_shift(t, s, d, i + 1);
        assert(i + 1 + d == i + d + 1);
    }
}

pub proof fn lemma_digit_run_shift(t: Seq<u8>, s: Seq<u8>, d: int, i: int)
    requires
        has_prefix_of(t, s, d),
        0 <= i,
    ensures
        digit_run(t, i + d) == digit_run(s, i),
    decreases s.len() - i,
{
    if i < s.len() {
        assert(t[i + d] == s[i]);
        lemma_digit_run_shift(t, s, d, i + 1);
        assert(i + 1 + d == i + d + 1);
    }
}

pub open spec fn shift_end(r: Option<(int, Seq<u8>)>, d: int) -> Option<(int, Seq<u8>)> {
    match r {
        Some((e, c)) => Some((e + d, c)),
        None => None,
    }
}

pub proof fn lemma_quoted_shift(t: Seq<u8>, s: Seq<u8>, d: int, i: int, q: u8)
    requires
        has_prefix_of(t, s, d),
        0 <= i,
    ensures
        quoted_rest(t, i + d, q) == shift_end(quoted_rest(s, i, q), d),
    decreases s.len() - i,
{
    if i < s.len() {
        assert(t[i + d] == s[i]);
        if s[i] == q {
        } else if s[i] == 0x5c {
            if i + 1 < s.len() {
                assert(t[i + 1 + d] == s[i + 1]);
                lemma_quoted_shift(t, s, d, i + 2, q);
                assert(i + 2 + d == i + d + 2);
                assert(i + 1 + d == i + d + 1);
            }
        } else {
            lemma_quoted_shift(t, s, d, i + 1, q);
            assert(i + 1 + d == i + d + 1);
        }
    }
}

pub proof fn lemma_quoted_end(s: Seq<u8>, i: int, q: u8)
    ensures
        quoted_rest(s, i, q) matches Some((e, _)) ==> i < e,
    decreases s.len() - i,
{
    if 0 <= i < s.len() {
        if s[i] == q {
        } else if s[i] == 0x5c {
            if i + 1 < s.len() {
                lemma_quoted_end(s, i + 2, q);
            }
        } else {
            lemma_quoted_end(s, i + 1, q);
        }
    }
}

pub proof fn lemma_string_literal_shift(t: Seq<u8>, s: Seq<u8>, d: int, i: int)
    requires
        has_prefix_of(t, s, d),
        0 <= i,
    ensures
        string_literal(t, i + d) == match string_literal(s, i) {
            Some((e, c, (a, b))) => Some((e + d, c, (a + d, b + d))),
            None => None,
        },
{
    lemma_ignorable_shift(t, s, d, i);
    let i0 = skip_ws(s, i);
    if 0 <= i0 < s.len() {
        assert(t[i0 + d] == s[i0]);
        lemma_quoted_shift(t, s, d, i0 + 1, s[i0]);
        assert(i0 + 1 + d == i0 + d + 1);
        lemma_quoted_end(s, i0 + 1, s[i0]);
        if let Some((e, c)) = quoted_rest(s, i0 + 1, s[i0]) {
            lemma_ignorable_shift(t, s, d, e);
        }
    }
}

} // verus!

verus! {

pub proof fn lemma_ident_bound(s: Seq<u8>, i: int)
    requires
        0 <= i <= s.len(),
    ensures
        i + ident_run(s, i) <= s.len(),
    decreases s.len() - i,
{
    if i < s.len() {
        lemma_ident_bound(s, i + 1);
    }
}

pub proof fn lemma_digit_bound(s: Seq<u8>, i: int)
    requires
        0 <= i <= s.len(),
    ensures
        i + digit_run(s, i) <= s.len(),
    decreases s.len() - i,
{
    if i < s.len() {
        lemma_digit_bound(s, i + 1);
    }
}

pub proof fn lemma_key_end(s: Seq<u8>, i: int)
    ensures
        key_at(s, i) matches Some((e, _)) ==> e >= i,
{
    let i0 = skip_ws(s, i);
    if 0 <= i0 < s.len() && crate::lexer::is_ident_start(s[i0]) {
    } else {
        lemma_quoted_end(s, i0 + 1, s[i0]);
    }
}

pub proof fn lemma_key_shift(t: Seq<u8>, s: Seq<u8>, d: int, i: int)
    requires
        has_prefix_of(t, s, d),
        0 <= i,
    ensures
        key_at(t, i + d) == match key_at(s, i) {
            Some((e, k)) => Some((e + d, shift_key(k, d))),
            None => None,
        },
{
    lemma_ignorable_shift(t, s, d, i);
    lemma_string_literal_shift(t, s, d, i);
    let i0 = skip_ws(s, i);
    if 0 <= i0 < s.len() {
        assert(t[i0 + d] == s[i0]);
        lemma_ident_run_shift(t, s, d, i0);
        lemma_ident_bound(s, i0);
        let e = i0 + ident_run(s, i0);
        lemma_subrange_shift(t, s, d, i0, e);
        lemma_ignorable_shift(t, s, d, e);
    }
}

pub proof fn lemma_path_tail_shift(t: Seq<u8>, s: Seq<u8>, d: int, i: int)
    requires
        has_prefix_of(t, s, d),
        0 <= i,
    ensures
        path_tail(t, i + d) == (path_tail(s, i).0 + d, shift_path(path_tail(s, i).1, d)),
    decreases s.len() - i,
{
    lemma_ignorable_shift(t, s, d, i);
    let i0 = skip_ws(s, i);
    if 0 <= i0 < s.len() {
        assert(t[i0 + d] == s[i0]);
        if s[i0] == 0x2e {
            lemma_key_shift(t, s, d, i0 + 1);
            assert(i0 + 1 + d == i0 + d + 1);
            if let Some((e, k)) = key_at(s, i0 + 1) {
                if i < e <= s.len() {
                    lemma_path_tail_shift(t, s, d, e);
                    let rest = path_tail(s, e).1;
                    lemma_merge_shift(k.loc, rest.loc, d);
                }
            }
        }
    }
}

pub proof fn lemma_path_shift(t: Seq<u8>, s: Seq<u8>, d: int, i: int)
    requires
        has_prefix_of(t, s, d),
        0 <= i,
    ensures
        path_at(t, i + d) == match path_at(s, i) {
            Some((e, p)) => Some((e + d, shift_path(p, d))),
            None => None,
        },
{
    lemma_ignorable_shift(t, s, d, i);
    let i0 = skip_ws(s, i);
    if 0 <= i0 < s.len() {
        assert(t[i0 + d] == s[i0]);
        if s[i0] == 0x24 {
            let n = var_name_end(s, i0 + 1);
            if i0 + 1 < s.len() {
                assert(t[i0 + 1 + d] == s[i0 + 1]);
                lemma_ident_run_shift(t, s, d, i0 + 1);
                lemma_ident_bound(s, i0 + 1);
            }
            assert(i0 + 1 + d == i0 + d + 1);
            assert(var_name_end(t, i0 + d + 1) == n + d);
            lemma_subrange_shift(t, s, d, i0 + 1, n);
            lemma_path_tail_shift(t, s, d, n);
            let rest = path_tail(s, n).1;
            lemma_merge_shift(Some((i0, n)), rest.loc, d);
        } else if s[i0] == 0x2e {
            lemma_key_shift(t, s, d, i0 + 1);
            assert(i0 + 1 + d == i0 + d + 1);
            lemma_key_end(s, i0 + 1);
            if let Some((e, k)) = key_at(s, i0 + 1) {
                lemma_path_tail_shift(t, s, d, e);
                let rest = path_tail(s, e).1;
                lemma_merge_shift(k.loc, rest.loc, d);
                lemma_merge_shift(Some((i0, i0 + 1)), merge_spans(k.loc, rest.loc), d);
            }
        } else {
            lemma_key_shift(t, s, d, i0);
            lemma_key_end(s, i0);
            if let Some((e, k)) = key_at(s, i0) {
                lemma_path_tail_shift(t, s, d, e);
                let rest = path_tail(s, e).1;
                lemma_merge_shift(k.loc, rest.loc, d);
            }
        }
    }
}

} // verus!

verus! {

/// A literal with every location moved by `d`.
pub open spec fn shift_lit(v: LitV, d: int) -> LitV
    decreases v,
{
    match v {
        LitV::Object(props) => LitV::Object(
            Seq::new(
                props.len(),
                |i: int|
                    if 0 <= i < props.len() {
                        (
                            shift_key(props[i].0, d),
                            ParsedV {
                                node: shift_lit(props[i].1.node, d),
                                loc: shift_span(props[i].1.loc, d),
                            },
                        )
                    } else {
                        props[0]
                    },
            ),
        ),
        LitV::Array(items) => LitV::Array(
            Seq::new(
                items.len(),
                |i: int|
                    if 0 <= i < items.len() {
                        ParsedV {
                            node: shift_lit(items[i].node, d),
                            loc: shift_span(items[i].loc, d),
                        }
                    } else {
                        items[0]
                    },
            ),
        ),
        LitV::Path(p) => LitV::Path(
            ParsedV {
                node: PathSelectionV { path: shift_path(p.node.path, d) },
                loc: shift_span(p.loc, d),
            },
        ),
        other => other,
    }
}

pub open spec fn shift_parsed(v: ParsedV<LitV>, d: int) -> ParsedV<LitV> {
    ParsedV { node: shift_lit(v.node, d), loc: shift_span(v.loc, d) }
}

pub open spec fn shift_items(items: Seq<ParsedV<LitV>>, d: int) -> Seq<ParsedV<LitV>> {
    Seq::new(items.len(), |i: int| shift_parsed(items[i], d))
}

pub open spec fn shift_prop(p: PropV, d: int) -> PropV {
    (shift_key(p.0, d), shift_parsed(p.1, d))
}

pub open spec fn shift_props(m: Seq<PropV>, d: int) -> Seq<PropV> {
    Seq::new(m.len(), |i: int| shift_prop(m[i], d))
}

pub open spec fn shift_step(st: Step<ParsedV<LitV>>, d: int) -> Step<ParsedV<LitV>> {
    match st {
        Step::Done(e, v) => Step::Done(e + d, shift_parsed(v, d)),
        Step::Miss => Step::Miss,
        Step::Abort(p) => Step::Abort(p + d),
    }
}

pub open spec fn shift_items_step(st: Step<Seq<ParsedV<LitV>>>, d: int) -> Step<Seq<ParsedV<LitV>>> {
    match st {
        Step::Done(e, v) => Step::Done(e + d, shift_items(v, d)),
        Step::Miss => Step::Miss,
        Step::Abort(p) => Step::Abort(p + d),
    }
}

pub open spec fn shift_props_step(st: Step<Seq<PropV>>, d: int) -> Step<Seq<PropV>> {
    match st {
        Step::Done(e, v) => Step::Done(e + d, shift_props(v, d)),
        Step::Miss => Step::Miss,
        Step::Abort(p) => Step::Abort(p + d),
    }
}

pub open spec fn shift_prop_step(st: Step<PropV>, d: int) -> Step<PropV> {
    match st {
        Step::Done(e, v) => Step::Done(e + d, shift_prop(v, d)),
        Step::Miss => Step::Miss,
        Step::Abort(p) => Step::Abort(p + d),
    }
}

pub proof fn lemma_shift_array(items: Seq<ParsedV<LitV>>, d: int)
    ensures
        shift_lit(LitV::Array(items), d) == LitV::Array(shift_items(items, d)),
{
    if let LitV::Array(w) = shift_lit(LitV::Array(items), d) {
        assert(w =~= shift_items(items, d));
    }
}

pub proof fn lemma_shift_object(props: Seq<PropV>, d: int)
    ensures
        shift_lit(LitV::Object(props), d) == LitV::Object(shift_props(props, d)),
{
    if let LitV::Object(w) = shift_lit(LitV::Object(props), d) {
        assert(w =~= shift_props(props, d));
    }
}

pub proof fn lemma_done_shift(t: Seq<u8>, s: Seq<u8>, d: int, e: int, node: LitV, loc: SpanV)
    requires
        has_prefix_of(t, s, d),
        0 <= e,
    ensures
        done_at(t, e + d, shift_lit(node, d), shift_span(loc, d)) == shift_step(
            done_at(s, e, node, loc),
            d,
        ),
{
    lemma_ignorable_shift(t, s, d, e);
}

pub proof fn lemma_word_shift(t: Seq<u8>, s: Seq<u8>, d: int, i: int, w: Seq<u8>)
    requires
        has_prefix_of(t, s, d),
        0 <= i,
    ensures
        word_at(t, i + d, w) == word_at(s, i, w),
{
    if i + w.len() <= s.len() {
        lemma_subrange_shift(t, s, d, i, i + w.len());
        assert(i + d + w.len() == i + w.len() + d);
    }
}

pub proof fn lemma_number_shift(t: Seq<u8>, s: Seq<u8>, d: int, i: int)
    requires
        has_prefix_of(t, s, d),
        0 <= i,
    ensures
        number_text_at(t, i + d) == match number_text_at(s, i) {
            Some((e, text, loc)) => Some((e + d, text, shift_span(loc, d))),
            None => None,
        },
{
    lemma_ignorable_shift(t, s, d, i);
    let i0 = skip_ws(s, i);
    if 0 <= i0 < s.len() {
        assert(t[i0 + d] == s[i0]);
    }
    let neg = 0 <= i0 < s.len() && s[i0] == 0x2d;
    lemma_ignorable_shift(t, s, d, i0 + 1);
    assert(i0 + 1 + d == i0 + d + 1);
    let j = if neg {
        skip_ws(s, i0 + 1)
    } else {
        i0
    };
    let sign_loc: SpanV = if neg {
        Some((i0, i0 + 1))
    } else {
        None
    };
    if 0 <= j < s.len() {
        assert(t[j + d] == s[j]);
        lemma_digit_run_shift(t, s, d, j);
        lemma_digit_bound(s, j);
        let e = j + digit_run(s, j);
        lemma_subrange_shift(t, s, d, j, e);
        lemma_ignorable_shift(t, s, d, e);
        let k = skip_ws(s, e);
        if 0 <= k < s.len() {
            assert(t[k + d] == s[k]);
        }
        lemma_ignorable_shift(t, s, d, k + 1);
        assert(k + 1 + d == k + d + 1);
        let k2 = skip_ws(s, k + 1);
        lemma_digit_run_shift(t, s, d, k2);
        if k2 <= s.len() {
            lemma_digit_bound(s, k2);
            lemma_subrange_shift(t, s, d, k2, k2 + digit_run(s, k2));
        }
        let f = k2 + digit_run(s, k2);
        let frac_loc = merge_spans(
            Some((k, k + 1)),
            if f > k2 {
                Some((k2, f))
            } else {
                None
            },
        );
        lemma_merge_shift(
            Some((k, k + 1)),
            if f > k2 {
                Some((k2, f))
            } else {
                None
            },
            d,
        );
        lemma_merge_shift(Some((j, e)), frac_loc, d);
        lemma_merge_shift(sign_loc, merge_spans(Some((j, e)), frac_loc), d);
        lemma_merge_shift(sign_loc, Some((j, e)), d);
        lemma_ignorable_shift(t, s, d, j + 1);
        assert(j + 1 + d == j + d + 1);
        let m2 = skip_ws(s, j + 1);
        lemma_digit_run_shift(t, s, d, m2);
        if m2 <= s.len() {
            lemma_digit_bound(s, m2);
            lemma_subrange_shift(t, s, d, m2, m2 + digit_run(s, m2));
        }
        let g = m2 + digit_run(s, m2);
        lemma_merge_shift(Some((j, j + 1)), Some((m2, g)), d);
        lemma_merge_shift(sign_loc, merge_spans(Some((j, j + 1)), Some((m2, g))), d);
    }
}

pub proof fn lemma_primitive_shift(t: Seq<u8>, s: Seq<u8>, d: int, i0: int)
    requires
        has_prefix_of(t, s, d),
        0 <= i0,
    ensures
        primitive_at(t, i0 + d) == match primitive_at(s, i0) {
            Some(st) => Some(shift_step(st, d)),
            None => None,
        },
{
    lemma_string_literal_shift(t, s, d, i0);
    lemma_number_shift(t, s, d, i0);
    lemma_word_shift(t, s, d, i0, word_true());
    lemma_word_shift(t, s, d, i0, word_false());
    lemma_word_shift(t, s, d, i0, word_null());
    lemma_ignorable_shift(t, s, d, i0);
    if let Some((e, c, r)) = string_literal(s, i0) {
        lemma_ignorable_shift(t, s, d, i0);
        lemma_quoted_end(s, skip_ws(s, i0) + 1, s[skip_ws(s, i0)]);
        lemma_done_shift(t, s, d, e, LitV::String(crate::lexer::utf8_lossy(c)), Some(r));
    } else if let Some((e, text, loc)) = number_text_at(s, i0) {
        lemma_number_end(s, i0);
        if let Some(n) = crate::json_number::json_number_of(crate::lexer::utf8_lossy(text)) {
            lemma_done_shift(t, s, d, e, LitV::Number(n), loc);
        }
    } else {
        lemma_done_shift(t, s, d, i0 + 4, LitV::Bool(true), Some((i0, i0 + 4)));
        lemma_done_shift(t, s, d, i0 + 5, LitV::Bool(false), Some((i0, i0 + 5)));
        lemma_done_shift(t, s, d, i0 + 4, LitV::Null, Some((i0, i0 + 4)));
        assert(i0 + 4 + d == i0 + d + 4);
        assert(i0 + 5 + d == i0 + d + 5);
    }
}

pub proof fn lemma_number_end(s: Seq<u8>, i: int)
    requires
        0 <= i,
    ensures
        number_text_at(s, i) matches Some((e, _, _)) ==> e >= 0,
{
}

} // verus!

verus! {

pub proof fn lemma_find_key_shift(m: Seq<PropV>, key: KeyV, d: int, i: int)
    ensures
        find_key(shift_props(m, d), key, i) == find_key(m, key, i),
    decreases m.len() - i,
{
    if 0 <= i < m.len() {
        lemma_find_key_shift(m, key, d, i + 1);
    }
}

pub proof fn lemma_insert_shift(m: Seq<PropV>, p: PropV, d: int)
    ensures
        insert_prop(shift_props(m, d), shift_prop(p, d)) == shift_props(insert_prop(m, p), d),
{
    lemma_find_key_shift(m, p.0.node, d, 0);
    let idx = find_key(m, p.0.node, 0);
    if idx >= 0 {
        lemma_find_key_bound(m, p.0.node, 0);
        assert(shift_props(m.update(idx, (m[idx].0, p.1)), d) =~= shift_props(m, d).update(
            idx,
            (shift_props(m, d)[idx].0, shift_prop(p, d).1),
        ));
    } else {
        assert(shift_props(m.push(p), d) =~= shift_props(m, d).push(shift_prop(p, d)));
    }
}

pub proof fn lemma_find_key_bound(m: Seq<PropV>, key: KeyV, i: int)
    ensures
        find_key(m, key, i) < m.len(),
    decreases m.len() - i,
{
    if 0 <= i < m.len() {
        lemma_find_key_bound(m, key, i + 1);
    }
}

pub proof fn lemma_close_array_shift(
    t: Seq<u8>,
    s: Seq<u8>,
    d: int,
    k: int,
    items: Seq<ParsedV<LitV>>,
    open: int,
)
    requires
        has_prefix_of(t, s, d),
        0 <= k,
    ensures
        close_array(t, k + d, shift_items(items, d), open + d) == shift_step(
            close_array(s, k, items, open),
            d,
        ),
{
    lemma_ignorable_shift(t, s, d, k);
    let c = skip_ws(s, k);
    if 0 <= c < s.len() {
        assert(t[c + d] == s[c]);
    }
    lemma_shift_array(items, d);
    lemma_done_shift(t, s, d, c + 1, LitV::Array(items), Some((open, c + 1)));
    assert(c + 1 + d == c + d + 1);
}

pub proof fn lemma_close_object_shift(
    t: Seq<u8>,
    s: Seq<u8>,
    d: int,
    k: int,
    props: Seq<PropV>,
    open: int,
)
    requires
        has_prefix_of(t, s, d),
        0 <= k,
    ensures
        close_object(t, k + d, shift_props(props, d), open + d) == shift_step(
            close_object(s, k, props, open),
            d,
        ),
{
    lemma_ignorable_shift(t, s, d, k);
    let c = skip_ws(s, k);
    if 0 <= c < s.len() {
        assert(t[c + d] == s[c]);
    }
    lemma_shift_object(props, d);
    lemma_done_shift(t, s, d, c + 1, LitV::Object(props), Some((open, c + 1)));
    assert(c + 1 + d == c + d + 1);
}

pub proof fn lemma_past_comma_shift(t: Seq<u8>, s: Seq<u8>, d: int, j: int)
    requires
        has_prefix_of(t, s, d),
        0 <= j,
    ensures
        past_comma(t, j + d) == past_comma(s, j) + d,
        past_comma(s, j) >= j,
{
    if j < s.len() {
        assert(t[j + d] == s[j]);
    }
}

pub proof fn lemma_lit_shift(t: Seq<u8>, s: Seq<u8>, d: int, i: int)
    requires
        has_prefix_of(t, s, d),
        0 <= i,
    ensures
        lit_at(t, i + d) == shift_step(lit_at(s, i), d),
    decreases s.len() - i, 2int,
{
    lemma_ignorable_shift(t, s, d, i);
    let i0 = skip_ws(s, i);
    lemma_primitive_shift(t, s, d, i0);
    lemma_object_shift(t, s, d, i);
    lemma_array_shift(t, s, d, i);
    lemma_path_shift(t, s, d, i0);
    if let Some((e, p)) = path_at(s, i0) {
        lemma_path_end(s, i0);
        lemma_done_shift(
            t,
            s,
            d,
            e,
            LitV::Path(ParsedV { node: PathSelectionV { path: p }, loc: p.loc }),
            p.loc,
        );
        assert(shift_path(p, d).loc == shift_span(p.loc, d));
    }
}

pub proof fn lemma_path_end(s: Seq<u8>, i: int)
    requires
        0 <= i,
    ensures
        path_at(s, i) matches Some((e, _)) ==> e >= 0,
{
    let i0 = skip_ws(s, i);
    lemma_key_end(s, i0 + 1);
    lemma_key_end(s, i0);
    lemma_path_tail_end(s, var_name_end(s, i0 + 1));
    if let Some((e, k)) = key_at(s, i0 + 1) {
        lemma_path_tail_end(s, e);
    }
    if let Some((e, k)) = key_at(s, i0) {
        lemma_path_tail_end(s, e);
    }
}

pub proof fn lemma_path_tail_end(s: Seq<u8>, i: int)
    ensures
        path_tail(s, i).0 >= i,
    decreases s.len() - i,
{
    let i0 = skip_ws(s, i);
    if 0 <= i0 < s.len() && s[i0] == 0x2e {
        if let Some((e, k)) = key_at(s, i0 + 1) {
            if i < e <= s.len() {
                lemma_path_tail_end(s, e);
            }
        }
    }
}

pub proof fn lemma_array_shift(t: Seq<u8>, s: Seq<u8>, d: int, i: int)
    requires
        has_prefix_of(t, s, d),
        0 <= i,
    ensures
        array_at(t, i + d) == shift_step(array_at(s, i), d),
    decreases s.len() - i, 1int,
{
    lemma_ignorable_shift(t, s, d, i);
    let i0 = skip_ws(s, i);
    if 0 <= i0 < s.len() {
        assert(t[i0 + d] == s[i0]);
        if s[i0] == 0x5b {
            lemma_lit_shift(t, s, d, i0 + 1);
            assert(i0 + 1 + d == i0 + d + 1);
            lemma_close_array_shift(t, s, d, i0 + 1, Seq::empty(), i0);
            assert(shift_items(Seq::<ParsedV<LitV>>::empty(), d) =~= Seq::<ParsedV<LitV>>::empty());
            match lit_at(s, i0 + 1) {
                Step::Done(e, first) => {
                    if i0 < e <= s.len() {
                        lemma_items_shift(t, s, d, e, seq![first]);
                        assert(shift_items(seq![first], d) =~= seq![shift_parsed(first, d)]);
                        if let Step::Done(e2, items) = items_after(s, e, seq![first]) {
                            lemma_past_comma_shift(t, s, d, e2);
                            lemma_close_array_shift(t, s, d, past_comma(s, e2), items, i0);
                        }
                    }
                },
                _ => {},
            }
        }
    }
}

pub proof fn lemma_items_shift(t: Seq<u8>, s: Seq<u8>, d: int, j: int, acc: Seq<ParsedV<LitV>>)
    requires
        has_prefix_of(t, s, d),
        0 <= j,
    ensures
        items_after(t, j + d, shift_items(acc, d)) == shift_items_step(items_after(s, j, acc), d),
        items_after(s, j, acc) matches Step::Done(e, _) ==> e >= j,
    decreases s.len() - j, 0int,
{
    if j < s.len() {
        assert(t[j + d] == s[j]);
        if s[j] == 0x2c {
            lemma_lit_shift(t, s, d, j + 1);
            assert(j + 1 + d == j + d + 1);
            if let Step::Done(e, v) = lit_at(s, j + 1) {
                if j < e <= s.len() {
                    lemma_items_shift(t, s, d, e, acc.push(v));
                    assert(shift_items(acc.push(v), d) =~= shift_items(acc, d).push(
                        shift_parsed(v, d),
                    ));
                }
            }
        }
    }
}

pub proof fn lemma_prop_shift(t: Seq<u8>, s: Seq<u8>, d: int, j: int)
    requires
        has_prefix_of(t, s, d),
        0 <= j,
    ensures
        prop_at(t, j + d) == shift_prop_step(prop_at(s, j), d),
    decreases s.len() - j, 3int,
{
    lemma_key_shift(t, s, d, j);
    lemma_key_end(s, j);
    if let Some((ke, k)) = key_at(s, j) {
        if ke < s.len() {
            assert(t[ke + d] == s[ke]);
        }
        if j <= ke < s.len() && s[ke] == 0x3a {
            lemma_lit_shift(t, s, d, ke + 1);
            assert(ke + 1 + d == ke + d + 1);
        }
    }
}

pub proof fn lemma_props_shift(t: Seq<u8>, s: Seq<u8>, d: int, j: int, acc: Seq<PropV>)
    requires
        has_prefix_of(t, s, d),
        0 <= j,
    ensures
        props_after(t, j + d, shift_props(acc, d)) == shift_props_step(props_after(s, j, acc), d),
        props_after(s, j, acc) matches Step::Done(e, _) ==> e >= j,
    decreases s.len() - j, 0int,
{
    if j < s.len() {
        assert(t[j + d] == s[j]);
        if s[j] == 0x2c {
            lemma_prop_shift(t, s, d, j + 1);
            assert(j + 1 + d == j + d + 1);
            if let Step::Done(e, p) = prop_at(s, j + 1) {
                if j < e <= s.len() {
                    lemma_props_shift(t, s, d, e, insert_prop(acc, p));
                    lemma_insert_shift(acc, p, d);
                }
            }
        }
    }
}

pub proof fn lemma_object_shift(t: Seq<u8>, s: Seq<u8>, d: int, i: int)
    requires
        has_prefix_of(t, s, d),
        0 <= i,
    ensures
        object_at(t, i + d) == shift_step(object_at(s, i), d),
    decreases s.len() - i, 1int,
{
    lemma_ignorable_shift(t, s, d, i);
    let i0 = skip_ws(s, i);
    if 0 <= i0 < s.len() {
        assert(t[i0 + d] == s[i0]);
        if s[i0] == 0x7b {
            lemma_prop_shift(t, s, d, i0 + 1);
            assert(i0 + 1 + d == i0 + d + 1);
            lemma_close_object_shift(t, s, d, i0 + 1, Seq::empty(), i0);
            assert(shift_props(Seq::<PropV>::empty(), d) =~= Seq::<PropV>::empty());
            match prop_at(s, i0 + 1) {
                Step::Done(e, first) => {
                    if i0 < e <= s.len() {
                        let m0 = insert_prop(Seq::<PropV>::empty(), first);
                        assert(insert_prop(Seq::<PropV>::empty(), first) =~= seq![first]);
                        lemma_props_shift(t, s, d, e, seq![first]);
                        assert(shift_props(seq![first], d) =~= seq![shift_prop(first, d)]);
                        if let Step::Done(e2, props) = props_after(s, e, seq![first]) {
                            lemma_past_comma_shift(t, s, d, e2);
                            lemma_close_object_shift(t, s, d, past_comma(s, e2), props, i0);
                        }
                    }
                },
                _ => {},
            }
        }
    }
}

} // verus!

verus! {

pub proof fn lemma_strip_shift_path(p: ParsedV<PathListV>, d: int)
    ensures
        strip_path(shift_path(p, d)) == strip_path(p),
    decreases p,
{
    match p.node {
        PathListV::Var(v, rest) => {
            lemma_strip_shift_path(*rest, d);
        },
        PathListV::Key(k, rest) => {
            lemma_strip_shift_path(*rest, d);
        },
        PathListV::Empty => {},
    }
}

/// Moving every location of a literal changes nothing once locations are
/// stripped.
pub proof fn lemma_strip_shift(v: LitV, d: int)
    ensures
        strip(shift_lit(v, d)) == strip(v),
    decreases v,
{
    match v {
        LitV::Object(props) => {
            lemma_shift_object(props, d);
            assert forall|i: int| 0 <= i < props.len() implies strip(
                shift_lit(#[trigger] props[i].1.node, d),
            ) == strip(props[i].1.node) by {
                lemma_strip_shift(props[i].1.node, d);
            }
            if let LitV::Object(a) = strip(shift_lit(v, d)) {
                if let LitV::Object(b) = strip(v) {
                    assert(a =~= b);
                }
            }
        },
        LitV::Array(items) => {
            lemma_shift_array(items, d);
            assert forall|i: int| 0 <= i < items.len() implies strip(
                shift_lit(#[trigger] items[i].node, d),
            ) == strip(items[i].node) by {
                lemma_strip_shift(items[i].node, d);
            }
            if let LitV::Array(a) = strip(shift_lit(v, d)) {
                if let LitV::Array(b) = strip(v) {
                    assert(a =~= b);
                }
            }
        },
        LitV::Path(p) => {
            lemma_strip_shift_path(p.node.path, d);
        },
        _ => {},
    }
}

/// Whitespace alone is skipped as a whole.
pub proof fn lemma_spaces_are_skipped(t: Seq<u8>, d: int, j: int)
    requires
        0 <= j <= d <= t.len(),
        forall|k: int| 0 <= k < d ==> is_space(#[trigger] t[k]),
    ensures
        skip_ws(t, j) == skip_ws(t, d),
    decreases d - j,
{
    if j < d {
        lemma_spaces_are_skipped(t, d, j + 1);
    }
}

/// Whitespace and comments put in front of an input do not change the
/// literal read from it: where the bytes `w` in front are skipped as a whole,
/// reading `w + s` gives what reading `s` gives, with every offset and
/// location moved by the length of `w`, and so the same literal once
/// locations are stripped.
pub proof fn lemma_leading_ignorable_input(w: Seq<u8>, s: Seq<u8>)
    requires
        skip_ws(w + s, 0) == skip_ws(w + s, w.len() as int),
    ensures
        lit_at(w + s, 0) == shift_step(lit_at(s, 0), w.len() as int),
        lit_at(s, 0) matches Step::Done(_, b) ==> (lit_at(w + s, 0) matches Step::Done(_, a)
            && strip(a.node) == strip(b.node)),
{
    let t = w + s;
    let d = w.len() as int;
    assert forall|j: int| 0 <= j < s.len() implies #[trigger] t[j + d] == s[j] by {
        assert(t[j + d] == s[j]);
    }
    assert(has_prefix_of(t, s, d));
    lemma_ignorable_around_literal(t, 0);
    lemma_ignorable_around_literal(t, d);
    lemma_lit_shift(t, s, d, 0);
    if let Step::Done(e, b) = lit_at(s, 0) {
        lemma_strip_shift(b.node, d);
    }
}

/// Leading whitespace before an input does not change the literal read
/// from it, once locations are stripped.
pub proof fn lemma_leading_whitespace(w: Seq<u8>, s: Seq<u8>)
    requires
        forall|k: int| 0 <= k < w.len() ==> is_space(#[trigger] w[k]),
    ensures
        lit_at(w + s, 0) == shift_step(lit_at(s, 0), w.len() as int),
        lit_at(s, 0) matches Step::Done(_, b) ==> (lit_at(w + s, 0) matches Step::Done(_, a)
            && strip(a.node) == strip(b.node)),
{
    let t = w + s;
    assert forall|k: int| 0 <= k < w.len() implies is_space(#[trigger] t[k]) by {
        assert(t[k] == w[k]);
    }
    lemma_spaces_are_skipped(t, w.len() as int, 0);
    lemma_leading_ignorable_input(w, s);
}

} // verus!
