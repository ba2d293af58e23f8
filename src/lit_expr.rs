//! Literal expressions: JSON-like values (strings, numbers, booleans, null,
//! objects, arrays) whose leaves may also be path selections.

use vstd::prelude::*;
use vstd::string::StringSliceAdditionalSpecFns;
use crate::json_number::{json_number_of, parse_json_number};
use crate::lexer::{
    digit_run, is_digit, lemma_skip_stops, parse_string_literal, scan_digits, skip_ignorable, skip_ws,
    string_literal, text_of, utf8_lossy,
};
use crate::location::{merge_locs, merge_spans, span_view, Parsed, ParsedV, SpanV};
use crate::path::{key_at, parse_key, path_at, strip_path, strip_path_loc, Key, KeyV, PathSelection, PathSelectionV};

verus! {

/// A literal expression. Object properties keep the order in which they were
/// first written.
#[derive(Debug, PartialEq, Eq)]
pub enum LitExpr {
    String(String),
    Number(serde_json::Number),
    Bool(bool),
    Null,
    Object(Vec<(Parsed<Key>, Parsed<LitExpr>)>),
    Array(Vec<Parsed<LitExpr>>),
    Path(Parsed<PathSelection>),
}

pub enum LitV {
    String(Seq<char>),
    Number(serde_json::Number),
    Bool(bool),
    Null,
    Object(Seq<(ParsedV<KeyV>, ParsedV<LitV>)>),
    Array(Seq<ParsedV<LitV>>),
    Path(ParsedV<PathSelectionV>),
}

pub type PropV = (ParsedV<KeyV>, ParsedV<LitV>);

pub open spec fn lit_view(e: LitExpr) -> LitV
    decreases e,
{
    match e {
        LitExpr::String(s) => LitV::String(s@),
        LitExpr::Number(n) => LitV::Number(n),
        LitExpr::Bool(b) => LitV::Bool(b),
        LitExpr::Null => LitV::Null,
        LitExpr::Object(v) => LitV::Object(
            Seq::new(
                v@.len(),
                |i: int|
                    if 0 <= i < v@.len() {
                        (
                            v@[i].0@,
                            ParsedV { node: lit_view(*v@[i].1.node), loc: span_view(v@[i].1.loc) },
                        )
                    } else {
                        (v@[0].0@, ParsedV { node: LitV::Null, loc: None })
                    },
            ),
        ),
        LitExpr::Array(v) => LitV::Array(
            Seq::new(
                v@.len(),
                |i: int|
                    if 0 <= i < v@.len() {
                        ParsedV { node: lit_view(*v@[i].node), loc: span_view(v@[i].loc) }
                    } else {
                        ParsedV { node: LitV::Null, loc: None }
                    },
            ),
        ),
        LitExpr::Path(p) => LitV::Path(p@),
    }
}

impl View for LitExpr {
    type V = LitV;

    open spec fn view(&self) -> LitV {
        lit_view(*self)
    }
}

/// The models of a sequence of located expressions.
pub open spec fn items_view(v: Seq<Parsed<LitExpr>>) -> Seq<ParsedV<LitV>> {
    Seq::new(v.len(), |i: int| v[i]@)
}

/// The models of a sequence of properties.
pub open spec fn props_view(v: Seq<(Parsed<Key>, Parsed<LitExpr>)>) -> Seq<PropV> {
    Seq::new(v.len(), |i: int| (v[i].0@, v[i].1@))
}

/// The outcome of a production: it matched and ends at an offset, it does
/// not match here, or it matched a prefix and found it malformed there.
pub enum Step<T> {
    Done(int, T),
    Miss,
    Abort(int),
}

/// How a parse fails: this alternative does not match at the offset, or the
/// input committed to a production and is malformed at the offset.
#[derive(Debug, Clone, Copy, PartialEq, Eq)]
pub enum ParseError {
    NoMatch(usize),
    Fatal(usize),
}

pub open spec fn step_of(r: Result<(usize, Parsed<LitExpr>), ParseError>) -> Step<ParsedV<LitV>> {
    match r {
        Ok((e, v)) => Step::Done(e as int, v@),
        Err(ParseError::NoMatch(_)) => Step::Miss,
        Err(ParseError::Fatal(p)) => Step::Abort(p as int),
    }
}

/// Whether the bytes of `w` stand at offset `i`.
pub open spec fn word_at(s: Seq<u8>, i: int, w: Seq<u8>) -> bool {
    0 <= i && i + w.len() <= s.len() && s.subrange(i, i + w.len()) == w
}

pub open spec fn word_true() -> Seq<u8> {
    seq![0x74u8, 0x72, 0x75, 0x65]
}

pub open spec fn word_false() -> Seq<u8> {
    seq![0x66u8, 0x61, 0x6c, 0x73, 0x65]
}

pub open spec fn word_null() -> Seq<u8> {
    seq![0x6eu8, 0x75, 0x6c, 0x6c]
}

/// A number literal after optional whitespace: where it ends, its text
/// normalized for reading as JSON (`.5` as `0.5`, `5.` as `5.0`, no
/// whitespace after the sign), and its range from sign to last digit.
pub open spec fn number_text_at(s: Seq<u8>, i: int) -> Option<(int, Seq<u8>, SpanV)> {
    let i0 = skip_ws(s, i);
    let neg = 0 <= i0 < s.len() && s[i0] == 0x2d;
    let j = if neg {
        skip_ws(s, i0 + 1)
    } else {
        i0
    };
    let sign: Seq<u8> = if neg {
        seq![0x2du8]
    } else {
        Seq::empty()
    };
    let sign_loc: SpanV = if neg {
        Some((i0, i0 + 1))
    } else {
        None
    };
    if 0 <= j < s.len() && is_digit(s[j]) {
        let e = j + digit_run(s, j);
        let k = skip_ws(s, e);
        if 0 <= k < s.len() && s[k] == 0x2e {
            let k2 = skip_ws(s, k + 1);
            let f = k2 + digit_run(s, k2);
            let frac: Seq<u8> = if f > k2 {
                s.subrange(k2, f)
            } else {
                seq![0x30u8]
            };
            let frac_loc = merge_spans(
                Some((k, k + 1)),
                if f > k2 {
                    Some((k2, f))
                } else {
                    None
                },
            );
            Some(
                (
                    f,
                    sign + s.subrange(j, e) + seq![0x2eu8] + frac,
                    merge_spans(sign_loc, merge_spans(Some((j, e)), frac_loc)),
                ),
            )
        } else {
            Some((e, sign + s.subrange(j, e), merge_spans(sign_loc, Some((j, e)))))
        }
    } else if 0 <= j < s.len() && s[j] == 0x2e {
        let k2 = skip_ws(s, j + 1);
        let f = k2 + digit_run(s, k2);
        if f > k2 {
            Some(
                (
                    f,
                    sign + seq![0x30u8, 0x2e] + s.subrange(k2, f),
                    merge_spans(sign_loc, merge_spans(Some((j, j + 1)), Some((k2, f)))),
                ),
            )
        } else {
            None
        }
    } else {
        None
    }
}

/// A located node ending at `e`, followed by the whitespace after it.
pub open spec fn done_at(s: Seq<u8>, e: int, node: LitV, loc: SpanV) -> Step<ParsedV<LitV>> {
    Step::Done(skip_ws(s, e), ParsedV { node, loc })
}

/// A string, number or keyword literal at `i0`; `None` where none starts there.
pub open spec fn primitive_at(s: Seq<u8>, i0: int) -> Option<Step<ParsedV<LitV>>> {
    match string_literal(s, i0) {
        Some((e, d, r)) => Some(done_at(s, e, LitV::String(utf8_lossy(d)), Some(r))),
        None => match number_text_at(s, i0) {
            Some((e, text, loc)) => match json_number_of(utf8_lossy(text)) {
                Some(n) => Some(done_at(s, e, LitV::Number(n), loc)),
                None => Some(Step::Abort(i0)),
            },
            None => if word_at(s, i0, word_true()) {
                Some(done_at(s, i0 + 4, LitV::Bool(true), Some((i0, i0 + 4))))
            } else if word_at(s, i0, word_false()) {
                Some(done_at(s, i0 + 5, LitV::Bool(false), Some((i0, i0 + 5))))
            } else if word_at(s, i0, word_null()) {
                Some(done_at(s, i0 + 4, LitV::Null, Some((i0, i0 + 4))))
            } else {
                None
            },
        },
    }
}

/// A path selection at `i0` as a literal.
pub open spec fn path_lit_at(s: Seq<u8>, i0: int) -> Step<ParsedV<LitV>> {
    match path_at(s, i0) {
        Some((e, p)) => done_at(
            s,
            e,
            LitV::Path(ParsedV { node: PathSelectionV { path: p }, loc: p.loc }),
            p.loc,
        ),
        None => Step::Miss,
    }
}

/// A literal expression after optional whitespace, and the whitespace after
/// it. The alternatives are tried in order: string, number, `true`, `false`,
/// `null`, object, array, path.
pub open spec fn lit_at(s: Seq<u8>, i: int) -> Step<ParsedV<LitV>>
    decreases s.len() - i, 2int,
{
    let i0 = skip_ws(s, i);
    match primitive_at(s, i0) {
        Some(st) => st,
        None => match object_at(s, i) {
            Step::Miss => match array_at(s, i) {
                Step::Miss => path_lit_at(s, i0),
                other => other,
            },
            other => other,
        },
    }
}

/// The closing bracket of an array whose items end at `k`.
pub open spec fn close_array(s: Seq<u8>, k: int, items: Seq<ParsedV<LitV>>, open: int) -> Step<
    ParsedV<LitV>,
> {
    let c = skip_ws(s, k);
    if 0 <= c < s.len() && s[c] == 0x5d {
        done_at(s, c + 1, LitV::Array(items), Some((open, c + 1)))
    } else {
        Step::Miss
    }
}

/// Past a trailing comma at `j`, if there is one.
pub open spec fn past_comma(s: Seq<u8>, j: int) -> int {
    if 0 <= j < s.len() && s[j] == 0x2c {
        j + 1
    } else {
        j
    }
}

/// The items `, item , item ...` that follow the items read so far.
pub open spec fn items_after(s: Seq<u8>, j: int, acc: Seq<ParsedV<LitV>>) -> Step<
    Seq<ParsedV<LitV>>,
>
    decreases s.len() - j, 0int,
{
    if 0 <= j < s.len() && s[j] == 0x2c {
        match lit_at(s, j + 1) {
            Step::Done(e, v) => if j < e <= s.len() {
                items_after(s, e, acc.push(v))
            } else {
                Step::Done(j, acc)
            },
            Step::Miss => Step::Done(j, acc),
            Step::Abort(p) => Step::Abort(p),
        }
    } else {
        Step::Done(j, acc)
    }
}

/// An array `[ item , item , ... ]`, with an optional trailing comma.
pub open spec fn array_at(s: Seq<u8>, i: int) -> Step<ParsedV<LitV>>
    decreases s.len() - i, 1int,
{
    let i0 = skip_ws(s, i);
    if 0 <= i0 < s.len() && s[i0] == 0x5b {
        match lit_at(s, i0 + 1) {
            Step::Done(e, first) => if i0 < e <= s.len() {
                match items_after(s, e, seq![first]) {
                    Step::Done(e2, items) => close_array(s, past_comma(s, e2), items, i0),
                    Step::Abort(p) => Step::Abort(p),
                    Step::Miss => Step::Miss,
                }
            } else {
                Step::Miss
            },
            Step::Miss => close_array(s, i0 + 1, Seq::empty(), i0),
            Step::Abort(p) => Step::Abort(p),
        }
    } else {
        Step::Miss
    }
}

/// The position of the property whose key is `key`, searching from `i`;
/// -1 when there is none.
pub open spec fn find_key(m: Seq<PropV>, key: KeyV, i: int) -> int
    decreases m.len() - i,
{
    if 0 <= i < m.len() {
        if m[i].0.node == key {
            i
        } else {
            find_key(m, key, i + 1)
        }
    } else {
        -1
    }
}

/// Adds a property: a key already present keeps its place and its own
/// location and takes the new value; a new key goes last.
pub open spec fn insert_prop(m: Seq<PropV>, p: PropV) -> Seq<PropV> {
    let idx = find_key(m, p.0.node, 0);
    if idx >= 0 {
        m.update(idx, (m[idx].0, p.1))
    } else {
        m.push(p)
    }
}

/// A property `key : value`.
pub open spec fn prop_at(s: Seq<u8>, j: int) -> Step<PropV>
    decreases s.len() - j, 3int,
{
    match key_at(s, j) {
        Some((ke, k)) => if j <= ke < s.len() && s[ke] == 0x3a {
            match lit_at(s, ke + 1) {
                Step::Done(e, v) => Step::Done(e, (k, v)),
                Step::Miss => Step::Miss,
                Step::Abort(p) => Step::Abort(p),
            }
        } else {
            Step::Miss
        },
        None => Step::Miss,
    }
}

/// The properties `, prop , prop ...` that follow those read so far.
pub open spec fn props_after(s: Seq<u8>, j: int, acc: Seq<PropV>) -> Step<Seq<PropV>>
    decreases s.len() - j, 0int,
{
    if 0 <= j < s.len() && s[j] == 0x2c {
        match prop_at(s, j + 1) {
            Step::Done(e, p) => if j < e <= s.len() {
                props_after(s, e, insert_prop(acc, p))
            } else {
                Step::Done(j, acc)
            },
            Step::Miss => Step::Done(j, acc),
            Step::Abort(p) => Step::Abort(p),
        }
    } else {
        Step::Done(j, acc)
    }
}

/// The closing brace of an object whose properties end at `k`.
pub open spec fn close_object(s: Seq<u8>, k: int, props: Seq<PropV>, open: int) -> Step<
    ParsedV<LitV>,
> {
    let c = skip_ws(s, k);
    if 0 <= c < s.len() && s[c] == 0x7d {
        done_at(s, c + 1, LitV::Object(props), Some((open, c + 1)))
    } else {
        Step::Miss
    }
}

/// An object `{ key : value , ... }`, with an optional trailing comma.
pub open spec fn object_at(s: Seq<u8>, i: int) -> Step<ParsedV<LitV>>
    decreases s.len() - i, 1int,
{
    let i0 = skip_ws(s, i);
    if 0 <= i0 < s.len() && s[i0] == 0x7b {
        match prop_at(s, i0 + 1) {
            Step::Done(e, first) => if i0 < e <= s.len() {
                match props_after(s, e, seq![first]) {
                    Step::Done(e2, props) => close_object(s, past_comma(s, e2), props, i0),
                    Step::Abort(p) => Step::Abort(p),
                    Step::Miss => Step::Miss,
                }
            } else {
                Step::Miss
            },
            Step::Miss => close_object(s, i0 + 1, Seq::empty(), i0),
            Step::Abort(p) => Step::Abort(p),
        }
    } else {
        Step::Miss
    }
}

} // verus!

verus! {

pub open spec fn prop_step_of(r: Result<(usize, Parsed<Key>, Parsed<LitExpr>), ParseError>) -> Step<
    PropV,
> {
    match r {
        Ok((e, k, v)) => Step::Done(e as int, (k@, v@)),
        Err(ParseError::NoMatch(_)) => Step::Miss,
        Err(ParseError::Fatal(p)) => Step::Abort(p as int),
    }
}

proof fn lemma_array_view(v: Vec<Parsed<LitExpr>>)
    ensures
        lit_view(LitExpr::Array(v)) == LitV::Array(items_view(v@)),
{
    if let LitV::Array(w) = lit_view(LitExpr::Array(v)) {
        assert(w =~= items_view(v@));
    }
}

proof fn lemma_object_view(v: Vec<(Parsed<Key>, Parsed<LitExpr>)>)
    ensures
        lit_view(LitExpr::Object(v)) == LitV::Object(props_view(v@)),
{
    if let LitV::Object(w) = lit_view(LitExpr::Object(v)) {
        assert(w =~= props_view(v@));
    }
}

/// Appends the bytes `s[a..b]` to `text`.
fn append_bytes(text: &mut Vec<u8>, s: &[u8], a: usize, b: usize)
    requires
        a <= b <= s@.len(),
    ensures
        final(text)@ == old(text)@ + s@.subrange(a as int, b as int),
{
    let mut i: usize = a;
    while i < b
        invariant
            a <= i <= b <= s@.len(),
            text@ == old(text)@ + s@.subrange(a as int, i as int),
        decreases b - i,
    {
        proof {
            assert(s@.subrange(a as int, i + 1) =~= s@.subrange(a as int, i as int).push(s@[i as int]));
        }
        text.push(s[i]);
        i = i + 1;
    }
}

/// Whether the four bytes `w` stand at offset `i`.
fn word4_at(s: &[u8], i: usize, w0: u8, w1: u8, w2: u8, w3: u8) -> (r: bool)
    ensures
        r == word_at(s@, i as int, seq![w0, w1, w2, w3]),
        r ==> i + 4 <= s@.len(),
{
    if i <= s.len() && 4 <= s.len() - i {
        let r = s[i] == w0 && s[i + 1] == w1 && s[i + 2] == w2 && s[i + 3] == w3;
        proof {
            let sub = s@.subrange(i as int, i + 4);
            if r {
                assert(sub =~= seq![w0, w1, w2, w3]);
            } else if sub == seq![w0, w1, w2, w3] {
                assert(sub[0] == w0 && sub[1] == w1 && sub[2] == w2 && sub[3] == w3);
            }
        }
        r
    } else {
        false
    }
}

/// Whether the five bytes `w` stand at offset `i`.
fn word5_at(s: &[u8], i: usize, w0: u8, w1: u8, w2: u8, w3: u8, w4: u8) -> (r: bool)
    ensures
        r == word_at(s@, i as int, seq![w0, w1, w2, w3, w4]),
        r ==> i + 5 <= s@.len(),
{
    if i <= s.len() && 5 <= s.len() - i {
        let r = s[i] == w0 && s[i + 1] == w1 && s[i + 2] == w2 && s[i + 3] == w3 && s[i + 4]
            == w4;
        proof {
            let sub = s@.subrange(i as int, i + 5);
            if r {
                assert(sub =~= seq![w0, w1, w2, w3, w4]);
            } else if sub == seq![w0, w1, w2, w3, w4] {
                assert(sub[0] == w0 && sub[1] == w1 && sub[2] == w2 && sub[3] == w3 && sub[4]
                    == w4);
            }
        }
        r
    } else {
        false
    }
}

/// Reads a number literal after optional whitespace: where it ends, its text
/// normalized for reading as JSON (`.5` as `0.5`, `5.` as `5.0`, no
/// whitespace after the sign), and its range from sign to last digit.
pub fn parse_number_text(s: &[u8], pos: usize) -> (r: Option<(usize, Vec<u8>, Option<(usize, usize)>)>)
    requires
        pos <= s@.len(),
    ensures
        match (r, number_text_at(s@, pos as int)) {
            (Some((e, t, l)), Some((e2, t2, l2))) => e == e2 && t@ == t2 && span_view(l) == l2
                && e <= s@.len(),
            (None, None) => true,
            _ => false,
        },
{
    let i0 = skip_ignorable(s, pos);
    let neg = i0 < s.len() && s[i0] == 0x2d;
    let j = if neg {
        skip_ignorable(s, i0 + 1)
    } else {
        i0
    };
    let mut text: Vec<u8> = Vec::new();
    if neg {
        text.push(0x2d);
    }
    let sign_loc = if neg {
        Some((i0, i0 + 1))
    } else {
        None
    };
    let ghost sign: Seq<u8> = if neg {
        seq![0x2du8]
    } else {
        Seq::empty()
    };
    assert(text@ =~= sign);
    if j < s.len() && 0x30 <= s[j] && s[j] <= 0x39 {
        let e = scan_digits(s, j);
        append_bytes(&mut text, s, j, e);
        let k = skip_ignorable(s, e);
        if k < s.len() && s[k] == 0x2e {
            let k2 = skip_ignorable(s, k + 1);
            let f = scan_digits(s, k2);
            text.push(0x2e);
            let frac_loc = if f > k2 {
                append_bytes(&mut text, s, k2, f);
                merge_locs(Some((k, k + 1)), Some((k2, f)))
            } else {
                text.push(0x30);
                merge_locs(Some((k, k + 1)), None)
            };
            assert(text@ =~= sign + s@.subrange(j as int, e as int) + seq![0x2eu8] + (if f > k2 {
                s@.subrange(k2 as int, f as int)
            } else {
                seq![0x30u8]
            }));
            let loc = merge_locs(sign_loc, merge_locs(Some((j, e)), frac_loc));
            Some((f, text, loc))
        } else {
            let loc = merge_locs(sign_loc, Some((j, e)));
            Some((e, text, loc))
        }
    } else if j < s.len() && s[j] == 0x2e {
        let k2 = skip_ignorable(s, j + 1);
        let f = scan_digits(s, k2);
        if f > k2 {
            text.push(0x30);
            text.push(0x2e);
            append_bytes(&mut text, s, k2, f);
            assert(text@ =~= sign + seq![0x30u8, 0x2e] + s@.subrange(k2 as int, f as int));
            let loc = merge_locs(sign_loc, merge_locs(Some((j, j + 1)), Some((k2, f))));
            Some((f, text, loc))
        } else {
            None
        }
    } else {
        None
    }
}

/// Whether two keys are the same key: same form and same text.
fn same_key(a: &Key, b: &Key) -> (r: bool)
    ensures
        r == (a@ == b@),
{
    match (a, b) {
        (Key::Field(x), Key::Field(y)) => *x == *y,
        (Key::Quoted(x), Key::Quoted(y)) => *x == *y,
        _ => false,
    }
}

/// Adds a property to an object under construction: a key already present
/// keeps its place and takes the new value; a new key goes last.
fn insert_property(m: &mut Vec<(Parsed<Key>, Parsed<LitExpr>)>, k: Parsed<Key>, v: Parsed<LitExpr>)
    ensures
        props_view(final(m)@) == insert_prop(props_view(old(m)@), (k@, v@)),
{
    let ghost mv = props_view(m@);
    let mut i: usize = 0;
    while i < m.len()
        invariant
            i <= m@.len(),
            mv == props_view(m@),
            m@ == old(m)@,
            find_key(mv, k@.node, 0) == find_key(mv, k@.node, i as int),
        decreases m@.len() - i,
    {
        if same_key(&*m[i].0.node, &*k.node) {
            assert(mv[i as int].0.node == k@.node);
            assert(find_key(mv, k@.node, i as int) == i);
            let (old_k, _old_v) = m.remove(i);
            m.insert(i, (old_k, v));
            assert(props_view(m@) =~= mv.update(i as int, (mv[i as int].0, v@)));
            return;
        }
        i = i + 1;
    }
    m.push((k, v));
    assert(props_view(m@) =~= mv.push((k@, v@)));
}

impl LitExpr {
    /// Parses a literal expression at the start of `input`, with the
    /// whitespace around it. On success, gives the offset where the unread
    /// rest of the input starts.
    pub fn parse(input: &str) -> (r: Result<(usize, Parsed<LitExpr>), ParseError>)
        ensures
            step_of(r) == lit_at(input.spec_bytes(), 0),
            r matches Err(ParseError::NoMatch(p)) ==> p == 0,
    {
        Self::parse_at(input.as_bytes(), 0)
    }

    /// Parses a literal expression at offset `pos` of `s`, with the whitespace
    /// around it.
    pub fn parse_at(s: &[u8], pos: usize) -> (r: Result<(usize, Parsed<LitExpr>), ParseError>)
        requires
            pos <= s@.len(),
        ensures
            step_of(r) == lit_at(s@, pos as int),
            r matches Err(ParseError::NoMatch(p)) ==> p == pos,
            r matches Ok((e, _)) ==> e <= s@.len(),
        decreases s@.len() - pos, 2int,
    {
        let i0 = skip_ignorable(s, pos);
        match Self::parse_primitive(s, i0) {
            Some(r) => {
                return r;
            },
            None => {},
        }
        match Self::parse_object(s, pos) {
            Err(ParseError::NoMatch(_)) => {},
            other => {
                return other;
            },
        }
        match Self::parse_array(s, pos) {
            Err(ParseError::NoMatch(_)) => {},
            other => {
                return other;
            },
        }
        match PathSelection::parse(s, i0) {
            Some((e, path)) => {
                let loc = path.path.loc;
                let after = skip_ignorable(s, e);
                Ok((after, Parsed::new(LitExpr::Path(Parsed::new(path, loc)), loc)))
            },
            None => Err(ParseError::NoMatch(pos)),
        }
    }

    /// Parses a string, number or keyword literal at `i0`.
    fn parse_primitive(s: &[u8], i0: usize) -> (r: Option<Result<(usize, Parsed<LitExpr>), ParseError>>)
        requires
            i0 <= s@.len(),
        ensures
            match r {
                Some(x) => primitive_at(s@, i0 as int) == Some(step_of(x)) && (x matches Ok((
                    e,
                    _,
                )) ==> e <= s@.len()) && !(x is Err && x->Err_0 is NoMatch),
                None => primitive_at(s@, i0 as int) is None,
            },
    {
        let n = s.len();
        match parse_string_literal(s, i0) {
            Some((e, d, (a, b))) => {
                let text = text_of(d.as_slice());
                let after = skip_ignorable(s, e);
                return Some(Ok((after, Parsed::new(LitExpr::String(text), Some((a, b))))));
            },
            None => {},
        }
        match parse_number_text(s, i0) {
            Some((e, digits, loc)) => {
                let text = text_of(digits.as_slice());
                match parse_json_number(text.as_str()) {
                    Some(n) => {
                        let after = skip_ignorable(s, e);
                        return Some(Ok((after, Parsed::new(LitExpr::Number(n), loc))));
                    },
                    None => {
                        return Some(Err(ParseError::Fatal(i0)));
                    },
                }
            },
            None => {},
        }
        if word4_at(s, i0, 0x74, 0x72, 0x75, 0x65) {
            let after = skip_ignorable(s, i0 + 4);
            return Some(Ok((after, Parsed::new(LitExpr::Bool(true), Some((i0, i0 + 4))))));
        }
        if word5_at(s, i0, 0x66, 0x61, 0x6c, 0x73, 0x65) {
            let after = skip_ignorable(s, i0 + 5);
            return Some(Ok((after, Parsed::new(LitExpr::Bool(false), Some((i0, i0 + 5))))));
        }
        if word4_at(s, i0, 0x6e, 0x75, 0x6c, 0x6c) {
            let after = skip_ignorable(s, i0 + 4);
            return Some(Ok((after, Parsed::new(LitExpr::Null, Some((i0, i0 + 4))))));
        }
        None
    }

    /// Parses an object `{ key : value , ... }`.
    fn parse_object(s: &[u8], pos: usize) -> (r: Result<(usize, Parsed<LitExpr>), ParseError>)
        requires
            pos <= s@.len(),
        ensures
            step_of(r) == object_at(s@, pos as int),
            r matches Err(ParseError::NoMatch(p)) ==> p == pos,
            r matches Ok((e, _)) ==> e <= s@.len(),
        decreases s@.len() - pos, 1int,
    {
        let i0 = skip_ignorable(s, pos);
        if !(i0 < s.len() && s[i0] == 0x7b) {
            return Err(ParseError::NoMatch(pos));
        }
        let mut props: Vec<(Parsed<Key>, Parsed<LitExpr>)> = Vec::new();
        let k: usize;
        match Self::parse_property(s, i0 + 1) {
            Err(ParseError::Fatal(p)) => {
                return Err(ParseError::Fatal(p));
            },
            Err(ParseError::NoMatch(_)) => {
                k = i0 + 1;
                assert(props_view(props@) =~= Seq::<PropV>::empty());
            },
            Ok((e, key, value)) => {
                if !(i0 < e && e <= s.len()) {
                    return Err(ParseError::NoMatch(pos));
                }
                let ghost first = (key@, value@);
                insert_property(&mut props, key, value);
                assert(props_view(props@) =~= seq![first]);
                let mut j = e;
                loop
                    invariant
                        pos <= i0 < j <= s@.len(),
                        i0 as int == skip_ws(s@, pos as int),
                        s@[i0 as int] == 0x7b,
                        i0 < e <= s@.len(),
                        prop_at(s@, i0 + 1) == Step::Done(e as int, first),
                        props_after(s@, e as int, seq![first]) == props_after(
                            s@,
                            j as int,
                            props_view(props@),
                        ),
                    ensures
                        pos <= i0 < j <= s@.len(),
                        props_after(s@, e as int, seq![first]) == Step::Done(
                            j as int,
                            props_view(props@),
                        ),
                    decreases s@.len() - j,
                {
                    if j < s.len() && s[j] == 0x2c {
                        match Self::parse_property(s, j + 1) {
                            Ok((e2, key, value)) => {
                                if j < e2 && e2 <= s.len() {
                                    insert_property(&mut props, key, value);
                                    j = e2;
                                } else {
                                    break ;
                                }
                            },
                            Err(ParseError::NoMatch(_)) => {
                                break ;
                            },
                            Err(ParseError::Fatal(p)) => {
                                return Err(ParseError::Fatal(p));
                            },
                        }
                    } else {
                        break ;
                    }
                }
                k = if j < s.len() && s[j] == 0x2c {
                    j + 1
                } else {
                    j
                };
            },
        }
        let c = skip_ignorable(s, k);
        if c < s.len() && s[c] == 0x7d {
            let after = skip_ignorable(s, c + 1);
            proof {
                lemma_object_view(props);
            }
            Ok((after, Parsed::new(LitExpr::Object(props), Some((i0, c + 1)))))
        } else {
            Err(ParseError::NoMatch(pos))
        }
    }

    /// Parses a property `key : value`.
    fn parse_property(s: &[u8], pos: usize) -> (r: Result<
        (usize, Parsed<Key>, Parsed<LitExpr>),
        ParseError,
    >)
        requires
            pos <= s@.len(),
        ensures
            prop_step_of(r) == prop_at(s@, pos as int),
        decreases s@.len() - pos, 3int,
    {
        match parse_key(s, pos) {
            Some((ke, key)) => {
                if pos <= ke && ke < s.len() && s[ke] == 0x3a {
                    match Self::parse_at(s, ke + 1) {
                        Ok((e, value)) => Ok((e, key, value)),
                        Err(err) => Err(err),
                    }
                } else {
                    Err(ParseError::NoMatch(pos))
                }
            },
            None => Err(ParseError::NoMatch(pos)),
        }
    }

    /// Parses an array `[ item , item , ... ]`.
    fn parse_array(s: &[u8], pos: usize) -> (r: Result<(usize, Parsed<LitExpr>), ParseError>)
        requires
            pos <= s@.len(),
        ensures
            step_of(r) == array_at(s@, pos as int),
            r matches Err(ParseError::NoMatch(p)) ==> p == pos,
            r matches Ok((e, _)) ==> e <= s@.len(),
        decreases s@.len() - pos, 1int,
    {
        let i0 = skip_ignorable(s, pos);
        if !(i0 < s.len() && s[i0] == 0x5b) {
            return Err(ParseError::NoMatch(pos));
        }
        let mut items: Vec<Parsed<LitExpr>> = Vec::new();
        let k: usize;
        match Self::parse_at(s, i0 + 1) {
            Err(ParseError::Fatal(p)) => {
                return Err(ParseError::Fatal(p));
            },
            Err(ParseError::NoMatch(_)) => {
                k = i0 + 1;
                assert(items_view(items@) =~= Seq::<ParsedV<LitV>>::empty());
            },
            Ok((e, first)) => {
                if !(i0 < e && e <= s.len()) {
                    return Err(ParseError::NoMatch(pos));
                }
                let ghost first_v = first@;
                items.push(first);
                assert(items_view(items@) =~= seq![first_v]);
                let mut j = e;
                loop
                    invariant
                        pos <= i0 < j <= s@.len(),
                        i0 as int == skip_ws(s@, pos as int),
                        s@[i0 as int] == 0x5b,
                        i0 < e <= s@.len(),
                        lit_at(s@, i0 + 1) == Step::Done(e as int, first_v),
                        items_after(s@, e as int, seq![first_v]) == items_after(
                            s@,
                            j as int,
                            items_view(items@),
                        ),
                    ensures
                        pos <= i0 < j <= s@.len(),
                        items_after(s@, e as int, seq![first_v]) == Step::Done(
                            j as int,
                            items_view(items@),
                        ),
                    decreases s@.len() - j,
                {
                    if j < s.len() && s[j] == 0x2c {
                        match Self::parse_at(s, j + 1) {
                            Ok((e2, item)) => {
                                if j < e2 && e2 <= s.len() {
                                    let ghost before = items_view(items@);
                                    let ghost iv = item@;
                                    items.push(item);
                                    assert(items_view(items@) =~= before.push(iv));
                                    j = e2;
                                } else {
                                    break ;
                                }
                            },
                            Err(ParseError::NoMatch(_)) => {
                                break ;
                            },
                            Err(ParseError::Fatal(p)) => {
                                return Err(ParseError::Fatal(p));
                            },
                        }
                    } else {
                        break ;
                    }
                }
                k = if j < s.len() && s[j] == 0x2c {
                    j + 1
                } else {
                    j
                };
            },
        }
        let c = skip_ignorable(s, k);
        if c < s.len() && s[c] == 0x5d {
            let after = skip_ignorable(s, c + 1);
            proof {
                lemma_array_view(items);
            }
            Ok((after, Parsed::new(LitExpr::Array(items), Some((i0, c + 1)))))
        } else {
            Err(ParseError::NoMatch(pos))
        }
    }
}

} // verus!

verus! {

/// The path selections embedded in a literal, left to right, depth first.
pub open spec fn var_paths(e: LitV) -> Seq<PathSelectionV>
    decreases e,
{
    match e {
        LitV::Object(props) => prop_var_paths(props),
        LitV::Array(items) => item_var_paths(items),
        LitV::Path(p) => seq![p.node],
        _ => Seq::empty(),
    }
}

/// The path selections embedded in the values of the properties, in order.
pub open spec fn prop_var_paths(props: Seq<PropV>) -> Seq<PathSelectionV>
    decreases props,
{
    if props.len() == 0 {
        Seq::empty()
    } else {
        prop_var_paths(props.subrange(0, props.len() - 1)) + var_paths(
            props[props.len() - 1].1.node,
        )
    }
}

/// The path selections embedded in the items, in order.
pub open spec fn item_var_paths(items: Seq<ParsedV<LitV>>) -> Seq<PathSelectionV>
    decreases items,
{
    if items.len() == 0 {
        Seq::empty()
    } else {
        item_var_paths(items.subrange(0, items.len() - 1)) + var_paths(
            items[items.len() - 1].node,
        )
    }
}

pub open spec fn paths_view(v: Seq<&PathSelection>) -> Seq<PathSelectionV> {
    Seq::new(v.len(), |i: int| v[i]@)
}

/// A literal expression with every location removed.
pub open spec fn strip(e: LitV) -> LitV
    decreases e,
{
    match e {
        LitV::Object(props) => LitV::Object(
            Seq::new(
                props.len(),
                |i: int|
                    if 0 <= i < props.len() {
                        (
                            ParsedV { node: props[i].0.node, loc: None },
                            ParsedV { node: strip(props[i].1.node), loc: None },
                        )
                    } else {
                        (props[0].0, props[0].1)
                    },
            ),
        ),
        LitV::Array(items) => LitV::Array(
            Seq::new(
                items.len(),
                |i: int|
                    if 0 <= i < items.len() {
                        ParsedV { node: strip(items[i].node), loc: None }
                    } else {
                        items[0]
                    },
            ),
        ),
        LitV::Path(p) => LitV::Path(ParsedV { node: PathSelectionV { path: strip_path(p.node.path) }, loc: None }),
        other => other,
    }
}

impl LitExpr {
    pub fn into_parsed(self) -> (r: Parsed<LitExpr>)
        ensures
            *r.node == self,
            r.loc is None,
    {
        Parsed::new(self, None)
    }

    /// The number as an `i64`, where this literal is a number that serde_json
    /// can give as one; `None` for every other kind of literal.
    pub fn as_i64(&self) -> (r: Option<i64>)
        ensures
            !(self is Number) ==> r is None,
    {
        match self {
            LitExpr::Number(n) => n.as_i64(),
            _ => None,
        }
    }

    /// Every path selection embedded in this literal, directly or inside
    /// objects and arrays, left to right and depth first.
    pub fn external_var_paths(&self) -> (r: Vec<&PathSelection>)
        ensures
            paths_view(r@) == var_paths(self@),
        decreases self,
    {
        let mut paths: Vec<&PathSelection> = Vec::new();
        match self {
            LitExpr::String(_) | LitExpr::Number(_) | LitExpr::Bool(_) | LitExpr::Null => {
                assert(paths_view(paths@) =~= Seq::<PathSelectionV>::empty());
            },
            LitExpr::Object(props) => {
                proof {
                    lemma_object_view(*props);
                }
                let ghost pv = props_view(props@);
                let mut i: usize = 0;
                assert(pv.subrange(0, 0) =~= Seq::<PropV>::empty());
                assert(paths_view(paths@) =~= Seq::<PathSelectionV>::empty());
                while i < props.len()
                    invariant
                        i <= props@.len(),
                        pv == props_view(props@),
                        *self == LitExpr::Object(*props),
                        paths_view(paths@) == prop_var_paths(pv.subrange(0, i as int)),
                    decreases props@.len() - i,
                {
                    let value: &LitExpr = &*props[i].1.node;
                    proof {
                        vstd::std_specs::vec::axiom_vec_index_decreases(*props, i as int);
                        assert(decreases_to!(*self => (*self)->Object_0));
                        assert(decreases_to!(props@[i as int] => props@[i as int].1));
                        assert(decreases_to!(props@[i as int].1 => props@[i as int].1.node));
                    }
                    let mut sub = value.external_var_paths();
                    let ghost before = paths_view(paths@);
                    let ghost subv = paths_view(sub@);
                    paths.append(&mut sub);
                    assert(paths_view(paths@) =~= before + subv);
                    assert(pv.subrange(0, i + 1).subrange(0, i as int) =~= pv.subrange(0, i as int));
                    i = i + 1;
                }
                assert(pv.subrange(0, props@.len() as int) =~= pv);
            },
            LitExpr::Array(items) => {
                proof {
                    lemma_array_view(*items);
                }
                let ghost iv = items_view(items@);
                let mut i: usize = 0;
                assert(iv.subrange(0, 0) =~= Seq::<ParsedV<LitV>>::empty());
                assert(paths_view(paths@) =~= Seq::<PathSelectionV>::empty());
                while i < items.len()
                    invariant
                        i <= items@.len(),
                        iv == items_view(items@),
                        *self == LitExpr::Array(*items),
                        paths_view(paths@) == item_var_paths(iv.subrange(0, i as int)),
                    decreases items@.len() - i,
                {
                    let value: &LitExpr = &*items[i].node;
                    proof {
                        vstd::std_specs::vec::axiom_vec_index_decreases(*items, i as int);
                        assert(decreases_to!(*self => (*self)->Array_0));
                        assert(decreases_to!(items@[i as int] => items@[i as int].node));
                    }
                    let mut sub = value.external_var_paths();
                    let ghost before = paths_view(paths@);
                    let ghost subv = paths_view(sub@);
                    paths.append(&mut sub);
                    assert(paths_view(paths@) =~= before + subv);
                    assert(iv.subrange(0, i + 1).subrange(0, i as int) =~= iv.subrange(0, i as int));
                    i = i + 1;
                }
                assert(iv.subrange(0, items@.len() as int) =~= iv);
            },
            LitExpr::Path(p) => {
                paths.push(&*p.node);
                assert(paths_view(paths@) =~= seq![(*p.node)@]);
            },
        }
        paths
    }
}

} // verus!

verus! {

impl Parsed<LitExpr> {
    /// The same literal with every location removed, its own and those of
    /// everything inside it.
    pub fn strip_loc(self) -> (r: Parsed<LitExpr>)
        ensures
            r@ == (ParsedV { node: strip(self@.node), loc: None }),
        decreases self,
    {
        let ghost whole = *self.node;
        let node = *self.node;
        let stripped = match node {
            LitExpr::Object(props) => {
                proof {
                    lemma_object_view(props);
                }
                let ghost orig = props@;
                let ghost ov = props_view(props@);
                let mut rest = props;
                let mut out: Vec<(Parsed<Key>, Parsed<LitExpr>)> = Vec::new();
                let mut k: usize = 0;
                while rest.len() > 0
                    invariant
                        whole == *self.node,
                        whole == LitExpr::Object(whole->Object_0),
                        orig == whole->Object_0@,
                        ov == props_view(orig),
                        k <= orig.len(),
                        rest@ == orig.subrange(k as int, orig.len() as int),
                        out@.len() == k,
                        forall|j: int|
                            0 <= j < k ==> #[trigger] out@[j].0@ == (ParsedV {
                                node: ov[j].0.node,
                                loc: None::<(int, int)>,
                            }) && out@[j].1@ == (ParsedV { node: strip(ov[j].1.node), loc: None::<(int, int)> }),
                    decreases rest@.len(),
                {
                    let (key, value) = rest.remove(0);
                    proof {
                        assert(orig[k as int] == (key, value));
                        vstd::std_specs::vec::axiom_vec_index_decreases(whole->Object_0, k as int);
                        assert(decreases_to!(whole => whole->Object_0));
                        assert(decreases_to!(orig[k as int] => orig[k as int].1));
                        assert(decreases_to!(self => whole));
                    }
                    let v2 = value.strip_loc();
                    let k2 = Parsed::new(*key.node, None);
                    out.push((k2, v2));
                    k = out.len();
                    assert(rest@ =~= orig.subrange(k as int, orig.len() as int));
                }
                proof {
                    lemma_object_view(out);
                    if let LitV::Object(w) = strip(whole@) {
                        assert(w =~= props_view(out@));
                    }
                }
                LitExpr::Object(out)
            },
            LitExpr::Array(items) => {
                proof {
                    lemma_array_view(items);
                }
                let ghost orig = items@;
                let ghost iv = items_view(items@);
                let mut rest = items;
                let mut out: Vec<Parsed<LitExpr>> = Vec::new();
                let mut k: usize = 0;
                while rest.len() > 0
                    invariant
                        whole == *self.node,
                        whole == LitExpr::Array(whole->Array_0),
                        orig == whole->Array_0@,
                        iv == items_view(orig),
                        k <= orig.len(),
                        rest@ == orig.subrange(k as int, orig.len() as int),
                        out@.len() == k,
                        forall|j: int|
                            0 <= j < k ==> #[trigger] out@[j]@ == (ParsedV {
                                node: strip(iv[j].node),
                                loc: None::<(int, int)>,
                            }),
                    decreases rest@.len(),
                {
                    let item = rest.remove(0);
                    proof {
                        assert(orig[k as int] == item);
                        vstd::std_specs::vec::axiom_vec_index_decreases(whole->Array_0, k as int);
                        assert(decreases_to!(whole => whole->Array_0));
                        assert(decreases_to!(self => whole));
                    }
                    let v2 = item.strip_loc();
                    out.push(v2);
                    k = out.len();
                    assert(rest@ =~= orig.subrange(k as int, orig.len() as int));
                }
                proof {
                    lemma_array_view(out);
                    if let LitV::Array(w) = strip(whole@) {
                        assert(w =~= items_view(out@));
                    }
                }
                LitExpr::Array(out)
            },
            LitExpr::Path(p) => {
                let sel = *p.node;
                let path = strip_path_loc(sel.path);
                LitExpr::Path(Parsed::new(PathSelection { path }, None))
            },
            other => other,
        };
        Parsed::new(stripped, None)
    }
}

} // verus!

verus! {

/// Whitespace and comments around a literal are insignificant: reading from
/// before the whitespace that precedes it gives the same outcome, locations
/// included, as reading from the literal's first byte; and a literal that is
/// read consumes all the whitespace and comments that follow it.
pub proof fn lemma_ignorable_around_literal(s: Seq<u8>, i: int)
    ensures
        lit_at(s, i) == lit_at(s, skip_ws(s, i)),
        lit_at(s, i) matches Step::Done(e, _) ==> skip_ws(s, e) == e,
{
    let i0 = skip_ws(s, i);
    lemma_skip_stops(s, i);
    assert(skip_ws(s, i0) == i0);
    assert(object_at(s, i) == object_at(s, i0));
    assert(array_at(s, i) == array_at(s, i0));
    assert forall|j: int| #[trigger] skip_ws(s, j) == skip_ws(s, j) implies skip_ws(
        s,
        skip_ws(s, j),
    ) == skip_ws(s, j) by {
        lemma_skip_stops(s, j);
    }
}

} // verus!
