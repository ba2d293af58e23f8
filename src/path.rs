//! Keys and path selections: a chain of key segments, optionally rooted at a
//! known variable, closed by an empty terminator.

use vstd::prelude::*;
use crate::lexer::{
    ident_run, is_ident_start, parse_string_literal, scan_ident, skip_ignorable,
    skip_ws, string_literal, text_of, utf8_lossy,
};
use crate::location::{merge_locs, merge_spans, span_view, Parsed, ParsedV, SpanV};

verus! {

/// A property name: a bare identifier or a quoted string.
#[derive(Debug, Clone, PartialEq, Eq)]
pub enum Key {
    Field(String),
    Quoted(String),
}

pub enum KeyV {
    Field(Seq<char>),
    Quoted(Seq<char>),
}

impl View for Key {
    type V = KeyV;

    open spec fn view(&self) -> KeyV {
        match self {
            Key::Field(s) => KeyV::Field(s@),
            Key::Quoted(s) => KeyV::Quoted(s@),
        }
    }
}

impl Key {
    pub fn field(name: &str) -> (r: Key)
        ensures
            r@ == KeyV::Field(name@),
    {
        Key::Field(name.to_owned())
    }

    pub fn quoted(name: &str) -> (r: Key)
        ensures
            r@ == KeyV::Quoted(name@),
    {
        Key::Quoted(name.to_owned())
    }

    pub fn into_parsed(self) -> (r: Parsed<Key>)
        ensures
            *r.node == self,
            r.loc is None,
    {
        Parsed::new(self, None)
    }
}

/// The variables a path may start from.
#[derive(Debug, Clone, Copy, PartialEq, Eq)]
pub enum KnownVariable {
    /// `$`: the ambient input value.
    Dollar,
    /// `$args`: the field's arguments.
    Args,
    /// `$this`: the enclosing object.
    This,
    /// `$env`: the environment.
    Env,
}

impl View for KnownVariable {
    type V = KnownVariable;

    open spec fn view(&self) -> KnownVariable {
        *self
    }
}

impl KnownVariable {
    pub fn into_parsed(self) -> (r: Parsed<KnownVariable>)
        ensures
            *r.node == self,
            r.loc is None,
    {
        Parsed::new(self, None)
    }
}

/// The variable that `$` followed by `name` denotes.
pub open spec fn var_named(name: Seq<u8>) -> Option<KnownVariable> {
    if name == Seq::<u8>::empty() {
        Some(KnownVariable::Dollar)
    } else if name == seq![0x61u8, 0x72, 0x67, 0x73] {
        Some(KnownVariable::Args)
    } else if name == seq![0x74u8, 0x68, 0x69, 0x73] {
        Some(KnownVariable::This)
    } else if name == seq![0x65u8, 0x6e, 0x76] {
        Some(KnownVariable::Env)
    } else {
        None
    }
}

/// One link of a path: a variable or a key, followed by the rest of the path.
#[derive(Debug, PartialEq, Eq)]
pub enum PathList {
    Var(Parsed<KnownVariable>, Parsed<PathList>),
    Key(Parsed<Key>, Parsed<PathList>),
    Empty,
}

pub enum PathListV {
    Var(ParsedV<KnownVariable>, Box<ParsedV<PathListV>>),
    Key(ParsedV<KeyV>, Box<ParsedV<PathListV>>),
    Empty,
}

pub open spec fn path_list_view(p: &PathList) -> PathListV
    decreases p,
{
    match p {
        PathList::Var(v, rest) => PathListV::Var(
            v@,
            Box::new(ParsedV { node: path_list_view(&*rest.node), loc: span_view(rest.loc) }),
        ),
        PathList::Key(k, rest) => PathListV::Key(
            k@,
            Box::new(ParsedV { node: path_list_view(&*rest.node), loc: span_view(rest.loc) }),
        ),
        PathList::Empty => PathListV::Empty,
    }
}

impl View for PathList {
    type V = PathListV;

    open spec fn view(&self) -> PathListV {
        path_list_view(self)
    }
}

impl PathList {
    pub fn into_parsed(self) -> (r: Parsed<PathList>)
        ensures
            *r.node == self,
            r.loc is None,
    {
        Parsed::new(self, None)
    }
}

/// A path into the input or into a variable's value.
#[derive(Debug, PartialEq, Eq)]
pub struct PathSelection {
    pub path: Parsed<PathList>,
}

pub struct PathSelectionV {
    pub path: ParsedV<PathListV>,
}

impl View for PathSelection {
    type V = PathSelectionV;

    open spec fn view(&self) -> PathSelectionV {
        PathSelectionV { path: self.path@ }
    }
}

impl PathSelection {
    pub fn into_parsed(self) -> (r: Parsed<PathSelection>)
        ensures
            *r.node == self,
            r.loc is None,
    {
        Parsed::new(self, None)
    }
}

/// A path with every location removed.
pub open spec fn strip_path(p: ParsedV<PathListV>) -> ParsedV<PathListV>
    decreases p,
{
    match p.node {
        PathListV::Var(v, rest) => ParsedV {
            node: PathListV::Var(ParsedV { node: v.node, loc: None }, Box::new(strip_path(*rest))),
            loc: None,
        },
        PathListV::Key(k, rest) => ParsedV {
            node: PathListV::Key(ParsedV { node: k.node, loc: None }, Box::new(strip_path(*rest))),
            loc: None,
        },
        PathListV::Empty => ParsedV { node: PathListV::Empty, loc: None },
    }
}

pub open spec fn empty_path() -> ParsedV<PathListV> {
    ParsedV { node: PathListV::Empty, loc: None }
}

/// A key after optional whitespace, and the whitespace after it: where it
/// ends, and the key with the range it was written in.
pub open spec fn key_at(s: Seq<u8>, i: int) -> Option<(int, ParsedV<KeyV>)> {
    let i0 = skip_ws(s, i);
    if 0 <= i0 < s.len() && is_ident_start(s[i0]) {
        let e = i0 + ident_run(s, i0);
        Some(
            (
                skip_ws(s, e),
                ParsedV { node: KeyV::Field(utf8_lossy(s.subrange(i0, e))), loc: Some((i0, e)) },
            ),
        )
    } else {
        match string_literal(s, i) {
            Some((e, d, r)) => Some((e, ParsedV { node: KeyV::Quoted(utf8_lossy(d)), loc: Some(r) })),
            None => None,
        }
    }
}

/// The key segments `. key . key ...` that follow a path's start at `i`,
/// closed by the empty terminator.
pub open spec fn path_tail(s: Seq<u8>, i: int) -> (int, ParsedV<PathListV>)
    decreases s.len() - i,
{
    let i0 = skip_ws(s, i);
    if 0 <= i0 < s.len() && s[i0] == 0x2e {
        match key_at(s, i0 + 1) {
            Some((e, k)) => if i < e <= s.len() {
                let (e2, rest) = path_tail(s, e);
                (
                    e2,
                    ParsedV {
                        node: PathListV::Key(k, Box::new(rest)),
                        loc: merge_spans(k.loc, rest.loc),
                    },
                )
            } else {
                (i, empty_path())
            },
            None => (i, empty_path()),
        }
    } else {
        (i, empty_path())
    }
}

/// Where the name after a `$` at `i` ends.
pub open spec fn var_name_end(s: Seq<u8>, i: int) -> int {
    if 0 <= i < s.len() && is_ident_start(s[i]) {
        i + ident_run(s, i)
    } else {
        i
    }
}

/// A path selection after optional whitespace: `$var` then key segments,
/// `.key` then key segments, or `key` then key segments.
pub open spec fn path_at(s: Seq<u8>, i: int) -> Option<(int, ParsedV<PathListV>)> {
    let i0 = skip_ws(s, i);
    if !(0 <= i0 < s.len()) {
        None
    } else if s[i0] == 0x24 {
        let n = var_name_end(s, i0 + 1);
        match var_named(s.subrange(i0 + 1, n)) {
            Some(v) => {
                let var = ParsedV { node: v, loc: Some((i0, n)) };
                let (e, rest) = path_tail(s, n);
                Some(
                    (
                        e,
                        ParsedV {
                            node: PathListV::Var(var, Box::new(rest)),
                            loc: merge_spans(var.loc, rest.loc),
                        },
                    ),
                )
            },
            None => None,
        }
    } else if s[i0] == 0x2e {
        match key_at(s, i0 + 1) {
            Some((e, k)) => {
                let (e2, rest) = path_tail(s, e);
                Some(
                    (
                        e2,
                        ParsedV {
                            node: PathListV::Key(k, Box::new(rest)),
                            loc: merge_spans(Some((i0, i0 + 1)), merge_spans(k.loc, rest.loc)),
                        },
                    ),
                )
            },
            None => None,
        }
    } else {
        match key_at(s, i0) {
            Some((e, k)) => {
                let (e2, rest) = path_tail(s, e);
                Some(
                    (
                        e2,
                        ParsedV {
                            node: PathListV::Key(k, Box::new(rest)),
                            loc: merge_spans(k.loc, rest.loc),
                        },
                    ),
                )
            },
            None => None,
        }
    }
}

/// Reads a key after optional whitespace, and the whitespace after it.
pub fn parse_key(s: &[u8], pos: usize) -> (r: Option<(usize, Parsed<Key>)>)
    requires
        pos <= s@.len(),
    ensures
        match r {
            Some((e, k)) => key_at(s@, pos as int) == Some((e as int, k@)) && e <= s@.len(),
            None => key_at(s@, pos as int) is None,
        },
{
    let i0 = skip_ignorable(s, pos);
    if i0 < s.len() {
        let b = s[i0];
        if (0x61 <= b && b <= 0x7a) || (0x41 <= b && b <= 0x5a) || b == 0x5f {
            let e = scan_ident(s, i0);
            let name = text_of(&s[i0..e]);
            let after = skip_ignorable(s, e);
            return Some((after, Parsed::new(Key::Field(name), Some((i0, e)))));
        }
    }
    match parse_string_literal(s, pos) {
        Some((e, d, (a, b))) => {
            let text = text_of(d.as_slice());
            Some((e, Parsed::new(Key::Quoted(text), Some((a, b)))))
        },
        None => None,
    }
}

/// Reads the key segments that follow a path's start.
pub fn parse_path_tail(s: &[u8], pos: usize) -> (r: (usize, Parsed<PathList>))
    requires
        pos <= s@.len(),
    ensures
        path_tail(s@, pos as int) == (r.0 as int, r.1@),
        r.0 <= s@.len(),
    decreases s@.len() - pos,
{
    let i0 = skip_ignorable(s, pos);
    if i0 < s.len() && s[i0] == 0x2e {
        match parse_key(s, i0 + 1) {
            Some((e, k)) => {
                if pos < e && e <= s.len() {
                    let (e2, rest) = parse_path_tail(s, e);
                    let loc = merge_locs(k.loc, rest.loc);
                    return (e2, Parsed::new(PathList::Key(k, rest), loc));
                }
            },
            None => {},
        }
    }
    (pos, Parsed::new(PathList::Empty, None))
}

/// The variable named by `s[a..b]`, the name after a `$`.
fn known_variable(s: &[u8], a: usize, b: usize) -> (r: Option<KnownVariable>)
    requires
        a <= b <= s@.len(),
    ensures
        r == var_named(s@.subrange(a as int, b as int)),
{
    let name = Ghost(s@.subrange(a as int, b as int));
    if b == a {
        assert(name@ =~= Seq::<u8>::empty());
        Some(KnownVariable::Dollar)
    } else if b - a == 4 && s[a] == 0x61 && s[a + 1] == 0x72 && s[a + 2] == 0x67 && s[a + 3]
        == 0x73 {
        assert(name@ =~= seq![0x61u8, 0x72, 0x67, 0x73]);
        Some(KnownVariable::Args)
    } else if b - a == 4 && s[a] == 0x74 && s[a + 1] == 0x68 && s[a + 2] == 0x69 && s[a + 3]
        == 0x73 {
        assert(name@ =~= seq![0x74u8, 0x68, 0x69, 0x73]);
        assert(name@ != seq![0x61u8, 0x72, 0x67, 0x73]);
        Some(KnownVariable::This)
    } else if b - a == 3 && s[a] == 0x65 && s[a + 1] == 0x6e && s[a + 2] == 0x76 {
        assert(name@ =~= seq![0x65u8, 0x6e, 0x76]);
        Some(KnownVariable::Env)
    } else {
        proof {
            if name@ == seq![0x61u8, 0x72, 0x67, 0x73] {
                assert(name@[0] == 0x61u8);
            }
            if name@ == seq![0x74u8, 0x68, 0x69, 0x73] {
                assert(name@[0] == 0x74u8);
            }
            if name@ == seq![0x65u8, 0x6e, 0x76] {
                assert(name@[0] == 0x65u8);
            }
        }
        None
    }
}

impl PathSelection {
    /// Reads a path selection after optional whitespace.
    pub fn parse(s: &[u8], pos: usize) -> (r: Option<(usize, PathSelection)>)
        requires
            pos <= s@.len(),
        ensures
            match r {
                Some((e, p)) => path_at(s@, pos as int) == Some((e as int, p.path@)) && e
                    <= s@.len(),
                None => path_at(s@, pos as int) is None,
            },
    {
        let i0 = skip_ignorable(s, pos);
        if i0 >= s.len() {
            return None;
        }
        if s[i0] == 0x24 {
            let n = if i0 + 1 < s.len() && ((0x61 <= s[i0 + 1] && s[i0 + 1] <= 0x7a) || (0x41
                <= s[i0 + 1] && s[i0 + 1] <= 0x5a) || s[i0 + 1] == 0x5f) {
                scan_ident(s, i0 + 1)
            } else {
                i0 + 1
            };
            match known_variable(s, i0 + 1, n) {
                Some(v) => {
                    let var = Parsed::new(v, Some((i0, n)));
                    let (e, rest) = parse_path_tail(s, n);
                    let loc = merge_locs(var.loc, rest.loc);
                    Some((e, PathSelection { path: Parsed::new(PathList::Var(var, rest), loc) }))
                },
                None => None,
            }
        } else if s[i0] == 0x2e {
            match parse_key(s, i0 + 1) {
                Some((e, k)) => {
                    let (e2, rest) = parse_path_tail(s, e);
                    let loc = merge_locs(Some((i0, i0 + 1)), merge_locs(k.loc, rest.loc));
                    Some((e2, PathSelection { path: Parsed::new(PathList::Key(k, rest), loc) }))
                },
                None => None,
            }
        } else {
            match parse_key(s, i0) {
                Some((e, k)) => {
                    let (e2, rest) = parse_path_tail(s, e);
                    let loc = merge_locs(k.loc, rest.loc);
                    Some((e2, PathSelection { path: Parsed::new(PathList::Key(k, rest), loc) }))
                },
                None => None,
            }
        }
    }
}

} // verus!

verus! {

/// Removes every location from a path.
pub fn strip_path_loc(p: Parsed<PathList>) -> (r: Parsed<PathList>)
    ensures
        r@ == strip_path(p@),
    decreases p,
{
    let node = *p.node;
    match node {
        PathList::Var(v, rest) => {
            let var = Parsed::new(*v.node, None);
            let tail = strip_path_loc(rest);
            Parsed::new(PathList::Var(var, tail), None)
        },
        PathList::Key(k, rest) => {
            let key = Parsed::new(*k.node, None);
            let tail = strip_path_loc(rest);
            Parsed::new(PathList::Key(key, tail), None)
        },
        PathList::Empty => Parsed::new(PathList::Empty, None),
    }
}

} // verus!
