//! Located values: a node paired with the half-open byte range it was read from.

use vstd::prelude::*;
use vstd::std_specs::cmp::PartialEqSpec;

verus! {

/// A half-open byte range `(start, end)` into the parsed input.
pub type OffsetRange = Option<(usize, usize)>;

/// The model of an `OffsetRange`, with offsets as mathematical integers.
pub type SpanV = Option<(int, int)>;

pub open spec fn span_view(r: OffsetRange) -> SpanV {
    match r {
        Some((a, b)) => Some((a as int, b as int)),
        None => None,
    }
}

/// The smallest range enclosing both ranges; `None` when both are absent.
pub open spec fn merge_spans(a: SpanV, b: SpanV) -> SpanV {
    match (a, b) {
        (Some((s1, e1)), Some((s2, e2))) => Some(
            (if s1 <= s2 { s1 } else { s2 }, if e1 >= e2 { e1 } else { e2 }),
        ),
        (Some(x), None) => Some(x),
        (None, Some(y)) => Some(y),
        (None, None) => None,
    }
}

/// The model of a located value.
pub struct ParsedV<T> {
    pub node: T,
    pub loc: SpanV,
}

/// A value together with the location it was parsed from, if any. Two
/// located values are equal when their values are: the location is not part
/// of what a value is.
#[derive(Debug, Clone, Eq)]
pub struct Parsed<T> {
    pub node: Box<T>,
    pub loc: OffsetRange,
}

impl<T> Parsed<T> {
    pub fn new(node: T, loc: OffsetRange) -> (r: Self)
        ensures
            *r.node == node,
            r.loc == loc,
    {
        Parsed { node: Box::new(node), loc }
    }

    pub fn loc(&self) -> (r: OffsetRange)
        ensures
            r == self.loc,
    {
        self.loc
    }
}

impl<T: PartialEq> PartialEq for Parsed<T> {
    fn eq(&self, other: &Parsed<T>) -> (r: bool) {
        (*self.node).eq(&*other.node)
    }
}

impl<T: PartialEq> vstd::std_specs::cmp::PartialEqSpecImpl for Parsed<T> {
    open spec fn obeys_eq_spec() -> bool {
        <T as PartialEqSpec>::obeys_eq_spec()
    }

    open spec fn eq_spec(&self, other: &Parsed<T>) -> bool {
        (*self.node).eq_spec(&*other.node)
    }
}

/// Merges two optional ranges into the smallest range enclosing both.
pub fn merge_locs(a: OffsetRange, b: OffsetRange) -> (r: OffsetRange)
    ensures
        span_view(r) == merge_spans(span_view(a), span_view(b)),
{
    match (a, b) {
        (Some((s1, e1)), Some((s2, e2))) => Some(
            (if s1 <= s2 { s1 } else { s2 }, if e1 >= e2 { e1 } else { e2 }),
        ),
        (Some(x), None) => Some(x),
        (None, Some(y)) => Some(y),
        (None, None) => None,
    }
}

} // verus!

verus! {

impl<T: View> View for Parsed<T> {
    type V = ParsedV<T::V>;

    open spec fn view(&self) -> ParsedV<T::V> {
        ParsedV { node: (*self.node)@, loc: span_view(self.loc) }
    }
}

} // verus!
