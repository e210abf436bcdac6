use vstd::prelude::*;

verus! {

/// A byte range `start..end` in the source file identified by `source_id`.
#[derive(Clone, Copy, Debug, PartialEq, Eq, Hash, Structural)]
pub struct Span {
    pub start: usize,
    pub end: usize,
    pub source_id: usize,
}

impl Span {
    /// The span that stands for "somewhere at the beginning" of an empty file:
    /// the first byte.
    #[inline]
    pub fn empty(source_id: usize) -> (s: Span)
        ensures
            s == (Span { start: 0, end: 1, source_id }),
    {
        Span { start: 0usize, end: 1usize, source_id }
    }

    /// The span from the start of `self` to the end of `other`.
    /// Both spans must belong to the same source file.
    #[inline]
    pub fn concat(&self, other: &Span) -> (s: Span)
        requires
            self.source_id == other.source_id,
        ensures
            s == self.spec_concat(*other),
    {
        Span { start: self.start, end: other.end, source_id: self.source_id }
    }

    /// The one-byte span that follows `self`.
    #[inline]
    pub fn splat_to_end(&self) -> (s: Span)
        requires
            self.end < usize::MAX,
        ensures
            s == self.spec_splat_to_end(),
    {
        Span { start: self.end, end: self.end + 1, source_id: self.source_id }
    }

    pub open spec fn spec_concat(self, other: Span) -> Span {
        Span { start: self.start, end: other.end, source_id: self.source_id }
    }

    pub open spec fn spec_splat_to_end(self) -> Span
        recommends
            self.end < usize::MAX,
    {
        Span { start: self.end, end: (self.end + 1) as usize, source_id: self.source_id }
    }
}

/// Joining spans is associative: `(a ++ b) ++ c` and `a ++ (b ++ c)` are the
/// same span.
pub proof fn lemma_concat_associative(a: Span, b: Span, c: Span)
    ensures
        a.spec_concat(b).spec_concat(c) == a.spec_concat(b.spec_concat(c)),
{
}

/// Joining a span with itself gives the span back.
pub proof fn lemma_concat_idempotent(a: Span)
    ensures
        a.spec_concat(a) == a,
{
}

} // verus!
