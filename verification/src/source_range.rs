//! Recovering the place in a source buffer that a parsed value came from.

use vstd::prelude::*;

verus! {

/// A half-open range `[start, end)` of character offsets into a source
/// buffer.  Spans are explicit offsets rather than borrowed slices, so that
/// "does this value belong to this buffer" is a containment check.
#[derive(Clone, Copy, PartialEq, Eq, Structural, Debug)]
pub struct Span {
    /// Offset of the first character, in characters.
    pub start: usize,
    /// Offset one past the last character, in characters.
    pub end: usize,
}

/// Given a source buffer, attempts to retrieve the range of it that the
/// implementer represents.  `None` signals that the value was not derived
/// from that buffer (its claimed place falls outside it).
pub trait SourceRange {
    /// The range the value claims, as a function of the buffer's contents.
    spec fn spec_range(&self, source: Seq<char>) -> Option<Span>;

    /// Given a source, retrieve the range of it that the implementer
    /// represents, exactly as `spec_range` says; `None` when the value is
    /// not derived from this buffer.
    fn source_range(&self, source: &Vec<char>) -> (r: Option<Span>)
        ensures
            r == self.spec_range(source@),
    ;

    /// The start of the claimed range, if there is one.
    fn source_range_start(&self, source: &Vec<char>) -> (r: Option<usize>)
        ensures
            r == match self.spec_range(source@) {
                Some(sp) => Some(sp.start),
                None => None::<usize>,
            },
    {
        match self.source_range(source) {
            Some(sp) => Some(sp.start),
            None => None,
        }
    }

    /// The end of the claimed range, if there is one.
    fn source_range_end(&self, source: &Vec<char>) -> (r: Option<usize>)
        ensures
            r == match self.spec_range(source@) {
                Some(sp) => Some(sp.end),
                None => None::<usize>,
            },
    {
        match self.source_range(source) {
            Some(sp) => Some(sp.end),
            None => None,
        }
    }
}

/// Conversion of a pair of optional endpoints into an optional span.
pub trait ToRangeOption {
    /// The span the endpoints describe, when both are there.
    spec fn spec_to_range(&self) -> Option<Span>;

    /// Convert the implementer into an optional span, exactly as
    /// `spec_to_range` says.
    fn to_range(self) -> (r: Option<Span>)
        ensures
            r == self.spec_to_range(),
    ;
}

impl ToRangeOption for (Option<usize>, Option<usize>) {
    open spec fn spec_to_range(&self) -> Option<Span> {
        match *self {
            (Some(start), Some(end)) => Some(Span { start, end }),
            _ => None,
        }
    }

    fn to_range(self) -> (r: Option<Span>) {
        match self {
            (Some(start), Some(end)) => Some(Span { start, end }),
            _ => None,
        }
    }
}

} // verus!
