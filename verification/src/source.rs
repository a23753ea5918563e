//! Where something was written: files, spans, and the pair of the two.

use vstd::prelude::*;

verus! {

/// One file of the program.
#[derive(Clone, Copy, PartialEq, Eq, Structural, Debug)]
pub struct SourceId(pub u32);

/// A half-open range of offsets inside one file.
#[derive(Clone, Copy, PartialEq, Eq, Structural, Debug)]
pub struct Span {
    pub start: u32,
    pub end: u32,
}

/// A span together with the file its offsets are counted in.
#[derive(Clone, Copy, PartialEq, Eq, Structural, Debug)]
pub struct FileSpan {
    pub source: SourceId,
    pub span: Span,
}

impl Span {
    /// The empty span at the start of a file, carried by what nobody wrote.
    pub open spec fn spec_nowhere() -> Span {
        Span { start: 0, end: 0 }
    }

    #[verifier::when_used_as_spec(spec_nowhere)]
    pub fn nowhere() -> (span: Span)
        ensures
            span == Span::spec_nowhere(),
    {
        Span { start: 0, end: 0 }
    }
}

} // verus!
