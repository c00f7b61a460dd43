//! Diagnostics carried by every failing operation: an error kind together
//! with the source position of the expression or declaration that caused it.

use vstd::prelude::*;

verus! {

/// A position in the template source text, kept for diagnostics.
#[derive(Clone, Copy, Debug, PartialEq, Eq, Structural)]
pub struct Span {
    /// Byte offset of the originating expression in the template source.
    pub pos: u64,
}

/// The kind of a failure, per the error taxonomy of this library.
#[derive(Clone, Copy, Debug, PartialEq, Eq, Structural)]
pub enum ErrorKind {
    /// A fan-out count expression produced a negative or non-integral value.
    InvalidCount,
    /// An expression was applied to operands of the wrong type.
    TypeMismatch,
    /// Integer arithmetic in an expression overflowed.
    IntegerOverflow,
    /// A builtin was called with out-of-range arguments.
    InvalidArguments,
    /// A table's schema length differs from its row expression arity.
    ArityMismatch,
    /// A derived edge references a template index outside the template set.
    InvalidChildIndex,
    /// The derived-edge graph contains a cycle.
    CyclicDerivation,
    /// The number of sinks supplied does not match the number of templates.
    SinkMismatch,
    /// An output sink implementation failed.
    Sink,
}

/// An error: a kind plus the source position it originated from.
#[derive(Clone, Copy, Debug, PartialEq, Eq, Structural)]
pub struct Error {
    /// What went wrong.
    pub kind: ErrorKind,
    /// Where in the template source it went wrong.
    pub span: Span,
}

impl Error {
    /// Builds an error of the given kind at the given position.
    pub fn new(kind: ErrorKind, span: Span) -> (r: Error)
        ensures
            r == (Error { kind, span }),
    {
        Error { kind, span }
    }
}

} // verus!
