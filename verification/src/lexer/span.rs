//! Spans locate tokens within the source.
//!
//! `Spanned<T>` pairs a `T` with its span; `Span` alone serves code that
//! does not need the `T`.
use vstd::prelude::*;

verus! {

/// A value together with the part of the source it was read from.
#[derive(Copy, Clone, Debug)]
pub struct Spanned<T> {
    pub inner: T,
    pub span: Span,
}

impl<T> Spanned<T> {
    /// Pairs a value with a span.
    pub fn new(inner: T, span: Span) -> (spanned: Self)
        ensures
            spanned.inner == inner,
            spanned.span == span,
    {
        Self { inner, span }
    }
}

/// A half-open range of byte offsets into the source: the first offset is
/// the start, the second one the end.
#[derive(Copy, Clone, Debug, Eq, PartialEq, Structural)]
pub struct Span(pub usize, pub usize);

} // verus!
