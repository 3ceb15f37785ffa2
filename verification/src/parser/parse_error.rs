//! The error of the parsing stage.
use vstd::prelude::*;
use crate::lexer::span::Span;

verus! {

/// An error of the parsing stage: an unexpected token, a malformed literal
/// or name, or a token stream that ends too early.
#[derive(Debug)]
pub struct ParseError {
    pub message: String,
    pub span: Span,
}

/// The mathematical model of a [`ParseError`].
pub struct ParseFailure {
    pub message: Seq<char>,
    pub span: Span,
}

impl View for ParseError {
    type V = ParseFailure;

    open spec fn view(&self) -> ParseFailure {
        ParseFailure { message: self.message@, span: self.span }
    }
}

impl ParseError {
    /// Creates an error with a message for a part of the source.
    pub fn new(message: String, span: Span) -> (error: Self)
        ensures
            error.message == message,
            error.span == span,
    {
        Self { message, span }
    }

    /// The message of the error.
    pub fn to_string(&self) -> (message: String)
        ensures
            message@ == self.message@,
    {
        self.message.clone()
    }
}

} // verus!
