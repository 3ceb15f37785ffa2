//! The error of the lexing stage.
use vstd::prelude::*;
use vstd::string::StringExecFns;
use crate::lexer::span::Span;
use crate::text::{decimal, render_decimal};

verus! {

/// An error of the lexing stage: a character that begins no token.
#[derive(Debug)]
pub struct LexError {
    pub message: String,
    pub span: Span,
}

impl LexError {
    /// Creates an error with a message for a part of the source.
    pub fn new(message: String, span: Span) -> (error: Self)
        ensures
            error.message == message,
            error.span == span,
    {
        Self { message, span }
    }

    /// What the error says: its message and the offsets of its span.
    pub open spec fn text(&self) -> Seq<char> {
        "Lexing error: "@ + self.message@ + " (At "@ + decimal(self.span.0 as nat) + "-"@ + decimal(
            self.span.1 as nat,
        ) + ")"@
    }

    /// Renders the error for display.
    pub fn to_string(&self) -> (text: String)
        ensures
            text@ == self.text(),
    {
        let mut text = String::from_str("Lexing error: ");
        text.append(self.message.as_str());
        text.append(" (At ");
        text.append(render_decimal(self.span.0 as u64).as_str());
        text.append("-");
        text.append(render_decimal(self.span.1 as u64).as_str());
        text.append(")");
        text
    }
}

} // verus!
