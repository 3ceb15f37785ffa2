//! The tokens of While.
use vstd::prelude::*;

verus! {

/// A token. Tokens carry no text: the part of the source that a token
/// stands for is found through its span.
#[derive(Copy, Clone, Debug, Eq, PartialEq, Structural)]
pub enum Token {
    // Groupings
    LeftParen,
    RightParen,
    LeftSemantic,
    RightSemantic,
    // Arithmetic operators
    Add,
    Subtract,
    Multiply,
    // Literals
    Literal,
    Identifier,
    True,
    False,
    // Comparison and equality operators
    Equal,
    NotEqual,
    LessEqual,
    LessThan,
    GreaterEqual,
    GreaterThan,
    Not,
    And,
    // Statement identifiers
    Assign,
    If,
    Then,
    Else,
    While,
    Do,
    Skip,
    // Miscellaneous symbols
    Whitespace,
    LineBreak,
    Unknown,
    Semicolon,
}

impl Token {
    /// The name of the token, as diagnostics print it.
    #[verifier::opaque]
    pub open spec fn name(self) -> Seq<char> {
        match self {
            Token::LeftParen => "LeftParen"@,
            Token::RightParen => "RightParen"@,
            Token::LeftSemantic => "LeftSemantic"@,
            Token::RightSemantic => "RightSemantic"@,
            Token::Add => "Add"@,
            Token::Subtract => "Subtract"@,
            Token::Multiply => "Multiply"@,
            Token::Literal => "Literal"@,
            Token::Identifier => "Identifier"@,
            Token::True => "True"@,
            Token::False => "False"@,
            Token::Equal => "Equal"@,
            Token::NotEqual => "NotEqual"@,
            Token::LessEqual => "LessEqual"@,
            Token::LessThan => "LessThan"@,
            Token::GreaterEqual => "GreaterEqual"@,
            Token::GreaterThan => "GreaterThan"@,
            Token::Not => "Not"@,
            Token::And => "And"@,
            Token::Assign => "Assign"@,
            Token::If => "If"@,
            Token::Then => "Then"@,
            Token::Else => "Else"@,
            Token::While => "While"@,
            Token::Do => "Do"@,
            Token::Skip => "Skip"@,
            Token::Whitespace => "Whitespace"@,
            Token::LineBreak => "LineBreak"@,
            Token::Unknown => "Unknown"@,
            Token::Semicolon => "Semicolon"@,
        }
    }

    /// The name of the token, as diagnostics print it.
    pub fn describe(self) -> (name: &'static str)
        ensures
            name@ == self.name(),
    {
        proof {
            reveal(Token::name);
        }
        match self {
            Token::LeftParen => "LeftParen",
            Token::RightParen => "RightParen",
            Token::LeftSemantic => "LeftSemantic",
            Token::RightSemantic => "RightSemantic",
            Token::Add => "Add",
            Token::Subtract => "Subtract",
            Token::Multiply => "Multiply",
            Token::Literal => "Literal",
            Token::Identifier => "Identifier",
            Token::True => "True",
            Token::False => "False",
            Token::Equal => "Equal",
            Token::NotEqual => "NotEqual",
            Token::LessEqual => "LessEqual",
            Token::LessThan => "LessThan",
            Token::GreaterEqual => "GreaterEqual",
            Token::GreaterThan => "GreaterThan",
            Token::Not => "Not",
            Token::And => "And",
            Token::Assign => "Assign",
            Token::If => "If",
            Token::Then => "Then",
            Token::Else => "Else",
            Token::While => "While",
            Token::Do => "Do",
            Token::Skip => "Skip",
            Token::Whitespace => "Whitespace",
            Token::LineBreak => "LineBreak",
            Token::Unknown => "Unknown",
            Token::Semicolon => "Semicolon",
        }
    }

    /// Whether the parser passes over the token.
    pub open spec fn is_trivia(self) -> bool {
        self == Token::Whitespace || self == Token::LineBreak
    }
}

} // verus!
