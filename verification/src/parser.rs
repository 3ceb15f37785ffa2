//! The parser of While.
//!
//! [`Parser`] turns a sequence of tokens into one tree. It needs the source
//! as well, from which it reads the names of identifiers and the values of
//! literals through the spans of their tokens.
//!
//! What the parser yields is stated by the grammar functions of this
//! module, one for each rule, from [`primary`] up to [`stmt_block`]. Each
//! takes the tokens that count and the index of the next one, and tells
//! what the rule yields there and how many tokens it reads. A source is one
//! block that takes all its tokens ([`parse`]): a token left after the
//! block is a failure.
pub mod parse_error;

use vstd::prelude::*;
use vstd::string::{StringExecFns, StringSliceAdditionalSpecFns};
use crate::ast::{Ast, AstView};
use crate::lexer::span::{Span, Spanned};
use crate::lexer::token::Token;
use crate::lexer::{
    all_within,
    holds_text,
    lemma_lexeme_bounds,
    lemma_lexemes_held,
    lemma_lexemes_within,
    lexeme_at,
    lexemes,
    moved,
    moved_all,
    token_of,
    tokens_from,
    tokens_of,
    words,
    words_from,
    Lexeme,
};
use crate::parser::parse_error::ParseFailure;
use crate::text::{integer_value, parse_integer, slice, span_fits, span_text};

pub use crate::parser::parse_error::ParseError;

verus! {

/// The tokens that count for the grammar: all but white space and line
/// breaks.
pub open spec fn significant(tokens: Seq<Spanned<Token>>) -> Seq<Spanned<Token>>
    decreases tokens.len(),
{
    if tokens.len() == 0 {
        Seq::empty()
    } else if tokens.last().inner.is_trivia() {
        significant(tokens.drop_last())
    } else {
        significant(tokens.drop_last()).push(tokens.last())
    }
}

/// What a rule of the grammar yields at a place, and how many tokens it
/// reads there. A rule that fails reads none.
pub struct Parsed {
    pub result: Result<AstView, ParseFailure>,
    pub length: nat,
}

/// A rule that yields a tree after reading `length` tokens.
pub open spec fn done(ast: AstView, length: nat) -> Parsed {
    Parsed { result: Ok(ast), length }
}

/// A rule that fails.
pub open spec fn failed(message: Seq<char>, span: Span) -> Parsed {
    Parsed { result: Err(ParseFailure { message, span }), length: 0 }
}

/// What a rule yields when `before` tokens were read ahead of it.
pub open spec fn after(parsed: Parsed, before: nat) -> Parsed {
    match parsed.result {
        Ok(_) => Parsed { result: parsed.result, length: parsed.length + before },
        Err(_) => Parsed { result: parsed.result, length: 0 },
    }
}

/// How many tokens are left from an index on.
pub open spec fn remaining(ts: Seq<Spanned<Token>>, pos: nat) -> nat {
    if pos <= ts.len() {
        (ts.len() - pos) as nat
    } else {
        0
    }
}

/// The token at an index, if there is one.
pub open spec fn token_at(ts: Seq<Spanned<Token>>, pos: nat) -> Option<Token> {
    if pos < ts.len() {
        Some(ts[pos as int].inner)
    } else {
        None
    }
}

/// The span that stands for the end of the token stream: the one byte
/// after the last byte of the source.
#[verifier::opaque]
pub open spec fn end_span(src: Seq<char>) -> Span {
    let length = vstd::utf8::encode_utf8(src).len() as usize;
    Span(
        length,
        if length < usize::MAX {
            (length + 1) as usize
        } else {
            length
        },
    )
}

/// What is wrong where a given token is expected at an index and does not
/// stand there: the token found in its place, or the end of the stream.
#[verifier::opaque]
pub open spec fn unexpected(
    src: Seq<char>,
    ts: Seq<Spanned<Token>>,
    pos: nat,
    token: Token,
) -> ParseFailure {
    if pos < ts.len() {
        ParseFailure {
            message: "Expected "@ + token.name() + ", found "@ + ts[pos as int].inner.name(),
            span: ts[pos as int].span,
        }
    } else {
        ParseFailure {
            message: "Expected "@ + token.name() + ", but reached end of token stream"@,
            span: end_span(src),
        }
    }
}

/// Whether a given token stands at an index: `None` where it does, and
/// otherwise what is wrong.
pub open spec fn expect(src: Seq<char>, ts: Seq<Spanned<Token>>, pos: nat, token: Token) -> Option<
    ParseFailure,
> {
    if token_at(ts, pos) == Some(token) {
        None
    } else {
        Some(unexpected(src, ts, pos, token))
    }
}

/// The text of an identifier or a literal: the part of the source that the
/// span of its token marks, or a failure where the span does not fit the
/// source.
#[verifier::opaque]
pub open spec fn token_text(src: Seq<char>, span: Span) -> Result<Seq<char>, ParseFailure> {
    if span_fits(src, span) {
        Ok(span_text(src, span))
    } else {
        Err(ParseFailure { message: "Span does not fit the source"@, span })
    }
}

/// The levels of the grammar at which operators chain to the left.
#[derive(Copy, Clone, Debug, PartialEq, Eq, Structural)]
pub enum Level {
    /// `equality ( "&" equality )*`
    Logical,
    /// `factor ( ( "+" | "-" ) factor )*`
    Term,
    /// `unary ( "*" unary )*`
    Factor,
}

impl Level {
    /// Whether a token is an operator of the level.
    pub open spec fn has_operator(self, token: Option<Token>) -> bool {
        match self {
            Level::Logical => token == Some(Token::And),
            Level::Term => token == Some(Token::Add) || token == Some(Token::Subtract),
            Level::Factor => token == Some(Token::Multiply),
        }
    }
}

/// The node that a chaining operator builds from its operands.
pub open spec fn join(operator: Token, left: AstView, right: AstView) -> AstView {
    match operator {
        Token::And => AstView::And { left: Box::new(left), right: Box::new(right) },
        Token::Add => AstView::Add { left: Box::new(left), right: Box::new(right) },
        Token::Subtract => AstView::Sub { left: Box::new(left), right: Box::new(right) },
        _ => AstView::Mul { left: Box::new(left), right: Box::new(right) },
    }
}

/// Whether a token is one of `<=`, `<`, `>=` and `>`.
pub open spec fn is_comparison(token: Option<Token>) -> bool {
    token == Some(Token::LessEqual) || token == Some(Token::LessThan) || token == Some(
        Token::GreaterEqual,
    ) || token == Some(Token::GreaterThan)
}

/// Whether a token is one of `=` and `!=`.
pub open spec fn is_equality(token: Option<Token>) -> bool {
    token == Some(Token::Equal) || token == Some(Token::NotEqual)
}

/// The node that a comparison or an equality builds from its operands. The
/// tree has nodes for `=` and `<=` only; the other operators are written
/// with these and `Not`.
pub open spec fn relate(operator: Token, left: AstView, right: AstView) -> AstView {
    match operator {
        Token::Equal => AstView::Eq { left: Box::new(left), right: Box::new(right) },
        Token::NotEqual => AstView::not_equal(left, right),
        Token::LessEqual => AstView::LessEq { left: Box::new(left), right: Box::new(right) },
        Token::LessThan => AstView::less_than(left, right),
        Token::GreaterEqual => AstView::greater_eq(left, right),
        _ => AstView::greater_than(left, right),
    }
}

/// `primary := ident | literal | "true" | "false" | "(" expression ")"`
pub open spec fn primary(src: Seq<char>, ts: Seq<Spanned<Token>>, pos: nat) -> Parsed
    decreases remaining(ts, pos), 1nat,
{
    if pos >= ts.len() {
        failed("Reached end of token stream"@, end_span(src))
    } else {
        let token = ts[pos as int];
        match token.inner {
            Token::LeftParen => {
                let inner = expression(src, ts, pos + 1);
                match inner.result {
                    Err(_) => after(inner, 0),
                    Ok(ast) => match expect(src, ts, pos + 1 + inner.length, Token::RightParen) {
                        Some(failure) => failed(failure.message, failure.span),
                        None => done(ast, inner.length + 2),
                    },
                }
            },
            Token::True => done(AstView::True, 1),
            Token::False => done(AstView::False, 1),
            Token::Identifier => match token_text(src, token.span) {
                Ok(name) => done(AstView::Ident(name), 1),
                Err(failure) => failed(failure.message, failure.span),
            },
            Token::Literal => match token_text(src, token.span) {
                Ok(text) => match integer_value(text) {
                    Some(value) => done(AstView::Literal(value), 1),
                    None => failed("Literal is not a 32-bit integer"@, token.span),
                },
                Err(failure) => failed(failure.message, failure.span),
            },
            other => failed(
                "Got unexpected "@ + other.name() + " at the primary parsing stage"@,
                token.span,
            ),
        }
    }
}

/// `unary := ( "-" | "!" ) unary | primary`
///
/// `-e` is written as `0 - e`.
pub open spec fn unary(src: Seq<char>, ts: Seq<Spanned<Token>>, pos: nat) -> Parsed
    decreases remaining(ts, pos), 2nat,
{
    if token_at(ts, pos) == Some(Token::Subtract) {
        let operand = unary(src, ts, pos + 1);
        match operand.result {
            Ok(ast) => done(AstView::negative(ast), operand.length + 1),
            Err(_) => after(operand, 0),
        }
    } else if token_at(ts, pos) == Some(Token::Not) {
        let operand = unary(src, ts, pos + 1);
        match operand.result {
            Ok(ast) => done(AstView::Not { expr: Box::new(ast) }, operand.length + 1),
            Err(_) => after(operand, 0),
        }
    } else {
        primary(src, ts, pos)
    }
}

/// The rest of a chain of operators of one level: `( operator operand )*`
/// after the operand `left`. The operators associate to the left.
pub open spec fn chain(
    level: Level,
    src: Seq<char>,
    ts: Seq<Spanned<Token>>,
    pos: nat,
    left: AstView,
) -> Parsed
    decreases remaining(ts, pos), 0nat,
{
    if level.has_operator(token_at(ts, pos)) {
        let operand = match level {
            Level::Logical => equality(src, ts, pos + 1),
            Level::Term => factor(src, ts, pos + 1),
            Level::Factor => unary(src, ts, pos + 1),
        };
        match operand.result {
            Ok(right) => after(
                chain(
                    level,
                    src,
                    ts,
                    pos + 1 + operand.length,
                    join(ts[pos as int].inner, left, right),
                ),
                1 + operand.length,
            ),
            Err(_) => after(operand, 0),
        }
    } else {
        done(left, 0)
    }
}

/// `factor := unary ( "*" unary )*`
pub open spec fn factor(src: Seq<char>, ts: Seq<Spanned<Token>>, pos: nat) -> Parsed
    decreases remaining(ts, pos), 3nat,
{
    let first = unary(src, ts, pos);
    match first.result {
        Ok(left) => after(chain(Level::Factor, src, ts, pos + first.length, left), first.length),
        Err(_) => after(first, 0),
    }
}

/// `term := factor ( ( "+" | "-" ) factor )*`
pub open spec fn term(src: Seq<char>, ts: Seq<Spanned<Token>>, pos: nat) -> Parsed
    decreases remaining(ts, pos), 4nat,
{
    let first = factor(src, ts, pos);
    match first.result {
        Ok(left) => after(chain(Level::Term, src, ts, pos + first.length, left), first.length),
        Err(_) => after(first, 0),
    }
}

/// `comparison := term ( ( "<=" | "<" | ">" | ">=" ) term )?`
///
/// At most one operator: comparisons do not chain.
pub open spec fn comparison(src: Seq<char>, ts: Seq<Spanned<Token>>, pos: nat) -> Parsed
    decreases remaining(ts, pos), 5nat,
{
    let first = term(src, ts, pos);
    match first.result {
        Ok(left) => if is_comparison(token_at(ts, pos + first.length)) {
            let second = term(src, ts, pos + first.length + 1);
            match second.result {
                Ok(right) => done(
                    relate(ts[(pos + first.length) as int].inner, left, right),
                    first.length + 1 + second.length,
                ),
                Err(_) => after(second, 0),
            }
        } else {
            first
        },
        Err(_) => after(first, 0),
    }
}

/// `equality := comparison ( ( "=" | "!=" ) comparison )?`
///
/// At most one operator: equalities do not chain.
pub open spec fn equality(src: Seq<char>, ts: Seq<Spanned<Token>>, pos: nat) -> Parsed
    decreases remaining(ts, pos), 6nat,
{
    let first = comparison(src, ts, pos);
    match first.result {
        Ok(left) => if is_equality(token_at(ts, pos + first.length)) {
            let second = comparison(src, ts, pos + first.length + 1);
            match second.result {
                Ok(right) => done(
                    relate(ts[(pos + first.length) as int].inner, left, right),
                    first.length + 1 + second.length,
                ),
                Err(_) => after(second, 0),
            }
        } else {
            first
        },
        Err(_) => after(first, 0),
    }
}

/// `expression := equality ( "&" equality )*`
pub open spec fn expression(src: Seq<char>, ts: Seq<Spanned<Token>>, pos: nat) -> Parsed
    decreases remaining(ts, pos), 7nat,
{
    let first = equality(src, ts, pos);
    match first.result {
        Ok(left) => after(chain(Level::Logical, src, ts, pos + first.length, left), first.length),
        Err(_) => after(first, 0),
    }
}

/// `skip_stmt := "skip"`
pub open spec fn skip_stmt(src: Seq<char>, ts: Seq<Spanned<Token>>, pos: nat) -> Parsed {
    match expect(src, ts, pos, Token::Skip) {
        Some(failure) => failed(failure.message, failure.span),
        None => done(AstView::Skip, 1),
    }
}

/// `ass_stmt := ident ":=" expression`
pub open spec fn ass_stmt(src: Seq<char>, ts: Seq<Spanned<Token>>, pos: nat) -> Parsed {
    if token_at(ts, pos) != Some(Token::Identifier) {
        failed("Expected LHS Identifier"@, end_span(src))
    } else {
        match token_text(src, ts[pos as int].span) {
            Err(failure) => failed(failure.message, failure.span),
            Ok(ident) => match expect(src, ts, pos + 1, Token::Assign) {
                Some(failure) => failed(failure.message, failure.span),
                None => {
                    let value = expression(src, ts, pos + 2);
                    match value.result {
                        Ok(ast) => done(
                            AstView::Ass { ident, value: Box::new(ast) },
                            value.length + 2,
                        ),
                        Err(_) => after(value, 0),
                    }
                },
            },
        }
    }
}

/// `while_stmt := "while" expression "do" stmt_block`
pub open spec fn while_stmt(src: Seq<char>, ts: Seq<Spanned<Token>>, pos: nat) -> Parsed
    decreases remaining(ts, pos), 0nat,
{
    match expect(src, ts, pos, Token::While) {
        Some(failure) => failed(failure.message, failure.span),
        None => {
            let cond = expression(src, ts, pos + 1);
            match cond.result {
                Err(_) => after(cond, 0),
                Ok(c) => match expect(src, ts, pos + 1 + cond.length, Token::Do) {
                    Some(failure) => failed(failure.message, failure.span),
                    None => {
                        let body = stmt_block(src, ts, pos + 2 + cond.length);
                        match body.result {
                            Err(_) => after(body, 0),
                            Ok(b) => done(
                                AstView::While { cond: Box::new(c), body: Box::new(b) },
                                cond.length + body.length + 2,
                            ),
                        }
                    },
                },
            }
        },
    }
}

/// The branches of a conditional: `stmt_block "else" stmt_block` after the
/// condition `cond`.
pub open spec fn branches(
    src: Seq<char>,
    ts: Seq<Spanned<Token>>,
    pos: nat,
    cond: AstView,
) -> Parsed
    decreases remaining(ts, pos), 4nat,
{
    let first = stmt_block(src, ts, pos);
    match first.result {
        Err(_) => after(first, 0),
        Ok(t) => match expect(src, ts, pos + first.length, Token::Else) {
            Some(failure) => failed(failure.message, failure.span),
            None => {
                let second = stmt_block(src, ts, pos + first.length + 1);
                match second.result {
                    Err(_) => after(second, 0),
                    Ok(f) => done(
                        AstView::If {
                            cond: Box::new(cond),
                            true_path: Box::new(t),
                            false_path: Box::new(f),
                        },
                        first.length + second.length + 1,
                    ),
                }
            },
        },
    }
}

/// `if_stmt := "if" expression "then" stmt_block "else" stmt_block`
pub open spec fn if_stmt(src: Seq<char>, ts: Seq<Spanned<Token>>, pos: nat) -> Parsed
    decreases remaining(ts, pos), 0nat,
{
    match expect(src, ts, pos, Token::If) {
        Some(failure) => failed(failure.message, failure.span),
        None => {
            let cond = expression(src, ts, pos + 1);
            match cond.result {
                Err(_) => after(cond, 0),
                Ok(c) => match expect(src, ts, pos + 1 + cond.length, Token::Then) {
                    Some(failure) => failed(failure.message, failure.span),
                    None => after(branches(src, ts, pos + 2 + cond.length, c), 2 + cond.length),
                },
            }
        },
    }
}

/// `statement := if_stmt | while_stmt | ass_stmt | skip_stmt | "(" stmt_block ")"`
pub open spec fn statement(src: Seq<char>, ts: Seq<Spanned<Token>>, pos: nat) -> Parsed
    decreases remaining(ts, pos), 1nat,
{
    if pos >= ts.len() {
        failed("Unexpected end of token stream"@, end_span(src))
    } else {
        match ts[pos as int].inner {
            Token::If => if_stmt(src, ts, pos),
            Token::While => while_stmt(src, ts, pos),
            Token::Identifier => ass_stmt(src, ts, pos),
            Token::Skip => skip_stmt(src, ts, pos),
            Token::LeftParen => {
                let block = stmt_block(src, ts, pos + 1);
                match block.result {
                    Err(_) => after(block, 0),
                    Ok(ast) => match expect(src, ts, pos + 1 + block.length, Token::RightParen) {
                        Some(failure) => failed(failure.message, failure.span),
                        None => done(ast, block.length + 2),
                    },
                }
            },
            other => failed("Found "@ + other.name(), ts[pos as int].span),
        }
    }
}

/// Whether a block ends at a token: at the end of the stream, before a
/// closing parenthesis and before `else`.
pub open spec fn ends_block(token: Option<Token>) -> bool {
    token is None || token == Some(Token::RightParen) || token == Some(Token::Else)
}

/// The rest of a block: `( ";" statement )* ( ";" )?` after the statement
/// `left`. The statements compose to the left.
pub open spec fn stmt_tail(
    src: Seq<char>,
    ts: Seq<Spanned<Token>>,
    pos: nat,
    left: AstView,
) -> Parsed
    decreases remaining(ts, pos), 2nat,
{
    if token_at(ts, pos) == Some(Token::Semicolon) {
        if ends_block(token_at(ts, pos + 1)) {
            done(left, 1)
        } else {
            let next = statement(src, ts, pos + 1);
            match next.result {
                Ok(right) => after(
                    stmt_tail(
                        src,
                        ts,
                        pos + 1 + next.length,
                        AstView::Comp { first: Box::new(left), second: Box::new(right) },
                    ),
                    1 + next.length,
                ),
                Err(_) => after(next, 0),
            }
        }
    } else {
        done(left, 0)
    }
}

/// How many semicolons stand side by side from an index on.
pub open spec fn semicolons(ts: Seq<Spanned<Token>>, pos: nat) -> nat
    decreases remaining(ts, pos),
{
    if token_at(ts, pos) == Some(Token::Semicolon) {
        1 + semicolons(ts, pos + 1)
    } else {
        0
    }
}

/// `stmt_block := ( ";"+ )? statement ( ";" statement )* ( ";" )?`
///
/// A block takes all the statements it can: it ends only at the end of the
/// stream, before a closing parenthesis or before `else`.
pub open spec fn stmt_block(src: Seq<char>, ts: Seq<Spanned<Token>>, pos: nat) -> Parsed
    decreases remaining(ts, pos), 3nat,
{
    let skipped = semicolons(ts, pos);
    let first = statement(src, ts, pos + skipped);
    match first.result {
        Ok(left) => after(
            stmt_tail(src, ts, pos + skipped + first.length, left),
            skipped + first.length,
        ),
        Err(_) => after(first, 0),
    }
}

/// What parsing the tokens from an index on yields: the block that begins
/// there, which has to take all the tokens. A token that is left after the
/// block is a failure at that token.
pub open spec fn program(src: Seq<char>, ts: Seq<Spanned<Token>>, pos: nat) -> Parsed {
    let block = stmt_block(src, ts, pos);
    if block.result is Ok && pos + block.length < ts.len() {
        failed(
            "Expected end of token stream, found "@ + ts[(pos + block.length) as int].inner.name(),
            ts[(pos + block.length) as int].span,
        )
    } else {
        block
    }
}

/// What parsing a whole sequence of tokens yields.
pub open spec fn parse(src: Seq<char>, ts: Seq<Spanned<Token>>) -> Parsed {
    program(src, ts, 0)
}

/// Whether what a parsing function returned is what a rule yields.
pub open spec fn reflects(result: Result<Ast, ParseError>, parsed: Parsed) -> bool {
    match result {
        Ok(ast) => parsed.result == Ok::<AstView, ParseFailure>(ast@),
        Err(error) => parsed.result == Err::<AstView, ParseFailure>(error@),
    }
}

/// A parser that turns a stream of tokens into a tree, by recursive
/// descent. It holds the source, from which it reads identifiers and
/// literals, and passes over white space and line breaks.
pub struct Parser<'a> {
    source: &'a str,
    tokens: Vec<Spanned<Token>>,
    position: usize,
}

impl<'a> Parser<'a> {
    /// The source.
    pub closed spec fn source(&self) -> Seq<char> {
        self.source@
    }

    /// The tokens that count.
    pub closed spec fn tokens(&self) -> Seq<Spanned<Token>> {
        self.tokens@
    }

    /// The index of the next token.
    pub closed spec fn position(&self) -> nat {
        self.position as nat
    }

    #[verifier::type_invariant]
    spec fn well_formed(&self) -> bool {
        self.position <= self.tokens@.len()
    }

    /// Whether the parser has moved on from `before` as a rule asks, and
    /// returned what the rule yields.
    pub open spec fn follows(
        &self,
        before: &Self,
        result: Result<Ast, ParseError>,
        parsed: Parsed,
    ) -> bool {
        &&& self.source() == before.source()
        &&& self.tokens() == before.tokens()
        &&& reflects(result, parsed)
        &&& result is Ok ==> self.position() == before.position() + parsed.length
    }

    /// Creates a parser at the start of a stream of tokens. White space and
    /// line breaks are left out of the stream here.
    pub fn new(source: &'a str, tokens: Vec<Spanned<Token>>) -> (parser: Self)
        ensures
            parser.source() == source@,
            parser.tokens() == significant(tokens@),
            parser.position() == 0,
    {
        let mut kept: Vec<Spanned<Token>> = Vec::new();
        let mut i: usize = 0;
        while i < tokens.len()
            invariant
                i <= tokens.len(),
                kept@ == significant(tokens@.take(i as int)),
            decreases tokens.len() - i,
        {
            let token = tokens[i];
            proof {
                assert(tokens@.take(i + 1).drop_last() =~= tokens@.take(i as int));
                assert(tokens@.take(i + 1).last() == token);
            }
            if !(token.inner == Token::Whitespace || token.inner == Token::LineBreak) {
                kept.push(token);
            }
            i += 1;
        }
        proof {
            assert(tokens@.take(i as int) =~= tokens@);
        }
        Parser { source, tokens: kept, position: 0 }
    }

    /// The span that stands for the end of the token stream.
    fn end_span(&self) -> (span: Span)
        ensures
            span == end_span(self.source()),
    {
        proof {
            reveal(end_span);
        }
        let length = self.source.len();
        Span(length, length.saturating_add(1))
    }

    /// The text of an identifier or a literal.
    fn text(&self, span: Span) -> (text: Result<&'a str, ParseError>)
        ensures
            match text {
                Ok(part) => token_text(self.source(), span) == Ok::<Seq<char>, ParseFailure>(part@),
                Err(error) => token_text(self.source(), span) == Err::<Seq<char>, ParseFailure>(
                    error@,
                ),
            },
    {
        proof {
            reveal(token_text);
        }
        match slice(self.source, span) {
            Some(part) => Ok(part),
            None => Err(ParseError::new(String::from_str("Span does not fit the source"), span)),
        }
    }

    /// Returns the next token and moves past it, or returns `None` at the
    /// end of the stream.
    fn advance(&mut self) -> (next: Option<Spanned<Token>>)
        ensures
            final(self).source() == old(self).source(),
            final(self).tokens() == old(self).tokens(),
            match next {
                Some(token) => old(self).position() < old(self).tokens().len() && token == old(
                    self,
                ).tokens()[old(self).position() as int] && final(self).position() == old(
                    self,
                ).position() + 1,
                None => old(self).position() >= old(self).tokens().len() && final(self).position()
                    == old(self).position(),
            },
    {
        proof {
            use_type_invariant(&*self);
        }
        if self.position < self.tokens.len() {
            let token = self.tokens[self.position];
            self.position = self.position + 1;
            Some(token)
        } else {
            None
        }
    }

    /// Returns the next token and stays before it, or returns `None` at the
    /// end of the stream.
    fn peek(&self) -> (next: Option<Token>)
        ensures
            next == token_at(self.tokens(), self.position()),
    {
        if self.position < self.tokens.len() {
            Some(self.tokens[self.position].inner)
        } else {
            None
        }
    }

    /// Checks that the next token is the given one and moves past it.
    fn expect_token(&mut self, token: Token) -> (result: Result<(), ParseError>)
        ensures
            final(self).source() == old(self).source(),
            final(self).tokens() == old(self).tokens(),
            match result {
                Ok(_) => expect(old(self).source(), old(self).tokens(), old(self).position(), token)
                    is None && final(self).position() == old(self).position() + 1,
                Err(error) => expect(
                    old(self).source(),
                    old(self).tokens(),
                    old(self).position(),
                    token,
                ) == Some(error@),
            },
    {
        proof {
            reveal(unexpected);
        }
        match self.advance() {
            Some(found) => {
                if found.inner == token {
                    Ok(())
                } else {
                    let mut message = String::from_str("Expected ");
                    message.append(token.describe());
                    message.append(", found ");
                    message.append(found.inner.describe());
                    Err(ParseError::new(message, found.span))
                }
            },
            None => {
                let mut message = String::from_str("Expected ");
                message.append(token.describe());
                message.append(", but reached end of token stream");
                Err(ParseError::new(message, self.end_span()))
            },
        }
    }

    /// Moves past the next token where it is the given one.
    fn maybe_expect_token(&mut self, token: Token)
        ensures
            final(self).source() == old(self).source(),
            final(self).tokens() == old(self).tokens(),
            final(self).position() == if token_at(old(self).tokens(), old(self).position())
                == Some(token) {
                old(self).position() + 1
            } else {
                old(self).position()
            },
    {
        match self.peek() {
            Some(found) => {
                if found == token {
                    self.advance();
                }
            },
            None => {},
        }
    }

    /// Parses the stream of tokens from where the parser stands into one
    /// tree. The first failure ends the parsing, and a token that is left
    /// after the tree is a failure too.
    pub fn parse(&mut self) -> (result: Result<Ast, ParseError>)
        ensures
            final(self).follows(
                old(self),
                result,
                program(old(self).source(), old(self).tokens(), old(self).position()),
            ),
    {
        let ast = self.stmt_block()?;
        proof {
            use_type_invariant(&*self);
        }
        if self.position < self.tokens.len() {
            let found = self.tokens[self.position];
            let mut message = String::from_str("Expected end of token stream, found ");
            message.append(found.inner.describe());
            Err(ParseError::new(message, found.span))
        } else {
            Ok(ast)
        }
    }

    /// Moves past the semicolons that stand before a block.
    fn skip_semicolons(&mut self)
        ensures
            final(self).source() == old(self).source(),
            final(self).tokens() == old(self).tokens(),
            final(self).position() == old(self).position() + semicolons(
                old(self).tokens(),
                old(self).position(),
            ),
    {
        let ghost ts = self.tokens();
        let ghost start = self.position();
        proof {
            use_type_invariant(&*self);
        }
        loop
            invariant
                self.source() == old(self).source(),
                self.tokens() == ts,
                ts == old(self).tokens(),
                start == old(self).position(),
                start <= self.position() <= ts.len(),
                self.position() + semicolons(ts, self.position()) == start + semicolons(ts, start),
            ensures
                semicolons(ts, self.position()) == 0,
            decreases ts.len() - self.position(),
        {
            match self.peek() {
                Some(Token::Semicolon) => {
                    self.advance();
                },
                _ => {
                    break ;
                },
            }
            proof {
                use_type_invariant(&*self);
            }
        }
    }

    /// Parses a block: `( ";"+ )? statement ( ";" statement )* ( ";" )?`.
    #[verifier::rlimit(40)]
    fn stmt_block(&mut self) -> (result: Result<Ast, ParseError>)
        ensures
            final(self).follows(
                old(self),
                result,
                stmt_block(old(self).source(), old(self).tokens(), old(self).position()),
            ),
        decreases remaining(old(self).tokens(), old(self).position()), 3nat,
    {
        proof {
            reveal_with_fuel(Ast::model, 3);
        }
        let ghost src = self.source();
        let ghost ts = self.tokens();
        let ghost start = self.position();
        self.skip_semicolons();
        let mut stmt = self.statement()?;
        proof {
            use_type_invariant(&*self);
        }
        loop
            invariant
                self.source() == src,
                self.tokens() == ts,
                start <= self.position() <= ts.len(),
                stmt_block(src, ts, start) == after(
                    stmt_tail(src, ts, self.position(), stmt@),
                    (self.position() - start) as nat,
                ),
                src == old(self).source(),
                ts == old(self).tokens(),
                start == old(self).position(),
            ensures
                token_at(ts, self.position()) != Some(Token::Semicolon),
            decreases ts.len() - self.position(),
        {
            match self.peek() {
                Some(Token::Semicolon) => {},
                _ => {
                    break ;
                },
            }
            let ghost here = self.position();
            let ghost left = stmt@;
            proof {
                let next = statement(src, ts, here + 1);
                assert(stmt_tail(src, ts, here, left) == if ends_block(token_at(ts, here + 1)) {
                    done(left, 1)
                } else {
                    match next.result {
                        Ok(right) => after(
                            stmt_tail(
                                src,
                                ts,
                                here + 1 + next.length,
                                AstView::Comp { first: Box::new(left), second: Box::new(right) },
                            ),
                            1 + next.length,
                        ),
                        Err(_) => after(next, 0),
                    }
                });
            }
            self.advance();
            match self.peek() {
                None | Some(Token::RightParen) | Some(Token::Else) => {
                    self.maybe_expect_token(Token::Semicolon);
                    return Ok(stmt);
                },
                _ => {},
            }
            let second = self.statement()?;
            stmt = Ast::Comp { first: Box::new(stmt), second: Box::new(second) };
            proof {
                use_type_invariant(&*self);
            }
        }
        self.maybe_expect_token(Token::Semicolon);
        Ok(stmt)
    }

    /// Parses a statement: a conditional, a loop, an assignment, `skip` or a
    /// block between parentheses.
    #[verifier::rlimit(40)]
    fn statement(&mut self) -> (result: Result<Ast, ParseError>)
        ensures
            final(self).follows(
                old(self),
                result,
                statement(old(self).source(), old(self).tokens(), old(self).position()),
            ),
        decreases remaining(old(self).tokens(), old(self).position()), 1nat,
    {
        proof {
            reveal_with_fuel(Ast::model, 3);
        }
        proof {
            use_type_invariant(&*self);
        }
        let keyword = match self.peek() {
            Some(token) => token,
            None => {
                return Err(
                    ParseError::new(
                        String::from_str("Unexpected end of token stream"),
                        self.end_span(),
                    ),
                );
            },
        };
        match keyword {
            Token::If => self.if_stmt(),
            Token::While => self.while_stmt(),
            Token::Identifier => self.ass_stmt(),
            Token::Skip => self.skip_stmt(),
            Token::LeftParen => {
                self.advance();
                let block = self.stmt_block()?;
                self.expect_token(Token::RightParen)?;
                Ok(block)
            },
            other => {
                let span = self.tokens[self.position].span;
                let mut message = String::from_str("Found ");
                message.append(other.describe());
                Err(ParseError::new(message, span))
            },
        }
    }

    /// Parses `"if" expression "then" stmt_block "else" stmt_block`.
    #[verifier::rlimit(40)]
    fn if_stmt(&mut self) -> (result: Result<Ast, ParseError>)
        ensures
            final(self).follows(
                old(self),
                result,
                if_stmt(old(self).source(), old(self).tokens(), old(self).position()),
            ),
        decreases remaining(old(self).tokens(), old(self).position()), 0nat,
    {
        proof {
            reveal_with_fuel(Ast::model, 3);
        }
        self.expect_token(Token::If)?;
        let cond = self.expression()?;
        self.expect_token(Token::Then)?;
        let block_true = self.stmt_block()?;
        self.expect_token(Token::Else)?;
        let block_false = self.stmt_block()?;
        Ok(
            Ast::If {
                cond: Box::new(cond),
                true_path: Box::new(block_true),
                false_path: Box::new(block_false),
            },
        )
    }

    /// Parses `"while" expression "do" stmt_block`.
    #[verifier::rlimit(40)]
    fn while_stmt(&mut self) -> (result: Result<Ast, ParseError>)
        ensures
            final(self).follows(
                old(self),
                result,
                while_stmt(old(self).source(), old(self).tokens(), old(self).position()),
            ),
        decreases remaining(old(self).tokens(), old(self).position()), 0nat,
    {
        proof {
            reveal_with_fuel(Ast::model, 3);
        }
        self.expect_token(Token::While)?;
        let cond = self.expression()?;
        self.expect_token(Token::Do)?;
        let body = self.stmt_block()?;
        Ok(Ast::While { cond: Box::new(cond), body: Box::new(body) })
    }

    /// Parses `ident ":=" expression`.
    #[verifier::rlimit(40)]
    fn ass_stmt(&mut self) -> (result: Result<Ast, ParseError>)
        ensures
            final(self).follows(
                old(self),
                result,
                ass_stmt(old(self).source(), old(self).tokens(), old(self).position()),
            ),
    {
        let span = match self.advance() {
            Some(token) => {
                if token.inner == Token::Identifier {
                    token.span
                } else {
                    return Err(
                        ParseError::new(
                            String::from_str("Expected LHS Identifier"),
                            self.end_span(),
                        ),
                    );
                }
            },
            None => {
                return Err(
                    ParseError::new(String::from_str("Expected LHS Identifier"), self.end_span()),
                );
            },
        };
        let ident = String::from_str(self.text(span)?);
        self.expect_token(Token::Assign)?;
        let value = self.expression()?;
        Ok(Ast::Ass { ident, value: Box::new(value) })
    }

    /// Parses `"skip"`.
    #[verifier::rlimit(40)]
    fn skip_stmt(&mut self) -> (result: Result<Ast, ParseError>)
        ensures
            final(self).follows(
                old(self),
                result,
                skip_stmt(old(self).source(), old(self).tokens(), old(self).position()),
            ),
    {
        self.expect_token(Token::Skip)?;
        Ok(Ast::Skip)
    }

    /// Parses an expression.
    #[verifier::rlimit(40)]
    fn expression(&mut self) -> (result: Result<Ast, ParseError>)
        ensures
            final(self).follows(
                old(self),
                result,
                expression(old(self).source(), old(self).tokens(), old(self).position()),
            ),
        decreases remaining(old(self).tokens(), old(self).position()), 8nat,
    {
        proof {
            reveal_with_fuel(Ast::model, 3);
        }
        self.logical_connective()
    }

    /// Parses `equality ( "&" equality )*`.
    #[verifier::rlimit(40)]
    fn logical_connective(&mut self) -> (result: Result<Ast, ParseError>)
        ensures
            final(self).follows(
                old(self),
                result,
                expression(old(self).source(), old(self).tokens(), old(self).position()),
            ),
        decreases remaining(old(self).tokens(), old(self).position()), 7nat,
    {
        proof {
            reveal_with_fuel(Ast::model, 3);
        }
        let ghost src = self.source();
        let ghost ts = self.tokens();
        let ghost start = self.position();
        let mut expr = self.equality()?;
        proof {
            use_type_invariant(&*self);
        }
        loop
            invariant
                self.source() == src,
                self.tokens() == ts,
                start <= self.position() <= ts.len(),
                expression(src, ts, start) == after(
                    chain(Level::Logical, src, ts, self.position(), expr@),
                    (self.position() - start) as nat,
                ),
                src == old(self).source(),
                ts == old(self).tokens(),
                start == old(self).position(),
            ensures
                !Level::Logical.has_operator(token_at(ts, self.position())),
            decreases ts.len() - self.position(),
        {
            match self.peek() {
                Some(Token::And) => {},
                _ => {
                    break ;
                },
            }
            let ghost here = self.position();
            let ghost left = expr@;
            proof {
                let operand = equality(src, ts, here + 1);
                assert(chain(Level::Logical, src, ts, here, left) == match operand.result {
                    Ok(right) => after(
                        chain(
                            Level::Logical,
                            src,
                            ts,
                            here + 1 + operand.length,
                            join(ts[here as int].inner, left, right),
                        ),
                        1 + operand.length,
                    ),
                    Err(_) => after(operand, 0),
                });
            }
            self.advance();
            let right = self.equality()?;
            expr = Ast::And { left: Box::new(expr), right: Box::new(right) };
            proof {
                use_type_invariant(&*self);
            }
        }
        Ok(expr)
    }

    /// Parses `comparison ( ( "=" | "!=" ) comparison )?`.
    #[verifier::rlimit(40)]
    fn equality(&mut self) -> (result: Result<Ast, ParseError>)
        ensures
            final(self).follows(
                old(self),
                result,
                equality(old(self).source(), old(self).tokens(), old(self).position()),
            ),
        decreases remaining(old(self).tokens(), old(self).position()), 6nat,
    {
        proof {
            reveal_with_fuel(Ast::model, 3);
        }
        let expr = self.comparison()?;
        match self.peek() {
            Some(Token::Equal) => {
                self.advance();
                let rhs = self.comparison()?;
                Ok(Ast::Eq { left: Box::new(expr), right: Box::new(rhs) })
            },
            Some(Token::NotEqual) => {
                self.advance();
                let rhs = self.comparison()?;
                Ok(
                    Ast::Not {
                        expr: Box::new(Ast::Eq { left: Box::new(expr), right: Box::new(rhs) }),
                    },
                )
            },
            _ => Ok(expr),
        }
    }

    /// Parses `term ( ( "<=" | "<" | ">" | ">=" ) term )?`.
    #[verifier::rlimit(40)]
    fn comparison(&mut self) -> (result: Result<Ast, ParseError>)
        ensures
            final(self).follows(
                old(self),
                result,
                comparison(old(self).source(), old(self).tokens(), old(self).position()),
            ),
        decreases remaining(old(self).tokens(), old(self).position()), 5nat,
    {
        proof {
            reveal_with_fuel(Ast::model, 3);
        }
        let expr = self.term()?;
        match self.peek() {
            Some(Token::LessEqual) => {
                self.advance();
                let rhs = self.term()?;
                // a <= b
                Ok(Ast::LessEq { left: Box::new(expr), right: Box::new(rhs) })
            },
            Some(Token::LessThan) => {
                self.advance();
                let rhs = self.term()?;
                // a < b == !(b <= a)
                Ok(
                    Ast::Not {
                        expr: Box::new(Ast::LessEq { left: Box::new(rhs), right: Box::new(expr) }),
                    },
                )
            },
            Some(Token::GreaterEqual) => {
                self.advance();
                let rhs = self.term()?;
                // a >= b == (b <= a)
                Ok(Ast::LessEq { left: Box::new(rhs), right: Box::new(expr) })
            },
            Some(Token::GreaterThan) => {
                self.advance();
                let rhs = self.term()?;
                // a > b == !(a <= b)
                Ok(
                    Ast::Not {
                        expr: Box::new(Ast::LessEq { left: Box::new(expr), right: Box::new(rhs) }),
                    },
                )
            },
            _ => Ok(expr),
        }
    }

    /// Parses `factor ( ( "+" | "-" ) factor )*`.
    #[verifier::rlimit(40)]
    fn term(&mut self) -> (result: Result<Ast, ParseError>)
        ensures
            final(self).follows(
                old(self),
                result,
                term(old(self).source(), old(self).tokens(), old(self).position()),
            ),
        decreases remaining(old(self).tokens(), old(self).position()), 4nat,
    {
        proof {
            reveal_with_fuel(Ast::model, 3);
        }
        let ghost src = self.source();
        let ghost ts = self.tokens();
        let ghost start = self.position();
        let mut expr = self.factor()?;
        proof {
            use_type_invariant(&*self);
        }
        loop
            invariant
                self.source() == src,
                self.tokens() == ts,
                start <= self.position() <= ts.len(),
                term(src, ts, start) == after(
                    chain(Level::Term, src, ts, self.position(), expr@),
                    (self.position() - start) as nat,
                ),
                src == old(self).source(),
                ts == old(self).tokens(),
                start == old(self).position(),
            ensures
                !Level::Term.has_operator(token_at(ts, self.position())),
            decreases ts.len() - self.position(),
        {
            let operator = match self.peek() {
                Some(Token::Add) => Token::Add,
                Some(Token::Subtract) => Token::Subtract,
                _ => {
                    break ;
                },
            };
            let ghost here = self.position();
            let ghost left = expr@;
            proof {
                let operand = factor(src, ts, here + 1);
                assert(chain(Level::Term, src, ts, here, left) == match operand.result {
                    Ok(right) => after(
                        chain(
                            Level::Term,
                            src,
                            ts,
                            here + 1 + operand.length,
                            join(ts[here as int].inner, left, right),
                        ),
                        1 + operand.length,
                    ),
                    Err(_) => after(operand, 0),
                });
            }
            self.advance();
            let right = self.factor()?;
            expr = if operator == Token::Add {
                Ast::Add { left: Box::new(expr), right: Box::new(right) }
            } else {
                Ast::Sub { left: Box::new(expr), right: Box::new(right) }
            };
            proof {
                use_type_invariant(&*self);
            }
        }
        Ok(expr)
    }

    /// Parses `unary ( "*" unary )*`.
    #[verifier::rlimit(40)]
    fn factor(&mut self) -> (result: Result<Ast, ParseError>)
        ensures
            final(self).follows(
                old(self),
                result,
                factor(old(self).source(), old(self).tokens(), old(self).position()),
            ),
        decreases remaining(old(self).tokens(), old(self).position()), 3nat,
    {
        proof {
            reveal_with_fuel(Ast::model, 3);
        }
        let ghost src = self.source();
        let ghost ts = self.tokens();
        let ghost start = self.position();
        let mut expr = self.unary()?;
        proof {
            use_type_invariant(&*self);
        }
        loop
            invariant
                self.source() == src,
                self.tokens() == ts,
                start <= self.position() <= ts.len(),
                factor(src, ts, start) == after(
                    chain(Level::Factor, src, ts, self.position(), expr@),
                    (self.position() - start) as nat,
                ),
                src == old(self).source(),
                ts == old(self).tokens(),
                start == old(self).position(),
            ensures
                !Level::Factor.has_operator(token_at(ts, self.position())),
            decreases ts.len() - self.position(),
        {
            match self.peek() {
                Some(Token::Multiply) => {},
                _ => {
                    break ;
                },
            }
            let ghost here = self.position();
            let ghost left = expr@;
            proof {
                let operand = unary(src, ts, here + 1);
                assert(chain(Level::Factor, src, ts, here, left) == match operand.result {
                    Ok(right) => after(
                        chain(
                            Level::Factor,
                            src,
                            ts,
                            here + 1 + operand.length,
                            join(ts[here as int].inner, left, right),
                        ),
                        1 + operand.length,
                    ),
                    Err(_) => after(operand, 0),
                });
            }
            self.advance();
            let right = self.unary()?;
            expr = Ast::Mul { left: Box::new(expr), right: Box::new(right) };
            proof {
                use_type_invariant(&*self);
            }
        }
        Ok(expr)
    }

    /// Parses `( "-" | "!" ) unary | primary`.
    #[verifier::rlimit(40)]
    fn unary(&mut self) -> (result: Result<Ast, ParseError>)
        ensures
            final(self).follows(
                old(self),
                result,
                unary(old(self).source(), old(self).tokens(), old(self).position()),
            ),
        decreases remaining(old(self).tokens(), old(self).position()), 2nat,
    {
        proof {
            reveal_with_fuel(Ast::model, 3);
        }
        match self.peek() {
            Some(Token::Subtract) => {
                self.advance();
                let operand = self.unary()?;
                Ok(Ast::Sub { left: Box::new(Ast::Literal(0)), right: Box::new(operand) })
            },
            Some(Token::Not) => {
                self.advance();
                let operand = self.unary()?;
                Ok(Ast::Not { expr: Box::new(operand) })
            },
            _ => self.primary(),
        }
    }

    /// Parses an identifier, a literal, `true`, `false` or an expression
    /// between parentheses.
    #[verifier::rlimit(40)]
    fn primary(&mut self) -> (result: Result<Ast, ParseError>)
        ensures
            final(self).follows(
                old(self),
                result,
                primary(old(self).source(), old(self).tokens(), old(self).position()),
            ),
        decreases remaining(old(self).tokens(), old(self).position()), 1nat,
    {
        proof {
            reveal_with_fuel(Ast::model, 3);
        }
        let token = match self.advance() {
            Some(token) => token,
            None => {
                return Err(
                    ParseError::new(
                        String::from_str("Reached end of token stream"),
                        self.end_span(),
                    ),
                );
            },
        };
        match token.inner {
            Token::LeftParen => {
                let expr = self.expression()?;
                self.expect_token(Token::RightParen)?;
                Ok(expr)
            },
            Token::True => Ok(Ast::True),
            Token::False => Ok(Ast::False),
            Token::Identifier => {
                let name = self.text(token.span)?;
                Ok(Ast::Ident(String::from_str(name)))
            },
            Token::Literal => {
                let text = self.text(token.span)?;
                match parse_integer(text) {
                    Some(value) => Ok(Ast::Literal(value)),
                    None => Err(
                        ParseError::new(
                            String::from_str("Literal is not a 32-bit integer"),
                            token.span,
                        ),
                    ),
                }
            },
            other => {
                let mut message = String::from_str("Got unexpected ");
                message.append(other.describe());
                message.append(" at the primary parsing stage");
                Err(ParseError::new(message, token.span))
            },
        }
    }
}

/// Whether two tokens are alike for the grammar: they are of one kind, and
/// where the first marks a text in its source, the second marks the same
/// text in its own.
pub open spec fn alike(src: Seq<char>, a: Spanned<Token>, src2: Seq<char>, b: Spanned<Token>) -> bool {
    &&& a.inner == b.inner
    &&& token_text(src, a.span) is Ok ==> token_text(src2, b.span) == token_text(src, a.span)
}

/// Whether `outer`, over the source `src2`, holds tokens like those of
/// `inner`, over the source `src`, from the index `shift` on, and after
/// them either nothing or a closing parenthesis.
#[verifier::opaque]
pub open spec fn embeds(
    src: Seq<char>,
    inner: Seq<Spanned<Token>>,
    src2: Seq<char>,
    outer: Seq<Spanned<Token>>,
    shift: nat,
) -> bool {
    &&& shift + inner.len() <= outer.len()
    &&& forall|i: int|
        0 <= i < inner.len() ==> alike(src, inner[i], src2, #[trigger] outer[shift + i])
    &&& token_at(outer, shift + inner.len()) is None || token_at(outer, shift + inner.len())
        == Some(Token::RightParen)
}

/// An embedded stream shows the same tokens, and where it ends the outer
/// stream shows nothing that an operator, a semicolon or a statement could
/// begin with.
#[verifier::rlimit(40)]
proof fn lemma_embedded_token(
    src: Seq<char>,
    inner: Seq<Spanned<Token>>,
    src2: Seq<char>,
    outer: Seq<Spanned<Token>>,
    shift: nat,
    pos: nat,
)
    requires
        embeds(src, inner, src2, outer, shift),
        pos <= inner.len(),
    ensures
        pos < inner.len() ==> alike(
            src,
            inner[pos as int],
            src2,
            outer[(shift + pos) as int],
        ) && token_at(outer, shift + pos) == token_at(inner, pos),
        pos == inner.len() ==> token_at(inner, pos) is None && (token_at(outer, shift + pos)
            is None || token_at(outer, shift + pos) == Some(Token::RightParen)),
{
    reveal(embeds);
    if pos < inner.len() {
        assert(alike(src, inner[pos as int], src2, outer[shift + pos as int]));
    }
}

/// An expected token that stands in an embedded stream stands in the outer
/// stream.
#[verifier::rlimit(40)]
proof fn lemma_embedded_expect(
    src: Seq<char>,
    inner: Seq<Spanned<Token>>,
    src2: Seq<char>,
    outer: Seq<Spanned<Token>>,
    shift: nat,
    pos: nat,
    token: Token,
)
    requires
        embeds(src, inner, src2, outer, shift),
        expect(src, inner, pos, token) is None,
    ensures
        expect(src2, outer, shift + pos, token) is None,
        pos < inner.len(),
{
    lemma_embedded_token(src, inner, src2, outer, shift, pos);
}

/// Where [`primary`] yields a tree in a stream, it yields the same tree from
/// as many tokens in every stream that embeds the first, and ends within
/// the first.
#[verifier::rlimit(40)]
proof fn lemma_embedded_primary(
    src: Seq<char>,
    inner: Seq<Spanned<Token>>,
    src2: Seq<char>,
    outer: Seq<Spanned<Token>>,
    shift: nat,
    pos: nat,
)
    requires
        embeds(src, inner, src2, outer, shift),
        pos <= inner.len(),
        primary(src, inner, pos).result is Ok,
    ensures
        primary(src2, outer, shift + pos) == primary(src, inner, pos),
        pos + primary(src, inner, pos).length <= inner.len(),
    decreases remaining(inner, pos), 1nat,
{
    lemma_embedded_token(src, inner, src2, outer, shift, pos);
    if pos < inner.len() && inner[pos as int].inner == Token::LeftParen {
        lemma_embedded_expression(src, inner, src2, outer, shift, pos + 1);
        let length = expression(src, inner, pos + 1).length;
        lemma_embedded_expect(src, inner, src2, outer, shift, pos + 1 + length, Token::RightParen);
    }
}

/// Where [`unary`] yields a tree in a stream, it yields the same tree from
/// as many tokens in every stream that embeds the first, and ends within
/// the first.
#[verifier::rlimit(40)]
proof fn lemma_embedded_unary(
    src: Seq<char>,
    inner: Seq<Spanned<Token>>,
    src2: Seq<char>,
    outer: Seq<Spanned<Token>>,
    shift: nat,
    pos: nat,
)
    requires
        embeds(src, inner, src2, outer, shift),
        pos <= inner.len(),
        unary(src, inner, pos).result is Ok,
    ensures
        unary(src2, outer, shift + pos) == unary(src, inner, pos),
        pos + unary(src, inner, pos).length <= inner.len(),
    decreases remaining(inner, pos), 2nat,
{
    lemma_embedded_token(src, inner, src2, outer, shift, pos);
    if token_at(inner, pos) == Some(Token::Subtract) || token_at(inner, pos) == Some(Token::Not) {
        lemma_embedded_unary(src, inner, src2, outer, shift, pos + 1);
    } else {
        lemma_embedded_primary(src, inner, src2, outer, shift, pos);
    }
}

/// Where [`chain`] yields a tree in a stream, it yields the same tree from
/// as many tokens in every stream that embeds the first, and ends within
/// the first.
#[verifier::rlimit(40)]
proof fn lemma_embedded_chain(
    level: Level,
    src: Seq<char>,
    inner: Seq<Spanned<Token>>,
    src2: Seq<char>,
    outer: Seq<Spanned<Token>>,
    shift: nat,
    pos: nat,
    left: AstView,
)
    requires
        embeds(src, inner, src2, outer, shift),
        pos <= inner.len(),
        chain(level, src, inner, pos, left).result is Ok,
    ensures
        chain(level, src2, outer, shift + pos, left) == chain(level, src, inner, pos, left),
        pos + chain(level, src, inner, pos, left).length <= inner.len(),
    decreases remaining(inner, pos), 0nat,
{
    lemma_embedded_token(src, inner, src2, outer, shift, pos);
    if level.has_operator(token_at(inner, pos)) {
        match level {
            Level::Logical => lemma_embedded_equality(src, inner, src2, outer, shift, pos + 1),
            Level::Term => lemma_embedded_factor(src, inner, src2, outer, shift, pos + 1),
            Level::Factor => lemma_embedded_unary(src, inner, src2, outer, shift, pos + 1),
        }
        let operand = match level {
            Level::Logical => equality(src, inner, pos + 1),
            Level::Term => factor(src, inner, pos + 1),
            Level::Factor => unary(src, inner, pos + 1),
        };
        lemma_embedded_chain(
            level,
            src,
            inner,
            src2,
            outer,
            shift,
            pos + 1 + operand.length,
            join(inner[pos as int].inner, left, operand.result->Ok_0),
        );
    }
}

/// Where [`factor`] yields a tree in a stream, it yields the same tree from
/// as many tokens in every stream that embeds the first, and ends within
/// the first.
#[verifier::rlimit(40)]
proof fn lemma_embedded_factor(
    src: Seq<char>,
    inner: Seq<Spanned<Token>>,
    src2: Seq<char>,
    outer: Seq<Spanned<Token>>,
    shift: nat,
    pos: nat,
)
    requires
        embeds(src, inner, src2, outer, shift),
        pos <= inner.len(),
        factor(src, inner, pos).result is Ok,
    ensures
        factor(src2, outer, shift + pos) == factor(src, inner, pos),
        pos + factor(src, inner, pos).length <= inner.len(),
    decreases remaining(inner, pos), 3nat,
{
    lemma_embedded_unary(src, inner, src2, outer, shift, pos);
    let first = unary(src, inner, pos);
    lemma_embedded_chain(
        Level::Factor,
        src,
        inner,
        src2,
        outer,
        shift,
        pos + first.length,
        first.result->Ok_0,
    );
}

/// Where [`term`] yields a tree in a stream, it yields the same tree from
/// as many tokens in every stream that embeds the first, and ends within
/// the first.
#[verifier::rlimit(40)]
proof fn lemma_embedded_term(
    src: Seq<char>,
    inner: Seq<Spanned<Token>>,
    src2: Seq<char>,
    outer: Seq<Spanned<Token>>,
    shift: nat,
    pos: nat,
)
    requires
        embeds(src, inner, src2, outer, shift),
        pos <= inner.len(),
        term(src, inner, pos).result is Ok,
    ensures
        term(src2, outer, shift + pos) == term(src, inner, pos),
        pos + term(src, inner, pos).length <= inner.len(),
    decreases remaining(inner, pos), 4nat,
{
    lemma_embedded_factor(src, inner, src2, outer, shift, pos);
    let first = factor(src, inner, pos);
    lemma_embedded_chain(
        Level::Term,
        src,
        inner,
        src2,
        outer,
        shift,
        pos + first.length,
        first.result->Ok_0,
    );
}

/// Where [`comparison`] yields a tree in a stream, it yields the same tree from
/// as many tokens in every stream that embeds the first, and ends within
/// the first.
#[verifier::rlimit(40)]
proof fn lemma_embedded_comparison(
    src: Seq<char>,
    inner: Seq<Spanned<Token>>,
    src2: Seq<char>,
    outer: Seq<Spanned<Token>>,
    shift: nat,
    pos: nat,
)
    requires
        embeds(src, inner, src2, outer, shift),
        pos <= inner.len(),
        comparison(src, inner, pos).result is Ok,
    ensures
        comparison(src2, outer, shift + pos) == comparison(src, inner, pos),
        pos + comparison(src, inner, pos).length <= inner.len(),
    decreases remaining(inner, pos), 5nat,
{
    lemma_embedded_term(src, inner, src2, outer, shift, pos);
    let first = term(src, inner, pos);
    lemma_embedded_token(src, inner, src2, outer, shift, pos + first.length);
    if is_comparison(token_at(inner, pos + first.length)) {
        lemma_embedded_term(src, inner, src2, outer, shift, pos + first.length + 1);
    }
}

/// Where [`equality`] yields a tree in a stream, it yields the same tree from
/// as many tokens in every stream that embeds the first, and ends within
/// the first.
#[verifier::rlimit(40)]
proof fn lemma_embedded_equality(
    src: Seq<char>,
    inner: Seq<Spanned<Token>>,
    src2: Seq<char>,
    outer: Seq<Spanned<Token>>,
    shift: nat,
    pos: nat,
)
    requires
        embeds(src, inner, src2, outer, shift),
        pos <= inner.len(),
        equality(src, inner, pos).result is Ok,
    ensures
        equality(src2, outer, shift + pos) == equality(src, inner, pos),
        pos + equality(src, inner, pos).length <= inner.len(),
    decreases remaining(inner, pos), 6nat,
{
    lemma_embedded_comparison(src, inner, src2, outer, shift, pos);
    let first = comparison(src, inner, pos);
    lemma_embedded_token(src, inner, src2, outer, shift, pos + first.length);
    if is_equality(token_at(inner, pos + first.length)) {
        lemma_embedded_comparison(src, inner, src2, outer, shift, pos + first.length + 1);
    }
}

/// Where [`expression`] yields a tree in a stream, it yields the same tree from
/// as many tokens in every stream that embeds the first, and ends within
/// the first.
#[verifier::rlimit(40)]
proof fn lemma_embedded_expression(
    src: Seq<char>,
    inner: Seq<Spanned<Token>>,
    src2: Seq<char>,
    outer: Seq<Spanned<Token>>,
    shift: nat,
    pos: nat,
)
    requires
        embeds(src, inner, src2, outer, shift),
        pos <= inner.len(),
        expression(src, inner, pos).result is Ok,
    ensures
        expression(src2, outer, shift + pos) == expression(src, inner, pos),
        pos + expression(src, inner, pos).length <= inner.len(),
    decreases remaining(inner, pos), 7nat,
{
    lemma_embedded_equality(src, inner, src2, outer, shift, pos);
    let first = equality(src, inner, pos);
    lemma_embedded_chain(
        Level::Logical,
        src,
        inner,
        src2,
        outer,
        shift,
        pos + first.length,
        first.result->Ok_0,
    );
}

/// Where [`ass_stmt`] yields a tree in a stream, it yields the same tree from
/// as many tokens in every stream that embeds the first, and ends within
/// the first.
#[verifier::rlimit(40)]
proof fn lemma_embedded_ass_stmt(
    src: Seq<char>,
    inner: Seq<Spanned<Token>>,
    src2: Seq<char>,
    outer: Seq<Spanned<Token>>,
    shift: nat,
    pos: nat,
)
    requires
        embeds(src, inner, src2, outer, shift),
        pos <= inner.len(),
        ass_stmt(src, inner, pos).result is Ok,
    ensures
        ass_stmt(src2, outer, shift + pos) == ass_stmt(src, inner, pos),
        pos + ass_stmt(src, inner, pos).length <= inner.len(),
{
    lemma_embedded_token(src, inner, src2, outer, shift, pos);
    lemma_embedded_expect(src, inner, src2, outer, shift, pos + 1, Token::Assign);
    lemma_embedded_expression(src, inner, src2, outer, shift, pos + 2);
}

/// Where [`while_stmt`] yields a tree in a stream, it yields the same tree from
/// as many tokens in every stream that embeds the first, and ends within
/// the first.
#[verifier::rlimit(40)]
proof fn lemma_embedded_while_stmt(
    src: Seq<char>,
    inner: Seq<Spanned<Token>>,
    src2: Seq<char>,
    outer: Seq<Spanned<Token>>,
    shift: nat,
    pos: nat,
)
    requires
        embeds(src, inner, src2, outer, shift),
        pos <= inner.len(),
        while_stmt(src, inner, pos).result is Ok,
    ensures
        while_stmt(src2, outer, shift + pos) == while_stmt(src, inner, pos),
        pos + while_stmt(src, inner, pos).length <= inner.len(),
    decreases remaining(inner, pos), 0nat,
{
    lemma_embedded_expect(src, inner, src2, outer, shift, pos, Token::While);
    let cond = expression(src, inner, pos + 1);
    assert(cond.result is Ok);
    lemma_embedded_expression(src, inner, src2, outer, shift, pos + 1);
    assert(expression(src2, outer, shift + pos + 1) == cond);
    lemma_embedded_expect(src, inner, src2, outer, shift, pos + 1 + cond.length, Token::Do);
    let body = stmt_block(src, inner, pos + 2 + cond.length);
    assert(body.result is Ok);
    lemma_embedded_stmt_block(src, inner, src2, outer, shift, pos + 2 + cond.length);
    assert(stmt_block(src2, outer, shift + pos + 2 + cond.length) == body);
}

/// Where [`branches`] yields a tree in a stream, it yields the same tree from
/// as many tokens in every stream that embeds the first, and ends within
/// the first.
#[verifier::rlimit(40)]
proof fn lemma_embedded_branches(
    src: Seq<char>,
    inner: Seq<Spanned<Token>>,
    src2: Seq<char>,
    outer: Seq<Spanned<Token>>,
    shift: nat,
    pos: nat,
    cond: AstView,
)
    requires
        embeds(src, inner, src2, outer, shift),
        pos <= inner.len(),
        branches(src, inner, pos, cond).result is Ok,
    ensures
        branches(src2, outer, shift + pos, cond) == branches(src, inner, pos, cond),
        pos + branches(src, inner, pos, cond).length <= inner.len(),
    decreases remaining(inner, pos), 4nat,
{
    lemma_embedded_stmt_block(src, inner, src2, outer, shift, pos);
    let first = stmt_block(src, inner, pos);
    lemma_embedded_expect(src, inner, src2, outer, shift, pos + first.length, Token::Else);
    lemma_embedded_stmt_block(src, inner, src2, outer, shift, pos + first.length + 1);
}

/// Where [`if_stmt`] yields a tree in a stream, it yields the same tree from
/// as many tokens in every stream that embeds the first, and ends within
/// the first.
#[verifier::rlimit(40)]
proof fn lemma_embedded_if_stmt(
    src: Seq<char>,
    inner: Seq<Spanned<Token>>,
    src2: Seq<char>,
    outer: Seq<Spanned<Token>>,
    shift: nat,
    pos: nat,
)
    requires
        embeds(src, inner, src2, outer, shift),
        pos <= inner.len(),
        if_stmt(src, inner, pos).result is Ok,
    ensures
        if_stmt(src2, outer, shift + pos) == if_stmt(src, inner, pos),
        pos + if_stmt(src, inner, pos).length <= inner.len(),
    decreases remaining(inner, pos), 0nat,
{
    lemma_embedded_expect(src, inner, src2, outer, shift, pos, Token::If);
    let cond = expression(src, inner, pos + 1);
    assert(cond.result is Ok);
    lemma_embedded_expression(src, inner, src2, outer, shift, pos + 1);
    assert(expression(src2, outer, shift + pos + 1) == cond);
    lemma_embedded_expect(src, inner, src2, outer, shift, pos + 1 + cond.length, Token::Then);
    let c = cond.result->Ok_0;
    let rest = branches(src, inner, pos + 2 + cond.length, c);
    assert(if_stmt(src, inner, pos) == after(rest, 2 + cond.length));
    lemma_embedded_branches(src, inner, src2, outer, shift, pos + 2 + cond.length, c);
    assert(branches(src2, outer, shift + pos + 2 + cond.length, c) == rest);
    assert(if_stmt(src2, outer, shift + pos) == after(rest, 2 + cond.length));
}

/// Where [`statement`] yields a tree in a stream, it yields the same tree from
/// as many tokens in every stream that embeds the first, and ends within
/// the first.
#[verifier::rlimit(40)]
proof fn lemma_embedded_statement(
    src: Seq<char>,
    inner: Seq<Spanned<Token>>,
    src2: Seq<char>,
    outer: Seq<Spanned<Token>>,
    shift: nat,
    pos: nat,
)
    requires
        embeds(src, inner, src2, outer, shift),
        pos <= inner.len(),
        statement(src, inner, pos).result is Ok,
    ensures
        statement(src2, outer, shift + pos) == statement(src, inner, pos),
        pos + statement(src, inner, pos).length <= inner.len(),
    decreases remaining(inner, pos), 1nat,
{
    lemma_embedded_token(src, inner, src2, outer, shift, pos);
    match inner[pos as int].inner {
        Token::If => lemma_embedded_if_stmt(src, inner, src2, outer, shift, pos),
        Token::While => lemma_embedded_while_stmt(src, inner, src2, outer, shift, pos),
        Token::Identifier => lemma_embedded_ass_stmt(src, inner, src2, outer, shift, pos),
        Token::Skip => {},
        Token::LeftParen => {
            lemma_embedded_stmt_block(src, inner, src2, outer, shift, pos + 1);
            let block = stmt_block(src, inner, pos + 1);
            lemma_embedded_expect(
                src,
                inner,
                src2,
                outer,
                shift,
                pos + 1 + block.length,
                Token::RightParen,
            );
        },
        _ => {},
    }
}

/// Where [`stmt_tail`] yields a tree in a stream, it yields the same tree from
/// as many tokens in every stream that embeds the first, and ends within
/// the first.
#[verifier::rlimit(40)]
proof fn lemma_embedded_stmt_tail(
    src: Seq<char>,
    inner: Seq<Spanned<Token>>,
    src2: Seq<char>,
    outer: Seq<Spanned<Token>>,
    shift: nat,
    pos: nat,
    left: AstView,
)
    requires
        embeds(src, inner, src2, outer, shift),
        pos <= inner.len(),
        stmt_tail(src, inner, pos, left).result is Ok,
    ensures
        stmt_tail(src2, outer, shift + pos, left) == stmt_tail(src, inner, pos, left),
        pos + stmt_tail(src, inner, pos, left).length <= inner.len(),
    decreases remaining(inner, pos), 2nat,
{
    lemma_embedded_token(src, inner, src2, outer, shift, pos);
    if token_at(inner, pos) == Some(Token::Semicolon) {
        lemma_embedded_token(src, inner, src2, outer, shift, pos + 1);
        if !ends_block(token_at(inner, pos + 1)) {
            lemma_embedded_statement(src, inner, src2, outer, shift, pos + 1);
            let next = statement(src, inner, pos + 1);
            lemma_embedded_stmt_tail(
                src,
                inner,
                src2,
                outer,
                shift,
                pos + 1 + next.length,
                AstView::Comp { first: Box::new(left), second: Box::new(next.result->Ok_0) },
            );
        }
    }
}

/// The semicolons before a block are the same in an embedded stream.
#[verifier::rlimit(40)]
proof fn lemma_embedded_semicolons(
    src: Seq<char>,
    inner: Seq<Spanned<Token>>,
    src2: Seq<char>,
    outer: Seq<Spanned<Token>>,
    shift: nat,
    pos: nat,
)
    requires
        embeds(src, inner, src2, outer, shift),
        pos <= inner.len(),
    ensures
        semicolons(outer, shift + pos) == semicolons(inner, pos),
        pos + semicolons(inner, pos) <= inner.len(),
    decreases remaining(inner, pos),
{
    lemma_embedded_token(src, inner, src2, outer, shift, pos);
    if token_at(inner, pos) == Some(Token::Semicolon) {
        lemma_embedded_semicolons(src, inner, src2, outer, shift, pos + 1);
    }
}

/// Where [`stmt_block`] yields a tree in a stream, it yields the same tree from
/// as many tokens in every stream that embeds the first, and ends within
/// the first.
#[verifier::rlimit(40)]
proof fn lemma_embedded_stmt_block(
    src: Seq<char>,
    inner: Seq<Spanned<Token>>,
    src2: Seq<char>,
    outer: Seq<Spanned<Token>>,
    shift: nat,
    pos: nat,
)
    requires
        embeds(src, inner, src2, outer, shift),
        pos <= inner.len(),
        stmt_block(src, inner, pos).result is Ok,
    ensures
        stmt_block(src2, outer, shift + pos) == stmt_block(src, inner, pos),
        pos + stmt_block(src, inner, pos).length <= inner.len(),
    decreases remaining(inner, pos), 3nat,
{
    lemma_embedded_semicolons(src, inner, src2, outer, shift, pos);
    let skipped = semicolons(inner, pos);
    assert(semicolons(outer, shift + pos) == skipped);
    let first = statement(src, inner, pos + skipped);
    assert(first.result is Ok);
    lemma_embedded_statement(src, inner, src2, outer, shift, pos + skipped);
    assert(statement(src2, outer, shift + pos + skipped) == first);
    let left = first.result->Ok_0;
    let rest = stmt_tail(src, inner, pos + skipped + first.length, left);
    assert(stmt_block(src, inner, pos) == after(rest, skipped + first.length));
    assert(rest.result is Ok);
    lemma_embedded_stmt_tail(src, inner, src2, outer, shift, pos + skipped + first.length, left);
    assert(stmt_tail(src2, outer, shift + pos + skipped + first.length, left) == rest);
    assert(stmt_block(src2, outer, shift + pos) == after(rest, skipped + first.length));
}

/// A block that is parsed out of a stream is parsed the same out of any
/// stream that holds the first one and goes on with a closing parenthesis:
/// the same tree, from the same number of tokens.
pub proof fn lemma_block_is_stable(
    src: Seq<char>,
    inner: Seq<Spanned<Token>>,
    src2: Seq<char>,
    outer: Seq<Spanned<Token>>,
    shift: nat,
    pos: nat,
)
    requires
        embeds(src, inner, src2, outer, shift),
        pos <= inner.len(),
        stmt_block(src, inner, pos).result is Ok,
    ensures
        stmt_block(src2, outer, shift + pos) == stmt_block(src, inner, pos),
        pos + stmt_block(src, inner, pos).length <= inner.len(),
{
    lemma_embedded_stmt_block(src, inner, src2, outer, shift, pos);
}

/// A stream of tokens that parses leaves no token behind: the block at its
/// start takes them all.
pub proof fn lemma_parse_takes_all(src: Seq<char>, ts: Seq<Spanned<Token>>)
    requires
        parse(src, ts).result is Ok,
    ensures
        parse(src, ts) == stmt_block(src, ts, 0),
        parse(src, ts).length == ts.len(),
{
    assert(embeds(src, ts, src, ts, 0)) by {
        reveal(embeds);
    }
    let block = stmt_block(src, ts, 0);
    lemma_embedded_stmt_block(src, ts, src, ts, 0, 0);
}

/// A block between parentheses parses into the tree of the block: where a
/// stream parses into a tree, a stream that holds tokens like those of the
/// first between an opening and a closing parenthesis parses into the same
/// tree.
pub proof fn lemma_block_between_parentheses(
    src: Seq<char>,
    ts: Seq<Spanned<Token>>,
    src2: Seq<char>,
    outer: Seq<Spanned<Token>>,
)
    requires
        embeds(src, ts, src2, outer, 1),
        outer.len() == ts.len() + 2,
        outer[0].inner == Token::LeftParen,
        outer[ts.len() as int + 1].inner == Token::RightParen,
        parse(src, ts).result is Ok,
    ensures
        parse(src2, outer).result == parse(src, ts).result,
{
    lemma_parse_takes_all(src, ts);
    let block = stmt_block(src, ts, 0);
    lemma_embedded_stmt_block(src, ts, src2, outer, 1, 0);
    assert(stmt_block(src2, outer, 1) == block);
    assert(semicolons(outer, 0) == 0);
    assert(expect(src2, outer, 1 + block.length, Token::RightParen) is None);
    assert(statement(src2, outer, 0) == done(block.result->Ok_0, block.length + 2));
    assert(token_at(outer, ts.len() + 2) is None);
    assert(stmt_tail(src2, outer, ts.len() + 2, block.result->Ok_0) == done(
        block.result->Ok_0,
        0,
    ));
    assert(stmt_block(src2, outer, 0) == done(block.result->Ok_0, block.length + 2));
}

/// Parentheses around a statement are transparent: where a stream of
/// tokens parses into a tree, the stream between an opening and a closing
/// parenthesis parses into the same tree.
pub proof fn lemma_parentheses_are_transparent(
    src: Seq<char>,
    ts: Seq<Spanned<Token>>,
    left: Spanned<Token>,
    right: Spanned<Token>,
)
    requires
        left.inner == Token::LeftParen,
        right.inner == Token::RightParen,
        parse(src, ts).result is Ok,
    ensures
        parse(src, seq![left] + ts + seq![right]).result == parse(src, ts).result,
{
    let wrapped = seq![left] + ts + seq![right];
    assert(wrapped.len() == ts.len() + 2);
    assert(wrapped[0] == left);
    assert(wrapped[ts.len() as int + 1] == right);
    assert(embeds(src, ts, src, wrapped, 1)) by {
        reveal(embeds);
        assert forall|i: int| 0 <= i < ts.len() implies #[trigger] wrapped[1 + i] == ts[i] by {}
    }
    lemma_block_between_parentheses(src, ts, src, wrapped);
}

/// A stream of tokens between `depth` pairs of parentheses.
pub open spec fn wrapped(
    ts: Seq<Spanned<Token>>,
    left: Spanned<Token>,
    right: Spanned<Token>,
    depth: nat,
) -> Seq<Spanned<Token>>
    decreases depth,
{
    if depth == 0 {
        ts
    } else {
        seq![left] + wrapped(ts, left, right, (depth - 1) as nat) + seq![right]
    }
}

/// Any number of parentheses around a statement is transparent: `stmt` and
/// `(((stmt)))` parse into the same tree.
pub proof fn lemma_nested_parentheses_are_transparent(
    src: Seq<char>,
    ts: Seq<Spanned<Token>>,
    left: Spanned<Token>,
    right: Spanned<Token>,
    depth: nat,
)
    requires
        left.inner == Token::LeftParen,
        right.inner == Token::RightParen,
        parse(src, ts).result is Ok,
    ensures
        parse(src, wrapped(ts, left, right, depth)).result == parse(src, ts).result,
    decreases depth,
{
    if depth > 0 {
        let inner = wrapped(ts, left, right, (depth - 1) as nat);
        lemma_nested_parentheses_are_transparent(src, ts, left, right, (depth - 1) as nat);
        lemma_parentheses_are_transparent(src, inner, left, right);
    }
}

/// The tokens that count of two streams one after the other are those of
/// the first and those of the second.
pub proof fn lemma_significant_concat(a: Seq<Spanned<Token>>, b: Seq<Spanned<Token>>)
    ensures
        significant(a + b) == significant(a) + significant(b),
    decreases b.len(),
{
    if b.len() == 0 {
        assert(a + b =~= a);
        assert(significant(a) + significant(b) =~= significant(a));
    } else {
        assert((a + b).drop_last() =~= a + b.drop_last());
        assert((a + b).last() == b.last());
        lemma_significant_concat(a, b.drop_last());
        assert(significant(a + b) =~= significant(a) + significant(b));
    }
}

/// Streams of tokens that are alike one by one have tokens that count
/// which are alike one by one.
pub proof fn lemma_significant_alike(
    src: Seq<char>,
    xs: Seq<Spanned<Token>>,
    src2: Seq<char>,
    ys: Seq<Spanned<Token>>,
)
    requires
        xs.len() == ys.len(),
        forall|k: int| 0 <= k < xs.len() ==> alike(src, #[trigger] xs[k], src2, ys[k]),
    ensures
        significant(xs).len() == significant(ys).len(),
        forall|k: int|
            0 <= k < significant(xs).len() ==> alike(
                src,
                #[trigger] significant(xs)[k],
                src2,
                significant(ys)[k],
            ),
    decreases xs.len(),
{
    if xs.len() > 0 {
        let front_x = xs.drop_last();
        let front_y = ys.drop_last();
        assert forall|k: int| 0 <= k < front_x.len() implies alike(
            src,
            #[trigger] front_x[k],
            src2,
            front_y[k],
        ) by {
            assert(alike(src, xs[k], src2, ys[k]));
        }
        lemma_significant_alike(src, front_x, src2, front_y);
        assert(alike(src, xs[xs.len() - 1], src2, ys[ys.len() - 1]));
    }
}

/// The token of a lexeme marks in the source the characters that the
/// lexeme covers.
pub proof fn lemma_token_text_of_lexeme(s: Seq<char>, start: int, end: int, token: Token)
    requires
        0 <= start <= end <= s.len(),
        vstd::utf8::encode_utf8(s).len() <= usize::MAX,
    ensures
        token_text(s, token_of(s, Lexeme { token, start, end }).span) == Ok::<
            Seq<char>,
            ParseFailure,
        >(s.subrange(start, end)),
{
    reveal(token_text);
    crate::text::lemma_span_text(s, start, end);
}

/// A source between parentheses.
pub open spec fn parenthesized(s: Seq<char>) -> Seq<char> {
    seq!['('] + s + seq![')']
}

/// Parentheses around a source are transparent: where the tokens of a
/// source parse into a tree, the tokens of the source between parentheses
/// parse into the same tree.
pub proof fn lemma_parenthesized_source(s: Seq<char>)
    requires
        vstd::utf8::encode_utf8(parenthesized(s)).len() <= usize::MAX,
        parse(s, significant(tokens_of(s))).result is Ok,
    ensures
        parse(parenthesized(s), significant(tokens_of(parenthesized(s)))).result == parse(
            s,
            significant(tokens_of(s)),
        ).result,
{
    let t = parenthesized(s);
    let n = s.len() as int;
    assert(t.len() == n + 2);
    assert(t[0] == '(');
    assert(t[n + 1] == ')');
    assert forall|i: int| 0 <= i < n implies t[1 + i] == #[trigger] s[i] by {}
    assert(holds_text(s, t, 1)) by {
        reveal(crate::lexer::apart);
    }
    crate::text::lemma_encode_concat(seq!['('] + s, seq![')']);
    crate::text::lemma_encode_concat(seq!['('], s);
    // The lexemes of the longer source.
    let ls = lexemes(s, 0);
    let first = Lexeme { token: Token::LeftParen, start: 0, end: 1 };
    let last = Lexeme { token: Token::RightParen, start: n + 1, end: n + 2 };
    lemma_lexemes_held(s, t, 1, 0);
    assert(lexeme_at(t, 0) == first);
    assert(lexeme_at(t, n + 1) == last);
    assert(lexemes(t, n + 2) =~= Seq::<Lexeme>::empty());
    assert(lexemes(t, n + 1) =~= seq![last]);
    assert(lexemes(t, 0) =~= seq![first] + moved_all(ls, 1) + seq![last]);
    // Its tokens.
    let xs = tokens_of(s);
    let ys = Seq::new(ls.len(), |k: int| token_of(t, moved(ls[k], 1)));
    let open = token_of(t, first);
    let close = token_of(t, last);
    assert(tokens_of(t) =~= seq![open] + ys + seq![close]);
    assert forall|k: int| 0 <= k < xs.len() implies alike(s, #[trigger] xs[k], t, ys[k]) by {
        lemma_lexeme_bounds(s, 0, k);
        let l = ls[k];
        lemma_token_text_of_lexeme(s, l.start, l.end, l.token);
        lemma_token_text_of_lexeme(t, l.start + 1, l.end + 1, l.token);
        let part = s.subrange(l.start, l.end);
        let held = t.subrange(l.start + 1, l.end + 1);
        assert forall|j: int| 0 <= j < part.len() implies #[trigger] held[j] == part[j] by {
            assert(t[1 + (l.start + j)] == s[l.start + j]);
        }
        assert(held =~= part);
    }
    lemma_significant_alike(s, xs, t, ys);
    // The tokens that count.
    let inner = significant(xs);
    let middle = significant(ys);
    lemma_significant_concat(seq![open] + ys, seq![close]);
    lemma_significant_concat(seq![open], ys);
    assert(seq![open].drop_last() =~= Seq::<Spanned<Token>>::empty());
    assert(seq![close].drop_last() =~= Seq::<Spanned<Token>>::empty());
    assert(significant(seq![open]) =~= seq![open]) by {
        reveal_with_fuel(significant, 2);
    }
    assert(significant(seq![close]) =~= seq![close]) by {
        reveal_with_fuel(significant, 2);
    }
    let outer = significant(tokens_of(t));
    assert(outer =~= seq![open] + middle + seq![close]);
    assert(embeds(s, inner, t, outer, 1)) by {
        reveal(embeds);
        assert forall|i: int| 0 <= i < inner.len() implies alike(
            s,
            inner[i],
            t,
            #[trigger] outer[1 + i],
        ) by {
            assert(outer[1 + i] == middle[i]);
        }
    }
    lemma_block_between_parentheses(s, inner, t, outer);
}

/// A source between `depth` pairs of parentheses.
pub open spec fn parenthesized_times(s: Seq<char>, depth: nat) -> Seq<char>
    decreases depth,
{
    if depth == 0 {
        s
    } else {
        parenthesized(parenthesized_times(s, (depth - 1) as nat))
    }
}

/// Any number of parentheses around a source is transparent: `stmt` and
/// `(((stmt)))` parse into the same tree.
pub proof fn lemma_nested_parenthesized_source(s: Seq<char>, depth: nat)
    requires
        vstd::utf8::encode_utf8(parenthesized_times(s, depth)).len() <= usize::MAX,
        parse(s, significant(tokens_of(s))).result is Ok,
    ensures
        parse(
            parenthesized_times(s, depth),
            significant(tokens_of(parenthesized_times(s, depth))),
        ).result == parse(s, significant(tokens_of(s))).result,
    decreases depth,
{
    if depth > 0 {
        let inner = parenthesized_times(s, (depth - 1) as nat);
        crate::text::lemma_encode_concat(seq!['('] + inner, seq![')']);
        crate::text::lemma_encode_concat(seq!['('], inner);
        lemma_nested_parenthesized_source(s, (depth - 1) as nat);
        lemma_parenthesized_source(inner);
    }
}

/// Whether a stream of tokens over a source says the given words: token by
/// token the kind of the word, and through the span its text.
pub open spec fn says(src: Seq<char>, ts: Seq<Spanned<Token>>, words: Seq<(Token, Seq<char>)>) -> bool {
    &&& ts.len() == words.len()
    &&& forall|k: int|
        0 <= k < ts.len() ==> (#[trigger] ts[k]).inner == words[k].0 && token_text(src, ts[k].span)
            == Ok::<Seq<char>, ParseFailure>(words[k].1)
}

/// The tokens that count of lexemes say what the lexemes say.
pub proof fn lemma_tokens_say_words(s: Seq<char>, parts: Seq<Lexeme>)
    requires
        all_within(parts, s),
        vstd::utf8::encode_utf8(s).len() <= usize::MAX,
    ensures
        says(s, significant(tokens_from(s, parts)), words_from(s, parts)),
    decreases parts.len(),
{
    if parts.len() > 0 {
        let front = parts.drop_last();
        let l = parts.last();
        assert forall|k: int| 0 <= k < front.len() implies 0 <= (#[trigger] front[k]).start
            <= front[k].end <= s.len() by {
            assert(front[k] == parts[k]);
        }
        lemma_tokens_say_words(s, front);
        assert(tokens_from(s, parts).drop_last() =~= tokens_from(s, front));
        assert(tokens_from(s, parts).last() == token_of(s, l));
        assert(0 <= parts[parts.len() - 1].start <= parts[parts.len() - 1].end <= s.len());
        lemma_token_text_of_lexeme(s, l.start, l.end, l.token);
    }
}

/// The tokens that count of a source say the words of the source.
pub proof fn lemma_source_says_words(s: Seq<char>)
    requires
        vstd::utf8::encode_utf8(s).len() <= usize::MAX,
    ensures
        says(s, significant(tokens_of(s)), words(s)),
{
    reveal(words);
    lemma_lexemes_within(s);
    lemma_tokens_say_words(s, lexemes(s, 0));
    assert(tokens_of(s) =~= tokens_from(s, lexemes(s, 0)));
}

/// Parsing goes by the words alone: streams that say the same words parse
/// into the same tree.
pub proof fn lemma_same_words_same_tree(
    src: Seq<char>,
    ts: Seq<Spanned<Token>>,
    src2: Seq<char>,
    ts2: Seq<Spanned<Token>>,
    words: Seq<(Token, Seq<char>)>,
)
    requires
        says(src, ts, words),
        says(src2, ts2, words),
        parse(src, ts).result is Ok,
    ensures
        parse(src2, ts2).result == parse(src, ts).result,
{
    assert(embeds(src, ts, src2, ts2, 0)) by {
        reveal(embeds);
        assert forall|i: int| 0 <= i < ts.len() implies alike(
            src,
            ts[i],
            src2,
            #[trigger] ts2[0 + i],
        ) by {
            assert(ts[i].inner == words[i].0);
            assert(ts2[i].inner == words[i].0);
        }
    }
    lemma_parse_takes_all(src, ts);
    lemma_embedded_stmt_block(src, ts, src2, ts2, 0, 0);
}

/// Sources that say the same words parse into the same tree: white space
/// and the places of the lexemes do not count.
pub proof fn lemma_same_words_same_parse(s: Seq<char>, s2: Seq<char>)
    requires
        words(s) == words(s2),
        vstd::utf8::encode_utf8(s).len() <= usize::MAX,
        vstd::utf8::encode_utf8(s2).len() <= usize::MAX,
        parse(s, significant(tokens_of(s))).result is Ok,
    ensures
        parse(s2, significant(tokens_of(s2))).result == parse(s, significant(tokens_of(s))).result,
{
    lemma_source_says_words(s);
    lemma_source_says_words(s2);
    lemma_same_words_same_tree(
        s,
        significant(tokens_of(s)),
        s2,
        significant(tokens_of(s2)),
        words(s),
    );
}

} // verus!
