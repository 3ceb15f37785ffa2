//! Laws of the stages together: from the text of a source to the state
//! that the program leaves behind.
use vstd::prelude::*;
use crate::ast::{AstView, Value};
use crate::interpreter::context::ContextView;
use crate::interpreter::{eval, lemma_written_comparisons, Outcome};
use crate::lexer::span::Spanned;
use crate::lexer::token::Token;
use crate::lexer::{
    apart,
    lemma_run_end_is,
    lemma_written_out_says_pieces,
    one_word,
    piece_words,
    pieces_fit,
    tokens_of,
    word_token,
    words,
    written_out,
    CharClass,
    Piece,
};
use crate::parser::parse_error::ParseFailure;
use crate::parser::{
    ass_stmt,
    branches,
    chain,
    comparison,
    done,
    equality,
    expect,
    expression,
    factor,
    if_stmt,
    is_comparison,
    is_equality,
    parse,
    lemma_source_says_words,
    primary,
    relate,
    says,
    semicolons,
    significant,
    statement,
    stmt_block,
    stmt_tail,
    term,
    token_at,
    token_text,
    unary,
    Level,
};
use crate::text::{decimal, integer_value, lemma_decimal_round_trip};

verus! {

/// The symbols of one character are lexemes by themselves.
pub proof fn lemma_short_symbols()
    ensures
        one_word(seq!['<'], Token::LessThan),
        one_word(seq!['>'], Token::GreaterThan),
        one_word(seq!['!'], Token::Not),
        one_word(seq!['('], Token::LeftParen),
        one_word(seq![')'], Token::RightParen),
{
    reveal(one_word);
}

/// The symbols of two characters are lexemes by themselves.
pub proof fn lemma_long_symbols()
    ensures
        one_word(seq!['<', '='], Token::LessEqual),
        one_word(seq!['>', '='], Token::GreaterEqual),
        one_word(seq![':', '='], Token::Assign),
{
    reveal(one_word);
}

/// A word of letters that no letter follows is one lexeme.
pub proof fn lemma_word(text: Seq<char>)
    requires
        text.len() > 0,
        forall|k: int| 0 <= k < text.len() ==> crate::lexer::is_letter(#[trigger] text[k]),
    ensures
        one_word(text, word_token(text)),
{
    reveal(one_word);
    assert(crate::lexer::is_letter(text[0]));
    assert forall|k: int| 1 <= k < text.len() implies CharClass::Alphabetic.holds(
        #[trigger] text[k],
    ) by {
        assert(crate::lexer::is_letter(text[k]));
    }
    lemma_run_end_is(text, 1, CharClass::Alphabetic, text.len() as int);
    assert(text.subrange(0, text.len() as int) =~= text);
    assert(crate::lexer::is_letter(text[text.len() - 1]));
}

/// The words of the sources below are the lexemes that they look like.
pub proof fn lemma_keywords()
    ensures
        one_word(seq!['i', 'f'], Token::If),
        one_word(seq!['t', 'h', 'e', 'n'], Token::Then),
        one_word(seq!['e', 'l', 's', 'e'], Token::Else),
        one_word(seq!['x'], Token::Identifier),
{
    lemma_word(seq!['i', 'f']);
    lemma_word(seq!['t', 'h', 'e', 'n']);
    lemma_word(seq!['e', 'l', 's', 'e']);
    lemma_word(seq!['x']);
    assert(seq!['t', 'h', 'e', 'n'].len() == 4);
    assert(seq!['e', 'l', 's', 'e'][0] == 'e');
    assert(seq!['e', 'l', 's', 'e'].len() == 4);
    assert(seq!['x'].len() == 1);
}

/// A natural number written in base ten is one literal.
pub proof fn lemma_numeral(n: nat)
    ensures
        one_word(decimal(n), Token::Literal),
{
    reveal(one_word);
    let text = decimal(n);
    lemma_decimal_round_trip(n);
    assert(crate::text::is_digit(text[0]));
    assert(crate::text::is_digit(text[text.len() - 1]));
    assert forall|k: int| 1 <= k < text.len() implies CharClass::Digit.holds(#[trigger] text[k]) by {
        assert(crate::text::is_digit(text[k]));
    }
    lemma_run_end_is(text, 1, CharClass::Digit, text.len() as int);
}

/// Whether a token of the given kind stands at an index and marks the
/// given text.
pub open spec fn reads(
    src: Seq<char>,
    ts: Seq<Spanned<Token>>,
    pos: nat,
    token: Token,
    text: Seq<char>,
) -> bool {
    &&& pos < ts.len()
    &&& ts[pos as int].inner == token
    &&& token_text(src, ts[pos as int].span) == Ok::<Seq<char>, ParseFailure>(text)
}

/// Whether a token ends an operand: it is no operator of arithmetic.
pub open spec fn ends_term(token: Option<Token>) -> bool {
    token != Some(Token::Multiply) && token != Some(Token::Add) && token != Some(Token::Subtract)
}

/// Whether a token ends a condition: it is no operator at all.
pub open spec fn ends_expression(token: Option<Token>) -> bool {
    ends_term(token) && !is_comparison(token) && !is_equality(token) && token != Some(Token::And)
}

/// A literal that no operator of arithmetic follows is a term.
pub proof fn lemma_literal_term(
    src: Seq<char>,
    ts: Seq<Spanned<Token>>,
    pos: nat,
    text: Seq<char>,
    value: i32,
)
    requires
        reads(src, ts, pos, Token::Literal, text),
        integer_value(text) == Some(value),
        ends_term(token_at(ts, pos + 1)),
    ensures
        term(src, ts, pos) == done(AstView::Literal(value), 1),
{
    assert(primary(src, ts, pos) == done(AstView::Literal(value), 1));
    assert(unary(src, ts, pos) == done(AstView::Literal(value), 1));
    assert(chain(Level::Factor, src, ts, pos + 1, AstView::Literal(value)) == done(
        AstView::Literal(value),
        0,
    ));
    assert(factor(src, ts, pos) == done(AstView::Literal(value), 1));
    assert(chain(Level::Term, src, ts, pos + 1, AstView::Literal(value)) == done(
        AstView::Literal(value),
        0,
    ));
}

/// A comparison that no operator follows is an expression.
pub proof fn lemma_comparison_is_expression(
    src: Seq<char>,
    ts: Seq<Spanned<Token>>,
    pos: nat,
    tree: AstView,
    length: nat,
)
    requires
        comparison(src, ts, pos) == done(tree, length),
        ends_expression(token_at(ts, pos + length)),
    ensures
        expression(src, ts, pos) == done(tree, length),
{
    assert(equality(src, ts, pos) == done(tree, length));
    assert(chain(Level::Logical, src, ts, pos + length, tree) == done(tree, 0));
}

/// Two literals with a comparison between them, which no operator follows,
/// are the comparison of the two.
pub proof fn lemma_literals_compared(
    src: Seq<char>,
    ts: Seq<Spanned<Token>>,
    pos: nat,
    left: (Seq<char>, i32),
    operator: Token,
    right: (Seq<char>, i32),
)
    requires
        reads(src, ts, pos, Token::Literal, left.0),
        integer_value(left.0) == Some(left.1),
        token_at(ts, pos + 1) == Some(operator),
        is_comparison(Some(operator)),
        reads(src, ts, pos + 2, Token::Literal, right.0),
        integer_value(right.0) == Some(right.1),
        ends_expression(token_at(ts, pos + 3)),
    ensures
        expression(src, ts, pos) == done(
            relate(operator, AstView::Literal(left.1), AstView::Literal(right.1)),
            3,
        ),
{
    lemma_literal_term(src, ts, pos, left.0, left.1);
    lemma_literal_term(src, ts, pos + 2, right.0, right.1);
    let tree = relate(operator, AstView::Literal(left.1), AstView::Literal(right.1));
    assert(comparison(src, ts, pos) == done(tree, 3));
    lemma_comparison_is_expression(src, ts, pos, tree, 3);
}

/// An expression between parentheses, which no operator follows, is that
/// expression.
pub proof fn lemma_expression_in_parentheses(
    src: Seq<char>,
    ts: Seq<Spanned<Token>>,
    pos: nat,
    tree: AstView,
    length: nat,
)
    requires
        token_at(ts, pos) == Some(Token::LeftParen),
        expression(src, ts, pos + 1) == done(tree, length),
        token_at(ts, pos + 1 + length) == Some(Token::RightParen),
        ends_expression(token_at(ts, pos + 2 + length)),
    ensures
        expression(src, ts, pos) == done(tree, length + 2),
        unary(src, ts, pos) == done(tree, length + 2),
{
    assert(expect(src, ts, pos + 1 + length, Token::RightParen) is None);
    assert(primary(src, ts, pos) == done(tree, length + 2));
    assert(unary(src, ts, pos) == done(tree, length + 2));
    assert(chain(Level::Factor, src, ts, pos + 2 + length, tree) == done(tree, 0));
    assert(factor(src, ts, pos) == done(tree, length + 2));
    assert(chain(Level::Term, src, ts, pos + 2 + length, tree) == done(tree, 0));
    assert(term(src, ts, pos) == done(tree, length + 2));
    assert(comparison(src, ts, pos) == done(tree, length + 2));
    lemma_comparison_is_expression(src, ts, pos, tree, length + 2);
}

/// The negation of an expression between parentheses, which no operator
/// follows, is the negation of that expression.
pub proof fn lemma_negation_in_parentheses(
    src: Seq<char>,
    ts: Seq<Spanned<Token>>,
    pos: nat,
    tree: AstView,
    length: nat,
)
    requires
        token_at(ts, pos) == Some(Token::Not),
        token_at(ts, pos + 1) == Some(Token::LeftParen),
        expression(src, ts, pos + 2) == done(tree, length),
        token_at(ts, pos + 2 + length) == Some(Token::RightParen),
        ends_expression(token_at(ts, pos + 3 + length)),
    ensures
        expression(src, ts, pos) == done(AstView::Not { expr: Box::new(tree) }, length + 3),
{
    let negation = AstView::Not { expr: Box::new(tree) };
    lemma_expression_in_parentheses(src, ts, pos + 1, tree, length);
    assert(unary(src, ts, pos) == done(negation, length + 3));
    assert(chain(Level::Factor, src, ts, pos + 3 + length, negation) == done(negation, 0));
    assert(factor(src, ts, pos) == done(negation, length + 3));
    assert(chain(Level::Term, src, ts, pos + 3 + length, negation) == done(negation, 0));
    assert(term(src, ts, pos) == done(negation, length + 3));
    assert(comparison(src, ts, pos) == done(negation, length + 3));
    lemma_comparison_is_expression(src, ts, pos, negation, length + 3);
}

/// An assignment of a literal, after which the stream ends or `else`
/// stands, is a block.
pub proof fn lemma_assignment_block(
    src: Seq<char>,
    ts: Seq<Spanned<Token>>,
    pos: nat,
    name: Seq<char>,
    text: Seq<char>,
    value: i32,
)
    requires
        reads(src, ts, pos, Token::Identifier, name),
        token_at(ts, pos + 1) == Some(Token::Assign),
        reads(src, ts, pos + 2, Token::Literal, text),
        integer_value(text) == Some(value),
        token_at(ts, pos + 3) is None || token_at(ts, pos + 3) == Some(Token::Else),
    ensures
        stmt_block(src, ts, pos) == done(
            AstView::Ass { ident: name, value: Box::new(AstView::Literal(value)) },
            3,
        ),
{
    let tree = AstView::Ass { ident: name, value: Box::new(AstView::Literal(value)) };
    lemma_literal_term(src, ts, pos + 2, text, value);
    assert(comparison(src, ts, pos + 2) == done(AstView::Literal(value), 1));
    lemma_comparison_is_expression(src, ts, pos + 2, AstView::Literal(value), 1);
    assert(expect(src, ts, pos + 1, Token::Assign) is None);
    assert(ass_stmt(src, ts, pos) == done(tree, 3));
    assert(statement(src, ts, pos) == done(tree, 3));
    assert(semicolons(ts, pos) == 0);
    assert(stmt_tail(src, ts, pos + 3, tree) == done(tree, 0));
}

/// A conditional whose parts are known is the whole program.
pub proof fn lemma_conditional(
    src: Seq<char>,
    ts: Seq<Spanned<Token>>,
    cond: AstView,
    length: nat,
    first: AstView,
    second: AstView,
)
    requires
        ts.len() == 9 + length,
        token_at(ts, 0) == Some(Token::If),
        expression(src, ts, 1) == done(cond, length),
        token_at(ts, 1 + length) == Some(Token::Then),
        stmt_block(src, ts, 2 + length) == done(first, 3),
        token_at(ts, 5 + length) == Some(Token::Else),
        stmt_block(src, ts, 6 + length) == done(second, 3),
    ensures
        parse(src, ts) == done(
            AstView::If {
                cond: Box::new(cond),
                true_path: Box::new(first),
                false_path: Box::new(second),
            },
            9 + length,
        ),
{
    let tree = AstView::If {
        cond: Box::new(cond),
        true_path: Box::new(first),
        false_path: Box::new(second),
    };
    assert(expect(src, ts, 0, Token::If) is None);
    assert(expect(src, ts, 1 + length, Token::Then) is None);
    assert(expect(src, ts, 2 + length + 3, Token::Else) is None);
    assert(branches(src, ts, 2 + length, cond) == done(tree, 7));
    assert(if_stmt(src, ts, 0) == done(tree, 9 + length));
    assert(statement(src, ts, 0) == done(tree, 9 + length));
    assert(semicolons(ts, 0) == 0);
    assert(token_at(ts, 9 + length) is None);
    assert(stmt_tail(src, ts, 9 + length, tree) == done(tree, 0));
    assert(stmt_block(src, ts, 0) == done(tree, 9 + length));
}

/// The name of the variable that the programs below assign.
pub open spec fn variable() -> Seq<char> {
    seq!['x']
}

/// The program that assigns one to the variable where a condition holds,
/// and two where it does not.
pub open spec fn choice(cond: AstView) -> AstView {
    AstView::If {
        cond: Box::new(cond),
        true_path: Box::new(
            AstView::Ass { ident: variable(), value: Box::new(AstView::Literal(1)) },
        ),
        false_path: Box::new(
            AstView::Ass { ident: variable(), value: Box::new(AstView::Literal(2)) },
        ),
    }
}

/// What follows the condition in the text of such a program:
/// `then x := 1 else x := 2`.
pub open spec fn choice_words() -> Seq<(Token, Seq<char>)> {
    seq![
        (Token::Then, seq!['t', 'h', 'e', 'n']),
        (Token::Identifier, variable()),
        (Token::Assign, seq![':', '=']),
        (Token::Literal, decimal(1)),
        (Token::Else, seq!['e', 'l', 's', 'e']),
        (Token::Identifier, variable()),
        (Token::Assign, seq![':', '=']),
        (Token::Literal, decimal(2)),
    ]
}

/// The words of such a program: `if`, the words of the condition, and
/// what follows the condition.
pub open spec fn choice_source_words(cond: Seq<(Token, Seq<char>)>) -> Seq<(Token, Seq<char>)> {
    seq![(Token::If, seq!['i', 'f'])] + cond + choice_words()
}

/// A stream that says `if`, a condition and `then x := 1 else x := 2`
/// parses into the program that chooses by the condition.
pub proof fn lemma_choice_parses(
    src: Seq<char>,
    ts: Seq<Spanned<Token>>,
    cond_words: Seq<(Token, Seq<char>)>,
    cond: AstView,
)
    requires
        says(src, ts, choice_source_words(cond_words)),
        expression(src, ts, 1) == done(cond, cond_words.len()),
    ensures
        parse(src, ts) == done(choice(cond), 9 + cond_words.len()),
{
    let n = cond_words.len();
    let words = choice_source_words(cond_words);
    let tail = choice_words();
    assert(words.len() == 9 + n);
    assert(ts[0].inner == words[0].0);
    assert forall|j: int| 0 <= j < 8 implies reads(
        src,
        ts,
        (1 + n + j) as nat,
        tail[j].0,
        tail[j].1,
    ) by {
        assert(words[1 + n + j] == tail[j]);
        assert(ts[1 + n + j].inner == words[1 + n + j].0);
    }
    assert(reads(src, ts, (1 + n + 0) as nat, tail[0].0, tail[0].1));
    assert(reads(src, ts, (1 + n + 1) as nat, tail[1].0, tail[1].1));
    assert(reads(src, ts, (1 + n + 2) as nat, tail[2].0, tail[2].1));
    assert(reads(src, ts, (1 + n + 3) as nat, tail[3].0, tail[3].1));
    assert(reads(src, ts, (1 + n + 4) as nat, tail[4].0, tail[4].1));
    assert(reads(src, ts, (1 + n + 5) as nat, tail[5].0, tail[5].1));
    assert(reads(src, ts, (1 + n + 6) as nat, tail[6].0, tail[6].1));
    assert(reads(src, ts, (1 + n + 7) as nat, tail[7].0, tail[7].1));
    lemma_decimal_round_trip(1);
    lemma_decimal_round_trip(2);
    lemma_assignment_block(src, ts, 2 + n, variable(), decimal(1), 1);
    lemma_assignment_block(src, ts, 6 + n, variable(), decimal(2), 2);
    lemma_conditional(
        src,
        ts,
        cond,
        n,
        AstView::Ass { ident: variable(), value: Box::new(AstView::Literal(1)) },
        AstView::Ass { ident: variable(), value: Box::new(AstView::Literal(2)) },
    );
}

/// The program that chooses by a condition leaves the variable at one
/// where the condition holds and at two where it does not.
pub proof fn lemma_choice_runs(cond: AstView, fuel: nat, holds: bool)
    requires
        eval(cond, ContextView::empty(), fuel) == (Outcome {
            result: Ok(Value::Boolean(holds)),
            context: ContextView::empty(),
        }),
    ensures
        eval(choice(cond), ContextView::empty(), fuel) == (Outcome {
            result: Ok(Value::Unit),
            context: ContextView::empty().assign(
                variable(),
                if holds {
                    1i32
                } else {
                    2i32
                },
            ),
        }),
{
    reveal_with_fuel(eval, 3);
}

/// A piece that stands right after the one before it.
pub open spec fn close(text: Seq<char>, token: Token) -> Piece {
    Piece { text, token, spaced: false }
}

/// A piece that stands after a blank.
pub open spec fn spaced(text: Seq<char>, token: Token) -> Piece {
    Piece { text, token, spaced: true }
}

/// How a comparison is written.
pub open spec fn comparison_text(operator: Token) -> Seq<char> {
    match operator {
        Token::LessThan => seq!['<'],
        Token::GreaterThan => seq!['>'],
        Token::GreaterEqual => seq!['>', '='],
        _ => seq!['<', '='],
    }
}

/// The condition `a op b` over two natural numbers.
pub open spec fn plain_condition(operator: Token, a: nat, b: nat) -> Seq<Piece> {
    seq![
        spaced(decimal(a), Token::Literal),
        spaced(comparison_text(operator), operator),
        spaced(decimal(b), Token::Literal),
    ]
}

/// The condition `!(a <= b)` over two natural numbers.
pub open spec fn negated_condition(a: nat, b: nat) -> Seq<Piece> {
    seq![
        spaced(seq!['!'], Token::Not),
        close(seq!['('], Token::LeftParen),
        close(decimal(a), Token::Literal),
        spaced(seq!['<', '='], Token::LessEqual),
        spaced(decimal(b), Token::Literal),
        close(seq![')'], Token::RightParen),
    ]
}

/// The condition `(a <= b)` over two natural numbers.
pub open spec fn grouped_condition(a: nat, b: nat) -> Seq<Piece> {
    seq![
        spaced(seq!['('], Token::LeftParen),
        close(decimal(a), Token::Literal),
        spaced(seq!['<', '='], Token::LessEqual),
        spaced(decimal(b), Token::Literal),
        close(seq![')'], Token::RightParen),
    ]
}

/// The pieces of ` then x := 1 else x := 2`.
pub open spec fn choice_pieces() -> Seq<Piece> {
    seq![
        spaced(seq!['t', 'h', 'e', 'n'], Token::Then),
        spaced(variable(), Token::Identifier),
        spaced(seq![':', '='], Token::Assign),
        spaced(decimal(1), Token::Literal),
        spaced(seq!['e', 'l', 's', 'e'], Token::Else),
        spaced(variable(), Token::Identifier),
        spaced(seq![':', '='], Token::Assign),
        spaced(decimal(2), Token::Literal),
    ]
}

/// The text of the program `if cond then x := 1 else x := 2`, for a
/// condition given by its pieces.
pub open spec fn choice_source(cond: Seq<Piece>) -> Seq<char> {
    written_out(seq![close(seq!['i', 'f'], Token::If)] + cond + choice_pieces())
}

/// Pieces that fit, one more piece that fits after them: all fit.
pub proof fn lemma_fit_push(pieces: Seq<Piece>, next: Piece)
    requires
        pieces_fit(pieces),
        one_word(next.text, next.token),
        pieces.len() > 0 && !next.spaced ==> apart(pieces.last().text.last(), next.text.first()),
    ensures
        pieces_fit(pieces.push(next)),
{
    assert(pieces.push(next).drop_last() =~= pieces);
}

/// Pieces that fit, and spaced pieces that fit after them: all fit.
pub proof fn lemma_fit_concat(a: Seq<Piece>, b: Seq<Piece>)
    requires
        pieces_fit(a),
        pieces_fit(b),
        b.len() > 0 ==> b[0].spaced,
    ensures
        pieces_fit(a + b),
    decreases b.len(),
{
    if b.len() == 0 {
        assert(a + b =~= a);
    } else {
        let front = b.drop_last();
        if front.len() > 0 {
            assert(front[0] == b[0]);
        }
        lemma_fit_concat(a, front);
        assert((a + b).drop_last() =~= a + front);
        assert((a + b).last() == b.last());
        if front.len() > 0 {
            assert((a + b)[(a + b).len() - 2] == b[b.len() - 2]);
        }
    }
}

/// The pieces of ` then x := 1 else x := 2` fit.
pub proof fn lemma_choice_pieces_fit()
    ensures
        pieces_fit(choice_pieces()),
        piece_words(choice_pieces()) == choice_words(),
{
    lemma_keywords();
    lemma_long_symbols();
    lemma_numeral(1);
    lemma_numeral(2);
    let u0 = Seq::<Piece>::empty();
    let u1 = u0.push(spaced(seq!['t', 'h', 'e', 'n'], Token::Then));
    let u2 = u1.push(spaced(variable(), Token::Identifier));
    let u3 = u2.push(spaced(seq![':', '='], Token::Assign));
    let u4 = u3.push(spaced(decimal(1), Token::Literal));
    let u5 = u4.push(spaced(seq!['e', 'l', 's', 'e'], Token::Else));
    let u6 = u5.push(spaced(variable(), Token::Identifier));
    let u7 = u6.push(spaced(seq![':', '='], Token::Assign));
    let u8 = u7.push(spaced(decimal(2), Token::Literal));
    lemma_fit_push(u0, spaced(seq!['t', 'h', 'e', 'n'], Token::Then));
    lemma_fit_push(u1, spaced(variable(), Token::Identifier));
    lemma_fit_push(u2, spaced(seq![':', '='], Token::Assign));
    lemma_fit_push(u3, spaced(decimal(1), Token::Literal));
    lemma_fit_push(u4, spaced(seq!['e', 'l', 's', 'e'], Token::Else));
    lemma_fit_push(u5, spaced(variable(), Token::Identifier));
    lemma_fit_push(u6, spaced(seq![':', '='], Token::Assign));
    lemma_fit_push(u7, spaced(decimal(2), Token::Literal));
    assert(u8 =~= choice_pieces());
    assert(piece_words(choice_pieces()) =~= choice_words());
}

/// The text of a program that chooses by a condition says `if`, the
/// condition, and `then x := 1 else x := 2`.
pub proof fn lemma_choice_source_says(cond: Seq<Piece>)
    requires
        pieces_fit(cond),
        cond.len() > 0,
        cond[0].spaced,
    ensures
        words(choice_source(cond)) == choice_source_words(piece_words(cond)),
{
    lemma_keywords();
    lemma_choice_pieces_fit();
    let head = seq![close(seq!['i', 'f'], Token::If)];
    lemma_fit_push(Seq::<Piece>::empty(), close(seq!['i', 'f'], Token::If));
    assert(Seq::<Piece>::empty().push(close(seq!['i', 'f'], Token::If)) =~= head);
    lemma_fit_concat(head, cond);
    lemma_fit_concat(head + cond, choice_pieces());
    lemma_written_out_says_pieces(head + cond + choice_pieces());
    assert(piece_words(head + cond + choice_pieces()) =~= choice_source_words(
        piece_words(cond),
    ));
}

/// The tokens that the parser gets of a source.
pub open spec fn tokens(s: Seq<char>) -> Seq<Spanned<Token>> {
    significant(tokens_of(s))
}

/// Whether a source is short enough for its offsets.
pub open spec fn fits(s: Seq<char>) -> bool {
    vstd::utf8::encode_utf8(s).len() <= usize::MAX
}

/// A digit and a parenthesis side by side belong to two lexemes, and so do
/// `!` and `(`.
pub proof fn lemma_apart_cases(n: nat)
    ensures
        apart('(', decimal(n).first()),
        apart(decimal(n).last(), ')'),
        apart('!', '('),
{
    reveal(apart);
    lemma_decimal_round_trip(n);
    assert(crate::text::is_digit(decimal(n)[0]));
    assert(crate::text::is_digit(decimal(n)[decimal(n).len() - 1]));
}

/// The source `if a op b then x := 1 else x := 2` parses into the program
/// that chooses by the comparison of the two literals.
pub proof fn lemma_plain_program(operator: Token, a: nat, b: nat)
    requires
        is_comparison(Some(operator)),
        a <= i32::MAX,
        b <= i32::MAX,
        fits(choice_source(plain_condition(operator, a, b))),
    ensures
        parse(
            choice_source(plain_condition(operator, a, b)),
            tokens(choice_source(plain_condition(operator, a, b))),
        ) == done(
            choice(relate(operator, AstView::Literal(a as i32), AstView::Literal(b as i32))),
            12,
        ),
{
    let cond = plain_condition(operator, a, b);
    let s = choice_source(cond);
    let ts = tokens(s);
    lemma_short_symbols();
    lemma_long_symbols();
    lemma_numeral(a);
    lemma_numeral(b);
    lemma_decimal_round_trip(a);
    lemma_decimal_round_trip(b);
    let u0 = Seq::<Piece>::empty();
    let u1 = u0.push(spaced(decimal(a), Token::Literal));
    let u2 = u1.push(spaced(comparison_text(operator), operator));
    let u3 = u2.push(spaced(decimal(b), Token::Literal));
    lemma_fit_push(u0, spaced(decimal(a), Token::Literal));
    lemma_fit_push(u1, spaced(comparison_text(operator), operator));
    lemma_fit_push(u2, spaced(decimal(b), Token::Literal));
    assert(u3 =~= cond);
    lemma_choice_source_says(cond);
    lemma_source_says_words(s);
    let said = piece_words(cond);
    let all = choice_source_words(said);
    assert(all.len() == 12);
    assert(ts[1].inner == all[1].0);
    assert(ts[2].inner == all[2].0);
    assert(ts[3].inner == all[3].0);
    assert(ts[4].inner == all[4].0);
    assert(reads(s, ts, 1, Token::Literal, decimal(a)));
    assert(reads(s, ts, 2, operator, comparison_text(operator)));
    assert(reads(s, ts, 3, Token::Literal, decimal(b)));
    assert(reads(s, ts, 4, Token::Then, seq!['t', 'h', 'e', 'n']));
    lemma_literals_compared(
        s,
        ts,
        1,
        (decimal(a), a as i32),
        operator,
        (decimal(b), b as i32),
    );
    lemma_choice_parses(
        s,
        ts,
        said,
        relate(operator, AstView::Literal(a as i32), AstView::Literal(b as i32)),
    );
}

/// The source `if !(a <= b) then x := 1 else x := 2` parses into the
/// program that chooses by the negation of `a <= b`.
pub proof fn lemma_negated_program(a: nat, b: nat)
    requires
        a <= i32::MAX,
        b <= i32::MAX,
        fits(choice_source(negated_condition(a, b))),
    ensures
        parse(
            choice_source(negated_condition(a, b)),
            tokens(choice_source(negated_condition(a, b))),
        ) == done(
            choice(
                AstView::Not {
                    expr: Box::new(
                        relate(
                            Token::LessEqual,
                            AstView::Literal(a as i32),
                            AstView::Literal(b as i32),
                        ),
                    ),
                },
            ),
            15,
        ),
{
    let cond = negated_condition(a, b);
    let s = choice_source(cond);
    let ts = tokens(s);
    lemma_short_symbols();
    lemma_long_symbols();
    lemma_numeral(a);
    lemma_numeral(b);
    lemma_decimal_round_trip(a);
    lemma_decimal_round_trip(b);
    lemma_apart_cases(a);
    lemma_apart_cases(b);
    let u0 = Seq::<Piece>::empty();
    let u1 = u0.push(spaced(seq!['!'], Token::Not));
    let u2 = u1.push(close(seq!['('], Token::LeftParen));
    let u3 = u2.push(close(decimal(a), Token::Literal));
    let u4 = u3.push(spaced(seq!['<', '='], Token::LessEqual));
    let u5 = u4.push(spaced(decimal(b), Token::Literal));
    let u6 = u5.push(close(seq![')'], Token::RightParen));
    lemma_fit_push(u0, spaced(seq!['!'], Token::Not));
    lemma_fit_push(u1, close(seq!['('], Token::LeftParen));
    lemma_fit_push(u2, close(decimal(a), Token::Literal));
    lemma_fit_push(u3, spaced(seq!['<', '='], Token::LessEqual));
    lemma_fit_push(u4, spaced(decimal(b), Token::Literal));
    lemma_fit_push(u5, close(seq![')'], Token::RightParen));
    assert(u6 =~= cond);
    lemma_choice_source_says(cond);
    lemma_source_says_words(s);
    let said = piece_words(cond);
    let all = choice_source_words(said);
    assert(all.len() == 15);
    assert(ts[1].inner == all[1].0);
    assert(ts[2].inner == all[2].0);
    assert(ts[3].inner == all[3].0);
    assert(ts[4].inner == all[4].0);
    assert(ts[5].inner == all[5].0);
    assert(ts[6].inner == all[6].0);
    assert(ts[7].inner == all[7].0);
    assert(reads(s, ts, 1, Token::Not, seq!['!']));
    assert(reads(s, ts, 2, Token::LeftParen, seq!['(']));
    assert(reads(s, ts, 3, Token::Literal, decimal(a)));
    assert(reads(s, ts, 4, Token::LessEqual, seq!['<', '=']));
    assert(reads(s, ts, 5, Token::Literal, decimal(b)));
    assert(reads(s, ts, 6, Token::RightParen, seq![')']));
    assert(reads(s, ts, 7, Token::Then, seq!['t', 'h', 'e', 'n']));
    let inner = relate(Token::LessEqual, AstView::Literal(a as i32), AstView::Literal(b as i32));
    lemma_literals_compared(
        s,
        ts,
        3,
        (decimal(a), a as i32),
        Token::LessEqual,
        (decimal(b), b as i32),
    );
    lemma_negation_in_parentheses(s, ts, 1, inner, 3);
    lemma_choice_parses(s, ts, said, AstView::Not { expr: Box::new(inner) });
}

/// The source `if (a <= b) then x := 1 else x := 2` parses into the
/// program that chooses by `a <= b`.
pub proof fn lemma_grouped_program(a: nat, b: nat)
    requires
        a <= i32::MAX,
        b <= i32::MAX,
        fits(choice_source(grouped_condition(a, b))),
    ensures
        parse(
            choice_source(grouped_condition(a, b)),
            tokens(choice_source(grouped_condition(a, b))),
        ) == done(
            choice(
                relate(
                    Token::LessEqual,
                    AstView::Literal(a as i32),
                    AstView::Literal(b as i32),
                ),
            ),
            14,
        ),
{
    let cond = grouped_condition(a, b);
    let s = choice_source(cond);
    let ts = tokens(s);
    lemma_short_symbols();
    lemma_long_symbols();
    lemma_numeral(a);
    lemma_numeral(b);
    lemma_decimal_round_trip(a);
    lemma_decimal_round_trip(b);
    lemma_apart_cases(a);
    lemma_apart_cases(b);
    let u0 = Seq::<Piece>::empty();
    let u1 = u0.push(spaced(seq!['('], Token::LeftParen));
    let u2 = u1.push(close(decimal(a), Token::Literal));
    let u3 = u2.push(spaced(seq!['<', '='], Token::LessEqual));
    let u4 = u3.push(spaced(decimal(b), Token::Literal));
    let u5 = u4.push(close(seq![')'], Token::RightParen));
    lemma_fit_push(u0, spaced(seq!['('], Token::LeftParen));
    lemma_fit_push(u1, close(decimal(a), Token::Literal));
    lemma_fit_push(u2, spaced(seq!['<', '='], Token::LessEqual));
    lemma_fit_push(u3, spaced(decimal(b), Token::Literal));
    lemma_fit_push(u4, close(seq![')'], Token::RightParen));
    assert(u5 =~= cond);
    lemma_choice_source_says(cond);
    lemma_source_says_words(s);
    let said = piece_words(cond);
    let all = choice_source_words(said);
    assert(all.len() == 14);
    assert(ts[1].inner == all[1].0);
    assert(ts[2].inner == all[2].0);
    assert(ts[3].inner == all[3].0);
    assert(ts[4].inner == all[4].0);
    assert(ts[5].inner == all[5].0);
    assert(ts[6].inner == all[6].0);
    assert(reads(s, ts, 1, Token::LeftParen, seq!['(']));
    assert(reads(s, ts, 2, Token::Literal, decimal(a)));
    assert(reads(s, ts, 3, Token::LessEqual, seq!['<', '=']));
    assert(reads(s, ts, 4, Token::Literal, decimal(b)));
    assert(reads(s, ts, 5, Token::RightParen, seq![')']));
    assert(reads(s, ts, 6, Token::Then, seq!['t', 'h', 'e', 'n']));
    let inner = relate(Token::LessEqual, AstView::Literal(a as i32), AstView::Literal(b as i32));
    lemma_literals_compared(
        s,
        ts,
        2,
        (decimal(a), a as i32),
        Token::LessEqual,
        (decimal(b), b as i32),
    );
    lemma_expression_in_parentheses(s, ts, 1, inner, 3);
    lemma_choice_parses(s, ts, said, inner);
}

/// How the tree writes a comparison that it has no node for: `a < b` as
/// `!(b <= a)`, `a > b` as `!(a <= b)`, and `a >= b` as `(b <= a)`.
pub open spec fn written_condition(operator: Token, a: nat, b: nat) -> Seq<Piece> {
    match operator {
        Token::LessThan => negated_condition(b, a),
        Token::GreaterThan => negated_condition(a, b),
        _ => grouped_condition(b, a),
    }
}

/// Whether a comparison holds of two numbers.
pub open spec fn compares(operator: Token, a: int, b: int) -> bool {
    match operator {
        Token::LessThan => a < b,
        Token::GreaterThan => a > b,
        _ => a >= b,
    }
}

/// The comparisons `<`, `>` and `>=` mean what they say, from the text of
/// a source to the state it leaves behind. For numbers `a` and `b` written
/// in base ten, the source `if a op b then x := 1 else x := 2` parses
/// into the same program as the source with the comparison written out
/// with `<=` and `!`, and that program leaves `x` at one where the
/// comparison holds of the numbers and at two where it does not, whatever
/// the budget.
pub proof fn lemma_comparison_runs(operator: Token, a: nat, b: nat, fuel: nat)
    requires
        operator == Token::LessThan || operator == Token::GreaterThan || operator
            == Token::GreaterEqual,
        a <= i32::MAX,
        b <= i32::MAX,
        fits(choice_source(plain_condition(operator, a, b))),
        fits(choice_source(written_condition(operator, a, b))),
    ensures
        parse(
            choice_source(plain_condition(operator, a, b)),
            tokens(choice_source(plain_condition(operator, a, b))),
        ).result == Ok::<AstView, ParseFailure>(
            choice(relate(operator, AstView::Literal(a as i32), AstView::Literal(b as i32))),
        ),
        parse(
            choice_source(written_condition(operator, a, b)),
            tokens(choice_source(written_condition(operator, a, b))),
        ).result == parse(
            choice_source(plain_condition(operator, a, b)),
            tokens(choice_source(plain_condition(operator, a, b))),
        ).result,
        eval(
            choice(relate(operator, AstView::Literal(a as i32), AstView::Literal(b as i32))),
            ContextView::empty(),
            fuel,
        ) == (Outcome {
            result: Ok(Value::Unit),
            context: ContextView::empty().assign(
                variable(),
                if compares(operator, a as int, b as int) {
                    1i32
                } else {
                    2i32
                },
            ),
        }),
{
    let left = AstView::Literal(a as i32);
    let right = AstView::Literal(b as i32);
    lemma_plain_program(operator, a, b);
    if operator == Token::LessThan {
        lemma_negated_program(b, a);
    } else if operator == Token::GreaterThan {
        lemma_negated_program(a, b);
    } else {
        lemma_grouped_program(b, a);
    }
    lemma_written_comparisons(left, right, ContextView::empty(), fuel, a as i32, b as i32);
    lemma_choice_runs(
        relate(operator, left, right),
        fuel,
        compares(operator, a as int, b as int),
    );
}

/// The text of `if a < b then x := 1 else x := 2`, letter by letter.
pub proof fn lemma_plain_source_text(a: nat, b: nat)
    ensures
        choice_source(plain_condition(Token::LessThan, a, b)) == "if "@ + decimal(a) + " < "@
            + decimal(b) + " then x := 1 else x := 2"@,
        choice_source(plain_condition(Token::GreaterThan, a, b)) == "if "@ + decimal(a) + " > "@
            + decimal(b) + " then x := 1 else x := 2"@,
        choice_source(plain_condition(Token::GreaterEqual, a, b)) == "if "@ + decimal(a)
            + " >= "@ + decimal(b) + " then x := 1 else x := 2"@,
{
    reveal_strlit("if ");
    reveal_strlit(" < ");
    reveal_strlit(" > ");
    reveal_strlit(" >= ");
    let head = seq![close(seq!['i', 'f'], Token::If)];
    lemma_tail_text(head + plain_condition(Token::LessThan, a, b));
    lemma_tail_text(head + plain_condition(Token::GreaterThan, a, b));
    lemma_tail_text(head + plain_condition(Token::GreaterEqual, a, b));
    lemma_plain_text(Token::LessThan, a, b);
    lemma_plain_text(Token::GreaterThan, a, b);
    lemma_plain_text(Token::GreaterEqual, a, b);
    let tail = " then x := 1 else x := 2"@;
    assert("if "@ =~= seq!['i', 'f', ' ']);
    assert(" < "@ =~= seq![' ', '<', ' ']);
    assert(" > "@ =~= seq![' ', '>', ' ']);
    assert(" >= "@ =~= seq![' ', '>', '=', ' ']);
    assert("if "@ + decimal(a) + " < "@ + decimal(b) + tail =~= seq!['i', 'f'] + seq![' ']
        + decimal(a) + seq![' '] + seq!['<'] + seq![' '] + decimal(b) + tail);
    assert("if "@ + decimal(a) + " > "@ + decimal(b) + tail =~= seq!['i', 'f'] + seq![' ']
        + decimal(a) + seq![' '] + seq!['>'] + seq![' '] + decimal(b) + tail);
    assert("if "@ + decimal(a) + " >= "@ + decimal(b) + tail =~= seq!['i', 'f'] + seq![' ']
        + decimal(a) + seq![' '] + seq!['>', '='] + seq![' '] + decimal(b) + tail);
}

/// What one more piece writes.
proof fn lemma_written_push(pieces: Seq<Piece>, next: Piece)
    ensures
        next.spaced ==> written_out(pieces.push(next)) == written_out(pieces) + seq![' ']
            + next.text,
        !next.spaced ==> written_out(pieces.push(next)) == written_out(pieces) + next.text,
{
    assert(pieces.push(next).drop_last() =~= pieces);
}

/// What pieces write after other pieces is what they write by themselves.
proof fn lemma_written_concat(a: Seq<Piece>, b: Seq<Piece>)
    ensures
        written_out(a + b) == written_out(a) + written_out(b),
    decreases b.len(),
{
    if b.len() == 0 {
        assert(a + b =~= a);
        assert(written_out(a) + written_out(b) =~= written_out(a));
    } else {
        lemma_written_concat(a, b.drop_last());
        assert((a + b).drop_last() =~= a + b.drop_last());
        assert((a + b).last() == b.last());
        assert(written_out(a + b) =~= written_out(a) + written_out(b));
    }
}

/// What the first four pieces of ` then x := 1 else x := 2` write.
proof fn lemma_tail_front() -> (front: Seq<Piece>)
    ensures
        front == choice_pieces().take(4),
        written_out(front) == seq![' ', 't', 'h', 'e', 'n', ' ', 'x', ' ', ':', '=', ' ', '1'],
{
    let p = choice_pieces();
    let q0 = Seq::<Piece>::empty();
    let q1 = q0.push(p[0]);
    let q2 = q1.push(p[1]);
    let q3 = q2.push(p[2]);
    let q4 = q3.push(p[3]);
    lemma_written_push(q0, p[0]);
    lemma_written_push(q1, p[1]);
    lemma_written_push(q2, p[2]);
    lemma_written_push(q3, p[3]);
    assert(decimal(1) =~= seq!['1']);
    assert(written_out(q0) =~= Seq::<char>::empty());
    assert(written_out(q1) =~= seq![' ', 't', 'h', 'e', 'n']);
    assert(written_out(q2) =~= seq![' ', 't', 'h', 'e', 'n', ' ', 'x']);
    assert(written_out(q3) =~= seq![' ', 't', 'h', 'e', 'n', ' ', 'x', ' ', ':', '=']);
    assert(written_out(q4) =~= seq![' ', 't', 'h', 'e', 'n', ' ', 'x', ' ', ':', '=', ' ', '1']);
    assert(q4 =~= p.take(4));
    q4
}

/// What the last four pieces of ` then x := 1 else x := 2` write.
proof fn lemma_tail_back() -> (back: Seq<Piece>)
    ensures
        back == choice_pieces().skip(4),
        written_out(back) == seq![' ', 'e', 'l', 's', 'e', ' ', 'x', ' ', ':', '=', ' ', '2'],
{
    let p = choice_pieces();
    let q0 = Seq::<Piece>::empty();
    let q1 = q0.push(p[4]);
    let q2 = q1.push(p[5]);
    let q3 = q2.push(p[6]);
    let q4 = q3.push(p[7]);
    lemma_written_push(q0, p[4]);
    lemma_written_push(q1, p[5]);
    lemma_written_push(q2, p[6]);
    lemma_written_push(q3, p[7]);
    assert(decimal(2) =~= seq!['2']);
    assert(written_out(q0) =~= Seq::<char>::empty());
    assert(written_out(q1) =~= seq![' ', 'e', 'l', 's', 'e']);
    assert(written_out(q2) =~= seq![' ', 'e', 'l', 's', 'e', ' ', 'x']);
    assert(written_out(q3) =~= seq![' ', 'e', 'l', 's', 'e', ' ', 'x', ' ', ':', '=']);
    assert(written_out(q4) =~= seq![' ', 'e', 'l', 's', 'e', ' ', 'x', ' ', ':', '=', ' ', '2']);
    assert(q4 =~= p.skip(4));
    q4
}

/// What the pieces ` then x := 1 else x := 2` write after a text.
proof fn lemma_tail_text(before: Seq<Piece>)
    ensures
        written_out(before + choice_pieces()) == written_out(before)
            + " then x := 1 else x := 2"@,
{
    reveal_strlit(" then x := 1 else x := 2");
    let front = lemma_tail_front();
    let back = lemma_tail_back();
    assert(choice_pieces() =~= front + back);
    lemma_written_concat(front, back);
    lemma_written_concat(before, choice_pieces());
    assert(written_out(front) + written_out(back) =~= " then x := 1 else x := 2"@);
}

/// What the pieces of `if a op b` write.
proof fn lemma_plain_text(operator: Token, a: nat, b: nat)
    ensures
        written_out(seq![close(seq!['i', 'f'], Token::If)] + plain_condition(operator, a, b))
            == seq!['i', 'f'] + seq![' '] + decimal(a) + seq![' '] + comparison_text(operator)
            + seq![' '] + decimal(b),
{
    let q0 = Seq::<Piece>::empty();
    let q1 = q0.push(close(seq!['i', 'f'], Token::If));
    let q2 = q1.push(spaced(decimal(a), Token::Literal));
    let q3 = q2.push(spaced(comparison_text(operator), operator));
    let q4 = q3.push(spaced(decimal(b), Token::Literal));
    assert(q1.drop_last() =~= q0 && q2.drop_last() =~= q1 && q3.drop_last() =~= q2
        && q4.drop_last() =~= q3);
    assert(q4 =~= seq![close(seq!['i', 'f'], Token::If)] + plain_condition(operator, a, b));
    assert(written_out(q0) =~= Seq::<char>::empty());
    assert(written_out(q1) =~= seq!['i', 'f']);
    assert(written_out(q2) =~= seq!['i', 'f'] + seq![' '] + decimal(a));
    assert(written_out(q3) =~= seq!['i', 'f'] + seq![' '] + decimal(a) + seq![' ']
        + comparison_text(operator));
}

/// What the pieces of `if !(a <= b)` write.
proof fn lemma_negated_text(a: nat, b: nat)
    ensures
        written_out(seq![close(seq!['i', 'f'], Token::If)] + negated_condition(a, b)) == seq![
            'i',
            'f',
            ' ',
            '!',
            '(',
        ] + decimal(a) + seq![' ', '<', '=', ' '] + decimal(b) + seq![')'],
{
    let c = negated_condition(a, b);
    let q0 = Seq::<Piece>::empty();
    let q1 = q0.push(close(seq!['i', 'f'], Token::If));
    let q2 = q1.push(c[0]);
    let q3 = q2.push(c[1]);
    let q4 = q3.push(c[2]);
    let q5 = q4.push(c[3]);
    let q6 = q5.push(c[4]);
    let q7 = q6.push(c[5]);
    lemma_written_push(q0, close(seq!['i', 'f'], Token::If));
    lemma_written_push(q1, c[0]);
    lemma_written_push(q2, c[1]);
    lemma_written_push(q3, c[2]);
    lemma_written_push(q4, c[3]);
    lemma_written_push(q5, c[4]);
    lemma_written_push(q6, c[5]);
    assert(q7 =~= seq![close(seq!['i', 'f'], Token::If)] + c);
    let start = seq!['i', 'f', ' ', '!', '('];
    assert(written_out(q0) =~= Seq::<char>::empty());
    assert(written_out(q1) =~= seq!['i', 'f']);
    assert(written_out(q2) =~= seq!['i', 'f', ' ', '!']);
    assert(written_out(q3) =~= start);
    assert(written_out(q4) =~= start + decimal(a));
    assert(written_out(q5) =~= start + decimal(a) + seq![' ', '<', '=']);
    assert(written_out(q6) =~= start + decimal(a) + seq![' ', '<', '=', ' '] + decimal(b));
    assert(written_out(q7) =~= start + decimal(a) + seq![' ', '<', '=', ' '] + decimal(b)
        + seq![')']);
}

/// What the pieces of `if (a <= b)` write.
proof fn lemma_grouped_text(a: nat, b: nat)
    ensures
        written_out(seq![close(seq!['i', 'f'], Token::If)] + grouped_condition(a, b)) == seq![
            'i',
            'f',
            ' ',
            '(',
        ] + decimal(a) + seq![' ', '<', '=', ' '] + decimal(b) + seq![')'],
{
    let c = grouped_condition(a, b);
    let q0 = Seq::<Piece>::empty();
    let q1 = q0.push(close(seq!['i', 'f'], Token::If));
    let q2 = q1.push(c[0]);
    let q3 = q2.push(c[1]);
    let q4 = q3.push(c[2]);
    let q5 = q4.push(c[3]);
    let q6 = q5.push(c[4]);
    lemma_written_push(q0, close(seq!['i', 'f'], Token::If));
    lemma_written_push(q1, c[0]);
    lemma_written_push(q2, c[1]);
    lemma_written_push(q3, c[2]);
    lemma_written_push(q4, c[3]);
    lemma_written_push(q5, c[4]);
    assert(q6 =~= seq![close(seq!['i', 'f'], Token::If)] + c);
    let start = seq!['i', 'f', ' ', '('];
    assert(written_out(q0) =~= Seq::<char>::empty());
    assert(written_out(q1) =~= seq!['i', 'f']);
    assert(written_out(q2) =~= start);
    assert(written_out(q3) =~= start + decimal(a));
    assert(written_out(q4) =~= start + decimal(a) + seq![' ', '<', '=']);
    assert(written_out(q5) =~= start + decimal(a) + seq![' ', '<', '=', ' '] + decimal(b));
    assert(written_out(q6) =~= start + decimal(a) + seq![' ', '<', '=', ' '] + decimal(b)
        + seq![')']);
}

/// The texts of `if !(a <= b) then x := 1 else x := 2` and of
/// `if (a <= b) then x := 1 else x := 2`, letter by letter.
pub proof fn lemma_written_source_text(a: nat, b: nat)
    ensures
        choice_source(negated_condition(a, b)) == "if !("@ + decimal(a) + " <= "@ + decimal(b)
            + ") then x := 1 else x := 2"@,
        choice_source(grouped_condition(a, b)) == "if ("@ + decimal(a) + " <= "@ + decimal(b)
            + ") then x := 1 else x := 2"@,
{
    reveal_strlit("if !(");
    reveal_strlit("if (");
    reveal_strlit(" <= ");
    reveal_strlit(") then x := 1 else x := 2");
    reveal_strlit(" then x := 1 else x := 2");
    let head = seq![close(seq!['i', 'f'], Token::If)];
    lemma_tail_text(head + negated_condition(a, b));
    lemma_tail_text(head + grouped_condition(a, b));
    lemma_negated_text(a, b);
    lemma_grouped_text(a, b);
    let tail = " then x := 1 else x := 2"@;
    assert(") then x := 1 else x := 2"@ =~= seq![')'] + tail);
    assert("if !("@ =~= seq!['i', 'f', ' ', '!', '(']);
    assert("if ("@ =~= seq!['i', 'f', ' ', '(']);
    assert(" <= "@ =~= seq![' ', '<', '=', ' ']);
    assert("if !("@ + decimal(a) + " <= "@ + decimal(b) + ") then x := 1 else x := 2"@
        =~= seq!['i', 'f', ' ', '!', '('] + decimal(a) + seq![' ', '<', '=', ' '] + decimal(b)
        + seq![')'] + tail);
    assert("if ("@ + decimal(a) + " <= "@ + decimal(b) + ") then x := 1 else x := 2"@
        =~= seq!['i', 'f', ' ', '('] + decimal(a) + seq![' ', '<', '=', ' '] + decimal(b)
        + seq![')'] + tail);
}

} // verus!
