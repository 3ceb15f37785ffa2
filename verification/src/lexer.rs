//! The lexer of While.
//!
//! [`Lexer`] turns the characters of a source into tokens, one at a time.
//! The tokens hold no text of their own: what an identifier or a literal
//! says is read from the source through the token's span.
//!
//! What the lexer yields is stated by [`lexeme_at`], the lexeme that begins
//! at a given character, and [`lexemes`], all of them in order. What a
//! source says to the parser is stated by [`words`]: the kinds and the
//! texts of its lexemes, without white space.
pub mod lex_error;
pub mod span;
pub mod token;

use vstd::prelude::*;
use vstd::string::{StringExecFns, StringSliceAdditionalSpecFns};
use crate::text::{
    byte_offset,
    characters,
    lemma_byte_offset_monotone,
    lemma_byte_offset_step,
    lemma_char_width,
    width,
};

pub use crate::lexer::lex_error::LexError;
pub use crate::lexer::span::{Span, Spanned};
pub use crate::lexer::token::Token;

verus! {

/// Whether `char::is_alphabetic` holds of a character.
pub uninterp spec fn alphabetic(c: char) -> bool;

/// Calls `char::is_alphabetic`, which tells whether a character is a
/// letter of any script. The contract names that answer, and says what it
/// is below `0x80`: there the letters `a` to `z` and `A` to `Z` are
/// alphabetic, and nothing else is.
#[verifier::external_body]
fn is_alphabetic(c: char) -> (answer: bool)
    ensures
        answer == alphabetic(c),
        (c as u32) < 0x80 ==> answer == is_letter(c),
{
    c.is_alphabetic()
}

/// The classes of characters that the lexer reads in runs.
#[derive(Copy, Clone, Debug, PartialEq, Eq, Structural)]
pub enum CharClass {
    /// A space or a tab.
    Blank,
    /// A line feed or a carriage return.
    LineBreak,
    /// A digit from `0` to `9`.
    Digit,
    /// A letter of any script.
    Alphabetic,
}

impl CharClass {
    /// Whether a character belongs to the class.
    pub open spec fn holds(self, c: char) -> bool {
        match self {
            CharClass::Blank => c == ' ' || c == '\t',
            CharClass::LineBreak => c == '\n' || c == '\r',
            CharClass::Digit => '0' <= c && c <= '9',
            CharClass::Alphabetic => if (c as u32) < 0x80 {
                is_letter(c)
            } else {
                alphabetic(c)
            },
        }
    }

    /// Whether a character belongs to the class.
    fn contains(self, c: char) -> (answer: bool)
        ensures
            answer == self.holds(c),
    {
        match self {
            CharClass::Blank => c == ' ' || c == '\t',
            CharClass::LineBreak => c == '\n' || c == '\r',
            CharClass::Digit => '0' <= c && c <= '9',
            CharClass::Alphabetic => is_alphabetic(c),
        }
    }
}

/// Whether a character is one of the letters `a` to `z` and `A` to `Z`,
/// with which identifiers and keywords begin.
pub open spec fn is_letter(c: char) -> bool {
    ('a' <= c && c <= 'z') || ('A' <= c && c <= 'Z')
}

/// The index at which the run of characters of a class that begins at
/// `index` ends: the index of the first character from there on that is not
/// in the class, or the length of the source.
pub open spec fn run_end(s: Seq<char>, index: int, class: CharClass) -> int
    decreases s.len() - index,
{
    if 0 <= index < s.len() && class.holds(s[index]) {
        run_end(s, index + 1, class)
    } else {
        index
    }
}

/// A run ends at or after its start and within the source, holds only
/// characters of the class, and is followed by none.
pub proof fn lemma_run_end(s: Seq<char>, index: int, class: CharClass)
    requires
        0 <= index <= s.len(),
    ensures
        index <= run_end(s, index, class) <= s.len(),
        forall|k: int| index <= k < run_end(s, index, class) ==> class.holds(#[trigger] s[k]),
        run_end(s, index, class) < s.len() ==> !class.holds(s[run_end(s, index, class)]),
    decreases s.len() - index,
{
    if index < s.len() && class.holds(s[index]) {
        lemma_run_end(s, index + 1, class);
    }
}

/// The token that a word of letters stands for: a keyword, or
/// an identifier. Keywords are matched with their case.
pub open spec fn word_token(word: Seq<char>) -> Token {
    if word == seq!['i', 'f'] {
        Token::If
    } else if word == seq!['t', 'h', 'e', 'n'] {
        Token::Then
    } else if word == seq!['e', 'l', 's', 'e'] {
        Token::Else
    } else if word == seq!['w', 'h', 'i', 'l', 'e'] {
        Token::While
    } else if word == seq!['d', 'o'] {
        Token::Do
    } else if word == seq!['s', 'k', 'i', 'p'] {
        Token::Skip
    } else if word == seq!['t', 'r', 'u', 'e'] {
        Token::True
    } else if word == seq!['f', 'a', 'l', 's', 'e'] {
        Token::False
    } else {
        Token::Identifier
    }
}

/// A token and the characters of the source that it covers, from `start`
/// up to `end`.
pub struct Lexeme {
    pub token: Token,
    pub start: int,
    pub end: int,
}

/// The lexeme that begins with a given first character and an optional
/// second one, where it is one of the symbols, and `None` where the first
/// character begins a run or a word.
pub open spec fn symbol(first: char, second: Option<char>) -> Option<(Token, int)> {
    if first == '(' {
        Some((Token::LeftParen, 1))
    } else if first == ')' {
        Some((Token::RightParen, 1))
    } else if first == '+' {
        Some((Token::Add, 1))
    } else if first == '-' {
        Some((Token::Subtract, 1))
    } else if first == '*' {
        Some((Token::Multiply, 1))
    } else if first == '=' {
        Some((Token::Equal, 1))
    } else if first == '&' {
        Some((Token::And, 1))
    } else if first == '[' {
        Some(if second == Some('[') { (Token::LeftSemantic, 2int) } else { (Token::Unknown, 1int) })
    } else if first == ']' {
        Some(if second == Some(']') { (Token::RightSemantic, 2int) } else { (Token::Unknown, 1int) })
    } else if first == '!' {
        Some(if second == Some('=') { (Token::NotEqual, 2int) } else { (Token::Not, 1int) })
    } else if first == '<' {
        Some(if second == Some('=') { (Token::LessEqual, 2int) } else { (Token::LessThan, 1int) })
    } else if first == '>' {
        Some(
            if second == Some('=') {
                (Token::GreaterEqual, 2int)
            } else {
                (Token::GreaterThan, 1int)
            },
        )
    } else if first == ':' {
        Some(if second == Some('=') { (Token::Assign, 2int) } else { (Token::Unknown, 1int) })
    } else {
        None
    }
}

/// The character at an index of the source, if there is one.
pub open spec fn char_at(s: Seq<char>, index: int) -> Option<char> {
    if 0 <= index < s.len() {
        Some(s[index])
    } else {
        None
    }
}

/// The lexeme that begins at the character with the given index.
///
/// Symbols take one character, or two where the pair forms a symbol of its
/// own. A digit begins a literal, which runs as far as digits follow. A
/// letter begins a word, which runs as far as letters follow.
/// A blank begins a run of blanks. A semicolon or a line break begins a
/// separator, which takes the line breaks that follow it. Any other
/// character is unknown, by itself.
pub open spec fn lexeme_at(s: Seq<char>, start: int) -> Lexeme
    recommends
        0 <= start < s.len(),
{
    let c = s[start];
    match symbol(c, char_at(s, start + 1)) {
        Some((token, length)) => Lexeme { token, start, end: start + length },
        None => if CharClass::Digit.holds(c) {
            Lexeme { token: Token::Literal, start, end: run_end(s, start + 1, CharClass::Digit) }
        } else if is_letter(c) {
            let end = run_end(s, start + 1, CharClass::Alphabetic);
            Lexeme { token: word_token(s.subrange(start, end)), start, end }
        } else if CharClass::Blank.holds(c) {
            Lexeme {
                token: Token::Whitespace,
                start,
                end: run_end(s, start + 1, CharClass::Blank),
            }
        } else if c == ';' || CharClass::LineBreak.holds(c) {
            Lexeme {
                token: Token::Semicolon,
                start,
                end: run_end(s, start + 1, CharClass::LineBreak),
            }
        } else {
            Lexeme { token: Token::Unknown, start, end: start + 1 }
        },
    }
}

/// A lexeme begins where it was asked for, holds at least one character and
/// ends within the source.
pub proof fn lemma_lexeme_at(s: Seq<char>, start: int)
    requires
        0 <= start < s.len(),
    ensures
        lexeme_at(s, start).start == start,
        start < lexeme_at(s, start).end <= s.len(),
{
    lemma_run_end(s, start + 1, CharClass::Digit);
    lemma_run_end(s, start + 1, CharClass::Alphabetic);
    lemma_run_end(s, start + 1, CharClass::Blank);
    lemma_run_end(s, start + 1, CharClass::LineBreak);
}

/// The lexemes of the source from the character with the given index on.
pub open spec fn lexemes(s: Seq<char>, start: int) -> Seq<Lexeme>
    decreases s.len() - start,
{
    if 0 <= start < s.len() {
        proof {
            lemma_lexeme_at(s, start);
        }
        seq![lexeme_at(s, start)] + lexemes(s, lexeme_at(s, start).end)
    } else {
        Seq::empty()
    }
}

/// One step of lexing: where `done` lexemes are read and the lexemes from
/// `position` on are left, the next one is the lexeme at `position` and
/// the lexemes from its end on are left after it; at the end of the source
/// none is left.
pub proof fn lemma_lexemes_step(s: Seq<char>, all: Seq<Lexeme>, done: int, position: int)
    requires
        0 <= position <= s.len(),
        0 <= done <= all.len(),
        all == all.take(done) + lexemes(s, position),
    ensures
        position == s.len() ==> done == all.len(),
        position < s.len() ==> done < all.len() && all[done] == lexeme_at(s, position) && all
            == all.take(done + 1) + lexemes(s, lexeme_at(s, position).end),
        position < s.len() ==> position < lexeme_at(s, position).end <= s.len(),
{
    let rest = lexemes(s, position);
    if position < s.len() {
        lemma_lexeme_at(s, position);
        assert(rest[0] == lexeme_at(s, position));
        assert(all[done] == rest[0]);
        assert(all.take(done + 1) =~= all.take(done) + seq![rest[0]]);
        assert(all =~= all.take(done + 1) + lexemes(s, lexeme_at(s, position).end));
    } else {
        assert(all =~= all.take(done));
    }
}

/// The span of a lexeme: the byte offsets of its first character and of the
/// character after its last.
pub open spec fn span_of(s: Seq<char>, lexeme: Lexeme) -> (int, int) {
    (byte_offset(s, lexeme.start) as int, byte_offset(s, lexeme.end) as int)
}

/// Whether an item that the lexer yields reports the given lexeme: an
/// unknown character as an error, any other lexeme as its token, both with
/// the span of the lexeme.
pub open spec fn reports(
    item: Result<Spanned<Token>, LexError>,
    s: Seq<char>,
    lexeme: Lexeme,
) -> bool {
    match item {
        Ok(spanned) => lexeme.token != Token::Unknown && spanned.inner == lexeme.token
            && spanned.span.0 == span_of(s, lexeme).0 && spanned.span.1 == span_of(s, lexeme).1,
        Err(error) => lexeme.token == Token::Unknown && error.message@ == "Unknown token"@
            && error.span.0 == span_of(s, lexeme).0 && error.span.1 == span_of(s, lexeme).1,
    }
}

/// Where the lexer stands: the index of the next character and its byte
/// offset.
#[derive(Copy, Clone, Debug)]
struct Cursor {
    index: usize,
    offset: usize,
}

/// Lexes a source. The tokens it yields hold no text of identifiers or
/// literals: that is read from the source through their spans.
#[derive(Debug)]
pub struct Lexer {
    source: Vec<char>,
    cursor: Cursor,
}

impl Lexer {
    /// The characters of the source.
    pub closed spec fn source(&self) -> Seq<char> {
        self.source@
    }

    /// The index of the next character to read.
    pub closed spec fn position(&self) -> int {
        self.cursor.index as int
    }

    #[verifier::type_invariant]
    spec fn well_formed(&self) -> bool {
        &&& self.cursor.index <= self.source@.len()
        &&& self.cursor.offset == byte_offset(self.source@, self.cursor.index as int)
        &&& byte_offset(self.source@, self.source@.len() as int) <= usize::MAX
    }

    /// Creates a lexer at the start of a source.
    pub fn new(source: &str) -> (lexer: Lexer)
        ensures
            lexer.source() == source@,
            lexer.position() == 0,
    {
        let chars = characters(source);
        let length = source.as_bytes().len();
        proof {
            lemma_byte_offset_monotone(chars@, 0, chars@.len() as int);
            assert(length == vstd::utf8::encode_utf8(source@).len());
        }
        Lexer { source: chars, cursor: Cursor { index: 0, offset: 0 } }
    }

    /// The next character, which stays unread.
    fn peek(&self) -> (next: Option<char>)
        ensures
            next == char_at(self.source(), self.position()),
    {
        proof {
            use_type_invariant(self);
        }
        if self.cursor.index < self.source.len() {
            Some(self.source[self.cursor.index])
        } else {
            None
        }
    }

    /// Reads the next character, if there is one.
    fn advance(&mut self) -> (next: Option<char>)
        ensures
            final(self).source() == old(self).source(),
            next == char_at(old(self).source(), old(self).position()),
            final(self).position() == if next is Some {
                old(self).position() + 1
            } else {
                old(self).position()
            },
    {
        proof {
            use_type_invariant(&*self);
        }
        if self.cursor.index < self.source.len() {
            let c = self.source[self.cursor.index];
            proof {
                lemma_byte_offset_step(self.source@, self.cursor.index as int);
                lemma_byte_offset_monotone(
                    self.source@,
                    self.cursor.index + 1,
                    self.source@.len() as int,
                );
                lemma_char_width(c);
            }
            self.cursor = Cursor {
                index: self.cursor.index + 1,
                offset: self.cursor.offset + width(c),
            };
            Some(c)
        } else {
            None
        }
    }

    /// Reads the characters of a class that follow.
    fn eat_run(&mut self, class: CharClass)
        ensures
            final(self).source() == old(self).source(),
            final(self).position() == run_end(old(self).source(), old(self).position(), class),
    {
        proof {
            use_type_invariant(&*self);
        }
        loop
            invariant
                self.source() == old(self).source(),
                old(self).position() <= self.position() <= self.source().len(),
                run_end(self.source(), self.position(), class) == run_end(
                    old(self).source(),
                    old(self).position(),
                    class,
                ),
            decreases self.source().len() - self.position(),
        {
            match self.peek() {
                Some(c) => {
                    if class.contains(c) {
                        self.advance();
                    } else {
                        return ;
                    }
                },
                None => {
                    return ;
                },
            }
        }
    }

    /// Reads the rest of a word whose first letter stands at `start`, and
    /// tells which token the word is.
    fn eat_ident(&mut self, start: usize) -> (token: Token)
        requires
            start < old(self).source().len(),
            old(self).position() == start + 1,
        ensures
            final(self).source() == old(self).source(),
            final(self).position() == run_end(
                old(self).source(),
                start + 1,
                CharClass::Alphabetic,
            ),
            token == word_token(old(self).source().subrange(start as int, final(self).position())),
    {
        self.eat_run(CharClass::Alphabetic);
        proof {
            use_type_invariant(&*self);
            lemma_run_end(self.source@, start + 1, CharClass::Alphabetic);
        }
        let end = self.cursor.index;
        let ghost word = self.source@.subrange(start as int, end as int);
        let length = end - start;
        let first = self.source[start];
        if length == 2 {
            let second = self.source[start + 1];
            assert(word =~= seq![first, second]);
            if first == 'i' && second == 'f' {
                Token::If
            } else if first == 'd' && second == 'o' {
                Token::Do
            } else {
                assert(word[0] != 'i' || word[1] != 'f');
                assert(word[0] != 'd' || word[1] != 'o');
                Token::Identifier
            }
        } else if length == 4 {
            let second = self.source[start + 1];
            let third = self.source[start + 2];
            let fourth = self.source[start + 3];
            assert(word =~= seq![first, second, third, fourth]);
            if first == 't' && second == 'h' && third == 'e' && fourth == 'n' {
                Token::Then
            } else if first == 'e' && second == 'l' && third == 's' && fourth == 'e' {
                Token::Else
            } else if first == 's' && second == 'k' && third == 'i' && fourth == 'p' {
                Token::Skip
            } else if first == 't' && second == 'r' && third == 'u' && fourth == 'e' {
                Token::True
            } else {
                assert(word[0] != 't' || word[1] != 'h' || word[2] != 'e' || word[3] != 'n');
                assert(word[0] != 'e' || word[1] != 'l' || word[2] != 's' || word[3] != 'e');
                assert(word[0] != 's' || word[1] != 'k' || word[2] != 'i' || word[3] != 'p');
                assert(word[0] != 't' || word[1] != 'r' || word[2] != 'u' || word[3] != 'e');
                Token::Identifier
            }
        } else if length == 5 {
            let second = self.source[start + 1];
            let third = self.source[start + 2];
            let fourth = self.source[start + 3];
            let fifth = self.source[start + 4];
            assert(word =~= seq![first, second, third, fourth, fifth]);
            if first == 'w' && second == 'h' && third == 'i' && fourth == 'l' && fifth == 'e' {
                Token::While
            } else if first == 'f' && second == 'a' && third == 'l' && fourth == 's' && fifth
                == 'e' {
                Token::False
            } else {
                assert(word[0] != 'w' || word[1] != 'h' || word[2] != 'i' || word[3] != 'l'
                    || word[4] != 'e');
                assert(word[0] != 'f' || word[1] != 'a' || word[2] != 'l' || word[3] != 's'
                    || word[4] != 'e');
                Token::Identifier
            }
        } else {
            assert(word.len() != 2 && word.len() != 4 && word.len() != 5);
            Token::Identifier
        }
    }

    /// Reads the rest of a run of blanks.
    fn eat_whitespaces(&mut self) -> (token: Token)
        ensures
            final(self).source() == old(self).source(),
            final(self).position() == run_end(
                old(self).source(),
                old(self).position(),
                CharClass::Blank,
            ),
            token == Token::Whitespace,
    {
        self.eat_run(CharClass::Blank);
        Token::Whitespace
    }

    /// Reads the rest of a literal.
    fn eat_numbers(&mut self) -> (token: Token)
        ensures
            final(self).source() == old(self).source(),
            final(self).position() == run_end(
                old(self).source(),
                old(self).position(),
                CharClass::Digit,
            ),
            token == Token::Literal,
    {
        self.eat_run(CharClass::Digit);
        Token::Literal
    }

    /// Reads the line breaks that follow a separator.
    fn eat_linebreaks(&mut self) -> (token: Token)
        ensures
            final(self).source() == old(self).source(),
            final(self).position() == run_end(
                old(self).source(),
                old(self).position(),
                CharClass::LineBreak,
            ),
            token == Token::Semicolon,
    {
        self.eat_run(CharClass::LineBreak);
        Token::Semicolon
    }

    /// Reads the second character of a symbol of two characters, if it is
    /// the next one.
    fn eat_second(&mut self, second: char, pair: Token, single: Token) -> (token: Token)
        ensures
            final(self).source() == old(self).source(),
            token == if char_at(old(self).source(), old(self).position()) == Some(second) {
                pair
            } else {
                single
            },
            final(self).position() == if char_at(old(self).source(), old(self).position())
                == Some(second) {
                old(self).position() + 1
            } else {
                old(self).position()
            },
    {
        match self.peek() {
            Some(c) => {
                if c == second {
                    self.advance();
                    pair
                } else {
                    single
                }
            },
            None => single,
        }
    }

    /// Yields the next lexeme: `None` at the end of the source, an error for
    /// a character that begins no token, and otherwise the token with its
    /// span. After an error the lexer goes on with the next character.
    pub fn next(&mut self) -> (item: Option<Result<Spanned<Token>, LexError>>)
        ensures
            final(self).source() == old(self).source(),
            match item {
                Some(item) => 0 <= old(self).position() < old(self).source().len() && reports(
                    item,
                    old(self).source(),
                    lexeme_at(old(self).source(), old(self).position()),
                ) && final(self).position() == lexeme_at(
                    old(self).source(),
                    old(self).position(),
                ).end,
                None => old(self).position() == old(self).source().len() && final(self).position()
                    == old(self).position(),
            },
    {
        proof {
            use_type_invariant(&*self);
        }
        let start = self.cursor.index;
        let start_offset = self.cursor.offset;
        let c = match self.advance() {
            None => {
                return None;
            },
            Some(c) => c,
        };
        let token = if c == '(' {
            Token::LeftParen
        } else if c == ')' {
            Token::RightParen
        } else if c == '+' {
            Token::Add
        } else if c == '-' {
            Token::Subtract
        } else if c == '*' {
            Token::Multiply
        } else if c == '=' {
            Token::Equal
        } else if c == '&' {
            Token::And
        } else if c == '[' {
            self.eat_second('[', Token::LeftSemantic, Token::Unknown)
        } else if c == ']' {
            self.eat_second(']', Token::RightSemantic, Token::Unknown)
        } else if c == '!' {
            self.eat_second('=', Token::NotEqual, Token::Not)
        } else if c == '<' {
            self.eat_second('=', Token::LessEqual, Token::LessThan)
        } else if c == '>' {
            self.eat_second('=', Token::GreaterEqual, Token::GreaterThan)
        } else if c == ':' {
            self.eat_second('=', Token::Assign, Token::Unknown)
        } else if '0' <= c && c <= '9' {
            self.eat_numbers()
        } else if ('a' <= c && c <= 'z') || ('A' <= c && c <= 'Z') {
            self.eat_ident(start)
        } else if c == ' ' || c == '\t' {
            self.eat_whitespaces()
        } else if c == '\r' || c == '\n' || c == ';' {
            self.eat_linebreaks()
        } else {
            Token::Unknown
        };
        proof {
            use_type_invariant(&*self);
        }
        let span = Span(start_offset, self.cursor.offset);
        if token == Token::Unknown {
            Some(Err(LexError::new(String::from_str("Unknown token"), span)))
        } else {
            Some(Ok(Spanned::new(token, span)))
        }
    }
    /// Yields all the lexemes that are left, in order: an error for each
    /// character that begins no token, and the token with its span for every
    /// other lexeme.
    pub fn collect(self) -> (items: Vec<Result<Spanned<Token>, LexError>>)
        ensures
            items@.len() == lexemes(self.source(), self.position()).len(),
            forall|k: int|
                0 <= k < items@.len() ==> reports(
                    #[trigger] items@[k],
                    self.source(),
                    lexemes(self.source(), self.position())[k],
                ),
    {
        let mut lexer = self;
        let mut items: Vec<Result<Spanned<Token>, LexError>> = Vec::new();
        let ghost all = lexemes(self.source(), self.position());
        proof {
            use_type_invariant(&lexer);
        }
        loop
            invariant
                lexer.source() == self.source(),
                0 <= lexer.position() <= lexer.source().len(),
                items@.len() <= all.len(),
                all == lexemes(self.source(), self.position()),
                all == all.take(items@.len() as int) + lexemes(lexer.source(), lexer.position()),
                forall|k: int|
                    0 <= k < items@.len() ==> reports(#[trigger] items@[k], self.source(), all[k]),
            decreases lexer.source().len() - lexer.position(),
        {
            let ghost here = lexer.position();
            let ghost done = items@.len() as int;
            match lexer.next() {
                Some(item) => {
                    proof {
                        lemma_lexemes_step(self.source(), all, done, here);
                    }
                    items.push(item);
                },
                None => {
                    proof {
                        lemma_lexemes_step(self.source(), all, done, here);
                    }
                    return items;
                },
            }
        }
    }
}

/// Lexes a whole source into its tokens. The first character that begins
/// no token ends the run with its error.
pub fn tokenize(source: &str) -> (result: Result<Vec<Spanned<Token>>, LexError>)
    ensures
        match result {
            Ok(tokens) => tokens@ == tokens_of(source@) && forall|k: int|
                0 <= k < tokens@.len() ==> reports(
                    Ok(#[trigger] tokens@[k]),
                    source@,
                    lexemes(source@, 0)[k],
                ),
            Err(error) => exists|k: int|
                0 <= k < lexemes(source@, 0).len() && reports(
                    Err(error),
                    source@,
                    #[trigger] lexemes(source@, 0)[k],
                ) && forall|j: int| 0 <= j < k ==> (#[trigger] lexemes(source@, 0)[j]).token != Token::Unknown,
        },
{
    let mut lexer = Lexer::new(source);
    let mut tokens: Vec<Spanned<Token>> = Vec::new();
    let ghost all = lexemes(source@, 0);
    loop
        invariant
            lexer.source() == source@,
            0 <= lexer.position() <= lexer.source().len(),
            tokens@.len() <= all.len(),
            all == lexemes(source@, 0),
            all == all.take(tokens@.len() as int) + lexemes(lexer.source(), lexer.position()),
            forall|k: int|
                0 <= k < tokens@.len() ==> reports(Ok(#[trigger] tokens@[k]), source@, all[k]),
        decreases lexer.source().len() - lexer.position(),
    {
        let ghost here = lexer.position();
        let ghost done = tokens@.len() as int;
        match lexer.next() {
            Some(item) => {
                proof {
                    lemma_lexemes_step(source@, all, done, here);
                }
                match item {
                    Ok(token) => {
                        tokens.push(token);
                    },
                    Err(error) => {
                        assert forall|j: int| 0 <= j < done implies (#[trigger] all[j]).token
                            != Token::Unknown by {
                            assert(reports(Ok(tokens@[j]), source@, all[j]));
                        }
                        return Err(error);
                    },
                }
            },
            None => {
                proof {
                    lemma_lexemes_step(source@, all, done, here);
                    assert forall|k: int| 0 <= k < tokens@.len() implies tokens@[k] == token_of(
                        source@,
                        all[k],
                    ) by {
                        assert(reports(Ok(tokens@[k]), source@, all[k]));
                    }
                    assert(tokens@ =~= tokens_of(source@));
                }
                return Ok(tokens);
            },
        }
    }
}

/// A run ends at the first character that is not of its class.
pub proof fn lemma_run_end_is(s: Seq<char>, index: int, class: CharClass, end: int)
    requires
        0 <= index <= end <= s.len(),
        forall|k: int| index <= k < end ==> class.holds(#[trigger] s[k]),
        end < s.len() ==> !class.holds(s[end]),
    ensures
        run_end(s, index, class) == end,
    decreases end - index,
{
    if index < end {
        lemma_run_end_is(s, index + 1, class, end);
    }
}

/// Whether lexemes lie end to end from `start` to `end`: the first begins
/// at `start`, each of the others begins where the one before it ends, the
/// last ends at `end`, and none is empty. No lexemes tile the empty range.
pub open spec fn tiles(parts: Seq<Lexeme>, start: int, end: int) -> bool
    decreases parts.len(),
{
    if parts.len() == 0 {
        start == end
    } else {
        parts.first().start == start && start < parts.first().end <= end && tiles(
            parts.drop_first(),
            parts.first().end,
            end,
        )
    }
}

/// The lexemes of a source lie end to end, from the character at which the
/// lexing began to the end of the source.
pub proof fn lemma_lexemes_tile(s: Seq<char>, start: int)
    requires
        0 <= start <= s.len(),
    ensures
        tiles(lexemes(s, start), start, s.len() as int),
    decreases s.len() - start,
{
    if start < s.len() {
        lemma_lexeme_at(s, start);
        let end = lexeme_at(s, start).end;
        lemma_lexemes_tile(s, end);
        assert(lexemes(s, start).drop_first() =~= lexemes(s, end));
    }
}

/// The characters that a sequence of lexemes covers, one lexeme after the
/// other.
pub open spec fn spelling(s: Seq<char>, parts: Seq<Lexeme>) -> Seq<char>
    decreases parts.len(),
{
    if parts.len() == 0 {
        Seq::empty()
    } else {
        s.subrange(parts.first().start, parts.first().end) + spelling(s, parts.drop_first())
    }
}

/// Putting together what the lexemes cover gives back the source, from the
/// character at which the lexing began.
pub proof fn lemma_lexemes_spell_source(s: Seq<char>, start: int)
    requires
        0 <= start <= s.len(),
    ensures
        spelling(s, lexemes(s, start)) == s.subrange(start, s.len() as int),
    decreases s.len() - start,
{
    if start < s.len() {
        let first = lexeme_at(s, start);
        lemma_lexeme_at(s, start);
        lemma_lexemes_spell_source(s, first.end);
        let all = lexemes(s, start);
        assert(all.drop_first() =~= lexemes(s, first.end));
        assert(s.subrange(start, first.end) + s.subrange(first.end, s.len() as int)
            =~= s.subrange(start, s.len() as int));
    } else {
        assert(s.subrange(start, s.len() as int) =~= Seq::<char>::empty());
    }
}

/// The span of every lexeme fits the source and marks the characters that
/// the lexeme covers: reading the source through the spans, one after the
/// other, gives back the source.
pub proof fn lemma_lexeme_span(s: Seq<char>, start: int)
    requires
        0 <= start < s.len(),
        vstd::utf8::encode_utf8(s).len() <= usize::MAX,
    ensures
        crate::text::span_fits(
            s,
            Span(
                span_of(s, lexeme_at(s, start)).0 as usize,
                span_of(s, lexeme_at(s, start)).1 as usize,
            ),
        ),
        crate::text::span_text(
            s,
            Span(
                span_of(s, lexeme_at(s, start)).0 as usize,
                span_of(s, lexeme_at(s, start)).1 as usize,
            ),
        ) == s.subrange(start, lexeme_at(s, start).end),
{
    lemma_lexeme_at(s, start);
    crate::text::lemma_span_text(s, start, lexeme_at(s, start).end);
}

/// A run stops at or before every character that is not of its class.
pub proof fn lemma_run_stops(s: Seq<char>, index: int, class: CharClass, stop: int)
    requires
        0 <= index <= stop < s.len(),
        !class.holds(s[stop]),
    ensures
        run_end(s, index, class) <= stop,
    decreases stop - index,
{
    if index < stop && class.holds(s[index]) {
        lemma_run_stops(s, index + 1, class, stop);
    }
}

/// Whether the character at an index is one that no lexeme begun before it
/// goes on over: it is no digit, no letter and no blank, it is not the
/// second character of a symbol, and where it is a line break, it does not
/// follow a semicolon or another line break.
pub open spec fn breaks_lexeme(s: Seq<char>, index: int) -> bool {
    let c = s[index];
    &&& 0 <= index < s.len()
    &&& !CharClass::Digit.holds(c)
    &&& !CharClass::Alphabetic.holds(c)
    &&& !CharClass::Blank.holds(c)
    &&& c != '=' && c != '[' && c != ']'
    &&& CharClass::LineBreak.holds(c) && index > 0 ==> s[index - 1] != ';'
        && !CharClass::LineBreak.holds(s[index - 1])
}

/// A lexeme that begins before such a character ends before it.
pub proof fn lemma_lexeme_ends_before(s: Seq<char>, start: int, stop: int)
    requires
        0 <= start < stop,
        breaks_lexeme(s, stop),
    ensures
        start < lexeme_at(s, start).end <= stop,
{
    lemma_lexeme_at(s, start);
    let c = s[start];
    if symbol(c, char_at(s, start + 1)) is None {
        if CharClass::Digit.holds(c) {
            lemma_run_stops(s, start + 1, CharClass::Digit, stop);
        } else if is_letter(c) {
            lemma_run_stops(s, start + 1, CharClass::Alphabetic, stop);
        } else if CharClass::Blank.holds(c) {
            lemma_run_stops(s, start + 1, CharClass::Blank, stop);
        } else if c == ';' || CharClass::LineBreak.holds(c) {
            if CharClass::LineBreak.holds(s[stop]) {
                lemma_run_stops(s, start + 1, CharClass::LineBreak, stop - 1);
            } else {
                lemma_run_stops(s, start + 1, CharClass::LineBreak, stop);
            }
        }
    }
}

/// The lexemes that lie between two indices: those from `start` on that
/// begin before `end`.
pub open spec fn lexemes_between(s: Seq<char>, start: int, end: int) -> Seq<Lexeme>
    decreases s.len() - start,
{
    if 0 <= start < end && start < s.len() {
        proof {
            lemma_lexeme_at(s, start);
        }
        seq![lexeme_at(s, start)] + lexemes_between(s, lexeme_at(s, start).end, end)
    } else {
        Seq::empty()
    }
}

/// Lexing passes through every such character: the lexemes of a source
/// are those that lie before the character, end to end, and those from the
/// character on.
pub proof fn lemma_lexemes_split(s: Seq<char>, start: int, stop: int)
    requires
        0 <= start <= stop <= s.len(),
        stop == start || stop == s.len() || breaks_lexeme(s, stop),
    ensures
        lexemes(s, start) == lexemes_between(s, start, stop) + lexemes(s, stop),
        tiles(lexemes_between(s, start, stop), start, stop),
    decreases stop - start,
{
    if start < stop {
        lemma_lexeme_at(s, start);
        let first = lexeme_at(s, start);
        if stop < s.len() {
            lemma_lexeme_ends_before(s, start, stop);
        }
        lemma_lexemes_split(s, first.end, stop);
        let before = lexemes_between(s, start, stop);
        assert(before.drop_first() =~= lexemes_between(s, first.end, stop));
        assert(lexemes(s, start) =~= before + lexemes(s, stop));
    } else {
        assert(lexemes(s, start) =~= lexemes_between(s, start, stop) + lexemes(s, stop));
    }
}

/// Wherever a run of line breaks stands in a source, it lexes to one
/// separator that covers the whole run, if only no semicolon stands right
/// before it: the lexemes of the source are those before the run, the
/// separator, and those after the run.
pub proof fn lemma_line_breaks_lex_to_one_separator_anywhere(s: Seq<char>, start: int, end: int)
    requires
        0 <= start < end <= s.len(),
        forall|k: int| start <= k < end ==> CharClass::LineBreak.holds(#[trigger] s[k]),
        end < s.len() ==> !CharClass::LineBreak.holds(s[end]),
        start > 0 ==> s[start - 1] != ';' && !CharClass::LineBreak.holds(s[start - 1]),
    ensures
        lexemes(s, 0) == lexemes_between(s, 0, start) + seq![
            Lexeme { token: Token::Semicolon, start, end },
        ] + lexemes(s, end),
        tiles(lexemes_between(s, 0, start), 0, start),
        tiles(lexemes(s, end), end, s.len() as int),
        span_of(s, Lexeme { token: Token::Semicolon, start, end }) == (
            byte_offset(s, start) as int,
            byte_offset(s, start) + (end - start),
        ),
{
    assert forall|k: int| start <= k < end implies (#[trigger] s[k] as u32) < 0x80 by {
        assert(CharClass::LineBreak.holds(s[k]));
    }
    crate::text::lemma_byte_offset_ascii(s, start, end);
    assert(CharClass::LineBreak.holds(s[start]));
    lemma_lexemes_split(s, 0, start);
    lemma_line_breaks_lex_to_one_separator(s, start, end);
    lemma_lexeme_at(s, start);
    lemma_lexemes_tile(s, end);
    assert(lexemes(s, start) =~= seq![lexeme_at(s, start)] + lexemes(s, end));
    assert(lexemes(s, 0) =~= lexemes_between(s, 0, start) + seq![
        Lexeme { token: Token::Semicolon, start, end },
    ] + lexemes(s, end));
}

/// The separators that `count` semicolons from `start` on lex to where
/// nothing is merged: one for each semicolon, over that semicolon alone.
pub open spec fn separators(start: int, count: nat) -> Seq<Lexeme> {
    Seq::new(
        count,
        |i: int| Lexeme { token: Token::Semicolon, start: start + i, end: start + i + 1 },
    )
}

/// Wherever semicolons stand side by side in a source, each lexes to a
/// separator of its own, if only no line break follows the last: the
/// lexemes of the source are those before the semicolons, one separator
/// for each semicolon, and those after them.
pub proof fn lemma_semicolons_lex_to_as_many_separators_anywhere(
    s: Seq<char>,
    start: int,
    count: nat,
)
    requires
        0 <= start,
        count > 0,
        start + count <= s.len(),
        forall|k: int| start <= k < start + count ==> #[trigger] s[k] == ';',
        start + count < s.len() ==> !CharClass::LineBreak.holds(s[start + count]),
    ensures
        lexemes(s, 0) == lexemes_between(s, 0, start) + separators(start, count) + lexemes(
            s,
            start + count,
        ),
        tiles(lexemes_between(s, 0, start), 0, start),
        tiles(lexemes(s, start + count), start + count, s.len() as int),
        forall|i: int|
            0 <= i < count ==> span_of(s, #[trigger] separators(start, count)[i]) == (
                byte_offset(s, start) + i,
                byte_offset(s, start) + i + 1,
            ),
{
    assert forall|i: int| 0 <= i < count implies span_of(
        s,
        #[trigger] separators(start, count)[i],
    ) == (byte_offset(s, start) + i, byte_offset(s, start) + i + 1) by {
        assert forall|k: int| start <= k < start + count implies (#[trigger] s[k] as u32)
            < 0x80 by {
            assert(s[k] == ';');
        }
        crate::text::lemma_byte_offset_ascii(s, start, start + i);
        crate::text::lemma_byte_offset_ascii(s, start, start + i + 1);
    }
    assert(s[start] == ';');
    lemma_lexemes_split(s, 0, start);
    lemma_lexemes_tile(s, start + count);
    lemma_separators(s, start, count);
    assert(lexemes(s, 0) =~= lexemes_between(s, 0, start) + separators(start, count) + lexemes(
        s,
        start + count,
    ));
}

/// From a semicolon on, semicolons side by side lex to one separator each.
proof fn lemma_separators(s: Seq<char>, start: int, count: nat)
    requires
        0 <= start,
        start + count <= s.len(),
        forall|k: int| start <= k < start + count ==> #[trigger] s[k] == ';',
        start + count < s.len() ==> !CharClass::LineBreak.holds(s[start + count]),
    ensures
        lexemes(s, start) == separators(start, count) + lexemes(s, start + count),
    decreases count,
{
    if count == 0 {
        assert(lexemes(s, start) =~= separators(start, 0) + lexemes(s, start));
    } else {
        assert(s[start] == ';');
        if count > 1 {
            assert(s[start + 1] == ';');
        }
        lemma_run_end_is(s, start + 1, CharClass::LineBreak, start + 1);
        lemma_lexeme_at(s, start);
        lemma_separators(s, start + 1, (count - 1) as nat);
        assert(separators(start, count) =~= seq![lexeme_at(s, start)] + separators(
            start + 1,
            (count - 1) as nat,
        ));
        assert(lexemes(s, start) =~= separators(start, count) + lexemes(s, start + count));
    }
}

/// A run of line breaks, however long, lexes to one separator that covers
/// the whole run.
pub proof fn lemma_line_breaks_lex_to_one_separator(s: Seq<char>, start: int, end: int)
    requires
        0 <= start < end <= s.len(),
        forall|k: int| start <= k < end ==> CharClass::LineBreak.holds(#[trigger] s[k]),
        end < s.len() ==> !CharClass::LineBreak.holds(s[end]),
    ensures
        lexeme_at(s, start) == (Lexeme { token: Token::Semicolon, start, end }),
{
    lemma_run_end_is(s, start + 1, CharClass::LineBreak, end);
}

/// Semicolons that stand side by side lex to one separator each: where
/// `count` semicolons begin at `start`, the first `count` lexemes from there
/// are separators, and each begins with a semicolon of its own.
pub proof fn lemma_semicolons_lex_to_as_many_separators(s: Seq<char>, start: int, count: int)
    requires
        0 <= start,
        0 <= count,
        start + count <= s.len(),
        forall|k: int| start <= k < start + count ==> #[trigger] s[k] == ';',
    ensures
        lexemes(s, start).len() >= count,
        forall|k: int|
            0 <= k < count ==> (#[trigger] lexemes(s, start)[k]).token == Token::Semicolon
                && lexemes(s, start)[k].start == start + k,
        forall|k: int| 0 <= k < count - 1 ==> (#[trigger] lexemes(s, start)[k]).end == start + k + 1,
    decreases count,
{
    if count > 0 {
        let first = lexeme_at(s, start);
        lemma_lexeme_at(s, start);
        assert(s[start] == ';');
        let all = lexemes(s, start);
        let rest = lexemes(s, first.end);
        assert(all =~= seq![first] + rest);
        if count > 1 {
            assert(s[start + 1] == ';');
            lemma_run_end_is(s, start + 1, CharClass::LineBreak, start + 1);
            lemma_semicolons_lex_to_as_many_separators(s, start + 1, count - 1);
            assert forall|k: int| 0 <= k < count implies (#[trigger] all[k]).token
                == Token::Semicolon && all[k].start == start + k by {
                if k > 0 {
                    assert(all[k] == rest[k - 1]);
                }
            }
            assert forall|k: int| 0 <= k < count - 1 implies (#[trigger] all[k]).end == start + k
                + 1 by {
                if k > 0 {
                    assert(all[k] == rest[k - 1]);
                }
            }
        }
    }
}

/// Whether two characters side by side belong to two lexemes: the second
/// neither goes on with the run that the first belongs to, nor makes a
/// symbol of two characters with it.
#[verifier::opaque]
pub open spec fn apart(before: char, after: char) -> bool {
    &&& !(CharClass::Digit.holds(before) && CharClass::Digit.holds(after))
    &&& !((is_letter(before) || CharClass::Alphabetic.holds(before))
        && CharClass::Alphabetic.holds(after))
    &&& !(CharClass::Blank.holds(before) && CharClass::Blank.holds(after))
    &&& !((before == ';' || CharClass::LineBreak.holds(before)) && CharClass::LineBreak.holds(
        after,
    ))
    &&& !((before == '!' || before == '<' || before == '>' || before == ':') && after == '=')
    &&& !(before == '[' && after == '[')
    &&& !(before == ']' && after == ']')
}

/// Whether the text `t` holds the text `s` from the index `shift` on, and
/// after it either nothing or a character that belongs to another lexeme
/// than the last character of `s`.
pub open spec fn holds_text(s: Seq<char>, t: Seq<char>, shift: int) -> bool {
    &&& 0 <= shift
    &&& shift + s.len() <= t.len()
    &&& forall|i: int| 0 <= i < s.len() ==> t[shift + i] == #[trigger] s[i]
    &&& shift + s.len() < t.len() && s.len() > 0 ==> apart(s.last(), t[shift + s.len()])
}

/// A lexeme moved along by a number of characters.
pub open spec fn moved(lexeme: Lexeme, shift: int) -> Lexeme {
    Lexeme { token: lexeme.token, start: lexeme.start + shift, end: lexeme.end + shift }
}

/// Lexemes moved along by a number of characters.
pub open spec fn moved_all(parts: Seq<Lexeme>, shift: int) -> Seq<Lexeme> {
    Seq::new(parts.len(), |k: int| moved(parts[k], shift))
}

/// A run that begins within a text is the same run in a text that holds
/// the first.
pub proof fn lemma_run_end_within(
    s: Seq<char>,
    t: Seq<char>,
    shift: int,
    index: int,
    class: CharClass,
)
    requires
        holds_text(s, t, shift),
        0 <= index < s.len(),
        class.holds(s[index]),
    ensures
        run_end(t, shift + index, class) == shift + run_end(s, index, class),
    decreases s.len() - index,
{
    reveal(apart);
    reveal_with_fuel(run_end, 3);
    assert(t[shift + index] == s[index]);
    if index + 1 < s.len() {
        assert(t[shift + (index + 1)] == s[index + 1]);
        if class.holds(s[index + 1]) {
            lemma_run_end_within(s, t, shift, index + 1, class);
        }
    } else if shift + s.len() < t.len() {
        assert(s.last() == s[index]);
        assert(!class.holds(t[shift + s.len()]));
    }
}

/// A lexeme of a text is the same lexeme, moved along, of a text that
/// holds the first.
pub proof fn lemma_lexeme_at_held(s: Seq<char>, t: Seq<char>, shift: int, index: int)
    requires
        holds_text(s, t, shift),
        0 <= index < s.len(),
    ensures
        lexeme_at(t, shift + index) == moved(lexeme_at(s, index), shift),
{
    reveal(apart);
    assert(t[shift + index] == s[index]);
    let c = s[index];
    let next = index + 1;
    if next < s.len() {
        assert(t[shift + next] == s[next]);
    } else {
        assert(s.last() == c);
    }
    assert(symbol(c, char_at(t, shift + index + 1)) == symbol(c, char_at(s, index + 1)));
    if symbol(c, char_at(s, index + 1)) is None {
        let class = if CharClass::Digit.holds(c) {
            CharClass::Digit
        } else if is_letter(c) {
            CharClass::Alphabetic
        } else if CharClass::Blank.holds(c) {
            CharClass::Blank
        } else {
            CharClass::LineBreak
        };
        if CharClass::Digit.holds(c) || is_letter(c) || CharClass::Blank.holds(c) || c == ';'
            || CharClass::LineBreak.holds(c) {
            if next < s.len() && class.holds(s[next]) {
                lemma_run_end_within(s, t, shift, next, class);
            } else if next == s.len() && shift + s.len() < t.len() {
                assert(!class.holds(t[shift + s.len()]));
            }
            lemma_run_end(s, next, CharClass::Alphabetic);
            let end = run_end(s, next, CharClass::Alphabetic);
            let word = s.subrange(index, end);
            let held = t.subrange(shift + index, shift + end);
            assert forall|k: int| 0 <= k < word.len() implies #[trigger] held[k] == word[k] by {
                assert(t[shift + (index + k)] == s[index + k]);
            }
            assert(held =~= word);
        }
    }
}

/// The lexemes of a text are, moved along, the lexemes at their place in a
/// text that holds the first; after them come the lexemes of what follows.
pub proof fn lemma_lexemes_held(s: Seq<char>, t: Seq<char>, shift: int, index: int)
    requires
        holds_text(s, t, shift),
        0 <= index <= s.len(),
    ensures
        lexemes(t, shift + index) == moved_all(lexemes(s, index), shift) + lexemes(
            t,
            shift + s.len(),
        ),
    decreases s.len() - index,
{
    if index < s.len() {
        lemma_lexeme_at(s, index);
        lemma_lexeme_at_held(s, t, shift, index);
        let first = lexeme_at(s, index);
        lemma_lexemes_held(s, t, shift, first.end);
        assert(moved_all(lexemes(s, index), shift) =~= seq![moved(first, shift)] + moved_all(
            lexemes(s, first.end),
            shift,
        ));
        assert(lexemes(t, shift + index) =~= moved_all(lexemes(s, index), shift) + lexemes(
            t,
            shift + s.len(),
        ));
    } else {
        assert(moved_all(lexemes(s, index), shift) =~= Seq::<Lexeme>::empty());
        assert(lexemes(t, shift + index) =~= moved_all(lexemes(s, index), shift) + lexemes(
            t,
            shift + s.len(),
        ));
    }
}

/// Every lexeme lies within the source, after the place at which the
/// lexing began, and is not empty.
pub proof fn lemma_lexeme_bounds(s: Seq<char>, start: int, k: int)
    requires
        0 <= start <= s.len(),
        0 <= k < lexemes(s, start).len(),
    ensures
        start <= lexemes(s, start)[k].start < lexemes(s, start)[k].end <= s.len(),
        lexemes(s, start)[k] == lexeme_at(s, lexemes(s, start)[k].start),
    decreases s.len() - start,
{
    lemma_lexeme_at(s, start);
    if k > 0 {
        let end = lexeme_at(s, start).end;
        assert(lexemes(s, start)[k] == lexemes(s, end)[k - 1]);
        lemma_lexeme_bounds(s, end, k - 1);
    }
}

/// The token that reports a lexeme: its kind, with its span.
pub open spec fn token_of(s: Seq<char>, lexeme: Lexeme) -> Spanned<Token> {
    Spanned {
        inner: lexeme.token,
        span: Span(span_of(s, lexeme).0 as usize, span_of(s, lexeme).1 as usize),
    }
}

/// The tokens of a source: one for each of its lexemes, in order.
pub open spec fn tokens_of(s: Seq<char>) -> Seq<Spanned<Token>> {
    Seq::new(lexemes(s, 0).len(), |k: int| token_of(s, lexemes(s, 0)[k]))
}

/// The tokens that report lexemes, one for each.
pub open spec fn tokens_from(s: Seq<char>, parts: Seq<Lexeme>) -> Seq<Spanned<Token>> {
    Seq::new(parts.len(), |k: int| token_of(s, parts[k]))
}

/// Whether every lexeme of a sequence lies within a text.
pub open spec fn all_within(parts: Seq<Lexeme>, s: Seq<char>) -> bool {
    forall|k: int| 0 <= k < parts.len() ==> 0 <= (#[trigger] parts[k]).start <= parts[k].end
        <= s.len()
}

/// What lexemes say: for each lexeme that is no white space and no line
/// break, its kind and the characters that it covers.
pub open spec fn words_from(s: Seq<char>, parts: Seq<Lexeme>) -> Seq<(Token, Seq<char>)>
    decreases parts.len(),
{
    if parts.len() == 0 {
        Seq::empty()
    } else if parts.last().token.is_trivia() {
        words_from(s, parts.drop_last())
    } else {
        words_from(s, parts.drop_last()).push(
            (parts.last().token, s.subrange(parts.last().start, parts.last().end)),
        )
    }
}

/// What a source says: the kinds and the texts of its lexemes, in order,
/// without white space.
#[verifier::opaque]
pub open spec fn words(s: Seq<char>) -> Seq<(Token, Seq<char>)> {
    words_from(s, lexemes(s, 0))
}

/// All the lexemes of a source lie within it.
pub proof fn lemma_lexemes_within(s: Seq<char>)
    ensures
        all_within(lexemes(s, 0), s),
{
    assert forall|k: int| 0 <= k < lexemes(s, 0).len() implies 0 <= (#[trigger] lexemes(
        s,
        0,
    )[k]).start <= lexemes(s, 0)[k].end <= s.len() by {
        lemma_lexeme_bounds(s, 0, k);
    }
}

/// The lexemes of two texts side by side are the lexemes of the first and,
/// moved along, those of the second, where the last character of the first
/// and the first character of the second belong to two lexemes.
pub proof fn lemma_lexemes_concat(x: Seq<char>, y: Seq<char>)
    requires
        x.len() > 0 && y.len() > 0 ==> apart(x.last(), y.first()),
    ensures
        lexemes(x + y, 0) == lexemes(x, 0) + moved_all(lexemes(y, 0), x.len() as int),
{
    let t = x + y;
    let n = x.len() as int;
    assert forall|i: int| 0 <= i < x.len() implies t[0 + i] == #[trigger] x[i] by {}
    assert forall|i: int| 0 <= i < y.len() implies t[n + i] == #[trigger] y[i] by {}
    if y.len() > 0 {
        assert(t[n] == y.first());
    }
    assert(holds_text(x, t, 0));
    assert(holds_text(y, t, n));
    lemma_lexemes_held(x, t, 0, 0);
    lemma_lexemes_held(y, t, n, 0);
    assert(lexemes(t, t.len() as int) =~= Seq::<Lexeme>::empty());
    assert(moved_all(lexemes(x, 0), 0) =~= lexemes(x, 0));
    assert(lexemes(t, 0) =~= lexemes(x, 0) + moved_all(lexemes(y, 0), n));
}

/// What lexemes say does not depend on where they stand: lexemes of a text
/// say the same, moved along, in a text that holds the first.
pub proof fn lemma_words_held(s: Seq<char>, t: Seq<char>, shift: int, parts: Seq<Lexeme>)
    requires
        0 <= shift,
        shift + s.len() <= t.len(),
        forall|i: int| 0 <= i < s.len() ==> t[shift + i] == #[trigger] s[i],
        all_within(parts, s),
    ensures
        words_from(t, moved_all(parts, shift)) == words_from(s, parts),
    decreases parts.len(),
{
    let there = moved_all(parts, shift);
    if parts.len() > 0 {
        assert(there.drop_last() =~= moved_all(parts.drop_last(), shift));
        assert forall|k: int| 0 <= k < parts.drop_last().len() implies 0 <= (
        #[trigger] parts.drop_last()[k]).start <= parts.drop_last()[k].end <= s.len() by {
            assert(parts.drop_last()[k] == parts[k]);
        }
        lemma_words_held(s, t, shift, parts.drop_last());
        let l = parts.last();
        assert(there.last() == moved(l, shift));
        let part = s.subrange(l.start, l.end);
        let held = t.subrange(l.start + shift, l.end + shift);
        assert forall|j: int| 0 <= j < part.len() implies #[trigger] held[j] == part[j] by {
            assert(t[shift + (l.start + j)] == s[l.start + j]);
        }
        assert(held =~= part);
    }
}

/// What lexemes one after the other say is what the first say and then
/// what the second say.
pub proof fn lemma_words_append(s: Seq<char>, a: Seq<Lexeme>, b: Seq<Lexeme>)
    ensures
        words_from(s, a + b) == words_from(s, a) + words_from(s, b),
    decreases b.len(),
{
    if b.len() == 0 {
        assert(a + b =~= a);
        assert(words_from(s, a) + words_from(s, b) =~= words_from(s, a));
    } else {
        assert((a + b).drop_last() =~= a + b.drop_last());
        assert((a + b).last() == b.last());
        lemma_words_append(s, a, b.drop_last());
        assert(words_from(s, a + b) =~= words_from(s, a) + words_from(s, b));
    }
}

/// What two texts side by side say is what the first says and then what
/// the second says, where the last character of the first and the first
/// character of the second belong to two lexemes.
pub proof fn lemma_words_concat(x: Seq<char>, y: Seq<char>)
    requires
        x.len() > 0 && y.len() > 0 ==> apart(x.last(), y.first()),
    ensures
        words(x + y) == words(x) + words(y),
{
    reveal(words);
    let t = x + y;
    let n = x.len() as int;
    lemma_lexemes_concat(x, y);
    lemma_lexemes_within(x);
    lemma_lexemes_within(y);
    lemma_words_append(t, lexemes(x, 0), moved_all(lexemes(y, 0), n));
    assert forall|i: int| 0 <= i < x.len() implies t[0 + i] == #[trigger] x[i] by {}
    assert forall|i: int| 0 <= i < y.len() implies t[n + i] == #[trigger] y[i] by {}
    lemma_words_held(x, t, 0, lexemes(x, 0));
    lemma_words_held(y, t, n, lexemes(y, 0));
    assert(moved_all(lexemes(x, 0), 0) =~= lexemes(x, 0));
}

/// Whether a text is one lexeme of the given kind, which is no white
/// space: a word, a literal, a symbol or a separator.
#[verifier::opaque]
pub open spec fn one_word(text: Seq<char>, token: Token) -> bool {
    &&& text.len() > 0
    &&& !token.is_trivia()
    &&& lexeme_at(text, 0) == (Lexeme { token, start: 0, end: text.len() as int })
    &&& !CharClass::Blank.holds(text.first())
    &&& !CharClass::Blank.holds(text.last())
}

/// A text that is one lexeme says one word: its kind and itself.
pub proof fn lemma_one_word(text: Seq<char>, token: Token)
    requires
        one_word(text, token),
    ensures
        words(text) == seq![(token, text)],
        text.len() > 0,
        !CharClass::Blank.holds(text.first()),
        !CharClass::Blank.holds(text.last()),
{
    reveal(one_word);
    reveal(words);
    let l = lexeme_at(text, 0);
    assert(lexemes(text, text.len() as int) =~= Seq::<Lexeme>::empty());
    assert(lexemes(text, 0) =~= seq![l]);
    assert(seq![l].drop_last() =~= Seq::<Lexeme>::empty());
    assert(text.subrange(0, text.len() as int) =~= text);
    assert(words_from(text, seq![l]) =~= seq![(token, text)]) by {
        reveal_with_fuel(words_from, 2);
    }
}

/// A blank says nothing.
pub proof fn lemma_blank_says_nothing()
    ensures
        words(seq![' ']) == Seq::<(Token, Seq<char>)>::empty(),
{
    reveal(words);
    let text = seq![' '];
    let l = Lexeme { token: Token::Whitespace, start: 0, end: 1 };
    assert(lexeme_at(text, 0) == l) by {
        reveal_with_fuel(run_end, 2);
    }
    assert(lexemes(text, 1) =~= Seq::<Lexeme>::empty());
    assert(lexemes(text, 0) =~= seq![l]);
    assert(seq![l].drop_last() =~= Seq::<Lexeme>::empty());
    assert(words_from(text, seq![l]) =~= Seq::<(Token, Seq<char>)>::empty()) by {
        reveal_with_fuel(words_from, 2);
    }
}

/// A blank and a character that is none belong to two lexemes, whichever
/// comes first.
pub proof fn lemma_apart_from_blank(c: char)
    requires
        !CharClass::Blank.holds(c),
    ensures
        apart(c, ' '),
        apart(' ', c),
{
    reveal(apart);
}

/// A piece of a source: a text that is one lexeme, its kind, and whether a
/// blank stands before it.
pub struct Piece {
    pub text: Seq<char>,
    pub token: Token,
    pub spaced: bool,
}

/// The source that pieces make, one after the other.
pub open spec fn written_out(pieces: Seq<Piece>) -> Seq<char>
    decreases pieces.len(),
{
    if pieces.len() == 0 {
        Seq::empty()
    } else if pieces.last().spaced {
        written_out(pieces.drop_last()) + seq![' '] + pieces.last().text
    } else {
        written_out(pieces.drop_last()) + pieces.last().text
    }
}

/// Whether pieces are lexed as they are written: each is one lexeme, and
/// where no blank stands between two of them, the characters at which they
/// meet belong to two lexemes.
pub open spec fn pieces_fit(pieces: Seq<Piece>) -> bool
    decreases pieces.len(),
{
    if pieces.len() == 0 {
        true
    } else {
        &&& pieces_fit(pieces.drop_last())
        &&& one_word(pieces.last().text, pieces.last().token)
        &&& pieces.len() > 1 && !pieces.last().spaced ==> apart(
            pieces[pieces.len() - 2].text.last(),
            pieces.last().text.first(),
        )
    }
}

/// The words that pieces are.
pub open spec fn piece_words(pieces: Seq<Piece>) -> Seq<(Token, Seq<char>)> {
    Seq::new(pieces.len(), |k: int| (pieces[k].token, pieces[k].text))
}

/// A source made of pieces says the pieces: their kinds and their texts.
pub proof fn lemma_written_out_says_pieces(pieces: Seq<Piece>)
    requires
        pieces_fit(pieces),
    ensures
        words(written_out(pieces)) == piece_words(pieces),
        pieces.len() > 0 ==> written_out(pieces).len() > 0 && written_out(pieces).last()
            == pieces.last().text.last() && !CharClass::Blank.holds(written_out(pieces).last()),
    decreases pieces.len(),
{
    if pieces.len() == 0 {
        assert(words(Seq::<char>::empty()) =~= Seq::<(Token, Seq<char>)>::empty()) by {
            reveal(words);
            assert(lexemes(Seq::<char>::empty(), 0) =~= Seq::<Lexeme>::empty());
        }
        assert(words(written_out(pieces)) =~= piece_words(pieces));
    } else {
        let front = pieces.drop_last();
        let last = pieces.last();
        lemma_written_out_says_pieces(front);
        lemma_one_word(last.text, last.token);
        let before = written_out(front);
        if last.spaced {
            lemma_blank_says_nothing();
            if front.len() > 0 {
                lemma_apart_from_blank(before.last());
            }
            lemma_apart_from_blank(last.text.first());
            lemma_words_concat(before, seq![' ']);
            assert((before + seq![' ']).last() == ' ');
            lemma_words_concat(before + seq![' '], last.text);
            assert(words(written_out(pieces)) =~= piece_words(front).push(
                (last.token, last.text),
            ));
        } else {
            if front.len() > 0 {
                assert(front.last() == pieces[pieces.len() - 2]);
            }
            lemma_words_concat(before, last.text);
            assert(words(written_out(pieces)) =~= piece_words(front).push(
                (last.token, last.text),
            ));
        }
        assert(piece_words(pieces) =~= piece_words(front).push((last.token, last.text)));
        assert(words(written_out(pieces)) =~= piece_words(pieces));
    }
}

} // verus!
