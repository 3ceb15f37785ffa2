use while_tools::lexer::{tokenize, LexError, Lexer, Span, Spanned, Token};

fn kinds(source: &str) -> Vec<Token> {
    tokenize(source)
        .unwrap()
        .into_iter()
        .map(|token| token.inner)
        .collect()
}

fn spans(source: &str) -> Vec<Span> {
    Lexer::new(source)
        .collect()
        .into_iter()
        .map(|item| match item {
            Ok(token) => token.span,
            Err(error) => error.span,
        })
        .collect()
}

#[test]
fn test_single_character_symbols() {
    assert_eq!(
        kinds("()+-*=&"),
        vec![
            Token::LeftParen,
            Token::RightParen,
            Token::Add,
            Token::Subtract,
            Token::Multiply,
            Token::Equal,
            Token::And
        ]
    );
}

#[test]
fn test_two_character_symbols_are_greedy() {
    assert_eq!(
        kinds("<= < >= > != ! := [[ ]]"),
        vec![
            Token::LessEqual,
            Token::Whitespace,
            Token::LessThan,
            Token::Whitespace,
            Token::GreaterEqual,
            Token::Whitespace,
            Token::GreaterThan,
            Token::Whitespace,
            Token::NotEqual,
            Token::Whitespace,
            Token::Not,
            Token::Whitespace,
            Token::Assign,
            Token::Whitespace,
            Token::LeftSemantic,
            Token::Whitespace,
            Token::RightSemantic
        ]
    );
    assert_eq!(kinds("<=="), vec![Token::LessEqual, Token::Equal]);
    assert_eq!(kinds("!!="), vec![Token::Not, Token::NotEqual]);
}

#[test]
fn test_single_brackets_and_colon_are_unknown() {
    for source in ["[", "]", ":", "[ [", ": ="] {
        let items = Lexer::new(source).collect();
        let first = items[0].as_ref().unwrap_err();
        assert_eq!(first.message, "Unknown token");
        assert_eq!(first.span, Span(0, 1));
    }
}

#[test]
fn test_keywords_match_with_their_case() {
    assert_eq!(
        kinds("if then else while do skip true false"),
        vec![
            Token::If,
            Token::Whitespace,
            Token::Then,
            Token::Whitespace,
            Token::Else,
            Token::Whitespace,
            Token::While,
            Token::Whitespace,
            Token::Do,
            Token::Whitespace,
            Token::Skip,
            Token::Whitespace,
            Token::True,
            Token::Whitespace,
            Token::False
        ]
    );
    assert_eq!(
        kinds("If THEN elsE whil dot skipp tru fals iff"),
        vec![
            Token::Identifier,
            Token::Whitespace,
            Token::Identifier,
            Token::Whitespace,
            Token::Identifier,
            Token::Whitespace,
            Token::Identifier,
            Token::Whitespace,
            Token::Identifier,
            Token::Whitespace,
            Token::Identifier,
            Token::Whitespace,
            Token::Identifier,
            Token::Whitespace,
            Token::Identifier,
            Token::Whitespace,
            Token::Identifier
        ]
    );
}

#[test]
fn test_words_are_runs_of_letters() {
    // A digit ends a word and begins a literal.
    let tokens = tokenize("x1").unwrap();
    assert_eq!(tokens.len(), 2);
    assert_eq!((tokens[0].inner, tokens[0].span), (Token::Identifier, Span(0, 1)));
    assert_eq!((tokens[1].inner, tokens[1].span), (Token::Literal, Span(1, 2)));
    assert_eq!(kinds("if2"), vec![Token::If, Token::Literal]);
    assert_eq!(kinds("1x"), vec![Token::Literal, Token::Identifier]);
    assert_eq!(kinds("ab12cd"), vec![Token::Identifier, Token::Literal, Token::Identifier]);
    // An underscore is no letter.
    let items = Lexer::new("a_b").collect();
    assert_eq!(items.len(), 3);
    assert!(items[1].is_err());
}

#[test]
fn test_words_take_letters_of_any_script_after_the_first() {
    // The word goes on over a letter outside ASCII, and its span counts bytes.
    let tokens = tokenize("x\u{e9}y z").unwrap();
    assert_eq!(tokens.len(), 3);
    assert_eq!(tokens[0].inner, Token::Identifier);
    assert_eq!(tokens[0].span, Span(0, 4));
    assert_eq!(tokens[2].span, Span(5, 6));
}

#[test]
fn test_word_cannot_begin_outside_ascii() {
    let items = Lexer::new("\u{e9}x").collect();
    assert_eq!(items.len(), 2);
    assert_eq!(items[0].as_ref().unwrap_err().span, Span(0, 2));
    let second = items[1].as_ref().unwrap();
    assert_eq!(second.inner, Token::Identifier);
    assert_eq!(second.span, Span(2, 3));
}

#[test]
fn test_unknown_character_of_four_bytes() {
    let items = Lexer::new("a\u{1F600}b").collect();
    assert_eq!(items.len(), 3);
    assert_eq!(items[1].as_ref().unwrap_err().span, Span(1, 5));
    assert_eq!(items[2].as_ref().unwrap().span, Span(5, 6));
}

#[test]
fn test_literal_is_a_run_of_digits() {
    let tokens = tokenize("007 42").unwrap();
    assert_eq!(tokens[0].inner, Token::Literal);
    assert_eq!(tokens[0].span, Span(0, 3));
    assert_eq!(tokens[2].inner, Token::Literal);
    assert_eq!(tokens[2].span, Span(4, 6));
}

#[test]
fn test_blanks_collapse_to_one_token() {
    let tokens = tokenize("a \t  b").unwrap();
    assert_eq!(tokens.len(), 3);
    assert_eq!(tokens[1].inner, Token::Whitespace);
    assert_eq!(tokens[1].span, Span(1, 5));
}

#[test]
fn test_separator_span_covers_the_line_breaks() {
    let tokens = tokenize("skip;\r\n\nskip").unwrap();
    assert_eq!(tokens[1].inner, Token::Semicolon);
    assert_eq!(tokens[1].span, Span(4, 8));
}

#[test]
fn test_n_semicolons_give_n_separators() {
    for n in 1..6 {
        let source = ";".repeat(n);
        assert_eq!(kinds(&source), vec![Token::Semicolon; n]);
    }
}

#[test]
fn test_any_run_of_line_breaks_gives_one_separator() {
    for source in ["\n", "\r", "\r\n", "\n\n\n", "\n\r\r\n"] {
        assert_eq!(kinds(source), vec![Token::Semicolon]);
    }
}

#[test]
fn test_empty_source_has_no_tokens() {
    assert!(Lexer::new("").collect().is_empty());
    assert!(tokenize("").unwrap().is_empty());
}

#[test]
fn test_next_is_lazy_and_ends_with_none() {
    let mut lexer = Lexer::new("x|y");
    let first = lexer.next().unwrap().unwrap();
    assert_eq!(first.inner, Token::Identifier);
    assert_eq!(first.span, Span(0, 1));
    let second = lexer.next().unwrap();
    assert!(second.is_err());
    // The lexer goes on after an error.
    let third = lexer.next().unwrap().unwrap();
    assert_eq!(third.inner, Token::Identifier);
    assert_eq!(third.span, Span(2, 3));
    assert!(lexer.next().is_none());
    assert!(lexer.next().is_none());
}

#[test]
fn test_spans_rebuild_the_source() {
    for source in [
        "x := 5; while x <= 100 do x := x + 1",
        "if x <= 5 then\r\n  x := 1\r\nelse\r\n  x := 0",
        "x : 1;|",
        "a\u{e9}\u{1F600} [[ ] != !",
        "",
    ] {
        let mut rebuilt = String::new();
        let mut end = 0;
        for span in spans(source) {
            assert_eq!(span.0, end);
            assert!(span.0 < span.1);
            rebuilt.push_str(&source[span.0..span.1]);
            end = span.1;
        }
        assert_eq!(end, source.len());
        assert_eq!(rebuilt, source);
    }
}

#[test]
fn test_errors_at_colon_and_bar() {
    let items = Lexer::new("x : 1;|").collect();
    assert_eq!(items.len(), 7);
    for (index, item) in items.iter().enumerate() {
        match index {
            2 => assert_eq!(item.as_ref().unwrap_err().span, Span(2, 3)),
            6 => assert_eq!(item.as_ref().unwrap_err().span, Span(6, 7)),
            _ => assert!(item.is_ok()),
        }
    }
}

#[test]
fn test_tokenize_stops_at_the_first_error() {
    let error = tokenize("x : 1;|").unwrap_err();
    assert_eq!(error.span, Span(2, 3));
    assert_eq!(error.message, "Unknown token");
}

#[test]
fn test_lex_error_display() {
    let error = LexError::new("Unknown token".to_string(), Span(2, 3));
    assert_eq!(error.to_string(), "Lexing error: Unknown token (At 2-3)");
    let far = LexError::new("m".to_string(), Span(0, 1234567890));
    assert_eq!(far.to_string(), "Lexing error: m (At 0-1234567890)");
}

#[test]
fn test_spanned_new_keeps_its_parts() {
    let spanned = Spanned::new(Token::Skip, Span(3, 7));
    assert_eq!(spanned.inner, Token::Skip);
    assert_eq!(spanned.span, Span(3, 7));
}

#[test]
fn test_token_names() {
    assert_eq!(Token::LeftParen.describe(), "LeftParen");
    assert_eq!(Token::Semicolon.describe(), "Semicolon");
    assert_eq!(Token::Then.describe(), "Then");
}
