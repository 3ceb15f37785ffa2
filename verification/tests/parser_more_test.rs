use while_tools::ast::Ast;
use while_tools::lexer::{tokenize, Span, Spanned, Token};
use while_tools::parser::{ParseError, Parser};

fn parse(source: &str) -> Result<Ast, ParseError> {
    let tokens = tokenize(source).unwrap();
    Parser::new(source, tokens).parse()
}

fn tree(source: &str) -> Ast {
    match parse(source) {
        Ok(ast) => ast,
        Err(error) => panic!("{}", error.to_string()),
    }
}

fn failure(source: &str) -> (String, Span) {
    let error = parse(source).unwrap_err();
    (error.message, error.span)
}

fn boxed(ast: Ast) -> Box<Ast> {
    Box::new(ast)
}

fn name(text: &str) -> Ast {
    Ast::Ident(text.to_string())
}

fn assign(target: &str, value: Ast) -> Ast {
    Ast::Ass {
        ident: target.to_string(),
        value: boxed(value),
    }
}

#[test]
fn test_less_than_is_written_with_not_and_less_eq() {
    assert_eq!(
        tree("x := a < b"),
        assign(
            "x",
            Ast::Not {
                expr: boxed(Ast::LessEq {
                    left: boxed(name("b")),
                    right: boxed(name("a"))
                })
            }
        )
    );
}

#[test]
fn test_greater_eq_swaps_the_operands() {
    assert_eq!(
        tree("x := a >= b"),
        assign(
            "x",
            Ast::LessEq {
                left: boxed(name("b")),
                right: boxed(name("a"))
            }
        )
    );
}

#[test]
fn test_greater_than_is_written_with_not_and_less_eq() {
    assert_eq!(
        tree("x := a > b"),
        assign(
            "x",
            Ast::Not {
                expr: boxed(Ast::LessEq {
                    left: boxed(name("a")),
                    right: boxed(name("b"))
                })
            }
        )
    );
}

#[test]
fn test_not_equal_is_written_with_not_and_eq() {
    assert_eq!(
        tree("x := a != b"),
        assign(
            "x",
            Ast::Not {
                expr: boxed(Ast::Eq {
                    left: boxed(name("a")),
                    right: boxed(name("b"))
                })
            }
        )
    );
}

#[test]
fn test_unary_minus_subtracts_from_zero() {
    assert_eq!(
        tree("x := -y"),
        assign(
            "x",
            Ast::Sub {
                left: boxed(Ast::Literal(0)),
                right: boxed(name("y"))
            }
        )
    );
    assert_eq!(
        tree("x := - - 1"),
        assign(
            "x",
            Ast::Sub {
                left: boxed(Ast::Literal(0)),
                right: boxed(Ast::Sub {
                    left: boxed(Ast::Literal(0)),
                    right: boxed(Ast::Literal(1))
                })
            }
        )
    );
}

#[test]
fn test_not_binds_tighter_than_and() {
    assert_eq!(
        tree("x := !true & false"),
        assign(
            "x",
            Ast::And {
                left: boxed(Ast::Not {
                    expr: boxed(Ast::True)
                }),
                right: boxed(Ast::False)
            }
        )
    );
}

#[test]
fn test_multiplication_binds_tighter_than_addition() {
    assert_eq!(
        tree("x := 1 + 2 * 3"),
        assign(
            "x",
            Ast::Add {
                left: boxed(Ast::Literal(1)),
                right: boxed(Ast::Mul {
                    left: boxed(Ast::Literal(2)),
                    right: boxed(Ast::Literal(3))
                })
            }
        )
    );
}

#[test]
fn test_subtraction_associates_to_the_left() {
    assert_eq!(
        tree("x := 1 - 2 - 3"),
        assign(
            "x",
            Ast::Sub {
                left: boxed(Ast::Sub {
                    left: boxed(Ast::Literal(1)),
                    right: boxed(Ast::Literal(2))
                }),
                right: boxed(Ast::Literal(3))
            }
        )
    );
}

#[test]
fn test_and_chains_over_equalities() {
    assert_eq!(
        tree("x := a = 1 & b <= 2 & c"),
        assign(
            "x",
            Ast::And {
                left: boxed(Ast::And {
                    left: boxed(Ast::Eq {
                        left: boxed(name("a")),
                        right: boxed(Ast::Literal(1))
                    }),
                    right: boxed(Ast::LessEq {
                        left: boxed(name("b")),
                        right: boxed(Ast::Literal(2))
                    })
                }),
                right: boxed(name("c"))
            }
        )
    );
}

#[test]
fn test_parentheses_group_expressions() {
    assert_eq!(
        tree("x := (1 + 2) * 3"),
        assign(
            "x",
            Ast::Mul {
                left: boxed(Ast::Add {
                    left: boxed(Ast::Literal(1)),
                    right: boxed(Ast::Literal(2))
                }),
                right: boxed(Ast::Literal(3))
            }
        )
    );
}

#[test]
fn test_equality_does_not_chain() {
    let (message, span) = failure("x := (1 = 2 = 3)");
    assert_eq!(message, "Expected RightParen, found Equal");
    assert_eq!(span, Span(12, 13));
}

#[test]
fn test_comparison_does_not_chain() {
    let (message, span) = failure("x := (1 <= 2 <= 3)");
    assert_eq!(message, "Expected RightParen, found LessEqual");
    assert_eq!(span, Span(13, 15));
}

#[test]
fn test_statements_compose_to_the_left() {
    assert_eq!(
        tree("skip; x := 1; skip"),
        Ast::Comp {
            first: boxed(Ast::Comp {
                first: boxed(Ast::Skip),
                second: boxed(assign("x", Ast::Literal(1)))
            }),
            second: boxed(Ast::Skip)
        }
    );
}

#[test]
fn test_semicolons_before_and_after_a_block() {
    assert_eq!(tree(";;\n skip;"), Ast::Skip);
    assert_eq!(tree("\n\nskip\n"), Ast::Skip);
    assert_eq!(
        tree("if true then skip; else skip;"),
        Ast::If {
            cond: boxed(Ast::True),
            true_path: boxed(Ast::Skip),
            false_path: boxed(Ast::Skip)
        }
    );
}

#[test]
fn test_branch_takes_all_the_statements_it_can() {
    assert_eq!(
        tree("if c then (skip); skip else skip"),
        Ast::If {
            cond: boxed(name("c")),
            true_path: boxed(Ast::Comp {
                first: boxed(Ast::Skip),
                second: boxed(Ast::Skip)
            }),
            false_path: boxed(Ast::Skip)
        }
    );
    assert_eq!(
        tree("(if c then skip else skip); skip"),
        Ast::Comp {
            first: boxed(Ast::If {
                cond: boxed(name("c")),
                true_path: boxed(Ast::Skip),
                false_path: boxed(Ast::Skip)
            }),
            second: boxed(Ast::Skip)
        }
    );
}

#[test]
fn test_greedy_and_parenthesized_while() {
    assert_eq!(
        tree("while true do (skip); skip"),
        Ast::While {
            cond: boxed(Ast::True),
            body: boxed(Ast::Comp {
                first: boxed(Ast::Skip),
                second: boxed(Ast::Skip)
            })
        }
    );
    assert_eq!(
        tree("(while true do skip); skip"),
        Ast::Comp {
            first: boxed(Ast::While {
                cond: boxed(Ast::True),
                body: boxed(Ast::Skip)
            }),
            second: boxed(Ast::Skip)
        }
    );
}

#[test]
fn test_parentheses_around_a_statement_change_nothing() {
    for source in [
        "x := 5; while x <= 100 do x := x + 1",
        "if x <= 5 then x := 1 else x := 0",
        "skip",
        "x := 1; y := 2;",
    ] {
        let plain = tree(source);
        let once = format!("({})", source);
        let thrice = format!("((({})))", source);
        assert_eq!(tree(&once), plain);
        assert_eq!(tree(&thrice), plain);
    }
}

#[test]
fn test_while_without_do_is_refused() {
    let (message, span) = failure("x := 5; while x <= 100 x := x + 1");
    assert_eq!(message, "Expected Do, found Identifier");
    assert_eq!(span, Span(23, 24));
}

#[test]
fn test_empty_stream_is_refused() {
    let (message, span) = failure("");
    assert_eq!(message, "Unexpected end of token stream");
    assert_eq!(span, Span(0, 1));
    let (message, span) = failure("  \n ");
    assert_eq!(message, "Unexpected end of token stream");
    assert_eq!(span, Span(4, 5));
}

#[test]
fn test_statement_cannot_begin_with_any_token() {
    let (message, span) = failure(") skip");
    assert_eq!(message, "Found RightParen");
    assert_eq!(span, Span(0, 1));
    let (message, _) = failure("skip;;skip");
    assert_eq!(message, "Found Semicolon");
    let (message, _) = failure("5 := x");
    assert_eq!(message, "Found Literal");
}

#[test]
fn test_expected_token_found_another() {
    let (message, span) = failure("if true skip else skip");
    assert_eq!(message, "Expected Then, found Skip");
    assert_eq!(span, Span(8, 12));
    let (message, span) = failure("if true then skip");
    assert_eq!(message, "Expected Else, but reached end of token stream");
    assert_eq!(span, Span(17, 18));
    let (message, span) = failure("x = 1");
    assert_eq!(message, "Expected Assign, found Equal");
    assert_eq!(span, Span(2, 3));
    let (message, span) = failure("(skip");
    assert_eq!(message, "Expected RightParen, but reached end of token stream");
    assert_eq!(span, Span(5, 6));
}

#[test]
fn test_expression_ends_too_early() {
    let (message, span) = failure("x := ");
    assert_eq!(message, "Reached end of token stream");
    assert_eq!(span, Span(5, 6));
    let (message, span) = failure("x := 1 +");
    assert_eq!(message, "Reached end of token stream");
    assert_eq!(span, Span(8, 9));
}

#[test]
fn test_unexpected_token_in_an_expression() {
    let (message, span) = failure("x := then");
    assert_eq!(message, "Got unexpected Then at the primary parsing stage");
    assert_eq!(span, Span(5, 9));
    let (message, _) = failure("x := * 2");
    assert_eq!(message, "Got unexpected Multiply at the primary parsing stage");
}

#[test]
fn test_literal_must_fit_32_bits() {
    assert_eq!(tree("x := 2147483647"), assign("x", Ast::Literal(2147483647)));
    assert_eq!(tree("x := 007"), assign("x", Ast::Literal(7)));
    let (message, span) = failure("x := 2147483648");
    assert_eq!(message, "Literal is not a 32-bit integer");
    assert_eq!(span, Span(5, 15));
    let (message, _) = failure("x := 99999999999999999999999999");
    assert_eq!(message, "Literal is not a 32-bit integer");
}

#[test]
fn test_literal_token_over_a_signed_numeral() {
    let source = "x := -2147483648 +7";
    let tokens = vec![
        Spanned::new(Token::Identifier, Span(0, 1)),
        Spanned::new(Token::Assign, Span(2, 4)),
        Spanned::new(Token::Literal, Span(5, 16)),
        Spanned::new(Token::Add, Span(17, 18)),
        Spanned::new(Token::Literal, Span(17, 19)),
    ];
    assert_eq!(
        Parser::new(source, tokens).parse().unwrap(),
        assign(
            "x",
            Ast::Add {
                left: boxed(Ast::Literal(-2147483648)),
                right: boxed(Ast::Literal(7))
            }
        )
    );
}

#[test]
fn test_literal_token_over_other_text_is_refused() {
    for (source, span) in [("x := ab", Span(5, 7)), ("x := -", Span(5, 6)), ("x := 1 2", Span(5, 8)), ("x := ", Span(5, 5))] {
        let tokens = vec![
            Spanned::new(Token::Identifier, Span(0, 1)),
            Spanned::new(Token::Assign, Span(2, 4)),
            Spanned::new(Token::Literal, span),
        ];
        let error = Parser::new(source, tokens).parse().unwrap_err();
        assert_eq!(error.message, "Literal is not a 32-bit integer");
        assert_eq!(error.span, span);
    }
}

#[test]
fn test_span_that_does_not_fit_the_source_is_refused() {
    // Beyond the end, out of order, and inside a character.
    for span in [Span(5, 9), Span(6, 5), Span(5, 6)] {
        let source = "x := \u{e9}";
        let tokens = vec![
            Spanned::new(Token::Identifier, Span(0, 1)),
            Spanned::new(Token::Assign, Span(2, 4)),
            Spanned::new(Token::Identifier, span),
        ];
        let error = Parser::new(source, tokens).parse().unwrap_err();
        assert_eq!(error.message, "Span does not fit the source");
        assert_eq!(error.span, span);
    }
    let tokens = vec![Spanned::new(Token::Identifier, Span(3, 2))];
    let error = Parser::new("x := 1", tokens).parse().unwrap_err();
    assert_eq!(error.message, "Span does not fit the source");
}

#[test]
fn test_names_are_read_through_spans() {
    assert_eq!(
        tree("counter := x\u{e9}"),
        assign("counter", name("x\u{e9}"))
    );
}

#[test]
fn test_tokens_after_the_block_are_refused() {
    let (message, span) = failure("skip skip");
    assert_eq!(message, "Expected end of token stream, found Skip");
    assert_eq!(span, Span(5, 9));
    let (message, span) = failure("skip)");
    assert_eq!(message, "Expected end of token stream, found RightParen");
    assert_eq!(span, Span(4, 5));
    let (message, span) = failure("if c then skip else skip else skip");
    assert_eq!(message, "Expected end of token stream, found Else");
    assert_eq!(span, Span(25, 29));
}

#[test]
fn test_second_equality_is_refused() {
    let (message, span) = failure("x := 1 = 2 = 3");
    assert_eq!(message, "Expected end of token stream, found Equal");
    assert_eq!(span, Span(11, 12));
    let (message, span) = failure("x := 1 <= 2 < 3");
    assert_eq!(message, "Expected end of token stream, found LessThan");
    assert_eq!(span, Span(12, 13));
    let (message, _) = failure("if a = b = c then skip else skip");
    assert_eq!(message, "Expected Then, found Equal");
}

#[test]
fn test_parse_from_tokens_of_the_lexer_takes_all() {
    for source in ["x := 1;", "skip;\n", ";;skip", "x := 1 = 2", "(skip); skip;"] {
        assert!(parse(source).is_ok());
    }
}

#[test]
fn test_parse_error_new_and_display() {
    let error = ParseError::new("Found Else".to_string(), Span(1, 5));
    assert_eq!(error.message, "Found Else");
    assert_eq!(error.span, Span(1, 5));
    assert_eq!(error.to_string(), "Found Else");
}
