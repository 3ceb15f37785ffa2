use while_tools::interpreter::state::State;
use while_tools::interpreter::Interpreter;
use while_tools::lexer::{tokenize, Span, Token};
use while_tools::parser::Parser;
use while_tools::text::{parse_integer, render_decimal, render_integer};

fn run(source: &str) -> State {
    let tokens = tokenize(source).unwrap();
    let ast = Parser::new(source, tokens).parse().unwrap();
    Interpreter::new(ast).interpret().unwrap()
}

fn tree(source: &str) -> while_tools::ast::Ast {
    let tokens = tokenize(source).unwrap();
    Parser::new(source, tokens).parse().unwrap()
}

const NUMBERS: [i32; 7] = [0, 1, 2, 9, 10, 2147483646, 2147483647];

#[test]
fn test_less_than_from_text_to_state() {
    for a in NUMBERS {
        for b in NUMBERS {
            let plain = format!("if {a} < {b} then x := 1 else x := 2");
            let written = format!("if !({b} <= {a}) then x := 1 else x := 2");
            assert_eq!(tree(&plain), tree(&written));
            let state = run(&plain);
            assert_eq!(state.get("x"), if a < b { 1 } else { 2 });
            assert_eq!(state, run(&written));
        }
    }
}

#[test]
fn test_greater_than_from_text_to_state() {
    for a in NUMBERS {
        for b in NUMBERS {
            let plain = format!("if {a} > {b} then x := 1 else x := 2");
            let written = format!("if !({a} <= {b}) then x := 1 else x := 2");
            assert_eq!(tree(&plain), tree(&written));
            let state = run(&plain);
            assert_eq!(state.get("x"), if a > b { 1 } else { 2 });
            assert_eq!(state, run(&written));
        }
    }
}

#[test]
fn test_greater_eq_from_text_to_state() {
    for a in NUMBERS {
        for b in NUMBERS {
            let plain = format!("if {a} >= {b} then x := 1 else x := 2");
            let written = format!("if ({b} <= {a}) then x := 1 else x := 2");
            assert_eq!(tree(&plain), tree(&written));
            let state = run(&plain);
            assert_eq!(state.get("x"), if a >= b { 1 } else { 2 });
            assert_eq!(state, run(&written));
        }
    }
}

#[test]
fn test_what_is_written_is_read_back() {
    for n in NUMBERS {
        assert_eq!(render_decimal(n as u64), n.to_string());
        assert_eq!(parse_integer(&render_decimal(n as u64)), Some(n));
        assert_eq!(parse_integer(&render_integer(-n)), Some(-n));
    }
    assert_eq!(render_integer(-2147483648), "-2147483648");
    assert_eq!(parse_integer("-2147483648"), Some(-2147483648));
    assert_eq!(parse_integer("2147483648"), None);
    assert_eq!(parse_integer("+17"), Some(17));
    assert_eq!(parse_integer(""), None);
    assert_eq!(parse_integer("-"), None);
    assert_eq!(parse_integer("1a"), None);
}

#[test]
fn test_parentheses_around_a_source_change_nothing() {
    for source in [
        "x := 5; while x <= 100 do x := x + 1",
        "if x <= 5 then x := 1 else x := 0",
        "  skip ;\n",
        "caf\u{e9} := 1;\ncaf\u{e9} := caf\u{e9} + 1",
    ] {
        let plain = tree(source);
        assert_eq!(tree(&format!("({})", source)), plain);
        assert_eq!(tree(&format!("((({})))", source)), plain);
    }
}

#[test]
fn test_white_space_between_lexemes_does_not_count() {
    assert_eq!(
        tree("if 1<2 then x:=1 else x:=2"),
        tree("if   1 <\t2   then x   := 1 else  x := 2")
    );
    assert_eq!(tree("x:=(1+2)*3"), tree(" x := ( 1 + 2 ) * 3 "));
}

#[test]
fn test_line_breaks_after_any_text_give_one_separator() {
    for before in ["", "skip", "x := 1", "x := 1 ", "(skip)", "\u{e9}"] {
        for run in ["\n", "\r\n", "\n\n\r\n\r"] {
            for after in ["", "skip", " skip", ";"] {
                let source = format!("{before}{run}{after}");
                let items = while_tools::lexer::Lexer::new(&source).collect();
                let start = before.len();
                let end = start + run.len();
                let meeting: Vec<_> = items
                    .iter()
                    .map(|item| match item {
                        Ok(token) => (Some(token.inner), token.span),
                        Err(error) => (None, error.span),
                    })
                    .filter(|(_, span)| span.0 < end && start < span.1)
                    .collect();
                assert_eq!(meeting, vec![(Some(Token::Semicolon), Span(start, end))]);
            }
        }
    }
}

#[test]
fn test_semicolons_after_any_text_give_as_many_separators() {
    for before in ["", "skip", "x := 1 ", "skip\n", "a"] {
        for n in 1..5usize {
            for after in ["", "skip", " skip", "x"] {
                let source = format!("{before}{}{after}", ";".repeat(n));
                let tokens = tokenize(&source).unwrap();
                let start = before.len();
                let inside: Vec<_> = tokens
                    .iter()
                    .filter(|token| token.span.0 < start + n && start < token.span.1)
                    .map(|token| (token.inner, token.span))
                    .collect();
                let expected: Vec<_> = (0..n)
                    .map(|i| (Token::Semicolon, Span(start + i, start + i + 1)))
                    .collect();
                assert_eq!(inside, expected);
            }
        }
    }
}
