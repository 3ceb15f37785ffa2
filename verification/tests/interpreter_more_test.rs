use while_tools::ast::{Ast, Value};
use while_tools::interpreter::context::Context;
use while_tools::interpreter::interpret_error::{Fault, InterpretError};
use while_tools::interpreter::state::State;
use while_tools::interpreter::Interpreter;
use while_tools::lexer::tokenize;
use while_tools::parser::Parser;

fn run(source: &str) -> Result<State, InterpretError> {
    let tokens = tokenize(source).unwrap();
    let ast = Parser::new(source, tokens).parse().unwrap();
    Interpreter::new(ast).interpret()
}

fn state_of(bindings: &[(&str, i32)]) -> State {
    let mut state = State::new();
    for (name, value) in bindings {
        state.set(name.to_string(), *value);
    }
    state
}

fn message_of(ast: Ast) -> String {
    Interpreter::new(ast).interpret().unwrap_err().0
}

fn boxed(ast: Ast) -> Box<Ast> {
    Box::new(ast)
}

fn assign(target: &str, value: Ast) -> Ast {
    Ast::Ass {
        ident: target.to_string(),
        value: boxed(value),
    }
}

#[test]
fn test_count_to_101() {
    let state = run("x := 5; while x <= 100 do x := x + 1").unwrap();
    assert_eq!(state, state_of(&[("x", 101)]));
    assert_eq!(state.get("x"), 101);
}

#[test]
fn test_if_on_unbound_variable() {
    let state = run("if x <= 5 then x := 1 else x := 0").unwrap();
    assert_eq!(state.get("x"), 1);
    assert_eq!(state.to_string(), "[x -> 1]");
}

#[test]
fn test_arithmetic_conditional_is_an_error() {
    let error = run("if 1 then skip else skip").unwrap_err();
    assert_eq!(error.0, "Arithmetic conditional not allowed");
    assert_eq!(error.to_string(), "Arithmetic conditional not allowed");
}

#[test]
fn test_unbound_names_read_as_zero() {
    let state = State::new();
    for name in ["x", "y", "counter", "", "\u{e9}"] {
        assert_eq!(state.get(name), 0);
    }
    let state = state_of(&[("x", 3), ("z", -4)]);
    assert_eq!(state.get("y"), 0);
    assert_eq!(state.get("xx"), 0);
    assert_eq!(state.get("x"), 3);
    assert_eq!(state.get("z"), -4);
    assert_eq!(run("y := x + 1").unwrap(), state_of(&[("y", 1)]));
}

#[test]
fn test_set_replaces_the_value() {
    let mut state = State::new();
    state.set("x".to_string(), 1);
    state.set("y".to_string(), 2);
    state.set("x".to_string(), 3);
    assert_eq!(state.get("x"), 3);
    assert_eq!(state.get("y"), 2);
    assert_eq!(state.to_string(), "[x -> 3, y -> 2]");
}

#[test]
fn test_states_are_equal_whatever_the_order_of_assignment() {
    let first = state_of(&[("b", 2), ("a", 1), ("c", 3)]);
    let second = state_of(&[("c", 3), ("a", 0), ("b", 2), ("a", 1)]);
    assert_eq!(first, second);
    assert_ne!(first, state_of(&[("a", 1), ("b", 2)]));
    assert_ne!(first, state_of(&[("a", 1), ("b", 2), ("c", 4)]));
    // A name bound to zero is bound.
    assert_ne!(state_of(&[("a", 0)]), State::new());
    assert_eq!(State::default(), State::new());
    assert_eq!(first.clone(), first);
}

#[test]
fn test_state_is_shown_in_the_order_of_the_names() {
    assert_eq!(State::new().to_string(), "[]");
    let state = state_of(&[("b", -2), ("ab", 0), ("a", 2147483647), ("B", -2147483648), ("b1", 10)]);
    assert_eq!(
        state.to_string(),
        "[B -> -2147483648, a -> 2147483647, ab -> 0, b -> -2, b1 -> 10]"
    );
}

#[test]
fn test_written_comparisons_mean_what_they_say() {
    for (a, b) in [(1, 2), (2, 1), (2, 2), (-3, 0)] {
        let program = format!(
            "a := {}; b := {}; \
             (if a < b then lt := 1 else lt := 0); \
             (if !(b <= a) then ltb := 1 else ltb := 0); \
             (if a > b then gt := 1 else gt := 0); \
             (if !(a <= b) then gtb := 1 else gtb := 0); \
             (if a >= b then ge := 1 else ge := 0); \
             (if (b <= a) then geb := 1 else geb := 0); \
             (if a != b then ne := 1 else ne := 0)",
            a, b
        );
        let state = run(&program).unwrap();
        assert_eq!(state.get("lt"), (a < b) as i32);
        assert_eq!(state.get("ltb"), (a < b) as i32);
        assert_eq!(state.get("gt"), (a > b) as i32);
        assert_eq!(state.get("gtb"), (a > b) as i32);
        assert_eq!(state.get("ge"), (a >= b) as i32);
        assert_eq!(state.get("geb"), (a >= b) as i32);
        assert_eq!(state.get("ne"), (a != b) as i32);
    }
}

#[test]
fn test_arithmetic() {
    let state = run("a := 2 + 3 * 4; b := 10 - 3 - 2; c := -a; d := (1 + 2) * (3 - 5)").unwrap();
    assert_eq!(state, state_of(&[("a", 14), ("b", 5), ("c", -14), ("d", -6)]));
}

#[test]
fn test_arithmetic_wraps_around() {
    let state = run("a := 2147483647 + 1; b := 0 - 2147483647 - 2; c := 65536 * 65536; d := 46341 * 46341").unwrap();
    assert_eq!(state.get("a"), -2147483648);
    assert_eq!(state.get("b"), 2147483647);
    assert_eq!(state.get("c"), 0);
    assert_eq!(state.get("d"), -2147479015);
}

#[test]
fn test_equality_of_booleans_and_and() {
    let state = run(
        "(if true = true & !(true = false) & 1 = 1 then a := 1 else a := 2); \
         (if true & false then b := 1 else b := 2)",
    )
    .unwrap();
    assert_eq!(state, state_of(&[("a", 1), ("b", 2)]));
}

#[test]
fn test_nested_loops() {
    let state = run(
        "i := 0; total := 0; \
         while i < 10 do ( j := 0; (while j < i do ( total := total + 1; j := j + 1 )); i := i + 1 )",
    )
    .unwrap();
    assert_eq!(state.get("total"), 45);
    assert_eq!(state.get("i"), 10);
    assert_eq!(state.get("j"), 9);
}

#[test]
fn test_gcd() {
    let state = run(
        "a := 1071; b := 462; \
         while a != b do \
           if a > b then a := a - b else b := b - a",
    )
    .unwrap();
    assert_eq!(state.get("a"), 21);
    assert_eq!(state.get("b"), 21);
}

#[test]
fn test_faults_have_their_messages() {
    assert_eq!(run("x := true").unwrap_err().0, "Bad RHS of Assign");
    assert_eq!(run("while 1 do skip").unwrap_err().0, "Bad conditional");
    assert_eq!(run("x := !1").unwrap_err().0, "Bad RHS of Assign");
    assert_eq!(run("if !1 then skip else skip").unwrap_err().0, "Cannot negate arithmetic");
    assert_eq!(
        run("if 1 = true then skip else skip").unwrap_err().0,
        "Cannot evaluate Arith = Bool"
    );
    assert_eq!(
        run("if true = 1 then skip else skip").unwrap_err().0,
        "Cannot evaluate Bool = Arith"
    );
    assert_eq!(
        run("if true <= 1 then skip else skip").unwrap_err().0,
        "LHS is not arithmetic"
    );
    assert_eq!(
        run("if 1 <= true then skip else skip").unwrap_err().0,
        "RHS is not arithmetic"
    );
    assert_eq!(
        run("if 1 & true then skip else skip").unwrap_err().0,
        "LHS is not boolean"
    );
    assert_eq!(
        run("if true & 1 then skip else skip").unwrap_err().0,
        "RHS is not boolean"
    );
    assert_eq!(
        run("if (true + 1) = 1 then skip else skip").unwrap_err().0,
        "Unexpected error"
    );
    assert_eq!(
        run("if 1 <= 2 * true then skip else skip").unwrap_err().0,
        "RHS is not arithmetic"
    );
}

#[test]
fn test_faults_of_trees_that_no_source_gives() {
    assert_eq!(
        message_of(Ast::If {
            cond: boxed(Ast::Skip),
            true_path: boxed(Ast::Skip),
            false_path: boxed(Ast::Skip)
        }),
        "Statement conditional not allowed"
    );
    assert_eq!(
        message_of(Ast::Not {
            expr: boxed(Ast::Skip)
        }),
        "Bool did not evaluate correctly"
    );
    assert_eq!(
        message_of(Ast::Eq {
            left: boxed(Ast::Skip),
            right: boxed(Ast::Literal(1))
        }),
        "Unexpected error"
    );
    assert_eq!(
        message_of(Ast::DefinitionRun {
            ident: "f".to_string()
        }),
        "Undefined definition"
    );
    assert_eq!(
        message_of(Ast::Add {
            left: boxed(Ast::True),
            right: boxed(Ast::Literal(1))
        }),
        "LHS is not arithmetic"
    );
    assert_eq!(
        message_of(Ast::Mul {
            left: boxed(Ast::Literal(1)),
            right: boxed(Ast::True)
        }),
        "RHS is not arithmetic"
    );
}

#[test]
fn test_every_fault_has_a_message() {
    for (fault, message) in [
        (Fault::BadAssignment, "Bad RHS of Assign"),
        (Fault::UndefinedDefinition, "Undefined definition"),
        (Fault::ArithmeticCondition, "Arithmetic conditional not allowed"),
        (Fault::StatementCondition, "Statement conditional not allowed"),
        (Fault::BadLoopCondition, "Bad conditional"),
        (Fault::NegatedArithmetic, "Cannot negate arithmetic"),
        (Fault::NegatedMalformed, "Bool did not evaluate correctly"),
        (Fault::ArithmeticEqualsBoolean, "Cannot evaluate Arith = Bool"),
        (Fault::BooleanEqualsArithmetic, "Cannot evaluate Bool = Arith"),
        (Fault::MalformedEquality, "Unexpected error"),
        (Fault::LeftNotArithmetic, "LHS is not arithmetic"),
        (Fault::RightNotArithmetic, "RHS is not arithmetic"),
        (Fault::LeftNotBoolean, "LHS is not boolean"),
        (Fault::RightNotBoolean, "RHS is not boolean"),
        (Fault::Exhausted, "Evaluation budget exhausted"),
    ] {
        assert_eq!(fault.message(), message);
        assert_eq!(InterpretError::from_fault(fault).0, message);
    }
}

#[test]
fn test_failure_in_the_first_statement_stops_the_second() {
    let error = run("x := true; while true do skip").unwrap_err();
    assert_eq!(error.0, "Bad RHS of Assign");
}

#[test]
fn test_budget_bounds_the_loops() {
    let source = "x := 0; while x < 10 do x := x + 1";
    let tokens = tokenize(source).unwrap();
    let ast = Parser::new(source, tokens).parse().unwrap();
    // Ten repetitions need a budget of ten.
    let error = Interpreter::new(ast.clone()).interpret_within(9).unwrap_err();
    assert_eq!(error.0, "Evaluation budget exhausted");
    let state = Interpreter::new(ast.clone()).interpret_within(10).unwrap();
    assert_eq!(state.get("x"), 10);
    // A larger budget gives the same.
    let more = Interpreter::new(ast).interpret_within(1000).unwrap();
    assert_eq!(more, state);
}

#[test]
fn test_endless_loop_exhausts_the_budget() {
    let source = "while true do x := x + 1";
    let tokens = tokenize(source).unwrap();
    let ast = Parser::new(source, tokens).parse().unwrap();
    let error = Interpreter::new(ast).interpret_within(1000).unwrap_err();
    assert_eq!(error.0, "Evaluation budget exhausted");
}

#[test]
fn test_statement_on_the_right_of_an_assignment_is_a_definition() {
    // bump := (x := x + 1); bump; bump
    let bump = assign(
        "x",
        Ast::Add {
            left: boxed(Ast::Ident("x".to_string())),
            right: boxed(Ast::Literal(1)),
        },
    );
    let program = Ast::Comp {
        first: boxed(Ast::Comp {
            first: boxed(assign("bump", bump)),
            second: boxed(Ast::DefinitionRun {
                ident: "bump".to_string(),
            }),
        }),
        second: boxed(Ast::DefinitionRun {
            ident: "bump".to_string(),
        }),
    };
    let state = Interpreter::new(program).interpret().unwrap();
    // The definition is no variable: only `x` is bound.
    assert_eq!(state, state_of(&[("x", 2)]));
}

#[test]
fn test_definition_that_runs_itself_exhausts_the_budget() {
    let program = Ast::Comp {
        first: boxed(assign(
            "f",
            Ast::DefinitionRun {
                ident: "f".to_string(),
            },
        )),
        second: boxed(Ast::DefinitionRun {
            ident: "f".to_string(),
        }),
    };
    let error = Interpreter::new(program).interpret_within(50).unwrap_err();
    assert_eq!(error.0, "Evaluation budget exhausted");
}

#[test]
fn test_interpreting_again_goes_on_from_the_context() {
    let source = "x := x + 1";
    let tokens = tokenize(source).unwrap();
    let ast = Parser::new(source, tokens).parse().unwrap();
    let mut interpreter = Interpreter::new(ast);
    assert_eq!(interpreter.interpret().unwrap().get("x"), 1);
    assert_eq!(interpreter.interpret().unwrap().get("x"), 2);
}

#[test]
fn test_context_holds_variables_and_definitions() {
    let mut context = Context::new();
    assert_eq!(context.get_variable("x"), 0);
    assert!(context.get_definition("f").is_none());
    context.set_variable("x".to_string(), 7);
    context.add_definition("f".to_string(), Ast::Skip);
    context.add_definition("g".to_string(), Ast::True);
    context.add_definition("f".to_string(), Ast::False);
    assert_eq!(context.get_variable("x"), 7);
    assert_eq!(context.get_variable("f"), 0);
    assert_eq!(context.get_definition("f"), Some(&Ast::False));
    assert_eq!(context.get_definition("g"), Some(&Ast::True));
    assert!(context.get_definition("x").is_none());
    assert_eq!(context.state().get("x"), 7);
}

#[test]
fn test_is_statement() {
    assert!(Ast::Skip.is_statement());
    assert!(assign("x", Ast::Literal(1)).is_statement());
    assert!(Ast::DefinitionRun { ident: "f".to_string() }.is_statement());
    assert!(!Ast::True.is_statement());
    assert!(!Ast::Literal(1).is_statement());
    assert!(!Ast::Ident("x".to_string()).is_statement());
    assert_eq!(Value::Integer(1), Value::Integer(1));
    assert_ne!(Value::Boolean(true), Value::Unit);
}
