//! The tree-walking interpreter.
//!
//! The meaning of a program is given by [`eval`], a function from a tree, a
//! context and a budget to a result and the context it leaves behind. The
//! budget bounds how many times loops may repeat and definitions may be
//! run, so that every evaluation ends; a program that needs more than the
//! budget stops with [`Fault::Exhausted`].
pub mod context;
pub mod interpret_error;
pub mod state;

use vstd::prelude::*;
use crate::ast::{Ast, AstView, Value};
use crate::interpreter::context::{Context, ContextView};
use crate::interpreter::interpret_error::{Fault, InterpretError};
use crate::interpreter::state::{lookup, sorted_listing, State};

verus! {

/// What an evaluation yields, and the context it leaves behind. The effects
/// of an evaluation that fails stay in the context.
pub struct Outcome {
    pub result: Result<Value, Fault>,
    pub context: ContextView,
}

/// The result of a step that depends on an operand: an exhausted budget is
/// passed on, any other failure of the operand becomes the given fault.
pub open spec fn operand_fault(operand: Result<Value, Fault>, fault: Fault) -> Fault {
    if operand == Err::<Value, Fault>(Fault::Exhausted) {
        Fault::Exhausted
    } else {
        fault
    }
}

/// The negation of an evaluated operand.
pub open spec fn negate(operand: Result<Value, Fault>) -> Result<Value, Fault> {
    match operand {
        Ok(Value::Boolean(b)) => Ok(Value::Boolean(!b)),
        Ok(Value::Integer(_)) => Err(Fault::NegatedArithmetic),
        _ => Err(operand_fault(operand, Fault::NegatedMalformed)),
    }
}

/// The equality of two evaluated operands: both integers or both booleans.
pub open spec fn equate(left: Result<Value, Fault>, right: Result<Value, Fault>) -> Result<
    Value,
    Fault,
> {
    match (left, right) {
        (Ok(Value::Integer(l)), Ok(Value::Integer(r))) => Ok(Value::Boolean(l == r)),
        (Ok(Value::Boolean(l)), Ok(Value::Boolean(r))) => Ok(Value::Boolean(l == r)),
        (Ok(Value::Integer(_)), Ok(Value::Boolean(_))) => Err(Fault::ArithmeticEqualsBoolean),
        (Ok(Value::Boolean(_)), Ok(Value::Integer(_))) => Err(Fault::BooleanEqualsArithmetic),
        _ => Err(
            if left == Err::<Value, Fault>(Fault::Exhausted) {
                Fault::Exhausted
            } else {
                operand_fault(right, Fault::MalformedEquality)
            },
        ),
    }
}

/// The binary operators whose operands are evaluated one after the other,
/// the right one only when the left one has the type the operator asks for.
#[derive(Copy, Clone, Debug, PartialEq, Eq, Structural)]
pub enum Operator {
    LessEq,
    And,
    Add,
    Sub,
    Mul,
}

impl Operator {
    /// Whether the operator takes the value as an operand.
    pub open spec fn accepts(self, value: Value) -> bool {
        match self {
            Operator::And => value is Boolean,
            _ => value is Integer,
        }
    }

    /// The fault of a left operand that the operator does not take.
    pub open spec fn left_fault(self) -> Fault {
        match self {
            Operator::And => Fault::LeftNotBoolean,
            _ => Fault::LeftNotArithmetic,
        }
    }

    /// The fault of a right operand that the operator does not take.
    pub open spec fn right_fault(self) -> Fault {
        match self {
            Operator::And => Fault::RightNotBoolean,
            _ => Fault::RightNotArithmetic,
        }
    }

    /// The operator applied to two operands that it takes. Arithmetic wraps
    /// around at the limits of 32-bit integers.
    pub open spec fn apply(self, left: Value, right: Value) -> Value {
        match (self, left, right) {
            (Operator::LessEq, Value::Integer(l), Value::Integer(r)) => Value::Boolean(l <= r),
            (Operator::And, Value::Boolean(l), Value::Boolean(r)) => Value::Boolean(l && r),
            (Operator::Add, Value::Integer(l), Value::Integer(r)) => Value::Integer(
                l.wrapping_add(r),
            ),
            (Operator::Sub, Value::Integer(l), Value::Integer(r)) => Value::Integer(
                l.wrapping_sub(r),
            ),
            (Operator::Mul, Value::Integer(l), Value::Integer(r)) => Value::Integer(
                l.wrapping_mul(r),
            ),
            _ => Value::Unit,
        }
    }
}

impl Operator {
    /// Checks an evaluated left operand: the operand, or the fault it gives.
    fn left_operand(self, left: Result<Value, Fault>) -> (checked: Result<Value, Fault>)
        ensures
            checked == match left {
                Ok(x) if self.accepts(x) => Ok::<Value, Fault>(x),
                _ => Err(operand_fault(left, self.left_fault())),
            },
    {
        match (self, left) {
            (Operator::And, Ok(Value::Boolean(b))) => Ok(Value::Boolean(b)),
            (Operator::And, Err(Fault::Exhausted)) => Err(Fault::Exhausted),
            (Operator::And, _) => Err(Fault::LeftNotBoolean),
            (_, Ok(Value::Integer(n))) => Ok(Value::Integer(n)),
            (_, Err(Fault::Exhausted)) => Err(Fault::Exhausted),
            _ => Err(Fault::LeftNotArithmetic),
        }
    }

    /// Applies the operator to a checked left operand and an evaluated right
    /// operand.
    fn right_operand(self, x: Value, right: Result<Value, Fault>) -> (result: Result<
        Value,
        Fault,
    >)
        requires
            self.accepts(x),
        ensures
            result == match right {
                Ok(y) if self.accepts(y) => Ok::<Value, Fault>(self.apply(x, y)),
                _ => Err(operand_fault(right, self.right_fault())),
            },
    {
        match (self, x, right) {
            (Operator::And, Value::Boolean(l), Ok(Value::Boolean(r))) => Ok(Value::Boolean(l && r)),
            (Operator::And, _, Err(Fault::Exhausted)) => Err(Fault::Exhausted),
            (Operator::And, _, _) => Err(Fault::RightNotBoolean),
            (Operator::LessEq, Value::Integer(l), Ok(Value::Integer(r))) => Ok(
                Value::Boolean(l <= r),
            ),
            (Operator::Add, Value::Integer(l), Ok(Value::Integer(r))) => Ok(
                Value::Integer(l.wrapping_add(r)),
            ),
            (Operator::Sub, Value::Integer(l), Ok(Value::Integer(r))) => Ok(
                Value::Integer(l.wrapping_sub(r)),
            ),
            (Operator::Mul, Value::Integer(l), Ok(Value::Integer(r))) => Ok(
                Value::Integer(l.wrapping_mul(r)),
            ),
            (_, _, Err(Fault::Exhausted)) => Err(Fault::Exhausted),
            _ => Err(Fault::RightNotArithmetic),
        }
    }
}

/// The meaning of a binary operator, given what its operands yield: the
/// right operand counts only when the left one has the type the operator
/// asks for.
pub open spec fn combine(operator: Operator, left: Outcome, right: Outcome) -> Outcome {
    match left.result {
        Ok(x) if operator.accepts(x) => match right.result {
            Ok(y) if operator.accepts(y) => Outcome {
                result: Ok(operator.apply(x, y)),
                context: right.context,
            },
            _ => Outcome {
                result: Err(operand_fault(right.result, operator.right_fault())),
                context: right.context,
            },
        },
        _ => Outcome {
            result: Err(operand_fault(left.result, operator.left_fault())),
            context: left.context,
        },
    }
}

/// The meaning of a tree: what it yields in a context, and the context it
/// leaves behind.
///
/// `fuel` is the budget: each repetition of a loop and each run of a
/// definition takes one unit, and where none is left the evaluation ends
/// with [`Fault::Exhausted`].
pub open spec fn eval(ast: AstView, context: ContextView, fuel: nat) -> Outcome
    decreases fuel, ast,
{
    match ast {
        AstView::True => Outcome { result: Ok(Value::Boolean(true)), context },
        AstView::False => Outcome { result: Ok(Value::Boolean(false)), context },
        AstView::Literal(n) => Outcome { result: Ok(Value::Integer(n)), context },
        AstView::Ident(name) => Outcome {
            result: Ok(Value::Integer(lookup(context.state, name))),
            context,
        },
        AstView::Not { expr } => {
            let inner = eval(*expr, context, fuel);
            Outcome { result: negate(inner.result), context: inner.context }
        },
        AstView::Eq { left, right } => {
            let l = eval(*left, context, fuel);
            if l.result == Err::<Value, Fault>(Fault::Exhausted) {
                l
            } else {
                let r = eval(*right, l.context, fuel);
                Outcome { result: equate(l.result, r.result), context: r.context }
            }
        },
        AstView::LessEq { left, right } => {
            let l = eval(*left, context, fuel);
            combine(Operator::LessEq, l, eval(*right, l.context, fuel))
        },
        AstView::And { left, right } => {
            let l = eval(*left, context, fuel);
            combine(Operator::And, l, eval(*right, l.context, fuel))
        },
        AstView::Add { left, right } => {
            let l = eval(*left, context, fuel);
            combine(Operator::Add, l, eval(*right, l.context, fuel))
        },
        AstView::Sub { left, right } => {
            let l = eval(*left, context, fuel);
            combine(Operator::Sub, l, eval(*right, l.context, fuel))
        },
        AstView::Mul { left, right } => {
            let l = eval(*left, context, fuel);
            combine(Operator::Mul, l, eval(*right, l.context, fuel))
        },
        AstView::Ass { ident, value } => {
            if value.is_statement() {
                Outcome { result: Ok(Value::Unit), context: context.define(ident, *value) }
            } else {
                let v = eval(*value, context, fuel);
                match v.result {
                    Ok(Value::Integer(n)) => Outcome {
                        result: Ok(Value::Unit),
                        context: v.context.assign(ident, n),
                    },
                    _ => Outcome {
                        result: Err(operand_fault(v.result, Fault::BadAssignment)),
                        context: v.context,
                    },
                }
            }
        },
        AstView::DefinitionRun { ident } => {
            if !context.definitions.contains_key(ident) {
                Outcome { result: Err(Fault::UndefinedDefinition), context }
            } else if fuel == 0 {
                Outcome { result: Err(Fault::Exhausted), context }
            } else {
                eval(context.definitions[ident], context, (fuel - 1) as nat)
            }
        },
        AstView::Skip => Outcome { result: Ok(Value::Unit), context },
        AstView::Comp { first, second } => {
            let a = eval(*first, context, fuel);
            if a.result is Err {
                a
            } else {
                let b = eval(*second, a.context, fuel);
                if b.result is Err {
                    b
                } else {
                    Outcome { result: Ok(Value::Unit), context: b.context }
                }
            }
        },
        AstView::If { cond, true_path, false_path } => {
            let c = eval(*cond, context, fuel);
            match c.result {
                Ok(Value::Boolean(true)) => eval(*true_path, c.context, fuel),
                Ok(Value::Boolean(false)) => eval(*false_path, c.context, fuel),
                Ok(Value::Integer(_)) => Outcome {
                    result: Err(Fault::ArithmeticCondition),
                    context: c.context,
                },
                Ok(Value::Unit) => Outcome {
                    result: Err(Fault::StatementCondition),
                    context: c.context,
                },
                Err(_) => c,
            }
        },
        AstView::While { cond, body } => {
            let c = eval(*cond, context, fuel);
            match c.result {
                Ok(Value::Boolean(true)) => {
                    let b = eval(*body, c.context, fuel);
                    if b.result is Err {
                        b
                    } else if fuel == 0 {
                        Outcome { result: Err(Fault::Exhausted), context: b.context }
                    } else {
                        eval(ast, b.context, (fuel - 1) as nat)
                    }
                },
                Ok(Value::Boolean(false)) => Outcome {
                    result: Ok(Value::Unit),
                    context: c.context,
                },
                Ok(_) => Outcome { result: Err(Fault::BadLoopCondition), context: c.context },
                Err(_) => c,
            }
        },
    }
}

/// Whether what a run returned is what the evaluation yields: the state
/// that the evaluation leaves behind where it yields a value, with its
/// bindings in the order of their names, and the message of its fault
/// where it yields none.
pub open spec fn reports(result: Result<State, InterpretError>, outcome: Outcome) -> bool {
    match result {
        Ok(state) => outcome.result is Ok && state@ == outcome.context.state && sorted_listing(
            state.listing(),
        ),
        Err(error) => outcome.result is Err && error.0@ == outcome.result->Err_0.text(),
    }
}

/// A tree-walking interpreter. It owns the program and the context that
/// the program runs in, and never changes the program.
pub struct Interpreter {
    context: Context,
    ast: Ast,
}

impl Interpreter {
    /// The program.
    pub closed spec fn program(&self) -> AstView {
        self.ast@
    }

    /// The context that the program has left behind so far.
    pub closed spec fn context(&self) -> ContextView {
        self.context@
    }

    /// Creates an interpreter for a program, with an empty context.
    pub fn new(ast: Ast) -> (interpreter: Interpreter)
        ensures
            interpreter.program() == ast@,
            interpreter.context() == ContextView::empty(),
    {
        Interpreter { context: Context::new(), ast }
    }

    /// Runs the program with the largest budget there is, and returns the
    /// state that it leaves behind, or the message of the fault that stopped
    /// it. What the program has done to the context stays, also where it
    /// fails.
    ///
    /// A program whose loops repeat more often than the budget allows stops
    /// with the fault of an exhausted budget; within the budget a program
    /// runs as long as its loops ask for.
    pub fn interpret(&mut self) -> (result: Result<State, InterpretError>)
        ensures
            final(self).program() == old(self).program(),
            final(self).context() == eval(
                old(self).program(),
                old(self).context(),
                u64::MAX as nat,
            ).context,
            reports(result, eval(old(self).program(), old(self).context(), u64::MAX as nat)),
    {
        self.interpret_within(u64::MAX)
    }

    /// Runs the program with the given budget, and returns the state that
    /// it leaves behind, or the message of the fault that stopped it. What
    /// the program has done to the context stays, also where it fails.
    pub fn interpret_within(&mut self, fuel: u64) -> (result: Result<State, InterpretError>)
        ensures
            final(self).program() == old(self).program(),
            final(self).context() == eval(
                old(self).program(),
                old(self).context(),
                fuel as nat,
            ).context,
            reports(result, eval(old(self).program(), old(self).context(), fuel as nat)),
    {
        match Self::interpret_ast(&mut self.context, &self.ast, fuel) {
            Ok(_) => Ok(self.context.state().clone()),
            Err(fault) => Err(InterpretError::from_fault(fault)),
        }
    }

    /// Evaluates a tree in a context.
    fn interpret_ast(context: &mut Context, ast: &Ast, fuel: u64) -> (result: Result<Value, Fault>)
        ensures
            result == eval(ast@, old(context)@, fuel as nat).result,
            final(context)@ == eval(ast@, old(context)@, fuel as nat).context,
        decreases fuel, ast,
    {
        match ast {
            Ast::True => Ok(Value::Boolean(true)),
            Ast::False => Ok(Value::Boolean(false)),
            Ast::Literal(n) => Ok(Value::Integer(*n)),
            Ast::Ident(name) => Ok(Value::Integer(context.get_variable(name.as_str()))),
            Ast::Not { expr } => {
                match Self::interpret_ast(context, expr, fuel) {
                    Ok(Value::Boolean(b)) => Ok(Value::Boolean(!b)),
                    Ok(Value::Integer(_)) => Err(Fault::NegatedArithmetic),
                    Err(Fault::Exhausted) => Err(Fault::Exhausted),
                    _ => Err(Fault::NegatedMalformed),
                }
            },
            Ast::Eq { left, right } => {
                let l = Self::interpret_ast(context, left, fuel);
                if let Err(Fault::Exhausted) = l {
                    return l;
                }
                let r = Self::interpret_ast(context, right, fuel);
                match (l, r) {
                    (Ok(Value::Integer(x)), Ok(Value::Integer(y))) => Ok(Value::Boolean(x == y)),
                    (Ok(Value::Boolean(x)), Ok(Value::Boolean(y))) => Ok(Value::Boolean(x == y)),
                    (Ok(Value::Integer(_)), Ok(Value::Boolean(_))) => Err(
                        Fault::ArithmeticEqualsBoolean,
                    ),
                    (Ok(Value::Boolean(_)), Ok(Value::Integer(_))) => Err(
                        Fault::BooleanEqualsArithmetic,
                    ),
                    (_, Err(Fault::Exhausted)) => Err(Fault::Exhausted),
                    _ => Err(Fault::MalformedEquality),
                }
            },
            Ast::LessEq { left, right } => {
                let l = Self::interpret_ast(context, left, fuel);
                let x = Operator::LessEq.left_operand(l)?;
                let r = Self::interpret_ast(context, right, fuel);
                Operator::LessEq.right_operand(x, r)
            },
            Ast::And { left, right } => {
                let l = Self::interpret_ast(context, left, fuel);
                let x = Operator::And.left_operand(l)?;
                let r = Self::interpret_ast(context, right, fuel);
                Operator::And.right_operand(x, r)
            },
            Ast::Add { left, right } => {
                let l = Self::interpret_ast(context, left, fuel);
                let x = Operator::Add.left_operand(l)?;
                let r = Self::interpret_ast(context, right, fuel);
                Operator::Add.right_operand(x, r)
            },
            Ast::Sub { left, right } => {
                let l = Self::interpret_ast(context, left, fuel);
                let x = Operator::Sub.left_operand(l)?;
                let r = Self::interpret_ast(context, right, fuel);
                Operator::Sub.right_operand(x, r)
            },
            Ast::Mul { left, right } => {
                let l = Self::interpret_ast(context, left, fuel);
                let x = Operator::Mul.left_operand(l)?;
                let r = Self::interpret_ast(context, right, fuel);
                Operator::Mul.right_operand(x, r)
            },
            Ast::Ass { ident, value } => {
                if value.is_statement() {
                    context.add_definition(ident.clone(), (**value).clone());
                    Ok(Value::Unit)
                } else {
                    match Self::interpret_ast(context, value, fuel) {
                        Ok(Value::Integer(n)) => {
                            context.set_variable(ident.clone(), n);
                            Ok(Value::Unit)
                        },
                        Err(Fault::Exhausted) => Err(Fault::Exhausted),
                        _ => Err(Fault::BadAssignment),
                    }
                }
            },
            Ast::DefinitionRun { ident } => {
                let body = match context.get_definition(ident.as_str()) {
                    Some(body) => body.clone(),
                    None => {
                        return Err(Fault::UndefinedDefinition);
                    },
                };
                if fuel == 0 {
                    return Err(Fault::Exhausted);
                }
                Self::interpret_ast(context, &body, fuel - 1)
            },
            Ast::Skip => Ok(Value::Unit),
            Ast::Comp { first, second } => {
                Self::interpret_ast(context, first, fuel)?;
                Self::interpret_ast(context, second, fuel)?;
                Ok(Value::Unit)
            },
            Ast::If { cond, true_path, false_path } => {
                match Self::interpret_ast(context, cond, fuel)? {
                    Value::Boolean(true) => Self::interpret_ast(context, true_path, fuel),
                    Value::Boolean(false) => Self::interpret_ast(context, false_path, fuel),
                    Value::Integer(_) => Err(Fault::ArithmeticCondition),
                    Value::Unit => Err(Fault::StatementCondition),
                }
            },
            Ast::While { cond, body } => {
                let mut budget: u64 = fuel;
                loop
                    invariant
                        budget <= fuel,
                        *ast == (Ast::While { cond: *cond, body: *body }),
                        eval(ast@, context@, budget as nat) == eval(
                            ast@,
                            old(context)@,
                            fuel as nat,
                        ),
                    decreases budget,
                {
                    match Self::interpret_ast(context, cond, budget)? {
                        Value::Boolean(true) => {
                            Self::interpret_ast(context, body, budget)?;
                            if budget == 0 {
                                return Err(Fault::Exhausted);
                            }
                            budget -= 1;
                        },
                        Value::Boolean(false) => {
                            return Ok(Value::Unit);
                        },
                        _ => {
                            return Err(Fault::BadLoopCondition);
                        },
                    }
                }
            },
        }
    }
}

/// Whether an expression yields an integer and leaves the context as it
/// was.
pub open spec fn yields_integer(ast: AstView, context: ContextView, fuel: nat, value: i32) -> bool {
    eval(ast, context, fuel) == (Outcome { result: Ok(Value::Integer(value)), context })
}

/// The comparisons that the tree has no node for mean what they say: over
/// operands that yield the integers `x` and `y`, the trees written for
/// `a < b`, `a > b`, `a >= b` and `a != b` yield `x < y`, `x > y`, `x >= y`
/// and `x != y`, and the tree written for `-a` yields `0 - x`.
pub proof fn lemma_written_comparisons(
    a: AstView,
    b: AstView,
    context: ContextView,
    fuel: nat,
    x: i32,
    y: i32,
)
    requires
        yields_integer(a, context, fuel, x),
        yields_integer(b, context, fuel, y),
    ensures
        eval(AstView::less_than(a, b), context, fuel) == (Outcome {
            result: Ok(Value::Boolean(x < y)),
            context,
        }),
        eval(AstView::greater_than(a, b), context, fuel) == (Outcome {
            result: Ok(Value::Boolean(x > y)),
            context,
        }),
        eval(AstView::greater_eq(a, b), context, fuel) == (Outcome {
            result: Ok(Value::Boolean(x >= y)),
            context,
        }),
        eval(AstView::not_equal(a, b), context, fuel) == (Outcome {
            result: Ok(Value::Boolean(x != y)),
            context,
        }),
        eval(AstView::negative(a), context, fuel) == (Outcome {
            result: Ok(Value::Integer(0i32.wrapping_sub(x))),
            context,
        }),
{
    reveal_with_fuel(eval, 3);
}

/// The budget decides only whether an evaluation ends: where it ends
/// within a budget, it ends the same within every larger one.
pub proof fn lemma_larger_budget(ast: AstView, context: ContextView, fuel: nat, more: nat)
    requires
        fuel <= more,
        eval(ast, context, fuel).result != Err::<Value, Fault>(Fault::Exhausted),
    ensures
        eval(ast, context, more) == eval(ast, context, fuel),
    decreases fuel, ast, 1nat,
{
    match ast {
        AstView::Not { expr } => {
            lemma_larger_budget(*expr, context, fuel, more);
        },
        AstView::Eq { left, right } => {
            lemma_larger_budget(*left, context, fuel, more);
            let l = eval(*left, context, fuel);
            lemma_larger_budget(*right, l.context, fuel, more);
        },
        AstView::LessEq { left, right } => {
            lemma_larger_budget_operands(ast, Operator::LessEq, *left, *right, context, fuel, more);
        },
        AstView::And { left, right } => {
            lemma_larger_budget_operands(ast, Operator::And, *left, *right, context, fuel, more);
        },
        AstView::Add { left, right } => {
            lemma_larger_budget_operands(ast, Operator::Add, *left, *right, context, fuel, more);
        },
        AstView::Sub { left, right } => {
            lemma_larger_budget_operands(ast, Operator::Sub, *left, *right, context, fuel, more);
        },
        AstView::Mul { left, right } => {
            lemma_larger_budget_operands(ast, Operator::Mul, *left, *right, context, fuel, more);
        },
        AstView::Ass { ident, value } => {
            if !value.is_statement() {
                lemma_larger_budget(*value, context, fuel, more);
            }
        },
        AstView::DefinitionRun { ident } => {
            if context.definitions.contains_key(ident) {
                lemma_larger_budget(
                    context.definitions[ident],
                    context,
                    (fuel - 1) as nat,
                    (more - 1) as nat,
                );
            }
        },
        AstView::Comp { first, second } => {
            lemma_larger_budget(*first, context, fuel, more);
            let a = eval(*first, context, fuel);
            if a.result is Ok {
                lemma_larger_budget(*second, a.context, fuel, more);
            }
        },
        AstView::If { cond, true_path, false_path } => {
            lemma_larger_budget(*cond, context, fuel, more);
            let c = eval(*cond, context, fuel);
            if c.result == Ok::<Value, Fault>(Value::Boolean(true)) {
                lemma_larger_budget(*true_path, c.context, fuel, more);
            } else if c.result == Ok::<Value, Fault>(Value::Boolean(false)) {
                lemma_larger_budget(*false_path, c.context, fuel, more);
            }
        },
        AstView::While { cond, body } => {
            lemma_larger_budget(*cond, context, fuel, more);
            let c = eval(*cond, context, fuel);
            if c.result == Ok::<Value, Fault>(Value::Boolean(true)) {
                lemma_larger_budget(*body, c.context, fuel, more);
                let b = eval(*body, c.context, fuel);
                if b.result is Ok {
                    lemma_larger_budget(ast, b.context, (fuel - 1) as nat, (more - 1) as nat);
                }
            }
        },
        _ => {},
    }
}

/// Whether a node is a binary operator node over the given operands.
pub open spec fn has_operands(ast: AstView, left: AstView, right: AstView) -> bool {
    match ast {
        AstView::LessEq { left: l, right: r }
        | AstView::And { left: l, right: r }
        | AstView::Add { left: l, right: r }
        | AstView::Sub { left: l, right: r }
        | AstView::Mul { left: l, right: r } => *l == left && *r == right,
        _ => false,
    }
}

/// The step of [`lemma_larger_budget`] for the operands of a binary
/// operator.
proof fn lemma_larger_budget_operands(
    ast: AstView,
    operator: Operator,
    left: AstView,
    right: AstView,
    context: ContextView,
    fuel: nat,
    more: nat,
)
    requires
        has_operands(ast, left, right),
        fuel <= more,
        combine(
            operator,
            eval(left, context, fuel),
            eval(right, eval(left, context, fuel).context, fuel),
        ).result != Err::<Value, Fault>(Fault::Exhausted),
    ensures
        eval(left, context, more) == eval(left, context, fuel),
        combine(
            operator,
            eval(left, context, more),
            eval(right, eval(left, context, more).context, more),
        ) == combine(
            operator,
            eval(left, context, fuel),
            eval(right, eval(left, context, fuel).context, fuel),
        ),
    decreases fuel, ast, 0nat,
{
    lemma_larger_budget(left, context, fuel, more);
    let l = eval(left, context, fuel);
    if l.result is Ok && operator.accepts(l.result->Ok_0) {
        lemma_larger_budget(right, l.context, fuel, more);
    }
}

} // verus!
