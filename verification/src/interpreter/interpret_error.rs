//! What can go wrong while a program runs.
use vstd::prelude::*;
use vstd::string::StringExecFns;

verus! {

/// The reason an evaluation stopped without a value.
#[derive(Copy, Clone, Debug, PartialEq, Eq, Structural)]
pub enum Fault {
    /// The right-hand side of an assignment did not yield an integer.
    BadAssignment,
    /// A definition was run under a name that holds none.
    UndefinedDefinition,
    /// The condition of an `if` yielded an integer.
    ArithmeticCondition,
    /// The condition of an `if` yielded no value.
    StatementCondition,
    /// The condition of a `while` did not yield a boolean.
    BadLoopCondition,
    /// The operand of a negation yielded an integer.
    NegatedArithmetic,
    /// The operand of a negation yielded no boolean.
    NegatedMalformed,
    /// An integer was compared for equality with a boolean.
    ArithmeticEqualsBoolean,
    /// A boolean was compared for equality with an integer.
    BooleanEqualsArithmetic,
    /// An operand of an equality yielded no value.
    MalformedEquality,
    /// The left operand of an arithmetic operator or `<=` is not an integer.
    LeftNotArithmetic,
    /// The right operand of an arithmetic operator or `<=` is not an integer.
    RightNotArithmetic,
    /// The left operand of `&` is not a boolean.
    LeftNotBoolean,
    /// The right operand of `&` is not a boolean.
    RightNotBoolean,
    /// The evaluation budget ran out.
    Exhausted,
}

impl Fault {
    /// The diagnostic message of a fault.
    pub open spec fn text(self) -> Seq<char> {
        match self {
            Fault::BadAssignment => "Bad RHS of Assign"@,
            Fault::UndefinedDefinition => "Undefined definition"@,
            Fault::ArithmeticCondition => "Arithmetic conditional not allowed"@,
            Fault::StatementCondition => "Statement conditional not allowed"@,
            Fault::BadLoopCondition => "Bad conditional"@,
            Fault::NegatedArithmetic => "Cannot negate arithmetic"@,
            Fault::NegatedMalformed => "Bool did not evaluate correctly"@,
            Fault::ArithmeticEqualsBoolean => "Cannot evaluate Arith = Bool"@,
            Fault::BooleanEqualsArithmetic => "Cannot evaluate Bool = Arith"@,
            Fault::MalformedEquality => "Unexpected error"@,
            Fault::LeftNotArithmetic => "LHS is not arithmetic"@,
            Fault::RightNotArithmetic => "RHS is not arithmetic"@,
            Fault::LeftNotBoolean => "LHS is not boolean"@,
            Fault::RightNotBoolean => "RHS is not boolean"@,
            Fault::Exhausted => "Evaluation budget exhausted"@,
        }
    }

    /// The diagnostic message of a fault.
    pub fn message(self) -> (message: &'static str)
        ensures
            message@ == self.text(),
    {
        match self {
            Fault::BadAssignment => "Bad RHS of Assign",
            Fault::UndefinedDefinition => "Undefined definition",
            Fault::ArithmeticCondition => "Arithmetic conditional not allowed",
            Fault::StatementCondition => "Statement conditional not allowed",
            Fault::BadLoopCondition => "Bad conditional",
            Fault::NegatedArithmetic => "Cannot negate arithmetic",
            Fault::NegatedMalformed => "Bool did not evaluate correctly",
            Fault::ArithmeticEqualsBoolean => "Cannot evaluate Arith = Bool",
            Fault::BooleanEqualsArithmetic => "Cannot evaluate Bool = Arith",
            Fault::MalformedEquality => "Unexpected error",
            Fault::LeftNotArithmetic => "LHS is not arithmetic",
            Fault::RightNotArithmetic => "RHS is not arithmetic",
            Fault::LeftNotBoolean => "LHS is not boolean",
            Fault::RightNotBoolean => "RHS is not boolean",
            Fault::Exhausted => "Evaluation budget exhausted",
        }
    }
}

/// An error of the interpreting stage: an undefined name, a value of the
/// wrong type, or an exhausted budget. It holds the diagnostic message.
#[derive(Debug)]
pub struct InterpretError(pub String);

impl InterpretError {
    /// The error that reports a fault.
    pub fn from_fault(fault: Fault) -> (error: InterpretError)
        ensures
            error.0@ == fault.text(),
    {
        InterpretError(String::from_str(fault.message()))
    }

    /// The message of the error.
    pub fn to_string(&self) -> (message: String)
        ensures
            message@ == self.0@,
    {
        self.0.clone()
    }
}

} // verus!
