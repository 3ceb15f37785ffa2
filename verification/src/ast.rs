//! The abstract syntax tree shared by the parser and the interpreter.
//!
//! The tree stores no behaviour: the grammar lives in the parser and the
//! meaning of each node in the interpreter.
use vstd::prelude::*;

verus! {

/// A node of the abstract syntax tree. Every compound node owns its children.
#[derive(Debug, PartialEq, Eq)]
pub enum Ast {
    // Literals and identifiers
    True,
    False,
    Literal(i32),
    Ident(String),
    // Comparison and equality
    Not { expr: Box<Ast> },
    Eq { left: Box<Ast>, right: Box<Ast> },
    LessEq { left: Box<Ast>, right: Box<Ast> },
    And { left: Box<Ast>, right: Box<Ast> },
    // Arithmetic
    Add { left: Box<Ast>, right: Box<Ast> },
    Sub { left: Box<Ast>, right: Box<Ast> },
    Mul { left: Box<Ast>, right: Box<Ast> },
    // Statements
    Comp { first: Box<Ast>, second: Box<Ast> },
    Ass { ident: String, value: Box<Ast> },
    Skip,
    If { cond: Box<Ast>, true_path: Box<Ast>, false_path: Box<Ast> },
    While { cond: Box<Ast>, body: Box<Ast> },
    DefinitionRun { ident: String },
}

/// The mathematical model of an [`Ast`]: the same tree with every name as a
/// sequence of characters.
pub enum AstView {
    True,
    False,
    Literal(i32),
    Ident(Seq<char>),
    Not { expr: Box<AstView> },
    Eq { left: Box<AstView>, right: Box<AstView> },
    LessEq { left: Box<AstView>, right: Box<AstView> },
    And { left: Box<AstView>, right: Box<AstView> },
    Add { left: Box<AstView>, right: Box<AstView> },
    Sub { left: Box<AstView>, right: Box<AstView> },
    Mul { left: Box<AstView>, right: Box<AstView> },
    Comp { first: Box<AstView>, second: Box<AstView> },
    Ass { ident: Seq<char>, value: Box<AstView> },
    Skip,
    If { cond: Box<AstView>, true_path: Box<AstView>, false_path: Box<AstView> },
    While { cond: Box<AstView>, body: Box<AstView> },
    DefinitionRun { ident: Seq<char> },
}

impl AstView {
    /// `left != right`, written with the nodes that the tree has.
    pub open spec fn not_equal(left: AstView, right: AstView) -> AstView {
        AstView::Not { expr: Box::new(AstView::Eq { left: Box::new(left), right: Box::new(right) }) }
    }

    /// `left < right`, written with the nodes that the tree has.
    pub open spec fn less_than(left: AstView, right: AstView) -> AstView {
        AstView::Not {
            expr: Box::new(AstView::LessEq { left: Box::new(right), right: Box::new(left) }),
        }
    }

    /// `left >= right`, written with the nodes that the tree has.
    pub open spec fn greater_eq(left: AstView, right: AstView) -> AstView {
        AstView::LessEq { left: Box::new(right), right: Box::new(left) }
    }

    /// `left > right`, written with the nodes that the tree has.
    pub open spec fn greater_than(left: AstView, right: AstView) -> AstView {
        AstView::Not {
            expr: Box::new(AstView::LessEq { left: Box::new(left), right: Box::new(right) }),
        }
    }

    /// `-operand`, written with the nodes that the tree has.
    pub open spec fn negative(operand: AstView) -> AstView {
        AstView::Sub { left: Box::new(AstView::Literal(0)), right: Box::new(operand) }
    }

    /// Whether the node is a statement form rather than an expression.
    pub open spec fn is_statement(self) -> bool {
        self is Comp || self is Ass || self is Skip || self is If || self is While
            || self is DefinitionRun
    }
}

impl Ast {
    /// The model of the tree.
    pub open spec fn model(self) -> AstView
        decreases self,
    {
        match self {
            Ast::True => AstView::True,
            Ast::False => AstView::False,
            Ast::Literal(n) => AstView::Literal(n),
            Ast::Ident(name) => AstView::Ident(name@),
            Ast::Not { expr } => AstView::Not { expr: Box::new(expr.model()) },
            Ast::Eq { left, right } => AstView::Eq {
                left: Box::new(left.model()),
                right: Box::new(right.model()),
            },
            Ast::LessEq { left, right } => AstView::LessEq {
                left: Box::new(left.model()),
                right: Box::new(right.model()),
            },
            Ast::And { left, right } => AstView::And {
                left: Box::new(left.model()),
                right: Box::new(right.model()),
            },
            Ast::Add { left, right } => AstView::Add {
                left: Box::new(left.model()),
                right: Box::new(right.model()),
            },
            Ast::Sub { left, right } => AstView::Sub {
                left: Box::new(left.model()),
                right: Box::new(right.model()),
            },
            Ast::Mul { left, right } => AstView::Mul {
                left: Box::new(left.model()),
                right: Box::new(right.model()),
            },
            Ast::Comp { first, second } => AstView::Comp {
                first: Box::new(first.model()),
                second: Box::new(second.model()),
            },
            Ast::Ass { ident, value } => AstView::Ass {
                ident: ident@,
                value: Box::new(value.model()),
            },
            Ast::Skip => AstView::Skip,
            Ast::If { cond, true_path, false_path } => AstView::If {
                cond: Box::new(cond.model()),
                true_path: Box::new(true_path.model()),
                false_path: Box::new(false_path.model()),
            },
            Ast::While { cond, body } => AstView::While {
                cond: Box::new(cond.model()),
                body: Box::new(body.model()),
            },
            Ast::DefinitionRun { ident } => AstView::DefinitionRun { ident: ident@ },
        }
    }
}

impl View for Ast {
    type V = AstView;

    open spec fn view(&self) -> AstView {
        self.model()
    }
}

impl Clone for Ast {
    /// Copies the whole tree.
    fn clone(&self) -> (copy: Ast)
        ensures
            copy@ == self@,
        decreases self,
    {
        match self {
            Ast::True => Ast::True,
            Ast::False => Ast::False,
            Ast::Literal(n) => Ast::Literal(*n),
            Ast::Ident(name) => Ast::Ident(name.clone()),
            Ast::Not { expr } => Ast::Not { expr: Box::new((**expr).clone()) },
            Ast::Eq { left, right } => Ast::Eq {
                left: Box::new((**left).clone()),
                right: Box::new((**right).clone()),
            },
            Ast::LessEq { left, right } => Ast::LessEq {
                left: Box::new((**left).clone()),
                right: Box::new((**right).clone()),
            },
            Ast::And { left, right } => Ast::And {
                left: Box::new((**left).clone()),
                right: Box::new((**right).clone()),
            },
            Ast::Add { left, right } => Ast::Add {
                left: Box::new((**left).clone()),
                right: Box::new((**right).clone()),
            },
            Ast::Sub { left, right } => Ast::Sub {
                left: Box::new((**left).clone()),
                right: Box::new((**right).clone()),
            },
            Ast::Mul { left, right } => Ast::Mul {
                left: Box::new((**left).clone()),
                right: Box::new((**right).clone()),
            },
            Ast::Comp { first, second } => Ast::Comp {
                first: Box::new((**first).clone()),
                second: Box::new((**second).clone()),
            },
            Ast::Ass { ident, value } => Ast::Ass {
                ident: ident.clone(),
                value: Box::new((**value).clone()),
            },
            Ast::Skip => Ast::Skip,
            Ast::If { cond, true_path, false_path } => Ast::If {
                cond: Box::new((**cond).clone()),
                true_path: Box::new((**true_path).clone()),
                false_path: Box::new((**false_path).clone()),
            },
            Ast::While { cond, body } => Ast::While {
                cond: Box::new((**cond).clone()),
                body: Box::new((**body).clone()),
            },
            Ast::DefinitionRun { ident } => Ast::DefinitionRun { ident: ident.clone() },
        }
    }
}

impl Ast {
    /// Whether the node is a statement form rather than an expression.
    pub fn is_statement(&self) -> (b: bool)
        ensures
            b == self@.is_statement(),
    {
        match self {
            Ast::Comp { .. } | Ast::Ass { .. } | Ast::Skip | Ast::If { .. } | Ast::While { .. }
            | Ast::DefinitionRun { .. } => true,
            _ => false,
        }
    }
}

/// The binary nodes of the tree.
#[derive(Copy, Clone, Debug, PartialEq, Eq, Structural)]
pub enum Binary {
    Eq,
    LessEq,
    And,
    Add,
    Sub,
    Mul,
}

impl Binary {
    /// The node of this kind over two operands.
    pub open spec fn node(self, left: AstView, right: AstView) -> AstView {
        match self {
            Binary::Eq => AstView::Eq { left: Box::new(left), right: Box::new(right) },
            Binary::LessEq => AstView::LessEq { left: Box::new(left), right: Box::new(right) },
            Binary::And => AstView::And { left: Box::new(left), right: Box::new(right) },
            Binary::Add => AstView::Add { left: Box::new(left), right: Box::new(right) },
            Binary::Sub => AstView::Sub { left: Box::new(left), right: Box::new(right) },
            Binary::Mul => AstView::Mul { left: Box::new(left), right: Box::new(right) },
        }
    }
}

/// Builds a binary node of the given kind.
pub fn binary_node(kind: Binary, left: Ast, right: Ast) -> (node: Ast)
    ensures
        node@ == kind.node(left@, right@),
{
    let left = Box::new(left);
    let right = Box::new(right);
    match kind {
        Binary::Eq => Ast::Eq { left, right },
        Binary::LessEq => Ast::LessEq { left, right },
        Binary::And => Ast::And { left, right },
        Binary::Add => Ast::Add { left, right },
        Binary::Sub => Ast::Sub { left, right },
        Binary::Mul => Ast::Mul { left, right },
    }
}

/// Builds `left + right`.
pub fn plus(left: Ast, right: Ast) -> (node: Ast)
    ensures
        node@ == Binary::Add.node(left@, right@),
{
    binary_node(Binary::Add, left, right)
}

/// Builds `left - right`.
pub fn minus(left: Ast, right: Ast) -> (node: Ast)
    ensures
        node@ == Binary::Sub.node(left@, right@),
{
    binary_node(Binary::Sub, left, right)
}

/// Builds `left * right`.
pub fn times(left: Ast, right: Ast) -> (node: Ast)
    ensures
        node@ == Binary::Mul.node(left@, right@),
{
    binary_node(Binary::Mul, left, right)
}

/// Builds `left <= right`.
pub fn less_eq(left: Ast, right: Ast) -> (node: Ast)
    ensures
        node@ == Binary::LessEq.node(left@, right@),
{
    binary_node(Binary::LessEq, left, right)
}

/// Builds `left = right`.
pub fn equals(left: Ast, right: Ast) -> (node: Ast)
    ensures
        node@ == Binary::Eq.node(left@, right@),
{
    binary_node(Binary::Eq, left, right)
}

/// Builds `left & right`.
pub fn and(left: Ast, right: Ast) -> (node: Ast)
    ensures
        node@ == Binary::And.node(left@, right@),
{
    binary_node(Binary::And, left, right)
}

/// Builds `!expr`.
pub fn not(expr: Ast) -> (node: Ast)
    ensures
        node@ == (AstView::Not { expr: Box::new(expr@) }),
{
    Ast::Not { expr: Box::new(expr) }
}

/// Builds the assignment `ident := value`.
pub fn ass_stmt(ident: String, value: Ast) -> (node: Ast)
    ensures
        node@ == (AstView::Ass { ident: ident@, value: Box::new(value@) }),
{
    Ast::Ass { ident, value: Box::new(value) }
}

/// Builds `if cond then true_path else false_path`.
pub fn if_stmt(cond: Ast, true_path: Ast, false_path: Ast) -> (node: Ast)
    ensures
        node@ == (AstView::If {
            cond: Box::new(cond@),
            true_path: Box::new(true_path@),
            false_path: Box::new(false_path@),
        }),
{
    Ast::If {
        cond: Box::new(cond),
        true_path: Box::new(true_path),
        false_path: Box::new(false_path),
    }
}

/// Builds `while cond do body`.
pub fn while_stmt(cond: Ast, body: Ast) -> (node: Ast)
    ensures
        node@ == (AstView::While { cond: Box::new(cond@), body: Box::new(body@) }),
{
    Ast::While { cond: Box::new(cond), body: Box::new(body) }
}

/// Builds the composition `first; second`.
pub fn comp_stmt(first: Ast, second: Ast) -> (node: Ast)
    ensures
        node@ == (AstView::Comp { first: Box::new(first@), second: Box::new(second@) }),
{
    Ast::Comp { first: Box::new(first), second: Box::new(second) }
}

/// Builds `skip`.
pub fn skip_stmt() -> (node: Ast)
    ensures
        node@ == AstView::Skip,
{
    Ast::Skip
}

/// Builds the identifier with the given name.
pub fn ident(name: String) -> (node: Ast)
    ensures
        node@ == AstView::Ident(name@),
{
    Ast::Ident(name)
}

/// Builds the literal with the given value.
pub fn literal(value: i32) -> (node: Ast)
    ensures
        node@ == AstView::Literal(value),
{
    Ast::Literal(value)
}

/// What evaluating a node yields: expressions yield integers or booleans,
/// statements yield `Unit`.
#[derive(Copy, Clone, Debug, PartialEq, Eq, Structural)]
pub enum Value {
    Integer(i32),
    Boolean(bool),
    Unit,
}

} // verus!
