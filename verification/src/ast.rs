//! The syntax tree the analysis walks.
//!
//! Only the shapes the analysis distinguishes have a variant of their own;
//! every other statement or expression is an `Other` node that lists its
//! parts in the order in which they are evaluated, which is the order in
//! which a walk meets them.

use vstd::prelude::*;
use crate::text::TextRange;

verus! {

/// An expression.
pub enum Expr {
    Name(ExprName),
    Attribute(ExprAttribute),
    Call(ExprCall),
    Tuple(ExprTuple),
    StringLiteral(ExprStringLiteral),
    Other(ExprOther),
}

/// A bare name, with the definitions it resolves to, in resolution order, as
/// positions in [`Project::definitions`](crate::project::Project).
pub struct ExprName {
    pub id: String,
    pub range: TextRange,
    pub definitions: Vec<usize>,
}

/// `value.attr`, with the definitions the attribute resolves to.
pub struct ExprAttribute {
    pub value: Box<Expr>,
    pub attr: String,
    pub range: TextRange,
    pub definitions: Vec<usize>,
}

/// `func(arguments…)`: the arguments are the positional ones followed by the
/// values of the keyword ones, as they are evaluated.
pub struct ExprCall {
    pub func: Box<Expr>,
    pub arguments: Vec<Expr>,
    pub range: TextRange,
}

/// `(elts…)`.
pub struct ExprTuple {
    pub elts: Vec<Expr>,
    pub range: TextRange,
}

/// A string literal with its value, escapes decoded.
pub struct ExprStringLiteral {
    pub value: String,
    pub range: TextRange,
}

/// Any other expression, with its sub-expressions in the order in which
/// they are evaluated.
pub struct ExprOther {
    pub children: Vec<Expr>,
}

/// A statement.
pub enum Stmt {
    FunctionDef(StmtFunctionDef),
    ClassDef(StmtClassDef),
    Raise(StmtRaise),
    Try(StmtTry),
    Expr(StmtExpr),
    Other(StmtOther),
}

/// `def name(…): body`. `header` holds what stands between the decorators
/// and the body: type parameters, parameter annotations and defaults, and
/// the return annotation, in the order in which they are evaluated.
pub struct StmtFunctionDef {
    pub name: String,
    pub range: TextRange,
    pub decorators: Vec<Expr>,
    pub header: Vec<Expr>,
    pub body: Vec<Stmt>,
}

/// `class name(bases…, keywords…): body`.
pub struct StmtClassDef {
    pub name: String,
    pub range: TextRange,
    pub decorators: Vec<Expr>,
    pub type_params: Vec<Expr>,
    pub bases: Vec<Expr>,
    pub keywords: Vec<Expr>,
    pub body: Vec<Stmt>,
}

/// `raise`, `raise exc` or `raise exc from cause`.
pub struct StmtRaise {
    pub exc: Option<Expr>,
    pub cause: Option<Expr>,
    pub range: TextRange,
}

/// `try: body` with its handlers, `else:` and `finally:` blocks.
pub struct StmtTry {
    pub body: Vec<Stmt>,
    pub handlers: Vec<ExceptHandler>,
    pub orelse: Vec<Stmt>,
    pub finalbody: Vec<Stmt>,
}

/// `except type_: body`; a handler without a type catches everything.
pub struct ExceptHandler {
    pub type_: Option<Expr>,
    pub body: Vec<Stmt>,
}

/// An expression used as a statement.
pub struct StmtExpr {
    pub value: Expr,
    pub range: TextRange,
}

/// Any other statement, with its sub-expressions and sub-statements in the
/// order in which they are evaluated.
pub struct StmtOther {
    pub children: Vec<Child>,
}

/// A part of a statement.
pub enum Child {
    Expr(Expr),
    Stmt(Stmt),
}

} // verus!
