//! The mathematical model of programs: the values that contracts speak of.

use vstd::prelude::*;

verus! {

/// An identifier, as the sequence of its characters.
pub type Ident = Seq<char>;

/// A binary operator. The declaration order is the precedence order, loosest first.
#[derive(Debug, Clone, Copy, PartialEq, Eq, PartialOrd, Ord, Structural)]
pub enum Operator {
    Subtract,
    Add,
    Divide,
    Multiply,
}

impl Operator {
    /// The precedence of the operator; no two operators share one.
    pub open spec fn precedence(self) -> int {
        match self {
            Operator::Subtract => 0,
            Operator::Add => 1,
            Operator::Divide => 2,
            Operator::Multiply => 3,
        }
    }

    /// The precedence of the operator as a machine integer.
    pub fn rank(self) -> (r: u8)
        ensures
            r == self.precedence(),
    {
        match self {
            Operator::Subtract => 0,
            Operator::Add => 1,
            Operator::Divide => 2,
            Operator::Multiply => 3,
        }
    }
}

/// An expression: an operand, or two expressions joined by an operator.
pub ghost enum Expr {
    Operand(Term),
    Operation(Operator, Box<Expr>, Box<Expr>),
}

/// An operand.
pub ghost enum Term {
    I64(i64),
    Group(Box<Expr>),
    VarSubstitution(Ident),
    FnApplication(Ident, Seq<Expr>),
    Match(Box<Arms>),
}

/// A `match`: the scrutinee, the ordered clauses (matcher, value) and the default.
pub ghost struct Arms {
    pub with: Expr,
    pub clauses: Seq<(Expr, Expr)>,
    pub default: Expr,
}

/// A token of a flattened expression.
pub ghost enum Tok {
    Operand(Term),
    Operator(Operator),
}

/// A statement.
pub ghost enum Stmt {
    VarAssignment(Ident, Expr),
    FnDefinition(Ident, Seq<Ident>, Expr),
}

/// A program.
pub ghost struct Prog {
    pub inputs: Seq<Ident>,
    pub statements: Seq<Stmt>,
    pub outputs: Seq<Ident>,
}

impl Expr {
    /// The operands and operators of the expression, left to right.
    pub open spec fn tokens(self) -> Seq<Tok>
        decreases self,
    {
        match self {
            Expr::Operand(t) => seq![Tok::Operand(t)],
            Expr::Operation(op, l, r) => l.tokens() + seq![Tok::Operator(op)] + r.tokens(),
        }
    }

    /// The precedence of the operator at the root, or 4 for a bare operand.
    pub open spec fn root_precedence(self) -> int {
        match self {
            Expr::Operand(_) => 4,
            Expr::Operation(op, _, _) => op.precedence(),
        }
    }
}

} // verus!
