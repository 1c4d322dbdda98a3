//! The abstract syntax tree: owned values built by the parser and read by the
//! interpreter. Each type has a view into [`crate::model`].

use crate::model::{Arms, Expr, Ident, Operator, Prog, Stmt, Term, Tok};
use vstd::prelude::*;

verus! {

/// An identifier.
#[derive(Debug, PartialEq, Eq, Hash)]
pub struct Name(pub String);

/// A program: inputs, statements and outputs, each in declaration order.
#[derive(Debug, PartialEq, Eq)]
pub struct Program {
    pub inputs: Vec<Name>,
    pub statements: Statements,
    pub outputs: Vec<Name>,
}

/// The statements of a program, in order.
#[derive(Debug, PartialEq, Eq)]
pub struct Statements(pub Vec<Statement>);

/// A statement: it binds a variable to the value of an expression, or defines
/// a function by its parameters and its body.
#[derive(Debug, PartialEq, Eq)]
pub enum Statement {
    VarAssignment(Name, Expression),
    FnDefinition(Name, Vec<Name>, Expression),
}

/// An expression: an operand, or two expressions joined by an operator.
#[derive(Debug, PartialEq, Eq)]
pub enum Expression {
    Operand(Operand),
    Operation(Operator, Box<Expression>, Box<Expression>),
}

/// A token of a flattened expression.
#[derive(Debug, PartialEq, Eq)]
pub enum Token {
    Operand(Operand),
    Operator(Operator),
}

/// An operand: an integer, an expression in parentheses, a variable, a
/// function applied to arguments, or a match.
#[derive(Debug, PartialEq, Eq)]
pub enum Operand {
    I64(i64),
    Group(Box<Expression>),
    VarSubstitution(Name),
    FnApplication(Name, Vec<Expression>),
    Match(Match),
}

/// A match: the scrutinee, the clauses in order, and the default.
#[derive(Debug, PartialEq, Eq)]
pub struct Match {
    pub with: Box<Expression>,
    pub clauses: Vec<(Matcher, Expression)>,
    pub default: Box<Expression>,
}

/// What a clause of a match compares the scrutinee with.
#[derive(Debug, PartialEq, Eq)]
pub enum Matcher {
    Value(Expression),
}

/// The model of an expression.
pub open spec fn expression_view(e: Expression) -> Expr
    decreases e,
{
    match e {
        Expression::Operand(o) => Expr::Operand(operand_view(o)),
        Expression::Operation(op, l, r) => Expr::Operation(
            op,
            Box::new(expression_view(*l)),
            Box::new(expression_view(*r)),
        ),
    }
}

/// The model of an operand.
pub open spec fn operand_view(o: Operand) -> Term
    decreases o,
{
    match o {
        Operand::I64(n) => Term::I64(n),
        Operand::Group(e) => Term::Group(Box::new(expression_view(*e))),
        Operand::VarSubstitution(n) => Term::VarSubstitution(n.0@),
        Operand::FnApplication(n, args) => Term::FnApplication(
            n.0@,
            Seq::new(
                args@.len(),
                |i: int|
                    if 0 <= i < args@.len() {
                        expression_view(args@[i])
                    } else {
                        arbitrary()
                    },
            ),
        ),
        Operand::Match(m) => Term::Match(
            Box::new(
                Arms {
                    with: expression_view(*m.with),
                    clauses: Seq::new(
                        m.clauses@.len(),
                        |i: int|
                            if 0 <= i < m.clauses@.len() {
                                (matcher_view(m.clauses@[i].0), expression_view(m.clauses@[i].1))
                            } else {
                                arbitrary()
                            },
                    ),
                    default: expression_view(*m.default),
                },
            ),
        ),
    }
}

/// The model of a matcher: the expression whose value is compared.
pub open spec fn matcher_view(m: Matcher) -> Expr
    decreases m,
{
    match m {
        Matcher::Value(e) => expression_view(e),
    }
}

/// The models of a sequence of expressions.
pub open spec fn expressions_view(v: Seq<Expression>) -> Seq<Expr> {
    Seq::new(v.len(), |i: int| expression_view(v[i]))
}

/// The models of a sequence of match clauses.
pub open spec fn clauses_view(v: Seq<(Matcher, Expression)>) -> Seq<(Expr, Expr)> {
    Seq::new(v.len(), |i: int| (matcher_view(v[i].0), expression_view(v[i].1)))
}

/// The models of a sequence of names.
pub open spec fn names_view(v: Seq<Name>) -> Seq<Ident> {
    Seq::new(v.len(), |i: int| v[i].0@)
}

/// The models of a sequence of tokens.
pub open spec fn tokens_view(v: Seq<Token>) -> Seq<Tok> {
    Seq::new(v.len(), |i: int| v[i]@)
}

/// The models of a sequence of statements.
pub open spec fn statements_view(v: Seq<Statement>) -> Seq<Stmt> {
    Seq::new(v.len(), |i: int| v[i]@)
}

impl View for Name {
    type V = Ident;

    open spec fn view(&self) -> Ident {
        self.0@
    }
}

impl View for Expression {
    type V = Expr;

    open spec fn view(&self) -> Expr {
        expression_view(*self)
    }
}

impl View for Operand {
    type V = Term;

    open spec fn view(&self) -> Term {
        operand_view(*self)
    }
}

impl View for Matcher {
    type V = Expr;

    open spec fn view(&self) -> Expr {
        matcher_view(*self)
    }
}

impl View for Match {
    type V = Arms;

    open spec fn view(&self) -> Arms {
        Arms {
            with: self.with@,
            clauses: clauses_view(self.clauses@),
            default: self.default@,
        }
    }
}

impl View for Token {
    type V = Tok;

    open spec fn view(&self) -> Tok {
        match *self {
            Token::Operand(o) => Tok::Operand(o@),
            Token::Operator(op) => Tok::Operator(op),
        }
    }
}

impl View for Statement {
    type V = Stmt;

    open spec fn view(&self) -> Stmt {
        match *self {
            Statement::VarAssignment(n, e) => Stmt::VarAssignment(n@, e@),
            Statement::FnDefinition(n, params, e) => Stmt::FnDefinition(
                n@,
                names_view(params@),
                e@,
            ),
        }
    }
}

impl View for Statements {
    type V = Seq<Stmt>;

    open spec fn view(&self) -> Seq<Stmt> {
        statements_view(self.0@)
    }
}

impl View for Program {
    type V = Prog;

    open spec fn view(&self) -> Prog {
        Prog {
            inputs: names_view(self.inputs@),
            statements: self.statements@,
            outputs: names_view(self.outputs@),
        }
    }
}

/// The view of a function application holds the views of its arguments, and
/// the view of a match holds the views of its parts.
pub proof fn lemma_operand_view(o: Operand)
    ensures
        o matches Operand::FnApplication(n, args) ==> o@ == Term::FnApplication(
            n@,
            expressions_view(args@),
        ),
        o matches Operand::Match(m) ==> o@ == Term::Match(Box::new(m@)),
{
    match o {
        Operand::FnApplication(n, args) => {
            assert(o@->FnApplication_1 =~= expressions_view(args@));
        },
        Operand::Match(m) => {
            assert(o@->Match_0.clauses =~= clauses_view(m.clauses@));
        },
        _ => {},
    }
}

impl Name {
    /// The name with the characters of `s`.
    pub fn new(s: &str) -> (r: Name)
        ensures
            r@ == s@,
    {
        Name(s.to_owned())
    }
}

impl Program {
    /// The program with these inputs, statements and outputs.
    pub fn new(inputs: Vec<Name>, statements: Statements, outputs: Vec<Name>) -> (r: Program)
        ensures
            r.inputs == inputs,
            r.statements == statements,
            r.outputs == outputs,
    {
        Program { inputs, statements, outputs }
    }
}

impl Match {
    /// The match of the scrutinee against the clauses, with the default.
    pub fn new(with: Expression, matchers: Vec<(Matcher, Expression)>, default: Expression) -> (r:
        Match)
        ensures
            *r.with == with,
            r.clauses == matchers,
            *r.default == default,
    {
        Match { with: Box::new(with), clauses: matchers, default: Box::new(default) }
    }
}

} // verus!

verus! {

impl Clone for Name {
    fn clone(&self) -> (r: Self)
        ensures
            r@ == self@,
    {
        Name(self.0.clone())
    }
}

impl Clone for Expression {
    fn clone(&self) -> (r: Self)
        ensures
            r@ == self@,
        decreases self,
    {
        match self {
            Expression::Operand(o) => Expression::Operand(o.clone()),
            Expression::Operation(op, l, r) => {
                let left = (**l).clone();
                let right = (**r).clone();
                Expression::Operation(*op, Box::new(left), Box::new(right))
            },
        }
    }
}

impl Clone for Operand {
    fn clone(&self) -> (r: Self)
        ensures
            r@ == self@,
        decreases self,
    {
        match self {
            Operand::I64(n) => Operand::I64(*n),
            Operand::Group(e) => Operand::Group(Box::new((**e).clone())),
            Operand::VarSubstitution(n) => Operand::VarSubstitution(n.clone()),
            Operand::FnApplication(n, args) => {
                let mut copies: Vec<Expression> = Vec::new();
                let mut i: usize = 0;
                while i < args.len()
                    invariant
                        *self matches Operand::FnApplication(_, a) && a == args,
                        i <= args.len(),
                        copies.len() == i,
                        forall|k: int| 0 <= k < i ==> copies@[k]@ == args@[k]@,
                    decreases args.len() - i,
                {
                    copies.push(args[i].clone());
                    i += 1;
                }
                let r = Operand::FnApplication(n.clone(), copies);
                assert(r@->FnApplication_1 =~= self@->FnApplication_1);
                r
            },
            Operand::Match(m) => {
                let with = (*m.with).clone();
                let default = (*m.default).clone();
                let mut copies: Vec<(Matcher, Expression)> = Vec::new();
                let mut i: usize = 0;
                while i < m.clauses.len()
                    invariant
                        *self matches Operand::Match(mm) && mm == m,
                        i <= m.clauses.len(),
                        copies.len() == i,
                        forall|k: int|
                            0 <= k < i ==> copies@[k].0@ == m.clauses@[k].0@ && copies@[k].1@
                                == m.clauses@[k].1@,
                    decreases m.clauses.len() - i,
                {
                    let clause = &m.clauses[i];
                    let Matcher::Value(value) = &clause.0;
                    copies.push((Matcher::Value(value.clone()), clause.1.clone()));
                    i += 1;
                }
                let r = Operand::Match(
                    Match { with: Box::new(with), clauses: copies, default: Box::new(default) },
                );
                assert(r@->Match_0.clauses =~= self@->Match_0.clauses);
                r
            },
        }
    }
}

impl Clone for Matcher {
    fn clone(&self) -> (r: Self)
        ensures
            r@ == self@,
    {
        let Matcher::Value(value) = self;
        Matcher::Value(value.clone())
    }
}

impl Clone for Match {
    fn clone(&self) -> (r: Self)
        ensures
            r@ == self@,
    {
        let with = (*self.with).clone();
        let default = (*self.default).clone();
        let mut copies: Vec<(Matcher, Expression)> = Vec::new();
        let mut i: usize = 0;
        while i < self.clauses.len()
            invariant
                i <= self.clauses.len(),
                copies.len() == i,
                forall|k: int|
                    0 <= k < i ==> copies@[k].0@ == self.clauses@[k].0@ && copies@[k].1@
                        == self.clauses@[k].1@,
            decreases self.clauses.len() - i,
        {
            let clause = &self.clauses[i];
            copies.push((clause.0.clone(), clause.1.clone()));
            i += 1;
        }
        let r = Match { with: Box::new(with), clauses: copies, default: Box::new(default) };
        assert(r@.clauses =~= self@.clauses);
        r
    }
}

impl Clone for Token {
    fn clone(&self) -> (r: Self)
        ensures
            r@ == self@,
    {
        match self {
            Token::Operand(o) => Token::Operand(o.clone()),
            Token::Operator(op) => Token::Operator(*op),
        }
    }
}

/// A copy of a list of names.
pub fn clone_names(names: &Vec<Name>) -> (r: Vec<Name>)
    ensures
        names_view(r@) == names_view(names@),
{
    let mut copies: Vec<Name> = Vec::new();
    let mut i: usize = 0;
    while i < names.len()
        invariant
            i <= names.len(),
            copies.len() == i,
            forall|k: int| 0 <= k < i ==> copies@[k]@ == names@[k]@,
        decreases names.len() - i,
    {
        copies.push(names[i].clone());
        i += 1;
    }
    assert(names_view(copies@) =~= names_view(names@));
    copies
}

impl Clone for Statement {
    fn clone(&self) -> (r: Self)
        ensures
            r@ == self@,
    {
        match self {
            Statement::VarAssignment(n, e) => Statement::VarAssignment(n.clone(), e.clone()),
            Statement::FnDefinition(n, params, e) => Statement::FnDefinition(
                n.clone(),
                clone_names(params),
                e.clone(),
            ),
        }
    }
}

impl Clone for Statements {
    fn clone(&self) -> (r: Self)
        ensures
            r@ == self@,
    {
        let mut copies: Vec<Statement> = Vec::new();
        let mut i: usize = 0;
        while i < self.0.len()
            invariant
                i <= self.0.len(),
                copies.len() == i,
                forall|k: int| 0 <= k < i ==> copies@[k]@ == self.0@[k]@,
            decreases self.0.len() - i,
        {
            copies.push(self.0[i].clone());
            i += 1;
        }
        let r = Statements(copies);
        assert(r@ =~= self@);
        r
    }
}

impl Clone for Program {
    fn clone(&self) -> (r: Self)
        ensures
            r@ == self@,
    {
        Program {
            inputs: clone_names(&self.inputs),
            statements: self.statements.clone(),
            outputs: clone_names(&self.outputs),
        }
    }
}

impl Expression {
    /// The operands and operators of the expression, left to right.
    pub fn tokens(&self) -> (r: Vec<Token>)
        ensures
            tokens_view(r@) == self@.tokens(),
        decreases self,
    {
        match self {
            Expression::Operand(operand) => {
                let r = vec![Token::Operand(operand.clone())];
                assert(tokens_view(r@) =~= self@.tokens());
                r
            },
            Expression::Operation(operator, exp0, exp1) => {
                let mut tokens = exp0.tokens();
                tokens.push(Token::Operator(*operator));
                let mut rest = exp1.tokens();
                tokens.append(&mut rest);
                assert(tokens_view(tokens@) =~= self@.tokens());
                tokens
            },
        }
    }
}

} // verus!

verus! {

impl Name {
    /// Whether two names are the same.
    pub fn same(&self, other: &Name) -> (r: bool)
        ensures
            r == (self@ == other@),
    {
        self.0 == other.0
    }
}

impl Expression {
    /// Whether two expressions are the same tree.
    pub fn same(&self, other: &Expression) -> (r: bool)
        ensures
            r == (self@ == other@),
        decreases self,
    {
        match (self, other) {
            (Expression::Operand(a), Expression::Operand(b)) => a.same(b),
            (Expression::Operation(op, l, r), Expression::Operation(op2, l2, r2)) => {
                op.rank() == op2.rank() && l.same(l2) && r.same(r2)
            },
            _ => false,
        }
    }
}

impl Operand {
    /// Whether two operands are the same tree.
    pub fn same(&self, other: &Operand) -> (r: bool)
        ensures
            r == (self@ == other@),
        decreases self,
    {
        proof {
            lemma_operand_view(*self);
            lemma_operand_view(*other);
        }
        match (self, other) {
            (Operand::I64(a), Operand::I64(b)) => *a == *b,
            (Operand::Group(a), Operand::Group(b)) => a.same(b),
            (Operand::VarSubstitution(a), Operand::VarSubstitution(b)) => a.same(b),
            (Operand::FnApplication(n, args), Operand::FnApplication(n2, args2)) => {
                if !n.same(n2) || args.len() != args2.len() {
                    assert(expressions_view(args@).len() == args@.len());
                    assert(expressions_view(args2@).len() == args2@.len());
                    return false;
                }
                let mut i: usize = 0;
                while i < args.len()
                    invariant
                        *self matches Operand::FnApplication(_, a) && a == args,
                        *other matches Operand::FnApplication(_, a) && a == args2,
                        args.len() == args2.len(),
                        i <= args.len(),
                        forall|k: int| 0 <= k < i ==> args@[k]@ == args2@[k]@,
                    decreases args.len() - i,
                {
                    if !args[i].same(&args2[i]) {
                        proof {
                            lemma_operand_view(*self);
                            lemma_operand_view(*other);
                        }
                        assert(expressions_view(args@)[i as int] != expressions_view(
                            args2@,
                        )[i as int]);
                        return false;
                    }
                    i += 1;
                }
                assert(expressions_view(args@) =~= expressions_view(args2@));
                true
            },
            (Operand::Match(a), Operand::Match(b)) => {
                if !a.with.same(&b.with) || !a.default.same(&b.default) || a.clauses.len()
                    != b.clauses.len() {
                    assert(clauses_view(a.clauses@).len() == a.clauses@.len());
                    assert(clauses_view(b.clauses@).len() == b.clauses@.len());
                    return false;
                }
                let mut i: usize = 0;
                while i < a.clauses.len()
                    invariant
                        *self matches Operand::Match(m) && m == a,
                        *other matches Operand::Match(m) && m == b,
                        a.clauses.len() == b.clauses.len(),
                        i <= a.clauses.len(),
                        forall|k: int|
                            0 <= k < i ==> a.clauses@[k].0@ == b.clauses@[k].0@ && a.clauses@[k].1@
                                == b.clauses@[k].1@,
                    decreases a.clauses.len() - i,
                {
                    let Matcher::Value(x) = &a.clauses[i].0;
                    let Matcher::Value(y) = &b.clauses[i].0;
                    if !x.same(y) || !a.clauses[i].1.same(&b.clauses[i].1) {
                        proof {
                            lemma_operand_view(*self);
                            lemma_operand_view(*other);
                        }
                        assert(clauses_view(a.clauses@)[i as int] != clauses_view(
                            b.clauses@,
                        )[i as int]);
                        return false;
                    }
                    i += 1;
                }
                assert(clauses_view(a.clauses@) =~= clauses_view(b.clauses@));
                true
            },
            _ => false,
        }
    }
}

} // verus!
