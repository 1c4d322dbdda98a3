//! The textual form of programs.
//!
//! The text of a tree is defined on the model; the `to_string` methods of the
//! syntax tree produce exactly that text.

use crate::ast::{
    Expression, Match, Matcher, Name, Operand, Program, Statement, Statements,
};
use crate::model::{Arms, Expr, Ident, Operator, Prog, Stmt, Term};
use crate::text::push_char;
use vstd::prelude::*;
use vstd::string::StringExecFns;

verus! {

/// The parts, with the separator between each two neighbours.
pub open spec fn join(parts: Seq<Seq<char>>, sep: Seq<char>) -> Seq<char> {
    if parts.len() == 0 {
        Seq::empty()
    } else {
        parts[0] + join_rest(parts.drop_first(), sep)
    }
}

/// The parts, each with the separator in front of it.
pub open spec fn join_rest(parts: Seq<Seq<char>>, sep: Seq<char>) -> Seq<char>
    decreases parts.len(),
{
    if parts.len() == 0 {
        Seq::empty()
    } else {
        sep + parts[0] + join_rest(parts.drop_first(), sep)
    }
}

/// The character of a decimal digit.
pub open spec fn digit(d: int) -> char {
    ((48 + d) as u8) as char
}

/// The decimal digits of a natural number, without leading zeros.
pub open spec fn render_nat(n: nat) -> Seq<char>
    decreases n,
{
    if n < 10 {
        seq![digit(n as int)]
    } else {
        render_nat(n / 10).push(digit((n % 10) as int))
    }
}

/// The decimal form of an integer, with `-` in front of a negative one.
pub open spec fn render_i64(n: i64) -> Seq<char> {
    if n < 0 {
        seq!['-'] + render_nat((-n) as nat)
    } else {
        render_nat(n as nat)
    }
}

/// The sign of an operator.
pub open spec fn render_operator(op: Operator) -> Seq<char> {
    match op {
        Operator::Subtract => "-"@,
        Operator::Add => "+"@,
        Operator::Divide => "/"@,
        Operator::Multiply => "*"@,
    }
}

/// The text of an expression. A nested operation is parenthesised exactly when
/// its operator has strictly lower precedence than its parent's.
pub open spec fn render_expression(e: Expr) -> Seq<char>
    decreases e, 0int,
{
    match e {
        Expr::Operand(t) => render_term(t),
        Expr::Operation(op, l, r) => render_side(op, *l) + " "@ + render_operator(op) + " "@
            + render_side(op, *r),
    }
}

/// The text of one side of an operation whose operator is `op`.
pub open spec fn render_side(op: Operator, side: Expr) -> Seq<char>
    decreases side, 1int,
{
    if needs_parentheses(op, side) {
        "("@ + render_expression(side) + ")"@
    } else {
        render_expression(side)
    }
}

/// Whether a side of an operation is an operation of lower precedence.
pub open spec fn needs_parentheses(op: Operator, side: Expr) -> bool {
    side matches Expr::Operation(inner, _, _) && inner.precedence() < op.precedence()
}

/// The texts of the expressions, in order.
pub open spec fn render_expressions(es: Seq<Expr>) -> Seq<Seq<char>>
    decreases es, 0int,
{
    Seq::new(
        es.len(),
        |i: int|
            if 0 <= i < es.len() {
                render_expression(es[i])
            } else {
                arbitrary()
            },
    )
}

/// The texts of the match clauses, in order.
pub open spec fn render_clauses(clauses: Seq<(Expr, Expr)>) -> Seq<Seq<char>>
    decreases clauses, 0int,
{
    Seq::new(
        clauses.len(),
        |i: int|
            if 0 <= i < clauses.len() {
                render_expression(clauses[i].0) + " => "@ + render_expression(clauses[i].1) + ", "@
            } else {
                arbitrary()
            },
    )
}

/// The text of an operand.
pub open spec fn render_term(t: Term) -> Seq<char>
    decreases t, 0int,
{
    match t {
        Term::I64(n) => render_i64(n),
        Term::Group(e) => "("@ + render_expression(*e) + ")"@,
        Term::VarSubstitution(n) => n,
        Term::FnApplication(n, args) => n + "("@ + join(render_expressions(args), ", "@) + ")"@,
        Term::Match(m) => render_match(*m),
    }
}

/// The text of a match: the clauses in order, then the default, each with a
/// comma behind it.
pub open spec fn render_match(m: Arms) -> Seq<char>
    decreases m, 0int,
{
    "match "@ + render_expression(m.with) + " { "@ + render_clauses(m.clauses).flatten() + "_ => "@
        + render_expression(m.default) + ", "@ + "}"@
}

/// The text of a statement, with its closing semicolon.
pub open spec fn render_statement(s: Stmt) -> Seq<char> {
    match s {
        Stmt::VarAssignment(n, e) => n + " = "@ + render_expression(e) + ";"@,
        Stmt::FnDefinition(n, params, e) => n + "("@ + join(params, ", "@) + ") = "@
            + render_expression(e) + ";"@,
    }
}

/// The texts of the statements, one per line.
pub open spec fn render_statements(s: Seq<Stmt>) -> Seq<char> {
    join(Seq::new(s.len(), |i: int| render_statement(s[i])), "\n"@)
}

/// A keyword followed by the names it declares, and a semicolon.
pub open spec fn render_declaration(keyword: Seq<char>, names: Seq<Ident>) -> Seq<char> {
    if names.len() == 0 {
        keyword + ";"@
    } else {
        keyword + " "@ + join(names, ", "@) + ";"@
    }
}

/// The text of a program: the inputs, the statements and the outputs, each on
/// a line of its own.
pub open spec fn render_program(p: Prog) -> Seq<char> {
    render_declaration("inputs"@, p.inputs) + "\n"@ + (if p.statements.len() == 0 {
        Seq::empty()
    } else {
        render_statements(p.statements) + "\n"@
    }) + render_declaration("outputs"@, p.outputs)
}

} // verus!

verus! {

/// Unfolds [`join_rest`] at position `i`.
pub proof fn lemma_join_rest_skip(parts: Seq<Seq<char>>, sep: Seq<char>, i: int)
    requires
        0 <= i < parts.len(),
    ensures
        join_rest(parts.skip(i), sep) == sep + parts[i] + join_rest(parts.skip(i + 1), sep),
{
    assert(parts.skip(i).drop_first() =~= parts.skip(i + 1));
}

/// Unfolds `flatten` at position `i`.
pub proof fn lemma_flatten_skip(parts: Seq<Seq<char>>, i: int)
    requires
        0 <= i < parts.len(),
    ensures
        parts.skip(i).flatten() == parts[i] + parts.skip(i + 1).flatten(),
{
    assert(parts.skip(i).drop_first() =~= parts.skip(i + 1));
}

fn write_nat(n: u64, out: &mut String)
    ensures
        final(out)@ == old(out)@ + render_nat(n as nat),
    decreases n,
{
    if n >= 10 {
        write_nat(n / 10, out);
    }
    let d: u8 = (n % 10) as u8;
    push_char(out, (48 + d) as char);
    assert(final(out)@ =~= old(out)@ + render_nat(n as nat));
}

fn write_i64(n: i64, out: &mut String)
    ensures
        final(out)@ == old(out)@ + render_i64(n),
{
    if n < 0 {
        push_char(out, '-');
        let magnitude: u64 = if n == i64::MIN {
            9223372036854775808
        } else {
            (-n) as u64
        };
        write_nat(magnitude, out);
        assert(final(out)@ =~= old(out)@ + render_i64(n));
    } else {
        write_nat(n as u64, out);
    }
}

fn write_operator(op: Operator, out: &mut String)
    ensures
        final(out)@ == old(out)@ + render_operator(op),
{
    match op {
        Operator::Subtract => out.append("-"),
        Operator::Add => out.append("+"),
        Operator::Divide => out.append("/"),
        Operator::Multiply => out.append("*"),
    }
}

fn write_names(names: &Vec<Name>, out: &mut String)
    ensures
        final(out)@ == old(out)@ + join(crate::ast::names_view(names@), ", "@),
{
    let ghost parts = crate::ast::names_view(names@);
    if names.len() > 0 {
        out.append(names[0].0.as_str());
        let mut i: usize = 1;
        assert(parts.drop_first() =~= parts.skip(1));
        while i < names.len()
            invariant
                1 <= i <= names.len(),
                parts == crate::ast::names_view(names@),
                out@ + join_rest(parts.skip(i as int), ", "@) == old(out)@ + join(parts, ", "@),
            decreases names.len() - i,
        {
            proof {
                lemma_join_rest_skip(parts, ", "@, i as int);
            }
            let ghost before = out@;
            out.append(", ");
            out.append(names[i].0.as_str());
            assert(out@ + join_rest(parts.skip(i + 1), ", "@) =~= before + join_rest(
                parts.skip(i as int),
                ", "@,
            ));
            i += 1;
        }
        assert(parts.skip(i as int) =~= Seq::empty());
        assert(out@ =~= out@ + join_rest(parts.skip(i as int), ", "@));
    } else {
        assert(final(out)@ =~= old(out)@ + join(parts, ", "@));
    }
}

fn write_expression(e: &Expression, out: &mut String)
    ensures
        final(out)@ == old(out)@ + render_expression(e@),
    decreases e, 0int,
{
    match e {
        Expression::Operand(o) => write_operand(o, out),
        Expression::Operation(op, l, r) => {
            write_side(*op, l, out);
            out.append(" ");
            write_operator(*op, out);
            out.append(" ");
            write_side(*op, r, out);
            assert(final(out)@ =~= old(out)@ + render_expression(e@));
        },
    }
}

fn write_side(op: Operator, side: &Expression, out: &mut String)
    ensures
        final(out)@ == old(out)@ + render_side(op, side@),
    decreases side, 1int,
{
    let parenthesised = match side {
        Expression::Operation(inner, _, _) => inner.rank() < op.rank(),
        Expression::Operand(_) => false,
    };
    if parenthesised {
        out.append("(");
        write_expression(side, out);
        out.append(")");
        assert(final(out)@ =~= old(out)@ + render_side(op, side@));
    } else {
        write_expression(side, out);
    }
}

fn write_operand(o: &Operand, out: &mut String)
    ensures
        final(out)@ == old(out)@ + render_term(o@),
    decreases o, 0int,
{
    match o {
        Operand::I64(n) => write_i64(*n, out),
        Operand::Group(e) => {
            out.append("(");
            write_expression(e, out);
            out.append(")");
            assert(final(out)@ =~= old(out)@ + render_term(o@));
        },
        Operand::VarSubstitution(n) => out.append(n.0.as_str()),
        Operand::FnApplication(n, args) => {
            out.append(n.0.as_str());
            out.append("(");
            let ghost start = out@;
            let ghost parts = render_expressions(o@->FnApplication_1);
            if args.len() > 0 {
                write_expression(&args[0], out);
                assert(parts.drop_first() =~= parts.skip(1));
                let mut i: usize = 1;
                while i < args.len()
                    invariant
                        *o matches Operand::FnApplication(_, a) && a == args,
                        parts == render_expressions(o@->FnApplication_1),
                        1 <= i <= args.len(),
                        out@ + join_rest(parts.skip(i as int), ", "@) == start + join(parts, ", "@),
                    decreases args.len() - i,
                {
                    proof {
                        lemma_join_rest_skip(parts, ", "@, i as int);
                    }
                    let ghost before = out@;
                    out.append(", ");
                    write_expression(&args[i], out);
                    assert(out@ + join_rest(parts.skip(i + 1), ", "@) =~= before + join_rest(
                        parts.skip(i as int),
                        ", "@,
                    ));
                    i += 1;
                }
                assert(parts.skip(i as int) =~= Seq::empty());
                assert(out@ =~= out@ + join_rest(parts.skip(i as int), ", "@));
            } else {
                assert(out@ =~= start + join(parts, ", "@));
            }
            out.append(")");
            assert(final(out)@ =~= old(out)@ + render_term(o@));
        },
        Operand::Match(m) => {
            proof {
                crate::ast::lemma_operand_view(*o);
            }
            write_match(m, out);
        },
    }
}

fn write_match(m: &Match, out: &mut String)
    ensures
        final(out)@ == old(out)@ + render_match(m@),
    decreases m, 0int,
{
    out.append("match ");
    write_expression(&m.with, out);
    out.append(" { ");
    let ghost start = out@;
    let ghost parts = render_clauses(m@.clauses);
    let mut i: usize = 0;
    assert(parts.skip(0) =~= parts);
    while i < m.clauses.len()
        invariant
            parts == render_clauses(m@.clauses),
            i <= m.clauses.len(),
            out@ + parts.skip(i as int).flatten() == start + parts.flatten(),
        decreases m.clauses.len() - i,
    {
        proof {
            lemma_flatten_skip(parts, i as int);
        }
        let ghost before = out@;
        let clause = &m.clauses[i];
        let Matcher::Value(value) = &clause.0;
        write_expression(value, out);
        out.append(" => ");
        write_expression(&clause.1, out);
        out.append(", ");
        assert(out@ + parts.skip(i + 1).flatten() =~= before + parts.skip(i as int).flatten());
        i += 1;
    }
    assert(parts.skip(i as int) =~= Seq::empty());
    assert(out@ =~= out@ + parts.skip(i as int).flatten());
    out.append("_ => ");
    write_expression(&m.default, out);
    out.append(", ");
    out.append("}");
    assert(final(out)@ =~= old(out)@ + render_match(m@));
}

} // verus!

verus! {

fn write_statement(s: &Statement, out: &mut String)
    ensures
        final(out)@ == old(out)@ + render_statement(s@),
{
    match s {
        Statement::VarAssignment(n, e) => {
            out.append(n.0.as_str());
            out.append(" = ");
            write_expression(e, out);
            out.append(";");
            assert(final(out)@ =~= old(out)@ + render_statement(s@));
        },
        Statement::FnDefinition(n, params, e) => {
            out.append(n.0.as_str());
            out.append("(");
            write_names(params, out);
            out.append(") = ");
            write_expression(e, out);
            out.append(";");
            assert(final(out)@ =~= old(out)@ + render_statement(s@));
        },
    }
}

fn write_statements(statements: &Statements, out: &mut String)
    ensures
        final(out)@ == old(out)@ + render_statements(statements@),
{
    let list = &statements.0;
    let ghost parts = Seq::new(statements@.len(), |i: int| render_statement(statements@[i]));
    if list.len() > 0 {
        write_statement(&list[0], out);
        assert(parts.drop_first() =~= parts.skip(1));
        let mut i: usize = 1;
        while i < list.len()
            invariant
                list == &statements.0,
                parts == Seq::new(statements@.len(), |i: int| render_statement(statements@[i])),
                1 <= i <= list.len(),
                out@ + join_rest(parts.skip(i as int), "\n"@) == old(out)@ + join(parts, "\n"@),
            decreases list.len() - i,
        {
            proof {
                lemma_join_rest_skip(parts, "\n"@, i as int);
            }
            let ghost before = out@;
            out.append("\n");
            write_statement(&list[i], out);
            assert(out@ + join_rest(parts.skip(i + 1), "\n"@) =~= before + join_rest(
                parts.skip(i as int),
                "\n"@,
            ));
            i += 1;
        }
        assert(parts.skip(i as int) =~= Seq::empty());
        assert(out@ =~= out@ + join_rest(parts.skip(i as int), "\n"@));
    } else {
        assert(final(out)@ =~= old(out)@ + join(parts, "\n"@));
    }
}

fn write_declaration(keyword: &str, names: &Vec<Name>, out: &mut String)
    ensures
        final(out)@ == old(out)@ + render_declaration(keyword@, crate::ast::names_view(names@)),
{
    out.append(keyword);
    if names.len() > 0 {
        out.append(" ");
        write_names(names, out);
    }
    out.append(";");
    assert(final(out)@ =~= old(out)@ + render_declaration(
        keyword@,
        crate::ast::names_view(names@),
    ));
}

impl Operator {
    /// The operator's sign.
    pub fn to_string(&self) -> (r: String)
        ensures
            r@ == render_operator(*self),
    {
        let mut out = String::new();
        write_operator(*self, &mut out);
        assert(out@ =~= render_operator(*self));
        out
    }
}

impl Name {
    /// The name as it is written in a program.
    pub fn to_string(&self) -> (r: String)
        ensures
            r@ == self@,
    {
        self.0.clone()
    }
}

impl Expression {
    /// The text of the expression.
    pub fn to_string(&self) -> (r: String)
        ensures
            r@ == render_expression(self@),
    {
        let mut out = String::new();
        write_expression(self, &mut out);
        assert(out@ =~= render_expression(self@));
        out
    }
}

impl Operand {
    /// The text of the operand.
    pub fn to_string(&self) -> (r: String)
        ensures
            r@ == render_term(self@),
    {
        let mut out = String::new();
        write_operand(self, &mut out);
        assert(out@ =~= render_term(self@));
        out
    }
}

impl Match {
    /// The text of the match: its clauses in order, then the default.
    pub fn to_string(&self) -> (r: String)
        ensures
            r@ == render_match(self@),
    {
        let mut out = String::new();
        write_match(self, &mut out);
        assert(out@ =~= render_match(self@));
        out
    }
}

impl Matcher {
    /// The text of the expression that the matcher compares with.
    pub fn to_string(&self) -> (r: String)
        ensures
            r@ == render_expression(self@),
    {
        let Matcher::Value(value) = self;
        value.to_string()
    }
}

impl Statement {
    /// The text of the statement, with its closing semicolon.
    pub fn to_string(&self) -> (r: String)
        ensures
            r@ == render_statement(self@),
    {
        let mut out = String::new();
        write_statement(self, &mut out);
        assert(out@ =~= render_statement(self@));
        out
    }
}

impl Statements {
    /// The statements, one per line.
    pub fn to_string(&self) -> (r: String)
        ensures
            r@ == render_statements(self@),
    {
        let mut out = String::new();
        write_statements(self, &mut out);
        assert(out@ =~= render_statements(self@));
        out
    }
}

impl Program {
    /// The source text of the program.
    pub fn to_string(&self) -> (r: String)
        ensures
            r@ == render_program(self@),
    {
        let mut out = String::new();
        write_declaration("inputs", &self.inputs, &mut out);
        out.append("\n");
        if self.statements.0.len() > 0 {
            write_statements(&self.statements, &mut out);
            out.append("\n");
        }
        write_declaration("outputs", &self.outputs, &mut out);
        assert(out@ =~= render_program(self@));
        out
    }
}

} // verus!
