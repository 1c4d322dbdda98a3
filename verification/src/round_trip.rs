//! Parsing inverts rendering: the text of a well-formed program reads back as
//! that program.

use crate::model::{Arms, Expr, Ident, Operator, Prog, Stmt, Term};
use crate::parser::grammar;
use crate::parser::grammar::{ascii, chars};
use crate::parser::shunting_yard::Yard;
use crate::parser::Error;
use crate::render;
use vstd::prelude::*;

verus! {

/// The text `w` stands in `s` at position `i`.
pub open spec fn at(s: Seq<u8>, i: int, w: Seq<char>) -> bool {
    &&& 0 <= i
    &&& i + w.len() <= s.len()
    &&& s.subrange(i, i + w.len()) == ascii(w)
}

/// A name as the grammar has it: a lowercase letter, then lowercase letters
/// and underscores, and no reserved word.
pub open spec fn valid_name(n: Ident) -> bool {
    &&& n.len() > 0
    &&& 'a' <= n[0] <= 'z'
    &&& forall|k: int| 0 <= k < n.len() ==> 'a' <= #[trigger] n[k] <= 'z' || n[k] == '_'
    &&& !grammar::is_reserved(ascii(n))
}

/// The position holds a byte that ends whatever stands before it: none that
/// could go on a name or a number.
pub open spec fn bounded(s: Seq<u8>, i: int) -> bool {
    i == s.len() || (0 <= i < s.len() && !grammar::is_name_byte(s[i]) && !grammar::is_digit(s[i]))
}

/// A text made of two parts stands where its parts stand one behind the other.
pub proof fn lemma_at_split(s: Seq<u8>, i: int, a: Seq<char>, b: Seq<char>)
    requires
        at(s, i, a + b),
    ensures
        at(s, i, a),
        at(s, i + a.len(), b),
{
    let w = a + b;
    assert(s.subrange(i, i + a.len()) =~= ascii(a)) by {
        assert forall|k: int| 0 <= k < a.len() implies s.subrange(i, i + a.len())[k] == ascii(
            a,
        )[k] by {
            assert(s.subrange(i, i + w.len())[k] == ascii(w)[k]);
        }
    }
    assert(s.subrange(i + a.len(), i + a.len() + b.len()) =~= ascii(b)) by {
        assert forall|k: int| 0 <= k < b.len() implies s.subrange(
            i + a.len(),
            i + a.len() + b.len(),
        )[k] == ascii(b)[k] by {
            assert(s.subrange(i, i + w.len())[a.len() + k] == ascii(w)[a.len() + k]);
        }
    }
}

/// The bytes of a text that stands in `s` are its characters.
pub proof fn lemma_at_index(s: Seq<u8>, i: int, w: Seq<char>, k: int)
    requires
        at(s, i, w),
        0 <= k < w.len(),
    ensures
        s[i + k] == w[k] as u8,
{
    assert(s.subrange(i, i + w.len())[k] == ascii(w)[k]);
}

/// A fixed text that stands at a position is read there.
pub proof fn lemma_expect(s: Seq<u8>, i: int, w: Seq<char>)
    requires
        at(s, i, w),
    ensures
        grammar::expect(s, i, ascii(w)) == Ok::<int, Error>(i + w.len()),
{
    assert(ascii(w).take(w.len() as int) =~= ascii(w));
}

/// `skip_name` passes over bytes of names.
proof fn lemma_skip_name_run(s: Seq<u8>, i: int, j: int)
    requires
        0 <= i <= j <= s.len(),
        forall|k: int| i <= k < j ==> grammar::is_name_byte(#[trigger] s[k]),
        j == s.len() || !grammar::is_name_byte(s[j]),
    ensures
        grammar::skip_name(s, i) == j,
    decreases j - i,
{
    if i < j {
        lemma_skip_name_run(s, i + 1, j);
    }
}

/// `skip_digits` passes over digits.
proof fn lemma_skip_digits_run(s: Seq<u8>, i: int, j: int)
    requires
        0 <= i <= j <= s.len(),
        forall|k: int| i <= k < j ==> grammar::is_digit(#[trigger] s[k]),
        j == s.len() || !grammar::is_digit(s[j]),
    ensures
        grammar::skip_digits(s, i) == j,
    decreases j - i,
{
    if i < j {
        lemma_skip_digits_run(s, i + 1, j);
    }
}

/// A valid name that stands at a position, with no byte of a name behind it,
/// is read there.
pub proof fn lemma_name(s: Seq<u8>, i: int, n: Ident)
    requires
        at(s, i, n),
        valid_name(n),
        bounded(s, i + n.len()),
    ensures
        grammar::name(s, i) == Ok::<(Ident, int), Error>((n, i + n.len())),
{
    let j = i + n.len();
    assert forall|k: int| i <= k < j implies grammar::is_name_byte(#[trigger] s[k]) by {
        lemma_at_index(s, i, n, k - i);
        assert('a' <= n[k - i] <= 'z' || n[k - i] == '_');
    }
    lemma_at_index(s, i, n, 0);
    lemma_skip_name_run(s, i + 1, j);
    assert(chars(ascii(n)) =~= n) by {
        assert forall|k: int| 0 <= k < n.len() implies chars(ascii(n))[k] == n[k] by {
            assert('a' <= n[k] <= 'z' || n[k] == '_');
        }
    }
}

/// The text of a natural number is made of digits and stands for the number.
proof fn lemma_render_nat(s: Seq<u8>, i: int, n: nat)
    requires
        at(s, i, render::render_nat(n)),
    ensures
        render::render_nat(n).len() > 0,
        forall|k: int|
            i <= k < i + render::render_nat(n).len() ==> grammar::is_digit(#[trigger] s[k]),
        grammar::decimal(s, i, i + render::render_nat(n).len()) == n,
    decreases n,
{
    let w = render::render_nat(n);
    if n < 10 {
        lemma_at_index(s, i, w, 0);
        assert(grammar::decimal(s, i, i) == 0);
    } else {
        let head = render::render_nat(n / 10);
        assert(w =~= head + seq![render::digit((n % 10) as int)]);
        lemma_at_split(s, i, head, seq![render::digit((n % 10) as int)]);
        lemma_render_nat(s, i, n / 10);
        lemma_at_index(s, i, w, w.len() - 1);
        assert forall|k: int| i <= k < i + w.len() implies grammar::is_digit(#[trigger] s[k]) by {
            if k < i + head.len() {
            } else {
            }
        }
    }
}

/// The text of an integer that stands at a position, with no digit behind it,
/// is read there.
pub proof fn lemma_integer(s: Seq<u8>, i: int, n: i64)
    requires
        at(s, i, render::render_i64(n)),
        bounded(s, i + render::render_i64(n).len()),
    ensures
        grammar::integer(s, i) == Ok::<(i64, int), Error>((n, i + render::render_i64(n).len())),
{
    let w = render::render_i64(n);
    if n < 0 {
        let digits = render::render_nat((-n) as nat);
        lemma_at_split(s, i, seq!['-'], digits);
        lemma_at_index(s, i, seq!['-'], 0);
        lemma_render_nat(s, i + 1, (-n) as nat);
        lemma_skip_digits_run(s, i + 1, i + 1 + digits.len());
    } else {
        lemma_render_nat(s, i, n as nat);
        lemma_skip_digits_run(s, i, i + w.len());
        lemma_at_index(s, i, w, 0);
    }
}

} // verus!

verus! {

/// An expression as the parser gives it: on the left of an operation stands
/// no operation of lower precedence, on its right none of lower or equal
/// precedence, and every name is valid.
pub open spec fn well_formed_expression(e: Expr) -> bool
    decreases e,
{
    match e {
        Expr::Operand(t) => well_formed_term(t),
        Expr::Operation(op, l, r) => {
            &&& well_formed_expression(*l)
            &&& well_formed_expression(*r)
            &&& l.root_precedence() >= op.precedence()
            &&& r.root_precedence() > op.precedence()
        },
    }
}

/// An operand as the parser gives it.
pub open spec fn well_formed_term(t: Term) -> bool
    decreases t,
{
    match t {
        Term::I64(_) => true,
        Term::Group(e) => well_formed_expression(*e),
        Term::VarSubstitution(n) => valid_name(n),
        Term::FnApplication(n, args) => {
            &&& valid_name(n)
            &&& forall|k: int| 0 <= k < args.len() ==> well_formed_expression(#[trigger] args[k])
        },
        Term::Match(m) => {
            &&& well_formed_expression(m.with)
            &&& well_formed_expression(m.default)
            &&& forall|k: int|
                0 <= k < m.clauses.len() ==> well_formed_expression((#[trigger] m.clauses[k]).0)
                    && well_formed_expression(m.clauses[k].1)
        },
    }
}

/// A statement as the parser gives it.
pub open spec fn well_formed_statement(s: Stmt) -> bool {
    match s {
        Stmt::VarAssignment(n, e) => valid_name(n) && well_formed_expression(e),
        Stmt::FnDefinition(n, params, e) => {
            &&& valid_name(n)
            &&& forall|k: int| 0 <= k < params.len() ==> valid_name(#[trigger] params[k])
            &&& well_formed_expression(e)
        },
    }
}

/// A program as the parser gives it.
pub open spec fn well_formed(p: Prog) -> bool {
    &&& forall|k: int| 0 <= k < p.inputs.len() ==> valid_name(#[trigger] p.inputs[k])
    &&& forall|k: int| 0 <= k < p.outputs.len() ==> valid_name(#[trigger] p.outputs[k])
    &&& forall|k: int|
        0 <= k < p.statements.len() ==> well_formed_statement(#[trigger] p.statements[k])
}

/// Whether the byte is the sign of an operator.
pub open spec fn is_operator_byte(b: u8) -> bool {
    b == ('+' as u8) || b == ('-' as u8) || b == ('*' as u8) || b == ('/' as u8)
}

/// The bytes that stand behind an expression in the text of a program.
pub open spec fn is_closer(b: u8) -> bool {
    b == (')' as u8) || b == (',' as u8) || b == (';' as u8) || b == ('{' as u8) || b == (
    '}' as u8) || b == ('=' as u8)
}

/// Behind position `end`, after whitespace, stands an operator or what ends
/// an expression.
pub open spec fn follows(s: Seq<u8>, end: int) -> bool {
    let k = grammar::skip_space(s, end);
    0 <= end <= k < s.len() && (is_operator_byte(s[k]) || is_closer(s[k]))
}

/// Behind position `end`, after whitespace, stands what ends an expression.
pub open spec fn closes(s: Seq<u8>, end: int) -> bool {
    let k = grammar::skip_space(s, end);
    0 <= end <= k < s.len() && is_closer(s[k])
}

/// Where `skip_space` stops stands no whitespace, and from any position on
/// the way it stops at the same place.
pub proof fn lemma_skip_space(s: Seq<u8>, i: int, j: int)
    requires
        0 <= i <= j <= grammar::skip_space(s, i),
        i <= s.len(),
    ensures
        grammar::skip_space(s, j) == grammar::skip_space(s, i),
        grammar::skip_space(s, i) <= s.len(),
        grammar::skip_space(s, i) < s.len() ==> !grammar::is_space(s[grammar::skip_space(s, i)]),
        forall|k: int| i <= k < grammar::skip_space(s, i) ==> grammar::is_space(#[trigger] s[k]),
    decreases s.len() - i,
{
    if i < s.len() && grammar::is_space(s[i]) {
        grammar::lemma_skip_bounds(s, i + 1);
        if j == i {
            lemma_skip_space(s, i + 1, i + 1);
        } else {
            lemma_skip_space(s, i + 1, j);
        }
    }
}

/// What an operand must have behind it holds where an operator or a closer
/// follows.
pub proof fn lemma_follows_bounded(s: Seq<u8>, end: int)
    requires
        follows(s, end),
    ensures
        bounded(s, end),
        end < s.len(),
{
    lemma_skip_space(s, end, end);
}

/// The operations along the right edge of the tree, topmost first, each with
/// its left side.
pub open spec fn spine(e: Expr) -> Seq<(Expr, Operator)>
    decreases e,
{
    match e {
        Expr::Operand(_) => Seq::empty(),
        Expr::Operation(op, l, r) => seq![(*l, op)] + spine(*r),
    }
}

/// The rightmost operand of the tree.
pub open spec fn last_operand(e: Expr) -> Expr
    decreases e,
{
    match e {
        Expr::Operand(_) => e,
        Expr::Operation(_, _, r) => last_operand(*r),
    }
}

/// The leftmost operand of the tree.
pub open spec fn first_term(e: Expr) -> Term
    decreases e,
{
    match e {
        Expr::Operand(t) => t,
        Expr::Operation(_, l, _) => first_term(*l),
    }
}

/// Folding the right edge of a tree gives the tree.
pub proof fn lemma_finish_spine(pending: Seq<(Expr, Operator)>, e: Expr)
    ensures
        (Yard { pending: pending + spine(e), last: last_operand(e) }).finish() == (Yard {
            pending,
            last: e,
        }).finish(),
    decreases e,
{
    match e {
        Expr::Operand(_) => {
            assert(pending + spine(e) =~= pending);
        },
        Expr::Operation(op, l, r) => {
            let below = pending.push((*l, op));
            assert(pending + spine(e) =~= below + spine(*r));
            lemma_finish_spine(below, *r);
            let y = Yard { pending: below, last: *r };
            assert(y.fold_top().pending =~= pending);
        },
    }
}

/// An operator that binds no tighter than the root of a well-formed tree
/// folds the whole right edge of the tree.
pub proof fn lemma_reduce_spine(pending: Seq<(Expr, Operator)>, e: Expr, op: Operator)
    requires
        well_formed_expression(e),
        op.precedence() <= e.root_precedence(),
    ensures
        (Yard { pending: pending + spine(e), last: last_operand(e) }).reduce(op) == (Yard {
            pending,
            last: e,
        }).reduce(op),
    decreases e,
{
    match e {
        Expr::Operand(_) => {
            assert(pending + spine(e) =~= pending);
        },
        Expr::Operation(o, l, r) => {
            let below = pending.push((*l, o));
            assert(pending + spine(e) =~= below + spine(*r));
            lemma_reduce_spine(below, *r, op);
            let y = Yard { pending: below, last: *r };
            assert(y.fold_top().pending =~= pending);
        },
    }
}

/// An expression whose text holds no parentheses but those of its groups:
/// no side of an operation is an operation of lower precedence, and every
/// name is valid.
pub open spec fn plain_expression(e: Expr) -> bool
    decreases e,
{
    match e {
        Expr::Operand(t) => plain_term(t),
        Expr::Operation(op, l, r) => {
            &&& plain_expression(*l)
            &&& plain_expression(*r)
            &&& !render::needs_parentheses(op, *l)
            &&& !render::needs_parentheses(op, *r)
        },
    }
}

/// An operand whose expressions are all plain.
pub open spec fn plain_term(t: Term) -> bool
    decreases t,
{
    match t {
        Term::I64(_) => true,
        Term::Group(e) => plain_expression(*e),
        Term::VarSubstitution(n) => valid_name(n),
        Term::FnApplication(n, args) => {
            &&& valid_name(n)
            &&& forall|k: int| 0 <= k < args.len() ==> plain_expression(#[trigger] args[k])
        },
        Term::Match(m) => {
            &&& plain_expression(m.with)
            &&& plain_expression(m.default)
            &&& forall|k: int|
                0 <= k < m.clauses.len() ==> plain_expression((#[trigger] m.clauses[k]).0)
                    && plain_expression(m.clauses[k].1)
        },
    }
}

/// A statement whose names are valid and whose expression is plain.
pub open spec fn plain_statement(s: Stmt) -> bool {
    match s {
        Stmt::VarAssignment(n, e) => valid_name(n) && plain_expression(e),
        Stmt::FnDefinition(n, params, e) => {
            &&& valid_name(n)
            &&& forall|k: int| 0 <= k < params.len() ==> valid_name(#[trigger] params[k])
            &&& plain_expression(e)
        },
    }
}

/// A program whose names are valid and whose expressions are plain.
pub open spec fn plain(p: Prog) -> bool {
    &&& forall|k: int| 0 <= k < p.inputs.len() ==> valid_name(#[trigger] p.inputs[k])
    &&& forall|k: int| 0 <= k < p.outputs.len() ==> valid_name(#[trigger] p.outputs[k])
    &&& forall|k: int| 0 <= k < p.statements.len() ==> plain_statement(#[trigger] p.statements[k])
}

/// The state of the resolver after the operators and operands, in order.
pub open spec fn feed(y: Yard, pairs: Seq<(Operator, Term)>) -> Yard
    decreases pairs.len(),
{
    if pairs.len() == 0 {
        y
    } else {
        feed(y.push(pairs[0].0, pairs[0].1), pairs.drop_first())
    }
}

/// The first operand of the expression, in canonical form.
pub open spec fn first(e: Expr) -> Term
    decreases e, 0nat,
{
    match e {
        Expr::Operand(t) => canonical_term(t),
        Expr::Operation(_, l, _) => first(*l),
    }
}

/// The operands of the expression behind the first, in canonical form, each
/// with the operator before it.
pub open spec fn pairs(e: Expr) -> Seq<(Operator, Term)>
    decreases e, 0nat,
{
    match e {
        Expr::Operand(_) => Seq::empty(),
        Expr::Operation(op, l, r) => pairs(*l) + seq![(op, first(*r))] + pairs(*r),
    }
}

/// The canonical form of an expression: its operands and operators, resolved
/// by precedence. It is what the text of the expression is read as.
pub open spec fn canonical_expression(e: Expr) -> Expr
    decreases e, 1nat,
{
    feed(Yard::new(first(e)), pairs(e)).finish()
}

/// The canonical form of an operand: that of the expressions in it.
pub open spec fn canonical_term(t: Term) -> Term
    decreases t, 0nat,
{
    match t {
        Term::I64(_) => t,
        Term::Group(e) => Term::Group(Box::new(canonical_expression(*e))),
        Term::VarSubstitution(_) => t,
        Term::FnApplication(n, args) => Term::FnApplication(
            n,
            Seq::new(
                args.len(),
                |k: int|
                    if 0 <= k < args.len() {
                        canonical_expression(args[k])
                    } else {
                        arbitrary()
                    },
            ),
        ),
        Term::Match(m) => Term::Match(
            Box::new(
                Arms {
                    with: canonical_expression(m.with),
                    clauses: Seq::new(
                        m.clauses.len(),
                        |k: int|
                            if 0 <= k < m.clauses.len() {
                                (
                                    canonical_expression(m.clauses[k].0),
                                    canonical_expression(m.clauses[k].1),
                                )
                            } else {
                                arbitrary()
                            },
                    ),
                    default: canonical_expression(m.default),
                },
            ),
        ),
    }
}

/// The canonical forms of the expressions.
pub open spec fn canonical_expressions(es: Seq<Expr>) -> Seq<Expr> {
    Seq::new(es.len(), |k: int| canonical_expression(es[k]))
}

/// The canonical forms of the clauses.
pub open spec fn canonical_clauses(cs: Seq<(Expr, Expr)>) -> Seq<(Expr, Expr)> {
    Seq::new(cs.len(), |k: int| (canonical_expression(cs[k].0), canonical_expression(cs[k].1)))
}

/// The canonical form of a statement.
pub open spec fn canonical_statement(s: Stmt) -> Stmt {
    match s {
        Stmt::VarAssignment(n, e) => Stmt::VarAssignment(n, canonical_expression(e)),
        Stmt::FnDefinition(n, params, e) => Stmt::FnDefinition(n, params, canonical_expression(e)),
    }
}

/// The canonical forms of the statements.
pub open spec fn canonical_statements(ss: Seq<Stmt>) -> Seq<Stmt> {
    Seq::new(ss.len(), |k: int| canonical_statement(ss[k]))
}

/// The canonical form of a program: what its text is read as.
pub open spec fn canonical(p: Prog) -> Prog {
    Prog {
        inputs: p.inputs,
        statements: canonical_statements(p.statements),
        outputs: p.outputs,
    }
}

/// The parts of the canonical form of an operand.
pub proof fn lemma_canonical_parts(t: Term)
    ensures
        t matches Term::FnApplication(n, args) ==> canonical_term(t) == Term::FnApplication(
            n,
            canonical_expressions(args),
        ),
        t matches Term::Match(m) ==> canonical_term(t) == Term::Match(
            Box::new(
                Arms {
                    with: canonical_expression(m.with),
                    clauses: canonical_clauses(m.clauses),
                    default: canonical_expression(m.default),
                },
            ),
        ),
{
    match t {
        Term::FnApplication(n, args) => {
            assert(canonical_term(t)->FnApplication_1 =~= canonical_expressions(args));
        },
        Term::Match(m) => {
            assert(canonical_term(t)->Match_0.clauses =~= canonical_clauses(m.clauses));
        },
        _ => {},
    }
}

/// Feeding two runs one behind the other is feeding the first, then the
/// second.
pub proof fn lemma_feed_append(y: Yard, a: Seq<(Operator, Term)>, b: Seq<(Operator, Term)>)
    ensures
        feed(y, a + b) == feed(feed(y, a), b),
    decreases a.len(),
{
    if a.len() == 0 {
        assert(a + b =~= b);
    } else {
        assert((a + b).drop_first() =~= a.drop_first() + b);
        lemma_feed_append(y.push(a[0].0, a[0].1), a.drop_first(), b);
    }
}

/// The text of a well-formed operand begins with a byte that is no whitespace.
pub proof fn lemma_term_starts(s: Seq<u8>, i: int, t: Term)
    requires
        plain_term(t),
        at(s, i, render::render_term(t)),
    ensures
        render::render_term(t).len() > 0,
        i < s.len(),
        !grammar::is_space(s[i]),
{
    match t {
        Term::I64(n) => {
            if n < 0 {
                lemma_at_index(s, i, render::render_i64(n), 0);
            } else {
                lemma_render_nat(s, i, n as nat);
            }
        },
        Term::Group(e) => {
            reveal_strlit("(");
            lemma_at_split(s, i, "("@ + render::render_expression(*e), ")"@);
            lemma_at_split(s, i, "("@, render::render_expression(*e));
            lemma_at_index(s, i, "("@, 0);
        },
        Term::VarSubstitution(n) => {
            lemma_at_index(s, i, n, 0);
        },
        Term::FnApplication(n, args) => {
            let tail = "("@ + render::join(render::render_expressions(args), ", "@) + ")"@;
            assert(render::render_term(t) =~= n + tail);
            lemma_at_split(s, i, n, tail);
            lemma_at_index(s, i, n, 0);
        },
        Term::Match(m) => {
            reveal_strlit("match ");
            let tail = render::render_expression(m.with) + " { "@ + render::render_clauses(
                m.clauses,
            ).flatten() + "_ => "@ + render::render_expression(m.default) + ", "@ + "}"@;
            assert(render::render_term(t) =~= "match "@ + tail);
            lemma_at_split(s, i, "match "@, tail);
            lemma_at_index(s, i, "match "@, 0);
        },
    }
}

/// The text of a well-formed expression begins with a byte that is no
/// whitespace.
pub proof fn lemma_expression_starts(s: Seq<u8>, i: int, e: Expr)
    requires
        plain_expression(e),
        at(s, i, render::render_expression(e)),
    ensures
        render::render_expression(e).len() > 0,
        i < s.len(),
        !grammar::is_space(s[i]),
    decreases e,
{
    match e {
        Expr::Operand(t) => {
            lemma_term_starts(s, i, t);
        },
        Expr::Operation(op, l, r) => {
            let tail = " "@ + render::render_operator(op) + " "@ + render::render_side(op, *r);
            assert(render::render_expression(e) =~= render::render_expression(*l) + tail);
            lemma_at_split(s, i, render::render_expression(*l), tail);
            lemma_expression_starts(s, i, *l);
        },
    }
}

} // verus!

verus! {

/// A byte with which no operand begins.
pub open spec fn begins_no_operand(b: u8) -> bool {
    !grammar::is_digit(b) && !grammar::is_lower(b) && !grammar::is_space(b) && b != ('-' as u8)
        && b != ('(' as u8)
}

/// Where the text begins with a byte with which no operand begins, no
/// operand and no expression is read.
pub proof fn lemma_no_operand(s: Seq<u8>, l: int, i: int)
    requires
        0 <= l <= i < s.len(),
        grammar::skip_space(s, l) == i,
        begins_no_operand(s[i]),
    ensures
        grammar::operand(s, i) is Err,
        grammar::expression(s, l) is Err,
{
    reveal_strlit("(");
    reveal_strlit("match ");
    lemma_skip_space(s, l, i);
    assert(grammar::integer(s, i) is Err);
    assert(grammar::group(s, i) is Err) by {
        let w = ascii("("@);
        assert(s.subrange(i, i + 1)[0] != w.take(1)[0]);
    }
    assert(grammar::name(s, i) is Err);
    assert(grammar::match_(s, i) is Err) by {
        let w = ascii("match "@);
        let n = if w.len() <= s.len() - i {
            w.len() as int
        } else {
            s.len() - i
        };
        assert(s.subrange(i, i + n)[0] != w.take(n)[0]);
    }
}

/// A part of the text that differs from a fixed text in its first byte is
/// not read as that text.
pub proof fn lemma_expect_fails(s: Seq<u8>, i: int, w: Seq<char>)
    requires
        0 <= i < s.len(),
        w.len() > 0,
        s[i] != w[0] as u8,
    ensures
        grammar::expect(s, i, ascii(w)) is Err,
{
    let word = ascii(w);
    let n = if word.len() <= s.len() - i {
        word.len() as int
    } else {
        s.len() - i
    };
    assert(s.subrange(i, i + n)[0] != word.take(n)[0]);
}

/// The sign of an operator that stands at a position is read there.
pub proof fn lemma_operator(s: Seq<u8>, i: int, op: Operator)
    requires
        at(s, i, render::render_operator(op)),
    ensures
        grammar::operator(s, i) == Ok::<(Operator, int), Error>((op, i + 1)),
        render::render_operator(op).len() == 1,
{
    reveal_strlit("+");
    reveal_strlit("-");
    reveal_strlit("*");
    reveal_strlit("/");
    lemma_at_index(s, i, render::render_operator(op), 0);
}

/// An expression in its text is read operand by operand: the first operand
/// is read where the text begins, and reading on from there leads to where
/// the text ends, with the operands and operators behind the first fed to
/// the resolver.
#[verifier::rlimit(40)]
pub proof fn lemma_chain(e: Expr, s: Seq<u8>, i: int, yard: Yard)
    requires
        plain_expression(e),
        at(s, i, render::render_expression(e)),
        follows(s, i + render::render_expression(e).len()),
    ensures
        grammar::operand(s, i) matches Ok((t, j)) && t == first(e) && i < j <= s.len()
            && grammar::expression_tail(s, grammar::skip_space(s, j), yard)
            == grammar::expression_tail(
            s,
            grammar::skip_space(s, i + render::render_expression(e).len()),
            feed(yard, pairs(e)),
        ),
    decreases e, 0nat,
{
    let end = i + render::render_expression(e).len();
    match e {
        Expr::Operand(t) => {
            lemma_term(t, s, i);
            let j = grammar::operand(s, i)->Ok_0.1;
            lemma_skip_space(s, end, j);
        },
        Expr::Operation(op, l, r) => {
            let left = render::render_expression(*l);
            let right = render::render_expression(*r);
            let sign = render::render_operator(op);
            reveal_strlit(" ");
            assert(render::render_side(op, *l) == left);
            assert(render::render_side(op, *r) == right);
            lemma_at_split(s, i, left + " "@ + sign + " "@, right);
            lemma_at_split(s, i, left + " "@ + sign, " "@);
            lemma_at_split(s, i, left + " "@, sign);
            lemma_at_split(s, i, left, " "@);
            let p = i + left.len() + 1;
            lemma_operator(s, p, op);
            lemma_at_index(s, p - 1, " "@, 0);
            lemma_at_index(s, p + 1, " "@, 0);
            let start = p + 2;
            lemma_expression_starts(s, start, *r);
            // The left side, then the operator.
            assert(grammar::skip_space(s, p - 1) == p) by {
                assert(grammar::skip_space(s, p) == p);
            }
            lemma_chain(*l, s, i, yard);
            let before = feed(yard, pairs(*l));
            assert(grammar::skip_space(s, p + 1) == start) by {
                assert(grammar::skip_space(s, start) == start);
            }
            // The right side, with the operation pushed.
            let pushed = before.push(op, first(*r));
            lemma_chain(*r, s, start, pushed);
            let middle = seq![(op, first(*r))];
            lemma_feed_append(yard, pairs(*l), middle);
            lemma_feed_append(yard, pairs(*l) + middle, pairs(*r));
            assert(feed(before, middle) == pushed) by {
                assert(middle.drop_first() =~= Seq::empty());
                reveal_with_fuel(feed, 2);
            }
            // Reading goes on behind the operand on the right.
            grammar::lemma_skip_bounds(s, grammar::operand(s, i)->Ok_0.1);
            grammar::lemma_skip_bounds(s, grammar::operand(s, start)->Ok_0.1);
        },
    }
}

/// A plain expression in its text, with whitespace before it and the end of
/// an expression behind it, is read there as its canonical form.
pub proof fn lemma_expression(e: Expr, s: Seq<u8>, from: int, i: int)
    requires
        plain_expression(e),
        0 <= from <= i,
        grammar::skip_space(s, from) == i,
        at(s, i, render::render_expression(e)),
        closes(s, i + render::render_expression(e).len()),
    ensures
        grammar::expression(s, from) == Ok::<(Expr, int), Error>(
            (
                canonical_expression(e),
                grammar::skip_space(s, i + render::render_expression(e).len()),
            ),
        ),
        from < grammar::skip_space(s, i + render::render_expression(e).len()) <= s.len(),
    decreases e, 1nat,
{
    let end = i + render::render_expression(e).len();
    let k = grammar::skip_space(s, end);
    lemma_expression_starts(s, i, e);
    lemma_chain(e, s, i, Yard::new(first(e)));
    let done = feed(Yard::new(first(e)), pairs(e));
    assert(grammar::expression_tail(s, k, done) == (done.finish(), k));
    grammar::lemma_skip_bounds(s, grammar::operand(s, i)->Ok_0.1);
}

/// A well-formed operand in its text, with an operator or the end of an
/// expression behind it, is read there. Whitespace behind it may be read too.
#[verifier::rlimit(40)]
pub proof fn lemma_term(t: Term, s: Seq<u8>, i: int)
    requires
        plain_term(t),
        at(s, i, render::render_term(t)),
        follows(s, i + render::render_term(t).len()),
    ensures
        grammar::operand(s, i) matches Ok((u, j)) && u == canonical_term(t) && i < j && i + render::render_term(
            t,
        ).len() <= j <= grammar::skip_space(s, i + render::render_term(t).len()),
    decreases t, 1nat,
{
    let end = i + render::render_term(t).len();
    lemma_follows_bounded(s, end);
    lemma_term_starts(s, i, t);
    match t {
        Term::I64(n) => {
            lemma_integer(s, i, n);
        },
        Term::Group(e) => {
            reveal_strlit("(");
            reveal_strlit(")");
            let inner = render::render_expression(*e);
            lemma_at_split(s, i, "("@ + inner, ")"@);
            lemma_at_split(s, i, "("@, inner);
            lemma_at_index(s, i, "("@, 0);
            lemma_at_index(s, i + 1 + inner.len(), ")"@, 0);
            assert(grammar::integer(s, i) is Err);
            lemma_expect(s, i, "("@);
            assert(grammar::skip_space(s, i + 1 + inner.len()) == i + 1 + inner.len());
            lemma_expression_starts(s, i + 1, *e);
            assert(grammar::skip_space(s, i + 1) == i + 1);
            lemma_expression(*e, s, i + 1, i + 1);
            lemma_expect(s, i + 1 + inner.len(), ")"@);
        },
        Term::VarSubstitution(n) => {
            reveal_strlit("(");
            lemma_at_index(s, i, n, 0);
            assert(grammar::integer(s, i) is Err);
            lemma_expect_fails(s, i, "("@);
            lemma_name(s, i, n);
        },
        Term::FnApplication(n, args) => {
            lemma_application(t, s, i);
        },
        Term::Match(m) => {
            lemma_match(t, s, i);
        },
    }
}

/// A prefix of a text that stands at a position stands there too.
pub proof fn lemma_at_prefix(s: Seq<u8>, i: int, w: Seq<char>, n: int)
    requires
        at(s, i, w),
        0 <= n <= w.len(),
    ensures
        at(s, i, w.take(n)),
{
    assert(w =~= w.take(n) + w.skip(n));
    lemma_at_split(s, i, w.take(n), w.skip(n));
}

/// What stands at a position where no whitespace stands ends an expression
/// there, if it is a closer.
pub proof fn lemma_closes_here(s: Seq<u8>, i: int)
    requires
        0 <= i < s.len(),
        is_closer(s[i]),
    ensures
        closes(s, i),
        follows(s, i),
        grammar::skip_space(s, i) == i,
{
}

/// The arguments of a function application in their text, with `)` behind
/// them, are read there.
#[verifier::rlimit(40)]
pub proof fn lemma_arguments(args: Seq<Expr>, s: Seq<u8>, i: int)
    requires
        forall|k: int| 0 <= k < args.len() ==> plain_expression(#[trigger] args[k]),
        at(s, i, render::join(render::render_expressions(args), ", "@)),
        i + render::join(render::render_expressions(args), ", "@).len() < s.len(),
        s[i + render::join(render::render_expressions(args), ", "@).len()] == (')' as u8),
    ensures
        grammar::expressions(s, i) == (
            canonical_expressions(args),
            i + render::join(render::render_expressions(args), ", "@).len(),
        ),
    decreases args, args.len() + 1,
{
    let parts = render::render_expressions(args);
    if args.len() == 0 {
        lemma_no_operand(s, i, i);
        assert(canonical_expressions(args) =~= Seq::empty());
    } else {
        reveal_strlit(", ");
        let first = render::render_expression(args[0]);
        let rest = render::join_rest(parts.drop_first(), ", "@);
        lemma_at_split(s, i, first, rest);
        let end = i + first.len();
        assert(parts.drop_first() =~= parts.skip(1));
        if args.len() > 1 {
            lemma_at_index(s, end, rest, 0);
        } else {
            assert(rest.len() == 0);
        }
        lemma_closes_here(s, end);
        lemma_expression_starts(s, i, args[0]);
        lemma_expression(args[0], s, i, i);
        lemma_more_arguments(args, 1, s, end);
        assert(seq![canonical_expression(args[0])] + canonical_expressions(args).skip(1)
            =~= canonical_expressions(args));
    }
}

/// The arguments from position `from` on, each with its comma before it and
/// `)` behind the last, are read.
#[verifier::rlimit(40)]
pub proof fn lemma_more_arguments(args: Seq<Expr>, from: int, s: Seq<u8>, i: int)
    requires
        1 <= from <= args.len(),
        forall|k: int| 0 <= k < args.len() ==> plain_expression(#[trigger] args[k]),
        at(s, i, render::join_rest(render::render_expressions(args).skip(from), ", "@)),
        i + render::join_rest(render::render_expressions(args).skip(from), ", "@).len() < s.len(),
        s[i + render::join_rest(render::render_expressions(args).skip(from), ", "@).len()] == (
        ')' as u8),
    ensures
        grammar::more_expressions(s, i) == (
            canonical_expressions(args).skip(from),
            i + render::join_rest(render::render_expressions(args).skip(from), ", "@).len(),
        ),
    decreases args, args.len() - from,
{
    let parts = render::render_expressions(args);
    reveal_strlit(", ");
    reveal_strlit(",");
    if from == args.len() {
        assert(parts.skip(from) =~= Seq::empty());
        lemma_expect_fails(s, i, ","@);
        assert(canonical_expressions(args).skip(from) =~= Seq::empty());
    } else {
        render::lemma_join_rest_skip(parts, ", "@, from);
        let this = render::render_expression(args[from]);
        let rest = render::join_rest(parts.skip(from + 1), ", "@);
        lemma_at_split(s, i, ", "@ + this, rest);
        lemma_at_split(s, i, ", "@, this);
        lemma_at_index(s, i, ", "@, 0);
        lemma_at_index(s, i, ", "@, 1);
        lemma_at_prefix(s, i, ", "@, 1);
        assert(", "@.take(1) =~= ","@);
        lemma_expect(s, i, ","@);
        let start = i + 2;
        let end = start + this.len();
        if from + 1 < args.len() {
            render::lemma_join_rest_skip(parts, ", "@, from + 1);
            lemma_at_index(s, end, rest, 0);
        } else {
            assert(parts.skip(from + 1) =~= Seq::empty());
            assert(rest.len() == 0);
        }
        lemma_closes_here(s, end);
        lemma_expression_starts(s, start, args[from]);
        assert(grammar::skip_space(s, i + 1) == start) by {
            assert(grammar::skip_space(s, start) == start);
        }
        lemma_expression(args[from], s, i + 1, start);
        lemma_more_arguments(args, from + 1, s, end);
        assert(seq![canonical_expression(args[from])] + canonical_expressions(args).skip(from + 1)
            =~= canonical_expressions(args).skip(from));
    }
}

/// The case of [`lemma_term`] for a function application.
#[verifier::rlimit(40)]
pub proof fn lemma_application(t: Term, s: Seq<u8>, i: int)
    requires
        t is FnApplication,
        plain_term(t),
        at(s, i, render::render_term(t)),
        follows(s, i + render::render_term(t).len()),
    ensures
        grammar::operand(s, i) matches Ok((u, j)) && u == canonical_term(t) && i < j && i + render::render_term(
            t,
        ).len() <= j <= grammar::skip_space(s, i + render::render_term(t).len()),
    decreases t, 0nat,
{
    let n = t->FnApplication_0;
    let args = t->FnApplication_1;
    lemma_canonical_parts(t);
    let list = render::join(render::render_expressions(args), ", "@);
    reveal_strlit("(");
    reveal_strlit(")");
    lemma_at_split(s, i, n + "("@ + list, ")"@);
    lemma_at_split(s, i, n + "("@, list);
    lemma_at_split(s, i, n, "("@);
    let open = i + n.len();
    let close = open + 1 + list.len();
    let end = close + 1;
    lemma_at_index(s, i, n, 0);
    lemma_at_index(s, open, "("@, 0);
    lemma_at_index(s, close, ")"@, 0);
    assert(grammar::integer(s, i) is Err);
    lemma_expect_fails(s, i, "("@);
    lemma_name(s, i, n);
    assert(grammar::skip_space(s, open) == open);
    assert(grammar::variable_substitution(s, i) is Err);
    lemma_expect(s, open, "("@);
    lemma_arguments(args, s, open + 1);
    assert(grammar::skip_space(s, close) == close);
    lemma_expect(s, close, ")"@);
    grammar::lemma_skip_bounds(s, end);
}

/// The clauses of a match as they are read from its text: each clause with
/// its matcher, then the default.
pub open spec fn full_clauses(m: Arms) -> Seq<grammar::ClauseModel> {
    Seq::new(
        m.clauses.len() + 1,
        |k: int|
            if k < m.clauses.len() {
                (Some(canonical_expression(m.clauses[k].0)), canonical_expression(m.clauses[k].1))
            } else {
                (None, canonical_expression(m.default))
            },
    )
}

/// The text of a match from its clause `from` on.
pub open spec fn rest_text(m: Arms, from: int) -> Seq<char> {
    render::render_clauses(m.clauses).skip(from).flatten() + "_ => "@ + render::render_expression(
        m.default,
    ) + ", "@ + "}"@
}

/// Among clauses read from a text the default is the last one, and the others
/// are the clauses of the match.
pub proof fn lemma_full_clauses(m: Arms, n: int)
    requires
        0 <= n <= m.clauses.len(),
    ensures
        grammar::matchers_of(full_clauses(m).take(n)) == canonical_clauses(m.clauses).take(n),
        n == m.clauses.len() ==> grammar::default_of(full_clauses(m)) == Some(
            canonical_expression(m.default),
        ) && grammar::matchers_of(full_clauses(m)) == canonical_clauses(m.clauses),
    decreases n,
{
    let full = full_clauses(m);
    if n > 0 {
        lemma_full_clauses(m, n - 1);
        assert(full.take(n).drop_last() =~= full.take(n - 1));
        let all = canonical_clauses(m.clauses);
        assert(all.take(n) =~= all.take(n - 1).push(all[n - 1]));
    } else {
        assert(canonical_clauses(m.clauses).take(0) =~= Seq::empty());
    }
    if n == m.clauses.len() {
        assert(full.drop_last() =~= full.take(n));
        assert(canonical_clauses(m.clauses).take(n) =~= canonical_clauses(m.clauses));
        assert(full.last() == (None::<Expr>, canonical_expression(m.default)));
        assert forall|k: int| 0 <= k < full.len() - 1 implies (#[trigger] full[k]).0 is Some by {}
    }
}

/// The arrow and the value of a clause, with the comma behind them, are read.
#[verifier::rlimit(40)]
pub proof fn lemma_arrow_value(v: Expr, s: Seq<u8>, p: int)
    requires
        plain_expression(v),
        at(s, p, " => "@ + render::render_expression(v) + ", "@),
    ensures
        grammar::skip_space(s, p) == p + 1,
        grammar::skip_space(s, p + 1) == p + 1,
        s[p + 1] == ('=' as u8),
        grammar::expect(s, p + 1, ascii("=>"@)) == Ok::<int, Error>(p + 3),
        grammar::expression(s, p + 3) == Ok::<(Expr, int), Error>(
            (canonical_expression(v), p + 4 + render::render_expression(v).len()),
        ),
        p + 4 + render::render_expression(v).len() + 2 <= s.len(),
        s[p + 4 + render::render_expression(v).len()] == (',' as u8),
        s[p + 4 + render::render_expression(v).len() + 1] == (' ' as u8),
    decreases v, 2nat,
{
    reveal_strlit(" => ");
    reveal_strlit("=>");
    reveal_strlit(", ");
    let value = render::render_expression(v);
    lemma_at_split(s, p, " => "@ + value, ", "@);
    lemma_at_split(s, p, " => "@, value);
    lemma_at_index(s, p, " => "@, 0);
    lemma_at_index(s, p, " => "@, 1);
    lemma_at_index(s, p, " => "@, 2);
    lemma_at_index(s, p, " => "@, 3);
    let comma = p + 4 + value.len();
    lemma_at_index(s, comma, ", "@, 0);
    lemma_at_index(s, comma, ", "@, 1);
    assert(grammar::skip_space(s, p + 1) == p + 1);
    assert(at(s, p + 1, "=>"@)) by {
        assert(s.subrange(p + 1, p + 3) =~= ascii("=>"@));
    }
    lemma_expect(s, p + 1, "=>"@);
    lemma_expression_starts(s, p + 4, v);
    assert(grammar::skip_space(s, p + 3) == p + 4) by {
        assert(grammar::skip_space(s, p + 4) == p + 4);
    }
    lemma_closes_here(s, comma);
    lemma_expression(v, s, p + 3, p + 4);
}

/// The text of a match from a clause on begins with a byte that is no
/// whitespace.
#[verifier::rlimit(40)]
pub proof fn lemma_rest_starts(m: Arms, from: int, s: Seq<u8>, q: int)
    requires
        plain_term(Term::Match(Box::new(m))),
        0 <= from <= m.clauses.len(),
        at(s, q, rest_text(m, from)),
    ensures
        q < s.len(),
        !grammar::is_space(s[q]),
        from == m.clauses.len() ==> s[q] == ('_' as u8),
{
    let parts = render::render_clauses(m.clauses);
    let tail = "_ => "@ + render::render_expression(m.default) + ", "@ + "}"@;
    reveal_strlit("_ => ");
    if from < m.clauses.len() {
        render::lemma_flatten_skip(parts, from);
        let matcher = render::render_expression(m.clauses[from].0);
        let after = " => "@ + render::render_expression(m.clauses[from].1) + ", "@
            + parts.skip(from + 1).flatten() + tail;
        assert(rest_text(m, from) =~= matcher + after);
        lemma_at_split(s, q, matcher, after);
        lemma_expression_starts(s, q, m.clauses[from].0);
    } else {
        assert(parts.skip(from) =~= Seq::empty());
        let after = render::render_expression(m.default) + ", "@ + "}"@;
        assert(rest_text(m, from) =~= "_ => "@ + after);
        lemma_at_split(s, q, "_ => "@, after);
        lemma_at_index(s, q, "_ => "@, 0);
    }
}

/// A clause of a match is read from its text.
#[verifier::rlimit(40)]
pub proof fn lemma_clause_read(m: Arms, from: int, s: Seq<u8>, l: int, q: int)
    requires
        plain_term(Term::Match(Box::new(m))),
        0 <= from < m.clauses.len(),
        0 <= l <= q,
        grammar::skip_space(s, l) == q,
        at(s, q, rest_text(m, from)),
    ensures
        grammar::match_clause(s, l) matches Ok((c, comma)) && c == full_clauses(m)[from] && l
            < comma && comma + 2 <= s.len() && s[comma] == (',' as u8) && s[comma + 1] == (
        ' ' as u8) && at(s, comma + 2, rest_text(m, from + 1)) && comma + 2 + rest_text(
            m,
            from + 1,
        ).len() == q + rest_text(m, from).len(),
    decreases m, 0nat,
{
    let parts = render::render_clauses(m.clauses);
    let matcher = render::render_expression(m.clauses[from].0);
    let value = render::render_expression(m.clauses[from].1);
    let arrow = " => "@ + value + ", "@;
    let next = rest_text(m, from + 1);
    let p = q + matcher.len();
    let comma = p + 4 + value.len();
    assert(rest_text(m, from) =~= matcher + arrow + next) by {
        render::lemma_flatten_skip(parts, from);
    }
    assert(arrow.len() == value.len() + 6) by {
        reveal_strlit(" => ");
        reveal_strlit(", ");
    }
    lemma_at_split(s, q, matcher + arrow, next);
    lemma_at_split(s, q, matcher, arrow);
    lemma_arrow_value(m.clauses[from].1, s, p);
    assert(closes(s, p)) by {
        lemma_closes_here(s, p + 1);
    }
    lemma_expression(m.clauses[from].0, s, l, q);
    lemma_match_clause(
        s,
        l,
        canonical_expression(m.clauses[from].0),
        p + 1,
        canonical_expression(m.clauses[from].1),
        comma,
    );
}

/// A clause is read where its matcher, the arrow and its value are read one
/// behind the other.
proof fn lemma_match_clause(s: Seq<u8>, l: int, matcher: Expr, j: int, value: Expr, end: int)
    requires
        0 <= l < j <= s.len(),
        grammar::expression(s, l) == Ok::<(Expr, int), Error>((matcher, j)),
        grammar::skip_space(s, j) == j,
        grammar::expect(s, j, ascii("=>"@)) == Ok::<int, Error>(j + 2),
        grammar::expression(s, j + 2) == Ok::<(Expr, int), Error>((value, end)),
    ensures
        grammar::match_clause(s, l) == Ok::<(grammar::ClauseModel, int), Error>(
            ((Some(matcher), value), end),
        ),
{
}

/// The default of a match is read from its text, and no clause behind it.
#[verifier::rlimit(40)]
pub proof fn lemma_default_read(m: Arms, s: Seq<u8>, l: int, q: int)
    requires
        plain_term(Term::Match(Box::new(m))),
        0 <= l <= q,
        grammar::skip_space(s, l) == q,
        at(s, q, rest_text(m, m.clauses.len() as int)),
    ensures
        grammar::match_clause(s, l) matches Ok((c, comma)) && c == (
            None::<Expr>,
            canonical_expression(m.default),
        ) && l
            < comma <= s.len() && comma == q + rest_text(m, m.clauses.len() as int).len() - 3
            && grammar::more_match_clauses(s, comma) == (
            Seq::<grammar::ClauseModel>::empty(),
            comma,
        ),
    decreases m, 0nat,
{
    let n = m.clauses.len() as int;
    let parts = render::render_clauses(m.clauses);
    reveal_strlit("_ => ");
    reveal_strlit(" => ");
    reveal_strlit("_");
    reveal_strlit(",");
    reveal_strlit(", ");
    reveal_strlit("}");
    lemma_skip_space(s, l, l);
    assert(parts.skip(n) =~= Seq::empty());
    let value = render::render_expression(m.default);
    let arrow = " => "@ + value + ", "@;
    assert("_ => "@ =~= "_"@ + " => "@);
    assert(rest_text(m, n) =~= "_"@ + arrow + "}"@);
    lemma_at_split(s, q, "_"@ + arrow, "}"@);
    lemma_at_split(s, q, "_"@, arrow);
    lemma_at_index(s, q, "_"@, 0);
    lemma_no_operand(s, l, q);
    lemma_expect(s, q, "_"@);
    lemma_arrow_value(m.default, s, q + 1);
    let comma = q + 5 + value.len();
    lemma_at_index(s, comma + 2, "}"@, 0);
    assert(grammar::match_clause(s, l) == Ok::<(grammar::ClauseModel, int), Error>(
        ((None, canonical_expression(m.default)), comma),
    ));
    lemma_after_default(s, comma);
}

/// Behind a comma that a closing brace follows no clause is read.
#[verifier::rlimit(40)]
pub proof fn lemma_after_default(s: Seq<u8>, comma: int)
    requires
        0 <= comma,
        comma + 3 <= s.len(),
        s[comma] == (',' as u8),
        s[comma + 1] == (' ' as u8),
        s[comma + 2] == ('}' as u8),
    ensures
        grammar::more_match_clauses(s, comma) == (Seq::<grammar::ClauseModel>::empty(), comma),
        grammar::match_end(s, comma) == Ok::<int, Error>(grammar::skip_space(s, comma + 3)),
{
    reveal_strlit("_");
    reveal_strlit(",");
    reveal_strlit("}");
    assert(grammar::skip_space(s, comma) == comma);
    assert(at(s, comma, ","@)) by {
        assert(s.subrange(comma, comma + 1) =~= ascii(","@));
    }
    lemma_expect(s, comma, ","@);
    assert(grammar::skip_space(s, comma + 1) == comma + 2) by {
        assert(grammar::skip_space(s, comma + 2) == comma + 2);
    }
    lemma_no_operand(s, comma + 1, comma + 2);
    lemma_expect_fails(s, comma + 2, "_"@);
    assert(grammar::match_clause(s, comma + 1) is Err);
    assert(at(s, comma + 2, "}"@)) by {
        assert(s.subrange(comma + 2, comma + 3) =~= ascii("}"@));
    }
    lemma_expect(s, comma + 2, "}"@);
}

/// The clauses of a match from position `from` on, and its default, are read
/// from their text: the first where the text begins, the others behind it.
#[verifier::rlimit(40)]
pub proof fn lemma_clauses_from(m: Arms, from: int, s: Seq<u8>, l: int, q: int)
    requires
        plain_term(Term::Match(Box::new(m))),
        0 <= from <= m.clauses.len(),
        0 <= l <= q,
        grammar::skip_space(s, l) == q,
        at(s, q, rest_text(m, from)),
    ensures
        grammar::match_clause(s, l) matches Ok((c, j)) && c == full_clauses(m)[from] && l < j
            <= s.len() && grammar::more_match_clauses(s, j) == (
            full_clauses(m).skip(from + 1),
            q + rest_text(m, from).len() - 3,
        ),
    decreases m, m.clauses.len() - from + 1,
{
    let full = full_clauses(m);
    if from < m.clauses.len() {
        lemma_clause_read(m, from, s, l, q);
        let comma = grammar::match_clause(s, l)->Ok_0.1;
        reveal_strlit(",");
        lemma_rest_starts(m, from + 1, s, comma + 2);
        assert(grammar::skip_space(s, comma + 1) == comma + 2) by {
            assert(grammar::skip_space(s, comma + 2) == comma + 2);
        }
        assert(grammar::skip_space(s, comma) == comma);
        assert(at(s, comma, ","@)) by {
            assert(s.subrange(comma, comma + 1) =~= ascii(","@));
        }
        lemma_expect(s, comma, ","@);
        lemma_clauses_from(m, from + 1, s, comma + 1, comma + 2);
        assert(seq![full[from + 1]] + full.skip(from + 2) =~= full.skip(from + 1));
    } else {
        lemma_default_read(m, s, l, q);
        assert(full.skip(from + 1) =~= Seq::empty());
    }
}

/// The case of [`lemma_term`] for a match.
#[verifier::rlimit(40)]
pub proof fn lemma_match(t: Term, s: Seq<u8>, i: int)
    requires
        t is Match,
        plain_term(t),
        at(s, i, render::render_term(t)),
        follows(s, i + render::render_term(t).len()),
    ensures
        grammar::operand(s, i) matches Ok((u, j)) && u == canonical_term(t) && i < j && i + render::render_term(
            t,
        ).len() <= j <= grammar::skip_space(s, i + render::render_term(t).len()),
    decreases t, 0nat,
{
    let m = *t->Match_0;
    let with = render::render_expression(m.with);
    let parts = render::render_clauses(m.clauses);
    reveal_strlit("match ");
    reveal_strlit("match");
    reveal_strlit(" { ");
    reveal_strlit("{");
    reveal_strlit("(");
    reveal_strlit(",");
    reveal_strlit(", ");
    reveal_strlit("}");
    assert(parts.skip(0) =~= parts);
    let rest = rest_text(m, 0);
    assert(render::render_term(t) =~= "match "@ + with + " { "@ + rest);
    lemma_at_split(s, i, "match "@ + with + " { "@, rest);
    lemma_at_split(s, i, "match "@ + with, " { "@);
    lemma_at_split(s, i, "match "@, with);
    let start = i + 6;
    let brace = start + with.len() + 1;
    let q = brace + 2;
    let end = q + rest.len();
    lemma_at_index(s, i, "match "@, 0);
    lemma_at_index(s, i, "match "@, 1);
    lemma_at_index(s, i, "match "@, 2);
    lemma_at_index(s, i, "match "@, 3);
    lemma_at_index(s, i, "match "@, 4);
    lemma_at_index(s, i, "match "@, 5);
    lemma_at_index(s, brace - 1, " { "@, 0);
    lemma_at_index(s, brace - 1, " { "@, 1);
    lemma_at_index(s, brace - 1, " { "@, 2);
    // No other form of operand is read here.
    assert(grammar::integer(s, i) is Err);
    lemma_expect_fails(s, i, "("@);
    assert(grammar::name(s, i) is Err) by {
        lemma_skip_name_run(s, i + 1, i + 5);
        assert(s.subrange(i, i + 5) =~= ascii("match"@));
    }
    // The keyword and the scrutinee.
    assert(grammar::skip_space(s, i) == i);
    lemma_expect(s, i, "match "@);
    lemma_expression_starts(s, start, m.with);
    assert(grammar::skip_space(s, start) == start);
    lemma_closes_here(s, brace);
    assert(closes(s, brace - 1));
    lemma_expression(m.with, s, start, start);
    assert(at(s, brace, "{"@)) by {
        assert(s.subrange(brace, brace + 1) =~= ascii("{"@));
    }
    lemma_expect(s, brace, "{"@);
    // The clauses.
    lemma_rest_starts(m, 0, s, q);
    assert(grammar::skip_space(s, brace + 1) == q) by {
        assert(grammar::skip_space(s, q) == q);
    }
    lemma_clauses_from(m, 0, s, brace + 1, q);
    let full = full_clauses(m);
    assert(seq![full[0]] + full.skip(1) =~= full);
    lemma_full_clauses(m, m.clauses.len() as int);
    // The end.
    let comma = end - 3;
    lemma_at_prefix(s, q, rest, rest.len() - 3);
    assert(rest =~= rest.take(rest.len() - 3) + (", "@ + "}"@));
    lemma_at_split(s, q, rest.take(rest.len() - 3), ", "@ + "}"@);
    lemma_at_split(s, comma, ", "@, "}"@);
    lemma_at_index(s, comma, ", "@, 0);
    lemma_at_index(s, comma, ", "@, 1);
    lemma_at_index(s, comma + 2, "}"@, 0);
    lemma_after_default(s, comma);
    grammar::lemma_skip_bounds(s, end);
    lemma_canonical_parts(t);
    assert(grammar::match_(s, i) == Ok::<(Term, int), Error>(
        (canonical_term(t), grammar::skip_space(s, end)),
    ));
}

} // verus!

verus! {

/// A byte that stands behind a list of names: `)` or `;`.
pub open spec fn ends_names(b: u8) -> bool {
    b == (')' as u8) || b == (';' as u8)
}

/// The names from position `from` on, each with its comma before it, are read.
#[verifier::rlimit(40)]
pub proof fn lemma_more_names(names: Seq<Ident>, from: int, s: Seq<u8>, i: int)
    requires
        1 <= from <= names.len(),
        forall|k: int| 0 <= k < names.len() ==> valid_name(#[trigger] names[k]),
        at(s, i, render::join_rest(names.skip(from), ", "@)),
        i + render::join_rest(names.skip(from), ", "@).len() < s.len(),
        ends_names(s[i + render::join_rest(names.skip(from), ", "@).len()]),
    ensures
        grammar::more_names(s, i) == (
            names.skip(from),
            i + render::join_rest(names.skip(from), ", "@).len(),
        ),
    decreases names.len() - from,
{
    reveal_strlit(", ");
    reveal_strlit(",");
    if from == names.len() {
        assert(names.skip(from) =~= Seq::empty());
        lemma_expect_fails(s, i, ","@);
    } else {
        render::lemma_join_rest_skip(names, ", "@, from);
        let this = names[from];
        let rest = render::join_rest(names.skip(from + 1), ", "@);
        lemma_at_split(s, i, ", "@ + this, rest);
        lemma_at_split(s, i, ", "@, this);
        lemma_at_index(s, i, ", "@, 0);
        lemma_at_index(s, i, ", "@, 1);
        lemma_at_prefix(s, i, ", "@, 1);
        assert(", "@.take(1) =~= ","@);
        lemma_expect(s, i, ","@);
        let start = i + 2;
        let end = start + this.len();
        lemma_at_index(s, start, this, 0);
        if from + 1 < names.len() {
            render::lemma_join_rest_skip(names, ", "@, from + 1);
            lemma_at_index(s, end, rest, 0);
        } else {
            assert(names.skip(from + 1) =~= Seq::empty());
            assert(rest.len() == 0);
        }
        assert(grammar::skip_space(s, i + 1) == start) by {
            assert(grammar::skip_space(s, start) == start);
        }
        lemma_name(s, start, this);
        lemma_more_names(names, from + 1, s, end);
        assert(seq![this] + names.skip(from + 1) =~= names.skip(from));
    }
}

/// Names in their text, separated by commas, with `)` or `;` behind them, are
/// read there.
#[verifier::rlimit(40)]
pub proof fn lemma_names(names: Seq<Ident>, s: Seq<u8>, i: int)
    requires
        forall|k: int| 0 <= k < names.len() ==> valid_name(#[trigger] names[k]),
        at(s, i, render::join(names, ", "@)),
        i + render::join(names, ", "@).len() < s.len(),
        ends_names(s[i + render::join(names, ", "@).len()]),
    ensures
        grammar::names(s, i) == (names, i + render::join(names, ", "@).len()),
{
    reveal_strlit(", ");
    if names.len() == 0 {
        assert(names =~= Seq::empty());
    } else {
        let first = names[0];
        let rest = render::join_rest(names.drop_first(), ", "@);
        lemma_at_split(s, i, first, rest);
        let end = i + first.len();
        assert(names.drop_first() =~= names.skip(1));
        if names.len() > 1 {
            render::lemma_join_rest_skip(names, ", "@, 1);
            lemma_at_index(s, end, rest, 0);
        } else {
            assert(names.skip(1) =~= Seq::empty());
            assert(rest.len() == 0);
        }
        lemma_name(s, i, first);
        lemma_more_names(names, 1, s, end);
        assert(seq![first] + names.skip(1) =~= names);
    }
}

/// The sign `=`, a well-formed expression and `;` are read from their text.
#[verifier::rlimit(40)]
pub proof fn lemma_definition(e: Expr, s: Seq<u8>, l: int, p: int)
    requires
        plain_expression(e),
        p <= l <= p + 1,
        at(s, p, " = "@ + render::render_expression(e) + ";"@),
    ensures
        grammar::definition(s, l) == Ok::<(Expr, int), Error>(
            (canonical_expression(e), p + 4 + render::render_expression(e).len()),
        ),
        (" = "@ + render::render_expression(e) + ";"@).len() == 4 + render::render_expression(
            e,
        ).len(),
        s[p] == (' ' as u8),
        s[p + 1] == ('=' as u8),
{
    reveal_strlit(" = ");
    reveal_strlit("=");
    reveal_strlit(";");
    let text = render::render_expression(e);
    lemma_at_split(s, p, " = "@ + text, ";"@);
    lemma_at_split(s, p, " = "@, text);
    lemma_at_index(s, p, " = "@, 0);
    lemma_at_index(s, p, " = "@, 1);
    lemma_at_index(s, p, " = "@, 2);
    let end = p + 3 + text.len();
    lemma_at_index(s, end, ";"@, 0);
    assert(grammar::skip_space(s, p + 1) == p + 1);
    assert(grammar::skip_space(s, p) == p + 1);
    assert(at(s, p + 1, "="@)) by {
        assert(s.subrange(p + 1, p + 2) =~= ascii("="@));
    }
    lemma_expect(s, p + 1, "="@);
    lemma_expression_starts(s, p + 3, e);
    assert(grammar::skip_space(s, p + 2) == p + 3) by {
        assert(grammar::skip_space(s, p + 3) == p + 3);
    }
    lemma_closes_here(s, end);
    lemma_expression(e, s, p + 2, p + 3);
    lemma_expect(s, end, ";"@);
}

/// A well-formed assignment in its text is read there.
#[verifier::rlimit(40)]
proof fn lemma_assignment(n: Ident, e: Expr, s: Seq<u8>, i: int)
    requires
        valid_name(n),
        plain_expression(e),
        at(s, i, render::render_statement(Stmt::VarAssignment(n, e))),
    ensures
        grammar::statement(s, i) == Ok::<(Stmt, int), Error>(
            (
                Stmt::VarAssignment(n, canonical_expression(e)),
                i + render::render_statement(Stmt::VarAssignment(n, e)).len(),
            ),
        ),
        i < s.len(),
        grammar::is_lower(s[i]),
{
    let rest = " = "@ + render::render_expression(e) + ";"@;
    assert(render::render_statement(Stmt::VarAssignment(n, e)) =~= n + rest);
    lemma_at_split(s, i, n, rest);
    let p = i + n.len();
    lemma_definition(e, s, p + 1, p);
    lemma_at_index(s, i, n, 0);
    lemma_name(s, i, n);
    assert(grammar::skip_space(s, p) == p + 1) by {
        assert(grammar::skip_space(s, p + 1) == p + 1);
    }
}

/// The head of a function definition in its text is read: the name and the
/// parameters in parentheses.
#[verifier::rlimit(40)]
proof fn lemma_definition_head(n: Ident, params: Seq<Ident>, s: Seq<u8>, i: int)
    requires
        valid_name(n),
        forall|k: int| 0 <= k < params.len() ==> valid_name(#[trigger] params[k]),
        at(s, i, n + "("@ + render::join(params, ", "@) + ")"@),
    ensures
        grammar::name(s, i) == Ok::<(Ident, int), Error>((n, i + n.len())),
        grammar::skip_space(s, i + n.len()) == i + n.len(),
        s[i + n.len()] == ('(' as u8),
        grammar::names(s, grammar::skip_space(s, i + n.len() + 1)) == (
            params,
            i + n.len() + 1 + render::join(params, ", "@).len(),
        ),
        grammar::expect(
            s,
            grammar::skip_space(s, i + n.len() + 1 + render::join(params, ", "@).len()),
            ascii(")"@),
        ) == Ok::<int, Error>(i + n.len() + 2 + render::join(params, ", "@).len()),
        (n + "("@ + render::join(params, ", "@) + ")"@).len() == n.len() + 2 + render::join(
            params,
            ", "@,
        ).len(),
        i < s.len(),
        grammar::is_lower(s[i]),
{
    reveal_strlit("(");
    reveal_strlit(")");
    let list = render::join(params, ", "@);
    lemma_at_split(s, i, n + "("@ + list, ")"@);
    lemma_at_split(s, i, n + "("@, list);
    lemma_at_split(s, i, n, "("@);
    let open = i + n.len();
    let close = open + 1 + list.len();
    lemma_at_index(s, i, n, 0);
    lemma_at_index(s, open, "("@, 0);
    lemma_at_index(s, close, ")"@, 0);
    lemma_name(s, i, n);
    assert(grammar::skip_space(s, open) == open);
    lemma_names(params, s, open + 1);
    if params.len() > 0 {
        lemma_at_split(s, open + 1, params[0], render::join_rest(params.drop_first(), ", "@));
        lemma_at_index(s, open + 1, params[0], 0);
    }
    assert(grammar::skip_space(s, open + 1) == open + 1);
    assert(grammar::skip_space(s, close) == close);
    lemma_expect(s, close, ")"@);
}

/// A well-formed function definition in its text is read there.
#[verifier::rlimit(40)]
proof fn lemma_function_definition(n: Ident, params: Seq<Ident>, e: Expr, s: Seq<u8>, i: int)
    requires
        valid_name(n),
        forall|k: int| 0 <= k < params.len() ==> valid_name(#[trigger] params[k]),
        plain_expression(e),
        at(s, i, render::render_statement(Stmt::FnDefinition(n, params, e))),
    ensures
        grammar::statement(s, i) == Ok::<(Stmt, int), Error>(
            (
                Stmt::FnDefinition(n, params, canonical_expression(e)),
                i + render::render_statement(Stmt::FnDefinition(n, params, e)).len(),
            ),
        ),
        i < s.len(),
        grammar::is_lower(s[i]),
{
    reveal_strlit(") = ");
    reveal_strlit(")");
    reveal_strlit(" = ");
    let head = n + "("@ + render::join(params, ", "@) + ")"@;
    let rest = " = "@ + render::render_expression(e) + ";"@;
    assert(") = "@ =~= ")"@ + " = "@);
    assert(render::render_statement(Stmt::FnDefinition(n, params, e)) =~= head + rest);
    lemma_at_split(s, i, head, rest);
    lemma_definition_head(n, params, s, i);
    let p = i + head.len();
    lemma_definition(e, s, p, p);
}

/// A well-formed statement in its text is read there.
pub proof fn lemma_statement(st: Stmt, s: Seq<u8>, i: int)
    requires
        plain_statement(st),
        at(s, i, render::render_statement(st)),
    ensures
        grammar::statement(s, i) == Ok::<(Stmt, int), Error>(
            (canonical_statement(st), i + render::render_statement(st).len()),
        ),
        i < s.len(),
        grammar::is_lower(s[i]),
{
    match st {
        Stmt::VarAssignment(n, e) => {
            lemma_assignment(n, e, s, i);
        },
        Stmt::FnDefinition(n, params, e) => {
            lemma_function_definition(n, params, e, s, i);
        },
    }
}

} // verus!

verus! {

/// A declaration in its text is read there: the keyword, the names and `;`.
#[verifier::rlimit(40)]
pub proof fn lemma_declaration(keyword: Seq<char>, names: Seq<Ident>, s: Seq<u8>, l: int, p: int)
    requires
        forall|k: int| 0 <= k < names.len() ==> valid_name(#[trigger] names[k]),
        0 <= l <= p,
        grammar::skip_space(s, l) == p,
        at(s, p, render::render_declaration(keyword, names)),
    ensures
        grammar::declaration(s, l, ascii(keyword)) == Ok::<(Seq<Ident>, int), Error>(
            (names, p + render::render_declaration(keyword, names).len()),
        ),
{
    reveal_strlit(";");
    reveal_strlit(" ");
    let after = p + keyword.len();
    if names.len() == 0 {
        lemma_at_split(s, p, keyword, ";"@);
        lemma_expect(s, p, keyword);
        lemma_at_index(s, after, ";"@, 0);
        assert(grammar::skip_space(s, after) == after);
        assert(grammar::names(s, after) == (Seq::<Ident>::empty(), after));
        assert(names =~= Seq::empty());
        lemma_expect(s, after, ";"@);
    } else {
        let list = render::join(names, ", "@);
        lemma_at_split(s, p, keyword + " "@ + list, ";"@);
        lemma_at_split(s, p, keyword + " "@, list);
        lemma_at_split(s, p, keyword, " "@);
        lemma_expect(s, p, keyword);
        lemma_at_index(s, after, " "@, 0);
        let end = after + 1 + list.len();
        lemma_at_index(s, end, ";"@, 0);
        lemma_at_split(s, after + 1, names[0], render::join_rest(names.drop_first(), ", "@));
        lemma_at_index(s, after + 1, names[0], 0);
        assert(grammar::skip_space(s, after) == after + 1) by {
            assert(grammar::skip_space(s, after + 1) == after + 1);
        }
        lemma_names(names, s, after + 1);
        assert(grammar::skip_space(s, end) == end);
        lemma_expect(s, end, ";"@);
    }
}

/// The texts of the statements, in order.
pub open spec fn statement_texts(statements: Seq<Stmt>) -> Seq<Seq<char>> {
    Seq::new(statements.len(), |i: int| render::render_statement(statements[i]))
}

/// The text of a program from behind its statement `from - 1` on: the
/// statements that are left, each on a line of its own, and the outputs.
pub open spec fn tail_text(p: Prog, from: int) -> Seq<char> {
    render::join_rest(statement_texts(p.statements).skip(from), "\n"@) + "\n"@
        + render::render_declaration("outputs"@, p.outputs)
}

/// No statement is read where the declaration of the outputs stands.
#[verifier::rlimit(40)]
proof fn lemma_no_statement(names: Seq<Ident>, s: Seq<u8>, i: int)
    requires
        at(s, i, render::render_declaration("outputs"@, names)),
    ensures
        grammar::statement(s, i) is Err,
        i < s.len(),
        !grammar::is_space(s[i]),
{
    reveal_strlit("outputs");
    reveal_strlit(";");
    reveal_strlit(" ");
    let keyword = "outputs"@;
    if names.len() == 0 {
        lemma_at_split(s, i, keyword, ";"@);
        lemma_at_index(s, i + 7, ";"@, 0);
    } else {
        let list = render::join(names, ", "@);
        lemma_at_split(s, i, keyword + " "@ + list, ";"@);
        lemma_at_split(s, i, keyword + " "@, list);
        lemma_at_split(s, i, keyword, " "@);
        lemma_at_index(s, i + 7, " "@, 0);
    }
    lemma_at_index(s, i, keyword, 0);
    lemma_at_index(s, i, keyword, 1);
    lemma_at_index(s, i, keyword, 2);
    lemma_at_index(s, i, keyword, 3);
    lemma_at_index(s, i, keyword, 4);
    lemma_at_index(s, i, keyword, 5);
    lemma_at_index(s, i, keyword, 6);
    lemma_skip_name_run(s, i + 1, i + 7);
}

/// The declaration of the outputs, on a line of its own, is read there.
#[verifier::rlimit(40)]
proof fn lemma_outputs(p: Prog, s: Seq<u8>, k: int)
    requires
        plain(p),
        at(s, k, "\n"@ + render::render_declaration("outputs"@, p.outputs)),
    ensures
        grammar::declaration(s, k, ascii("outputs"@)) == Ok::<(Seq<Ident>, int), Error>(
            (p.outputs, k + 1 + render::render_declaration("outputs"@, p.outputs).len()),
        ),
        grammar::statements(s, k) == (Seq::<Stmt>::empty(), k),
        ("\n"@ + render::render_declaration("outputs"@, p.outputs)).len() == 1
            + render::render_declaration("outputs"@, p.outputs).len(),
{
    reveal_strlit("\n");
    let outputs = render::render_declaration("outputs"@, p.outputs);
    lemma_at_split(s, k, "\n"@, outputs);
    lemma_at_index(s, k, "\n"@, 0);
    lemma_no_statement(p.outputs, s, k + 1);
    assert(grammar::skip_space(s, k) == k + 1) by {
        assert(grammar::skip_space(s, k + 1) == k + 1);
    }
    lemma_declaration("outputs"@, p.outputs, s, k, k + 1);
}

/// The statements of a well-formed program from position `from` on are read
/// from their text, and behind them the declaration of the outputs.
#[verifier::rlimit(40)]
pub proof fn lemma_statements(p: Prog, from: int, s: Seq<u8>, j: int)
    requires
        plain(p),
        0 <= from <= p.statements.len(),
        at(s, j, tail_text(p, from)),
    ensures
        grammar::statements(s, j).0 == canonical_statements(p.statements).skip(from),
        grammar::declaration(s, grammar::statements(s, j).1, ascii("outputs"@)) == Ok::<
            (Seq<Ident>, int),
            Error,
        >((p.outputs, j + tail_text(p, from).len())),
    decreases p.statements.len() - from,
{
    let texts = statement_texts(p.statements);
    let outputs = render::render_declaration("outputs"@, p.outputs);
    if from < p.statements.len() {
        reveal_strlit("\n");
        render::lemma_join_rest_skip(texts, "\n"@, from);
        let this = texts[from];
        let next = tail_text(p, from + 1);
        assert(tail_text(p, from) =~= "\n"@ + this + next);
        lemma_at_split(s, j, "\n"@ + this, next);
        lemma_at_split(s, j, "\n"@, this);
        lemma_at_index(s, j, "\n"@, 0);
        lemma_statement(p.statements[from], s, j + 1);
        assert(grammar::skip_space(s, j) == j + 1) by {
            assert(grammar::skip_space(s, j + 1) == j + 1);
        }
        lemma_statements(p, from + 1, s, j + 1 + this.len());
        assert(seq![canonical_statement(p.statements[from])] + canonical_statements(
            p.statements,
        ).skip(from + 1) =~= canonical_statements(p.statements).skip(from));
    } else {
        assert(texts.skip(from) =~= Seq::empty());
        assert(tail_text(p, from) =~= "\n"@ + outputs);
        lemma_outputs(p, s, j);
        assert(canonical_statements(p.statements).skip(from) =~= Seq::empty());
    }
}

/// The text of a program is the declaration of its inputs, then what stands
/// behind it.
proof fn lemma_program_text(p: Prog)
    ensures
        render::render_program(p) == render::render_declaration("inputs"@, p.inputs) + tail_text(
            p,
            0,
        ),
        render::render_declaration("inputs"@, p.inputs).len() > 0,
        render::render_declaration("inputs"@, p.inputs)[0] == 'i',
{
    reveal_strlit("inputs");
    let inputs = render::render_declaration("inputs"@, p.inputs);
    let texts = statement_texts(p.statements);
    assert(texts.skip(0) =~= texts);
    if p.statements.len() > 0 {
        assert(texts.drop_first() =~= texts.skip(1));
        render::lemma_join_rest_skip(texts, "\n"@, 0);
    }
    assert(render::render_program(p) =~= inputs + tail_text(p, 0));
    if p.inputs.len() == 0 {
        assert(inputs =~= "inputs"@ + ";"@);
    } else {
        assert(inputs =~= "inputs"@ + (" "@ + render::join(p.inputs, ", "@) + ";"@));
    }
}

/// A text that is the declaration of the inputs of a plain program and what
/// stands behind it is read as the canonical form of the program.
proof fn lemma_program(p: Prog, s: Seq<u8>)
    requires
        plain(p),
        at(s, 0, render::render_declaration("inputs"@, p.inputs)),
        at(s, render::render_declaration("inputs"@, p.inputs).len() as int, tail_text(p, 0)),
        s.len() == render::render_declaration("inputs"@, p.inputs).len() + tail_text(p, 0).len(),
    ensures
        grammar::program(s) == Ok::<Prog, Error>(canonical(p)),
{
    let inputs = render::render_declaration("inputs"@, p.inputs);
    let j = inputs.len() as int;
    lemma_program_text(p);
    lemma_at_index(s, 0, inputs, 0);
    assert(grammar::skip_space(s, 0) == 0);
    lemma_declaration("inputs"@, p.inputs, s, 0, 0);
    lemma_statements(p, 0, s, j);
    assert(canonical_statements(p.statements).skip(0) =~= canonical_statements(p.statements));
    assert(grammar::skip_space(s, s.len() as int) == s.len());
}

/// The text of a plain program is read as the canonical form of the program.
pub proof fn lemma_parse_plain(p: Prog)
    requires
        plain(p),
    ensures
        grammar::program(ascii(render::render_program(p))) == Ok::<Prog, Error>(canonical(p)),
{
    let text = render::render_program(p);
    let s = ascii(text);
    let inputs = render::render_declaration("inputs"@, p.inputs);
    lemma_program_text(p);
    assert(at(s, 0, inputs + tail_text(p, 0))) by {
        assert(s.subrange(0, text.len() as int) =~= s);
    }
    lemma_at_split(s, 0, inputs, tail_text(p, 0));
    lemma_program(p, s);
}

} // verus!

verus! {

/// A well-formed expression is plain.
pub proof fn lemma_well_formed_is_plain(e: Expr)
    requires
        well_formed_expression(e),
    ensures
        plain_expression(e),
    decreases e,
{
    match e {
        Expr::Operand(t) => {
            lemma_well_formed_term_is_plain(t);
        },
        Expr::Operation(_, l, r) => {
            lemma_well_formed_is_plain(*l);
            lemma_well_formed_is_plain(*r);
        },
    }
}

/// A well-formed operand is plain.
pub proof fn lemma_well_formed_term_is_plain(t: Term)
    requires
        well_formed_term(t),
    ensures
        plain_term(t),
    decreases t,
{
    match t {
        Term::Group(inner) => {
            lemma_well_formed_is_plain(*inner);
        },
        Term::FnApplication(_, args) => {
            assert forall|k: int| 0 <= k < args.len() implies plain_expression(
                #[trigger] args[k],
            ) by {
                lemma_well_formed_is_plain(args[k]);
            }
        },
        Term::Match(m) => {
            lemma_well_formed_is_plain(m.with);
            lemma_well_formed_is_plain(m.default);
            assert forall|k: int| 0 <= k < m.clauses.len() implies plain_expression(
                (#[trigger] m.clauses[k]).0,
            ) && plain_expression(m.clauses[k].1) by {
                lemma_well_formed_is_plain(m.clauses[k].0);
                lemma_well_formed_is_plain(m.clauses[k].1);
            }
        },
        _ => {},
    }
}

/// A well-formed statement is plain.
pub proof fn lemma_well_formed_statement_is_plain(s: Stmt)
    requires
        well_formed_statement(s),
    ensures
        plain_statement(s),
{
    match s {
        Stmt::VarAssignment(_, e) => {
            lemma_well_formed_is_plain(e);
        },
        Stmt::FnDefinition(_, _, e) => {
            lemma_well_formed_is_plain(e);
        },
    }
}

/// The operands and operators of a well-formed tree, fed to the resolver
/// with operations of lower precedence pending, leave the right edge of the
/// tree pending as well.
pub proof fn lemma_feed_spine(pending: Seq<(Expr, Operator)>, e: Expr)
    requires
        well_formed_expression(e),
        pending.len() > 0 ==> pending.last().1.precedence() < e.root_precedence(),
    ensures
        feed(Yard { pending, last: Expr::Operand(first(e)) }, pairs(e)) == (Yard {
            pending: pending + spine(e),
            last: last_operand(e),
        }),
    decreases e, 0nat,
{
    match e {
        Expr::Operand(t) => {
            lemma_canonical_term(t);
            assert(pending + spine(e) =~= pending);
        },
        Expr::Operation(op, l, r) => {
            let start = Yard { pending, last: Expr::Operand(first(e)) };
            let middle = seq![(op, first(*r))];
            lemma_feed_append(start, pairs(*l), middle);
            lemma_feed_append(start, pairs(*l) + middle, pairs(*r));
            lemma_feed_spine(pending, *l);
            let before = Yard { pending: pending + spine(*l), last: last_operand(*l) };
            lemma_reduce_spine(pending, *l, op);
            let below = pending.push((*l, op));
            assert(before.push(op, first(*r)) == (Yard {
                pending: below,
                last: Expr::Operand(first(*r)),
            })) by {
                let whole = Yard { pending, last: *l };
                assert(whole.reduce(op) == whole);
            }
            assert(feed(before, middle) == before.push(op, first(*r))) by {
                assert(middle.drop_first() =~= Seq::empty());
                reveal_with_fuel(feed, 2);
            }
            lemma_feed_spine(below, *r);
            assert(below + spine(*r) =~= pending + spine(e));
        },
    }
}

/// A well-formed expression is its own canonical form.
pub proof fn lemma_canonical_expression(e: Expr)
    requires
        well_formed_expression(e),
    ensures
        canonical_expression(e) == e,
    decreases e, 1nat,
{
    lemma_feed_spine(Seq::empty(), e);
    lemma_finish_spine(Seq::empty(), e);
    assert(Seq::<(Expr, Operator)>::empty() + spine(e) =~= spine(e));
    let whole = Yard { pending: Seq::empty(), last: e };
    assert(whole.finish() == e);
}

/// A well-formed operand is its own canonical form.
pub proof fn lemma_canonical_term(t: Term)
    requires
        well_formed_term(t),
    ensures
        canonical_term(t) == t,
    decreases t, 0nat,
{
    lemma_canonical_parts(t);
    match t {
        Term::Group(e) => {
            lemma_canonical_expression(*e);
        },
        Term::FnApplication(_, args) => {
            assert(canonical_expressions(args) =~= args) by {
                assert forall|k: int| 0 <= k < args.len() implies canonical_expressions(args)[k]
                    == args[k] by {
                    lemma_canonical_expression(args[k]);
                }
            }
        },
        Term::Match(m) => {
            lemma_canonical_expression(m.with);
            lemma_canonical_expression(m.default);
            assert(canonical_clauses(m.clauses) =~= m.clauses) by {
                assert forall|k: int| 0 <= k < m.clauses.len() implies canonical_clauses(
                    m.clauses,
                )[k] == m.clauses[k] by {
                    lemma_canonical_expression(m.clauses[k].0);
                    lemma_canonical_expression(m.clauses[k].1);
                }
            }
        },
        _ => {},
    }
}

/// A well-formed program is plain, and its own canonical form.
pub proof fn lemma_canonical(p: Prog)
    requires
        well_formed(p),
    ensures
        plain(p),
        canonical(p) == p,
{
    assert forall|k: int| 0 <= k < p.statements.len() implies plain_statement(
        #[trigger] p.statements[k],
    ) && canonical_statement(p.statements[k]) == p.statements[k] by {
        lemma_well_formed_statement_is_plain(p.statements[k]);
        match p.statements[k] {
            Stmt::VarAssignment(_, e) => {
                lemma_canonical_expression(e);
            },
            Stmt::FnDefinition(_, _, e) => {
                lemma_canonical_expression(e);
            },
        }
    }
    assert(canonical_statements(p.statements) =~= p.statements);
}

/// Parsing inverts rendering: the text of a well-formed program is read as
/// that program.
pub proof fn lemma_round_trip(p: Prog)
    requires
        well_formed(p),
    ensures
        grammar::program(ascii(render::render_program(p))) == Ok::<Prog, Error>(p),
{
    lemma_canonical(p);
    lemma_parse_plain(p);
}

} // verus!
