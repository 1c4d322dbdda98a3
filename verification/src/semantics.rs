//! The meaning of programs: what an expression evaluates to, and what a
//! program gives for its inputs.

use crate::interpreter::Error;
use crate::model::{Arms, Expr, Ident, Operator, Prog, Stmt, Term};
use vstd::prelude::*;
use vstd::wrapping::i64_specs;

verus! {

/// A function as defined: its parameters and its body.
pub ghost struct Function {
    pub params: Seq<Ident>,
    pub body: Expr,
}

/// The variables in scope, with their values.
pub type Variables = Map<Ident, i64>;

/// The functions defined so far.
pub type Functions = Map<Ident, Function>;

/// What the statements executed so far have bound.
pub ghost struct State {
    pub vars: Variables,
    pub fns: Functions,
}

/// The quotient rounded towards zero.
pub open spec fn truncated_quotient(l: int, r: int) -> int
    recommends
        r != 0,
{
    if l >= 0 && r > 0 {
        l / r
    } else if l < 0 && r < 0 {
        (-l) / (-r)
    } else if l < 0 {
        -((-l) / r)
    } else {
        -(l / (-r))
    }
}

/// The value of an operation on 64-bit signed integers. Sums, differences,
/// products and quotients wrap; a division by zero has no value.
pub open spec fn apply(op: Operator, l: i64, r: i64) -> Result<i64, Error> {
    match op {
        Operator::Add => Ok(i64_specs::wrapping_add(l, r)),
        Operator::Subtract => Ok(i64_specs::wrapping_sub(l, r)),
        Operator::Multiply => Ok(i64_specs::wrapping_mul(l, r)),
        Operator::Divide => if r == 0 {
            Err(Error::DivisionByZero)
        } else {
            Ok(i64_specs::signed_crop(truncated_quotient(l as int, r as int)))
        },
    }
}

/// The names bound to the values, position by position; of two equal names
/// the later one holds.
pub open spec fn bind(names: Seq<Ident>, values: Seq<i64>) -> Variables
    recommends
        names.len() == values.len(),
    decreases names.len(),
{
    if names.len() == 0 || values.len() == 0 {
        Map::empty()
    } else {
        bind(names.drop_last(), values.drop_last()).insert(names.last(), values.last())
    }
}

/// The value of an expression. `depth` is how deep function applications may
/// still nest.
pub open spec fn eval_expression(e: Expr, vars: Variables, fns: Functions, depth: nat) -> Result<
    i64,
    Error,
>
    decreases depth, e, 0nat,
{
    match e {
        Expr::Operand(t) => eval_term(t, vars, fns, depth),
        Expr::Operation(op, l, r) => match eval_expression(*l, vars, fns, depth) {
            Err(e) => Err(e),
            Ok(a) => match eval_expression(*r, vars, fns, depth) {
                Err(e) => Err(e),
                Ok(b) => apply(op, a, b),
            },
        },
    }
}

/// The value of an operand.
pub open spec fn eval_term(t: Term, vars: Variables, fns: Functions, depth: nat) -> Result<
    i64,
    Error,
>
    decreases depth, t, 0nat,
{
    match t {
        Term::I64(n) => Ok(n),
        Term::Group(e) => eval_expression(*e, vars, fns, depth),
        Term::VarSubstitution(n) => if vars.contains_key(n) {
            Ok(vars[n])
        } else {
            Err(Error::UndefinedVariable)
        },
        Term::FnApplication(n, args) => if !fns.contains_key(n) {
            Err(Error::UndefinedFunction)
        } else if fns[n].params.len() != args.len() {
            Err(Error::CallArity)
        } else {
            match eval_arguments(args, 0, vars, fns, depth) {
                Err(e) => Err(e),
                Ok(values) => if depth == 0 {
                    Err(Error::RecursionLimit)
                } else {
                    eval_expression(
                        fns[n].body,
                        bind(fns[n].params, values),
                        fns,
                        (depth - 1) as nat,
                    )
                },
            }
        },
        Term::Match(m) => match eval_expression(m.with, vars, fns, depth) {
            Err(e) => Err(e),
            Ok(v) => eval_clauses(*m, 0, v, vars, fns, depth),
        },
    }
}

/// The values of the arguments from position `from` on, left to right.
pub open spec fn eval_arguments(
    args: Seq<Expr>,
    from: nat,
    vars: Variables,
    fns: Functions,
    depth: nat,
) -> Result<Seq<i64>, Error>
    decreases depth, args, args.len() - from,
{
    if from >= args.len() {
        Ok(Seq::empty())
    } else {
        match eval_expression(args[from as int], vars, fns, depth) {
            Err(e) => Err(e),
            Ok(v) => match eval_arguments(args, from + 1, vars, fns, depth) {
                Err(e) => Err(e),
                Ok(rest) => Ok(seq![v] + rest),
            },
        }
    }
}

/// The value of a match whose scrutinee has the value `v`, by the clauses from
/// position `from` on: the value of the first clause whose matcher has the
/// value `v`, or else of the default.
pub open spec fn eval_clauses(
    m: Arms,
    from: nat,
    v: i64,
    vars: Variables,
    fns: Functions,
    depth: nat,
) -> Result<i64, Error>
    decreases depth, m, m.clauses.len() - from,
{
    if from >= m.clauses.len() {
        eval_expression(m.default, vars, fns, depth)
    } else {
        match eval_expression(m.clauses[from as int].0, vars, fns, depth) {
            Err(e) => Err(e),
            Ok(w) => if w == v {
                eval_expression(m.clauses[from as int].1, vars, fns, depth)
            } else {
                eval_clauses(m, from + 1, v, vars, fns, depth)
            },
        }
    }
}

/// The state after one statement.
pub open spec fn step(s: Stmt, state: State, depth: nat) -> Result<State, Error> {
    match s {
        Stmt::VarAssignment(n, e) => match eval_expression(e, state.vars, state.fns, depth) {
            Err(e) => Err(e),
            Ok(v) => Ok(State { vars: state.vars.insert(n, v), fns: state.fns }),
        },
        Stmt::FnDefinition(n, params, body) => Ok(
            State { vars: state.vars, fns: state.fns.insert(n, Function { params, body }) },
        ),
    }
}

/// The state after the statements from position `from` on, in order.
pub open spec fn run(statements: Seq<Stmt>, from: nat, state: State, depth: nat) -> Result<
    State,
    Error,
>
    decreases statements.len() - from,
{
    if from >= statements.len() {
        Ok(state)
    } else {
        match step(statements[from as int], state, depth) {
            Err(e) => Err(e),
            Ok(next) => run(statements, from + 1, next, depth),
        }
    }
}

/// The values of the names from position `from` on.
pub open spec fn read_all(names: Seq<Ident>, from: nat, vars: Variables) -> Result<
    Seq<i64>,
    Error,
>
    decreases names.len() - from,
{
    if from >= names.len() {
        Ok(Seq::empty())
    } else if !vars.contains_key(names[from as int]) {
        Err(Error::UndefinedVariable)
    } else {
        match read_all(names, from + 1, vars) {
            Err(e) => Err(e),
            Ok(rest) => Ok(seq![vars[names[from as int]]] + rest),
        }
    }
}

/// What a program gives for the inputs: the values of its outputs after its
/// statements ran on the inputs, position by position.
pub open spec fn execute(p: Prog, inputs: Seq<i64>, depth: nat) -> Result<Seq<i64>, Error> {
    if inputs.len() != p.inputs.len() {
        Err(Error::InputArity)
    } else {
        match run(
            p.statements,
            0,
            State { vars: bind(p.inputs, inputs), fns: Map::empty() },
            depth,
        ) {
            Err(e) => Err(e),
            Ok(state) => read_all(p.outputs, 0, state.vars),
        }
    }
}

} // verus!

verus! {

/// The first clause whose matcher has the value of the scrutinee gives the
/// value of the match, whatever the clauses behind it hold.
pub proof fn lemma_first_match_wins(
    m: Arms,
    k: nat,
    v: i64,
    vars: Variables,
    fns: Functions,
    depth: nat,
)
    requires
        k < m.clauses.len(),
        forall|j: int|
            0 <= j < k ==> (eval_expression((#[trigger] m.clauses[j]).0, vars, fns, depth) matches Ok(
                w,
            ) && w != v),
        eval_expression(m.clauses[k as int].0, vars, fns, depth) == Ok::<i64, Error>(v),
    ensures
        eval_clauses(m, 0, v, vars, fns, depth) == eval_expression(
            m.clauses[k as int].1,
            vars,
            fns,
            depth,
        ),
{
    lemma_skip_clauses(m, 0, k, v, vars, fns, depth);
}

/// Where no matcher has the value of the scrutinee, the default gives the
/// value of the match.
pub proof fn lemma_default_when_none_matches(
    m: Arms,
    v: i64,
    vars: Variables,
    fns: Functions,
    depth: nat,
)
    requires
        forall|j: int|
            0 <= j < m.clauses.len() ==> (eval_expression(
                (#[trigger] m.clauses[j]).0,
                vars,
                fns,
                depth,
            ) matches Ok(w) && w != v),
    ensures
        eval_clauses(m, 0, v, vars, fns, depth) == eval_expression(m.default, vars, fns, depth),
{
    lemma_skip_clauses(m, 0, m.clauses.len(), v, vars, fns, depth);
}

/// Clauses whose matchers have other values than the scrutinee are passed
/// over.
proof fn lemma_skip_clauses(
    m: Arms,
    from: nat,
    k: nat,
    v: i64,
    vars: Variables,
    fns: Functions,
    depth: nat,
)
    requires
        from <= k <= m.clauses.len(),
        forall|j: int|
            from <= j < k ==> (eval_expression((#[trigger] m.clauses[j]).0, vars, fns, depth) matches Ok(
                w,
            ) && w != v),
    ensures
        eval_clauses(m, from, v, vars, fns, depth) == eval_clauses(m, k, v, vars, fns, depth),
    decreases k - from,
{
    if from < k {
        assert(eval_expression(m.clauses[from as int].0, vars, fns, depth) matches Ok(w) && w != v);
        lemma_skip_clauses(m, from + 1, k, v, vars, fns, depth);
    }
}

/// A program run on another number of values than it has inputs gives the
/// arity error, whatever its statements hold.
pub proof fn lemma_arity_is_enforced(p: Prog, inputs: Seq<i64>, depth: nat)
    requires
        inputs.len() != p.inputs.len(),
    ensures
        execute(p, inputs, depth) == Err::<Seq<i64>, Error>(Error::InputArity),
{
}

} // verus!

verus! {

/// The result did not come from the limit on how deep function applications
/// nest.
pub open spec fn within_depth<T>(r: Result<T, Error>) -> bool {
    r != Err::<T, Error>(Error::RecursionLimit)
}

/// An expression that has a value, or fails otherwise than by the limit on
/// nesting, gives the same where applications may nest deeper.
pub proof fn lemma_expression_depth(
    e: Expr,
    vars: Variables,
    fns: Functions,
    depth: nat,
    deeper: nat,
)
    requires
        depth <= deeper,
        within_depth(eval_expression(e, vars, fns, depth)),
    ensures
        eval_expression(e, vars, fns, deeper) == eval_expression(e, vars, fns, depth),
    decreases depth, e, 0nat,
{
    match e {
        Expr::Operand(t) => lemma_term_depth(t, vars, fns, depth, deeper),
        Expr::Operation(op, l, r) => {
            lemma_expression_depth(*l, vars, fns, depth, deeper);
            if eval_expression(*l, vars, fns, depth) is Ok {
                lemma_expression_depth(*r, vars, fns, depth, deeper);
            }
        },
    }
}

/// An operand that has a value, or fails otherwise than by the limit on
/// nesting, gives the same where applications may nest deeper.
pub proof fn lemma_term_depth(t: Term, vars: Variables, fns: Functions, depth: nat, deeper: nat)
    requires
        depth <= deeper,
        within_depth(eval_term(t, vars, fns, depth)),
    ensures
        eval_term(t, vars, fns, deeper) == eval_term(t, vars, fns, depth),
    decreases depth, t, 0nat,
{
    match t {
        Term::I64(_) => {},
        Term::VarSubstitution(_) => {},
        Term::Group(e) => lemma_expression_depth(*e, vars, fns, depth, deeper),
        Term::FnApplication(n, args) => {
            if fns.contains_key(n) && fns[n].params.len() == args.len() {
                lemma_arguments_depth(args, 0, vars, fns, depth, deeper);
                match eval_arguments(args, 0, vars, fns, depth) {
                    Ok(values) => {
                        lemma_expression_depth(
                            fns[n].body,
                            bind(fns[n].params, values),
                            fns,
                            (depth - 1) as nat,
                            (deeper - 1) as nat,
                        );
                    },
                    Err(_) => {},
                }
            }
        },
        Term::Match(m) => {
            lemma_expression_depth(m.with, vars, fns, depth, deeper);
            match eval_expression(m.with, vars, fns, depth) {
                Ok(v) => lemma_clauses_depth(*m, 0, v, vars, fns, depth, deeper),
                Err(_) => {},
            }
        },
    }
}

/// Arguments that have values, or fail otherwise than by the limit on
/// nesting, give the same where applications may nest deeper.
pub proof fn lemma_arguments_depth(
    args: Seq<Expr>,
    from: nat,
    vars: Variables,
    fns: Functions,
    depth: nat,
    deeper: nat,
)
    requires
        depth <= deeper,
        within_depth(eval_arguments(args, from, vars, fns, depth)),
    ensures
        eval_arguments(args, from, vars, fns, deeper) == eval_arguments(
            args,
            from,
            vars,
            fns,
            depth,
        ),
    decreases depth, args, args.len() - from,
{
    if from < args.len() {
        lemma_expression_depth(args[from as int], vars, fns, depth, deeper);
        if eval_expression(args[from as int], vars, fns, depth) is Ok {
            lemma_arguments_depth(args, from + 1, vars, fns, depth, deeper);
        }
    }
}

/// Clauses that give a value, or fail otherwise than by the limit on
/// nesting, give the same where applications may nest deeper.
pub proof fn lemma_clauses_depth(
    m: Arms,
    from: nat,
    v: i64,
    vars: Variables,
    fns: Functions,
    depth: nat,
    deeper: nat,
)
    requires
        depth <= deeper,
        within_depth(eval_clauses(m, from, v, vars, fns, depth)),
    ensures
        eval_clauses(m, from, v, vars, fns, deeper) == eval_clauses(m, from, v, vars, fns, depth),
    decreases depth, m, m.clauses.len() - from,
{
    if from >= m.clauses.len() {
        lemma_expression_depth(m.default, vars, fns, depth, deeper);
    } else {
        lemma_expression_depth(m.clauses[from as int].0, vars, fns, depth, deeper);
        match eval_expression(m.clauses[from as int].0, vars, fns, depth) {
            Ok(w) => if w == v {
                lemma_expression_depth(m.clauses[from as int].1, vars, fns, depth, deeper);
            } else {
                lemma_clauses_depth(m, from + 1, v, vars, fns, depth, deeper);
            },
            Err(_) => {},
        }
    }
}

/// Statements that run, or fail otherwise than by the limit on nesting, give
/// the same where applications may nest deeper.
pub proof fn lemma_run_depth(
    statements: Seq<Stmt>,
    from: nat,
    state: State,
    depth: nat,
    deeper: nat,
)
    requires
        depth <= deeper,
        within_depth(run(statements, from, state, depth)),
    ensures
        run(statements, from, state, deeper) == run(statements, from, state, depth),
    decreases statements.len() - from,
{
    if from < statements.len() {
        match statements[from as int] {
            Stmt::VarAssignment(_, e) => {
                lemma_expression_depth(e, state.vars, state.fns, depth, deeper);
            },
            Stmt::FnDefinition(..) => {},
        }
        match step(statements[from as int], state, depth) {
            Ok(next) => lemma_run_depth(statements, from + 1, next, depth, deeper),
            Err(_) => {},
        }
    }
}

/// The limit on nesting changes nothing but where it is met: a program that
/// gives its outputs, or fails otherwise than by the limit, gives the same
/// where function applications may nest deeper.
pub proof fn lemma_depth_is_enough(p: Prog, inputs: Seq<i64>, depth: nat, deeper: nat)
    requires
        depth <= deeper,
        within_depth(execute(p, inputs, depth)),
    ensures
        execute(p, inputs, deeper) == execute(p, inputs, depth),
{
    if inputs.len() == p.inputs.len() {
        let state = State { vars: bind(p.inputs, inputs), fns: Map::empty() };
        lemma_run_depth(p.statements, 0, state, depth, deeper);
    }
}

} // verus!
