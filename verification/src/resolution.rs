//! What it means for a program to use only what is bound where it is used.

use crate::compiler::Error;
use crate::model::{Arms, Expr, Ident, Prog, Stmt, Term};
use crate::semantics::{Function, Functions};
use vstd::prelude::*;

verus! {

/// The first of two results that is an error, or else the second.
pub open spec fn both(first: Result<(), Error>, second: Result<(), Error>) -> Result<(), Error> {
    match first {
        Err(e) => Err(e),
        Ok(_) => second,
    }
}

/// How many arguments each function takes.
pub type Arities = Map<Ident, nat>;

/// The number of parameters of each function.
pub open spec fn arities(fns: Functions) -> Arities {
    fns.map_values(|f: Function| f.params.len())
}

/// The set of the names.
pub open spec fn names_set(names: Seq<Ident>) -> Set<Ident> {
    Set::new(|n: Ident| names.contains(n))
}

/// Whether the expression uses only the variables and functions given: else
/// the first misuse, going through it from left to right.
pub open spec fn check_expression(e: Expr, vars: Set<Ident>, fns: Arities) -> Result<(), Error>
    decreases e, 0nat,
{
    match e {
        Expr::Operand(t) => check_term(t, vars, fns),
        Expr::Operation(_, l, r) => both(
            check_expression(*l, vars, fns),
            check_expression(*r, vars, fns),
        ),
    }
}

/// Whether the operand uses only the variables and functions given.
pub open spec fn check_term(t: Term, vars: Set<Ident>, fns: Arities) -> Result<(), Error>
    decreases t, 0nat,
{
    match t {
        Term::I64(_) => Ok(()),
        Term::Group(e) => check_expression(*e, vars, fns),
        Term::VarSubstitution(n) => if vars.contains(n) {
            Ok(())
        } else {
            Err(Error::UndefinedVariable)
        },
        Term::FnApplication(n, args) => if !fns.contains_key(n) {
            Err(Error::UndefinedFunction)
        } else if fns[n] != args.len() {
            Err(Error::CallArity)
        } else {
            check_arguments(args, 0, vars, fns)
        },
        Term::Match(m) => both(
            check_expression(m.with, vars, fns),
            both(check_clauses(*m, 0, vars, fns), check_expression(m.default, vars, fns)),
        ),
    }
}

/// Whether the arguments from position `from` on use only what is given.
pub open spec fn check_arguments(args: Seq<Expr>, from: nat, vars: Set<Ident>, fns: Arities)
    -> Result<(), Error>
    decreases args, args.len() - from,
{
    if from >= args.len() {
        Ok(())
    } else {
        both(
            check_expression(args[from as int], vars, fns),
            check_arguments(args, from + 1, vars, fns),
        )
    }
}

/// Whether the clauses of the match from position `from` on use only what is
/// given.
pub open spec fn check_clauses(m: Arms, from: nat, vars: Set<Ident>, fns: Arities) -> Result<
    (),
    Error,
>
    decreases m, m.clauses.len() - from,
{
    if from >= m.clauses.len() {
        Ok(())
    } else {
        both(
            check_expression(m.clauses[from as int].0, vars, fns),
            both(
                check_expression(m.clauses[from as int].1, vars, fns),
                check_clauses(m, from + 1, vars, fns),
            ),
        )
    }
}

/// Whether the bodies of the functions that the statements from position
/// `from` up to `upto` define use only their parameters and the functions
/// given.
pub open spec fn check_bodies(statements: Seq<Stmt>, from: nat, upto: nat, fns: Arities)
    -> Result<(), Error>
    decreases upto - from,
{
    if from >= upto || from >= statements.len() {
        Ok(())
    } else {
        both(
            match statements[from as int] {
                Stmt::FnDefinition(_, params, body) => check_expression(
                    body,
                    names_set(params),
                    fns,
                ),
                Stmt::VarAssignment(_, _) => Ok(()),
            },
            check_bodies(statements, from + 1, upto, fns),
        )
    }
}

/// Whether every one of the names is among the variables.
pub open spec fn check_names(names: Seq<Ident>, from: nat, vars: Set<Ident>) -> Result<(), Error>
    decreases names.len() - from,
{
    if from >= names.len() {
        Ok(())
    } else if !vars.contains(names[from as int]) {
        Err(Error::UndefinedVariable)
    } else {
        check_names(names, from + 1, vars)
    }
}

/// Whether the program from its statement `from` on uses only what is bound
/// where it is used. Before each assignment, and at the end, the bodies of
/// all functions defined so far are held against the functions of that
/// moment: those are the ones that a call there would reach.
pub open spec fn check_from(p: Prog, from: nat, vars: Set<Ident>, fns: Arities) -> Result<
    (),
    Error,
>
    decreases p.statements.len() - from,
{
    if from >= p.statements.len() {
        both(
            check_bodies(p.statements, 0, p.statements.len(), fns),
            check_names(p.outputs, 0, vars),
        )
    } else {
        match p.statements[from as int] {
            Stmt::VarAssignment(n, e) => both(
                check_bodies(p.statements, 0, from, fns),
                both(check_expression(e, vars, fns), check_from(p, from + 1, vars.insert(n), fns)),
            ),
            Stmt::FnDefinition(n, params, _) => check_from(
                p,
                from + 1,
                vars,
                fns.insert(n, params.len()),
            ),
        }
    }
}

/// Whether the program uses only what is bound where it is used: else the
/// first misuse.
pub open spec fn check_program(p: Prog) -> Result<(), Error> {
    check_from(p, 0, names_set(p.inputs), Map::empty())
}

} // verus!

verus! {

/// An evaluation that met no unbound name and no call of the wrong arity.
pub open spec fn resolved<T>(r: Result<T, crate::interpreter::Error>) -> bool {
    match r {
        Ok(_) => true,
        Err(e) => e == crate::interpreter::Error::DivisionByZero || e
            == crate::interpreter::Error::RecursionLimit,
    }
}

/// The body of every function uses only its parameters and the functions.
pub open spec fn closed(fns: Functions) -> bool {
    forall|n: Ident| #[trigger]
        fns.contains_key(n) ==> check_expression(fns[n].body, names_set(fns[n].params), arities(fns)) is Ok
}

/// Names bound to as many values bind exactly the names.
pub proof fn lemma_bind_scope(names: Seq<Ident>, values: Seq<i64>)
    requires
        names.len() == values.len(),
    ensures
        crate::semantics::bind(names, values).dom() == names_set(names),
    decreases names.len(),
{
    if names.len() == 0 {
        assert(crate::semantics::bind(names, values).dom() =~= names_set(names));
    } else {
        let before = names.drop_last();
        lemma_bind_scope(before, values.drop_last());
        assert(crate::semantics::bind(names, values).dom() =~= names_set(names)) by {
            assert forall|n: Ident| names.contains(n) <==> before.contains(n) || n
                == names.last() by {
                if before.contains(n) {
                    let k = choose|k: int| 0 <= k < before.len() && before[k] == n;
                    assert(names[k] == n);
                }
                if n == names.last() {
                    assert(names[names.len() - 1] == n);
                }
                if names.contains(n) {
                    let k = choose|k: int| 0 <= k < names.len() && names[k] == n;
                    if k < names.len() - 1 {
                        assert(before[k] == n);
                    }
                }
            }
        }
    }
}

/// Arguments that evaluate give as many values as there are arguments.
pub proof fn lemma_arguments_count(
    args: Seq<Expr>,
    from: nat,
    vars: crate::semantics::Variables,
    fns: Functions,
    depth: nat,
)
    requires
        from <= args.len(),
    ensures
        crate::semantics::eval_arguments(args, from, vars, fns, depth) matches Ok(values)
            ==> values.len() == args.len() - from,
    decreases args.len() - from,
{
    if from < args.len() {
        lemma_arguments_count(args, from + 1, vars, fns, depth);
    }
}

/// An expression that passes the check evaluates without meeting an unbound
/// name or a call of the wrong arity.
pub proof fn lemma_expression_resolves(
    e: Expr,
    vars: crate::semantics::Variables,
    fns: Functions,
    depth: nat,
)
    requires
        check_expression(e, vars.dom(), arities(fns)) is Ok,
        closed(fns),
    ensures
        resolved(crate::semantics::eval_expression(e, vars, fns, depth)),
    decreases depth, e, 0nat,
{
    match e {
        Expr::Operand(t) => {
            lemma_term_resolves(t, vars, fns, depth);
        },
        Expr::Operation(_, l, r) => {
            lemma_expression_resolves(*l, vars, fns, depth);
            lemma_expression_resolves(*r, vars, fns, depth);
        },
    }
}

/// An operand that passes the check evaluates without meeting an unbound
/// name or a call of the wrong arity.
#[verifier::rlimit(40)]
pub proof fn lemma_term_resolves(
    t: Term,
    vars: crate::semantics::Variables,
    fns: Functions,
    depth: nat,
)
    requires
        check_term(t, vars.dom(), arities(fns)) is Ok,
        closed(fns),
    ensures
        resolved(crate::semantics::eval_term(t, vars, fns, depth)),
    decreases depth, t, 0nat,
{
    match t {
        Term::I64(_) => {},
        Term::Group(e) => {
            lemma_expression_resolves(*e, vars, fns, depth);
        },
        Term::VarSubstitution(_) => {},
        Term::FnApplication(n, args) => {
            lemma_arguments_resolve(args, 0, vars, fns, depth);
            lemma_arguments_count(args, 0, vars, fns, depth);
            match crate::semantics::eval_arguments(args, 0, vars, fns, depth) {
                Ok(values) => {
                    if depth > 0 {
                        assert(fns.contains_key(n));
                        lemma_bind_scope(fns[n].params, values);
                        lemma_expression_resolves(
                            fns[n].body,
                            crate::semantics::bind(fns[n].params, values),
                            fns,
                            (depth - 1) as nat,
                        );
                    }
                },
                Err(_) => {},
            }
        },
        Term::Match(m) => {
            lemma_expression_resolves(m.with, vars, fns, depth);
            match crate::semantics::eval_expression(m.with, vars, fns, depth) {
                Ok(v) => {
                    lemma_clauses_resolve(*m, 0, v, vars, fns, depth);
                },
                Err(_) => {},
            }
        },
    }
}

/// Arguments that pass the check evaluate without meeting an unbound name or
/// a call of the wrong arity.
pub proof fn lemma_arguments_resolve(
    args: Seq<Expr>,
    from: nat,
    vars: crate::semantics::Variables,
    fns: Functions,
    depth: nat,
)
    requires
        check_arguments(args, from, vars.dom(), arities(fns)) is Ok,
        closed(fns),
    ensures
        resolved(crate::semantics::eval_arguments(args, from, vars, fns, depth)),
    decreases depth, args, args.len() - from,
{
    if from < args.len() {
        lemma_expression_resolves(args[from as int], vars, fns, depth);
        lemma_arguments_resolve(args, from + 1, vars, fns, depth);
    }
}

/// The clauses of a match that pass the check evaluate without meeting an
/// unbound name or a call of the wrong arity.
pub proof fn lemma_clauses_resolve(
    m: Arms,
    from: nat,
    v: i64,
    vars: crate::semantics::Variables,
    fns: Functions,
    depth: nat,
)
    requires
        check_clauses(m, from, vars.dom(), arities(fns)) is Ok,
        check_expression(m.default, vars.dom(), arities(fns)) is Ok,
        closed(fns),
    ensures
        resolved(crate::semantics::eval_clauses(m, from, v, vars, fns, depth)),
    decreases depth, m, m.clauses.len() - from,
{
    if from < m.clauses.len() {
        lemma_expression_resolves(m.clauses[from as int].0, vars, fns, depth);
        lemma_expression_resolves(m.clauses[from as int].1, vars, fns, depth);
        lemma_clauses_resolve(m, from + 1, v, vars, fns, depth);
    } else {
        lemma_expression_resolves(m.default, vars, fns, depth);
    }
}

/// Every function of the table is defined by one of the first `upto`
/// statements.
pub open spec fn defined_before(statements: Seq<Stmt>, upto: nat, fns: Functions) -> bool {
    forall|n: Ident| #[trigger]
        fns.contains_key(n) ==> exists|j: int|
            0 <= j < upto && j < statements.len() && #[trigger] statements[j]
                == Stmt::FnDefinition(n, fns[n].params, fns[n].body)
}

/// Where the bodies of the functions that the statements define pass the
/// check, each of them does.
pub proof fn lemma_bodies_each(statements: Seq<Stmt>, from: nat, upto: nat, fns: Arities, j: int)
    requires
        check_bodies(statements, from, upto, fns) is Ok,
        from <= j < upto,
        j < statements.len(),
    ensures
        statements[j] matches Stmt::FnDefinition(_, params, body) ==> check_expression(
            body,
            names_set(params),
            fns,
        ) is Ok,
    decreases upto - from,
{
    if from < j {
        lemma_bodies_each(statements, from + 1, upto, fns, j);
    }
}

/// Names that pass the check are all read.
pub proof fn lemma_names_resolve(names: Seq<Ident>, from: nat, vars: crate::semantics::Variables)
    requires
        check_names(names, from, vars.dom()) is Ok,
    ensures
        crate::semantics::read_all(names, from, vars) is Ok,
    decreases names.len() - from,
{
    if from < names.len() {
        lemma_names_resolve(names, from + 1, vars);
    }
}

/// A program that passes the check from a statement on runs from there
/// without meeting an unbound name or a call of the wrong arity.
#[verifier::rlimit(40)]
pub proof fn lemma_run_resolves(p: Prog, from: nat, state: crate::semantics::State, depth: nat)
    requires
        from <= p.statements.len(),
        check_from(p, from, state.vars.dom(), arities(state.fns)) is Ok,
        defined_before(p.statements, from, state.fns),
    ensures
        match crate::semantics::run(p.statements, from, state, depth) {
            Ok(end) => crate::semantics::read_all(p.outputs, 0, end.vars) is Ok,
            Err(e) => e == crate::interpreter::Error::DivisionByZero || e
                == crate::interpreter::Error::RecursionLimit,
        },
    decreases p.statements.len() - from,
{
    if from >= p.statements.len() {
        lemma_names_resolve(p.outputs, 0, state.vars);
    } else {
        match p.statements[from as int] {
            Stmt::VarAssignment(n, e) => {
                assert(closed(state.fns)) by {
                    assert forall|f: Ident| #[trigger] state.fns.contains_key(f) implies check_expression(
                        state.fns[f].body,
                        names_set(state.fns[f].params),
                        arities(state.fns),
                    ) is Ok by {
                        let j = choose|j: int|
                            0 <= j < from && j < p.statements.len() && #[trigger] p.statements[j]
                                == Stmt::FnDefinition(f, state.fns[f].params, state.fns[f].body);
                        lemma_bodies_each(p.statements, 0, from, arities(state.fns), j);
                    }
                }
                lemma_expression_resolves(e, state.vars, state.fns, depth);
                match crate::semantics::eval_expression(e, state.vars, state.fns, depth) {
                    Ok(v) => {
                        let next = crate::semantics::State {
                            vars: state.vars.insert(n, v),
                            fns: state.fns,
                        };
                        assert(next.vars.dom() =~= state.vars.dom().insert(n));
                        assert(defined_before(p.statements, from + 1, next.fns)) by {
                            assert forall|f: Ident| #[trigger] next.fns.contains_key(f) implies exists|
                                j: int,
                            |
                                0 <= j < from + 1 && j < p.statements.len()
                                    && #[trigger] p.statements[j] == Stmt::FnDefinition(
                                    f,
                                    next.fns[f].params,
                                    next.fns[f].body,
                                ) by {
                                let j = choose|j: int|
                                    0 <= j < from && j < p.statements.len()
                                        && #[trigger] p.statements[j] == Stmt::FnDefinition(
                                        f,
                                        state.fns[f].params,
                                        state.fns[f].body,
                                    );
                                assert(p.statements[j] == Stmt::FnDefinition(
                                    f,
                                    next.fns[f].params,
                                    next.fns[f].body,
                                ));
                            }
                        }
                        lemma_run_resolves(p, from + 1, next, depth);
                    },
                    Err(_) => {},
                }
            },
            Stmt::FnDefinition(n, params, body) => {
                let next = crate::semantics::State {
                    vars: state.vars,
                    fns: state.fns.insert(n, Function { params, body }),
                };
                assert(arities(next.fns) =~= arities(state.fns).insert(n, params.len()));
                assert(defined_before(p.statements, from + 1, next.fns)) by {
                    assert forall|f: Ident| #[trigger] next.fns.contains_key(f) implies exists|
                        j: int,
                    |
                        0 <= j < from + 1 && j < p.statements.len() && #[trigger] p.statements[j]
                            == Stmt::FnDefinition(f, next.fns[f].params, next.fns[f].body) by {
                        if f == n {
                            assert(p.statements[from as int] == Stmt::FnDefinition(
                                f,
                                next.fns[f].params,
                                next.fns[f].body,
                            ));
                        } else {
                            let j = choose|j: int|
                                0 <= j < from && j < p.statements.len()
                                    && #[trigger] p.statements[j] == Stmt::FnDefinition(
                                    f,
                                    state.fns[f].params,
                                    state.fns[f].body,
                                );
                            assert(p.statements[j] == Stmt::FnDefinition(
                                f,
                                next.fns[f].params,
                                next.fns[f].body,
                            ));
                        }
                    }
                }
                lemma_run_resolves(p, from + 1, next, depth);
            },
        }
    }
}

/// A program that passes the check, run on as many values as it has inputs,
/// gives its outputs unless it divides by zero or nests its calls too deep:
/// no name is unbound where it is used, and no call has the wrong arity.
pub proof fn lemma_checked_program_resolves(p: Prog, inputs: Seq<i64>, depth: nat)
    requires
        check_program(p) is Ok,
        inputs.len() == p.inputs.len(),
    ensures
        resolved(crate::semantics::execute(p, inputs, depth)),
{
    let state = crate::semantics::State {
        vars: crate::semantics::bind(p.inputs, inputs),
        fns: Map::empty(),
    };
    lemma_bind_scope(p.inputs, inputs);
    assert(arities(state.fns) =~= Map::<Ident, nat>::empty());
    lemma_run_resolves(p, 0, state, depth);
}

} // verus!

verus! {

/// The variables and functions in scope behind the statements from position
/// `from` on, if each statement uses only what is in scope where it stands.
/// An assignment sees the variables and functions before it; the body of a
/// function sees its parameters and the functions of other names before it.
pub open spec fn scope_after(statements: Seq<Stmt>, from: nat, vars: Set<Ident>, fns: Arities)
    -> Option<(Set<Ident>, Arities)>
    decreases statements.len() - from,
{
    if from >= statements.len() {
        Some((vars, fns))
    } else {
        match statements[from as int] {
            Stmt::VarAssignment(n, e) => if check_expression(e, vars, fns) is Ok {
                scope_after(statements, from + 1, vars.insert(n), fns)
            } else {
                None
            },
            Stmt::FnDefinition(n, params, body) => if check_expression(
                body,
                names_set(params),
                fns.remove(n),
            ) is Ok {
                scope_after(statements, from + 1, vars, fns.insert(n, params.len()))
            } else {
                None
            },
        }
    }
}

/// Every statement of the program uses only what stands before it in the
/// text, and every output is bound at the end.
pub open spec fn textually_scoped(p: Prog) -> bool {
    scope_after(p.statements, 0, names_set(p.inputs), Map::empty()) matches Some((vars, _))
        && forall|k: int| 0 <= k < p.outputs.len() ==> vars.contains(#[trigger] p.outputs[k])
}

/// The scope behind statements with one more at their end is the scope
/// behind that one, taken from the scope behind the others.
pub proof fn lemma_scope_after_push(
    statements: Seq<Stmt>,
    last: Stmt,
    from: nat,
    vars: Set<Ident>,
    fns: Arities,
)
    requires
        from <= statements.len(),
    ensures
        scope_after(statements.push(last), from, vars, fns) == match scope_after(
            statements,
            from,
            vars,
            fns,
        ) {
            Some((v, f)) => scope_after(seq![last], 0, v, f),
            None => None,
        },
    decreases statements.len() - from,
{
    let all = statements.push(last);
    if from < statements.len() {
        assert(all[from as int] == statements[from as int]);
        match statements[from as int] {
            Stmt::VarAssignment(n, e) => {
                lemma_scope_after_push(statements, last, from + 1, vars.insert(n), fns);
            },
            Stmt::FnDefinition(n, params, _) => {
                lemma_scope_after_push(
                    statements,
                    last,
                    from + 1,
                    vars,
                    fns.insert(n, params.len()),
                );
            },
        }
    } else {
        assert(all[from as int] == last);
        assert(seq![last][0] == last);
        reveal_with_fuel(scope_after, 2);
    }
}

} // verus!
