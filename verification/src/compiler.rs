//! The checks that a program must pass before it is compiled: every name it
//! uses is bound where it is used, and every function is applied to as many
//! arguments as it has parameters.

use crate::ast::{names_view, Expression, Match, Matcher, Name, Operand, Program, Statement};
use crate::interpreter::{Environment, FunctionTable};
use crate::model::{Ident, Term};
use crate::resolution;
use vstd::prelude::*;

verus! {

/// Why a program cannot be compiled.
#[derive(Debug, Clone, Copy, PartialEq, Eq, Structural)]
pub enum Error {
    /// A variable is read, or given as an output, that nothing has bound.
    UndefinedVariable,
    /// A function is applied that nothing has defined.
    UndefinedFunction,
    /// A function is applied to another number of arguments than it has parameters.
    CallArity,
    /// The code generation backend could not allocate, link or write, or the
    /// program holds more than the machine can number.
    Backend,
}

} // verus!

verus! {

/// The variables that an environment binds, whatever their values.
pub open spec fn scope(vars: &Environment) -> Set<Ident> {
    vars@.dom()
}

/// An environment that binds exactly the names.
fn scope_of<'a>(names: &'a Vec<Name>) -> (r: Environment<'a>)
    ensures
        scope(&r) == resolution::names_set(names_view(names@)),
{
    let mut vars = Environment::new();
    let mut i: usize = 0;
    assert(scope(&vars) =~= resolution::names_set(names_view(names@).take(0)));
    while i < names.len()
        invariant
            i <= names.len(),
            scope(&vars) == resolution::names_set(names_view(names@).take(i as int)),
        decreases names.len() - i,
    {
        let ghost before = names_view(names@).take(i as int);
        vars.insert(&names[i], 0);
        assert(names_view(names@).take(i + 1) =~= before.push(names@[i as int]@));
        assert(scope(&vars) =~= resolution::names_set(names_view(names@).take(i + 1))) by {
            let after = before.push(names@[i as int]@);
            assert forall|n: Ident| after.contains(n) <==> before.contains(n) || n
                == names@[i as int]@ by {
                if before.contains(n) {
                    let k = choose|k: int| 0 <= k < before.len() && before[k] == n;
                    assert(after[k] == n);
                }
                if n == names@[i as int]@ {
                    assert(after[before.len() as int] == n);
                }
            }
        }
        i += 1;
    }
    assert(names_view(names@).take(i as int) =~= names_view(names@));
    vars
}

/// Whether the expression uses only the variables and functions given.
pub fn check_expression(e: &Expression, vars: &Environment, fns: &FunctionTable) -> (r: Result<
    (),
    Error,
>)
    ensures
        r == resolution::check_expression(e@, scope(vars), resolution::arities(fns@)),
    decreases e, 0nat,
{
    match e {
        Expression::Operand(o) => check_operand(o, vars, fns),
        Expression::Operation(_, l, r) => match check_expression(l, vars, fns) {
            Err(e) => Err(e),
            Ok(_) => check_expression(r, vars, fns),
        },
    }
}

/// Whether the operand uses only the variables and functions given.
pub fn check_operand(o: &Operand, vars: &Environment, fns: &FunctionTable) -> (r: Result<
    (),
    Error,
>)
    ensures
        r == resolution::check_term(o@, scope(vars), resolution::arities(fns@)),
    decreases o, 0nat,
{
    match o {
        Operand::I64(_) => Ok(()),
        Operand::Group(e) => check_expression(e, vars, fns),
        Operand::VarSubstitution(n) => match vars.get(n) {
            Some(_) => Ok(()),
            None => Err(Error::UndefinedVariable),
        },
        Operand::FnApplication(n, args) => {
            proof {
                crate::ast::lemma_operand_view(*o);
            }
            match fns.get(n) {
                None => Err(Error::UndefinedFunction),
                Some((params, _)) => if params.len() != args.len() {
                    Err(Error::CallArity)
                } else {
                    check_arguments(args, vars, fns)
                },
            }
        },
        Operand::Match(m) => {
            proof {
                crate::ast::lemma_operand_view(*o);
            }
            check_match(m, vars, fns)
        },
    }
}

fn check_arguments(args: &Vec<Expression>, vars: &Environment, fns: &FunctionTable) -> (r: Result<
    (),
    Error,
>)
    ensures
        r == resolution::check_arguments(crate::ast::expressions_view(args@), 0, scope(vars), resolution::arities(fns@)),
    decreases args, 0nat,
{
    let ghost models = crate::ast::expressions_view(args@);
    let mut i: usize = 0;
    while i < args.len()
        invariant
            models == crate::ast::expressions_view(args@),
            i <= args.len(),
            resolution::check_arguments(models, 0, scope(vars), resolution::arities(fns@)) == resolution::check_arguments(
                models,
                i as nat,
                scope(vars),
                resolution::arities(fns@),
            ),
        decreases args.len() - i,
    {
        match check_expression(&args[i], vars, fns) {
            Err(e) => {
                return Err(e);
            },
            Ok(_) => {},
        }
        i += 1;
    }
    Ok(())
}

fn check_match(m: &Match, vars: &Environment, fns: &FunctionTable) -> (r: Result<(), Error>)
    ensures
        r == resolution::check_term(Term::Match(Box::new(m@)), scope(vars), resolution::arities(fns@)),
    decreases m, 1nat,
{
    match check_expression(&m.with, vars, fns) {
        Err(e) => Err(e),
        Ok(_) => match check_clauses(m, vars, fns) {
            Err(e) => Err(e),
            Ok(_) => check_expression(&m.default, vars, fns),
        },
    }
}

fn check_clauses(m: &Match, vars: &Environment, fns: &FunctionTable) -> (r: Result<(), Error>)
    ensures
        r == resolution::check_clauses(m@, 0, scope(vars), resolution::arities(fns@)),
    decreases m, 0nat,
{
    let mut i: usize = 0;
    while i < m.clauses.len()
        invariant
            i <= m.clauses.len(),
            resolution::check_clauses(m@, 0, scope(vars), resolution::arities(fns@)) == resolution::check_clauses(
                m@,
                i as nat,
                scope(vars),
                resolution::arities(fns@),
            ),
        decreases m.clauses.len() - i,
    {
        let clause = &m.clauses[i];
        let Matcher::Value(matcher) = &clause.0;
        match check_expression(matcher, vars, fns) {
            Err(e) => {
                return Err(e);
            },
            Ok(_) => {},
        }
        match check_expression(&clause.1, vars, fns) {
            Err(e) => {
                return Err(e);
            },
            Ok(_) => {},
        }
        i += 1;
    }
    Ok(())
}

/// Whether the bodies of the functions that the first `upto` statements
/// define use only their parameters and the functions given.
fn check_bodies(statements: &Vec<Statement>, upto: usize, fns: &FunctionTable) -> (r: Result<
    (),
    Error,
>)
    requires
        upto <= statements.len(),
    ensures
        r == resolution::check_bodies(
            crate::ast::statements_view(statements@),
            0,
            upto as nat,
            resolution::arities(fns@),
        ),
{
    let ghost models = crate::ast::statements_view(statements@);
    let mut i: usize = 0;
    while i < upto
        invariant
            models == crate::ast::statements_view(statements@),
            i <= upto <= statements.len(),
            resolution::check_bodies(models, 0, upto as nat, resolution::arities(fns@)) == resolution::check_bodies(
                models,
                i as nat,
                upto as nat,
                resolution::arities(fns@),
            ),
        decreases upto - i,
    {
        match &statements[i] {
            Statement::FnDefinition(_, params, body) => {
                let vars = scope_of(params);
                match check_expression(body, &vars, fns) {
                    Err(e) => {
                        return Err(e);
                    },
                    Ok(_) => {},
                }
            },
            Statement::VarAssignment(_, _) => {},
        }
        i += 1;
    }
    Ok(())
}

fn check_names(names: &Vec<Name>, vars: &Environment) -> (r: Result<(), Error>)
    ensures
        r == resolution::check_names(names_view(names@), 0, scope(vars)),
{
    let ghost models = names_view(names@);
    let mut i: usize = 0;
    while i < names.len()
        invariant
            models == names_view(names@),
            i <= names.len(),
            resolution::check_names(models, 0, scope(vars)) == resolution::check_names(
                models,
                i as nat,
                scope(vars),
            ),
        decreases names.len() - i,
    {
        if vars.get(&names[i]).is_none() {
            return Err(Error::UndefinedVariable);
        }
        i += 1;
    }
    Ok(())
}

/// Checks that the program uses only what is bound where it is used: every
/// variable read is an input or assigned before, every function applied is
/// defined before with as many parameters as there are arguments, the body
/// of every function uses only its parameters, and every output is bound.
pub fn check(program: &Program) -> (r: Result<(), Error>)
    ensures
        r == resolution::check_program(program@),
{
    let statements = &program.statements.0;
    let vars_start = scope_of(&program.inputs);
    let mut vars = vars_start;
    let mut fns = FunctionTable::new();
    let mut i: usize = 0;
    assert(resolution::arities(fns@) =~= Map::<Ident, nat>::empty());
    while i < statements.len()
        invariant
            statements == &program.statements.0,
            i <= statements.len(),
            resolution::check_program(program@) == resolution::check_from(program@, i as nat, scope(&vars), resolution::arities(fns@)),
        decreases statements.len() - i,
    {
        match &statements[i] {
            Statement::VarAssignment(n, e) => {
                match check_bodies(statements, i, &fns) {
                    Err(e) => {
                        return Err(e);
                    },
                    Ok(_) => {},
                }
                match check_expression(e, &vars, &fns) {
                    Err(e) => {
                        return Err(e);
                    },
                    Ok(_) => {},
                }
                let ghost before = scope(&vars);
                vars.insert(n, 0);
                assert(scope(&vars) =~= before.insert(n@));
            },
            Statement::FnDefinition(n, params, body) => {
                let ghost before = resolution::arities(fns@);
                fns.insert(n, params, body);
                assert(resolution::arities(fns@) =~= before.insert(n@, params@.len() as nat));
            },
        }
        i += 1;
    }
    match check_bodies(statements, statements.len(), &fns) {
        Err(e) => Err(e),
        Ok(_) => check_names(&program.outputs, &vars),
    }
}

} // verus!
