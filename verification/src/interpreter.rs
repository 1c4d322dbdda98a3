//! The interpreter: evaluates a program on its inputs by walking the tree.

use crate::ast::{names_view, Expression, Match, Matcher, Name, Operand, Program, Statement};
use crate::model::{Ident, Operator};
use crate::semantics;
use crate::semantics::{Function, Functions, State, Variables};
use vstd::prelude::*;
use vstd::wrapping::i64_specs;

verus! {

/// Why a program has no result.
#[derive(Debug, Clone, Copy, PartialEq, Eq, Structural)]
pub enum Error {
    /// The number of values given differs from the number of inputs declared.
    InputArity,
    /// A variable is read, or given as an output, that nothing has bound.
    UndefinedVariable,
    /// A function is applied that nothing has defined.
    UndefinedFunction,
    /// A function is applied to another number of arguments than it has parameters.
    CallArity,
    /// The right side of a division is zero.
    DivisionByZero,
    /// Function applications are nested deeper than the interpreter follows.
    RecursionLimit,
}

/// How deep function applications may nest.
pub const MAX_CALL_DEPTH: usize = 1000;

/// The variables bound so far, oldest first.
pub open spec fn bindings_map(bindings: Seq<(&Name, i64)>) -> Variables
    decreases bindings.len(),
{
    if bindings.len() == 0 {
        Map::empty()
    } else {
        bindings_map(bindings.drop_last()).insert(bindings.last().0@, bindings.last().1)
    }
}

/// The functions defined so far, oldest first.
pub open spec fn definitions_map(definitions: Seq<(&Name, &Vec<Name>, &Expression)>) -> Functions
    decreases definitions.len(),
{
    if definitions.len() == 0 {
        Map::empty()
    } else {
        definitions_map(definitions.drop_last()).insert(
            definitions.last().0@,
            Function { params: names_view(definitions.last().1@), body: definitions.last().2@ },
        )
    }
}

/// The variables in scope.
pub struct Environment<'a> {
    pub bindings: Vec<(&'a Name, i64)>,
}

/// The functions defined so far.
pub struct FunctionTable<'a> {
    pub definitions: Vec<(&'a Name, &'a Vec<Name>, &'a Expression)>,
}

impl<'a> View for Environment<'a> {
    type V = Variables;

    open spec fn view(&self) -> Variables {
        bindings_map(self.bindings@)
    }
}

impl<'a> View for FunctionTable<'a> {
    type V = Functions;

    open spec fn view(&self) -> Functions {
        definitions_map(self.definitions@)
    }
}

impl<'a> Environment<'a> {
    /// An environment that binds nothing.
    pub fn new() -> (r: Self)
        ensures
            r@ == Map::<Ident, i64>::empty(),
    {
        Environment { bindings: Vec::new() }
    }

    /// Binds the name to the value, in place of what it was bound to.
    pub fn insert(&mut self, name: &'a Name, value: i64)
        ensures
            final(self)@ == old(self)@.insert(name@, value),
    {
        self.bindings.push((name, value));
        assert(self.bindings@.drop_last() =~= old(self).bindings@);
    }

    /// The value that the name is bound to.
    pub fn get(&self, name: &Name) -> (r: Option<i64>)
        ensures
            r == if self@.contains_key(name@) {
                Some(self@[name@])
            } else {
                None::<i64>
            },
    {
        let mut i = self.bindings.len();
        assert(self.bindings@.take(i as int) =~= self.bindings@);
        while i > 0
            invariant
                i <= self.bindings.len(),
                self@.contains_key(name@) == bindings_map(
                    self.bindings@.take(i as int),
                ).contains_key(name@),
                self@.contains_key(name@) ==> self@[name@] == bindings_map(
                    self.bindings@.take(i as int),
                )[name@],
            decreases i,
        {
            i -= 1;
            assert(self.bindings@.take(i + 1).drop_last() =~= self.bindings@.take(i as int));
            if self.bindings[i].0.0 == name.0 {
                return Some(self.bindings[i].1);
            }
        }
        None
    }

    /// The environment of a call: the parameters bound to the values, position
    /// by position.
    pub fn bind(params: &'a Vec<Name>, values: &Vec<i64>) -> (r: Self)
        requires
            params.len() == values.len(),
        ensures
            r@ == semantics::bind(names_view(params@), values@),
    {
        let mut env = Environment::new();
        let mut i: usize = 0;
        assert(names_view(params@).take(0) =~= Seq::empty());
        while i < params.len()
            invariant
                i <= params.len(),
                params.len() == values.len(),
                env@ == semantics::bind(names_view(params@).take(i as int), values@.take(i as int)),
            decreases params.len() - i,
        {
            assert(names_view(params@).take(i + 1).drop_last() =~= names_view(params@).take(
                i as int,
            ));
            assert(values@.take(i + 1).drop_last() =~= values@.take(i as int));
            env.insert(&params[i], values[i]);
            i += 1;
        }
        assert(names_view(params@).take(i as int) =~= names_view(params@));
        assert(values@.take(i as int) =~= values@);
        env
    }
}

impl<'a> FunctionTable<'a> {
    /// A table that defines nothing.
    pub fn new() -> (r: Self)
        ensures
            r@ == Map::<Ident, Function>::empty(),
            r.definitions@ == Seq::<(&Name, &Vec<Name>, &Expression)>::empty(),
    {
        FunctionTable { definitions: Vec::new() }
    }

    /// Defines the function, in place of an earlier one of that name.
    pub fn insert(&mut self, name: &'a Name, params: &'a Vec<Name>, body: &'a Expression)
        ensures
            final(self)@ == old(self)@.insert(
                name@,
                Function { params: names_view(params@), body: body@ },
            ),
            final(self).definitions@ == old(self).definitions@.push((name, params, body)),
    {
        self.definitions.push((name, params, body));
        assert(self.definitions@.drop_last() =~= old(self).definitions@);
    }

    /// The parameters and the body of the function of that name.
    pub fn get(&self, name: &Name) -> (r: Option<(&'a Vec<Name>, &'a Expression)>)
        ensures
            match r {
                Some((params, body)) => self@.contains_key(name@) && self@[name@] == (Function {
                    params: names_view(params@),
                    body: body@,
                }),
                None => !self@.contains_key(name@),
            },
    {
        let mut i = self.definitions.len();
        assert(self.definitions@.take(i as int) =~= self.definitions@);
        while i > 0
            invariant
                i <= self.definitions.len(),
                self@.contains_key(name@) == definitions_map(
                    self.definitions@.take(i as int),
                ).contains_key(name@),
                self@.contains_key(name@) ==> self@[name@] == definitions_map(
                    self.definitions@.take(i as int),
                )[name@],
            decreases i,
        {
            i -= 1;
            assert(self.definitions@.take(i + 1).drop_last() =~= self.definitions@.take(i as int));
            if self.definitions[i].0.0 == name.0 {
                return Some((self.definitions[i].1, self.definitions[i].2));
            }
        }
        None
    }
}

/// The value of an operation on two integers.
pub fn apply(op: Operator, l: i64, r: i64) -> (v: Result<i64, Error>)
    ensures
        v == semantics::apply(op, l, r),
{
    match op {
        Operator::Add => Ok(l.wrapping_add(r)),
        Operator::Subtract => Ok(l.wrapping_sub(r)),
        Operator::Multiply => Ok(l.wrapping_mul(r)),
        Operator::Divide => match l.checked_div(r) {
            Some(q) => {
                Ok(q)
            },
            None => if r == 0 {
                Err(Error::DivisionByZero)
            } else {
                Ok(i64::MIN)
            },
        },
    }
}

} // verus!

verus! {

/// The values, with what a further result holds behind them.
pub open spec fn prepend(values: Seq<i64>, rest: Result<Seq<i64>, Error>) -> Result<
    Seq<i64>,
    Error,
> {
    match rest {
        Ok(more) => Ok(values + more),
        Err(e) => Err(e),
    }
}

/// A vector of values agrees with a result over sequences.
pub open spec fn gives(r: Result<Vec<i64>, Error>, m: Result<Seq<i64>, Error>) -> bool {
    match r {
        Ok(v) => m == Ok::<Seq<i64>, Error>(v@),
        Err(e) => m == Err::<Seq<i64>, Error>(e),
    }
}

/// The value of the expression with the variables and functions given, where
/// function applications may nest `depth` deep.
pub fn eval_expression(
    e: &Expression,
    vars: &Environment,
    fns: &FunctionTable,
    depth: usize,
) -> (r: Result<i64, Error>)
    ensures
        r == semantics::eval_expression(e@, vars@, fns@, depth as nat),
    decreases depth, e, 0nat,
{
    match e {
        Expression::Operand(o) => eval_operand(o, vars, fns, depth),
        Expression::Operation(op, l, r) => match eval_expression(l, vars, fns, depth) {
            Err(e) => Err(e),
            Ok(a) => match eval_expression(r, vars, fns, depth) {
                Err(e) => Err(e),
                Ok(b) => apply(*op, a, b),
            },
        },
    }
}

/// The value of the operand.
pub fn eval_operand(o: &Operand, vars: &Environment, fns: &FunctionTable, depth: usize) -> (r:
    Result<i64, Error>)
    ensures
        r == semantics::eval_term(o@, vars@, fns@, depth as nat),
    decreases depth, o, 0nat,
{
    match o {
        Operand::I64(n) => Ok(*n),
        Operand::Group(e) => eval_expression(e, vars, fns, depth),
        Operand::VarSubstitution(n) => match vars.get(n) {
            Some(v) => Ok(v),
            None => Err(Error::UndefinedVariable),
        },
        Operand::FnApplication(n, args) => {
            proof {
                crate::ast::lemma_operand_view(*o);
            }
            match fns.get(n) {
                None => Err(Error::UndefinedFunction),
                Some((params, body)) => {
                    if params.len() != args.len() {
                        return Err(Error::CallArity);
                    }
                    match eval_arguments(args, vars, fns, depth) {
                        Err(e) => Err(e),
                        Ok(values) => if depth == 0 {
                            Err(Error::RecursionLimit)
                        } else {
                            let callee = Environment::bind(params, &values);
                            eval_expression(body, &callee, fns, depth - 1)
                        },
                    }
                },
            }
        },
        Operand::Match(m) => {
            proof {
                crate::ast::lemma_operand_view(*o);
            }
            eval_match(m, vars, fns, depth)
        },
    }
}

/// The values of the arguments, left to right.
pub fn eval_arguments(
    args: &Vec<Expression>,
    vars: &Environment,
    fns: &FunctionTable,
    depth: usize,
) -> (r: Result<Vec<i64>, Error>)
    ensures
        gives(
            r,
            semantics::eval_arguments(
                crate::ast::expressions_view(args@),
                0,
                vars@,
                fns@,
                depth as nat,
            ),
        ),
        r matches Ok(values) ==> values.len() == args.len(),
    decreases depth, args, 0nat,
{
    let ghost models = crate::ast::expressions_view(args@);
    let mut values: Vec<i64> = Vec::new();
    let mut i: usize = 0;
    while i < args.len()
        invariant
            models == crate::ast::expressions_view(args@),
            i <= args.len(),
            values.len() == i,
            semantics::eval_arguments(models, 0, vars@, fns@, depth as nat) == prepend(
                values@,
                semantics::eval_arguments(models, i as nat, vars@, fns@, depth as nat),
            ),
        decreases args.len() - i,
    {
        match eval_expression(&args[i], vars, fns, depth) {
            Err(e) => {
                return Err(e);
            },
            Ok(v) => {
                let ghost before = values@;
                values.push(v);
                assert forall|rest: Seq<i64>| before + (seq![v] + rest) == values@ + rest by {
                    assert(before + (seq![v] + rest) =~= values@ + rest);
                }
            },
        }
        i += 1;
    }
    assert(values@ + Seq::<i64>::empty() =~= values@);
    Ok(values)
}

/// The value of the match: that of the first clause whose matcher has the
/// value of the scrutinee, or else of the default.
pub fn eval_match(m: &Match, vars: &Environment, fns: &FunctionTable, depth: usize) -> (r: Result<
    i64,
    Error,
>)
    ensures
        r == semantics::eval_term(
            crate::model::Term::Match(Box::new(m@)),
            vars@,
            fns@,
            depth as nat,
        ),
    decreases depth, m, 1nat,
{
    match eval_expression(&m.with, vars, fns, depth) {
        Err(e) => Err(e),
        Ok(v) => eval_clauses(m, v, vars, fns, depth),
    }
}

/// The value of the match for a scrutinee of value `v`.
fn eval_clauses(m: &Match, v: i64, vars: &Environment, fns: &FunctionTable, depth: usize) -> (r:
    Result<i64, Error>)
    ensures
        r == semantics::eval_clauses(m@, 0, v, vars@, fns@, depth as nat),
    decreases depth, m, 0nat,
{
    let mut i: usize = 0;
    while i < m.clauses.len()
        invariant
            i <= m.clauses.len(),
            semantics::eval_clauses(m@, 0, v, vars@, fns@, depth as nat) == semantics::eval_clauses(
                m@,
                i as nat,
                v,
                vars@,
                fns@,
                depth as nat,
            ),
        decreases m.clauses.len() - i,
    {
        let clause = &m.clauses[i];
        let Matcher::Value(matcher) = &clause.0;
        match eval_expression(matcher, vars, fns, depth) {
            Err(e) => {
                return Err(e);
            },
            Ok(w) => {
                if w == v {
                    return eval_expression(&clause.1, vars, fns, depth);
                }
            },
        }
        i += 1;
    }
    eval_expression(&m.default, vars, fns, depth)
}

/// The values of the names in the environment.
pub fn read_all(names: &Vec<Name>, vars: &Environment) -> (r: Result<Vec<i64>, Error>)
    ensures
        gives(r, semantics::read_all(names_view(names@), 0, vars@)),
{
    let ghost models = names_view(names@);
    let mut values: Vec<i64> = Vec::new();
    let mut i: usize = 0;
    while i < names.len()
        invariant
            models == names_view(names@),
            i <= names.len(),
            semantics::read_all(models, 0, vars@) == prepend(
                values@,
                semantics::read_all(models, i as nat, vars@),
            ),
        decreases names.len() - i,
    {
        match vars.get(&names[i]) {
            None => {
                return Err(Error::UndefinedVariable);
            },
            Some(v) => {
                let ghost before = values@;
                values.push(v);
                assert forall|rest: Seq<i64>| before + (seq![v] + rest) == values@ + rest by {
                    assert(before + (seq![v] + rest) =~= values@ + rest);
                }
            },
        }
        i += 1;
    }
    assert(values@ + Seq::<i64>::empty() =~= values@);
    Ok(values)
}

/// Runs the program on the inputs, with function applications nesting at
/// most `depth` deep.
pub fn execute_within(program: &Program, inputs: &Vec<i64>, depth: usize) -> (r: Result<
    Vec<i64>,
    Error,
>)
    ensures
        gives(r, semantics::execute(program@, inputs@, depth as nat)),
{
    if inputs.len() != program.inputs.len() {
        return Err(Error::InputArity);
    }
    let mut vars = Environment::bind(&program.inputs, inputs);
    let mut fns = FunctionTable::new();
    let statements = &program.statements.0;
    let ghost start = State { vars: vars@, fns: fns@ };
    let mut i: usize = 0;
    while i < statements.len()
        invariant
            statements == &program.statements.0,
            inputs@.len() == program@.inputs.len(),
            start == (State { vars: semantics::bind(program@.inputs, inputs@), fns: Map::empty() }),
            i <= statements.len(),
            semantics::run(program@.statements, 0, start, depth as nat) == semantics::run(
                program@.statements,
                i as nat,
                State { vars: vars@, fns: fns@ },
                depth as nat,
            ),
        decreases statements.len() - i,
    {
        match &statements[i] {
            Statement::VarAssignment(n, e) => match eval_expression(e, &vars, &fns, depth) {
                Err(e) => {
                    return Err(e);
                },
                Ok(v) => {
                    vars.insert(n, v);
                },
            },
            Statement::FnDefinition(n, params, body) => {
                fns.insert(n, params, body);
            },
        }
        i += 1;
    }
    read_all(&program.outputs, &vars)
}

/// Runs the program on the inputs: binds each input to the value at its
/// position, executes the statements in order, and gives the values of the
/// outputs. Function applications may nest [`MAX_CALL_DEPTH`] deep.
pub fn execute(program: &Program, inputs: &Vec<i64>) -> (r: Result<Vec<i64>, Error>)
    ensures
        gives(r, semantics::execute(program@, inputs@, MAX_CALL_DEPTH as nat)),
        inputs@.len() != program@.inputs.len() ==> r == Err::<Vec<i64>, Error>(Error::InputArity),
{
    execute_within(program, inputs, MAX_CALL_DEPTH)
}

} // verus!
