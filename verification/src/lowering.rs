//! Lowering a program to resolved code: every variable becomes a slot and
//! every function a routine. The resolved code gives what the program gives.

use crate::ast::{names_view, Expression, Match, Matcher, Name, Operand, Program, Statement};
use crate::code::{
    eval_code, eval_codes, eval_switch, read_slots, resolved, routines_after, routines_resolved,
    run_module, run_stages, stage_resolved, well_resolved, Code, Module, Routine, Stage, Switch,
};
use crate::interpreter::{Error, FunctionTable};
use crate::model::{Arms, Expr, Ident, Prog, Stmt, Term};
use crate::resolution;
use crate::resolution::{arities, check_expression, check_term, names_set, Arities};
use crate::semantics;
use crate::semantics::{Function, Functions, State, Variables};
use vstd::prelude::*;

verus! {

/// The number that each name stands for.
pub type Numbering = Map<Ident, nat>;

/// The numbers given to names so far, oldest first; of two entries of one
/// name the later one holds.
pub open spec fn numbering(entries: Seq<(&Name, usize)>) -> Numbering
    decreases entries.len(),
{
    if entries.len() == 0 {
        Map::empty()
    } else {
        numbering(entries.drop_last()).insert(entries.last().0@, entries.last().1 as nat)
    }
}

/// Numbers for names: the slots of variables, or the routines of functions.
pub struct Slots<'a> {
    pub entries: Vec<(&'a Name, usize)>,
}

impl<'a> View for Slots<'a> {
    type V = Numbering;

    open spec fn view(&self) -> Numbering {
        numbering(self.entries@)
    }
}

impl<'a> Slots<'a> {
    /// No name has a number.
    pub fn new() -> (r: Self)
        ensures
            r@ == Map::<Ident, nat>::empty(),
    {
        Slots { entries: Vec::new() }
    }

    /// Gives the name the number, in place of the one it had.
    pub fn insert(&mut self, name: &'a Name, number: usize)
        ensures
            final(self)@ == old(self)@.insert(name@, number as nat),
    {
        self.entries.push((name, number));
        assert(self.entries@.drop_last() =~= old(self).entries@);
    }

    /// The number of the name.
    pub fn get(&self, name: &Name) -> (r: Option<usize>)
        ensures
            match r {
                Some(number) => self@.contains_key(name@) && self@[name@] == number,
                None => !self@.contains_key(name@),
            },
    {
        let mut i = self.entries.len();
        assert(self.entries@.take(i as int) =~= self.entries@);
        while i > 0
            invariant
                i <= self.entries.len(),
                self@.contains_key(name@) == numbering(self.entries@.take(i as int)).contains_key(
                    name@,
                ),
                self@.contains_key(name@) ==> self@[name@] == numbering(
                    self.entries@.take(i as int),
                )[name@],
            decreases i,
        {
            i -= 1;
            assert(self.entries@.take(i + 1).drop_last() =~= self.entries@.take(i as int));
            if self.entries[i].0.same(name) {
                return Some(self.entries[i].1);
            }
        }
        None
    }
}

/// The expression is lowered to the code: the code has the shape of the
/// expression without its groups, with the number of each name in its place.
pub open spec fn lowers_to(e: Expr, c: Code, vars: Numbering, fns: Numbering) -> bool
    decreases e, 0nat,
{
    match e {
        Expr::Operand(t) => lowers_term(t, c, vars, fns),
        Expr::Operation(op, l, r) => c matches Code::Binary(o, cl, cr) && o == op && lowers_to(
            *l,
            *cl,
            vars,
            fns,
        ) && lowers_to(*r, *cr, vars, fns),
    }
}

/// The operand is lowered to the code.
pub open spec fn lowers_term(t: Term, c: Code, vars: Numbering, fns: Numbering) -> bool
    decreases t, 0nat,
{
    match t {
        Term::I64(n) => c == Code::Constant(n),
        Term::Group(e) => lowers_to(*e, c, vars, fns),
        Term::VarSubstitution(n) => {
            &&& vars.contains_key(n)
            &&& c matches Code::Local(k)
            &&& k == vars[n]
        },
        Term::FnApplication(n, args) => {
            &&& fns.contains_key(n)
            &&& c matches Code::Call(f, codes)
            &&& f == fns[n]
            &&& codes@.len() == args.len()
            &&& forall|k: int|
                0 <= k < args.len() ==> lowers_to(#[trigger] args[k], codes@[k], vars, fns)
        },
        Term::Match(m) => {
            &&& c matches Code::Select(s)
            &&& lowers_to(m.with, s.with, vars, fns)
            &&& lowers_to(m.default, s.default, vars, fns)
            &&& s.clauses@.len() == m.clauses.len()
            &&& forall|k: int|
                0 <= k < m.clauses.len() ==> lowers_to(
                    (#[trigger] m.clauses[k]).0,
                    s.clauses@[k].0,
                    vars,
                    fns,
                ) && lowers_to(m.clauses[k].1, s.clauses@[k].1, vars, fns)
        },
    }
}

/// Lowers an expression that uses only names that have numbers.
fn lower_expression(
    e: &Expression,
    vars: &Slots,
    fns: &Slots,
    Ghost(known): Ghost<Arities>,
) -> (c: Code)
    requires
        check_expression(e@, vars@.dom(), known) is Ok,
        known.dom() == fns@.dom(),
    ensures
        lowers_to(e@, c, vars@, fns@),
    decreases e, 0nat,
{
    match e {
        Expression::Operand(o) => lower_operand(o, vars, fns, Ghost(known)),
        Expression::Operation(op, l, r) => {
            let left = lower_expression(l, vars, fns, Ghost(known));
            let right = lower_expression(r, vars, fns, Ghost(known));
            Code::Binary(*op, Box::new(left), Box::new(right))
        },
    }
}

/// Lowers an operand that uses only names that have numbers.
fn lower_operand(o: &Operand, vars: &Slots, fns: &Slots, Ghost(known): Ghost<Arities>) -> (c:
    Code)
    requires
        check_term(o@, vars@.dom(), known) is Ok,
        known.dom() == fns@.dom(),
    ensures
        lowers_term(o@, c, vars@, fns@),
    decreases o, 0nat,
{
    proof {
        crate::ast::lemma_operand_view(*o);
    }
    match o {
        Operand::I64(n) => Code::Constant(*n),
        Operand::Group(e) => lower_expression(e, vars, fns, Ghost(known)),
        Operand::VarSubstitution(n) => match vars.get(n) {
            Some(slot) => Code::Local(slot),
            None => Code::Constant(0),
        },
        Operand::FnApplication(n, args) => {
            let routine = match fns.get(n) {
                Some(routine) => routine,
                None => 0,
            };
            let ghost models = crate::ast::expressions_view(args@);
            let mut codes: Vec<Code> = Vec::new();
            let mut i: usize = 0;
            while i < args.len()
                invariant
                    *o matches Operand::FnApplication(_, a) && a == args,
                    models == crate::ast::expressions_view(args@),
                    known.dom() == fns@.dom(),
                    resolution::check_arguments(models, i as nat, vars@.dom(), known) is Ok,
                    i <= args.len(),
                    codes.len() == i,
                    forall|k: int| 0 <= k < i ==> lowers_to(models[k], codes@[k], vars@, fns@),
                decreases args.len() - i,
            {
                let code = lower_expression(&args[i], vars, fns, Ghost(known));
                codes.push(code);
                i += 1;
            }
            Code::Call(routine, codes)
        },
        Operand::Match(m) => {
            let with = lower_expression(&m.with, vars, fns, Ghost(known));
            let ghost model = m@;
            let mut clauses: Vec<(Code, Code)> = Vec::new();
            let mut i: usize = 0;
            while i < m.clauses.len()
                invariant
                    *o matches Operand::Match(mm) && mm == m,
                    model == m@,
                    known.dom() == fns@.dom(),
                    resolution::check_clauses(model, i as nat, vars@.dom(), known) is Ok,
                    i <= m.clauses.len(),
                    clauses.len() == i,
                    forall|k: int|
                        0 <= k < i ==> lowers_to(model.clauses[k].0, clauses@[k].0, vars@, fns@)
                            && lowers_to(model.clauses[k].1, clauses@[k].1, vars@, fns@),
                decreases m.clauses.len() - i,
            {
                let Matcher::Value(matcher) = &m.clauses[i].0;
                let left = lower_expression(matcher, vars, fns, Ghost(known));
                let right = lower_expression(&m.clauses[i].1, vars, fns, Ghost(known));
                clauses.push((left, right));
                i += 1;
            }
            let default = lower_expression(&m.default, vars, fns, Ghost(known));
            Code::Select(Box::new(Switch { with, clauses, default }))
        },
    }
}

} // verus!

verus! {

/// The slots hold the values of the variables: every variable has a slot,
/// and its value stands there.
pub open spec fn slots_hold(slots: Numbering, vars: Variables, locals: Seq<i64>) -> bool {
    &&& slots.dom() == vars.dom()
    &&& forall|n: Ident| #[trigger]
        vars.contains_key(n) ==> slots[n] < locals.len() && locals[slots[n] as int] == vars[n]
}

/// The slots of the parameters of a function: each at its position, of two
/// equal names the later one.
pub open spec fn parameter_slots(params: Seq<Ident>) -> Numbering
    decreases params.len(),
{
    if params.len() == 0 {
        Map::empty()
    } else {
        parameter_slots(params.drop_last()).insert(params.last(), (params.len() - 1) as nat)
    }
}

/// The routines hold the functions: every function has a routine of its
/// arity, whose body is what the body of the function is lowered to.
pub open spec fn routines_hold(numbers: Numbering, fns: Functions, routines: Seq<Routine>) -> bool {
    &&& numbers.dom() == fns.dom()
    &&& forall|f: Ident| #[trigger]
        fns.contains_key(f) ==> {
            &&& numbers[f] < routines.len()
            &&& routines[numbers[f] as int].arity == fns[f].params.len()
            &&& lowers_to(
                fns[f].body,
                routines[numbers[f] as int].body,
                parameter_slots(fns[f].params),
                numbers,
            )
        }
}

/// The arguments of a call stand in the slots of the parameters.
pub proof fn lemma_parameter_slots(params: Seq<Ident>, values: Seq<i64>, locals: Seq<i64>)
    requires
        params.len() == values.len(),
        values.len() <= locals.len(),
        forall|k: int| 0 <= k < values.len() ==> locals[k] == values[k],
    ensures
        slots_hold(parameter_slots(params), semantics::bind(params, values), locals),
    decreases params.len(),
{
    if params.len() > 0 {
        lemma_parameter_slots(params.drop_last(), values.drop_last(), locals);
    }
    assert(parameter_slots(params).dom() =~= semantics::bind(params, values).dom());
}

/// Code that an expression is lowered to has the value of the expression,
/// where the slots hold the variables and the routines the functions.
pub proof fn lemma_expression(
    e: Expr,
    c: Code,
    slots: Numbering,
    numbers: Numbering,
    vars: Variables,
    fns: Functions,
    locals: Seq<i64>,
    routines: Seq<Routine>,
    depth: nat,
)
    requires
        lowers_to(e, c, slots, numbers),
        slots_hold(slots, vars, locals),
        routines_hold(numbers, fns, routines),
    ensures
        eval_code(c, locals, routines, depth) == semantics::eval_expression(e, vars, fns, depth),
    decreases depth, e, 0nat,
{
    match e {
        Expr::Operand(t) => {
            lemma_term(t, c, slots, numbers, vars, fns, locals, routines, depth);
        },
        Expr::Operation(op, l, r) => {
            let cl = c->Binary_1;
            let cr = c->Binary_2;
            lemma_expression(*l, *cl, slots, numbers, vars, fns, locals, routines, depth);
            lemma_expression(*r, *cr, slots, numbers, vars, fns, locals, routines, depth);
        },
    }
}

/// Code that an operand is lowered to has the value of the operand.
pub proof fn lemma_term(
    t: Term,
    c: Code,
    slots: Numbering,
    numbers: Numbering,
    vars: Variables,
    fns: Functions,
    locals: Seq<i64>,
    routines: Seq<Routine>,
    depth: nat,
)
    requires
        lowers_term(t, c, slots, numbers),
        slots_hold(slots, vars, locals),
        routines_hold(numbers, fns, routines),
    ensures
        eval_code(c, locals, routines, depth) == semantics::eval_term(t, vars, fns, depth),
    decreases depth, t, 0nat,
{
    match t {
        Term::I64(_) => {},
        Term::Group(e) => {
            lemma_expression(*e, c, slots, numbers, vars, fns, locals, routines, depth);
        },
        Term::VarSubstitution(n) => {
            assert(slots.contains_key(n) == vars.contains_key(n));
        },
        Term::FnApplication(n, args) => {
            let codes = c->Call_1;
            assert(numbers.contains_key(n) == fns.contains_key(n));
            lemma_arguments(args, codes@, 0, slots, numbers, vars, fns, locals, routines, depth);
            crate::resolution::lemma_arguments_count(args, 0, vars, fns, depth);
            match semantics::eval_arguments(args, 0, vars, fns, depth) {
                Ok(values) => {
                    if depth > 0 && fns[n].params.len() == args.len() {
                        let routine = routines[numbers[n] as int];
                        lemma_parameter_slots(fns[n].params, values, values);
                        lemma_expression(
                            fns[n].body,
                            routine.body,
                            parameter_slots(fns[n].params),
                            numbers,
                            semantics::bind(fns[n].params, values),
                            fns,
                            values,
                            routines,
                            (depth - 1) as nat,
                        );
                    }
                },
                Err(_) => {},
            }
        },
        Term::Match(m) => {
            let s = *c->Select_0;
            lemma_expression(m.with, s.with, slots, numbers, vars, fns, locals, routines, depth);
            match semantics::eval_expression(m.with, vars, fns, depth) {
                Ok(v) => {
                    lemma_clauses(*m, s, 0, v, slots, numbers, vars, fns, locals, routines, depth);
                },
                Err(_) => {},
            }
        },
    }
}

/// Codes that arguments are lowered to have the values of the arguments.
pub proof fn lemma_arguments(
    args: Seq<Expr>,
    codes: Seq<Code>,
    from: nat,
    slots: Numbering,
    numbers: Numbering,
    vars: Variables,
    fns: Functions,
    locals: Seq<i64>,
    routines: Seq<Routine>,
    depth: nat,
)
    requires
        codes.len() == args.len(),
        forall|k: int| 0 <= k < args.len() ==> lowers_to(#[trigger] args[k], codes[k], slots, numbers),
        slots_hold(slots, vars, locals),
        routines_hold(numbers, fns, routines),
    ensures
        eval_codes(codes, from, locals, routines, depth) == semantics::eval_arguments(
            args,
            from,
            vars,
            fns,
            depth,
        ),
    decreases depth, args, args.len() - from,
{
    if from < args.len() {
        lemma_expression(
            args[from as int],
            codes[from as int],
            slots,
            numbers,
            vars,
            fns,
            locals,
            routines,
            depth,
        );
        lemma_arguments(args, codes, from + 1, slots, numbers, vars, fns, locals, routines, depth);
    }
}

/// A choice that a match is lowered to has the value of the match.
pub proof fn lemma_clauses(
    m: Arms,
    s: Switch,
    from: nat,
    v: i64,
    slots: Numbering,
    numbers: Numbering,
    vars: Variables,
    fns: Functions,
    locals: Seq<i64>,
    routines: Seq<Routine>,
    depth: nat,
)
    requires
        lowers_term(Term::Match(Box::new(m)), Code::Select(Box::new(s)), slots, numbers),
        slots_hold(slots, vars, locals),
        routines_hold(numbers, fns, routines),
    ensures
        eval_switch(s, from, v, locals, routines, depth) == semantics::eval_clauses(
            m,
            from,
            v,
            vars,
            fns,
            depth,
        ),
    decreases depth, m, m.clauses.len() - from,
{
    if from < m.clauses.len() {
        lemma_expression(
            m.clauses[from as int].0,
            s.clauses@[from as int].0,
            slots,
            numbers,
            vars,
            fns,
            locals,
            routines,
            depth,
        );
        lemma_expression(
            m.clauses[from as int].1,
            s.clauses@[from as int].1,
            slots,
            numbers,
            vars,
            fns,
            locals,
            routines,
            depth,
        );
        lemma_clauses(m, s, from + 1, v, slots, numbers, vars, fns, locals, routines, depth);
    } else {
        lemma_expression(m.default, s.default, slots, numbers, vars, fns, locals, routines, depth);
    }
}

} // verus!

verus! {

/// The numbers stay below the limit.
pub open spec fn numbers_below(numbers: Numbering, limit: nat) -> bool {
    forall|n: Ident| #[trigger] numbers.contains_key(n) ==> numbers[n] < limit
}

/// The numbers of the functions fit the routines: every function known has
/// a number, which is that of a routine of its arity.
pub open spec fn numbers_fit(numbers: Numbering, known: Arities, routines: Seq<Routine>) -> bool {
    &&& known.dom() == numbers.dom()
    &&& forall|f: Ident| #[trigger]
        numbers.contains_key(f) ==> numbers[f] < routines.len() && routines[numbers[f] as int].arity
            == known[f]
}

/// Arguments that pass the check together pass it each.
proof fn lemma_arguments_each(args: Seq<Expr>, from: nat, vars: Set<Ident>, known: Arities, k: int)
    requires
        resolution::check_arguments(args, from, vars, known) is Ok,
        from <= k < args.len(),
    ensures
        check_expression(args[k], vars, known) is Ok,
    decreases args.len() - from,
{
    if from < k {
        lemma_arguments_each(args, from + 1, vars, known, k);
    }
}

/// Clauses that pass the check together pass it each.
proof fn lemma_clauses_each(m: Arms, from: nat, vars: Set<Ident>, known: Arities, k: int)
    requires
        resolution::check_clauses(m, from, vars, known) is Ok,
        from <= k < m.clauses.len(),
    ensures
        check_expression(m.clauses[k].0, vars, known) is Ok,
        check_expression(m.clauses[k].1, vars, known) is Ok,
    decreases m.clauses.len() - from,
{
    if from < k {
        lemma_clauses_each(m, from + 1, vars, known, k);
    }
}

/// Code that an expression which passes the check is lowered to is resolved
/// among the slots and routines that its names are numbered by.
pub proof fn lemma_lowered_is_resolved(
    e: Expr,
    c: Code,
    slots: Numbering,
    numbers: Numbering,
    known: Arities,
    count: nat,
    routines: Seq<Routine>,
)
    requires
        lowers_to(e, c, slots, numbers),
        check_expression(e, slots.dom(), known) is Ok,
        numbers_below(slots, count),
        numbers_fit(numbers, known, routines),
    ensures
        resolved(c, count, routines),
    decreases e, 0nat,
{
    match e {
        Expr::Operand(t) => {
            lemma_lowered_term_is_resolved(t, c, slots, numbers, known, count, routines);
        },
        Expr::Operation(_, l, r) => {
            lemma_lowered_is_resolved(*l, *c->Binary_1, slots, numbers, known, count, routines);
            lemma_lowered_is_resolved(*r, *c->Binary_2, slots, numbers, known, count, routines);
        },
    }
}

/// Code that an operand which passes the check is lowered to is resolved.
pub proof fn lemma_lowered_term_is_resolved(
    t: Term,
    c: Code,
    slots: Numbering,
    numbers: Numbering,
    known: Arities,
    count: nat,
    routines: Seq<Routine>,
)
    requires
        lowers_term(t, c, slots, numbers),
        check_term(t, slots.dom(), known) is Ok,
        numbers_below(slots, count),
        numbers_fit(numbers, known, routines),
    ensures
        resolved(c, count, routines),
    decreases t, 0nat,
{
    match t {
        Term::I64(_) => {},
        Term::Group(e) => {
            lemma_lowered_is_resolved(*e, c, slots, numbers, known, count, routines);
        },
        Term::VarSubstitution(n) => {
            assert(slots.contains_key(n));
        },
        Term::FnApplication(n, args) => {
            let codes = c->Call_1;
            assert(numbers.contains_key(n));
            assert forall|k: int| 0 <= k < codes@.len() implies resolved(
                #[trigger] codes@[k],
                count,
                routines,
            ) by {
                lemma_arguments_each(args, 0, slots.dom(), known, k);
                lemma_lowered_is_resolved(args[k], codes@[k], slots, numbers, known, count, routines);
            }
        },
        Term::Match(m) => {
            let s = *c->Select_0;
            lemma_lowered_is_resolved(m.with, s.with, slots, numbers, known, count, routines);
            lemma_lowered_is_resolved(m.default, s.default, slots, numbers, known, count, routines);
            assert forall|k: int| 0 <= k < s.clauses@.len() implies resolved(
                (#[trigger] s.clauses@[k]).0,
                count,
                routines,
            ) && resolved(s.clauses@[k].1, count, routines) by {
                lemma_clauses_each(*m, 0, slots.dom(), known, k);
                lemma_lowered_is_resolved(
                    m.clauses[k].0,
                    s.clauses@[k].0,
                    slots,
                    numbers,
                    known,
                    count,
                    routines,
                );
                lemma_lowered_is_resolved(
                    m.clauses[k].1,
                    s.clauses@[k].1,
                    slots,
                    numbers,
                    known,
                    count,
                    routines,
                );
            }
        },
    }
}

/// The slots of parameters are below their number.
pub proof fn lemma_parameter_slots_below(params: Seq<Ident>)
    ensures
        numbers_below(parameter_slots(params), params.len()),
    decreases params.len(),
{
    if params.len() > 0 {
        lemma_parameter_slots_below(params.drop_last());
    }
}

/// Routines that hold the functions fit their arities.
pub proof fn lemma_routines_fit(numbers: Numbering, fns: Functions, routines: Seq<Routine>)
    requires
        routines_hold(numbers, fns, routines),
    ensures
        numbers_fit(numbers, arities(fns), routines),
{
    assert(arities(fns).dom() =~= numbers.dom());
    assert forall|f: Ident| #[trigger] numbers.contains_key(f) implies numbers[f] < routines.len()
        && routines[numbers[f] as int].arity == arities(fns)[f] by {
        assert(fns.contains_key(f));
    }
}

/// The state after the first `upto` statements.
pub open spec fn prefix_state(statements: Seq<Stmt>, upto: nat, start: State, depth: nat) -> Result<
    State,
    Error,
>
    decreases upto,
{
    if upto == 0 || upto > statements.len() {
        Ok(start)
    } else {
        match prefix_state(statements, (upto - 1) as nat, start, depth) {
            Err(e) => Err(e),
            Ok(state) => semantics::step(statements[upto - 1], state, depth),
        }
    }
}

/// Running all statements is running the first of them, then the others.
pub proof fn lemma_run_prefix(statements: Seq<Stmt>, upto: nat, start: State, depth: nat)
    requires
        upto <= statements.len(),
    ensures
        semantics::run(statements, 0, start, depth) == match prefix_state(
            statements,
            upto,
            start,
            depth,
        ) {
            Err(e) => Err(e),
            Ok(state) => semantics::run(statements, upto, state, depth),
        },
    decreases upto,
{
    if upto > 0 {
        lemma_run_prefix(statements, (upto - 1) as nat, start, depth);
    }
}

/// The first stages run the same whatever stages follow them.
pub proof fn lemma_stages_prefix(
    stages: Seq<Stage>,
    longer: Seq<Stage>,
    upto: nat,
    inputs: Seq<i64>,
    depth: nat,
)
    requires
        upto <= stages.len() <= longer.len(),
        forall|k: int| 0 <= k < stages.len() ==> longer[k] == stages[k],
    ensures
        run_stages(longer, upto, inputs, depth) == run_stages(stages, upto, inputs, depth),
    decreases upto,
{
    if upto > 0 {
        lemma_stages_prefix(stages, longer, (upto - 1) as nat, inputs, depth);
    }
}

/// The routines in force after the first stages are the same whatever
/// stages follow them.
pub proof fn lemma_routines_after_prefix(stages: Seq<Stage>, longer: Seq<Stage>, upto: nat)
    requires
        upto <= stages.len() <= longer.len(),
        forall|k: int| 0 <= k < stages.len() ==> longer[k] == stages[k],
    ensures
        routines_after(longer, upto) == routines_after(stages, upto),
    decreases upto,
{
    if upto > 0 {
        lemma_routines_after_prefix(stages, longer, (upto - 1) as nat);
    }
}

/// The state of the program and the state of its resolved code agree: both
/// failed alike, or the slots hold the variables, as many as `count`, and,
/// unless functions were defined since the routines were made, the routines
/// hold the functions.
pub open spec fn agree(
    slots: Numbering,
    numbers: Numbering,
    stale: bool,
    table: Functions,
    count: nat,
    state: Result<State, Error>,
    run: Result<(Seq<i64>, Seq<Routine>), Error>,
) -> bool {
    match state {
        Err(e) => run == Err::<(Seq<i64>, Seq<Routine>), Error>(e),
        Ok(st) => {
            &&& run matches Ok((locals, routines))
            &&& st.fns == table
            &&& locals.len() == count
            &&& slots_hold(slots, st.vars, locals)
            &&& !stale ==> routines_hold(numbers, table, routines)
        },
    }
}

/// A function definition leaves the states in agreement, with the routines
/// out of date.
pub proof fn lemma_after_definition(
    slots: Numbering,
    numbers: Numbering,
    stale: bool,
    table: Functions,
    count: nat,
    state: Result<State, Error>,
    run: Result<(Seq<i64>, Seq<Routine>), Error>,
    statement: Stmt,
    depth: nat,
)
    requires
        agree(slots, numbers, stale, table, count, state, run),
        statement is FnDefinition,
    ensures
        agree(
            slots,
            numbers,
            true,
            table.insert(
                statement->FnDefinition_0,
                Function { params: statement->FnDefinition_1, body: statement->FnDefinition_2 },
            ),
            count,
            match state {
                Err(e) => Err(e),
                Ok(st) => semantics::step(statement, st, depth),
            },
            run,
        ),
{
}

/// An assignment, lowered to a stage, leaves the states in agreement.
pub proof fn lemma_after_assignment(
    slots: Numbering,
    numbers: Numbering,
    table: Functions,
    count: nat,
    state: Result<State, Error>,
    run: Result<(Seq<i64>, Seq<Routine>), Error>,
    name: Ident,
    e: Expr,
    stage: Stage,
    depth: nat,
)
    requires
        match state {
            Err(err) => run == Err::<(Seq<i64>, Seq<Routine>), Error>(err),
            Ok(st) => {
                &&& run matches Ok((locals, routines))
                &&& st.fns == table
                &&& locals.len() == count
                &&& slots_hold(slots, st.vars, locals)
                &&& routines_hold(
                    numbers,
                    table,
                    match stage.routines {
                        Some(fresh) => fresh@,
                        None => routines,
                    },
                )
            },
        },
        lowers_to(e, stage.code, slots, numbers),
    ensures
        agree(
            slots.insert(name, count),
            numbers,
            false,
            table,
            count + 1,
            match state {
                Err(err) => Err(err),
                Ok(st) => semantics::step(Stmt::VarAssignment(name, e), st, depth),
            },
            match run {
                Err(err) => Err(err),
                Ok((locals, before)) => {
                    let routines = match stage.routines {
                        Some(fresh) => fresh@,
                        None => before,
                    };
                    match eval_code(stage.code, locals, routines, depth) {
                        Err(err) => Err(err),
                        Ok(v) => Ok((locals.push(v), routines)),
                    }
                },
            },
        ),
{
    match state {
        Ok(st) => {
            let locals = run->Ok_0.0;
            let before = run->Ok_0.1;
            let routines = match stage.routines {
                Some(fresh) => fresh@,
                None => before,
            };
            lemma_expression(e, stage.code, slots, numbers, st.vars, table, locals, routines, depth);
            match semantics::eval_expression(e, st.vars, st.fns, depth) {
                Ok(v) => {
                    let vars = st.vars.insert(name, v);
                    let next = slots.insert(name, count);
                    assert(next.dom() =~= vars.dom());
                    assert(slots_hold(next, vars, locals.push(v))) by {
                        assert forall|n: Ident| #[trigger] vars.contains_key(n) implies next[n]
                            < locals.push(v).len() && locals.push(v)[next[n] as int] == vars[n] by {
                            if n != name {
                                assert(st.vars.contains_key(n));
                            }
                        }
                    }
                },
                Err(_) => {},
            }
        },
        Err(_) => {},
    }
}

/// The values of the outputs stand in their slots.
pub proof fn lemma_outputs(
    names: Seq<Ident>,
    outputs: Seq<usize>,
    from: nat,
    slots: Numbering,
    vars: Variables,
    locals: Seq<i64>,
)
    requires
        outputs.len() == names.len(),
        forall|k: int|
            0 <= k < names.len() ==> slots.contains_key(#[trigger] names[k]) && slots[names[k]]
                == outputs[k],
        slots_hold(slots, vars, locals),
    ensures
        read_slots(outputs, from, locals) == semantics::read_all(names, from, vars),
    decreases names.len() - from,
{
    if from < names.len() {
        assert(slots.contains_key(names[from as int]));
        assert(vars.contains_key(names[from as int]));
        lemma_outputs(names, outputs, from + 1, slots, vars, locals);
    }
}

/// The parameters that have a slot are the parameters.
pub proof fn lemma_parameter_scope(params: Seq<Ident>)
    ensures
        parameter_slots(params).dom() == names_set(params),
    decreases params.len(),
{
    if params.len() == 0 {
        assert(parameter_slots(params).dom() =~= names_set(params));
    } else {
        let before = params.drop_last();
        lemma_parameter_scope(before);
        assert(parameter_slots(params).dom() =~= names_set(params)) by {
            assert forall|n: Ident| params.contains(n) <==> before.contains(n) || n
                == params.last() by {
                if before.contains(n) {
                    let k = choose|k: int| 0 <= k < before.len() && before[k] == n;
                    assert(params[k] == n);
                }
                if n == params.last() {
                    assert(params[params.len() - 1] == n);
                }
                if params.contains(n) {
                    let k = choose|k: int| 0 <= k < params.len() && params[k] == n;
                    if k < params.len() - 1 {
                        assert(before[k] == n);
                    }
                }
            }
        }
    }
}

/// Slots for the names, each at its position.
fn slots_of<'a>(names: &'a Vec<Name>) -> (r: Slots<'a>)
    ensures
        r@ == parameter_slots(names_view(names@)),
{
    let mut slots = Slots::new();
    let mut k: usize = 0;
    assert(names_view(names@).take(0) =~= Seq::empty());
    while k < names.len()
        invariant
            k <= names.len(),
            slots@ == parameter_slots(names_view(names@).take(k as int)),
        decreases names.len() - k,
    {
        assert(names_view(names@).take(k + 1).drop_last() =~= names_view(names@).take(k as int));
        slots.insert(&names[k], k);
        k += 1;
    }
    assert(names_view(names@).take(k as int) =~= names_view(names@));
    slots
}

} // verus!

verus! {

/// The numbers of the functions defined so far: each definition has the
/// number of its position, and a name stands for its latest definition.
pub open spec fn definition_numbers(definitions: Seq<(&Name, &Vec<Name>, &Expression)>) -> Numbering
    decreases definitions.len(),
{
    if definitions.len() == 0 {
        Map::empty()
    } else {
        definition_numbers(definitions.drop_last()).insert(
            definitions.last().0@,
            (definitions.len() - 1) as nat,
        )
    }
}

/// The number of a function is the position of its definition.
pub proof fn lemma_definition_numbers(definitions: Seq<(&Name, &Vec<Name>, &Expression)>)
    ensures
        definition_numbers(definitions).dom() == crate::interpreter::definitions_map(
            definitions,
        ).dom(),
        forall|f: Ident| #[trigger]
            definition_numbers(definitions).contains_key(f) ==> {
                let j = definition_numbers(definitions)[f] as int;
                &&& 0 <= j < definitions.len()
                &&& definitions[j].0@ == f
                &&& crate::interpreter::definitions_map(definitions)[f] == (Function {
                    params: names_view(definitions[j].1@),
                    body: definitions[j].2@,
                })
            },
    decreases definitions.len(),
{
    if definitions.len() > 0 {
        let before = definitions.drop_last();
        lemma_definition_numbers(before);
        assert forall|f: Ident| #[trigger]
            definition_numbers(definitions).contains_key(f) implies {
            let j = definition_numbers(definitions)[f] as int;
            &&& 0 <= j < definitions.len()
            &&& definitions[j].0@ == f
            &&& crate::interpreter::definitions_map(definitions)[f] == (Function {
                params: names_view(definitions[j].1@),
                body: definitions[j].2@,
            })
        } by {
            if f != definitions.last().0@ {
                assert(definition_numbers(before).contains_key(f));
                let j = definition_numbers(before)[f] as int;
                assert(definitions[j] == before[j]);
            }
        }
    }
    assert(definition_numbers(definitions).dom() =~= crate::interpreter::definitions_map(
        definitions,
    ).dom());
}

/// Every body of the definitions uses only its parameters and the functions
/// known.
pub open spec fn bodies_checked(
    definitions: Seq<(&Name, &Vec<Name>, &Expression)>,
    known: Arities,
) -> bool {
    forall|j: int|
        0 <= j < definitions.len() ==> check_expression(
            (#[trigger] definitions[j]).2@,
            names_set(names_view(definitions[j].1@)),
            known,
        ) is Ok
}

/// Lowers the functions defined so far to routines, and numbers them.
fn lower_routines<'a>(table: &FunctionTable<'a>) -> (r: (Vec<Routine>, Slots<'a>))
    requires
        bodies_checked(table.definitions@, arities(table@)),
    ensures
        routines_hold(r.1@, table@, r.0@),
        routines_resolved(r.0@),
{
    let definitions = &table.definitions;
    let mut numbers = Slots::new();
    let mut j: usize = 0;
    assert(definitions@.take(0) =~= Seq::empty());
    while j < definitions.len()
        invariant
            j <= definitions.len(),
            numbers@ == definition_numbers(definitions@.take(j as int)),
        decreases definitions.len() - j,
    {
        assert(definitions@.take(j + 1).drop_last() =~= definitions@.take(j as int));
        numbers.insert(definitions[j].0, j);
        j += 1;
    }
    assert(definitions@.take(j as int) =~= definitions@);
    proof {
        lemma_definition_numbers(definitions@);
        assert(arities(table@).dom() =~= numbers@.dom());
    }
    let mut routines: Vec<Routine> = Vec::new();
    let mut j: usize = 0;
    while j < definitions.len()
        invariant
            definitions == &table.definitions,
            bodies_checked(definitions@, arities(table@)),
            arities(table@).dom() == numbers@.dom(),
            j <= definitions.len(),
            routines.len() == j,
            forall|k: int|
                0 <= k < j ==> (#[trigger] routines@[k]).arity == definitions@[k].1@.len()
                    && lowers_to(
                    definitions@[k].2@,
                    routines@[k].body,
                    parameter_slots(names_view(definitions@[k].1@)),
                    numbers@,
                ),
        decreases definitions.len() - j,
    {
        let params = definitions[j].1;
        let slots = slots_of(params);
        proof {
            lemma_parameter_scope(names_view(params@));
        }
        let body = lower_expression(definitions[j].2, &slots, &numbers, Ghost(arities(table@)));
        routines.push(Routine { arity: params.len(), body });
        j += 1;
    }
    proof {
        assert forall|f: Ident| #[trigger] table@.contains_key(f) implies {
            &&& numbers@[f] < routines@.len()
            &&& routines@[numbers@[f] as int].arity == table@[f].params.len()
            &&& lowers_to(
                table@[f].body,
                routines@[numbers@[f] as int].body,
                parameter_slots(table@[f].params),
                numbers@,
            )
        } by {
            assert(numbers@.contains_key(f));
            let k = numbers@[f] as int;
            assert(routines@[k].arity == definitions@[k].1@.len());
        }
        lemma_routines_fit(numbers@, table@, routines@);
        assert forall|j: int| 0 <= j < routines@.len() implies resolved(
            (#[trigger] routines@[j]).body,
            routines@[j].arity as nat,
            routines@,
        ) by {
            let params = names_view(definitions@[j].1@);
            lemma_parameter_scope(params);
            lemma_parameter_slots_below(params);
            assert(definitions@[j].2@ == definitions@[j].2@);
            lemma_lowered_is_resolved(
                definitions@[j].2@,
                routines@[j].body,
                parameter_slots(params),
                numbers@,
                arities(table@),
                params.len(),
                routines@,
            );
        }
    }
    (routines, numbers)
}

} // verus!

verus! {

/// The state in which a program starts on the inputs.
pub open spec fn start(p: Prog, inputs: Seq<i64>) -> State {
    State { vars: semantics::bind(p.inputs, inputs), fns: Map::empty() }
}

/// Every definition of the table is made by one of the first `upto`
/// statements.
pub open spec fn made_before(
    definitions: Seq<(&Name, &Vec<Name>, &Expression)>,
    statements: Seq<Stmt>,
    upto: nat,
) -> bool {
    forall|j: int|
        0 <= j < definitions.len() ==> exists|k: int|
            0 <= k < upto && k < statements.len() && #[trigger] statements[k]
                == Stmt::FnDefinition(
                (#[trigger] definitions[j]).0@,
                names_view(definitions[j].1@),
                definitions[j].2@,
            )
}

/// Where the bodies that the statements define pass the check, the bodies of
/// the definitions that they made do.
proof fn lemma_bodies_checked(
    definitions: Seq<(&Name, &Vec<Name>, &Expression)>,
    statements: Seq<Stmt>,
    upto: nat,
    known: Arities,
)
    requires
        made_before(definitions, statements, upto),
        resolution::check_bodies(statements, 0, upto, known) is Ok,
    ensures
        bodies_checked(definitions, known),
{
    assert forall|j: int| 0 <= j < definitions.len() implies check_expression(
        (#[trigger] definitions[j]).2@,
        names_set(names_view(definitions[j].1@)),
        known,
    ) is Ok by {
        let k = choose|k: int|
            0 <= k < upto && k < statements.len() && #[trigger] statements[k]
                == Stmt::FnDefinition(
                (#[trigger] definitions[j]).0@,
                names_view(definitions[j].1@),
                definitions[j].2@,
            );
        resolution::lemma_bodies_each(statements, 0, upto, known, k);
    }
}

/// The slots of the outputs, which all have one.
fn lower_outputs(names: &Vec<Name>, slots: &Slots) -> (r: Vec<usize>)
    requires
        resolution::check_names(names_view(names@), 0, slots@.dom()) is Ok,
    ensures
        r.len() == names.len(),
        forall|k: int|
            0 <= k < names.len() ==> slots@.contains_key(#[trigger] names_view(names@)[k])
                && slots@[names_view(names@)[k]] == r@[k],
{
    let ghost models = names_view(names@);
    let mut outputs: Vec<usize> = Vec::new();
    let mut i: usize = 0;
    while i < names.len()
        invariant
            models == names_view(names@),
            i <= names.len(),
            outputs.len() == i,
            resolution::check_names(models, i as nat, slots@.dom()) is Ok,
            forall|k: int|
                0 <= k < i ==> slots@.contains_key(#[trigger] models[k]) && slots@[models[k]]
                    == outputs@[k],
        decreases names.len() - i,
    {
        let slot = match slots.get(&names[i]) {
            Some(slot) => slot,
            None => 0,
        };
        outputs.push(slot);
        i += 1;
    }
    outputs
}

/// Lowers the program to resolved code, if it passes the check: the module
/// is well resolved, and for every input and every depth of calls it gives
/// what the program gives.
#[verifier::rlimit(60)]
pub fn lower(program: &Program) -> (r: Result<Module, crate::compiler::Error>)
    ensures
        match r {
            Ok(m) => resolution::check_program(program@) is Ok && well_resolved(m) && m.inputs
                == program.inputs.len() && forall|inputs: Seq<i64>, depth: nat| #[trigger]
                run_module(m, inputs, depth) == semantics::execute(program@, inputs, depth),
            Err(e) => resolution::check_program(program@) == Err::<(), crate::compiler::Error>(e)
                || (e == crate::compiler::Error::Backend && program.inputs.len()
                + program.statements.0.len() > usize::MAX),
        },
{
    match crate::compiler::check(program) {
        Err(e) => {
            return Err(e);
        },
        Ok(_) => {},
    }
    let statements = &program.statements.0;
    if program.inputs.len() > usize::MAX - statements.len() {
        return Err(crate::compiler::Error::Backend);
    }
    let ghost p = program@;
    let mut slots = slots_of(&program.inputs);
    let mut table = FunctionTable::new();
    let mut numbers = Slots::new();
    let mut stale = false;
    let mut stages: Vec<Stage> = Vec::new();
    let mut count: usize = program.inputs.len();
    let mut i: usize = 0;
    proof {
        lemma_parameter_scope(p.inputs);
        lemma_parameter_slots_below(p.inputs);
        assert(p.inputs.len() == program.inputs.len());
        assert(arities(table@) =~= Map::<Ident, nat>::empty());
        assert(arities(table@).dom() =~= numbers@.dom());
        assert forall|inputs: Seq<i64>, depth: nat| inputs.len() == p.inputs.len() implies agree(
            slots@,
            numbers@,
            stale,
            table@,
            count as nat,
            #[trigger] prefix_state(p.statements, 0, start(p, inputs), depth),
            run_stages(stages@, 0, inputs, depth),
        ) by {
            lemma_parameter_slots(p.inputs, inputs, inputs);
        }
    }
    while i < statements.len()
        invariant
            statements == &program.statements.0,
            p == program@,
            i <= statements.len(),
            stages.len() <= i,
            count == program.inputs.len() + stages.len(),
            program.inputs.len() + statements.len() <= usize::MAX,
            made_before(table.definitions@, p.statements, i as nat),
            !stale ==> numbers@.dom() == table@.dom(),
            numbers_below(slots@, count as nat),
            !stale ==> numbers_fit(
                numbers@,
                arities(table@),
                routines_after(stages@, stages@.len()),
            ),
            forall|k: int|
                0 <= k < stages@.len() ==> #[trigger] stage_resolved(
                    stages@,
                    k,
                    program.inputs.len() as nat,
                ),
            resolution::check_from(p, i as nat, slots@.dom(), arities(table@)) is Ok,
            forall|inputs: Seq<i64>, depth: nat|
                inputs.len() == p.inputs.len() ==> agree(
                    slots@,
                    numbers@,
                    stale,
                    table@,
                    count as nat,
                    #[trigger] prefix_state(p.statements, i as nat, start(p, inputs), depth),
                    run_stages(stages@, stages@.len(), inputs, depth),
                ),
        decreases statements.len() - i,
    {
        let ghost before_slots = slots@;
        let ghost before_numbers = numbers@;
        let ghost before_table = table@;
        let ghost before_stages = stages@;
        let ghost before_stale = stale;
        let ghost before_definitions = table.definitions@;
        match &statements[i] {
            Statement::FnDefinition(n, params, body) => {
                table.insert(n, params, body);
                stale = true;
                proof {
                    assert(arities(table@) =~= arities(before_table).insert(
                        n@,
                        params@.len() as nat,
                    ));
                    assert(table.definitions@.drop_last() =~= before_definitions);
                    assert forall|j: int| 0 <= j < table.definitions@.len() implies exists|k: int|
                        0 <= k < i + 1 && k < p.statements.len() && #[trigger] p.statements[k]
                            == Stmt::FnDefinition(
                            (#[trigger] table.definitions@[j]).0@,
                            names_view(table.definitions@[j].1@),
                            table.definitions@[j].2@,
                        ) by {
                        if j < before_definitions.len() {
                            assert(table.definitions@[j] == before_definitions[j]);
                            let k = choose|k: int|
                                0 <= k < i && k < p.statements.len() && #[trigger] p.statements[k]
                                    == Stmt::FnDefinition(
                                    (#[trigger] before_definitions[j]).0@,
                                    names_view(before_definitions[j].1@),
                                    before_definitions[j].2@,
                                );
                        } else {
                            assert(p.statements[i as int] == Stmt::FnDefinition(
                                n@,
                                names_view(params@),
                                body@,
                            ));
                        }
                    }
                    assert forall|inputs: Seq<i64>, depth: nat|
                        inputs.len() == p.inputs.len() implies agree(
                        slots@,
                        numbers@,
                        stale,
                        table@,
                        count as nat,
                        #[trigger] prefix_state(p.statements, i as nat + 1, start(p, inputs), depth),
                        run_stages(stages@, stages@.len(), inputs, depth),
                    ) by {
                        lemma_after_definition(
                            before_slots,
                            before_numbers,
                            before_stale,
                            before_table,
                            count as nat,
                            prefix_state(p.statements, i as nat, start(p, inputs), depth),
                            run_stages(stages@, stages@.len(), inputs, depth),
                            p.statements[i as int],
                            depth,
                        );
                    }
                }
            },
            Statement::VarAssignment(n, e) => {
                let fresh = if stale {
                    proof {
                        lemma_bodies_checked(
                            table.definitions@,
                            p.statements,
                            i as nat,
                            arities(table@),
                        );
                    }
                    let (routines, renumbered) = lower_routines(&table);
                    numbers = renumbered;
                    stale = false;
                    proof {
                        lemma_routines_fit(numbers@, table@, routines@);
                    }
                    Some(routines)
                } else {
                    None
                };
                let ghost current = if fresh is Some {
                    fresh->0@
                } else {
                    routines_after(before_stages, before_stages.len())
                };
                proof {
                    assert(arities(table@).dom() =~= numbers@.dom());
                }
                let code = lower_expression(e, &slots, &numbers, Ghost(arities(table@)));
                proof {
                    lemma_lowered_is_resolved(
                        e@,
                        code,
                        slots@,
                        numbers@,
                        arities(table@),
                        count as nat,
                        current,
                    );
                }
                let stage = Stage { routines: fresh, code };
                slots.insert(n, count);
                stages.push(stage);
                count += 1;
                proof {
                    assert(slots@.dom() =~= before_slots.dom().insert(n@));
                    lemma_routines_after_prefix(before_stages, stages@, before_stages.len());
                    assert(routines_after(stages@, stages@.len()) == current);
                    assert forall|k: int| 0 <= k < stages@.len() implies #[trigger] stage_resolved(
                        stages@,
                        k,
                        program.inputs.len() as nat,
                    ) by {
                        if k < before_stages.len() {
                            lemma_routines_after_prefix(before_stages, stages@, (k + 1) as nat);
                            assert(stage_resolved(before_stages, k, program.inputs.len() as nat));
                        }
                    }
                    assert forall|inputs: Seq<i64>, depth: nat|
                        inputs.len() == p.inputs.len() implies agree(
                        slots@,
                        numbers@,
                        stale,
                        table@,
                        count as nat,
                        #[trigger] prefix_state(p.statements, i as nat + 1, start(p, inputs), depth),
                        run_stages(stages@, stages@.len(), inputs, depth),
                    ) by {
                        lemma_stages_prefix(
                            before_stages,
                            stages@,
                            before_stages.len(),
                            inputs,
                            depth,
                        );
                        lemma_after_assignment(
                            before_slots,
                            numbers@,
                            table@,
                            (count - 1) as nat,
                            prefix_state(p.statements, i as nat, start(p, inputs), depth),
                            run_stages(before_stages, before_stages.len(), inputs, depth),
                            n@,
                            e@,
                            stages@[stages@.len() - 1],
                            depth,
                        );
                    }
                }
            },
        }
        i += 1;
    }
    let outputs = lower_outputs(&program.outputs, &slots);
    let module = Module { inputs: program.inputs.len(), stages, outputs };
    proof {
        assert forall|k: int| 0 <= k < module.outputs@.len() implies (#[trigger] module.outputs@[k])
            < module.inputs + module.stages@.len() by {
            assert(slots@.contains_key(names_view(program.outputs@)[k]));
        }
        assert forall|k: int| 0 <= k < module.stages@.len() implies #[trigger] stage_resolved(
            module.stages@,
            k,
            module.inputs as nat,
        ) by {
            assert(stage_resolved(stages@, k, program.inputs.len() as nat));
        }
        assert forall|inputs: Seq<i64>, depth: nat| #[trigger]
            run_module(module, inputs, depth) == semantics::execute(p, inputs, depth) by {
            if inputs.len() == p.inputs.len() {
                lemma_run_prefix(p.statements, p.statements.len(), start(p, inputs), depth);
                match prefix_state(p.statements, p.statements.len(), start(p, inputs), depth) {
                    Ok(state) => {
                        let locals = run_stages(
                            module.stages@,
                            module.stages@.len(),
                            inputs,
                            depth,
                        )->Ok_0.0;
                        lemma_outputs(p.outputs, module.outputs@, 0, slots@, state.vars, locals);
                    },
                    Err(_) => {},
                }
            }
        }
    }
    Ok(module)
}

} // verus!
