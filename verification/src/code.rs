//! Resolved code: what a program is lowered to before it is compiled. Every
//! variable is a slot and every function a routine, by number; no name is
//! left to look up.

use crate::interpreter::{apply, gives, prepend, Error};
use crate::model::Operator;
use crate::semantics;
use vstd::prelude::*;

verus! {

/// An expression in which every name is resolved.
#[derive(Debug, PartialEq, Eq)]
pub enum Code {
    /// An integer.
    Constant(i64),
    /// The value in a slot.
    Local(usize),
    /// An operation on two values.
    Binary(Operator, Box<Code>, Box<Code>),
    /// The application of a routine, by its number, to arguments.
    Call(usize, Vec<Code>),
    /// A choice among values by comparison.
    Select(Box<Switch>),
}

/// A choice: the value of the first clause whose matcher has the value of
/// the scrutinee, or else of the default.
#[derive(Debug, PartialEq, Eq)]
pub struct Switch {
    pub with: Code,
    pub clauses: Vec<(Code, Code)>,
    pub default: Code,
}

/// A function in resolved code. Its arguments stand in the slots from 0 on.
#[derive(Debug, PartialEq, Eq)]
pub struct Routine {
    pub arity: usize,
    pub body: Code,
}

/// One assignment in resolved code: its value goes to the next free slot.
#[derive(Debug, PartialEq, Eq)]
pub struct Stage {
    /// The routines that calls reach from here on, if they change here.
    pub routines: Option<Vec<Routine>>,
    /// The value assigned.
    pub code: Code,
}

/// A program in resolved code. The inputs stand in the slots from 0 on.
#[derive(Debug, PartialEq, Eq)]
pub struct Module {
    pub inputs: usize,
    pub stages: Vec<Stage>,
    /// The slots of the outputs, in order.
    pub outputs: Vec<usize>,
}

/// The value of resolved code, with the slots and routines given, where
/// calls may nest `depth` deep.
pub open spec fn eval_code(c: Code, locals: Seq<i64>, routines: Seq<Routine>, depth: nat) -> Result<
    i64,
    Error,
>
    decreases depth, c, 0nat,
{
    match c {
        Code::Constant(n) => Ok(n),
        Code::Local(k) => if k < locals.len() {
            Ok(locals[k as int])
        } else {
            Err(Error::UndefinedVariable)
        },
        Code::Binary(op, l, r) => match eval_code(*l, locals, routines, depth) {
            Err(e) => Err(e),
            Ok(a) => match eval_code(*r, locals, routines, depth) {
                Err(e) => Err(e),
                Ok(b) => semantics::apply(op, a, b),
            },
        },
        Code::Call(f, args) => if f >= routines.len() {
            Err(Error::UndefinedFunction)
        } else if routines[f as int].arity != args@.len() {
            Err(Error::CallArity)
        } else {
            match eval_codes(args@, 0, locals, routines, depth) {
                Err(e) => Err(e),
                Ok(values) => if depth == 0 {
                    Err(Error::RecursionLimit)
                } else {
                    eval_code(routines[f as int].body, values, routines, (depth - 1) as nat)
                },
            }
        },
        Code::Select(s) => match eval_code(s.with, locals, routines, depth) {
            Err(e) => Err(e),
            Ok(v) => eval_switch(*s, 0, v, locals, routines, depth),
        },
    }
}

/// The values of the codes from position `from` on, left to right.
pub open spec fn eval_codes(
    codes: Seq<Code>,
    from: nat,
    locals: Seq<i64>,
    routines: Seq<Routine>,
    depth: nat,
) -> Result<Seq<i64>, Error>
    decreases depth, codes, codes.len() - from,
{
    if from >= codes.len() {
        Ok(Seq::empty())
    } else {
        match eval_code(codes[from as int], locals, routines, depth) {
            Err(e) => Err(e),
            Ok(v) => match eval_codes(codes, from + 1, locals, routines, depth) {
                Err(e) => Err(e),
                Ok(rest) => Ok(seq![v] + rest),
            },
        }
    }
}

/// The value of a choice whose scrutinee has the value `v`, by the clauses
/// from position `from` on.
pub open spec fn eval_switch(
    s: Switch,
    from: nat,
    v: i64,
    locals: Seq<i64>,
    routines: Seq<Routine>,
    depth: nat,
) -> Result<i64, Error>
    decreases depth, s, s.clauses@.len() - from,
{
    if from >= s.clauses@.len() {
        eval_code(s.default, locals, routines, depth)
    } else {
        match eval_code(s.clauses@[from as int].0, locals, routines, depth) {
            Err(e) => Err(e),
            Ok(w) => if w == v {
                eval_code(s.clauses@[from as int].1, locals, routines, depth)
            } else {
                eval_switch(s, from + 1, v, locals, routines, depth)
            },
        }
    }
}

/// The slots and the routines in force after the first `upto` stages.
pub open spec fn run_stages(stages: Seq<Stage>, upto: nat, inputs: Seq<i64>, depth: nat) -> Result<
    (Seq<i64>, Seq<Routine>),
    Error,
>
    decreases upto,
{
    if upto == 0 || upto > stages.len() {
        Ok((inputs, Seq::empty()))
    } else {
        match run_stages(stages, (upto - 1) as nat, inputs, depth) {
            Err(e) => Err(e),
            Ok((locals, before)) => {
                let stage = stages[upto - 1];
                let routines = match stage.routines {
                    Some(fresh) => fresh@,
                    None => before,
                };
                match eval_code(stage.code, locals, routines, depth) {
                    Err(e) => Err(e),
                    Ok(v) => Ok((locals.push(v), routines)),
                }
            },
        }
    }
}

/// The values in the slots from position `from` of the list on.
pub open spec fn read_slots(slots: Seq<usize>, from: nat, locals: Seq<i64>) -> Result<
    Seq<i64>,
    Error,
>
    decreases slots.len() - from,
{
    if from >= slots.len() {
        Ok(Seq::empty())
    } else if slots[from as int] >= locals.len() {
        Err(Error::UndefinedVariable)
    } else {
        match read_slots(slots, from + 1, locals) {
            Err(e) => Err(e),
            Ok(rest) => Ok(seq![locals[slots[from as int] as int]] + rest),
        }
    }
}

/// The code is resolved among so many slots and the routines: every slot
/// that it names is one of the slots, every routine that it calls is one of
/// the routines, and every call has as many arguments as the routine has
/// parameters.
pub open spec fn resolved(c: Code, slots: nat, routines: Seq<Routine>) -> bool
    decreases c, 0nat,
{
    match c {
        Code::Constant(_) => true,
        Code::Local(k) => k < slots,
        Code::Binary(_, l, r) => resolved(*l, slots, routines) && resolved(*r, slots, routines),
        Code::Call(f, args) => {
            &&& f < routines.len()
            &&& routines[f as int].arity == args@.len()
            &&& forall|k: int|
                0 <= k < args@.len() ==> resolved(#[trigger] args@[k], slots, routines)
        },
        Code::Select(s) => {
            &&& resolved(s.with, slots, routines)
            &&& resolved(s.default, slots, routines)
            &&& forall|k: int|
                0 <= k < s.clauses@.len() ==> resolved(
                    (#[trigger] s.clauses@[k]).0,
                    slots,
                    routines,
                ) && resolved(s.clauses@[k].1, slots, routines)
        },
    }
}

/// The routines are resolved among themselves: the body of each is resolved
/// among as many slots as it has parameters, and all of them.
pub open spec fn routines_resolved(routines: Seq<Routine>) -> bool {
    forall|j: int|
        0 <= j < routines.len() ==> resolved(
            (#[trigger] routines[j]).body,
            routines[j].arity as nat,
            routines,
        )
}

/// The routines in force after the first `upto` stages: those of the last of
/// them that brought routines, or none.
pub open spec fn routines_after(stages: Seq<Stage>, upto: nat) -> Seq<Routine>
    decreases upto,
{
    if upto == 0 || upto > stages.len() {
        Seq::empty()
    } else {
        match stages[upto - 1].routines {
            Some(fresh) => fresh@,
            None => routines_after(stages, (upto - 1) as nat),
        }
    }
}

/// The stage at position `k` is resolved: its code among the inputs and the
/// values of the stages before it, and the routines in force; the routines
/// that it brings among themselves.
pub open spec fn stage_resolved(stages: Seq<Stage>, k: int, inputs: nat) -> bool {
    &&& resolved(stages[k].code, inputs + k as nat, routines_after(stages, (k + 1) as nat))
    &&& stages[k].routines matches Some(fresh) ==> routines_resolved(fresh@)
}

/// The module is well resolved: every stage is resolved, and every output
/// is one of the slots.
pub open spec fn well_resolved(m: Module) -> bool {
    &&& forall|k: int|
        0 <= k < m.stages@.len() ==> #[trigger] stage_resolved(m.stages@, k, m.inputs as nat)
    &&& forall|k: int|
        0 <= k < m.outputs@.len() ==> (#[trigger] m.outputs@[k]) < m.inputs + m.stages@.len()
}

/// What a module gives for the inputs: the values in the slots of its
/// outputs after its stages ran.
pub open spec fn run_module(m: Module, inputs: Seq<i64>, depth: nat) -> Result<Seq<i64>, Error> {
    if inputs.len() != m.inputs {
        Err(Error::InputArity)
    } else {
        match run_stages(m.stages@, m.stages@.len(), inputs, depth) {
            Err(e) => Err(e),
            Ok((locals, _)) => read_slots(m.outputs@, 0, locals),
        }
    }
}

/// Resolved code, evaluated among as many slots as it was resolved among,
/// meets no slot or routine that is not there and no call of the wrong
/// arity.
pub proof fn lemma_resolved_code_runs(
    c: Code,
    locals: Seq<i64>,
    routines: Seq<Routine>,
    depth: nat,
)
    requires
        resolved(c, locals.len(), routines),
        routines_resolved(routines),
    ensures
        crate::resolution::resolved(eval_code(c, locals, routines, depth)),
    decreases depth, c, 0nat,
{
    match c {
        Code::Constant(_) => {},
        Code::Local(_) => {},
        Code::Binary(op, l, r) => {
            lemma_resolved_code_runs(*l, locals, routines, depth);
            lemma_resolved_code_runs(*r, locals, routines, depth);
        },
        Code::Call(f, args) => {
            lemma_resolved_codes_run(args@, 0, locals, routines, depth);
            if depth > 0 {
                match eval_codes(args@, 0, locals, routines, depth) {
                    Ok(values) => {
                        lemma_resolved_code_runs(
                            routines[f as int].body,
                            values,
                            routines,
                            (depth - 1) as nat,
                        );
                    },
                    Err(_) => {},
                }
            }
        },
        Code::Select(s) => {
            lemma_resolved_code_runs(s.with, locals, routines, depth);
            match eval_code(s.with, locals, routines, depth) {
                Ok(v) => lemma_resolved_switch_runs(*s, 0, v, locals, routines, depth),
                Err(_) => {},
            }
        },
    }
}

/// Resolved codes give as many values as they are, or an error of those
/// that resolved code can meet.
pub proof fn lemma_resolved_codes_run(
    codes: Seq<Code>,
    from: nat,
    locals: Seq<i64>,
    routines: Seq<Routine>,
    depth: nat,
)
    requires
        from <= codes.len(),
        forall|k: int| 0 <= k < codes.len() ==> resolved(#[trigger] codes[k], locals.len(), routines),
        routines_resolved(routines),
    ensures
        crate::resolution::resolved(eval_codes(codes, from, locals, routines, depth)),
        eval_codes(codes, from, locals, routines, depth) matches Ok(values) ==> values.len()
            == codes.len() - from,
    decreases depth, codes, codes.len() - from,
{
    if from < codes.len() {
        lemma_resolved_code_runs(codes[from as int], locals, routines, depth);
        lemma_resolved_codes_run(codes, from + 1, locals, routines, depth);
    }
}

/// A resolved choice gives a value, or an error of those that resolved code
/// can meet.
pub proof fn lemma_resolved_switch_runs(
    s: Switch,
    from: nat,
    v: i64,
    locals: Seq<i64>,
    routines: Seq<Routine>,
    depth: nat,
)
    requires
        resolved(Code::Select(Box::new(s)), locals.len(), routines),
        routines_resolved(routines),
    ensures
        crate::resolution::resolved(eval_switch(s, from, v, locals, routines, depth)),
    decreases depth, s, s.clauses@.len() - from,
{
    if from >= s.clauses@.len() {
        lemma_resolved_code_runs(s.default, locals, routines, depth);
    } else {
        lemma_resolved_code_runs(s.clauses@[from as int].0, locals, routines, depth);
        lemma_resolved_code_runs(s.clauses@[from as int].1, locals, routines, depth);
        lemma_resolved_switch_runs(s, from + 1, v, locals, routines, depth);
    }
}

/// The stages of a well resolved module give one value each, or an error of
/// those that resolved code can meet.
pub proof fn lemma_resolved_stages_run(stages: Seq<Stage>, upto: nat, inputs: Seq<i64>, depth: nat)
    requires
        upto <= stages.len(),
        forall|k: int| 0 <= k < stages.len() ==> #[trigger] stage_resolved(stages, k, inputs.len()),
    ensures
        crate::resolution::resolved(run_stages(stages, upto, inputs, depth)),
        routines_resolved(routines_after(stages, upto)),
        run_stages(stages, upto, inputs, depth) matches Ok((locals, routines)) ==> locals.len()
            == inputs.len() + upto && routines == routines_after(stages, upto),
    decreases upto,
{
    if upto > 0 {
        lemma_resolved_stages_run(stages, (upto - 1) as nat, inputs, depth);
        assert(stage_resolved(stages, upto - 1, inputs.len()));
        match run_stages(stages, (upto - 1) as nat, inputs, depth) {
            Ok((locals, before)) => {
                lemma_resolved_code_runs(
                    stages[upto - 1].code,
                    locals,
                    routines_after(stages, upto),
                    depth,
                );
            },
            Err(_) => {},
        }
    }
}

/// Slots that are all among the values give their values.
pub proof fn lemma_slots_read(slots: Seq<usize>, from: nat, locals: Seq<i64>)
    requires
        forall|k: int| 0 <= k < slots.len() ==> (#[trigger] slots[k]) < locals.len(),
    ensures
        read_slots(slots, from, locals) is Ok,
    decreases slots.len() - from,
{
    if from < slots.len() {
        lemma_slots_read(slots, from + 1, locals);
    }
}

/// A well resolved module, run on as many values as it has inputs, gives its
/// outputs unless it divides by zero or nests its calls too deep: no slot
/// and no routine is missing where it is used, and no call has the wrong
/// arity.
pub proof fn lemma_well_resolved_runs(m: Module, inputs: Seq<i64>, depth: nat)
    requires
        well_resolved(m),
        inputs.len() == m.inputs,
    ensures
        crate::resolution::resolved(run_module(m, inputs, depth)),
{
    lemma_resolved_stages_run(m.stages@, m.stages@.len(), inputs, depth);
    match run_stages(m.stages@, m.stages@.len(), inputs, depth) {
        Ok((locals, _)) => lemma_slots_read(m.outputs@, 0, locals),
        Err(_) => {},
    }
}

} // verus!

verus! {

/// The value of the code with the slots and routines given.
pub fn eval(c: &Code, locals: &Vec<i64>, routines: &Vec<Routine>, depth: usize) -> (r: Result<
    i64,
    Error,
>)
    ensures
        r == eval_code(*c, locals@, routines@, depth as nat),
    decreases depth, c, 0nat,
{
    match c {
        Code::Constant(n) => Ok(*n),
        Code::Local(k) => if *k < locals.len() {
            Ok(locals[*k])
        } else {
            Err(Error::UndefinedVariable)
        },
        Code::Binary(op, l, r) => match eval(l, locals, routines, depth) {
            Err(e) => Err(e),
            Ok(a) => match eval(r, locals, routines, depth) {
                Err(e) => Err(e),
                Ok(b) => apply(*op, a, b),
            },
        },
        Code::Call(f, args) => {
            if *f >= routines.len() {
                return Err(Error::UndefinedFunction);
            }
            if routines[*f].arity != args.len() {
                return Err(Error::CallArity);
            }
            match eval_all(args, locals, routines, depth) {
                Err(e) => Err(e),
                Ok(values) => if depth == 0 {
                    Err(Error::RecursionLimit)
                } else {
                    eval(&routines[*f].body, &values, routines, depth - 1)
                },
            }
        },
        Code::Select(s) => match eval(&s.with, locals, routines, depth) {
            Err(e) => Err(e),
            Ok(v) => eval_choice(s, v, locals, routines, depth),
        },
    }
}

/// The values of the codes, left to right.
fn eval_all(codes: &Vec<Code>, locals: &Vec<i64>, routines: &Vec<Routine>, depth: usize) -> (r:
    Result<Vec<i64>, Error>)
    ensures
        gives(r, eval_codes(codes@, 0, locals@, routines@, depth as nat)),
    decreases depth, codes, 0nat,
{
    let mut values: Vec<i64> = Vec::new();
    let mut i: usize = 0;
    while i < codes.len()
        invariant
            i <= codes.len(),
            eval_codes(codes@, 0, locals@, routines@, depth as nat) == prepend(
                values@,
                eval_codes(codes@, i as nat, locals@, routines@, depth as nat),
            ),
        decreases codes.len() - i,
    {
        match eval(&codes[i], locals, routines, depth) {
            Err(e) => {
                return Err(e);
            },
            Ok(v) => {
                let ghost before = values@;
                values.push(v);
                assert forall|rest: Seq<i64>| before + (seq![v] + rest) == values@ + rest by {
                    assert(before + (seq![v] + rest) =~= values@ + rest);
                }
            },
        }
        i += 1;
    }
    assert(values@ + Seq::<i64>::empty() =~= values@);
    Ok(values)
}

/// The value of the choice for a scrutinee of value `v`.
fn eval_choice(s: &Switch, v: i64, locals: &Vec<i64>, routines: &Vec<Routine>, depth: usize) -> (r:
    Result<i64, Error>)
    ensures
        r == eval_switch(*s, 0, v, locals@, routines@, depth as nat),
    decreases depth, s, 0nat,
{
    let mut i: usize = 0;
    while i < s.clauses.len()
        invariant
            i <= s.clauses.len(),
            eval_switch(*s, 0, v, locals@, routines@, depth as nat) == eval_switch(
                *s,
                i as nat,
                v,
                locals@,
                routines@,
                depth as nat,
            ),
        decreases s.clauses.len() - i,
    {
        match eval(&s.clauses[i].0, locals, routines, depth) {
            Err(e) => {
                return Err(e);
            },
            Ok(w) => {
                if w == v {
                    return eval(&s.clauses[i].1, locals, routines, depth);
                }
            },
        }
        i += 1;
    }
    eval(&s.default, locals, routines, depth)
}

impl Module {
    /// Runs the module on the inputs, with calls nesting at most `depth`
    /// deep.
    pub fn run_within(&self, inputs: &Vec<i64>, depth: usize) -> (r: Result<Vec<i64>, Error>)
        ensures
            gives(r, run_module(*self, inputs@, depth as nat)),
    {
        if inputs.len() != self.inputs {
            return Err(Error::InputArity);
        }
        let mut locals: Vec<i64> = Vec::new();
        let mut k: usize = 0;
        while k < inputs.len()
            invariant
                k <= inputs.len(),
                locals@ == inputs@.take(k as int),
            decreases inputs.len() - k,
        {
            locals.push(inputs[k]);
            assert(inputs@.take(k + 1) =~= inputs@.take(k as int).push(inputs@[k as int]));
            k += 1;
        }
        assert(inputs@.take(k as int) =~= inputs@);
        let none: Vec<Routine> = Vec::new();
        let mut current: &Vec<Routine> = &none;
        let mut i: usize = 0;
        while i < self.stages.len()
            invariant
                i <= self.stages.len(),
                inputs.len() == self.inputs,
                run_stages(self.stages@, i as nat, inputs@, depth as nat) == Ok::<
                    (Seq<i64>, Seq<Routine>),
                    Error,
                >((locals@, current@)),
            decreases self.stages.len() - i,
        {
            let stage = &self.stages[i];
            if let Some(fresh) = &stage.routines {
                current = fresh;
            }
            match eval(&stage.code, &locals, current, depth) {
                Err(e) => {
                    proof {
                        assert(run_stages(self.stages@, i as nat + 1, inputs@, depth as nat)
                            == Err::<(Seq<i64>, Seq<Routine>), Error>(e));
                        lemma_run_stages_fails(
                            self.stages@,
                            i as nat + 1,
                            self.stages@.len(),
                            inputs@,
                            depth as nat,
                        );
                    }
                    return Err(e);
                },
                Ok(v) => {
                    locals.push(v);
                },
            }
            i += 1;
        }
        let mut values: Vec<i64> = Vec::new();
        let mut j: usize = 0;
        while j < self.outputs.len()
            invariant
                j <= self.outputs.len(),
                inputs.len() == self.inputs,
                run_stages(self.stages@, self.stages@.len(), inputs@, depth as nat) == Ok::<
                    (Seq<i64>, Seq<Routine>),
                    Error,
                >((locals@, current@)),
                read_slots(self.outputs@, 0, locals@) == prepend(
                    values@,
                    read_slots(self.outputs@, j as nat, locals@),
                ),
            decreases self.outputs.len() - j,
        {
            let slot = self.outputs[j];
            if slot >= locals.len() {
                return Err(Error::UndefinedVariable);
            }
            let ghost before = values@;
            let v = locals[slot];
            values.push(v);
            assert forall|rest: Seq<i64>| before + (seq![v] + rest) == values@ + rest by {
                assert(before + (seq![v] + rest) =~= values@ + rest);
            }
            j += 1;
        }
        assert(values@ + Seq::<i64>::empty() =~= values@);
        Ok(values)
    }

    /// Runs the module on the inputs. Calls may nest
    /// [`crate::interpreter::MAX_CALL_DEPTH`] deep.
    pub fn run(&self, inputs: &Vec<i64>) -> (r: Result<Vec<i64>, Error>)
        ensures
            gives(r, run_module(*self, inputs@, crate::interpreter::MAX_CALL_DEPTH as nat)),
    {
        self.run_within(inputs, crate::interpreter::MAX_CALL_DEPTH)
    }
}

/// Stages that fail fail whatever follows them.
pub proof fn lemma_run_stages_fails(
    stages: Seq<Stage>,
    failed: nat,
    upto: nat,
    inputs: Seq<i64>,
    depth: nat,
)
    requires
        failed <= upto <= stages.len(),
        run_stages(stages, failed, inputs, depth) is Err,
    ensures
        run_stages(stages, upto, inputs, depth) == run_stages(stages, failed, inputs, depth),
    decreases upto - failed,
{
    if failed < upto {
        lemma_run_stages_fails(stages, failed, (upto - 1) as nat, inputs, depth);
    }
}

} // verus!
