use math::code::{Code, Module, Routine, Stage, Switch};
use math::compiler;
use math::interpreter;
use math::lowering::lower;
use math::parser::parse;
use math::{Operator, Program};
use math::generator::Source;
use quickcheck::Arbitrary;

fn lowered(source: &str) -> Module {
    lower(&parse(source.as_bytes()).unwrap()).unwrap()
}

#[test]
fn variables_become_slots() {
    assert_eq!(
        lowered("inputs a; b = a + 2; outputs b;"),
        Module {
            inputs: 1,
            stages: vec![Stage {
                routines: None,
                code: Code::Binary(
                    Operator::Add,
                    Box::new(Code::Local(0)),
                    Box::new(Code::Constant(2))
                ),
            }],
            outputs: vec![1],
        }
    );
    // A name assigned twice stands for its latest slot.
    assert_eq!(
        lowered("inputs a; a = a; a = (a); outputs a, a;"),
        Module {
            inputs: 1,
            stages: vec![
                Stage { routines: None, code: Code::Local(0) },
                Stage { routines: None, code: Code::Local(1) },
            ],
            outputs: vec![2, 2],
        }
    );
}

#[test]
fn functions_become_routines() {
    assert_eq!(
        lowered("inputs; f(x, y) = y; g() = f(1, 2); a = g(); b = f(a, 3); outputs b;"),
        Module {
            inputs: 0,
            stages: vec![
                Stage {
                    routines: Some(vec![
                        Routine { arity: 2, body: Code::Local(1) },
                        Routine {
                            arity: 0,
                            body: Code::Call(0, vec![Code::Constant(1), Code::Constant(2)]),
                        },
                    ]),
                    code: Code::Call(1, vec![]),
                },
                Stage {
                    routines: None,
                    code: Code::Call(0, vec![Code::Local(0), Code::Constant(3)]),
                },
            ],
            outputs: vec![1],
        }
    );
}

#[test]
fn a_call_reaches_the_latest_definition() {
    let module = lowered("inputs; f() = 1; a = f(); f() = 2; b = f(); outputs a, b;");
    assert_eq!(
        module.stages[1],
        Stage {
            routines: Some(vec![
                Routine { arity: 0, body: Code::Constant(1) },
                Routine { arity: 0, body: Code::Constant(2) },
            ]),
            code: Code::Call(1, vec![]),
        }
    );
    assert_eq!(module.run(&vec![]), Ok(vec![1, 2]));
}

#[test]
fn a_match_becomes_a_choice() {
    let module = lowered("inputs x; r = match x { 1 => 2, _ => 3 }; outputs r;");
    assert_eq!(
        module.stages[0].code,
        Code::Select(Box::new(Switch {
            with: Code::Local(0),
            clauses: vec![(Code::Constant(1), Code::Constant(2))],
            default: Code::Constant(3),
        }))
    );
    assert_eq!(module.run(&vec![1]), Ok(vec![2]));
    assert_eq!(module.run(&vec![5]), Ok(vec![3]));
}

#[test]
fn a_program_that_fails_the_check_is_not_lowered() {
    let program = parse(b"inputs; r = x; outputs r;").unwrap();
    assert_eq!(lower(&program), Err(compiler::Error::UndefinedVariable));
    let program = parse(b"inputs; r = f(); outputs r;").unwrap();
    assert_eq!(lower(&program), Err(compiler::Error::UndefinedFunction));
    let program = parse(b"inputs; f(x) = x; r = f(); outputs r;").unwrap();
    assert_eq!(lower(&program), Err(compiler::Error::CallArity));
}

fn both(source: &str, inputs: Vec<i64>) -> Result<Vec<i64>, interpreter::Error> {
    let program = parse(source.as_bytes()).unwrap();
    let interpreted = interpreter::execute(&program, &inputs);
    let run = lower(&program).unwrap().run(&inputs);
    assert_eq!(interpreted, run);
    run
}

#[test]
fn resolved_code_gives_what_the_interpreter_gives() {
    assert_eq!(both("inputs a; b = a + 2; outputs b;", vec![3]), Ok(vec![5]));
    assert_eq!(both("inputs; f(x) = x * x; a = f(4); outputs a;", vec![]), Ok(vec![16]));
    let factorial =
        "inputs n; fact(x) = match x { 0 => 1, _ => x * fact(x - 1) }; r = fact(n); outputs r;";
    assert_eq!(both(factorial, vec![5]), Ok(vec![120]));
    assert_eq!(both(factorial, vec![-1]), Err(interpreter::Error::RecursionLimit));
    assert_eq!(both("inputs a, b; outputs a, b;", vec![7, -2]), Ok(vec![7, -2]));
    assert_eq!(both("inputs; r = 1 / 0; outputs r;", vec![]), Err(interpreter::Error::DivisionByZero));
    assert_eq!(both("inputs a; outputs a;", vec![]), Err(interpreter::Error::InputArity));
    let parity = "inputs n; \
        even(x) = match x { 0 => 1, _ => odd(x - 1) }; \
        odd(x) = match x { 0 => 0, _ => even(x - 1) }; \
        r = even(n); s = odd(n); outputs r, s;";
    assert_eq!(both(parity, vec![10]), Ok(vec![1, 0]));
    assert_eq!(both("inputs; f(x, x) = x; r = f(1, 2); outputs r;", vec![]), Ok(vec![2]));
    let redefined = "inputs; g(x) = 1; f(y) = g(y); a = f(0); g(x) = 2; b = f(0); outputs a, b;";
    assert_eq!(both(redefined, vec![]), Ok(vec![1, 2]));
}

#[test]
fn resolved_code_of_random_programs_gives_what_the_interpreter_gives() {
    let mut lowered = 0;
    for seed in 0..150 {
        for size in 1..9 {
            let mut g = Source::from_size_and_seed(size, seed);
            let program = Program::arbitrary(&mut g);
            let inputs: Vec<i64> = program.inputs.iter().map(|_| i64::arbitrary(&mut g.gen)).collect();
            match lower(&program) {
                Ok(module) => {
                    lowered += 1;
                    assert_eq!(module.run(&inputs), interpreter::execute(&program, &inputs));
                }
                Err(e) => assert_eq!(compiler::check(&program), Err(e)),
            }
        }
    }
    assert!(lowered > 1000);
}

#[test]
fn a_module_out_of_range_fails_as_the_interpreter_names_it() {
    let module = Module { inputs: 0, stages: vec![], outputs: vec![0] };
    assert_eq!(module.run(&vec![]), Err(interpreter::Error::UndefinedVariable));
    let stage = |code: Code| Module {
        inputs: 0,
        stages: vec![Stage { routines: None, code }],
        outputs: vec![],
    };
    assert_eq!(stage(Code::Local(0)).run(&vec![]), Err(interpreter::Error::UndefinedVariable));
    assert_eq!(stage(Code::Call(0, vec![])).run(&vec![]), Err(interpreter::Error::UndefinedFunction));
    let arity = Module {
        inputs: 0,
        stages: vec![Stage {
            routines: Some(vec![Routine { arity: 1, body: Code::Local(0) }]),
            code: Code::Call(0, vec![]),
        }],
        outputs: vec![],
    };
    assert_eq!(arity.run(&vec![]), Err(interpreter::Error::CallArity));
}

fn code_is_resolved(code: &Code, slots: usize, routines: &[Routine]) -> bool {
    match code {
        Code::Constant(_) => true,
        Code::Local(slot) => *slot < slots,
        Code::Binary(_, lhs, rhs) => {
            code_is_resolved(lhs, slots, routines) && code_is_resolved(rhs, slots, routines)
        }
        Code::Call(routine, args) => {
            *routine < routines.len()
                && routines[*routine].arity == args.len()
                && args.iter().all(|a| code_is_resolved(a, slots, routines))
        }
        Code::Select(switch) => {
            code_is_resolved(&switch.with, slots, routines)
                && code_is_resolved(&switch.default, slots, routines)
                && switch.clauses.iter().all(|(matcher, value)| {
                    code_is_resolved(matcher, slots, routines)
                        && code_is_resolved(value, slots, routines)
                })
        }
    }
}

fn module_is_resolved(module: &Module) -> bool {
    let mut routines: &[Routine] = &[];
    for (k, stage) in module.stages.iter().enumerate() {
        if let Some(fresh) = &stage.routines {
            routines = fresh;
            if !fresh.iter().all(|r| code_is_resolved(&r.body, r.arity, fresh)) {
                return false;
            }
        }
        if !code_is_resolved(&stage.code, module.inputs + k, routines) {
            return false;
        }
    }
    module.outputs.iter().all(|slot| *slot < module.inputs + module.stages.len())
}

#[test]
fn a_lowered_module_is_well_resolved() {
    let sources = [
        "inputs a; b = a + 2; outputs b;",
        "inputs a, b; f(x, y) = x * y; g() = 4; c = f(a, g()); d = c - b; outputs d, a, c;",
        "inputs n; fact(x) = match x { 0 => 1, _ => x * fact(x - 1) }; r = fact(n); outputs r;",
        "inputs; g(x) = 1; f(y) = g(y); a = f(0); g(x) = f(2); b = g(a); outputs a, b;",
        "inputs a; a = a + 1; a = a * a; outputs a;",
    ];
    for source in sources {
        let module = lowered(source);
        assert!(module_is_resolved(&module), "{}", source);
    }
    let module = lowered("inputs a, b; c = a; outputs c;");
    assert_eq!(module.inputs, 2);
    let mut seen = 0;
    for seed in 0..150 {
        for size in 1..9 {
            let mut g = Source::from_size_and_seed(size, seed);
            let program = Program::arbitrary(&mut g);
            if let Ok(module) = lower(&program) {
                seen += 1;
                assert_eq!(module.inputs, program.inputs.len());
                assert!(module_is_resolved(&module), "{}", program.to_string());
            }
        }
    }
    assert!(seen > 1000);
    let stale = Module {
        inputs: 1,
        stages: vec![Stage { routines: None, code: Code::Local(1) }],
        outputs: vec![0],
    };
    assert!(!module_is_resolved(&stale));
}
