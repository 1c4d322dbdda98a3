use math::compiler;
use math::generator::{
    arbitrary_expression, arbitrary_match, arbitrary_matcher, arbitrary_name, arbitrary_operand,
    arbitrary_program, arbitrary_statement, arbitrary_statements, below, operator_at, Source,
};
use math::interpreter;
use math::parser::expression::variable_substitution;
use math::parser::{parse, reparse};
use math::{
    interpret, Error, Expression, Match, Matcher, Name, Operand, Operator, Program, Statement,
};
use quickcheck::{Arbitrary, Gen, QuickCheck};

#[derive(Debug, Clone)]
struct Testcase {
    program: Program,
    inputs: Vec<i64>,
}

fn with_source<T>(g: &mut Gen, generate: impl FnOnce(&mut Source) -> T) -> T {
    let size = g.size();
    let mut source = Source { gen: std::mem::replace(g, Gen::new(size)), size };
    let value = generate(&mut source);
    *g = source.gen;
    value
}

impl Arbitrary for Testcase {
    fn arbitrary(g: &mut Gen) -> Testcase {
        let program = with_source(g, Program::arbitrary);
        let inputs = program.inputs.iter().map(|_| i64::arbitrary(g)).collect();
        Testcase { program, inputs }
    }
}

fn interpret_testcase(testcase: Testcase) -> Option<Vec<i64>> {
    let math = testcase.program.to_string();
    match interpret(math.as_bytes(), &testcase.inputs) {
        Ok(outputs) => {
            assert_eq!(outputs.len(), testcase.program.outputs.len());
            Some(outputs)
        }
        // A random program may divide by zero, and a later definition of a
        // name may give a function another arity or make it call itself.
        Err(Error::InterpreterError(interpreter::Error::DivisionByZero))
        | Err(Error::InterpreterError(interpreter::Error::CallArity))
        | Err(Error::InterpreterError(interpreter::Error::RecursionLimit)) => Some(vec![]),
        Err(e) => panic!("{:?} for {}", e, math),
    }
}

fn interprets_successfully_property(testcase: Testcase) -> bool {
    interpret_testcase(testcase).is_some()
}

#[test]
fn interprets_successfully() {
    for size in 1..11 {
        let mut qc = QuickCheck::new().rng(Gen::from_size_and_seed(size, 2017));
        qc.quickcheck(interprets_successfully_property as fn(Testcase) -> bool);
    }
}

fn is_valid_name(name: &Name) -> bool {
    let bytes = name.0.as_bytes();
    !bytes.is_empty()
        && bytes[0].is_ascii_lowercase()
        && bytes.iter().all(|b| b.is_ascii_lowercase() || *b == b'_')
        && !["inputs", "outputs", "if", "match", "_"].contains(&name.0.as_str())
}

#[test]
fn generated_names_are_names_of_the_grammar() {
    for seed in 0..200 {
        for size in 1..8 {
            let mut g = Source::from_size_and_seed(size, seed);
            let name = arbitrary_name(&mut g, 0);
            assert!(is_valid_name(&name), "{:?}", name);
            assert!(name.0.len() <= size);
            let mut text = name.0.clone().into_bytes();
            text.push(b';');
            assert_eq!(variable_substitution(&text), Ok((&b";"[..], name)));
        }
    }
}

#[test]
fn a_draw_below_a_bound_is_below_it() {
    let mut g = Source::from_size_and_seed(5, 7);
    let mut seen = [false; 4];
    for _ in 0..200 {
        let n = below(&mut g, 4);
        assert!(n < 4);
        seen[n] = true;
    }
    assert_eq!(seen, [true; 4]);
    for _ in 0..20 {
        assert_eq!(below(&mut g, 1), 0);
    }
}

#[test]
fn operators_are_numbered_by_precedence() {
    assert_eq!(operator_at(0), Operator::Subtract);
    assert_eq!(operator_at(1), Operator::Add);
    assert_eq!(operator_at(2), Operator::Divide);
    assert_eq!(operator_at(3), Operator::Multiply);
    assert_eq!(operator_at(usize::MAX), Operator::Multiply);
    assert!(Operator::Subtract < Operator::Add);
    assert!(Operator::Add < Operator::Divide);
    assert!(Operator::Divide < Operator::Multiply);
}

#[test]
fn every_operator_is_generated() {
    let mut g = Source::from_size_and_seed(5, 11);
    let mut seen = vec![];
    for _ in 0..200 {
        let operator = Operator::arbitrary(&mut g);
        if !seen.contains(&operator) {
            seen.push(operator);
        }
    }
    assert_eq!(seen.len(), 4);
}

fn uses_only(e: &Expression, vars: &[Name], fns: &[(Name, usize)]) -> bool {
    match e {
        Expression::Operation(_, l, r) => uses_only(l, vars, fns) && uses_only(r, vars, fns),
        Expression::Operand(Operand::I64(_)) => true,
        Expression::Operand(Operand::Group(inner)) => uses_only(inner, vars, fns),
        Expression::Operand(Operand::VarSubstitution(n)) => vars.contains(n),
        Expression::Operand(Operand::FnApplication(n, args)) => {
            fns.contains(&(n.clone(), args.len())) && args.iter().all(|a| uses_only(a, vars, fns))
        }
        Expression::Operand(Operand::Match(m)) => {
            uses_only(&m.with, vars, fns)
                && uses_only(&m.default, vars, fns)
                && m.clauses.iter().all(|(matcher, value)| {
                    let math::Matcher::Value(matcher) = matcher;
                    uses_only(matcher, vars, fns) && uses_only(value, vars, fns)
                })
        }
    }
}

#[test]
fn generated_expressions_use_only_what_is_in_scope() {
    let vars = vec![Name::new("a"), Name::new("b")];
    let fns = vec![(Name::new("f"), 2), (Name::new("g"), 0)];
    for seed in 0..200 {
        let mut g = Source::from_size_and_seed(6, seed);
        let e = arbitrary_expression(&mut g, 0, &vars, &fns);
        assert!(uses_only(&e, &vars, &fns), "{}", e.to_string());
    }
}

#[test]
fn a_generated_statement_adds_what_it_binds_to_the_scope() {
    for seed in 0..200 {
        let mut g = Source::from_size_and_seed(4, seed);
        let mut vars = vec![Name::new("a")];
        let mut fns = vec![(Name::new("f"), 1)];
        match arbitrary_statement(&mut g, 0, &mut vars, &mut fns) {
            Statement::VarAssignment(n, e) => {
                assert!(uses_only(&e, &[Name::new("a")], &[(Name::new("f"), 1)]));
                assert!(vars.contains(&n));
                assert_eq!(fns, vec![(Name::new("f"), 1)]);
            }
            Statement::FnDefinition(n, params, body) => {
                let others: Vec<(Name, usize)> =
                    vec![(Name::new("f"), 1)].into_iter().filter(|f| f.0 != n).collect();
                assert!(uses_only(&body, &params, &others));
                assert_eq!(fns.last(), Some(&(n.clone(), params.len())));
                assert_eq!(fns.iter().filter(|f| f.0 == n).count(), 1);
                assert_eq!(vars, vec![Name::new("a")]);
            }
        }
    }
}

#[test]
fn generated_programs_parse_and_bind_their_outputs() {
    for seed in 0..100 {
        for size in 1..9 {
            let mut g = Source::from_size_and_seed(size, seed);
            let mut vars = vec![];
            let mut fns = vec![];
            let program = arbitrary_program(&mut g, &mut vars, &mut fns);
            for (i, input) in program.inputs.iter().enumerate() {
                assert!(!program.inputs[..i].contains(input));
            }
            for (i, output) in program.outputs.iter().enumerate() {
                assert!(vars.contains(output));
                assert!(!program.outputs[..i].contains(output));
            }
            assert!(program.inputs.len() <= size);
            assert!(program.statements.0.len() <= size);
            assert!(program.outputs.len() <= size);
            let text = program.to_string();
            let parsed = parse(text.as_bytes()).unwrap();
            assert_eq!(parsed.to_string(), text);
            assert_eq!(reparse(&program), Ok(parsed.clone()));
            assert_eq!(reparse(&parsed), Ok(parsed));
        }
    }
}

#[test]
fn a_checked_program_meets_no_unbound_name_when_it_runs() {
    let mut checked = 0;
    for seed in 0..100 {
        for size in 1..9 {
            let mut g = Gen::from_size_and_seed(size, seed);
            let case = Testcase::arbitrary(&mut g);
            if compiler::check(&case.program) == Ok(()) {
                checked += 1;
                match interpreter::execute(&case.program, &case.inputs) {
                    Ok(outputs) => assert_eq!(outputs.len(), case.program.outputs.len()),
                    Err(e) => assert!(
                        e == interpreter::Error::DivisionByZero
                            || e == interpreter::Error::RecursionLimit
                    ),
                }
            }
        }
    }
    assert!(checked > 400);
}

fn nesting(e: &Expression) -> usize {
    match e {
        Expression::Operation(_, l, r) => 1 + nesting(l).max(nesting(r)),
        Expression::Operand(o) => operand_nesting(o),
    }
}

fn operand_nesting(o: &Operand) -> usize {
    match o {
        Operand::I64(_) | Operand::VarSubstitution(_) => 0,
        Operand::Group(e) => nesting(e),
        Operand::FnApplication(_, args) => 1 + args.iter().map(nesting).max().unwrap_or(0),
        Operand::Match(m) => {
            let clauses = m.clauses.iter().map(|(matcher, value)| {
                let math::Matcher::Value(matcher) = matcher;
                nesting(matcher).max(nesting(value))
            });
            1 + nesting(&m.with).max(nesting(&m.default)).max(clauses.max().unwrap_or(0))
        }
    }
}

fn is_operand(e: &Expression) -> bool {
    matches!(e, Expression::Operand(_))
}

#[test]
fn a_reserved_word_that_is_drawn_becomes_a_name_of_its_length() {
    let mut lengths = [0usize; 3];
    for seed in 0..20000 {
        let mut g = Source::from_size_and_seed(2, seed);
        let name = Name::arbitrary(&mut g);
        assert!(is_valid_name(&name), "{:?}", name);
        assert!(name.0 != "if");
        assert!(name.0.len() == 1 || name.0.len() == 2);
        lengths[name.0.len()] += 1;
    }
    assert!(lengths[1] > 0 && lengths[2] > 0);
    for size in 0..2 {
        for seed in 0..100 {
            let mut g = Source::from_size_and_seed(size, seed);
            assert_eq!(Name::arbitrary(&mut g).0.len(), 1);
        }
    }
}

#[test]
fn with_at_most_one_level_left_an_expression_is_an_operand() {
    let vars = vec![Name::new("a")];
    let fns = vec![(Name::new("f"), 1)];
    let mut operations = 0;
    for seed in 0..200 {
        for size in 0..5 {
            for level in 0..4 {
                let mut g = Source::from_size_and_seed(size, seed);
                let e = arbitrary_expression(&mut g, level, &vars, &fns);
                if size.saturating_sub(level) <= 1 {
                    assert!(is_operand(&e), "{}", e.to_string());
                } else if !is_operand(&e) {
                    operations += 1;
                }
                let matcher = arbitrary_matcher(&mut g, level, &vars, &fns);
                let Matcher::Value(matcher) = matcher;
                assert!(nesting(&matcher) <= size.saturating_sub(level));
                if size.saturating_sub(level) <= 2 {
                    assert!(is_operand(&matcher), "{}", matcher.to_string());
                }
            }
            let mut g = Source::from_size_and_seed(size, seed);
            let e = Expression::arbitrary(&mut g);
            assert!(size > 1 || is_operand(&e));
            assert!(uses_only(&e, &[], &[]));
            let Matcher::Value(matcher) = Matcher::arbitrary(&mut g);
            assert!(size > 2 || is_operand(&matcher));
            assert!(uses_only(&matcher, &[], &[]));
        }
    }
    assert!(operations > 0);
}

#[test]
fn a_generated_operand_is_never_a_group() {
    let vars = vec![Name::new("a")];
    let fns = vec![(Name::new("f"), 1)];
    let mut kinds = [false; 4];
    for seed in 0..300 {
        for size in 0..6 {
            let mut g = Source::from_size_and_seed(size, seed);
            match arbitrary_operand(&mut g, 0, &vars, &fns) {
                Operand::I64(_) => kinds[0] = true,
                Operand::VarSubstitution(_) => kinds[1] = true,
                Operand::FnApplication(..) => kinds[2] = true,
                Operand::Match(_) => kinds[3] = true,
                Operand::Group(e) => panic!("a group of {}", e.to_string()),
            }
            let only_functions = arbitrary_operand(&mut g, 0, &vec![], &fns);
            assert!(!matches!(only_functions, Operand::VarSubstitution(_) | Operand::Group(_)));
            let only_variables = arbitrary_operand(&mut g, 0, &vars, &vec![]);
            assert!(!matches!(only_variables, Operand::FnApplication(..) | Operand::Group(_)));
            match Operand::arbitrary(&mut g) {
                Operand::I64(_) => {}
                Operand::Match(m) => {
                    assert!(size > 1);
                    assert!(uses_only(&Expression::Operand(Operand::Match(m)), &[], &[]));
                }
                other => panic!("{:?} with nothing in scope", other),
            }
        }
    }
    assert_eq!(kinds, [true; 4]);
}

#[test]
fn the_parts_of_a_small_match_are_operands() {
    let vars = vec![Name::new("a")];
    let fns = vec![(Name::new("f"), 1)];
    for seed in 0..200 {
        for size in 0..5 {
            for level in 0..3 {
                let mut g = Source::from_size_and_seed(size, seed);
                let first = arbitrary_match(&mut g, level, &vars, &fns);
                let second = if level == 0 { Match::arbitrary(&mut g) } else { first.clone() };
                for m in [first, second] {
                    let budget = size.saturating_sub(level).max(1);
                    if budget <= 2 {
                        assert!(is_operand(&m.with));
                        assert!(is_operand(&m.default));
                    }
                    for (matcher, value) in &m.clauses {
                        let Matcher::Value(matcher) = matcher;
                        assert!(budget > 3 || is_operand(matcher));
                        assert!(budget > 2 || is_operand(value));
                    }
                }
            }
        }
    }
}

#[test]
fn a_source_has_the_size_it_was_made_with() {
    assert_eq!(Source::new(7).size, 7);
    assert_eq!(Source::from_size_and_seed(3, 1).size, 3);
    let mut g = Source::from_size_and_seed(5, 1);
    let _ = Program::arbitrary(&mut g);
    assert_eq!(g.size, 5);
}

#[test]
fn generated_expressions_nest_no_deeper_than_what_is_left_of_the_size() {
    let vars = vec![Name::new("a")];
    let fns = vec![(Name::new("f"), 2)];
    for seed in 0..200 {
        for size in 0..7 {
            for level in 0..3 {
                let mut g = Source::from_size_and_seed(size, seed);
                let left = size.saturating_sub(level);
                let e = arbitrary_expression(&mut g, level, &vars, &fns);
                assert!(nesting(&e) <= left, "{}", e.to_string());
                let o = arbitrary_operand(&mut g, level, &vars, &fns);
                assert!(operand_nesting(&o) <= left, "{}", o.to_string());
                if left <= 1 {
                    assert!(matches!(o, Operand::I64(_)));
                }
            }
        }
    }
}

#[test]
fn generated_matches_have_distinct_matchers() {
    let vars = vec![Name::new("a")];
    let fns = vec![];
    for seed in 0..200 {
        for size in 0..6 {
            let mut g = Source::from_size_and_seed(size, seed);
            let m = arbitrary_match(&mut g, 0, &vars, &fns);
            let budget = size.max(1);
            assert!(m.clauses.len() <= budget + 1);
            assert!(m.clauses.len() >= 1);
            for (i, clause) in m.clauses.iter().enumerate() {
                assert!(m.clauses[..i].iter().all(|earlier| earlier.0 != clause.0));
            }
            assert!(operand_nesting(&Operand::Match(m)) <= budget);
        }
    }
}

#[test]
fn generated_lists_are_no_longer_than_the_size() {
    for seed in 0..200 {
        for size in 0..7 {
            let mut g = Source::from_size_and_seed(size, seed);
            let mut vars = vec![Name::new("a")];
            let mut fns = vec![];
            let statements = arbitrary_statements(&mut g, &mut vars, &mut fns);
            assert!(statements.0.len() <= size);
            assert_eq!(vars[0], Name::new("a"));
            for statement in &statements.0 {
                match statement {
                    Statement::VarAssignment(_, e) => {
                        assert!(nesting(e) <= size.saturating_sub(2));
                        assert!(size > 3 || is_operand(e));
                    }
                    Statement::FnDefinition(_, params, e) => {
                        assert!(nesting(e) <= size.saturating_sub(2));
                        assert!(size > 3 || is_operand(e));
                        assert!(params.len() <= size.saturating_sub(1).max(1));
                        for (i, param) in params.iter().enumerate() {
                            assert!(!params[..i].contains(param));
                        }
                    }
                }
            }
            let program = Program::arbitrary(&mut g);
            assert!(program.inputs.len() <= size);
            assert!(program.statements.0.len() <= size);
            assert!(program.outputs.len() <= size);
            let name = arbitrary_name(&mut g, 2);
            assert!(name.0.len() <= size.saturating_sub(2).max(1));
        }
    }
}

#[test]
fn a_generated_statement_changes_only_the_list_it_binds_in() {
    for seed in 0..200 {
        let mut g = Source::from_size_and_seed(4, seed);
        let mut vars = vec![Name::new("a"), Name::new("b")];
        let mut fns = vec![(Name::new("f"), 1)];
        match arbitrary_statement(&mut g, 0, &mut vars, &mut fns) {
            Statement::VarAssignment(n, _) => {
                assert_eq!(fns, vec![(Name::new("f"), 1)]);
                assert_eq!(vars[..2], [Name::new("a"), Name::new("b")]);
                assert!(vars.len() == 2 || vars[2..] == [n]);
            }
            Statement::FnDefinition(..) => {
                assert_eq!(vars, vec![Name::new("a"), Name::new("b")]);
            }
        }
    }
}

#[test]
fn the_value_of_a_small_statement_is_an_operand() {
    for seed in 0..200 {
        for size in 0..5 {
            for level in 0..3 {
                let mut g = Source::from_size_and_seed(size, seed);
                let mut vars = vec![Name::new("a")];
                let mut fns = vec![(Name::new("f"), 1)];
                let left = size.saturating_sub(level);
                let statement = arbitrary_statement(&mut g, level, &mut vars, &mut fns);
                let (Statement::VarAssignment(_, e) | Statement::FnDefinition(_, _, e)) = &statement;
                assert!(nesting(e) <= left.saturating_sub(1));
                assert!(left > 2 || is_operand(e), "{}", e.to_string());
                if let Statement::FnDefinition(_, params, _) = &statement {
                    assert!(params.len() <= left.max(1));
                }
            }
        }
    }
}
