use math::interpreter::{apply, execute, execute_within, Error, MAX_CALL_DEPTH};
use math::parser::parse;
use math::{interpret, interpret_within, Operator};

fn run(source: &str, inputs: Vec<i64>) -> Result<Vec<i64>, Error> {
    execute(&parse(source.as_bytes()).unwrap(), &inputs)
}

#[test]
fn arithmetic_wraps_at_64_bits() {
    assert_eq!(apply(Operator::Add, i64::MAX, 1), Ok(i64::MIN));
    assert_eq!(apply(Operator::Subtract, i64::MIN, 1), Ok(i64::MAX));
    assert_eq!(apply(Operator::Multiply, i64::MAX, 2), Ok(-2));
    assert_eq!(apply(Operator::Multiply, 3_037_000_500, 3_037_000_500), Ok(-9223372036709301616));
    assert_eq!(apply(Operator::Add, 2, 3), Ok(5));
    assert_eq!(apply(Operator::Subtract, 2, 3), Ok(-1));
    assert_eq!(apply(Operator::Multiply, -4, 3), Ok(-12));
}

#[test]
fn division_truncates_towards_zero() {
    assert_eq!(apply(Operator::Divide, 7, 2), Ok(3));
    assert_eq!(apply(Operator::Divide, -7, 2), Ok(-3));
    assert_eq!(apply(Operator::Divide, 7, -2), Ok(-3));
    assert_eq!(apply(Operator::Divide, -7, -2), Ok(3));
    assert_eq!(apply(Operator::Divide, 0, 5), Ok(0));
    assert_eq!(apply(Operator::Divide, i64::MIN, -1), Ok(i64::MIN));
    assert_eq!(apply(Operator::Divide, 1, 0), Err(Error::DivisionByZero));
    assert_eq!(apply(Operator::Divide, 0, 0), Err(Error::DivisionByZero));
}

#[test]
fn later_statements_see_and_shadow_earlier_bindings() {
    assert_eq!(run("inputs a; a = a + 1; a = a * 2; outputs a;", vec![3]), Ok(vec![8]));
    assert_eq!(run("inputs a; b = a; a = 0; outputs a, b, a;", vec![3]), Ok(vec![0, 3, 0]));
}

#[test]
fn a_call_uses_the_latest_definition_before_it() {
    let source = "inputs; f(x) = x + 1; a = f(1); f(x) = x + 10; b = f(1); outputs a, b;";
    assert_eq!(run(source, vec![]), Ok(vec![2, 11]));
}

#[test]
fn functions_see_only_their_parameters() {
    assert_eq!(
        run("inputs a; f(x) = a + x; b = f(1); outputs b;", vec![1]),
        Err(Error::UndefinedVariable)
    );
    assert_eq!(run("inputs a; f(a) = a + 1; b = f(10); outputs a, b;", vec![1]), Ok(vec![1, 11]));
}

#[test]
fn functions_may_call_each_other() {
    let source = "inputs n; \
        even(x) = match x { 0 => 1, _ => odd(x - 1) }; \
        odd(x) = match x { 0 => 0, _ => even(x - 1) }; \
        r = even(n); outputs r;";
    assert_eq!(run(source, vec![10]), Ok(vec![1]));
    assert_eq!(run(source, vec![7]), Ok(vec![0]));
}

#[test]
fn arguments_are_evaluated_in_the_callers_scope() {
    assert_eq!(
        run("inputs a, b; f(x, y) = x - y; r = f(a * 2, b); outputs r;", vec![5, 3]),
        Ok(vec![7])
    );
}

#[test]
fn groups_are_transparent() {
    assert_eq!(run("inputs a; r = (a + 1) * 2; outputs r;", vec![3]), Ok(vec![8]));
    assert_eq!(run("inputs a; r = a + 1 * 2; outputs r;", vec![3]), Ok(vec![5]));
    // Addition binds tighter than subtraction.
    assert_eq!(run("inputs; r = 10 - 2 + 3; outputs r;", vec![]), Ok(vec![5]));
    // Multiplication binds tighter than division.
    assert_eq!(run("inputs; r = 12 / 2 * 3; outputs r;", vec![]), Ok(vec![2]));
}

#[test]
fn a_match_compares_the_values_of_its_matchers() {
    let source = "inputs x; r = match x * 2 { 1 + 1 => 10, 2 + 2 => 20, _ => 0 }; outputs r;";
    assert_eq!(run(source, vec![1]), Ok(vec![10]));
    assert_eq!(run(source, vec![2]), Ok(vec![20]));
    assert_eq!(run(source, vec![3]), Ok(vec![0]));
}

#[test]
fn a_match_evaluates_only_what_it_needs() {
    // The first clause matches: neither the second matcher nor the default runs.
    assert_eq!(run("inputs; r = match 1 { 1 => 2, 1 / 0 => 3, _ => 1 / 0 }; outputs r;", vec![]), Ok(vec![2]));
    // A matcher that fails before the matching one is an error.
    assert_eq!(
        run("inputs; r = match 1 { 1 / 0 => 3, 1 => 2, _ => 0 }; outputs r;", vec![]),
        Err(Error::DivisionByZero)
    );
}

#[test]
fn every_interpreter_error_has_a_program_that_gives_it() {
    assert_eq!(run("inputs a; outputs a;", vec![]), Err(Error::InputArity));
    assert_eq!(run("inputs; r = x; outputs r;", vec![]), Err(Error::UndefinedVariable));
    assert_eq!(run("inputs; outputs r;", vec![]), Err(Error::UndefinedVariable));
    assert_eq!(run("inputs; r = f(1); outputs r;", vec![]), Err(Error::UndefinedFunction));
    assert_eq!(run("inputs; r = f(1); f(x) = x; outputs r;", vec![]), Err(Error::UndefinedFunction));
    assert_eq!(run("inputs; f(x) = x; r = f(1, 2); outputs r;", vec![]), Err(Error::CallArity));
    assert_eq!(run("inputs; f(x) = x; r = f(); outputs r;", vec![]), Err(Error::CallArity));
    assert_eq!(run("inputs; r = 1 / 0; outputs r;", vec![]), Err(Error::DivisionByZero));
    assert_eq!(run("inputs; f(x) = f(x); r = f(1); outputs r;", vec![]), Err(Error::RecursionLimit));
}

#[test]
fn a_wrong_number_of_inputs_runs_nothing() {
    // The statement would divide by zero: the arity error comes first.
    assert_eq!(run("inputs a; b = 1 / 0; outputs b;", vec![]), Err(Error::InputArity));
    assert_eq!(run("inputs a; b = 1 / 0; outputs b;", vec![1, 2]), Err(Error::InputArity));
    assert_eq!(run("inputs; outputs;", vec![1]), Err(Error::InputArity));
}

#[test]
fn a_call_arity_error_comes_before_the_arguments_are_evaluated() {
    assert_eq!(run("inputs; f(x) = x; r = f(1 / 0, 2); outputs r;", vec![]), Err(Error::CallArity));
    assert_eq!(run("inputs; f(x) = x; r = f(1 / 0); outputs r;", vec![]), Err(Error::DivisionByZero));
}

#[test]
fn calls_nest_as_deep_as_the_limit_and_no_deeper() {
    let program = parse(
        b"inputs n; down(x) = match x { 0 => 0, _ => down(x - 1) }; r = down(n); outputs r;",
    )
    .unwrap();
    // down(n) nests n + 1 calls.
    assert_eq!(execute_within(&program, &vec![4], 5), Ok(vec![0]));
    assert_eq!(execute_within(&program, &vec![5], 5), Err(Error::RecursionLimit));
    assert_eq!(execute_within(&program, &vec![0], 0), Err(Error::RecursionLimit));
    let deepest = MAX_CALL_DEPTH as i64 - 1;
    assert_eq!(execute(&program, &vec![deepest]), Ok(vec![0]));
    assert_eq!(execute(&program, &vec![deepest + 1]), Err(Error::RecursionLimit));
}

#[test]
fn interpreting_twice_gives_the_same() {
    let source = b"inputs a, b; f(x, y) = x * x - y; r = f(a, b) / b; outputs r, a;";
    let first = interpret(source, &vec![12, 5]);
    let second = interpret(source, &vec![12, 5]);
    assert_eq!(first, second);
    assert_eq!(first, Ok(vec![27, 12]));
}

#[test]
fn a_parameter_named_twice_holds_the_later_argument() {
    assert_eq!(run("inputs; f(x, x) = x; r = f(1, 2); outputs r;", vec![]), Ok(vec![2]));
    assert_eq!(run("inputs a, a; outputs a;", vec![1, 2]), Ok(vec![2]));
}

#[test]
fn the_depth_of_calls_is_the_callers_to_choose() {
    let nested = b"inputs n; f(x) = match x { 0 => 0, _ => 1 + f(x - 1) }; r = f(n); outputs r;";
    let limit = math::Error::InterpreterError(Error::RecursionLimit);
    assert_eq!(interpret_within(nested, &vec![4], 5), Ok(vec![4]));
    assert_eq!(interpret_within(nested, &vec![5], 5), Err(limit.clone()));
    assert_eq!(interpret_within(nested, &vec![0], 0), Err(limit.clone()));
    assert_eq!(interpret_within(b"inputs a; b = a + 2; outputs b;", &vec![3], 0), Ok(vec![5]));
    assert_eq!(interpret_within(nested, &vec![1000], 1001), Ok(vec![1000]));
    assert_eq!(interpret(nested, &vec![1000]), Err(limit));
    for n in [0, 3, 999] {
        assert_eq!(interpret(nested, &vec![n]), interpret_within(nested, &vec![n], MAX_CALL_DEPTH));
    }
    assert_eq!(
        interpret_within(b"inputs a outputs a;", &vec![1], 7),
        Err(math::Error::ParseError(math::parser::Error::Token)),
    );
}

#[test]
fn a_greater_depth_gives_the_same_unless_the_limit_was_met() {
    let texts: [&[u8]; 4] = [
        b"inputs n; f(x) = match x { 0 => 0, _ => 1 + f(x - 1) }; r = f(n); outputs r;",
        b"inputs n; f(x) = 10 / x; g(x) = f(x - 3) + f(x); r = g(n); outputs r;",
        b"inputs n; f(x) = match x { 0 => y, _ => f(x - 1) }; r = f(n); outputs r;",
        b"inputs n; r = n * n; outputs r, n;",
    ];
    let limit = math::Error::InterpreterError(Error::RecursionLimit);
    let mut limited = 0;
    let mut same = 0;
    for text in texts {
        for n in 0..6 {
            for depth in 0..8 {
                let shallow = interpret_within(text, &vec![n], depth);
                if shallow == Err(limit.clone()) {
                    limited += 1;
                } else {
                    same += 1;
                    assert_eq!(interpret_within(text, &vec![n], depth + 1), shallow);
                    assert_eq!(interpret_within(text, &vec![n], depth + 40), shallow);
                    assert_eq!(interpret(text, &vec![n]), shallow);
                }
            }
        }
    }
    assert!(limited > 20 && same > 100);
}
