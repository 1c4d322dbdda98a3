use math::interpreter;
use math::parser;
use math::{interpret, Error};

#[test]
fn it_works() {
    assert_eq!(2 + 2, 4);
}

#[test]
fn adds_two_to_the_input() {
    assert_eq!(interpret(b"inputs a; b = a + 2; outputs b;", &vec![3]), Ok(vec![5]));
}

#[test]
fn applies_a_function() {
    assert_eq!(interpret(b"inputs; f(x) = x * x; a = f(4); outputs a;", &vec![]), Ok(vec![16]));
}

#[test]
fn computes_a_factorial_recursively() {
    let source = b"inputs n; fact(x) = match x { 0 => 1, _ => x * fact(x - 1) }; r = fact(n); outputs r;";
    assert_eq!(interpret(source, &vec![5]), Ok(vec![120]));
}

#[test]
fn passes_inputs_through_in_order() {
    assert_eq!(interpret(b"inputs a, b; outputs a, b;", &vec![7, -2]), Ok(vec![7, -2]));
}

#[test]
fn division_by_zero_is_an_error() {
    assert_eq!(
        interpret(b"inputs; r = 1 / 0; outputs r;", &vec![]),
        Err(Error::InterpreterError(interpreter::Error::DivisionByZero))
    );
}

#[test]
fn first_matching_clause_wins() {
    assert_eq!(
        interpret(b"inputs; r = match 5 { 5 => 1, 5 => 2, _ => 3 }; outputs r;", &vec![]),
        Ok(vec![1])
    );
    assert_eq!(
        interpret(b"inputs; r = match 6 { 5 => 1, _ => 3 }; outputs r;", &vec![]),
        Ok(vec![3])
    );
}

#[test]
fn wrong_number_of_inputs_is_an_arity_error() {
    assert_eq!(
        interpret(b"inputs a; b = 1 / 0; outputs b;", &vec![]),
        Err(Error::InterpreterError(interpreter::Error::InputArity))
    );
    assert_eq!(
        interpret(b"inputs a; outputs a;", &vec![1, 2]),
        Err(Error::InterpreterError(interpreter::Error::InputArity))
    );
}

#[test]
fn a_text_that_ends_early_is_a_parse_error() {
    assert_eq!(
        interpret(b"inputs a; outputs a", &vec![1]),
        Err(Error::ParseError(parser::Error::Incomplete))
    );
}
