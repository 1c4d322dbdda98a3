use math::compiler::{check, Error};
use math::parser::parse;

fn checked(source: &str) -> Result<(), Error> {
    check(&parse(source.as_bytes()).unwrap())
}

#[test]
fn a_program_that_binds_what_it_uses_passes() {
    assert_eq!(checked("inputs a; b = a + 2; outputs b;"), Ok(()));
    assert_eq!(checked("inputs; f(x) = x * x; a = f(4); outputs a;"), Ok(()));
    assert_eq!(
        checked("inputs n; fact(x) = match x { 0 => 1, _ => x * fact(x - 1) }; r = fact(n); outputs r;"),
        Ok(())
    );
    assert_eq!(checked("inputs a, b; outputs a, b;"), Ok(()));
    assert_eq!(checked("inputs; outputs;"), Ok(()));
}

#[test]
fn functions_may_be_defined_behind_those_that_call_them() {
    let source = "inputs n; \
        even(x) = match x { 0 => 1, _ => odd(x - 1) }; \
        odd(x) = match x { 0 => 0, _ => even(x - 1) }; \
        r = even(n); outputs r;";
    assert_eq!(checked(source), Ok(()));
    // Not where an assignment stands between them.
    let source = "inputs n; even(x) = odd(x); r = 1; odd(x) = even(x); outputs r;";
    assert_eq!(checked(source), Err(Error::UndefinedFunction));
}

#[test]
fn every_misuse_is_found() {
    assert_eq!(checked("inputs; r = x; outputs r;"), Err(Error::UndefinedVariable));
    assert_eq!(checked("inputs a; outputs b;"), Err(Error::UndefinedVariable));
    assert_eq!(checked("inputs a; f(x) = a; outputs a;"), Err(Error::UndefinedVariable));
    assert_eq!(checked("inputs a; r = (a + match a { 1 => b, _ => 0 }); outputs r;"), Err(Error::UndefinedVariable));
    assert_eq!(checked("inputs; r = f(1); outputs r;"), Err(Error::UndefinedFunction));
    assert_eq!(checked("inputs; r = f(1); f(x) = x; outputs r;"), Err(Error::UndefinedFunction));
    assert_eq!(checked("inputs; f(x) = g(x); outputs;"), Err(Error::UndefinedFunction));
    assert_eq!(checked("inputs; f(x) = x; r = f(1, 2); outputs r;"), Err(Error::CallArity));
    assert_eq!(checked("inputs; f(x) = x; r = f(); outputs r;"), Err(Error::CallArity));
}

#[test]
fn the_first_misuse_is_reported() {
    // In a body before the assignment that follows it.
    assert_eq!(checked("inputs; f(x) = y; r = g(1); outputs r;"), Err(Error::UndefinedVariable));
    // From left to right within an expression.
    assert_eq!(checked("inputs; r = f(1) + x; outputs r;"), Err(Error::UndefinedFunction));
    assert_eq!(checked("inputs; r = x + f(1); outputs r;"), Err(Error::UndefinedVariable));
    // The arity before the arguments.
    assert_eq!(checked("inputs; f(x) = x; r = f(y, 1); outputs r;"), Err(Error::CallArity));
}

#[test]
fn a_later_definition_of_another_arity_breaks_earlier_callers() {
    let source = "inputs; g(x) = 1; f(y) = g(1); g(a, b) = 2; r = f(0); outputs r;";
    assert_eq!(checked(source), Err(Error::CallArity));
    let source = "inputs; g(x) = 1; f(y) = g(1); r = f(0); outputs r;";
    assert_eq!(checked(source), Ok(()));
}
