use math::parser::expression::{
    default_clause_of, expressions, i64, matchers_of, variable_substitution, Clause,
};
use math::parser::shunting_yard::ShuntingYard;
use math::parser::{parse, Error};
use math::{Expression, Matcher, Name, Operand, Operator, Program, Statement, Statements};

fn lit(n: i64) -> Expression {
    Expression::Operand(Operand::I64(n))
}

fn var(s: &str) -> Expression {
    Expression::Operand(Operand::VarSubstitution(Name::new(s)))
}

fn op(operator: Operator, l: Expression, r: Expression) -> Expression {
    Expression::Operation(operator, Box::new(l), Box::new(r))
}

#[test]
fn parses_a_small_program() {
    let expected = Program::new(
        vec![Name::new("a")],
        Statements(vec![Statement::VarAssignment(
            Name::new("b"),
            op(Operator::Add, var("a"), lit(2)),
        )]),
        vec![Name::new("b")],
    );
    assert_eq!(parse(b"inputs a; b = a + 2; outputs b;"), Ok(expected));
}

#[test]
fn parses_function_definitions() {
    let expected = Program::new(
        vec![],
        Statements(vec![
            Statement::FnDefinition(Name::new("zero"), vec![], lit(0)),
            Statement::FnDefinition(
                Name::new("f"),
                vec![Name::new("x"), Name::new("y")],
                op(Operator::Divide, var("x"), var("y")),
            ),
        ]),
        vec![],
    );
    assert_eq!(parse(b"inputs;zero()=0;f(x,y)=x/y;outputs;"), Ok(expected));
}

#[test]
fn whitespace_between_tokens_is_insignificant() {
    let dense = parse(b"inputs a,b;c=a*b;outputs c;").unwrap();
    let sparse = parse(b"\n inputs  a ,\tb ;\r\n c  =  a  *  b ;\n\n outputs \n c ; \n").unwrap();
    assert_eq!(dense, sparse);
}

#[test]
fn precedence_runs_from_subtraction_up_to_multiplication() {
    // a - b + c / d * e reads as a - (b + (c / (d * e))).
    let expected = op(
        Operator::Subtract,
        var("a"),
        op(
            Operator::Add,
            var("b"),
            op(Operator::Divide, var("c"), op(Operator::Multiply, var("d"), var("e"))),
        ),
    );
    assert_eq!(
        math::parser::expression::expression(b"a - b + c / d * e;"),
        Ok((&b";"[..], expected))
    );
    // a * b / c + d - e reads as (((a * b) / c) + d) - e.
    let expected = op(
        Operator::Subtract,
        op(
            Operator::Add,
            op(Operator::Divide, op(Operator::Multiply, var("a"), var("b")), var("c")),
            var("d"),
        ),
        var("e"),
    );
    assert_eq!(
        math::parser::expression::expression(b"a * b / c + d - e;"),
        Ok((&b";"[..], expected))
    );
    // Addition binds tighter than subtraction: a + b - c + d is (a + b) - (c + d).
    let expected = op(
        Operator::Subtract,
        op(Operator::Add, var("a"), var("b")),
        op(Operator::Add, var("c"), var("d")),
    );
    assert_eq!(
        math::parser::expression::expression(b"a + b - c + d;"),
        Ok((&b";"[..], expected))
    );
}

#[test]
fn the_shunting_yard_folds_by_precedence() {
    let mut yard = ShuntingYard::new(Operand::I64(1));
    yard.push(Operator::Multiply, Operand::I64(2));
    yard.push(Operator::Add, Operand::I64(3));
    yard.push(Operator::Add, Operand::I64(4));
    let expected = op(
        Operator::Add,
        op(Operator::Add, op(Operator::Multiply, lit(1), lit(2)), lit(3)),
        lit(4),
    );
    assert_eq!(yard.into_expression(), expected);
    assert_eq!(ShuntingYard::new(Operand::I64(9)).into_expression(), lit(9));
}

#[test]
fn integer_literals_span_the_64_bit_range() {
    assert_eq!(i64(b"9223372036854775807"), Ok((&b""[..], i64::MAX)));
    assert_eq!(i64(b"-9223372036854775808"), Ok((&b""[..], i64::MIN)));
    assert_eq!(i64(b"9223372036854775808"), Err(Error::Integer));
    assert_eq!(i64(b"-9223372036854775809"), Err(Error::Integer));
    assert_eq!(i64(b"99999999999999999999999"), Err(Error::Integer));
    assert_eq!(i64(b"007"), Ok((&b""[..], 7)));
    assert_eq!(i64(b"-0"), Ok((&b""[..], 0)));
    assert_eq!(i64(b"12ab"), Ok((&b"ab"[..], 12)));
    assert_eq!(i64(b"-"), Err(Error::Incomplete));
    assert_eq!(i64(b""), Err(Error::Incomplete));
    assert_eq!(i64(b"--1"), Err(Error::Integer));
}

#[test]
fn a_minus_between_digits_is_an_operator() {
    assert_eq!(
        math::parser::expression::expression(b"1-2;"),
        Ok((&b";"[..], op(Operator::Subtract, lit(1), lit(2))))
    );
}

#[test]
fn reserved_words_are_no_names() {
    assert_eq!(variable_substitution(b"inputs "), Err(Error::Name));
    assert_eq!(variable_substitution(b"outputs "), Err(Error::Name));
    assert_eq!(variable_substitution(b"if "), Err(Error::Name));
    assert_eq!(variable_substitution(b"match "), Err(Error::Name));
    assert_eq!(variable_substitution(b"_x "), Err(Error::Name));
    assert_eq!(variable_substitution(b"Xy "), Err(Error::Name));
    assert_eq!(variable_substitution(b"matches;"), Ok((&b";"[..], Name::new("matches"))));
    assert_eq!(variable_substitution(b"a_b_ ;"), Ok((&b";"[..], Name::new("a_b_"))));
    assert_eq!(parse(b"inputs if; outputs;"), Err(Error::Token));
}

#[test]
fn every_parse_error_has_a_text_that_gives_it() {
    assert_eq!(parse(b""), Err(Error::Incomplete));
    assert_eq!(parse(b"inp"), Err(Error::Incomplete));
    assert_eq!(parse(b"outputs;"), Err(Error::Token));
    assert_eq!(parse(b"inputs a b; outputs;"), Err(Error::Token));
    assert_eq!(parse(b"inputs a; b = ; outputs b;"), Err(Error::Token));
    assert_eq!(parse(b"inputs; outputs; x"), Err(Error::Trailing));
    assert_eq!(math::parser::expression::operator(b"%"), Err(Error::Operator));
    assert_eq!(math::parser::expression::operator(b""), Err(Error::Incomplete));
    assert_eq!(math::parser::expression::i64(b"x"), Err(Error::Integer));
    assert_eq!(math::parser::expression::variable_substitution(b"9"), Err(Error::Name));
    assert_eq!(math::parser::expression::variable_substitution(b"f (1)"), Err(Error::Variable));
    assert_eq!(math::parser::expression::operand(b"?"), Err(Error::Operand));
    assert_eq!(math::parser::expression::expression(b"  "), Err(Error::Operand));
    assert_eq!(
        math::parser::expression::match_(b"match x { _ => 1, _ => 2 }"),
        Err(Error::MatchDefault)
    );
    assert_eq!(math::parser::expression::match_(b"match x { _ => 1 "), Err(Error::Incomplete));
    assert_eq!(math::parser::expression::match_(b"match x [ _ => 1 ]"), Err(Error::Token));
}

#[test]
fn a_statement_that_does_not_parse_ends_the_statements() {
    // The failing statement is then not the keyword that must follow.
    assert_eq!(parse(b"inputs; a = 1 +; outputs a;"), Err(Error::Token));
    assert_eq!(parse(b"inputs; a = (1; outputs a;"), Err(Error::Token));
}

#[test]
fn the_default_of_a_match_stands_last_and_only_once() {
    use_match(b"match x { 1 => 2, _ => 0 }", true);
    use_match(b"match x { 1 => 2, 3 => 4, _ => 0, }", true);
    use_match(b"match x { _ => 0 }", true);
    use_match(b"match x { _ => 0, 1 => 2 }", false);
    use_match(b"match x { 1 => 2, _ => 0, 3 => 4 }", false);
    use_match(b"match x { _ => 0, _ => 1 }", false);
    use_match(b"match x { 1 => 2 }", false);
    use_match(b"match x { }", false);
    assert_eq!(parse(b"inputs x; r = match x { _ => 1, 2 => 3 }; outputs r;"), Err(Error::Token));
}

fn use_match(text: &[u8], owed: bool) {
    match math::parser::expression::match_(text) {
        Ok((rest, m)) => {
            assert!(owed);
            assert_eq!(rest, b"");
            assert_eq!(m.default, Box::new(lit(0)));
        }
        Err(e) => {
            assert!(!owed);
            assert_eq!(e, Error::MatchDefault);
        }
    }
}

#[test]
fn default_clause_of_wants_the_one_default_last() {
    let matcher = |n: i64| Clause::Matcher(Matcher::Value(lit(n)));
    assert_eq!(default_clause_of(&vec![]), None);
    assert_eq!(default_clause_of(&vec![(matcher(1), lit(2))]), None);
    assert_eq!(default_clause_of(&vec![(Clause::Default_, lit(3))]), Some(lit(3)));
    assert_eq!(
        default_clause_of(&vec![(matcher(1), lit(2)), (matcher(4), lit(5)), (Clause::Default_, lit(3))]),
        Some(lit(3))
    );
    assert_eq!(
        default_clause_of(&vec![(Clause::Default_, lit(1)), (matcher(2), lit(3))]),
        None
    );
    assert_eq!(
        default_clause_of(&vec![(matcher(1), lit(2)), (Clause::Default_, lit(3)), (matcher(4), lit(5))]),
        None
    );
    assert_eq!(
        default_clause_of(&vec![(Clause::Default_, lit(3)), (matcher(1), lit(2)), (Clause::Default_, lit(4))]),
        None
    );
    assert_eq!(
        default_clause_of(&vec![(Clause::Default_, lit(3)), (Clause::Default_, lit(4))]),
        None
    );
}

#[test]
fn matchers_of_keeps_the_clauses_with_a_matcher_in_order() {
    let matcher = |n: i64| Clause::Matcher(Matcher::Value(lit(n)));
    assert_eq!(matchers_of(vec![]), vec![]);
    assert_eq!(
        matchers_of(vec![(matcher(1), lit(2)), (Clause::Default_, lit(3)), (matcher(4), lit(5))]),
        vec![(Matcher::Value(lit(1)), lit(2)), (Matcher::Value(lit(4)), lit(5))]
    );
}

#[test]
fn expressions_reads_a_list_and_leaves_the_rest() {
    assert_eq!(expressions(b"1, x ,3)"), (&b")"[..], vec![lit(1), var("x"), lit(3)]));
    assert_eq!(expressions(b")"), (&b")"[..], vec![]));
    assert_eq!(expressions(b"1, )"), (&b", )"[..], vec![lit(1)]));
}
