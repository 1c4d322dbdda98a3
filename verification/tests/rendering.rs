use math::parser::{parse, reparse};
use math::{
    Expression, Match, Matcher, Name, Operand, Operator, Program, Statement, Statements, Token,
};

fn name(s: &str) -> Name {
    Name::new(s)
}

fn lit(n: i64) -> Expression {
    Expression::Operand(Operand::I64(n))
}

fn var(s: &str) -> Expression {
    Expression::Operand(Operand::VarSubstitution(name(s)))
}

fn op(operator: Operator, l: Expression, r: Expression) -> Expression {
    Expression::Operation(operator, Box::new(l), Box::new(r))
}

fn sample() -> Program {
    let fact = Statement::FnDefinition(
        name("fact"),
        vec![name("x")],
        Expression::Operand(Operand::Match(Match::new(
            var("x"),
            vec![(Matcher::Value(lit(0)), lit(1))],
            op(
                Operator::Multiply,
                var("x"),
                Expression::Operand(Operand::FnApplication(
                    name("fact"),
                    vec![op(Operator::Subtract, var("x"), lit(1))],
                )),
            ),
        ))),
    );
    let twice = Statement::FnDefinition(
        name("pair_sum"),
        vec![name("a"), name("b_c")],
        op(Operator::Add, var("a"), var("b_c")),
    );
    let r = Statement::VarAssignment(
        name("r"),
        op(
            Operator::Subtract,
            Expression::Operand(Operand::FnApplication(name("fact"), vec![var("n")])),
            op(
                Operator::Multiply,
                Expression::Operand(Operand::Group(Box::new(op(
                    Operator::Add,
                    var("m"),
                    lit(-7),
                )))),
                Expression::Operand(Operand::FnApplication(
                    name("pair_sum"),
                    vec![lit(i64::MIN), lit(i64::MAX)],
                )),
            ),
        ),
    );
    Program::new(
        vec![name("n"), name("m")],
        Statements(vec![fact, twice, r]),
        vec![name("r"), name("n")],
    )
}

#[test]
fn operators_render_as_their_signs() {
    assert_eq!(Operator::Subtract.to_string(), "-");
    assert_eq!(Operator::Add.to_string(), "+");
    assert_eq!(Operator::Divide.to_string(), "/");
    assert_eq!(Operator::Multiply.to_string(), "*");
}

#[test]
fn integers_render_in_decimal() {
    assert_eq!(lit(0).to_string(), "0");
    assert_eq!(lit(7).to_string(), "7");
    assert_eq!(lit(10).to_string(), "10");
    assert_eq!(lit(-390).to_string(), "-390");
    assert_eq!(lit(i64::MAX).to_string(), "9223372036854775807");
    assert_eq!(lit(i64::MIN).to_string(), "-9223372036854775808");
}

#[test]
fn a_lower_operation_inside_a_higher_one_is_parenthesised() {
    let sum = op(Operator::Add, var("a"), var("b"));
    assert_eq!(op(Operator::Multiply, sum.clone(), var("c")).to_string(), "(a + b) * c");
    assert_eq!(op(Operator::Multiply, var("c"), sum.clone()).to_string(), "c * (a + b)");
    assert_eq!(op(Operator::Subtract, sum.clone(), var("c")).to_string(), "a + b - c");
    assert_eq!(op(Operator::Add, var("c"), sum).to_string(), "c + a + b");
    // Subtraction binds loosest and multiplication tightest.
    let difference = op(Operator::Subtract, var("a"), var("b"));
    assert_eq!(op(Operator::Add, difference, var("c")).to_string(), "(a - b) + c");
    let quotient = op(Operator::Divide, var("a"), var("b"));
    assert_eq!(op(Operator::Multiply, quotient, var("c")).to_string(), "(a / b) * c");
}

#[test]
fn operands_render_as_written() {
    assert_eq!(Operand::Group(Box::new(lit(1))).to_string(), "(1)");
    assert_eq!(Operand::VarSubstitution(name("foo")).to_string(), "foo");
    assert_eq!(Operand::FnApplication(name("f"), vec![]).to_string(), "f()");
    assert_eq!(
        Operand::FnApplication(name("f"), vec![lit(1), var("x"), lit(-3)]).to_string(),
        "f(1, x, -3)"
    );
    assert_eq!(name("foo_bar").to_string(), "foo_bar");
}

#[test]
fn a_match_renders_its_clauses_then_the_default() {
    let m = Match::new(
        var("x"),
        vec![(Matcher::Value(lit(1)), lit(2)), (Matcher::Value(lit(3)), lit(5))],
        lit(11),
    );
    assert_eq!(m.to_string(), "match x { 1 => 2, 3 => 5, _ => 11, }");
    assert_eq!(Match::new(var("x"), vec![], lit(0)).to_string(), "match x { _ => 0, }");
    assert_eq!(Matcher::Value(lit(4)).to_string(), "4");
}

#[test]
fn statements_render_one_per_line() {
    let assign = Statement::VarAssignment(name("b"), op(Operator::Add, var("a"), lit(2)));
    let define = Statement::FnDefinition(name("f"), vec![name("x"), name("y")], var("x"));
    assert_eq!(assign.to_string(), "b = a + 2;");
    assert_eq!(define.to_string(), "f(x, y) = x;");
    assert_eq!(Statements(vec![assign, define]).to_string(), "b = a + 2;\nf(x, y) = x;");
    assert_eq!(Statements(vec![]).to_string(), "");
}

#[test]
fn a_program_renders_inputs_statements_and_outputs() {
    let program = Program::new(
        vec![name("a")],
        Statements(vec![Statement::VarAssignment(
            name("b"),
            op(Operator::Add, var("a"), lit(2)),
        )]),
        vec![name("b")],
    );
    assert_eq!(program.to_string(), "inputs a;\nb = a + 2;\noutputs b;");
    let empty = Program::new(vec![], Statements(vec![]), vec![]);
    assert_eq!(empty.to_string(), "inputs;\noutputs;");
    assert_eq!(
        sample().to_string(),
        "inputs n, m;\n\
         fact(x) = match x { 0 => 1, _ => x * fact(x - 1), };\n\
         pair_sum(a, b_c) = a + b_c;\n\
         r = fact(n) - (m + -7) * pair_sum(-9223372036854775808, 9223372036854775807);\n\
         outputs r, n;"
    );
}

#[test]
fn the_text_of_a_program_parses_back_to_the_program() {
    let program = sample();
    assert_eq!(parse(program.to_string().as_bytes()), Ok(program));
    let empty = Program::new(vec![], Statements(vec![]), vec![]);
    assert_eq!(parse(empty.to_string().as_bytes()), Ok(empty));
}

#[test]
fn a_parsed_program_renders_and_parses_to_itself() {
    let source = b"  inputs a,b ;f( x ,y)=x*y+ 1;\tc = f (a, b)-match a{1=>2 ,_ => (3),};\n outputs c ; ";
    let program = parse(source).unwrap();
    assert_eq!(
        program.to_string(),
        "inputs a, b;\nf(x, y) = x * y + 1;\nc = f(a, b) - match a { 1 => 2, _ => (3), };\noutputs c;"
    );
    assert_eq!(parse(program.to_string().as_bytes()), Ok(program));
}

#[test]
fn a_right_nested_operation_of_equal_precedence_reads_back_left_nested() {
    let right = op(Operator::Add, var("a"), op(Operator::Add, var("b"), var("c")));
    let left = op(Operator::Add, op(Operator::Add, var("a"), var("b")), var("c"));
    assert_eq!(right.to_string(), "a + b + c");
    assert_eq!(math::parser::expression::expression(b"a + b + c;"), Ok((&b";"[..], left)));
}

#[test]
fn tokens_flatten_an_expression_left_to_right() {
    let e = op(Operator::Add, op(Operator::Multiply, lit(1), var("x")), lit(3));
    assert_eq!(
        e.tokens(),
        vec![
            Token::Operand(Operand::I64(1)),
            Token::Operator(Operator::Multiply),
            Token::Operand(Operand::VarSubstitution(name("x"))),
            Token::Operator(Operator::Add),
            Token::Operand(Operand::I64(3)),
        ]
    );
    assert_eq!(lit(5).tokens(), vec![Token::Operand(Operand::I64(5))]);
}

#[test]
fn reparsing_gives_a_well_formed_program_back() {
    let program = sample();
    assert_eq!(reparse(&program), Ok(program));
}

#[test]
fn reparsing_gives_the_canonical_form_of_a_plain_program() {
    // a - (b - c) without a group renders as a - b - c, which reads as (a - b) - c.
    let right = op(Operator::Subtract, var("a"), op(Operator::Subtract, var("b"), var("c")));
    let left = op(Operator::Subtract, op(Operator::Subtract, var("a"), var("b")), var("c"));
    let program = |e: Expression| {
        Program::new(
            vec![name("a"), name("b"), name("c")],
            Statements(vec![Statement::VarAssignment(name("r"), e)]),
            vec![name("r")],
        )
    };
    assert_eq!(reparse(&program(right)), Ok(program(left.clone())));
    assert_eq!(reparse(&program(left.clone())), Ok(program(left)));
}

#[test]
fn equal_trees_are_the_same() {
    let e = op(Operator::Add, var("a"), lit(1));
    assert!(e.same(&e.clone()));
    assert!(!e.same(&op(Operator::Add, var("a"), lit(2))));
    assert!(!e.same(&op(Operator::Subtract, var("a"), lit(1))));
    assert!(!e.same(&var("a")));
    let call = |args: Vec<Expression>| Expression::Operand(Operand::FnApplication(name("f"), args));
    assert!(call(vec![lit(1), lit(2)]).same(&call(vec![lit(1), lit(2)])));
    assert!(!call(vec![lit(1), lit(2)]).same(&call(vec![lit(1)])));
    assert!(!call(vec![lit(1), lit(2)]).same(&call(vec![lit(1), lit(3)])));
    let m = |d: i64| {
        Expression::Operand(Operand::Match(Match::new(
            var("x"),
            vec![(Matcher::Value(lit(1)), lit(2))],
            lit(d),
        )))
    };
    assert!(m(0).same(&m(0)));
    assert!(!m(0).same(&m(1)));
    assert!(name("a").same(&name("a")));
    assert!(!name("a").same(&name("b")));
}

#[test]
fn clones_are_equal_to_what_they_copy() {
    let program = sample();
    assert_eq!(program.clone(), program);
    assert_eq!(program.statements.clone(), program.statements);
    assert_eq!(program.statements.0[0].clone(), program.statements.0[0]);
    assert_eq!(name("x").clone(), name("x"));
}
