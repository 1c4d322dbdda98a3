use math::parser::expression::{
    expression, function_application, i64, operand, operator, variable_substitution,
};
use math::parser::Error;
use math::{Expression, Name, Operand, Operator};

fn as_name(s: &str) -> Name {
    Name(s.to_string())
}

fn as_done<O>(remaining: &'static [u8], output: O) -> Result<(&'static [u8], O), Error> {
    Ok((remaining, output))
}

#[test]
fn expression_expression_test() {
    assert_eq!(
        expression(b"1"),
        as_done(b"", Expression::Operand(Operand::I64(1)))
    );
    assert_eq!(
        expression(b"-123"),
        as_done(b"", Expression::Operand(Operand::I64(-123)))
    );
    assert_eq!(
        expression(b"-123;"),
        as_done(b";", Expression::Operand(Operand::I64(-123)))
    );
    assert_eq!(
        expression(b"35 + -12"),
        as_done(
            b"",
            Expression::Operation(
                Operator::Add,
                Box::new(Expression::Operand(Operand::I64(35))),
                Box::new(Expression::Operand(Operand::I64(-12)))
            )
        )
    );
    assert_eq!(
        expression(b"35 - i;"),
        as_done(
            b";",
            Expression::Operation(
                Operator::Subtract,
                Box::new(Expression::Operand(Operand::I64(35))),
                Box::new(Expression::Operand(Operand::VarSubstitution(as_name("i"))))
            )
        )
    );
    assert_eq!(
        expression(b"foo * bar;"),
        as_done(
            b";",
            Expression::Operation(
                Operator::Multiply,
                Box::new(Expression::Operand(Operand::VarSubstitution(as_name("foo")))),
                Box::new(Expression::Operand(Operand::VarSubstitution(as_name("bar")))),
            )
        )
    );
    assert_eq!(
        expression(b"f(5) + bar * fn(1, 2, -3, f(i, foo / 3, 9) - -3);"),
        as_done(
            b";",
            Expression::Operation(
                Operator::Add,
                Box::new(Expression::Operand(Operand::FnApplication(
                    as_name("f"),
                    vec![Expression::Operand(Operand::I64(5))]
                ))),
                Box::new(Expression::Operation(
                    Operator::Multiply,
                    Box::new(Expression::Operand(Operand::VarSubstitution(as_name("bar")))),
                    Box::new(Expression::Operand(Operand::FnApplication(
                        as_name("fn"),
                        vec![
                            Expression::Operand(Operand::I64(1)),
                            Expression::Operand(Operand::I64(2)),
                            Expression::Operand(Operand::I64(-3)),
                            Expression::Operation(
                                Operator::Subtract,
                                Box::new(Expression::Operand(Operand::FnApplication(
                                    as_name("f"),
                                    vec![
                                        Expression::Operand(Operand::VarSubstitution(
                                            as_name("i"),
                                        )),
                                        Expression::Operation(
                                            Operator::Divide,
                                            Box::new(Expression::Operand(Operand::VarSubstitution(
                                                as_name("foo"),
                                            ))),
                                            Box::new(Expression::Operand(Operand::I64(3))),
                                        ),
                                        Expression::Operand(Operand::I64(9)),
                                    ],
                                ))),
                                Box::new(Expression::Operand(Operand::I64(-3))),
                            ),
                        ]
                    )))
                ))
            )
        )
    );
}

#[test]
fn expression_operator_test() {
    assert_eq!(operator(b"+"), as_done(b"", Operator::Add));
    assert_eq!(operator(b"-"), as_done(b"", Operator::Subtract));
    assert_eq!(operator(b"*"), as_done(b"", Operator::Multiply));
    assert_eq!(operator(b"/"), as_done(b"", Operator::Divide));
    assert_eq!(operator(b"^"), Err(Error::Operator));
    assert_eq!(operator(b"+ "), as_done(b" ", Operator::Add));
}

#[test]
fn expression_operand_test() {
    assert_eq!(operand(b"1"), as_done(b"", Operand::I64(1)));
    assert_eq!(operand(b"794"), as_done(b"", Operand::I64(794)));
    assert_eq!(operand(b"-1"), as_done(b"", Operand::I64(-1)));
    assert_eq!(operand(b"-390"), as_done(b"", Operand::I64(-390)));

    assert_eq!(
        operand(b"f)"),
        as_done(b")", Operand::VarSubstitution(as_name("f")))
    );
    assert_eq!(
        operand(b"foo * 5"),
        as_done(b"* 5", Operand::VarSubstitution(as_name("foo")))
    );

    assert_eq!(
        operand(b"fn(k * 5)"),
        as_done(
            b"",
            Operand::FnApplication(
                as_name("fn"),
                vec![
                    Expression::Operation(
                        Operator::Multiply,
                        Box::new(Expression::Operand(Operand::VarSubstitution(as_name("k")))),
                        Box::new(Expression::Operand(Operand::I64(5))),
                    ),
                ]
            )
        )
    );
    assert_eq!(
        operand(b"j(3 + foo, l + 3 - 2)"),
        as_done(
            b"",
            Operand::FnApplication(
                as_name("j"),
                vec![
                    Expression::Operation(
                        Operator::Add,
                        Box::new(Expression::Operand(Operand::I64(3))),
                        Box::new(Expression::Operand(Operand::VarSubstitution(as_name("foo")))),
                    ),
                    Expression::Operation(
                        Operator::Subtract,
                        Box::new(Expression::Operation(
                            Operator::Add,
                            Box::new(Expression::Operand(Operand::VarSubstitution(as_name("l")))),
                            Box::new(Expression::Operand(Operand::I64(3))),
                        )),
                        Box::new(Expression::Operand(Operand::I64(2))),
                    ),
                ]
            )
        )
    );
}

#[test]
fn expression_i64_test() {
    assert_eq!(i64(b"1"), as_done(b"", 1));
    assert_eq!(i64(b"794"), as_done(b"", 794));
    assert_eq!(i64(b"-1"), as_done(b"", -1));
    assert_eq!(i64(b"-390"), as_done(b"", -390));
    assert_eq!(i64(b"a"), Err(Error::Integer));
}

#[test]
fn expression_variable_substitution_test() {
    assert_eq!(
        variable_substitution(b"i"),
        Err(Error::Incomplete)
    );
    assert_eq!(variable_substitution(b"i +"), as_done(b"+", as_name("i")));
    assert_eq!(
        variable_substitution(b"foo * 5"),
        as_done(b"* 5", as_name("foo"))
    );
    assert_eq!(
        variable_substitution(b"fn("),
        Err(Error::Variable)
    );
}

#[test]
fn expression_function_application_test() {
    assert_eq!(
        function_application(b"f"),
        Err(Error::Incomplete)
    );
    assert_eq!(
        function_application(b"f()"),
        as_done(b"", (as_name("f"), vec![]))
    );
    assert_eq!(
        function_application(b"f(5)"),
        as_done(
            b"",
            (as_name("f"), vec![Expression::Operand(Operand::I64(5))])
        )
    );
    assert_eq!(
        function_application(b"f(5, 6)"),
        as_done(
            b"",
            (
                as_name("f"),
                vec![
                    Expression::Operand(Operand::I64(5)),
                    Expression::Operand(Operand::I64(6)),
                ]
            )
        )
    );
    assert_eq!(
        function_application(b"f(a)"),
        as_done(
            b"",
            (
                as_name("f"),
                vec![Expression::Operand(Operand::VarSubstitution(as_name("a")))]
            )
        )
    );
    assert_eq!(
        function_application(b"fn(i, j)"),
        as_done(
            b"",
            (
                as_name("fn"),
                vec![
                    Expression::Operand(Operand::VarSubstitution(as_name("i"))),
                    Expression::Operand(Operand::VarSubstitution(as_name("j"))),
                ]
            )
        )
    );
    assert_eq!(
        function_application(b"fn(k * 5)"),
        as_done(
            b"",
            (
                as_name("fn"),
                vec![
                    Expression::Operation(
                        Operator::Multiply,
                        Box::new(Expression::Operand(Operand::VarSubstitution(as_name("k")))),
                        Box::new(Expression::Operand(Operand::I64(5))),
                    ),
                ]
            )
        )
    );
    assert_eq!(
        function_application(b"fn(3 + foo, l + 3 - 2)"),
        as_done(
            b"",
            (
                as_name("fn"),
                vec![
                    Expression::Operation(
                        Operator::Add,
                        Box::new(Expression::Operand(Operand::I64(3))),
                        Box::new(Expression::Operand(Operand::VarSubstitution(as_name("foo")))),
                    ),
                    Expression::Operation(
                        Operator::Subtract,
                        Box::new(Expression::Operation(
                            Operator::Add,
                            Box::new(Expression::Operand(Operand::VarSubstitution(as_name("l")))),
                            Box::new(Expression::Operand(Operand::I64(3))),
                        )),
                        Box::new(Expression::Operand(Operand::I64(2))),
                    ),
                ]
            )
        )
    );
    assert_eq!(
        function_application(b"f +"),
        Err(Error::Token)
    );
}
