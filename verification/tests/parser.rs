use numbat::ast::{BinaryOperator, DimensionExpression, Expression, Number, Statement};
use numbat::parser::{parse, ParseErrorKind};

fn scalar(value: f64) -> Expression {
    Expression::Scalar(Number::from_literal(&format!("{}", value)).unwrap())
}

fn identifier(name: &str) -> Expression {
    Expression::Identifier(name.to_string())
}

fn negate(e: Expression) -> Expression {
    Expression::Negate(Box::new(e))
}

fn binop(lhs: Expression, op: BinaryOperator, rhs: Expression) -> Expression {
    Expression::BinaryOperator(op, Box::new(lhs), Box::new(rhs))
}

fn parse_as(inputs: &[&str], statement_expected: Statement) {
    for input in inputs {
        let statements = parse(input).expect("parse error");

        assert!(statements.len() == 1);
        let statement = &statements[0];

        assert_eq!(*statement, statement_expected);
    }
}

fn parse_as_expression(inputs: &[&str], expr_expected: Expression) {
    parse_as(inputs, Statement::Expression(expr_expected));
}

fn should_fail(inputs: &[&str]) {
    for input in inputs {
        assert!(parse(input).is_err());
    }
}

fn should_fail_with(inputs: &[&str], error_kind: ParseErrorKind) {
    for input in inputs {
        match parse(input) {
            Err(e) => {
                assert_eq!(*e.kind(), error_kind);
            }
            _ => {
                assert!(false);
            }
        }
    }
}

#[test]
fn parse_invalid_input() {
    should_fail(&["+", "->", "§"]);

    should_fail_with(
        &["1)", "(1))"],
        ParseErrorKind::TrailingCharacters(")".into()),
    );
}

#[test]
fn parse_numbers() {
    parse_as_expression(&["1", "  1   "], scalar(1.0));

    should_fail(&["123..", "0..", ".0.", ".", ". 2", ".."]);
}

#[test]
fn parse_identifiers() {
    parse_as_expression(&["foo", "  foo   "], identifier("foo"));
    parse_as_expression(&["foo_bar"], identifier("foo_bar"));
    parse_as_expression(&["MeineSchöneVariable"], identifier("MeineSchöneVariable"));
    parse_as_expression(&["°"], identifier("°"));
}

#[test]
fn parse_negation() {
    parse_as_expression(&["-1", "  - 1   "], negate(scalar(1.0)));
    parse_as_expression(&["--1", " -  - 1   "], negate(negate(scalar(1.0))));
    parse_as_expression(&["-x", " - x"], negate(identifier("x")));

    parse_as_expression(
        &["-1 + 2"],
        binop(negate(scalar(1.0)), BinaryOperator::Add, scalar(2.0)),
    );
}

#[test]
fn parse_addition_subtraction() {
    parse_as_expression(
        &["1+2", "  1   +  2    "],
        binop(scalar(1.0), BinaryOperator::Add, scalar(2.0)),
    );

    // Minus should be left-associative
    parse_as_expression(
        &["1-2-3"],
        binop(
            binop(scalar(1.0), BinaryOperator::Sub, scalar(2.0)),
            BinaryOperator::Sub,
            scalar(3.0),
        ),
    );
}

#[test]
fn parse_multiplication_division() {
    parse_as_expression(
        &["1*2", "  1   *  2    ", "1 · 2", "1 × 2"],
        binop(scalar(1.0), BinaryOperator::Mul, scalar(2.0)),
    );

    parse_as_expression(
        &["1/2", "1 per 2", "1÷2"],
        binop(scalar(1.0), BinaryOperator::Div, scalar(2.0)),
    );

    should_fail(&["1*@", "1*", "1 per", "÷", "×"]);
}

#[test]
fn parse_conversion() {
    parse_as_expression(
        &["1->2", "1→2"],
        binop(scalar(1.0), BinaryOperator::ConvertTo, scalar(2.0)),
    );

    // Conversion is left-associative
    parse_as_expression(
        &["1→2→3"],
        binop(
            binop(scalar(1.0), BinaryOperator::ConvertTo, scalar(2.0)),
            BinaryOperator::ConvertTo,
            scalar(3.0),
        ),
    );

    should_fail(&["1 - > 2", "1 -> -> 2"]);
}

#[test]
fn parse_grouping() {
    parse_as_expression(
        &["1*(2+3)", "1 * ( 2 + 3 )"],
        binop(
            scalar(1.0),
            BinaryOperator::Mul,
            binop(scalar(2.0), BinaryOperator::Add, scalar(3.0)),
        ),
    );

    should_fail(&["1 * (2 + 3", "2 + 3)"]);
}

#[test]
fn parse_variable_declaration() {
    parse_as(
        &["let foo = 1", "let foo=1"],
        Statement::DeclareVariable("foo".into(), scalar(1.0)),
    );

    should_fail_with(
        &["let (foo)=2", "let 2=3", "let = 2"],
        ParseErrorKind::ExpectedIdentifierAfterLet,
    );

    should_fail_with(
        &["let foo", "let foo 2"],
        ParseErrorKind::ExpectedEqualAfterLetIdentifier,
    );
}

#[test]
fn parse_dimension_declaration() {
    parse_as(
        &["dimension px"],
        Statement::DeclareDimension("px".into(), None),
    );

    parse_as(
        &[
            "dimension area = length * length",
            "dimension area = length × length",
        ],
        Statement::DeclareDimension(
            "area".into(),
            Some(DimensionExpression::Multiply(
                Box::new(DimensionExpression::Dimension("length".into())),
                Box::new(DimensionExpression::Dimension("length".into())),
            )),
        ),
    );

    parse_as(
        &["dimension speed = length / time"],
        Statement::DeclareDimension(
            "speed".into(),
            Some(DimensionExpression::Divide(
                Box::new(DimensionExpression::Dimension("length".into())),
                Box::new(DimensionExpression::Dimension("time".into())),
            )),
        ),
    );

    parse_as(
        &["dimension area = length^2"],
        Statement::DeclareDimension(
            "area".into(),
            Some(DimensionExpression::Power(
                Box::new(DimensionExpression::Dimension("length".into())),
                2,
            )),
        ),
    );

    parse_as(
        &["dimension energy = mass * length^2 / time^2"],
        Statement::DeclareDimension(
            "energy".into(),
            Some(DimensionExpression::Divide(
                Box::new(DimensionExpression::Multiply(
                    Box::new(DimensionExpression::Dimension("mass".into())),
                    Box::new(DimensionExpression::Power(
                        Box::new(DimensionExpression::Dimension("length".into())),
                        2,
                    )),
                )),
                Box::new(DimensionExpression::Power(
                    Box::new(DimensionExpression::Dimension("time".into())),
                    2,
                )),
            )),
        ),
    );
}
