use numbat::ast::{BinaryOperator, DimensionExpression, Expression, Number, Statement};
use numbat::parser::{parse, try_parse, Failure, ParseErrorKind, Unsupported};

fn num(text: &str) -> Expression {
    Expression::Scalar(Number::from_literal(text).unwrap())
}

fn ident(name: &str) -> Expression {
    Expression::Identifier(name.to_string())
}

fn bin(lhs: Expression, op: BinaryOperator, rhs: Expression) -> Expression {
    Expression::BinaryOperator(op, Box::new(lhs), Box::new(rhs))
}

fn neg(e: Expression) -> Expression {
    Expression::Negate(Box::new(e))
}

fn single_expression(input: &str) -> Expression {
    let mut statements = parse(input).expect("parse error");
    assert_eq!(statements.len(), 1);
    match statements.pop().unwrap() {
        Statement::Expression(e) => e,
        other => panic!("not an expression: {:?}", other),
    }
}

fn error_kind(input: &str) -> ParseErrorKind {
    match parse(input) {
        Err(e) => e.into_kind(),
        Ok(s) => panic!("parsed: {:?}", s),
    }
}

fn unsupported(input: &str) -> Unsupported {
    match try_parse(input) {
        Err(Failure::Unsupported(u)) => u,
        other => panic!("not unsupported: {:?}", other),
    }
}

#[test]
fn additive_operators_associate_to_the_left() {
    assert_eq!(
        single_expression("a + 2 - c"),
        bin(bin(ident("a"), BinaryOperator::Add, num("2")), BinaryOperator::Sub, ident("c"))
    );
}

#[test]
fn multiplicative_operators_associate_to_the_left() {
    assert_eq!(
        single_expression("1 / 2 * 3"),
        bin(bin(num("1"), BinaryOperator::Div, num("2")), BinaryOperator::Mul, num("3"))
    );
}

#[test]
fn multiplication_binds_tighter_than_addition() {
    assert_eq!(
        single_expression("1 + 2 * 3"),
        bin(num("1"), BinaryOperator::Add, bin(num("2"), BinaryOperator::Mul, num("3")))
    );
    assert_eq!(
        single_expression("1 * 2 - 3"),
        bin(bin(num("1"), BinaryOperator::Mul, num("2")), BinaryOperator::Sub, num("3"))
    );
}

#[test]
fn conversion_binds_loosest() {
    assert_eq!(
        single_expression("x -> y / z"),
        bin(ident("x"), BinaryOperator::ConvertTo, bin(ident("y"), BinaryOperator::Div, ident("z")))
    );
    assert_eq!(
        single_expression("x + y → z"),
        bin(bin(ident("x"), BinaryOperator::Add, ident("y")), BinaryOperator::ConvertTo, ident("z"))
    );
}

#[test]
fn negation_binds_tightest() {
    assert_eq!(
        single_expression("-1 * 2"),
        bin(neg(num("1")), BinaryOperator::Mul, num("2"))
    );
    assert_eq!(
        single_expression("-x -> y"),
        bin(neg(ident("x")), BinaryOperator::ConvertTo, ident("y"))
    );
}

#[test]
fn parentheses_group() {
    assert_eq!(
        single_expression("2 / (3 - 4 * 5)"),
        bin(
            num("2"),
            BinaryOperator::Div,
            bin(num("3"), BinaryOperator::Sub, bin(num("4"), BinaryOperator::Mul, num("5")))
        )
    );
    assert_eq!(single_expression("((7))"), num("7"));
}

#[test]
fn decimal_literals_keep_their_text() {
    match single_expression("12.50") {
        Expression::Scalar(n) => assert_eq!(n.literal(), "12.50"),
        other => panic!("not a number: {:?}", other),
    }
    match single_expression("3.") {
        Expression::Scalar(n) => assert_eq!(n.literal(), "3."),
        other => panic!("not a number: {:?}", other),
    }
}

#[test]
fn number_literals_are_checked() {
    assert!(Number::from_literal("1.5").is_some());
    assert!(Number::from_literal("007").is_some());
    assert!(Number::from_literal("1.").is_some());
    assert!(Number::from_literal(".5").is_none());
    assert!(Number::from_literal("").is_none());
    assert!(Number::from_literal("1e3").is_none());
    assert!(Number::from_literal("1.2.3").is_none());
    assert!(Number::from_literal("-1").is_none());
}

#[test]
fn unicode_letters_and_numerals_make_identifiers() {
    assert_eq!(single_expression("µ"), ident("µ"));
    assert_eq!(single_expression("x²"), ident("x²"));
    assert_eq!(single_expression("x1_b"), ident("x1_b"));
}

#[test]
fn a_number_then_letters_leaves_trailing_characters() {
    assert_eq!(error_kind("1x"), ParseErrorKind::TrailingCharacters("x".into()));
}

#[test]
fn every_error_kind_has_an_input() {
    let e = parse("1 + §").unwrap_err();
    assert_eq!(*e.kind(), ParseErrorKind::TokenizerUnexpectedCharacter('§'));
    assert_eq!(e.span().position, 4);
    assert_eq!(e.span().line, 0);

    let e = parse("2 * /").unwrap_err();
    assert_eq!(*e.kind(), ParseErrorKind::ExpectedPrimary);
    assert_eq!(e.span().position, 4);

    // The error points at the token after the one that should be `)`.
    let e = parse("(1 2").unwrap_err();
    assert_eq!(*e.kind(), ParseErrorKind::MissingClosingParen);
    assert_eq!(e.span().position, 4);

    let e = parse("1 2").unwrap_err();
    assert_eq!(*e.kind(), ParseErrorKind::TrailingCharacters("2".into()));
    assert_eq!(e.span().position, 2);

    let e = parse("let 3 = 4").unwrap_err();
    assert_eq!(*e.kind(), ParseErrorKind::ExpectedIdentifierAfterLet);
    assert_eq!(e.span().position, 4);

    let e = parse("let x + 4").unwrap_err();
    assert_eq!(*e.kind(), ParseErrorKind::ExpectedEqualAfterLetIdentifier);
    assert_eq!(e.span().position, 6);
}

#[test]
fn errors_on_later_lines_carry_the_line() {
    let e = parse("1\n2\n)").unwrap_err();
    assert_eq!(*e.kind(), ParseErrorKind::ExpectedPrimary);
    assert_eq!(e.span().line, 2);
    assert_eq!(e.span().position, 4);
}

#[test]
fn statements_are_separated_by_newlines() {
    let statements = parse("let x = 1\nx * 2\nlist\nquit\nexit").unwrap();
    assert_eq!(
        statements,
        vec![
            Statement::DeclareVariable("x".into(), num("1")),
            Statement::Expression(bin(ident("x"), BinaryOperator::Mul, num("2"))),
            Statement::Command(numbat::ast::Command::List),
            Statement::Command(numbat::ast::Command::Exit),
            Statement::Command(numbat::ast::Command::Exit),
        ]
    );
    assert_eq!(parse("1\n").unwrap().len(), 1);
    assert_eq!(parse("").unwrap().len(), 0);
    assert_eq!(parse("   ").unwrap().len(), 0);
    assert_eq!(error_kind("1\n\n2"), ParseErrorKind::ExpectedPrimary);
}

#[test]
fn dimension_exponents() {
    assert_eq!(
        parse("dimension a = b^-3").unwrap(),
        vec![Statement::DeclareDimension(
            "a".into(),
            Some(DimensionExpression::Power(
                Box::new(DimensionExpression::Dimension("b".into())),
                -3
            ))
        )]
    );
    assert_eq!(
        parse("dimension a = b^--2147483647").unwrap(),
        vec![Statement::DeclareDimension(
            "a".into(),
            Some(DimensionExpression::Power(
                Box::new(DimensionExpression::Dimension("b".into())),
                2147483647
            ))
        )]
    );
}

#[test]
fn unfinished_forms_are_reported() {
    assert_eq!(unsupported("dimension"), Unsupported::DimensionNameMissing);
    assert_eq!(unsupported("dimension 2"), Unsupported::DimensionNameMissing);
    assert_eq!(unsupported("dimension a = 2"), Unsupported::DimensionIdentifierMissing);
    assert_eq!(unsupported("dimension a = b * "), Unsupported::DimensionIdentifierMissing);
    assert_eq!(unsupported("dimension a = b^"), Unsupported::ExponentMissing);
    assert_eq!(unsupported("dimension a = b^x"), Unsupported::ExponentMissing);
    assert_eq!(unsupported("dimension a = b^2.5"), Unsupported::InvalidExponent);
    assert_eq!(unsupported("dimension a = b^2147483648"), Unsupported::InvalidExponent);
}

#[test]
fn try_parse_agrees_with_parse() {
    for input in ["1 + 2", "let y = (3)", "1 +", "x )"] {
        match (parse(input), try_parse(input)) {
            (Ok(a), Ok(b)) => assert_eq!(a, b),
            (Err(a), Err(Failure::Error(b))) => assert_eq!(a.kind(), b.kind()),
            _ => panic!("disagree on {:?}", input),
        }
    }
}

#[test]
fn parse_checked_reports_unfinished_forms() {
    assert!(numbat::parser::parse_checked("dimension").is_none());
    assert!(numbat::parser::parse_checked("dimension a = b^x").is_none());
    match numbat::parser::parse_checked("1 +") {
        Some(Err(e)) => assert_eq!(*e.kind(), ParseErrorKind::ExpectedPrimary),
        other => panic!("unexpected: {:?}", other),
    }
    assert_eq!(numbat::parser::parse_checked("2").unwrap().unwrap(), vec![Statement::Expression(num("2"))]);
}

#[test]
fn lines_parse_one_after_another() {
    for (a, b) in [("1 + 2", "x * y"), ("let z = 3", "list"), ("-q", "")] {
        let joined = format!("{}\n{}", a, b);
        let mut expected = parse(a).unwrap();
        expected.extend(parse(b).unwrap());
        assert_eq!(parse(&joined).unwrap(), expected);
    }
    // A failing second line makes the whole input fail in the same way.
    assert_eq!(error_kind("1\n2 +"), error_kind("2 +"));
    assert_eq!(error_kind("x\n)"), error_kind(")"));
}

#[test]
fn parentheses_only_group_a_line() {
    for s in ["1 - 2 * 3", "a -> b", "-(x)", "7"] {
        assert_eq!(single_expression(&format!("({})", s)), single_expression(s));
    }
}

#[test]
fn layout_does_not_change_the_parse() {
    assert_eq!(parse("1+2*x").unwrap(), parse("  1 +\t2 *   x ").unwrap());
    assert_eq!(error_kind("1+"), error_kind("  1   + "));
}

#[test]
fn assignment_without_let() {
    assert_eq!(
        parse("foo = 1").unwrap(),
        vec![Statement::DeclareVariable("foo".into(), num("1"))]
    );
    assert_eq!(
        parse("speed = d / t -> v").unwrap(),
        vec![Statement::DeclareVariable(
            "speed".into(),
            bin(
                bin(ident("d"), BinaryOperator::Div, ident("t")),
                BinaryOperator::ConvertTo,
                ident("v")
            )
        )]
    );
    assert_eq!(error_kind("x = y = 2"), ParseErrorKind::TrailingCharacters("=".into()));
    assert_eq!(error_kind("x ="), ParseErrorKind::ExpectedPrimary);
    assert_eq!(error_kind("1 = 2"), ParseErrorKind::TrailingCharacters("=".into()));
    assert_eq!(single_expression("foo"), ident("foo"));
}

#[test]
fn numbers_compare_by_value() {
    let n = |s: &str| Number::from_literal(s).unwrap();
    assert_eq!(n("1"), n("01"));
    assert_eq!(n("1"), n("1."));
    assert_eq!(n("1.50"), n("001.5"));
    assert_eq!(n("0"), n("0.000"));
    assert_ne!(n("1"), n("10"));
    assert_ne!(n("1.5"), n("1.05"));
    assert_ne!(n("0.1"), n("1"));
    assert_eq!(single_expression("01.0"), num("1"));
}
