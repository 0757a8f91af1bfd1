//! The grammar of the language, as spec functions over token sequences.
//!
//! Operator precedence, low to high: conversion, addition and subtraction,
//! multiplication and division, unary minus.
//!
//! ```txt
//! statement    →   command | assignment | declaration | expression
//! assignment   →   identifier "=" expression
//! command      →   "list" | "quit"
//! declaration  →   "let" identifier "=" expression
//!              |   "dimension" identifier ( "=" dimension_factor )?
//! expression   →   conversion
//! conversion   →   term ( "→" term ) *
//! term         →   factor ( ( "+" | "-") factor ) *
//! factor       →   unary ( ( "*" | "/") unary ) *
//! unary        →   "-" unary | primary
//! primary      →   number | identifier | "(" expression ")"
//! dimension_factor   →   dimension_power ( ( "*" | "/" ) dimension_power ) *
//! dimension_power    →   identifier ( "^" exponent )?
//! exponent           →   number | "-" exponent
//! ```
//!
//! Each function takes the tokens and a position, and gives what was parsed
//! together with the position after it, or the error. Where a loop continues
//! from the position that a sub-parse returned, the spec goes on only if that
//! position moved forward; a successful sub-parse always consumes a token (the
//! parser's contracts state it), so the other branch is never taken.
use vstd::prelude::*;

use crate::ast::{BinaryOperator, Command, SpecDimensionExpression, SpecExpression, SpecStatement};
use crate::parser::{SpecFailure, SpecParseError, SpecParseErrorKind, Unsupported};
use crate::span::Span;
use crate::tokenizer::{is_digit, SpecToken, TokenKind};

verus! {

/// The kind of the token at `p`; past the end, as at the end, `Eof`.
pub open spec fn kind_at(toks: Seq<SpecToken>, p: int) -> TokenKind {
    if 0 <= p < toks.len() {
        toks[p].kind
    } else {
        TokenKind::Eof
    }
}

/// Where the token at `p` starts; past the end, the start of the input.
pub open spec fn span_of(toks: Seq<SpecToken>, p: int) -> Span {
    if 0 <= p < toks.len() {
        toks[p].span
    } else {
        Span { line: 0, position: 0 }
    }
}

/// A token kind with which a primary expression starts.
pub open spec fn is_primary_start(k: TokenKind) -> bool {
    k == TokenKind::Number || k == TokenKind::Identifier || k == TokenKind::LeftParen
}

/// The position after the token at `p`: the parser never moves past `Eof`.
pub open spec fn advance_pos(toks: Seq<SpecToken>, p: int) -> int {
    if kind_at(toks, p) == TokenKind::Eof {
        p
    } else {
        p + 1
    }
}

pub open spec fn error_at(kind: SpecParseErrorKind, span: Span) -> SpecParseError {
    SpecParseError { kind, span }
}

pub open spec fn binary(op: BinaryOperator, lhs: SpecExpression, rhs: SpecExpression) -> SpecExpression {
    SpecExpression::BinaryOperator(op, Box::new(lhs), Box::new(rhs))
}

// ---------------------------------------------------------------------------
// Expressions
// ---------------------------------------------------------------------------

pub open spec fn spec_expression(toks: Seq<SpecToken>, p: int) -> Result<
    (SpecExpression, int),
    SpecParseError,
>
    decreases toks.len() - p, 7int,
{
    spec_conversion(toks, p)
}

pub open spec fn spec_conversion(toks: Seq<SpecToken>, p: int) -> Result<
    (SpecExpression, int),
    SpecParseError,
>
    decreases toks.len() - p, 6int,
{
    match spec_term(toks, p) {
        Ok((lhs, q)) => if p < q < toks.len() {
            spec_conversion_rest(toks, lhs, q)
        } else {
            Ok((lhs, q))
        },
        Err(e) => Err(e),
    }
}

/// The loop of `conversion`: `lhs` was parsed, the next token is at `p`.
pub open spec fn spec_conversion_rest(toks: Seq<SpecToken>, lhs: SpecExpression, p: int) -> Result<
    (SpecExpression, int),
    SpecParseError,
>
    decreases toks.len() - p, 0int,
{
    if kind_at(toks, p) == TokenKind::Arrow {
        match spec_term(toks, p + 1) {
            Ok((rhs, q)) => {
                let e = binary(BinaryOperator::ConvertTo, lhs, rhs);
                if p < q < toks.len() {
                    spec_conversion_rest(toks, e, q)
                } else {
                    Ok((e, q))
                }
            },
            Err(e) => Err(e),
        }
    } else {
        Ok((lhs, p))
    }
}

pub open spec fn spec_term(toks: Seq<SpecToken>, p: int) -> Result<
    (SpecExpression, int),
    SpecParseError,
>
    decreases toks.len() - p, 5int,
{
    match spec_factor(toks, p) {
        Ok((lhs, q)) => if p < q < toks.len() {
            spec_term_rest(toks, lhs, q)
        } else {
            Ok((lhs, q))
        },
        Err(e) => Err(e),
    }
}

/// The loop of `term`: `lhs` was parsed, the next token is at `p`.
pub open spec fn spec_term_rest(toks: Seq<SpecToken>, lhs: SpecExpression, p: int) -> Result<
    (SpecExpression, int),
    SpecParseError,
>
    decreases toks.len() - p, 0int,
{
    let k = kind_at(toks, p);
    if k == TokenKind::Plus || k == TokenKind::Minus {
        let op = if k == TokenKind::Plus {
            BinaryOperator::Add
        } else {
            BinaryOperator::Sub
        };
        match spec_factor(toks, p + 1) {
            Ok((rhs, q)) => {
                let e = binary(op, lhs, rhs);
                if p < q < toks.len() {
                    spec_term_rest(toks, e, q)
                } else {
                    Ok((e, q))
                }
            },
            Err(e) => Err(e),
        }
    } else {
        Ok((lhs, p))
    }
}

pub open spec fn spec_factor(toks: Seq<SpecToken>, p: int) -> Result<
    (SpecExpression, int),
    SpecParseError,
>
    decreases toks.len() - p, 4int,
{
    match spec_unary(toks, p) {
        Ok((lhs, q)) => if p < q < toks.len() {
            spec_factor_rest(toks, lhs, q)
        } else {
            Ok((lhs, q))
        },
        Err(e) => Err(e),
    }
}

/// The loop of `factor`: `lhs` was parsed, the next token is at `p`.
pub open spec fn spec_factor_rest(toks: Seq<SpecToken>, lhs: SpecExpression, p: int) -> Result<
    (SpecExpression, int),
    SpecParseError,
>
    decreases toks.len() - p, 0int,
{
    let k = kind_at(toks, p);
    if k == TokenKind::Multiply || k == TokenKind::Divide {
        let op = if k == TokenKind::Multiply {
            BinaryOperator::Mul
        } else {
            BinaryOperator::Div
        };
        match spec_unary(toks, p + 1) {
            Ok((rhs, q)) => {
                let e = binary(op, lhs, rhs);
                if p < q < toks.len() {
                    spec_factor_rest(toks, e, q)
                } else {
                    Ok((e, q))
                }
            },
            Err(e) => Err(e),
        }
    } else {
        Ok((lhs, p))
    }
}

pub open spec fn spec_unary(toks: Seq<SpecToken>, p: int) -> Result<
    (SpecExpression, int),
    SpecParseError,
>
    decreases toks.len() - p, 3int,
{
    if kind_at(toks, p) == TokenKind::Minus {
        match spec_unary(toks, p + 1) {
            Ok((e, q)) => Ok((SpecExpression::Negate(Box::new(e)), q)),
            Err(e) => Err(e),
        }
    } else {
        spec_primary(toks, p)
    }
}

pub open spec fn spec_primary(toks: Seq<SpecToken>, p: int) -> Result<
    (SpecExpression, int),
    SpecParseError,
>
    decreases toks.len() - p, 2int,
{
    let k = kind_at(toks, p);
    if k == TokenKind::Number {
        Ok((SpecExpression::Scalar(toks[p].lexeme), p + 1))
    } else if k == TokenKind::Identifier {
        Ok((SpecExpression::Identifier(toks[p].lexeme), p + 1))
    } else if k == TokenKind::LeftParen {
        match spec_expression(toks, p + 1) {
            Ok((inner, q)) => if kind_at(toks, q) == TokenKind::RightParen {
                Ok((inner, q + 1))
            } else {
                // The error points at the token after the one that is not `)`.
                Err(
                    error_at(
                        SpecParseErrorKind::MissingClosingParen,
                        span_of(toks, advance_pos(toks, q)),
                    ),
                )
            },
            Err(e) => Err(e),
        }
    } else {
        Err(error_at(SpecParseErrorKind::ExpectedPrimary, span_of(toks, p)))
    }
}

// ---------------------------------------------------------------------------
// Dimension expressions
// ---------------------------------------------------------------------------

pub open spec fn all_digits(s: Seq<char>) -> bool {
    forall|i: int| 0 <= i < s.len() ==> is_digit(#[trigger] s[i])
}

/// The value of a string of decimal digits.
pub open spec fn decimal_value(s: Seq<char>) -> int
    decreases s.len(),
{
    if s.len() == 0 {
        0
    } else {
        10 * decimal_value(s.drop_last()) + (s.last() as int - '0' as int)
    }
}

/// The integer that a number token stands for as an exponent: its digits
/// read in base 10, where it has no point and fits in an `i32`.
pub open spec fn exponent_value(lexeme: Seq<char>) -> Option<int> {
    if lexeme.len() > 0 && all_digits(lexeme) && decimal_value(lexeme) <= i32::MAX {
        Some(decimal_value(lexeme))
    } else {
        None
    }
}

pub open spec fn spec_dimension_exponent(toks: Seq<SpecToken>, p: int) -> Result<
    (int, int),
    Unsupported,
>
    decreases toks.len() - p,
{
    let k = kind_at(toks, p);
    if k == TokenKind::Number {
        match exponent_value(toks[p].lexeme) {
            Some(n) => Ok((n, p + 1)),
            None => Err(Unsupported::InvalidExponent),
        }
    } else if k == TokenKind::Minus {
        match spec_dimension_exponent(toks, p + 1) {
            Ok((n, q)) => Ok((-n, q)),
            Err(u) => Err(u),
        }
    } else {
        Err(Unsupported::ExponentMissing)
    }
}

pub open spec fn spec_dimension_identifier(toks: Seq<SpecToken>, p: int) -> Result<
    (SpecDimensionExpression, int),
    Unsupported,
> {
    if kind_at(toks, p) == TokenKind::Identifier {
        Ok((SpecDimensionExpression::Dimension(toks[p].lexeme), p + 1))
    } else {
        Err(Unsupported::DimensionIdentifierMissing)
    }
}

pub open spec fn spec_dimension_power(toks: Seq<SpecToken>, p: int) -> Result<
    (SpecDimensionExpression, int),
    Unsupported,
> {
    match spec_dimension_identifier(toks, p) {
        Ok((base, q)) => if kind_at(toks, q) == TokenKind::Power {
            match spec_dimension_exponent(toks, q + 1) {
                Ok((n, r)) => Ok((SpecDimensionExpression::Power(Box::new(base), n), r)),
                Err(u) => Err(u),
            }
        } else {
            Ok((base, q))
        },
        Err(u) => Err(u),
    }
}

/// The loop of `dimension_factor`: `lhs` was parsed, the next token is at `p`.
pub open spec fn spec_dimension_factor_rest(
    toks: Seq<SpecToken>,
    lhs: SpecDimensionExpression,
    p: int,
) -> Result<(SpecDimensionExpression, int), Unsupported>
    decreases toks.len() - p,
{
    let k = kind_at(toks, p);
    if k == TokenKind::Multiply || k == TokenKind::Divide {
        match spec_dimension_power(toks, p + 1) {
            Ok((rhs, q)) => {
                let e = if k == TokenKind::Multiply {
                    SpecDimensionExpression::Multiply(Box::new(lhs), Box::new(rhs))
                } else {
                    SpecDimensionExpression::Divide(Box::new(lhs), Box::new(rhs))
                };
                if p < q < toks.len() {
                    spec_dimension_factor_rest(toks, e, q)
                } else {
                    Ok((e, q))
                }
            },
            Err(u) => Err(u),
        }
    } else {
        Ok((lhs, p))
    }
}

pub open spec fn spec_dimension_factor(toks: Seq<SpecToken>, p: int) -> Result<
    (SpecDimensionExpression, int),
    Unsupported,
> {
    match spec_dimension_power(toks, p) {
        Ok((lhs, q)) => spec_dimension_factor_rest(toks, lhs, q),
        Err(u) => Err(u),
    }
}

pub open spec fn spec_dimension_expression(toks: Seq<SpecToken>, p: int) -> Result<
    (SpecDimensionExpression, int),
    Unsupported,
> {
    spec_dimension_factor(toks, p)
}

// ---------------------------------------------------------------------------
// Statements
// ---------------------------------------------------------------------------

pub open spec fn spec_statement(toks: Seq<SpecToken>, p: int) -> Result<
    (SpecStatement, int),
    SpecFailure,
> {
    let k = kind_at(toks, p);
    if k == TokenKind::Exit {
        Ok((SpecStatement::Command(Command::Exit), p + 1))
    } else if k == TokenKind::List {
        Ok((SpecStatement::Command(Command::List), p + 1))
    } else if k == TokenKind::Let {
        if kind_at(toks, p + 1) == TokenKind::Identifier {
            if kind_at(toks, p + 2) == TokenKind::Equal {
                match spec_expression(toks, p + 3) {
                    Ok((e, q)) => Ok((SpecStatement::DeclareVariable(toks[p + 1].lexeme, e), q)),
                    Err(e) => Err(SpecFailure::Error(e)),
                }
            } else {
                Err(
                    SpecFailure::Error(
                        error_at(
                            SpecParseErrorKind::ExpectedEqualAfterLetIdentifier,
                            span_of(toks, p + 2),
                        ),
                    ),
                )
            }
        } else {
            Err(
                SpecFailure::Error(
                    error_at(SpecParseErrorKind::ExpectedIdentifierAfterLet, span_of(toks, p + 1)),
                ),
            )
        }
    } else if k == TokenKind::Dimension {
        if kind_at(toks, p + 1) == TokenKind::Identifier {
            let name = toks[p + 1].lexeme;
            if kind_at(toks, p + 2) == TokenKind::Equal {
                match spec_dimension_expression(toks, p + 3) {
                    Ok((d, q)) => Ok((SpecStatement::DeclareDimension(name, Some(d)), q)),
                    Err(u) => Err(SpecFailure::Unsupported(u)),
                }
            } else {
                Ok((SpecStatement::DeclareDimension(name, None), p + 2))
            }
        } else {
            Err(SpecFailure::Unsupported(Unsupported::DimensionNameMissing))
        }
    } else if k == TokenKind::Identifier && kind_at(toks, p + 1) == TokenKind::Equal {
        match spec_expression(toks, p + 2) {
            Ok((e, q)) => Ok((SpecStatement::DeclareVariable(toks[p].lexeme, e), q)),
            Err(e) => Err(SpecFailure::Error(e)),
        }
    } else {
        match spec_expression(toks, p) {
            Ok((e, q)) => Ok((SpecStatement::Expression(e), q)),
            Err(e) => Err(SpecFailure::Error(e)),
        }
    }
}

/// The statements from position `p` on: separated by newlines, up to `Eof`.
pub open spec fn spec_statements(toks: Seq<SpecToken>, p: int) -> Result<
    Seq<SpecStatement>,
    SpecFailure,
>
    decreases toks.len() - p,
{
    if kind_at(toks, p) == TokenKind::Eof {
        Ok(seq![])
    } else {
        match spec_statement(toks, p) {
            Ok((s, q)) => {
                let k = kind_at(toks, q);
                if k == TokenKind::Newline {
                    if p <= q {
                        match spec_statements(toks, q + 1) {
                            Ok(rest) => Ok(seq![s] + rest),
                            Err(f) => Err(f),
                        }
                    } else {
                        Ok(seq![s])
                    }
                } else if k == TokenKind::Eof {
                    Ok(seq![s])
                } else {
                    Err(
                        SpecFailure::Error(
                            error_at(
                                SpecParseErrorKind::TrailingCharacters(toks[q].lexeme),
                                span_of(toks, q),
                            ),
                        ),
                    )
                }
            },
            Err(f) => Err(f),
        }
    }
}

pub open spec fn prepend_statements(
    prefix: Seq<SpecStatement>,
    r: Result<Seq<SpecStatement>, SpecFailure>,
) -> Result<Seq<SpecStatement>, SpecFailure> {
    match r {
        Ok(rest) => Ok(prefix + rest),
        Err(f) => Err(f),
    }
}

// ---------------------------------------------------------------------------
// Progress: a successful parse consumes tokens
// ---------------------------------------------------------------------------

/// An expression that parses consumes at least one token.
pub proof fn lemma_expression_progress(toks: Seq<SpecToken>, p: int)
    ensures
        spec_expression(toks, p) matches Ok((_, q)) ==> p < q,
    decreases toks.len() - p, 7int,
{
    lemma_conversion_progress(toks, p);
}

pub proof fn lemma_conversion_progress(toks: Seq<SpecToken>, p: int)
    ensures
        spec_conversion(toks, p) matches Ok((_, q)) ==> p < q,
    decreases toks.len() - p, 6int,
{
    lemma_term_progress(toks, p);
    if let Ok((lhs, q)) = spec_term(toks, p) {
        if p < q < toks.len() {
            lemma_conversion_rest_progress(toks, lhs, q);
        }
    }
}

pub proof fn lemma_conversion_rest_progress(toks: Seq<SpecToken>, lhs: SpecExpression, p: int)
    ensures
        spec_conversion_rest(toks, lhs, p) matches Ok((_, q)) ==> p <= q,
    decreases toks.len() - p, 0int,
{
    if kind_at(toks, p) == TokenKind::Arrow {
        lemma_term_progress(toks, p + 1);
        if let Ok((rhs, q)) = spec_term(toks, p + 1) {
            if p < q < toks.len() {
                lemma_conversion_rest_progress(
                    toks,
                    binary(BinaryOperator::ConvertTo, lhs, rhs),
                    q,
                );
            }
        }
    }
}

pub proof fn lemma_term_progress(toks: Seq<SpecToken>, p: int)
    ensures
        spec_term(toks, p) matches Ok((_, q)) ==> p < q,
    decreases toks.len() - p, 5int,
{
    lemma_factor_progress(toks, p);
    if let Ok((lhs, q)) = spec_factor(toks, p) {
        if p < q < toks.len() {
            lemma_term_rest_progress(toks, lhs, q);
        }
    }
}

pub proof fn lemma_term_rest_progress(toks: Seq<SpecToken>, lhs: SpecExpression, p: int)
    ensures
        spec_term_rest(toks, lhs, p) matches Ok((_, q)) ==> p <= q,
    decreases toks.len() - p, 0int,
{
    let k = kind_at(toks, p);
    if k == TokenKind::Plus || k == TokenKind::Minus {
        let op = if k == TokenKind::Plus {
            BinaryOperator::Add
        } else {
            BinaryOperator::Sub
        };
        lemma_factor_progress(toks, p + 1);
        if let Ok((rhs, q)) = spec_factor(toks, p + 1) {
            if p < q < toks.len() {
                lemma_term_rest_progress(toks, binary(op, lhs, rhs), q);
            }
        }
    }
}

pub proof fn lemma_factor_progress(toks: Seq<SpecToken>, p: int)
    ensures
        spec_factor(toks, p) matches Ok((_, q)) ==> p < q,
    decreases toks.len() - p, 4int,
{
    lemma_unary_progress(toks, p);
    if let Ok((lhs, q)) = spec_unary(toks, p) {
        if p < q < toks.len() {
            lemma_factor_rest_progress(toks, lhs, q);
        }
    }
}

pub proof fn lemma_factor_rest_progress(toks: Seq<SpecToken>, lhs: SpecExpression, p: int)
    ensures
        spec_factor_rest(toks, lhs, p) matches Ok((_, q)) ==> p <= q,
    decreases toks.len() - p, 0int,
{
    let k = kind_at(toks, p);
    if k == TokenKind::Multiply || k == TokenKind::Divide {
        let op = if k == TokenKind::Multiply {
            BinaryOperator::Mul
        } else {
            BinaryOperator::Div
        };
        lemma_unary_progress(toks, p + 1);
        if let Ok((rhs, q)) = spec_unary(toks, p + 1) {
            if p < q < toks.len() {
                lemma_factor_rest_progress(toks, binary(op, lhs, rhs), q);
            }
        }
    }
}

pub proof fn lemma_unary_progress(toks: Seq<SpecToken>, p: int)
    ensures
        spec_unary(toks, p) matches Ok((_, q)) ==> p < q,
    decreases toks.len() - p, 3int,
{
    if kind_at(toks, p) == TokenKind::Minus {
        lemma_unary_progress(toks, p + 1);
    } else {
        lemma_primary_progress(toks, p);
    }
}

pub proof fn lemma_primary_progress(toks: Seq<SpecToken>, p: int)
    ensures
        spec_primary(toks, p) matches Ok((_, q)) ==> p < q,
    decreases toks.len() - p, 2int,
{
    if kind_at(toks, p) == TokenKind::LeftParen {
        lemma_expression_progress(toks, p + 1);
    }
}

} // verus!
