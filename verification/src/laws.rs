//! Laws of the grammar: precedence, associativity and grouping, stated over
//! the spec functions that the parser's contracts use.
use vstd::prelude::*;

use crate::ast::{BinaryOperator, SpecDimensionExpression, SpecExpression, SpecStatement};
use crate::grammar::{
    binary, kind_at, lemma_expression_progress, lemma_factor_progress, lemma_term_progress,
    lemma_unary_progress, spec_conversion,
    spec_conversion_rest, spec_dimension_exponent, spec_dimension_expression,
    spec_dimension_factor, spec_dimension_factor_rest, spec_dimension_power, spec_expression,
    spec_factor, spec_factor_rest, spec_primary, spec_statement, spec_statements, spec_term,
    spec_term_rest, spec_unary,
};
use crate::parser::{SpecFailure, SpecParseError, Unsupported};
use crate::span::Span;
use crate::tokenizer::{
    digits_end, eof_token, identifier_end, is_blank, is_digit, is_identifier_char,
    lemma_scan_token_advances, number_end, scan_from, scan_token, span_at, spec_tokenize,
    tokens_wf, SpecToken, TokenKind, TokenizerError,
};

verus! {

/// A number or an identifier: a token that is an expression by itself.
pub open spec fn is_operand(k: TokenKind) -> bool {
    k == TokenKind::Number || k == TokenKind::Identifier
}

/// The expression that the operand token at `p` stands for.
pub open spec fn operand(toks: Seq<SpecToken>, p: int) -> SpecExpression {
    if toks[p].kind == TokenKind::Number {
        SpecExpression::Scalar(toks[p].lexeme)
    } else {
        SpecExpression::Identifier(toks[p].lexeme)
    }
}

pub open spec fn is_additive(k: TokenKind) -> bool {
    k == TokenKind::Plus || k == TokenKind::Minus
}

pub open spec fn is_multiplicative(k: TokenKind) -> bool {
    k == TokenKind::Multiply || k == TokenKind::Divide
}

/// The token kind is not a binary operator, so an expression ends before it.
pub open spec fn ends_expression(k: TokenKind) -> bool {
    !is_additive(k) && !is_multiplicative(k) && k != TokenKind::Arrow
}

/// The operator that a binary-operator token stands for.
pub open spec fn operator_of(k: TokenKind) -> BinaryOperator {
    if k == TokenKind::Plus {
        BinaryOperator::Add
    } else if k == TokenKind::Minus {
        BinaryOperator::Sub
    } else if k == TokenKind::Multiply {
        BinaryOperator::Mul
    } else if k == TokenKind::Divide {
        BinaryOperator::Div
    } else {
        BinaryOperator::ConvertTo
    }
}

// ---------------------------------------------------------------------------
// Steps of the grammar
// ---------------------------------------------------------------------------

/// A token that is not `Eof` has a token after it.
proof fn lemma_not_last(toks: Seq<SpecToken>, p: int)
    requires
        tokens_wf(toks),
        0 <= p < toks.len(),
        toks[p].kind != TokenKind::Eof,
    ensures
        p + 1 < toks.len(),
{
}

proof fn lemma_unary_operand(toks: Seq<SpecToken>, p: int)
    requires
        tokens_wf(toks),
        0 <= p < toks.len(),
        is_operand(toks[p].kind),
    ensures
        spec_unary(toks, p) == Ok::<_, crate::parser::SpecParseError>((operand(toks, p), p + 1)),
        p + 1 < toks.len(),
{
    lemma_not_last(toks, p);
    assert(spec_unary(toks, p) == spec_primary(toks, p));
}

/// A factor that ends where the next token is not `*` or `/`.
proof fn lemma_factor_end(toks: Seq<SpecToken>, p: int, lhs: SpecExpression, q: int)
    requires
        spec_unary(toks, p) == Ok::<_, crate::parser::SpecParseError>((lhs, q)),
        p < q < toks.len(),
        !is_multiplicative(kind_at(toks, q)),
    ensures
        spec_factor(toks, p) == Ok::<_, crate::parser::SpecParseError>((lhs, q)),
{
}

/// A term that ends where the next token is not `+` or `-`.
proof fn lemma_term_end(toks: Seq<SpecToken>, p: int, lhs: SpecExpression, q: int)
    requires
        spec_factor(toks, p) == Ok::<_, crate::parser::SpecParseError>((lhs, q)),
        p < q < toks.len(),
        !is_additive(kind_at(toks, q)),
    ensures
        spec_term(toks, p) == Ok::<_, crate::parser::SpecParseError>((lhs, q)),
{
}

/// An expression that ends where the next token is not `→`.
proof fn lemma_expression_end(toks: Seq<SpecToken>, p: int, lhs: SpecExpression, q: int)
    requires
        spec_term(toks, p) == Ok::<_, crate::parser::SpecParseError>((lhs, q)),
        p < q < toks.len(),
        kind_at(toks, q) != TokenKind::Arrow,
    ensures
        spec_expression(toks, p) == Ok::<_, crate::parser::SpecParseError>((lhs, q)),
{
    assert(spec_conversion(toks, p) == spec_conversion_rest(toks, lhs, q));
}

/// An operand followed by a token that is not `*` or `/` is a whole factor.
proof fn lemma_factor_operand(toks: Seq<SpecToken>, p: int)
    requires
        tokens_wf(toks),
        0 <= p < toks.len(),
        is_operand(toks[p].kind),
        !is_multiplicative(kind_at(toks, p + 1)),
    ensures
        spec_factor(toks, p) == Ok::<_, crate::parser::SpecParseError>((operand(toks, p), p + 1)),
        p + 1 < toks.len(),
{
    lemma_unary_operand(toks, p);
    lemma_factor_end(toks, p, operand(toks, p), p + 1);
}

// ---------------------------------------------------------------------------
// The laws
// ---------------------------------------------------------------------------

/// `+` and `-` associate to the left: `a o1 b o2 c` is `(a o1 b) o2 c`.
pub proof fn law_additive_left_associative(toks: Seq<SpecToken>, p: int)
    requires
        tokens_wf(toks),
        0 <= p,
        p + 4 < toks.len(),
        is_operand(toks[p].kind),
        is_additive(toks[p + 1].kind),
        is_operand(toks[p + 2].kind),
        is_additive(toks[p + 3].kind),
        is_operand(toks[p + 4].kind),
        ends_expression(kind_at(toks, p + 5)),
    ensures
        spec_expression(toks, p) == Ok::<_, crate::parser::SpecParseError>(
            (
                binary(
                    operator_of(toks[p + 3].kind),
                    binary(operator_of(toks[p + 1].kind), operand(toks, p), operand(toks, p + 2)),
                    operand(toks, p + 4),
                ),
                p + 5,
            ),
        ),
{
    let a = operand(toks, p);
    let b = operand(toks, p + 2);
    let c = operand(toks, p + 4);
    let ab = binary(operator_of(toks[p + 1].kind), a, b);
    let abc = binary(operator_of(toks[p + 3].kind), ab, c);
    lemma_factor_operand(toks, p);
    lemma_factor_operand(toks, p + 2);
    lemma_factor_operand(toks, p + 4);
    assert(spec_term_rest(toks, abc, p + 5) == Ok::<_, crate::parser::SpecParseError>(
        (abc, p + 5),
    ));
    assert(spec_term_rest(toks, ab, p + 3) == spec_term_rest(toks, abc, p + 5));
    assert(spec_term_rest(toks, a, p + 1) == spec_term_rest(toks, ab, p + 3));
    assert(spec_term(toks, p) == spec_term_rest(toks, a, p + 1));
    lemma_expression_end(toks, p, abc, p + 5);
}

/// `a o b` with `o` one of `*` and `/`, followed by no `*` or `/`, is one factor.
proof fn lemma_factor_pair(toks: Seq<SpecToken>, p: int)
    requires
        tokens_wf(toks),
        0 <= p,
        p + 2 < toks.len(),
        is_operand(toks[p].kind),
        is_multiplicative(toks[p + 1].kind),
        is_operand(toks[p + 2].kind),
        !is_multiplicative(kind_at(toks, p + 3)),
    ensures
        spec_factor(toks, p) == Ok::<_, crate::parser::SpecParseError>(
            (
                binary(operator_of(toks[p + 1].kind), operand(toks, p), operand(toks, p + 2)),
                p + 3,
            ),
        ),
        p + 3 < toks.len(),
{
    let a = operand(toks, p);
    let b = operand(toks, p + 2);
    let ab = binary(operator_of(toks[p + 1].kind), a, b);
    lemma_unary_operand(toks, p);
    lemma_unary_operand(toks, p + 2);
    assert(spec_factor_rest(toks, ab, p + 3) == Ok::<_, crate::parser::SpecParseError>(
        (ab, p + 3),
    ));
    assert(spec_factor_rest(toks, a, p + 1) == spec_factor_rest(toks, ab, p + 3));
    assert(spec_factor(toks, p) == spec_factor_rest(toks, a, p + 1));
}

/// `*` and `/` associate to the left: `a o1 b o2 c` is `(a o1 b) o2 c`.
pub proof fn law_multiplicative_left_associative(toks: Seq<SpecToken>, p: int)
    requires
        tokens_wf(toks),
        0 <= p,
        p + 4 < toks.len(),
        is_operand(toks[p].kind),
        is_multiplicative(toks[p + 1].kind),
        is_operand(toks[p + 2].kind),
        is_multiplicative(toks[p + 3].kind),
        is_operand(toks[p + 4].kind),
        ends_expression(kind_at(toks, p + 5)),
    ensures
        spec_expression(toks, p) == Ok::<_, crate::parser::SpecParseError>(
            (
                binary(
                    operator_of(toks[p + 3].kind),
                    binary(operator_of(toks[p + 1].kind), operand(toks, p), operand(toks, p + 2)),
                    operand(toks, p + 4),
                ),
                p + 5,
            ),
        ),
{
    let a = operand(toks, p);
    let b = operand(toks, p + 2);
    let c = operand(toks, p + 4);
    let ab = binary(operator_of(toks[p + 1].kind), a, b);
    let abc = binary(operator_of(toks[p + 3].kind), ab, c);
    lemma_unary_operand(toks, p);
    lemma_unary_operand(toks, p + 2);
    lemma_unary_operand(toks, p + 4);
    assert(spec_factor_rest(toks, abc, p + 5) == Ok::<_, crate::parser::SpecParseError>(
        (abc, p + 5),
    ));
    assert(spec_factor_rest(toks, ab, p + 3) == spec_factor_rest(toks, abc, p + 5));
    assert(spec_factor_rest(toks, a, p + 1) == spec_factor_rest(toks, ab, p + 3));
    assert(spec_factor(toks, p) == spec_factor_rest(toks, a, p + 1));
    lemma_term_end(toks, p, abc, p + 5);
    lemma_expression_end(toks, p, abc, p + 5);
}

/// `*` and `/` bind tighter than `+` and `-` on the right: `a + b * c` is `a + (b * c)`.
pub proof fn law_multiplication_binds_tighter_on_the_right(toks: Seq<SpecToken>, p: int)
    requires
        tokens_wf(toks),
        0 <= p,
        p + 4 < toks.len(),
        is_operand(toks[p].kind),
        is_additive(toks[p + 1].kind),
        is_operand(toks[p + 2].kind),
        is_multiplicative(toks[p + 3].kind),
        is_operand(toks[p + 4].kind),
        ends_expression(kind_at(toks, p + 5)),
    ensures
        spec_expression(toks, p) == Ok::<_, crate::parser::SpecParseError>(
            (
                binary(
                    operator_of(toks[p + 1].kind),
                    operand(toks, p),
                    binary(
                        operator_of(toks[p + 3].kind),
                        operand(toks, p + 2),
                        operand(toks, p + 4),
                    ),
                ),
                p + 5,
            ),
        ),
{
    let a = operand(toks, p);
    let bc = binary(operator_of(toks[p + 3].kind), operand(toks, p + 2), operand(toks, p + 4));
    let abc = binary(operator_of(toks[p + 1].kind), a, bc);
    lemma_factor_operand(toks, p);
    lemma_factor_pair(toks, p + 2);
    assert(spec_term_rest(toks, abc, p + 5) == Ok::<_, crate::parser::SpecParseError>(
        (abc, p + 5),
    ));
    assert(spec_term_rest(toks, a, p + 1) == spec_term_rest(toks, abc, p + 5));
    assert(spec_term(toks, p) == spec_term_rest(toks, a, p + 1));
    lemma_expression_end(toks, p, abc, p + 5);
}

/// `*` and `/` bind tighter than `+` and `-` on the left: `a * b + c` is `(a * b) + c`.
pub proof fn law_multiplication_binds_tighter_on_the_left(toks: Seq<SpecToken>, p: int)
    requires
        tokens_wf(toks),
        0 <= p,
        p + 4 < toks.len(),
        is_operand(toks[p].kind),
        is_multiplicative(toks[p + 1].kind),
        is_operand(toks[p + 2].kind),
        is_additive(toks[p + 3].kind),
        is_operand(toks[p + 4].kind),
        ends_expression(kind_at(toks, p + 5)),
    ensures
        spec_expression(toks, p) == Ok::<_, crate::parser::SpecParseError>(
            (
                binary(
                    operator_of(toks[p + 3].kind),
                    binary(operator_of(toks[p + 1].kind), operand(toks, p), operand(toks, p + 2)),
                    operand(toks, p + 4),
                ),
                p + 5,
            ),
        ),
{
    let ab = binary(operator_of(toks[p + 1].kind), operand(toks, p), operand(toks, p + 2));
    let abc = binary(operator_of(toks[p + 3].kind), ab, operand(toks, p + 4));
    lemma_factor_pair(toks, p);
    lemma_factor_operand(toks, p + 4);
    assert(spec_term_rest(toks, abc, p + 5) == Ok::<_, crate::parser::SpecParseError>(
        (abc, p + 5),
    ));
    assert(spec_term_rest(toks, ab, p + 3) == spec_term_rest(toks, abc, p + 5));
    assert(spec_term(toks, p) == spec_term_rest(toks, ab, p + 3));
    lemma_expression_end(toks, p, abc, p + 5);
}

/// Conversion associates to the left: `a → b → c` is `(a → b) → c`.
pub proof fn law_conversion_left_associative(toks: Seq<SpecToken>, p: int)
    requires
        tokens_wf(toks),
        0 <= p,
        p + 4 < toks.len(),
        is_operand(toks[p].kind),
        toks[p + 1].kind == TokenKind::Arrow,
        is_operand(toks[p + 2].kind),
        toks[p + 3].kind == TokenKind::Arrow,
        is_operand(toks[p + 4].kind),
        ends_expression(kind_at(toks, p + 5)),
    ensures
        spec_expression(toks, p) == Ok::<_, crate::parser::SpecParseError>(
            (
                binary(
                    BinaryOperator::ConvertTo,
                    binary(BinaryOperator::ConvertTo, operand(toks, p), operand(toks, p + 2)),
                    operand(toks, p + 4),
                ),
                p + 5,
            ),
        ),
{
    let a = operand(toks, p);
    let b = operand(toks, p + 2);
    let c = operand(toks, p + 4);
    let ab = binary(BinaryOperator::ConvertTo, a, b);
    let abc = binary(BinaryOperator::ConvertTo, ab, c);
    lemma_factor_operand(toks, p);
    lemma_factor_operand(toks, p + 2);
    lemma_factor_operand(toks, p + 4);
    lemma_term_end(toks, p, a, p + 1);
    lemma_term_end(toks, p + 2, b, p + 3);
    lemma_term_end(toks, p + 4, c, p + 5);
    assert(spec_conversion_rest(toks, abc, p + 5) == Ok::<_, crate::parser::SpecParseError>(
        (abc, p + 5),
    ));
    assert(spec_conversion_rest(toks, ab, p + 3) == spec_conversion_rest(toks, abc, p + 5));
    assert(spec_conversion_rest(toks, a, p + 1) == spec_conversion_rest(toks, ab, p + 3));
    assert(spec_conversion(toks, p) == spec_conversion_rest(toks, a, p + 1));
}

/// Conversion binds loosest: `a → b o c` is `a → (b o c)` for `o` one of
/// `+`, `-`, `*` and `/`.
pub proof fn law_conversion_binds_loosest(toks: Seq<SpecToken>, p: int)
    requires
        tokens_wf(toks),
        0 <= p,
        p + 4 < toks.len(),
        is_operand(toks[p].kind),
        toks[p + 1].kind == TokenKind::Arrow,
        is_operand(toks[p + 2].kind),
        is_additive(toks[p + 3].kind) || is_multiplicative(toks[p + 3].kind),
        is_operand(toks[p + 4].kind),
        ends_expression(kind_at(toks, p + 5)),
    ensures
        spec_expression(toks, p) == Ok::<_, crate::parser::SpecParseError>(
            (
                binary(
                    BinaryOperator::ConvertTo,
                    operand(toks, p),
                    binary(
                        operator_of(toks[p + 3].kind),
                        operand(toks, p + 2),
                        operand(toks, p + 4),
                    ),
                ),
                p + 5,
            ),
        ),
{
    let a = operand(toks, p);
    let b = operand(toks, p + 2);
    let c = operand(toks, p + 4);
    let bc = binary(operator_of(toks[p + 3].kind), b, c);
    let abc = binary(BinaryOperator::ConvertTo, a, bc);
    lemma_factor_operand(toks, p);
    lemma_term_end(toks, p, a, p + 1);
    if is_additive(toks[p + 3].kind) {
        lemma_factor_operand(toks, p + 2);
        lemma_factor_operand(toks, p + 4);
        assert(spec_term_rest(toks, bc, p + 5) == Ok::<_, crate::parser::SpecParseError>(
            (bc, p + 5),
        ));
        assert(spec_term_rest(toks, b, p + 3) == spec_term_rest(toks, bc, p + 5));
        assert(spec_term(toks, p + 2) == spec_term_rest(toks, b, p + 3));
    } else {
        lemma_factor_pair(toks, p + 2);
        lemma_term_end(toks, p + 2, bc, p + 5);
    }
    assert(spec_conversion_rest(toks, abc, p + 5) == Ok::<_, crate::parser::SpecParseError>(
        (abc, p + 5),
    ));
    assert(spec_conversion_rest(toks, a, p + 1) == spec_conversion_rest(toks, abc, p + 5));
    assert(spec_conversion(toks, p) == spec_conversion_rest(toks, a, p + 1));
}

/// Unary minus binds tightest: `- a o b` is `(- a) o b` for every binary operator `o`.
pub proof fn law_negation_binds_tightest(toks: Seq<SpecToken>, p: int)
    requires
        tokens_wf(toks),
        0 <= p,
        p + 3 < toks.len(),
        toks[p].kind == TokenKind::Minus,
        is_operand(toks[p + 1].kind),
        !ends_expression(toks[p + 2].kind),
        is_operand(toks[p + 3].kind),
        ends_expression(kind_at(toks, p + 4)),
    ensures
        spec_expression(toks, p) == Ok::<_, crate::parser::SpecParseError>(
            (
                binary(
                    operator_of(toks[p + 2].kind),
                    SpecExpression::Negate(Box::new(operand(toks, p + 1))),
                    operand(toks, p + 3),
                ),
                p + 4,
            ),
        ),
{
    let na = SpecExpression::Negate(Box::new(operand(toks, p + 1)));
    let b = operand(toks, p + 3);
    let nab = binary(operator_of(toks[p + 2].kind), na, b);
    let k = toks[p + 2].kind;
    lemma_unary_operand(toks, p + 1);
    lemma_unary_operand(toks, p + 3);
    assert(spec_unary(toks, p) == Ok::<_, crate::parser::SpecParseError>((na, p + 2)));
    if is_multiplicative(k) {
        assert(spec_factor_rest(toks, nab, p + 4) == Ok::<_, crate::parser::SpecParseError>(
            (nab, p + 4),
        ));
        assert(spec_factor_rest(toks, na, p + 2) == spec_factor_rest(toks, nab, p + 4));
        assert(spec_factor(toks, p) == spec_factor_rest(toks, na, p + 2));
        lemma_term_end(toks, p, nab, p + 4);
        lemma_expression_end(toks, p, nab, p + 4);
    } else if is_additive(k) {
        lemma_factor_end(toks, p, na, p + 2);
        lemma_factor_end(toks, p + 3, b, p + 4);
        assert(spec_term_rest(toks, nab, p + 4) == Ok::<_, crate::parser::SpecParseError>(
            (nab, p + 4),
        ));
        assert(spec_term_rest(toks, na, p + 2) == spec_term_rest(toks, nab, p + 4));
        assert(spec_term(toks, p) == spec_term_rest(toks, na, p + 2));
        lemma_expression_end(toks, p, nab, p + 4);
    } else {
        lemma_factor_end(toks, p, na, p + 2);
        lemma_term_end(toks, p, na, p + 2);
        lemma_factor_end(toks, p + 3, b, p + 4);
        lemma_term_end(toks, p + 3, b, p + 4);
        assert(spec_conversion_rest(toks, nab, p + 4) == Ok::<_, crate::parser::SpecParseError>(
            (nab, p + 4),
        ));
        assert(spec_conversion_rest(toks, na, p + 2) == spec_conversion_rest(toks, nab, p + 4));
        assert(spec_conversion(toks, p) == spec_conversion_rest(toks, na, p + 2));
    }
}

/// Parentheses group: `a o ( e )`, with `o` one of `*` and `/` and `e` any
/// expression, is `a o e`, whatever operators `e` holds.
pub proof fn law_parentheses_group(toks: Seq<SpecToken>, p: int, e: SpecExpression, q: int)
    requires
        tokens_wf(toks),
        0 <= p,
        p + 2 < toks.len(),
        is_operand(toks[p].kind),
        is_multiplicative(toks[p + 1].kind),
        toks[p + 2].kind == TokenKind::LeftParen,
        spec_expression(toks, p + 3) == Ok::<_, crate::parser::SpecParseError>((e, q)),
        kind_at(toks, q) == TokenKind::RightParen,
        ends_expression(kind_at(toks, q + 1)),
    ensures
        spec_expression(toks, p) == Ok::<_, crate::parser::SpecParseError>(
            (binary(operator_of(toks[p + 1].kind), operand(toks, p), e), q + 1),
        ),
{
    let a = operand(toks, p);
    let ae = binary(operator_of(toks[p + 1].kind), a, e);
    lemma_unary_operand(toks, p);
    lemma_expression_progress(toks, p + 3);
    lemma_not_last(toks, q);
    assert(spec_primary(toks, p + 2) == Ok::<_, crate::parser::SpecParseError>((e, q + 1)));
    assert(spec_unary(toks, p + 2) == spec_primary(toks, p + 2));
    assert(spec_factor_rest(toks, ae, q + 1) == Ok::<_, crate::parser::SpecParseError>(
        (ae, q + 1),
    ));
    assert(spec_factor_rest(toks, a, p + 1) == spec_factor_rest(toks, ae, q + 1));
    assert(spec_factor(toks, p) == spec_factor_rest(toks, a, p + 1));
    lemma_term_end(toks, p, ae, q + 1);
    lemma_expression_end(toks, p, ae, q + 1);
}

/// A parenthesized group is one operand on the left of `*` and `/` too:
/// `( e ) o b`, with `o` one of `*` and `/`, is `o` applied to the whole of
/// `e` and to `b`; the group is never taken apart.
pub proof fn law_group_stays_whole_left_of_a_product(
    toks: Seq<SpecToken>,
    p: int,
    e: SpecExpression,
    q: int,
)
    requires
        tokens_wf(toks),
        0 <= p < toks.len(),
        toks[p].kind == TokenKind::LeftParen,
        spec_expression(toks, p + 1) == Ok::<_, SpecParseError>((e, q)),
        kind_at(toks, q) == TokenKind::RightParen,
        is_multiplicative(kind_at(toks, q + 1)),
        is_operand(kind_at(toks, q + 2)),
        ends_expression(kind_at(toks, q + 3)),
    ensures
        spec_expression(toks, p) == Ok::<_, SpecParseError>(
            (binary(operator_of(toks[q + 1].kind), e, operand(toks, q + 2)), q + 3),
        ),
{
    lemma_expression_progress(toks, p + 1);
    let b = operand(toks, q + 2);
    let eb = binary(operator_of(toks[q + 1].kind), e, b);
    lemma_unary_operand(toks, q + 2);
    assert(spec_primary(toks, p) == Ok::<_, SpecParseError>((e, q + 1)));
    assert(spec_unary(toks, p) == spec_primary(toks, p));
    assert(spec_factor_rest(toks, eb, q + 3) == Ok::<_, SpecParseError>((eb, q + 3)));
    assert(spec_factor_rest(toks, e, q + 1) == spec_factor_rest(toks, eb, q + 3));
    assert(spec_factor(toks, p) == spec_factor_rest(toks, e, q + 1));
    lemma_term_end(toks, p, eb, q + 3);
    lemma_expression_end(toks, p, eb, q + 3);
}

/// Negation applies to the whole of a group: `- ( e )` is the negation of
/// the whole of `e`, whatever operators `e` holds.
pub proof fn law_negation_of_a_group(toks: Seq<SpecToken>, p: int, e: SpecExpression, q: int)
    requires
        tokens_wf(toks),
        0 <= p < toks.len(),
        toks[p].kind == TokenKind::Minus,
        kind_at(toks, p + 1) == TokenKind::LeftParen,
        spec_expression(toks, p + 2) == Ok::<_, SpecParseError>((e, q)),
        kind_at(toks, q) == TokenKind::RightParen,
        ends_expression(kind_at(toks, q + 1)),
    ensures
        spec_expression(toks, p) == Ok::<_, SpecParseError>(
            (SpecExpression::Negate(Box::new(e)), q + 1),
        ),
{
    lemma_expression_progress(toks, p + 2);
    lemma_not_last(toks, q);
    let ne = SpecExpression::Negate(Box::new(e));
    assert(spec_primary(toks, p + 1) == Ok::<_, SpecParseError>((e, q + 1)));
    assert(spec_unary(toks, p + 1) == spec_primary(toks, p + 1));
    assert(spec_unary(toks, p) == Ok::<_, SpecParseError>((ne, q + 1)));
    lemma_factor_end(toks, p, ne, q + 1);
    lemma_term_end(toks, p, ne, q + 1);
    lemma_expression_end(toks, p, ne, q + 1);
}

/// Both sides of `+` and `-` stay whole: when a factor `a` is followed by `+`
/// or `-` and a factor `b`, and the expression ends there, it is the sum or
/// difference of `a` and `b` exactly as each reads alone.
pub proof fn law_sum_of_two_factors(
    toks: Seq<SpecToken>,
    p: int,
    a: SpecExpression,
    q: int,
    b: SpecExpression,
    r: int,
)
    requires
        tokens_wf(toks),
        0 <= p,
        spec_factor(toks, p) == Ok::<_, SpecParseError>((a, q)),
        is_additive(kind_at(toks, q)),
        spec_factor(toks, q + 1) == Ok::<_, SpecParseError>((b, r)),
        ends_expression(kind_at(toks, r)),
    ensures
        spec_expression(toks, p) == Ok::<_, SpecParseError>(
            (binary(operator_of(kind_at(toks, q)), a, b), r),
        ),
{
    lemma_factor_progress(toks, p);
    lemma_factor_progress(toks, q + 1);
    lemma_factor_ends_inside(toks, p);
    lemma_factor_ends_inside(toks, q + 1);
    let ab = binary(operator_of(kind_at(toks, q)), a, b);
    assert(spec_term_rest(toks, ab, r) == Ok::<_, SpecParseError>((ab, r)));
    assert(spec_term_rest(toks, a, q) == spec_term_rest(toks, ab, r));
    assert(spec_term(toks, p) == spec_term_rest(toks, a, q));
    lemma_expression_end(toks, p, ab, r);
}

/// Both sides of `→` stay whole: when a term `a` is followed by `→` and a
/// term `b`, and the expression ends there, it is the conversion of `a` to
/// `b` exactly as each reads alone.
pub proof fn law_conversion_of_two_terms(
    toks: Seq<SpecToken>,
    p: int,
    a: SpecExpression,
    q: int,
    b: SpecExpression,
    r: int,
)
    requires
        tokens_wf(toks),
        0 <= p,
        spec_term(toks, p) == Ok::<_, SpecParseError>((a, q)),
        kind_at(toks, q) == TokenKind::Arrow,
        spec_term(toks, q + 1) == Ok::<_, SpecParseError>((b, r)),
        ends_expression(kind_at(toks, r)),
    ensures
        spec_expression(toks, p) == Ok::<_, SpecParseError>(
            (binary(BinaryOperator::ConvertTo, a, b), r),
        ),
{
    lemma_term_progress(toks, p);
    lemma_term_progress(toks, q + 1);
    lemma_term_ends_inside(toks, p);
    lemma_term_ends_inside(toks, q + 1);
    let ab = binary(BinaryOperator::ConvertTo, a, b);
    assert(spec_conversion_rest(toks, ab, r) == Ok::<_, SpecParseError>((ab, r)));
    assert(spec_conversion_rest(toks, a, q) == spec_conversion_rest(toks, ab, r));
    assert(spec_conversion(toks, p) == spec_conversion_rest(toks, a, q));
}

/// A unary expression ends before the last token, the `Eof`.
proof fn lemma_unary_ends_inside(toks: Seq<SpecToken>, p: int)
    requires
        tokens_wf(toks),
        0 <= p,
    ensures
        spec_unary(toks, p) matches Ok((_, q)) ==> q < toks.len(),
    decreases toks.len() - p,
{
    if kind_at(toks, p) == TokenKind::Minus {
        lemma_unary_ends_inside(toks, p + 1);
    } else if let Ok((_, q)) = spec_primary(toks, p) {
        assert(spec_unary(toks, p) == spec_primary(toks, p));
        if kind_at(toks, p) == TokenKind::LeftParen {
            if let Ok((_, r)) = spec_expression(toks, p + 1) {
                if kind_at(toks, r) == TokenKind::RightParen {
                    lemma_not_last(toks, r);
                }
            }
        } else {
            lemma_not_last(toks, p);
        }
    }
}

proof fn lemma_factor_rest_ends_inside(toks: Seq<SpecToken>, lhs: SpecExpression, p: int)
    requires
        tokens_wf(toks),
        0 <= p < toks.len(),
    ensures
        spec_factor_rest(toks, lhs, p) matches Ok((_, q)) ==> q < toks.len(),
    decreases toks.len() - p,
{
    if is_multiplicative(kind_at(toks, p)) {
        lemma_unary_ends_inside(toks, p + 1);
        if let Ok((rhs, q)) = spec_unary(toks, p + 1) {
            if p < q < toks.len() {
                lemma_factor_rest_ends_inside(
                    toks,
                    binary(operator_of(kind_at(toks, p)), lhs, rhs),
                    q,
                );
            }
        }
    }
}

/// A factor ends before the last token, the `Eof`.
proof fn lemma_factor_ends_inside(toks: Seq<SpecToken>, p: int)
    requires
        tokens_wf(toks),
        0 <= p,
    ensures
        spec_factor(toks, p) matches Ok((_, q)) ==> q < toks.len(),
{
    lemma_unary_ends_inside(toks, p);
    if let Ok((lhs, q)) = spec_unary(toks, p) {
        if p < q < toks.len() {
            lemma_factor_rest_ends_inside(toks, lhs, q);
        }
    }
}

proof fn lemma_term_rest_ends_inside(toks: Seq<SpecToken>, lhs: SpecExpression, p: int)
    requires
        tokens_wf(toks),
        0 <= p < toks.len(),
    ensures
        spec_term_rest(toks, lhs, p) matches Ok((_, q)) ==> q < toks.len(),
    decreases toks.len() - p,
{
    if is_additive(kind_at(toks, p)) {
        lemma_factor_ends_inside(toks, p + 1);
        if let Ok((rhs, q)) = spec_factor(toks, p + 1) {
            if p < q < toks.len() {
                lemma_term_rest_ends_inside(
                    toks,
                    binary(operator_of(kind_at(toks, p)), lhs, rhs),
                    q,
                );
            }
        }
    }
}

/// A term ends before the last token, the `Eof`.
proof fn lemma_term_ends_inside(toks: Seq<SpecToken>, p: int)
    requires
        tokens_wf(toks),
        0 <= p,
    ensures
        spec_term(toks, p) matches Ok((_, q)) ==> q < toks.len(),
{
    lemma_factor_ends_inside(toks, p);
    if let Ok((lhs, q)) = spec_factor(toks, p) {
        if p < q < toks.len() {
            lemma_term_rest_ends_inside(toks, lhs, q);
        }
    }
}

/// Negation wraps the whole of its operand: when `-` stands before a unary
/// expression `u` (a number, a name, a group or another negation) that the
/// expression ends after, the expression is the negation of `u`, unchanged.
pub proof fn law_negation_wraps_its_operand(
    toks: Seq<SpecToken>,
    p: int,
    u: SpecExpression,
    q: int,
)
    requires
        tokens_wf(toks),
        0 <= p < toks.len(),
        toks[p].kind == TokenKind::Minus,
        spec_unary(toks, p + 1) == Ok::<_, SpecParseError>((u, q)),
        ends_expression(kind_at(toks, q)),
    ensures
        spec_expression(toks, p) == Ok::<_, SpecParseError>(
            (SpecExpression::Negate(Box::new(u)), q),
        ),
{
    lemma_unary_progress(toks, p + 1);
    lemma_unary_ends_inside(toks, p + 1);
    let nu = SpecExpression::Negate(Box::new(u));
    assert(spec_unary(toks, p) == Ok::<_, SpecParseError>((nu, q)));
    lemma_factor_end(toks, p, nu, q);
    lemma_term_end(toks, p, nu, q);
    lemma_expression_end(toks, p, nu, q);
}

/// Both sides of `*` and `/` stay whole: when a unary expression `a` is
/// followed by `*` or `/` and a unary expression `b`, and the expression ends
/// there, it is the product or quotient of `a` and `b` exactly as each reads
/// alone, groups and negations included.
pub proof fn law_product_of_two_operands(
    toks: Seq<SpecToken>,
    p: int,
    a: SpecExpression,
    q: int,
    b: SpecExpression,
    r: int,
)
    requires
        tokens_wf(toks),
        0 <= p,
        spec_unary(toks, p) == Ok::<_, SpecParseError>((a, q)),
        is_multiplicative(kind_at(toks, q)),
        spec_unary(toks, q + 1) == Ok::<_, SpecParseError>((b, r)),
        ends_expression(kind_at(toks, r)),
    ensures
        spec_expression(toks, p) == Ok::<_, SpecParseError>(
            (binary(operator_of(kind_at(toks, q)), a, b), r),
        ),
{
    lemma_unary_progress(toks, p);
    lemma_unary_progress(toks, q + 1);
    lemma_unary_ends_inside(toks, p);
    lemma_unary_ends_inside(toks, q + 1);
    let ab = binary(operator_of(kind_at(toks, q)), a, b);
    assert(spec_factor_rest(toks, ab, r) == Ok::<_, SpecParseError>((ab, r)));
    assert(spec_factor_rest(toks, a, q) == spec_factor_rest(toks, ab, r));
    assert(spec_factor(toks, p) == spec_factor_rest(toks, a, q));
    lemma_term_end(toks, p, ab, r);
    lemma_expression_end(toks, p, ab, r);
}

/// The dimension expression that `*` or `/` makes of two others.
pub open spec fn dimension_operation(
    k: TokenKind,
    lhs: SpecDimensionExpression,
    rhs: SpecDimensionExpression,
) -> SpecDimensionExpression {
    if k == TokenKind::Multiply {
        SpecDimensionExpression::Multiply(Box::new(lhs), Box::new(rhs))
    } else {
        SpecDimensionExpression::Divide(Box::new(lhs), Box::new(rhs))
    }
}

proof fn lemma_dimension_exponent_ends_inside(toks: Seq<SpecToken>, p: int)
    requires
        tokens_wf(toks),
        0 <= p,
    ensures
        spec_dimension_exponent(toks, p) matches Ok((_, q)) ==> p < q < toks.len(),
    decreases toks.len() - p,
{
    if kind_at(toks, p) == TokenKind::Minus {
        lemma_dimension_exponent_ends_inside(toks, p + 1);
    } else if kind_at(toks, p) == TokenKind::Number {
        lemma_not_last(toks, p);
    }
}

/// A dimension power starts with a name and ends before the `Eof`.
proof fn lemma_dimension_power_ends_inside(toks: Seq<SpecToken>, p: int)
    requires
        tokens_wf(toks),
        0 <= p,
    ensures
        spec_dimension_power(toks, p) matches Ok((_, q)) ==> p < q < toks.len(),
{
    if kind_at(toks, p) == TokenKind::Identifier {
        lemma_not_last(toks, p);
        lemma_dimension_exponent_ends_inside(toks, p + 2);
    }
}

/// `*` and `/` associate to the left in dimension expressions:
/// `a o1 b o2 c` is `(a o1 b) o2 c`, for every `o1` and `o2` among `*` and `/`
/// and every three dimension powers `a`, `b` and `c` (names, with or without
/// an exponent).
pub proof fn law_dimension_operators_left_associative(
    toks: Seq<SpecToken>,
    p: int,
    a: SpecDimensionExpression,
    q: int,
    b: SpecDimensionExpression,
    r: int,
    c: SpecDimensionExpression,
    s: int,
)
    requires
        tokens_wf(toks),
        0 <= p,
        spec_dimension_power(toks, p) == Ok::<_, Unsupported>((a, q)),
        is_multiplicative(kind_at(toks, q)),
        spec_dimension_power(toks, q + 1) == Ok::<_, Unsupported>((b, r)),
        is_multiplicative(kind_at(toks, r)),
        spec_dimension_power(toks, r + 1) == Ok::<_, Unsupported>((c, s)),
        !is_multiplicative(kind_at(toks, s)),
    ensures
        spec_dimension_expression(toks, p) == Ok::<_, Unsupported>(
            (
                dimension_operation(
                    kind_at(toks, r),
                    dimension_operation(kind_at(toks, q), a, b),
                    c,
                ),
                s,
            ),
        ),
{
    lemma_dimension_power_ends_inside(toks, p);
    lemma_dimension_power_ends_inside(toks, q + 1);
    lemma_dimension_power_ends_inside(toks, r + 1);
    let ab = dimension_operation(kind_at(toks, q), a, b);
    let abc = dimension_operation(kind_at(toks, r), ab, c);
    assert(spec_dimension_factor_rest(toks, abc, s) == Ok::<_, Unsupported>((abc, s)));
    assert(spec_dimension_factor_rest(toks, ab, r) == spec_dimension_factor_rest(toks, abc, s));
    assert(spec_dimension_factor_rest(toks, a, q) == spec_dimension_factor_rest(toks, ab, r));
    assert(spec_dimension_factor(toks, p) == spec_dimension_factor_rest(toks, a, q));
}

/// The value declared by `let name =` is the whole expression that follows,
/// the same that those tokens give as a line of their own: when the tokens
/// `u` are one expression `e` up to their `Eof`, `let name = u` declares
/// `name` with the value `e` (with `+`, `-` and `→` in it as anywhere else).
pub proof fn law_let_value_is_the_whole_expression(
    let_token: SpecToken,
    name: SpecToken,
    equal: SpecToken,
    u: Seq<SpecToken>,
    e: SpecExpression,
    m: int,
)
    requires
        let_token.kind == TokenKind::Let,
        name.kind == TokenKind::Identifier,
        equal.kind == TokenKind::Equal,
        spec_expression(u, 0) == Ok::<_, SpecParseError>((e, m)),
        kind_at(u, m) == TokenKind::Eof,
    ensures
        spec_statements(seq![let_token, name, equal] + u, 0) == Ok::<_, SpecFailure>(
            seq![SpecStatement::DeclareVariable(name.lexeme, e)],
        ),
{
    let pre = seq![let_token, name, equal];
    let t = pre + u;
    lemma_expression_progress(u, 0);
    crate::agreement::after_expression(pre, u, 0);
    crate::agreement::lemma_prefix_reads(pre, u, m);
    assert(t[0] == let_token && t[1] == name && t[2] == equal);
    assert(spec_expression(t, 3) == Ok::<_, SpecParseError>((e, m + 3)));
    assert(spec_statement(t, 0) == Ok::<_, SpecFailure>(
        (SpecStatement::DeclareVariable(name.lexeme, e), m + 3),
    ));
    assert(kind_at(t, m + 3) == TokenKind::Eof);
}

/// The same for an assignment without `let`: `name = u` declares `name` with
/// the whole expression `e` that the tokens `u` give as a line of their own.
pub proof fn law_assigned_value_is_the_whole_expression(
    name: SpecToken,
    equal: SpecToken,
    u: Seq<SpecToken>,
    e: SpecExpression,
    m: int,
)
    requires
        name.kind == TokenKind::Identifier,
        equal.kind == TokenKind::Equal,
        spec_expression(u, 0) == Ok::<_, SpecParseError>((e, m)),
        kind_at(u, m) == TokenKind::Eof,
    ensures
        spec_statements(seq![name, equal] + u, 0) == Ok::<_, SpecFailure>(
            seq![SpecStatement::DeclareVariable(name.lexeme, e)],
        ),
{
    let pre = seq![name, equal];
    let t = pre + u;
    lemma_expression_progress(u, 0);
    crate::agreement::after_expression(pre, u, 0);
    crate::agreement::lemma_prefix_reads(pre, u, m);
    assert(t[0] == name && t[1] == equal);
    assert(spec_expression(t, 2) == Ok::<_, SpecParseError>((e, m + 2)));
    assert(spec_statement(t, 0) == Ok::<_, SpecFailure>(
        (SpecStatement::DeclareVariable(name.lexeme, e), m + 2),
    ));
    assert(kind_at(t, m + 2) == TokenKind::Eof);
}

/// The value declared by `dimension name =` is the whole dimension expression
/// that follows: when the tokens `u` are one dimension expression `d` up to
/// their `Eof`, `dimension name = u` declares `name` as `d`.
pub proof fn law_dimension_value_is_the_whole_expression(
    dimension_token: SpecToken,
    name: SpecToken,
    equal: SpecToken,
    u: Seq<SpecToken>,
    d: SpecDimensionExpression,
    m: int,
)
    requires
        dimension_token.kind == TokenKind::Dimension,
        name.kind == TokenKind::Identifier,
        equal.kind == TokenKind::Equal,
        spec_dimension_expression(u, 0) == Ok::<_, Unsupported>((d, m)),
        kind_at(u, m) == TokenKind::Eof,
    ensures
        spec_statements(seq![dimension_token, name, equal] + u, 0) == Ok::<_, SpecFailure>(
            seq![SpecStatement::DeclareDimension(name.lexeme, Some(d))],
        ),
{
    let pre = seq![dimension_token, name, equal];
    let t = pre + u;
    crate::agreement::after_dimension_expression(pre, u, 0);
    crate::agreement::lemma_dimension_power_progress(u, 0);
    if let Ok((lhs, q)) = spec_dimension_power(u, 0) {
        crate::agreement::lemma_dimension_factor_rest_progress(u, lhs, q);
    }
    crate::agreement::lemma_prefix_reads(pre, u, m);
    assert(t[0] == dimension_token && t[1] == name && t[2] == equal);
    assert(spec_dimension_expression(t, 3) == Ok::<_, Unsupported>((d, m + 3)));
    assert(spec_statement(t, 0) == Ok::<_, SpecFailure>(
        (SpecStatement::DeclareDimension(name.lexeme, Some(d)), m + 3),
    ));
    assert(kind_at(t, m + 3) == TokenKind::Eof);
}

// ---------------------------------------------------------------------------
// Laws of the tokenizer
// ---------------------------------------------------------------------------

/// The token's text is the piece of `s` that starts at the token's position.
pub open spec fn token_is_slice(s: Seq<char>, t: SpecToken) -> bool {
    let a = t.span.position as int;
    &&& a + t.lexeme.len() <= s.len()
    &&& s.subrange(a, a + t.lexeme.len()) == t.lexeme
}

/// The tokens read from position `i` on are pieces of `s` in order, at or
/// after `i`, and only the last one is `Eof`, empty and at the end of `s`.
pub open spec fn tokens_are_pieces(s: Seq<char>, toks: Seq<SpecToken>, i: int) -> bool {
    &&& toks.len() > 0
    &&& forall|k: int| 0 <= k < toks.len() ==> token_is_slice(s, #[trigger] toks[k])
    &&& forall|k: int| 0 <= k < toks.len() ==> i <= (#[trigger] toks[k]).span.position
    &&& forall|k: int, l: int|
        0 <= k < l < toks.len() ==> (#[trigger] toks[k]).span.position + toks[k].lexeme.len()
            <= (#[trigger] toks[l]).span.position
    &&& forall|k: int|
        0 <= k < toks.len() - 1 ==> (#[trigger] toks[k]).kind != TokenKind::Eof
            && toks[k].lexeme.len() > 0
    &&& toks.last() == eof_token(toks.last().span.line as int, s.len() as int)
}

proof fn lemma_scan_from_pieces(s: Seq<char>, i: int, line: int)
    requires
        s.len() <= usize::MAX,
        0 <= i <= s.len(),
    ensures
        scan_from(s, i, line) matches Ok(toks) ==> tokens_are_pieces(s, toks, i),
    decreases s.len() - i,
{
    if i >= s.len() {
        if let Ok(toks) = scan_from(s, i, line) {
            assert(s.subrange(i, i) =~= Seq::<char>::empty());
            assert(toks[0].lexeme =~= Seq::<char>::empty());
        }
    } else if is_blank(s[i]) {
        lemma_scan_from_pieces(s, i + 1, line);
    } else {
        match scan_token(s, i) {
            None => {},
            Some((kind, j)) => {
                lemma_scan_token_advances(s, i);
                let next_line = if kind == TokenKind::Newline {
                    line + 1
                } else {
                    line
                };
                lemma_scan_from_pieces(s, j, next_line);
                if let Ok(rest) = scan_from(s, j, next_line) {
                    let token = SpecToken {
                        kind,
                        lexeme: s.subrange(i, j),
                        span: span_at(line, i),
                    };
                    let toks = seq![token] + rest;
                    assert(toks == scan_from(s, i, line)->Ok_0);
                    assert(token.span.position == i);
                    assert(token_is_slice(s, token)) by {
                        assert(s.subrange(i, i + token.lexeme.len()) =~= token.lexeme);
                    }
                    assert(kind != TokenKind::Eof);
                    assert forall|k: int| 0 <= k < toks.len() implies token_is_slice(
                        s,
                        #[trigger] toks[k],
                    ) by {
                        if k > 0 {
                            assert(toks[k] == rest[k - 1]);
                        }
                    }
                    assert forall|k: int| 0 <= k < toks.len() implies i <= (
                    #[trigger] toks[k]).span.position by {
                        if k > 0 {
                            assert(toks[k] == rest[k - 1]);
                        }
                    }
                    assert forall|k: int, l: int| 0 <= k < l < toks.len() implies (
                    #[trigger] toks[k]).span.position + toks[k].lexeme.len() <= (
                    #[trigger] toks[l]).span.position by {
                        assert(toks[l] == rest[l - 1]);
                        if k > 0 {
                            assert(toks[k] == rest[k - 1]);
                        }
                    }
                    assert forall|k: int| 0 <= k < toks.len() - 1 implies (
                    #[trigger] toks[k]).kind != TokenKind::Eof && toks[k].lexeme.len() > 0 by {
                        if k > 0 {
                            assert(toks[k] == rest[k - 1]);
                        }
                    }
                    assert(toks.last() == rest.last());
                }
            },
        }
    }
}

/// The tokens of an input are pieces of it: each token's text is the text at
/// its position, the tokens come in order without overlapping, and only the
/// last token is `Eof`, which is empty and stands at the end of the input.
pub proof fn law_tokens_are_pieces_of_the_input(s: Seq<char>)
    requires
        s.len() <= usize::MAX,
    ensures
        spec_tokenize(s) matches Ok(toks) ==> tokens_are_pieces(s, toks, 0),
{
    lemma_scan_from_pieces(s, 0, 0);
}

pub open spec fn all_blank(b: Seq<char>) -> bool {
    forall|k: int| 0 <= k < b.len() ==> is_blank(#[trigger] b[k])
}

pub open spec fn shift_span(span: Span, n: int) -> Span {
    Span { line: span.line, position: (span.position + n) as usize }
}

pub open spec fn shift_token(t: SpecToken, n: int) -> SpecToken {
    SpecToken { kind: t.kind, lexeme: t.lexeme, span: shift_span(t.span, n) }
}

/// The same tokens, or the same error, `n` characters further on.
pub open spec fn shift_scan(r: Result<Seq<SpecToken>, TokenizerError>, n: int) -> Result<
    Seq<SpecToken>,
    TokenizerError,
> {
    match r {
        Ok(toks) => Ok(toks.map_values(|t: SpecToken| shift_token(t, n))),
        Err(TokenizerError::UnexpectedCharacter { character, span }) => Err(
            TokenizerError::UnexpectedCharacter { character, span: shift_span(span, n) },
        ),
    }
}

proof fn lemma_digits_end_shift(b: Seq<char>, s: Seq<char>, k: int)
    requires
        0 <= k <= s.len(),
    ensures
        digits_end(b + s, k + b.len()) == digits_end(s, k) + b.len(),
    decreases s.len() - k,
{
    if k < s.len() {
        assert((b + s)[k + b.len()] == s[k]);
        if is_digit(s[k]) {
            lemma_digits_end_shift(b, s, k + 1);
        }
    }
}

proof fn lemma_identifier_end_shift(b: Seq<char>, s: Seq<char>, k: int)
    requires
        0 <= k <= s.len(),
    ensures
        identifier_end(b + s, k + b.len()) == identifier_end(s, k) + b.len(),
    decreases s.len() - k,
{
    if k < s.len() {
        assert((b + s)[k + b.len()] == s[k]);
        if is_identifier_char(s[k]) {
            lemma_identifier_end_shift(b, s, k + 1);
        }
    }
}

proof fn lemma_scan_token_shift(b: Seq<char>, s: Seq<char>, i: int)
    requires
        0 <= i < s.len(),
    ensures
        match scan_token(s, i) {
            Some((kind, j)) => scan_token(b + s, i + b.len()) == Some((kind, j + b.len())),
            None => scan_token(b + s, i + b.len()) is None,
        },
{
    let n = b.len();
    let t = b + s;
    assert(t[i + n] == s[i]);
    if i + 1 < s.len() {
        assert(t[i + n + 1] == s[i + 1]);
    }
    lemma_digits_end_shift(b, s, i + 1);
    crate::tokenizer::lemma_digits_end_bounds(s, i + 1);
    let j = digits_end(s, i + 1);
    if j < s.len() {
        assert(t[j + n] == s[j]);
        lemma_digits_end_shift(b, s, j + 1);
    }
    lemma_identifier_end_shift(b, s, i + 1);
    crate::tokenizer::lemma_identifier_end_bounds(s, i + 1);
    let e = identifier_end(s, i + 1);
    assert(t.subrange(i + n, e + n) =~= s.subrange(i, e));
}

pub(crate) proof fn lemma_scan_from_shift(b: Seq<char>, s: Seq<char>, i: int, line: int)
    requires
        b.len() + s.len() <= usize::MAX,
        0 <= i <= s.len(),
    ensures
        scan_from(b + s, i + b.len(), line) == shift_scan(scan_from(s, i, line), b.len() as int),
    decreases s.len() - i,
{
    let n = b.len() as int;
    let t = b + s;
    if i >= s.len() {
        let r = scan_from(s, i, line);
        assert(r == Ok::<_, TokenizerError>(seq![eof_token(line, i)]));
        assert(shift_scan(r, n)->Ok_0 =~= seq![eof_token(line, i + n)]);
    } else {
        assert(t[i + n] == s[i]);
        if is_blank(s[i]) {
            lemma_scan_from_shift(b, s, i + 1, line);
        } else {
            lemma_scan_token_shift(b, s, i);
            match scan_token(s, i) {
                None => {},
                Some((kind, j)) => {
                    lemma_scan_token_advances(s, i);
                    let next_line = if kind == TokenKind::Newline {
                        line + 1
                    } else {
                        line
                    };
                    lemma_scan_from_shift(b, s, j, next_line);
                    assert(t.subrange(i + n, j + n) =~= s.subrange(i, j));
                    let token = SpecToken {
                        kind,
                        lexeme: s.subrange(i, j),
                        span: span_at(line, i),
                    };
                    assert(shift_token(token, n) == SpecToken {
                        kind,
                        lexeme: t.subrange(i + n, j + n),
                        span: span_at(line, i + n),
                    });
                    if let Ok(rest) = scan_from(s, j, next_line) {
                        let f = |x: SpecToken| shift_token(x, n);
                        assert((seq![token] + rest).map_values(f) =~= seq![shift_token(token, n)]
                            + rest.map_values(f));
                    }
                },
            }
        }
    }
}

proof fn lemma_skip_blanks(b: Seq<char>, s: Seq<char>, k: int)
    requires
        all_blank(b),
        0 <= k <= b.len(),
    ensures
        scan_from(b + s, k, 0) == scan_from(b + s, b.len() as int, 0),
    decreases b.len() - k,
{
    if k < b.len() {
        assert((b + s)[k] == b[k]);
        lemma_skip_blanks(b, s, k + 1);
    }
}

/// Blanks (spaces, tabs, carriage returns) in front of an input change nothing
/// but the positions: the same tokens, or the same error, come out, each as
/// many characters further on as blanks were added.
pub proof fn law_leading_blanks_only_shift(b: Seq<char>, s: Seq<char>)
    requires
        all_blank(b),
        b.len() + s.len() <= usize::MAX,
    ensures
        spec_tokenize(b + s) == shift_scan(spec_tokenize(s), b.len() as int),
{
    lemma_skip_blanks(b, s, 0);
    lemma_scan_from_shift(b, s, 0, 0);
}

/// The spellings of the keywords.
pub open spec fn is_keyword_spelling(w: Seq<char>) -> bool {
    ||| w == seq!['p', 'e', 'r']
    ||| w == seq!['l', 'e', 't']
    ||| w == seq!['d', 'i', 'm', 'e', 'n', 's', 'i', 'o', 'n']
    ||| w == seq!['l', 'i', 's', 't']
    ||| w == seq!['q', 'u', 'i', 't']
    ||| w == seq!['e', 'x', 'i', 't']
}

/// A character with which a word starts: an identifier character that is not
/// a digit (a digit starts a number) and not an operator sign.
pub open spec fn starts_a_word(c: char) -> bool {
    &&& is_identifier_char(c)
    &&& !is_digit(c)
    &&& c != '·' && c != '×' && c != '÷' && c != '→'
}

proof fn lemma_identifier_end_of_word(w: Seq<char>, k: int)
    requires
        0 <= k <= w.len(),
        forall|i: int| 0 <= i < w.len() ==> is_identifier_char(#[trigger] w[i]),
    ensures
        identifier_end(w, k) == w.len(),
    decreases w.len() - k,
{
    if k < w.len() {
        lemma_identifier_end_of_word(w, k + 1);
    }
}

/// A keyword is a whole word: an input that is one word (a run of identifier
/// characters) gives one token with that text, then `Eof`; the token is `/`
/// exactly when the word is `per`, `let`, `dimension`, `list` and the exit
/// command exactly when the word is that keyword (`quit` or `exit` for the
/// last), and an identifier exactly when the word is no keyword, as `percent`
/// or `letter` are not.
pub proof fn law_keywords_are_whole_words(w: Seq<char>)
    requires
        w.len() > 0,
        starts_a_word(w[0]),
        forall|i: int| 0 <= i < w.len() ==> is_identifier_char(#[trigger] w[i]),
    ensures
        spec_tokenize(w) is Ok,
        spec_tokenize(w)->Ok_0.len() == 2,
        spec_tokenize(w)->Ok_0[0].lexeme == w,
        spec_tokenize(w)->Ok_0[0].span == (Span { line: 0, position: 0 }),
        spec_tokenize(w)->Ok_0[1] == eof_token(0, w.len() as int),
        (spec_tokenize(w)->Ok_0[0].kind == TokenKind::Divide) <==> w == seq!['p', 'e', 'r'],
        (spec_tokenize(w)->Ok_0[0].kind == TokenKind::Let) <==> w == seq!['l', 'e', 't'],
        (spec_tokenize(w)->Ok_0[0].kind == TokenKind::Dimension) <==> w == seq![
            'd',
            'i',
            'm',
            'e',
            'n',
            's',
            'i',
            'o',
            'n',
        ],
        (spec_tokenize(w)->Ok_0[0].kind == TokenKind::List) <==> w == seq!['l', 'i', 's', 't'],
        (spec_tokenize(w)->Ok_0[0].kind == TokenKind::Exit) <==> (w == seq!['q', 'u', 'i', 't']
            || w == seq!['e', 'x', 'i', 't']),
        (spec_tokenize(w)->Ok_0[0].kind == TokenKind::Identifier) <==> !is_keyword_spelling(w),
{
    lemma_identifier_end_of_word(w, 1);
    assert(w.subrange(0, w.len() as int) =~= w);
    let c = w[0];
    assert(!is_blank(c));
    assert(c != '(' && c != ')' && c != '\n' && c != '*' && c != '^' && c != '+' && c != '-'
        && c != '/' && c != '=');
    let kind = crate::tokenizer::word_kind(w);
    assert(scan_token(w, 0) == Some((kind, w.len() as int)));
    let token = SpecToken { kind, lexeme: w, span: span_at(0, 0) };
    assert(scan_from(w, w.len() as int, 0) == Ok::<_, TokenizerError>(
        seq![eof_token(0, w.len() as int)],
    ));
    assert(spec_tokenize(w) == Ok::<_, TokenizerError>(
        seq![token] + seq![eof_token(0, w.len() as int)],
    ));
}

} // verus!
