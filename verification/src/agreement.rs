//! Laws on what the parse of a token sequence depends on: the kinds and texts
//! of the tokens, not where they stand in the input; the tokens from the
//! position on, not those before it; and, for a parse that succeeds before an
//! `Eof`, not what would stand in place of that `Eof`.
use vstd::prelude::*;

use crate::ast::{BinaryOperator, SpecDimensionExpression, SpecExpression, SpecStatement};
use crate::grammar::{
    binary, kind_at, spec_conversion, spec_conversion_rest, spec_dimension_exponent,
    spec_dimension_expression, spec_dimension_factor, spec_dimension_factor_rest,
    spec_dimension_identifier, spec_dimension_power, spec_expression, spec_factor,
    spec_factor_rest, spec_primary, spec_statement, spec_statements, spec_term, spec_term_rest,
    spec_unary,
};
use crate::parser::{spec_parse, SpecFailure, SpecParseError};
use crate::tokenizer::{spec_tokenize, SpecToken, TokenKind};

verus! {

/// The two token sequences hold the same kinds and texts at every position;
/// only their places in the input may differ.
pub open spec fn same_text(t1: Seq<SpecToken>, t2: Seq<SpecToken>) -> bool {
    &&& t1.len() == t2.len()
    &&& forall|i: int|
        0 <= i < t1.len() ==> (#[trigger] t1[i]).kind == t2[i].kind && t1[i].lexeme
            == t2[i].lexeme
}

/// The same result, or errors of the same kind (perhaps at other places).
pub open spec fn same_outcome<V>(
    r1: Result<(V, int), SpecParseError>,
    r2: Result<(V, int), SpecParseError>,
) -> bool {
    match r1 {
        Ok(x) => r2 == Ok::<(V, int), SpecParseError>(x),
        Err(e1) => r2 is Err && r2->Err_0.kind == e1.kind,
    }
}

/// The same failure but for where an error is.
pub open spec fn same_failure(f1: SpecFailure, f2: SpecFailure) -> bool {
    match f1 {
        SpecFailure::Error(e1) => f2 matches SpecFailure::Error(e2) && e2.kind == e1.kind,
        SpecFailure::Unsupported(u) => f2 == SpecFailure::Unsupported(u),
    }
}

pub open spec fn same_statement_outcome(
    r1: Result<(SpecStatement, int), SpecFailure>,
    r2: Result<(SpecStatement, int), SpecFailure>,
) -> bool {
    match r1 {
        Ok(x) => r2 == Ok::<(SpecStatement, int), SpecFailure>(x),
        Err(f1) => r2 is Err && same_failure(f1, r2->Err_0),
    }
}

/// The same statements, or the same failure but for where an error is.
pub open spec fn same_statements(
    r1: Result<Seq<SpecStatement>, SpecFailure>,
    r2: Result<Seq<SpecStatement>, SpecFailure>,
) -> bool {
    match r1 {
        Ok(x) => r2 == Ok::<Seq<SpecStatement>, SpecFailure>(x),
        Err(f1) => r2 is Err && same_failure(f1, r2->Err_0),
    }
}

pub(crate) proof fn agree_expression(t1: Seq<SpecToken>, t2: Seq<SpecToken>, p: int)
    requires
        same_text(t1, t2),
    ensures
        same_outcome(spec_expression(t1, p), spec_expression(t2, p)),
    decreases t1.len() - p, 7int,
{
    agree_conversion(t1, t2, p);
}

proof fn agree_conversion(t1: Seq<SpecToken>, t2: Seq<SpecToken>, p: int)
    requires
        same_text(t1, t2),
    ensures
        same_outcome(spec_conversion(t1, p), spec_conversion(t2, p)),
    decreases t1.len() - p, 6int,
{
    agree_term(t1, t2, p);
    if let Ok((lhs, q)) = spec_term(t1, p) {
        if p < q < t1.len() {
            agree_conversion_rest(t1, t2, lhs, q);
        }
    }
}

proof fn agree_conversion_rest(t1: Seq<SpecToken>, t2: Seq<SpecToken>, lhs: SpecExpression, p: int)
    requires
        same_text(t1, t2),
    ensures
        same_outcome(spec_conversion_rest(t1, lhs, p), spec_conversion_rest(t2, lhs, p)),
    decreases t1.len() - p, 0int,
{
    assert(kind_at(t1, p) == kind_at(t2, p));
    if kind_at(t1, p) == TokenKind::Arrow {
        agree_term(t1, t2, p + 1);
        if let Ok((rhs, q)) = spec_term(t1, p + 1) {
            if p < q < t1.len() {
                agree_conversion_rest(t1, t2, binary(BinaryOperator::ConvertTo, lhs, rhs), q);
            }
        }
    }
}

proof fn agree_term(t1: Seq<SpecToken>, t2: Seq<SpecToken>, p: int)
    requires
        same_text(t1, t2),
    ensures
        same_outcome(spec_term(t1, p), spec_term(t2, p)),
    decreases t1.len() - p, 5int,
{
    agree_factor(t1, t2, p);
    if let Ok((lhs, q)) = spec_factor(t1, p) {
        if p < q < t1.len() {
            agree_term_rest(t1, t2, lhs, q);
        }
    }
}

proof fn agree_term_rest(t1: Seq<SpecToken>, t2: Seq<SpecToken>, lhs: SpecExpression, p: int)
    requires
        same_text(t1, t2),
    ensures
        same_outcome(spec_term_rest(t1, lhs, p), spec_term_rest(t2, lhs, p)),
    decreases t1.len() - p, 0int,
{
    let k = kind_at(t1, p);
    assert(k == kind_at(t2, p));
    if k == TokenKind::Plus || k == TokenKind::Minus {
        let op = if k == TokenKind::Plus {
            BinaryOperator::Add
        } else {
            BinaryOperator::Sub
        };
        agree_factor(t1, t2, p + 1);
        if let Ok((rhs, q)) = spec_factor(t1, p + 1) {
            if p < q < t1.len() {
                agree_term_rest(t1, t2, binary(op, lhs, rhs), q);
            }
        }
    }
}

proof fn agree_factor(t1: Seq<SpecToken>, t2: Seq<SpecToken>, p: int)
    requires
        same_text(t1, t2),
    ensures
        same_outcome(spec_factor(t1, p), spec_factor(t2, p)),
    decreases t1.len() - p, 4int,
{
    agree_unary(t1, t2, p);
    if let Ok((lhs, q)) = spec_unary(t1, p) {
        if p < q < t1.len() {
            agree_factor_rest(t1, t2, lhs, q);
        }
    }
}

proof fn agree_factor_rest(t1: Seq<SpecToken>, t2: Seq<SpecToken>, lhs: SpecExpression, p: int)
    requires
        same_text(t1, t2),
    ensures
        same_outcome(spec_factor_rest(t1, lhs, p), spec_factor_rest(t2, lhs, p)),
    decreases t1.len() - p, 0int,
{
    let k = kind_at(t1, p);
    assert(k == kind_at(t2, p));
    if k == TokenKind::Multiply || k == TokenKind::Divide {
        let op = if k == TokenKind::Multiply {
            BinaryOperator::Mul
        } else {
            BinaryOperator::Div
        };
        agree_unary(t1, t2, p + 1);
        if let Ok((rhs, q)) = spec_unary(t1, p + 1) {
            if p < q < t1.len() {
                agree_factor_rest(t1, t2, binary(op, lhs, rhs), q);
            }
        }
    }
}

proof fn agree_unary(t1: Seq<SpecToken>, t2: Seq<SpecToken>, p: int)
    requires
        same_text(t1, t2),
    ensures
        same_outcome(spec_unary(t1, p), spec_unary(t2, p)),
    decreases t1.len() - p, 3int,
{
    assert(kind_at(t1, p) == kind_at(t2, p));
    if kind_at(t1, p) == TokenKind::Minus {
        agree_unary(t1, t2, p + 1);
    } else {
        agree_primary(t1, t2, p);
    }
}

proof fn agree_primary(t1: Seq<SpecToken>, t2: Seq<SpecToken>, p: int)
    requires
        same_text(t1, t2),
    ensures
        same_outcome(spec_primary(t1, p), spec_primary(t2, p)),
    decreases t1.len() - p, 2int,
{
    let k = kind_at(t1, p);
    assert(k == kind_at(t2, p));
    if k == TokenKind::Number || k == TokenKind::Identifier {
        assert(t1[p].lexeme == t2[p].lexeme);
    } else if k == TokenKind::LeftParen {
        agree_expression(t1, t2, p + 1);
        if let Ok((inner, q)) = spec_expression(t1, p + 1) {
            assert(kind_at(t1, q) == kind_at(t2, q));
        }
    }
}

proof fn agree_dimension_exponent(t1: Seq<SpecToken>, t2: Seq<SpecToken>, p: int)
    requires
        same_text(t1, t2),
    ensures
        spec_dimension_exponent(t1, p) == spec_dimension_exponent(t2, p),
    decreases t1.len() - p,
{
    let k = kind_at(t1, p);
    assert(k == kind_at(t2, p));
    if k == TokenKind::Number {
        assert(t1[p].lexeme == t2[p].lexeme);
    } else if k == TokenKind::Minus {
        agree_dimension_exponent(t1, t2, p + 1);
    }
}

proof fn agree_dimension_power(t1: Seq<SpecToken>, t2: Seq<SpecToken>, p: int)
    requires
        same_text(t1, t2),
    ensures
        spec_dimension_power(t1, p) == spec_dimension_power(t2, p),
{
    assert(kind_at(t1, p) == kind_at(t2, p));
    if kind_at(t1, p) == TokenKind::Identifier {
        assert(t1[p].lexeme == t2[p].lexeme);
    }
    assert(spec_dimension_identifier(t1, p) == spec_dimension_identifier(t2, p));
    if let Ok((base, q)) = spec_dimension_identifier(t1, p) {
        assert(kind_at(t1, q) == kind_at(t2, q));
        agree_dimension_exponent(t1, t2, q + 1);
    }
}

proof fn agree_dimension_factor_rest(
    t1: Seq<SpecToken>,
    t2: Seq<SpecToken>,
    lhs: SpecDimensionExpression,
    p: int,
)
    requires
        same_text(t1, t2),
    ensures
        spec_dimension_factor_rest(t1, lhs, p) == spec_dimension_factor_rest(t2, lhs, p),
    decreases t1.len() - p,
{
    let k = kind_at(t1, p);
    assert(k == kind_at(t2, p));
    if k == TokenKind::Multiply || k == TokenKind::Divide {
        agree_dimension_power(t1, t2, p + 1);
        if let Ok((rhs, q)) = spec_dimension_power(t1, p + 1) {
            let e = if k == TokenKind::Multiply {
                SpecDimensionExpression::Multiply(Box::new(lhs), Box::new(rhs))
            } else {
                SpecDimensionExpression::Divide(Box::new(lhs), Box::new(rhs))
            };
            if p < q < t1.len() {
                agree_dimension_factor_rest(t1, t2, e, q);
            }
        }
    }
}

proof fn agree_dimension_expression(t1: Seq<SpecToken>, t2: Seq<SpecToken>, p: int)
    requires
        same_text(t1, t2),
    ensures
        spec_dimension_expression(t1, p) == spec_dimension_expression(t2, p),
{
    agree_dimension_power(t1, t2, p);
    if let Ok((lhs, q)) = spec_dimension_power(t1, p) {
        agree_dimension_factor_rest(t1, t2, lhs, q);
    }
    assert(spec_dimension_factor(t1, p) == spec_dimension_factor(t2, p));
}

proof fn agree_statement(t1: Seq<SpecToken>, t2: Seq<SpecToken>, p: int)
    requires
        same_text(t1, t2),
    ensures
        same_statement_outcome(spec_statement(t1, p), spec_statement(t2, p)),
{
    assert(kind_at(t1, p) == kind_at(t2, p));
    assert(kind_at(t1, p + 1) == kind_at(t2, p + 1));
    assert(kind_at(t1, p + 2) == kind_at(t2, p + 2));
    if kind_at(t1, p + 1) == TokenKind::Identifier {
        assert(t1[p + 1].lexeme == t2[p + 1].lexeme);
    }
    if kind_at(t1, p) == TokenKind::Identifier {
        assert(t1[p].lexeme == t2[p].lexeme);
    }
    agree_expression(t1, t2, p);
    agree_expression(t1, t2, p + 2);
    agree_expression(t1, t2, p + 3);
    agree_dimension_expression(t1, t2, p + 3);
}

proof fn agree_statements(t1: Seq<SpecToken>, t2: Seq<SpecToken>, p: int)
    requires
        same_text(t1, t2),
    ensures
        same_statements(spec_statements(t1, p), spec_statements(t2, p)),
    decreases t1.len() - p,
{
    assert(kind_at(t1, p) == kind_at(t2, p));
    agree_statement(t1, t2, p);
    if kind_at(t1, p) != TokenKind::Eof {
        if let Ok((s, q)) = spec_statement(t1, p) {
            assert(kind_at(t1, q) == kind_at(t2, q));
            if kind_at(t1, q) == TokenKind::Newline {
                if p <= q {
                    agree_statements(t1, t2, q + 1);
                }
            } else if kind_at(t1, q) != TokenKind::Eof {
                assert(t1[q].lexeme == t2[q].lexeme);
            }
        }
    }
}

/// Parsing reads the kinds and texts of the tokens, not their places: two
/// token sequences that differ only in where their tokens stand give the same
/// statements, or fail in the same way (errors of the same kind).
pub proof fn law_parse_reads_only_token_texts(t1: Seq<SpecToken>, t2: Seq<SpecToken>)
    requires
        same_text(t1, t2),
    ensures
        same_statements(spec_statements(t1, 0), spec_statements(t2, 0)),
{
    agree_statements(t1, t2, 0);
}

/// Two inputs whose tokens have the same kinds and texts (such as `1+2` and
/// `  1   +  2    `) parse alike: the same statements, or failures of the
/// same kind.
pub proof fn law_layout_does_not_change_the_parse(s1: Seq<char>, s2: Seq<char>)
    requires
        spec_tokenize(s1) is Ok,
        spec_tokenize(s2) is Ok,
        same_text(spec_tokenize(s1)->Ok_0, spec_tokenize(s2)->Ok_0),
    ensures
        same_statements(spec_parse(s1), spec_parse(s2)),
{
    agree_statements(spec_tokenize(s1)->Ok_0, spec_tokenize(s2)->Ok_0, 0);
}

// ---------------------------------------------------------------------------
// Parsing after a prefix of tokens
// ---------------------------------------------------------------------------

/// The same outcome with the position `n` further on.
pub open spec fn shift_outcome<V, E>(r: Result<(V, int), E>, n: int) -> Result<(V, int), E> {
    match r {
        Ok((v, q)) => Ok((v, q + n)),
        Err(e) => Err(e),
    }
}

pub(crate) proof fn lemma_prefix_reads(pre: Seq<SpecToken>, u: Seq<SpecToken>, p: int)
    requires
        0 <= p,
    ensures
        kind_at(pre + u, p + pre.len()) == kind_at(u, p),
        crate::grammar::span_of(pre + u, p + pre.len()) == crate::grammar::span_of(u, p),
        p < u.len() ==> (pre + u)[p + pre.len()] == u[p],
{
    if p < u.len() {
        assert((pre + u)[p + pre.len()] == u[p]);
    }
}

pub(crate) proof fn after_expression(pre: Seq<SpecToken>, u: Seq<SpecToken>, p: int)
    requires
        0 <= p,
    ensures
        spec_expression(pre + u, p + pre.len()) == shift_outcome(spec_expression(u, p), pre.len() as int),
    decreases u.len() - p, 7int,
{
    after_conversion(pre, u, p);
}

proof fn after_conversion(pre: Seq<SpecToken>, u: Seq<SpecToken>, p: int)
    requires
        0 <= p,
    ensures
        spec_conversion(pre + u, p + pre.len()) == shift_outcome(spec_conversion(u, p), pre.len() as int),
    decreases u.len() - p, 6int,
{
    after_term(pre, u, p);
    if let Ok((lhs, q)) = spec_term(u, p) {
        if p < q < u.len() {
            after_conversion_rest(pre, u, lhs, q);
        }
    }
}

proof fn after_conversion_rest(pre: Seq<SpecToken>, u: Seq<SpecToken>, lhs: SpecExpression, p: int)
    requires
        0 <= p,
    ensures
        spec_conversion_rest(pre + u, lhs, p + pre.len()) == shift_outcome(
            spec_conversion_rest(u, lhs, p),
            pre.len() as int,
        ),
    decreases u.len() - p, 0int,
{
    lemma_prefix_reads(pre, u, p);
    if kind_at(u, p) == TokenKind::Arrow {
        after_term(pre, u, p + 1);
        if let Ok((rhs, q)) = spec_term(u, p + 1) {
            if p < q < u.len() {
                after_conversion_rest(pre, u, binary(BinaryOperator::ConvertTo, lhs, rhs), q);
            }
        }
    }
}

proof fn after_term(pre: Seq<SpecToken>, u: Seq<SpecToken>, p: int)
    requires
        0 <= p,
    ensures
        spec_term(pre + u, p + pre.len()) == shift_outcome(spec_term(u, p), pre.len() as int),
    decreases u.len() - p, 5int,
{
    after_factor(pre, u, p);
    if let Ok((lhs, q)) = spec_factor(u, p) {
        if p < q < u.len() {
            after_term_rest(pre, u, lhs, q);
        }
    }
}

proof fn after_term_rest(pre: Seq<SpecToken>, u: Seq<SpecToken>, lhs: SpecExpression, p: int)
    requires
        0 <= p,
    ensures
        spec_term_rest(pre + u, lhs, p + pre.len()) == shift_outcome(
            spec_term_rest(u, lhs, p),
            pre.len() as int,
        ),
    decreases u.len() - p, 0int,
{
    lemma_prefix_reads(pre, u, p);
    let k = kind_at(u, p);
    if k == TokenKind::Plus || k == TokenKind::Minus {
        let op = if k == TokenKind::Plus {
            BinaryOperator::Add
        } else {
            BinaryOperator::Sub
        };
        after_factor(pre, u, p + 1);
        if let Ok((rhs, q)) = spec_factor(u, p + 1) {
            if p < q < u.len() {
                after_term_rest(pre, u, binary(op, lhs, rhs), q);
            }
        }
    }
}

proof fn after_factor(pre: Seq<SpecToken>, u: Seq<SpecToken>, p: int)
    requires
        0 <= p,
    ensures
        spec_factor(pre + u, p + pre.len()) == shift_outcome(spec_factor(u, p), pre.len() as int),
    decreases u.len() - p, 4int,
{
    after_unary(pre, u, p);
    if let Ok((lhs, q)) = spec_unary(u, p) {
        if p < q < u.len() {
            after_factor_rest(pre, u, lhs, q);
        }
    }
}

proof fn after_factor_rest(pre: Seq<SpecToken>, u: Seq<SpecToken>, lhs: SpecExpression, p: int)
    requires
        0 <= p,
    ensures
        spec_factor_rest(pre + u, lhs, p + pre.len()) == shift_outcome(
            spec_factor_rest(u, lhs, p),
            pre.len() as int,
        ),
    decreases u.len() - p, 0int,
{
    lemma_prefix_reads(pre, u, p);
    let k = kind_at(u, p);
    if k == TokenKind::Multiply || k == TokenKind::Divide {
        let op = if k == TokenKind::Multiply {
            BinaryOperator::Mul
        } else {
            BinaryOperator::Div
        };
        after_unary(pre, u, p + 1);
        if let Ok((rhs, q)) = spec_unary(u, p + 1) {
            if p < q < u.len() {
                after_factor_rest(pre, u, binary(op, lhs, rhs), q);
            }
        }
    }
}

proof fn after_unary(pre: Seq<SpecToken>, u: Seq<SpecToken>, p: int)
    requires
        0 <= p,
    ensures
        spec_unary(pre + u, p + pre.len()) == shift_outcome(spec_unary(u, p), pre.len() as int),
    decreases u.len() - p, 3int,
{
    lemma_prefix_reads(pre, u, p);
    if kind_at(u, p) == TokenKind::Minus {
        after_unary(pre, u, p + 1);
    } else {
        after_primary(pre, u, p);
    }
}

proof fn after_primary(pre: Seq<SpecToken>, u: Seq<SpecToken>, p: int)
    requires
        0 <= p,
    ensures
        spec_primary(pre + u, p + pre.len()) == shift_outcome(spec_primary(u, p), pre.len() as int),
    decreases u.len() - p, 2int,
{
    lemma_prefix_reads(pre, u, p);
    if kind_at(u, p) == TokenKind::LeftParen {
        after_expression(pre, u, p + 1);
        if let Ok((inner, q)) = spec_expression(u, p + 1) {
            crate::grammar::lemma_expression_progress(u, p + 1);
            lemma_prefix_reads(pre, u, q);
            lemma_prefix_reads(pre, u, crate::grammar::advance_pos(u, q));
        }
    }
}

proof fn after_dimension_exponent(pre: Seq<SpecToken>, u: Seq<SpecToken>, p: int)
    requires
        0 <= p,
    ensures
        spec_dimension_exponent(pre + u, p + pre.len()) == shift_outcome(
            spec_dimension_exponent(u, p),
            pre.len() as int,
        ),
    decreases u.len() - p,
{
    lemma_prefix_reads(pre, u, p);
    if kind_at(u, p) == TokenKind::Minus {
        after_dimension_exponent(pre, u, p + 1);
    }
}

proof fn after_dimension_power(pre: Seq<SpecToken>, u: Seq<SpecToken>, p: int)
    requires
        0 <= p,
    ensures
        spec_dimension_power(pre + u, p + pre.len()) == shift_outcome(
            spec_dimension_power(u, p),
            pre.len() as int,
        ),
{
    lemma_prefix_reads(pre, u, p);
    lemma_prefix_reads(pre, u, p + 1);
    assert(spec_dimension_identifier(pre + u, p + pre.len()) == shift_outcome(
        spec_dimension_identifier(u, p),
        pre.len() as int,
    ));
    if kind_at(u, p) == TokenKind::Identifier {
        after_dimension_exponent(pre, u, p + 2);
    }
}

proof fn after_dimension_factor_rest(
    pre: Seq<SpecToken>,
    u: Seq<SpecToken>,
    lhs: SpecDimensionExpression,
    p: int,
)
    requires
        0 <= p,
    ensures
        spec_dimension_factor_rest(pre + u, lhs, p + pre.len()) == shift_outcome(
            spec_dimension_factor_rest(u, lhs, p),
            pre.len() as int,
        ),
    decreases u.len() - p,
{
    lemma_prefix_reads(pre, u, p);
    let k = kind_at(u, p);
    if k == TokenKind::Multiply || k == TokenKind::Divide {
        after_dimension_power(pre, u, p + 1);
        if let Ok((rhs, q)) = spec_dimension_power(u, p + 1) {
            let e = if k == TokenKind::Multiply {
                SpecDimensionExpression::Multiply(Box::new(lhs), Box::new(rhs))
            } else {
                SpecDimensionExpression::Divide(Box::new(lhs), Box::new(rhs))
            };
            if p < q < u.len() {
                after_dimension_factor_rest(pre, u, e, q);
            }
        }
    }
}

pub(crate) proof fn after_dimension_expression(pre: Seq<SpecToken>, u: Seq<SpecToken>, p: int)
    requires
        0 <= p,
    ensures
        spec_dimension_expression(pre + u, p + pre.len()) == shift_outcome(
            spec_dimension_expression(u, p),
            pre.len() as int,
        ),
{
    after_dimension_power(pre, u, p);
    if let Ok((lhs, q)) = spec_dimension_power(u, p) {
        crate::agreement::lemma_dimension_power_progress(u, p);
        after_dimension_factor_rest(pre, u, lhs, q);
    }
    assert(spec_dimension_factor(pre + u, p + pre.len()) == shift_outcome(
        spec_dimension_factor(u, p),
        pre.len() as int,
    ));
}

proof fn after_statement(pre: Seq<SpecToken>, u: Seq<SpecToken>, p: int)
    requires
        0 <= p,
    ensures
        spec_statement(pre + u, p + pre.len()) == shift_outcome(spec_statement(u, p), pre.len() as int),
{
    lemma_prefix_reads(pre, u, p);
    lemma_prefix_reads(pre, u, p + 1);
    lemma_prefix_reads(pre, u, p + 2);
    after_expression(pre, u, p);
    after_expression(pre, u, p + 2);
    after_expression(pre, u, p + 3);
    after_dimension_expression(pre, u, p + 3);
}

proof fn after_statements(pre: Seq<SpecToken>, u: Seq<SpecToken>, p: int)
    requires
        0 <= p,
    ensures
        spec_statements(pre + u, p + pre.len()) == spec_statements(u, p),
    decreases u.len() - p,
{
    lemma_prefix_reads(pre, u, p);
    after_statement(pre, u, p);
    if kind_at(u, p) != TokenKind::Eof {
        if let Ok((s, q)) = spec_statement(u, p) {
            lemma_statement_progress(u, p);
            lemma_prefix_reads(pre, u, q);
            if kind_at(u, q) == TokenKind::Newline {
                after_statements(pre, u, q + 1);
            }
        }
    }
}

/// A successful dimension power consumes a token.
pub proof fn lemma_dimension_power_progress(toks: Seq<SpecToken>, p: int)
    ensures
        spec_dimension_power(toks, p) matches Ok((_, q)) ==> p < q,
{
    lemma_dimension_exponent_progress(toks, p + 2);
}

proof fn lemma_dimension_exponent_progress(toks: Seq<SpecToken>, p: int)
    ensures
        spec_dimension_exponent(toks, p) matches Ok((_, q)) ==> p < q,
    decreases toks.len() - p,
{
    if kind_at(toks, p) == TokenKind::Minus {
        lemma_dimension_exponent_progress(toks, p + 1);
    }
}

pub(crate) proof fn lemma_dimension_factor_rest_progress(
    toks: Seq<SpecToken>,
    lhs: SpecDimensionExpression,
    p: int,
)
    ensures
        spec_dimension_factor_rest(toks, lhs, p) matches Ok((_, q)) ==> p <= q,
    decreases toks.len() - p,
{
    let k = kind_at(toks, p);
    if k == TokenKind::Multiply || k == TokenKind::Divide {
        lemma_dimension_power_progress(toks, p + 1);
        if let Ok((rhs, q)) = spec_dimension_power(toks, p + 1) {
            let e = if k == TokenKind::Multiply {
                SpecDimensionExpression::Multiply(Box::new(lhs), Box::new(rhs))
            } else {
                SpecDimensionExpression::Divide(Box::new(lhs), Box::new(rhs))
            };
            if p < q < toks.len() {
                lemma_dimension_factor_rest_progress(toks, e, q);
            }
        }
    }
}

/// A statement that parses consumes at least one token.
pub proof fn lemma_statement_progress(toks: Seq<SpecToken>, p: int)
    ensures
        spec_statement(toks, p) matches Ok((_, q)) ==> p < q,
{
    crate::grammar::lemma_expression_progress(toks, p);
    crate::grammar::lemma_expression_progress(toks, p + 2);
    crate::grammar::lemma_expression_progress(toks, p + 3);
    lemma_dimension_power_progress(toks, p + 3);
    if let Ok((lhs, q)) = spec_dimension_power(toks, p + 3) {
        lemma_dimension_factor_rest_progress(toks, lhs, q);
    }
}

/// The statements parsed after a prefix of tokens are those of the rest.
pub proof fn law_statements_after_a_prefix(pre: Seq<SpecToken>, u: Seq<SpecToken>)
    ensures
        spec_statements(pre + u, pre.len() as int) == spec_statements(u, 0),
{
    after_statements(pre, u, 0);
}

// ---------------------------------------------------------------------------
// Parsing that succeeds before an end goes the same way before other tokens
// ---------------------------------------------------------------------------

/// A token kind that would let a rule go on: a binary operator, `^` or `=`.
pub open spec fn continues_a_rule(k: TokenKind) -> bool {
    k == TokenKind::Arrow || k == TokenKind::Plus || k == TokenKind::Minus || k
        == TokenKind::Multiply || k == TokenKind::Divide || k == TokenKind::Power || k
        == TokenKind::Equal
}

/// `t2` holds the tokens of `t1` up to `m`, where `t1` has its `Eof`; at `m`
/// it holds a token with which no rule goes on.
pub open spec fn extends_at(t1: Seq<SpecToken>, t2: Seq<SpecToken>, m: int) -> bool {
    &&& 0 <= m < t1.len()
    &&& m < t2.len()
    &&& t1[m].kind == TokenKind::Eof
    &&& forall|i: int| 0 <= i < m ==> #[trigger] t1[i] == t2[i]
    &&& !continues_a_rule(t2[m].kind)
}

/// What a success in `t1` from `p` gives in `t2`: the same result, not past `m`.
pub open spec fn kept<V, E>(r1: Result<(V, int), E>, r2: Result<(V, int), E>, m: int) -> bool {
    r1 matches Ok((v, q)) ==> r2 == Ok::<(V, int), E>((v, q)) && q <= m
}

proof fn lemma_extends_reads(t1: Seq<SpecToken>, t2: Seq<SpecToken>, m: int, p: int)
    requires
        extends_at(t1, t2, m),
        0 <= p <= m,
    ensures
        p < m ==> t1[p] == t2[p] && kind_at(t1, p) == kind_at(t2, p),
        p == m ==> kind_at(t1, p) == TokenKind::Eof && !continues_a_rule(kind_at(t2, p)),
{
    if p < m {
        assert(t1[p] == t2[p]);
    }
}

pub(crate) proof fn extend_expression(t1: Seq<SpecToken>, t2: Seq<SpecToken>, m: int, p: int)
    requires
        extends_at(t1, t2, m),
        0 <= p <= m,
    ensures
        kept(spec_expression(t1, p), spec_expression(t2, p), m),
    decreases t1.len() - p, 7int,
{
    extend_conversion(t1, t2, m, p);
}

proof fn extend_conversion(t1: Seq<SpecToken>, t2: Seq<SpecToken>, m: int, p: int)
    requires
        extends_at(t1, t2, m),
        0 <= p <= m,
    ensures
        kept(spec_conversion(t1, p), spec_conversion(t2, p), m),
    decreases t1.len() - p, 6int,
{
    extend_term(t1, t2, m, p);
    if let Ok((lhs, q)) = spec_term(t1, p) {
        if p < q < t1.len() {
            extend_conversion_rest(t1, t2, m, lhs, q);
        }
    }
}

proof fn extend_conversion_rest(
    t1: Seq<SpecToken>,
    t2: Seq<SpecToken>,
    m: int,
    lhs: SpecExpression,
    p: int,
)
    requires
        extends_at(t1, t2, m),
        0 <= p <= m,
    ensures
        kept(spec_conversion_rest(t1, lhs, p), spec_conversion_rest(t2, lhs, p), m),
    decreases t1.len() - p, 0int,
{
    lemma_extends_reads(t1, t2, m, p);
    if kind_at(t1, p) == TokenKind::Arrow {
        extend_term(t1, t2, m, p + 1);
        if let Ok((rhs, q)) = spec_term(t1, p + 1) {
            if p < q < t1.len() {
                extend_conversion_rest(t1, t2, m, binary(BinaryOperator::ConvertTo, lhs, rhs), q);
            }
        }
    }
}

proof fn extend_term(t1: Seq<SpecToken>, t2: Seq<SpecToken>, m: int, p: int)
    requires
        extends_at(t1, t2, m),
        0 <= p <= m,
    ensures
        kept(spec_term(t1, p), spec_term(t2, p), m),
    decreases t1.len() - p, 5int,
{
    extend_factor(t1, t2, m, p);
    if let Ok((lhs, q)) = spec_factor(t1, p) {
        if p < q < t1.len() {
            extend_term_rest(t1, t2, m, lhs, q);
        }
    }
}

proof fn extend_term_rest(
    t1: Seq<SpecToken>,
    t2: Seq<SpecToken>,
    m: int,
    lhs: SpecExpression,
    p: int,
)
    requires
        extends_at(t1, t2, m),
        0 <= p <= m,
    ensures
        kept(spec_term_rest(t1, lhs, p), spec_term_rest(t2, lhs, p), m),
    decreases t1.len() - p, 0int,
{
    lemma_extends_reads(t1, t2, m, p);
    let k = kind_at(t1, p);
    if k == TokenKind::Plus || k == TokenKind::Minus {
        let op = if k == TokenKind::Plus {
            BinaryOperator::Add
        } else {
            BinaryOperator::Sub
        };
        extend_factor(t1, t2, m, p + 1);
        if let Ok((rhs, q)) = spec_factor(t1, p + 1) {
            if p < q < t1.len() {
                extend_term_rest(t1, t2, m, binary(op, lhs, rhs), q);
            }
        }
    }
}

proof fn extend_factor(t1: Seq<SpecToken>, t2: Seq<SpecToken>, m: int, p: int)
    requires
        extends_at(t1, t2, m),
        0 <= p <= m,
    ensures
        kept(spec_factor(t1, p), spec_factor(t2, p), m),
    decreases t1.len() - p, 4int,
{
    extend_unary(t1, t2, m, p);
    if let Ok((lhs, q)) = spec_unary(t1, p) {
        if p < q < t1.len() {
            extend_factor_rest(t1, t2, m, lhs, q);
        }
    }
}

proof fn extend_factor_rest(
    t1: Seq<SpecToken>,
    t2: Seq<SpecToken>,
    m: int,
    lhs: SpecExpression,
    p: int,
)
    requires
        extends_at(t1, t2, m),
        0 <= p <= m,
    ensures
        kept(spec_factor_rest(t1, lhs, p), spec_factor_rest(t2, lhs, p), m),
    decreases t1.len() - p, 0int,
{
    lemma_extends_reads(t1, t2, m, p);
    let k = kind_at(t1, p);
    if k == TokenKind::Multiply || k == TokenKind::Divide {
        let op = if k == TokenKind::Multiply {
            BinaryOperator::Mul
        } else {
            BinaryOperator::Div
        };
        extend_unary(t1, t2, m, p + 1);
        if let Ok((rhs, q)) = spec_unary(t1, p + 1) {
            if p < q < t1.len() {
                extend_factor_rest(t1, t2, m, binary(op, lhs, rhs), q);
            }
        }
    }
}

proof fn extend_unary(t1: Seq<SpecToken>, t2: Seq<SpecToken>, m: int, p: int)
    requires
        extends_at(t1, t2, m),
        0 <= p <= m,
    ensures
        kept(spec_unary(t1, p), spec_unary(t2, p), m),
    decreases t1.len() - p, 3int,
{
    lemma_extends_reads(t1, t2, m, p);
    if kind_at(t1, p) == TokenKind::Minus {
        extend_unary(t1, t2, m, p + 1);
    } else {
        extend_primary(t1, t2, m, p);
    }
}

proof fn extend_primary(t1: Seq<SpecToken>, t2: Seq<SpecToken>, m: int, p: int)
    requires
        extends_at(t1, t2, m),
        0 <= p <= m,
    ensures
        kept(spec_primary(t1, p), spec_primary(t2, p), m),
    decreases t1.len() - p, 2int,
{
    lemma_extends_reads(t1, t2, m, p);
    if kind_at(t1, p) == TokenKind::LeftParen {
        extend_expression(t1, t2, m, p + 1);
        crate::grammar::lemma_expression_progress(t1, p + 1);
        if let Ok((inner, q)) = spec_expression(t1, p + 1) {
            lemma_extends_reads(t1, t2, m, q);
        }
    }
}

proof fn extend_dimension_exponent(t1: Seq<SpecToken>, t2: Seq<SpecToken>, m: int, p: int)
    requires
        extends_at(t1, t2, m),
        0 <= p <= m,
    ensures
        kept(spec_dimension_exponent(t1, p), spec_dimension_exponent(t2, p), m),
    decreases t1.len() - p,
{
    lemma_extends_reads(t1, t2, m, p);
    if kind_at(t1, p) == TokenKind::Minus {
        extend_dimension_exponent(t1, t2, m, p + 1);
    }
}

proof fn extend_dimension_power(t1: Seq<SpecToken>, t2: Seq<SpecToken>, m: int, p: int)
    requires
        extends_at(t1, t2, m),
        0 <= p <= m,
    ensures
        kept(spec_dimension_power(t1, p), spec_dimension_power(t2, p), m),
{
    lemma_extends_reads(t1, t2, m, p);
    if kind_at(t1, p) == TokenKind::Identifier {
        lemma_extends_reads(t1, t2, m, p + 1);
        if kind_at(t1, p + 1) == TokenKind::Power {
            extend_dimension_exponent(t1, t2, m, p + 2);
        }
    }
}

proof fn extend_dimension_factor_rest(
    t1: Seq<SpecToken>,
    t2: Seq<SpecToken>,
    m: int,
    lhs: SpecDimensionExpression,
    p: int,
)
    requires
        extends_at(t1, t2, m),
        0 <= p <= m,
    ensures
        kept(spec_dimension_factor_rest(t1, lhs, p), spec_dimension_factor_rest(t2, lhs, p), m),
    decreases t1.len() - p,
{
    lemma_extends_reads(t1, t2, m, p);
    let k = kind_at(t1, p);
    if k == TokenKind::Multiply || k == TokenKind::Divide {
        extend_dimension_power(t1, t2, m, p + 1);
        if let Ok((rhs, q)) = spec_dimension_power(t1, p + 1) {
            let e = if k == TokenKind::Multiply {
                SpecDimensionExpression::Multiply(Box::new(lhs), Box::new(rhs))
            } else {
                SpecDimensionExpression::Divide(Box::new(lhs), Box::new(rhs))
            };
            if p < q < t1.len() {
                extend_dimension_factor_rest(t1, t2, m, e, q);
            }
        }
    }
}

proof fn extend_dimension_expression(t1: Seq<SpecToken>, t2: Seq<SpecToken>, m: int, p: int)
    requires
        extends_at(t1, t2, m),
        0 <= p <= m,
    ensures
        kept(spec_dimension_expression(t1, p), spec_dimension_expression(t2, p), m),
{
    extend_dimension_power(t1, t2, m, p);
    lemma_dimension_power_progress(t1, p);
    if let Ok((lhs, q)) = spec_dimension_power(t1, p) {
        extend_dimension_factor_rest(t1, t2, m, lhs, q);
    }
    assert(kept(spec_dimension_factor(t1, p), spec_dimension_factor(t2, p), m));
}

pub(crate) proof fn extend_statement(t1: Seq<SpecToken>, t2: Seq<SpecToken>, m: int, p: int)
    requires
        extends_at(t1, t2, m),
        0 <= p <= m,
    ensures
        kept(spec_statement(t1, p), spec_statement(t2, p), m),
{
    lemma_extends_reads(t1, t2, m, p);
    extend_expression(t1, t2, m, p);
    if p < m {
        lemma_extends_reads(t1, t2, m, p + 1);
        if p + 1 < m {
            extend_expression(t1, t2, m, p + 2);
            lemma_extends_reads(t1, t2, m, p + 2);
            if p + 2 < m {
                extend_expression(t1, t2, m, p + 3);
                extend_dimension_expression(t1, t2, m, p + 3);
            }
        }
    }
}

} // verus!
