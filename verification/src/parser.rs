//! The parser: statements from a sequence of tokens.
use vstd::prelude::*;

use crate::ast::{
    BinaryOperator, Command, DimensionExpression, Expression, Number, SpecStatement, Statement,
};
use crate::grammar::{
    advance_pos, all_digits, decimal_value, exponent_value, is_primary_start, kind_at,
    prepend_statements,
    spec_conversion, spec_conversion_rest, spec_dimension_exponent, spec_dimension_expression,
    spec_dimension_factor, spec_dimension_factor_rest, spec_dimension_identifier,
    spec_dimension_power, spec_expression, spec_factor, spec_factor_rest, spec_primary,
    spec_statement, spec_statements, spec_term, spec_term_rest, spec_unary,
};
use crate::span::Span;
use crate::tokenizer::{
    collect_chars, is_digit, is_digit_char, lemma_tokenize_wf, spec_tokenize, tokenize, tokens_view, tokens_wf,
    SpecToken, Token, TokenKind, TokenizerError,
};

verus! {

/// The kinds of errors in the input.
#[derive(Debug, PartialEq)]
pub enum ParseErrorKind {
    TokenizerUnexpectedCharacter(char),
    ExpectedPrimary,
    MissingClosingParen,
    TrailingCharacters(String),
    ExpectedIdentifierAfterLet,
    ExpectedEqualAfterLetIdentifier,
}

/// The mathematical model of a [`ParseErrorKind`].
pub enum SpecParseErrorKind {
    TokenizerUnexpectedCharacter(char),
    ExpectedPrimary,
    MissingClosingParen,
    TrailingCharacters(Seq<char>),
    ExpectedIdentifierAfterLet,
    ExpectedEqualAfterLetIdentifier,
}

impl View for ParseErrorKind {
    type V = SpecParseErrorKind;

    open spec fn view(&self) -> SpecParseErrorKind {
        match *self {
            ParseErrorKind::TokenizerUnexpectedCharacter(c) => SpecParseErrorKind::TokenizerUnexpectedCharacter(c),
            ParseErrorKind::ExpectedPrimary => SpecParseErrorKind::ExpectedPrimary,
            ParseErrorKind::MissingClosingParen => SpecParseErrorKind::MissingClosingParen,
            ParseErrorKind::TrailingCharacters(s) => SpecParseErrorKind::TrailingCharacters(s@),
            ParseErrorKind::ExpectedIdentifierAfterLet => SpecParseErrorKind::ExpectedIdentifierAfterLet,
            ParseErrorKind::ExpectedEqualAfterLetIdentifier => SpecParseErrorKind::ExpectedEqualAfterLetIdentifier,
        }
    }
}

/// An error in the input, and where it is.
#[derive(Debug)]
pub struct ParseError {
    kind: ParseErrorKind,
    pub span: Span,
}

/// The mathematical model of a [`ParseError`].
pub struct SpecParseError {
    pub kind: SpecParseErrorKind,
    pub span: Span,
}

impl View for ParseError {
    type V = SpecParseError;

    closed spec fn view(&self) -> SpecParseError {
        SpecParseError { kind: self.kind@, span: self.span }
    }
}

impl ParseError {
    /// The error of kind `kind` at `span`.
    pub fn new(kind: ParseErrorKind, span: Span) -> (e: Self)
        ensures
            e@ == (SpecParseError { kind: kind@, span }),
    {
        ParseError { kind, span }
    }

    /// The kind of the error.
    pub fn kind(&self) -> (k: &ParseErrorKind)
        ensures
            k@ == self@.kind,
    {
        &self.kind
    }

    /// The kind of the error, taking the error apart.
    pub fn into_kind(self) -> (k: ParseErrorKind)
        ensures
            k@ == self@.kind,
    {
        self.kind
    }

    /// Where the error is.
    pub fn span(&self) -> (s: Span)
        ensures
            s == self@.span,
    {
        self.span
    }
}

/// Inputs that belong to the language but that this parser does not handle
/// yet: a `dimension` declaration with no name, a dimension expression with a
/// missing dimension or a missing exponent, and an exponent that is not an
/// integer that fits in an `i32`.
#[derive(Debug, Clone, Copy, PartialEq, Eq, Structural)]
pub enum Unsupported {
    DimensionNameMissing,
    DimensionIdentifierMissing,
    ExponentMissing,
    InvalidExponent,
}

/// Why the input gave no statements: an error in it, or a form that is not
/// handled yet.
#[derive(Debug)]
pub enum Failure {
    Error(ParseError),
    Unsupported(Unsupported),
}

/// The mathematical model of a [`Failure`].
pub enum SpecFailure {
    Error(SpecParseError),
    Unsupported(Unsupported),
}

impl View for Failure {
    type V = SpecFailure;

    open spec fn view(&self) -> SpecFailure {
        match *self {
            Failure::Error(e) => SpecFailure::Error(e@),
            Failure::Unsupported(u) => SpecFailure::Unsupported(u),
        }
    }
}

// ---------------------------------------------------------------------------
// Results as models
// ---------------------------------------------------------------------------

pub open spec fn statements_view(v: Seq<Statement>) -> Seq<SpecStatement> {
    v.map_values(|s: Statement| s@)
}

pub open spec fn expression_outcome(r: Result<Expression, ParseError>, pos: int) -> Result<
    (crate::ast::SpecExpression, int),
    SpecParseError,
> {
    match r {
        Ok(e) => Ok((e@, pos)),
        Err(e) => Err(e@),
    }
}

pub open spec fn dimension_outcome(r: Result<DimensionExpression, Unsupported>, pos: int) -> Result<
    (crate::ast::SpecDimensionExpression, int),
    Unsupported,
> {
    match r {
        Ok(d) => Ok((d@, pos)),
        Err(u) => Err(u),
    }
}

pub open spec fn statement_outcome(r: Result<Statement, Failure>, pos: int) -> Result<
    (SpecStatement, int),
    SpecFailure,
> {
    match r {
        Ok(s) => Ok((s@, pos)),
        Err(f) => Err(f@),
    }
}

pub open spec fn statements_outcome(r: Result<Vec<Statement>, Failure>) -> Result<
    Seq<SpecStatement>,
    SpecFailure,
> {
    match r {
        Ok(v) => Ok(statements_view(v@)),
        Err(f) => Err(f@),
    }
}

// ---------------------------------------------------------------------------
// The parser
// ---------------------------------------------------------------------------

/// A recursive-descent parser over a sequence of tokens that ends with `Eof`.
pub struct Parser<'a> {
    tokens: &'a [Token],
    current: usize,
}

impl<'a> Parser<'a> {
    /// The models of the tokens.
    pub closed spec fn toks(&self) -> Seq<SpecToken> {
        tokens_view(self.tokens@)
    }

    /// The position of the next token.
    pub closed spec fn pos(&self) -> int {
        self.current as int
    }

    /// The tokens end with `Eof` and the position is on one of them.
    pub closed spec fn wf(&self) -> bool {
        &&& tokens_wf(self.toks())
        &&& self.current < self.tokens@.len()
        &&& self.tokens@.len() == self.tokens.len()
    }

    pub(crate) fn new(tokens: &'a [Token]) -> (p: Self)
        requires
            tokens_wf(tokens_view(tokens@)),
        ensures
            p.wf(),
            p.toks() == tokens_view(tokens@),
            p.pos() == 0,
    {
        Parser { tokens, current: 0 }
    }

    fn parse(&mut self) -> (r: Result<Vec<Statement>, Failure>)
        requires
            old(self).wf(),
        ensures
            final(self).wf(),
            final(self).toks() == old(self).toks(),
            old(self).pos() <= final(self).pos(),
            statements_outcome(r) == spec_statements(old(self).toks(), old(self).pos()),
            r is Ok ==> kind_at(final(self).toks(), final(self).pos()) == TokenKind::Eof,
    {
        let ghost toks = self.toks();
        let ghost p0 = self.pos();
        let mut statements: Vec<Statement> = Vec::new();
        assert(statements_view(statements@) + Seq::<SpecStatement>::empty() =~= Seq::<
            SpecStatement,
        >::empty());
        loop
            invariant
                self.wf(),
                self.toks() == toks,
                toks == old(self).toks(),
                p0 == old(self).pos(),
                p0 <= self.pos(),
                spec_statements(toks, p0) == prepend_statements(
                    statements_view(statements@),
                    spec_statements(toks, self.pos()),
                ),
            decreases toks.len() - self.pos(),
        {
            if self.is_at_end() {
                assert(statements_view(statements@) + Seq::<SpecStatement>::empty()
                    =~= statements_view(statements@));
                return Ok(statements);
            }
            let ghost p = self.pos();
            let ghost before = statements_view(statements@);
            match self.statement() {
                Ok(statement) => {
                    statements.push(statement);
                    assert(statements_view(statements@) =~= before + seq![statement@]);
                },
                Err(e) => {
                    return Err(e);
                },
            }
            let ghost q = self.pos();
            let ghost s = statements@.last()@;
            match self.peek().kind {
                TokenKind::Newline => {
                    self.advance();
                    proof {
                        if let Ok(rest) = spec_statements(toks, q + 1) {
                            assert(before + (seq![s] + rest) =~= (before + seq![s]) + rest);
                        }
                    }
                },
                TokenKind::Eof => {
                    return Ok(statements);
                },
                _ => {
                    let token = self.peek();
                    return Err(
                        Failure::Error(
                            ParseError::new(
                                ParseErrorKind::TrailingCharacters(token.lexeme.clone()),
                                token.span,
                            ),
                        ),
                    );
                },
            }
        }
    }

    fn statement(&mut self) -> (r: Result<Statement, Failure>)
        requires
            old(self).wf(),
        ensures
            final(self).wf(),
            final(self).toks() == old(self).toks(),
            old(self).pos() <= final(self).pos(),
            statement_outcome(r, final(self).pos()) == spec_statement(
                old(self).toks(),
                old(self).pos(),
            ),
            r is Ok ==> old(self).pos() < final(self).pos(),
    {
        if self.match_exact(TokenKind::Exit).is_some() {
            Ok(Statement::Command(Command::Exit))
        } else if self.match_exact(TokenKind::List).is_some() {
            Ok(Statement::Command(Command::List))
        } else if self.match_exact(TokenKind::Let).is_some() {
            if let Some(identifier) = self.match_exact(TokenKind::Identifier) {
                if self.match_exact(TokenKind::Equal).is_none() {
                    Err(
                        Failure::Error(
                            ParseError::new(
                                ParseErrorKind::ExpectedEqualAfterLetIdentifier,
                                self.peek().span,
                            ),
                        ),
                    )
                } else {
                    match self.expression() {
                        Ok(expr) => Ok(
                            Statement::DeclareVariable(identifier.lexeme.clone(), expr),
                        ),
                        Err(e) => Err(Failure::Error(e)),
                    }
                }
            } else {
                Err(
                    Failure::Error(
                        ParseError::new(ParseErrorKind::ExpectedIdentifierAfterLet, self.peek().span),
                    ),
                )
            }
        } else if self.match_exact(TokenKind::Dimension).is_some() {
            if let Some(identifier) = self.match_exact(TokenKind::Identifier) {
                if self.match_exact(TokenKind::Equal).is_some() {
                    match self.dimension_expression() {
                        Ok(dexpr) => Ok(
                            Statement::DeclareDimension(identifier.lexeme.clone(), Some(dexpr)),
                        ),
                        Err(u) => Err(Failure::Unsupported(u)),
                    }
                } else {
                    Ok(Statement::DeclareDimension(identifier.lexeme.clone(), None))
                }
            } else {
                Err(Failure::Unsupported(Unsupported::DimensionNameMissing))
            }
        } else if self.peek().kind == TokenKind::Identifier && self.next().kind
            == TokenKind::Equal {
            // assignment: identifier "=" expression
            let identifier = self.peek();
            self.advance();
            self.advance();
            match self.expression() {
                Ok(expr) => Ok(Statement::DeclareVariable(identifier.lexeme.clone(), expr)),
                Err(e) => Err(Failure::Error(e)),
            }
        } else {
            match self.expression() {
                Ok(expr) => Ok(Statement::Expression(expr)),
                Err(e) => Err(Failure::Error(e)),
            }
        }
    }

    fn expression(&mut self) -> (r: Result<Expression, ParseError>)
        requires
            old(self).wf(),
        ensures
            final(self).wf(),
            final(self).toks() == old(self).toks(),
            old(self).pos() <= final(self).pos(),
            expression_outcome(r, final(self).pos()) == spec_expression(
                old(self).toks(),
                old(self).pos(),
            ),
            r is Ok ==> old(self).pos() < final(self).pos(),
        decreases old(self).toks().len() - old(self).pos(), 7int,
    {
        self.conversion()
    }

    fn conversion(&mut self) -> (r: Result<Expression, ParseError>)
        requires
            old(self).wf(),
        ensures
            final(self).wf(),
            final(self).toks() == old(self).toks(),
            old(self).pos() <= final(self).pos(),
            expression_outcome(r, final(self).pos()) == spec_conversion(
                old(self).toks(),
                old(self).pos(),
            ),
            r is Ok ==> old(self).pos() < final(self).pos(),
        decreases old(self).toks().len() - old(self).pos(), 6int,
    {
        let ghost toks = self.toks();
        let ghost p0 = self.pos();
        let mut expr = self.term()?;
        loop
            invariant
                self.wf(),
                self.toks() == toks,
                toks == old(self).toks(),
                p0 == old(self).pos(),
                p0 < self.pos(),
                spec_conversion(toks, p0) == spec_conversion_rest(toks, expr@, self.pos()),
            decreases toks.len() - self.pos(),
        {
            if self.match_exact(TokenKind::Arrow).is_some() {
                let rhs = self.term()?;
                expr = Expression::BinaryOperator(
                    BinaryOperator::ConvertTo,
                    Box::new(expr),
                    Box::new(rhs),
                );
            } else {
                return Ok(expr);
            }
        }
    }

    fn term(&mut self) -> (r: Result<Expression, ParseError>)
        requires
            old(self).wf(),
        ensures
            final(self).wf(),
            final(self).toks() == old(self).toks(),
            old(self).pos() <= final(self).pos(),
            expression_outcome(r, final(self).pos()) == spec_term(old(self).toks(), old(self).pos()),
            r is Ok ==> old(self).pos() < final(self).pos(),
        decreases old(self).toks().len() - old(self).pos(), 5int,
    {
        let ghost toks = self.toks();
        let ghost p0 = self.pos();
        let mut expr = self.factor()?;
        loop
            invariant
                self.wf(),
                self.toks() == toks,
                toks == old(self).toks(),
                p0 == old(self).pos(),
                p0 < self.pos(),
                spec_term(toks, p0) == spec_term_rest(toks, expr@, self.pos()),
            decreases toks.len() - self.pos(),
        {
            let kinds = [TokenKind::Plus, TokenKind::Minus];
            assert(kinds@ =~= seq![TokenKind::Plus, TokenKind::Minus]);
            if let Some(operator_token) = self.match_any(kinds.as_slice()) {
                let operator = if operator_token.kind == TokenKind::Plus {
                    BinaryOperator::Add
                } else {
                    BinaryOperator::Sub
                };
                let rhs = self.factor()?;
                expr = Expression::BinaryOperator(operator, Box::new(expr), Box::new(rhs));
            } else {
                return Ok(expr);
            }
        }
    }

    fn factor(&mut self) -> (r: Result<Expression, ParseError>)
        requires
            old(self).wf(),
        ensures
            final(self).wf(),
            final(self).toks() == old(self).toks(),
            old(self).pos() <= final(self).pos(),
            expression_outcome(r, final(self).pos()) == spec_factor(
                old(self).toks(),
                old(self).pos(),
            ),
            r is Ok ==> old(self).pos() < final(self).pos(),
        decreases old(self).toks().len() - old(self).pos(), 4int,
    {
        let ghost toks = self.toks();
        let ghost p0 = self.pos();
        let mut expr = self.unary()?;
        loop
            invariant
                self.wf(),
                self.toks() == toks,
                toks == old(self).toks(),
                p0 == old(self).pos(),
                p0 < self.pos(),
                spec_factor(toks, p0) == spec_factor_rest(toks, expr@, self.pos()),
            decreases toks.len() - self.pos(),
        {
            let kinds = [TokenKind::Multiply, TokenKind::Divide];
            assert(kinds@ =~= seq![TokenKind::Multiply, TokenKind::Divide]);
            if let Some(operator_token) = self.match_any(kinds.as_slice()) {
                let operator = if operator_token.kind == TokenKind::Multiply {
                    BinaryOperator::Mul
                } else {
                    BinaryOperator::Div
                };
                let rhs = self.unary()?;
                expr = Expression::BinaryOperator(operator, Box::new(expr), Box::new(rhs));
            } else {
                return Ok(expr);
            }
        }
    }

    fn unary(&mut self) -> (r: Result<Expression, ParseError>)
        requires
            old(self).wf(),
        ensures
            final(self).wf(),
            final(self).toks() == old(self).toks(),
            old(self).pos() <= final(self).pos(),
            expression_outcome(r, final(self).pos()) == spec_unary(old(self).toks(), old(self).pos()),
            kind_at(old(self).toks(), old(self).pos()) != TokenKind::Minus && !is_primary_start(
                kind_at(old(self).toks(), old(self).pos()),
            ) ==> final(self).pos() == old(self).pos(),
            r is Ok ==> old(self).pos() < final(self).pos(),
        decreases old(self).toks().len() - old(self).pos(), 3int,
    {
        if self.match_exact(TokenKind::Minus).is_some() {
            let rhs = self.unary()?;
            Ok(Expression::Negate(Box::new(rhs)))
        } else {
            self.primary()
        }
    }

    fn primary(&mut self) -> (r: Result<Expression, ParseError>)
        requires
            old(self).wf(),
        ensures
            final(self).wf(),
            final(self).toks() == old(self).toks(),
            old(self).pos() <= final(self).pos(),
            expression_outcome(r, final(self).pos()) == spec_primary(
                old(self).toks(),
                old(self).pos(),
            ),
            !is_primary_start(kind_at(old(self).toks(), old(self).pos())) ==> final(self).pos()
                == old(self).pos(),
            r is Ok ==> old(self).pos() < final(self).pos(),
        decreases old(self).toks().len() - old(self).pos(), 2int,
    {
        if let Some(num) = self.match_exact(TokenKind::Number) {
            Ok(Expression::Scalar(Number::from_checked_literal(num.lexeme.clone())))
        } else if let Some(identifier) = self.match_exact(TokenKind::Identifier) {
            Ok(Expression::Identifier(identifier.lexeme.clone()))
        } else if self.match_exact(TokenKind::LeftParen).is_some() {
            let inner = self.expression()?;
            if self.match_exact(TokenKind::RightParen).is_none() {
                return Err(ParseError::new(ParseErrorKind::MissingClosingParen, self.next().span));
            }
            Ok(inner)
        } else {
            Err(ParseError::new(ParseErrorKind::ExpectedPrimary, self.peek().span))
        }
    }

    pub(crate) fn dimension_expression(&mut self) -> (r: Result<DimensionExpression, Unsupported>)
        requires
            old(self).wf(),
        ensures
            final(self).wf(),
            final(self).toks() == old(self).toks(),
            old(self).pos() <= final(self).pos(),
            dimension_outcome(r, final(self).pos()) == spec_dimension_expression(
                old(self).toks(),
                old(self).pos(),
            ),
            r is Ok ==> old(self).pos() < final(self).pos(),
    {
        self.dimension_factor()
    }

    fn dimension_factor(&mut self) -> (r: Result<DimensionExpression, Unsupported>)
        requires
            old(self).wf(),
        ensures
            final(self).wf(),
            final(self).toks() == old(self).toks(),
            old(self).pos() <= final(self).pos(),
            dimension_outcome(r, final(self).pos()) == spec_dimension_factor(
                old(self).toks(),
                old(self).pos(),
            ),
            r is Ok ==> old(self).pos() < final(self).pos(),
    {
        let ghost toks = self.toks();
        let ghost p0 = self.pos();
        let mut expr = self.dimension_power()?;
        loop
            invariant
                self.wf(),
                self.toks() == toks,
                toks == old(self).toks(),
                p0 == old(self).pos(),
                p0 < self.pos(),
                spec_dimension_factor(toks, p0) == spec_dimension_factor_rest(
                    toks,
                    expr@,
                    self.pos(),
                ),
            decreases toks.len() - self.pos(),
        {
            let kinds = [TokenKind::Multiply, TokenKind::Divide];
            assert(kinds@ =~= seq![TokenKind::Multiply, TokenKind::Divide]);
            if let Some(operator_token) = self.match_any(kinds.as_slice()) {
                let rhs = self.dimension_power()?;
                expr = if operator_token.kind == TokenKind::Multiply {
                    DimensionExpression::Multiply(Box::new(expr), Box::new(rhs))
                } else {
                    DimensionExpression::Divide(Box::new(expr), Box::new(rhs))
                };
            } else {
                return Ok(expr);
            }
        }
    }

    fn dimension_power(&mut self) -> (r: Result<DimensionExpression, Unsupported>)
        requires
            old(self).wf(),
        ensures
            final(self).wf(),
            final(self).toks() == old(self).toks(),
            old(self).pos() <= final(self).pos(),
            dimension_outcome(r, final(self).pos()) == spec_dimension_power(
                old(self).toks(),
                old(self).pos(),
            ),
            r is Ok ==> old(self).pos() < final(self).pos(),
    {
        let expr = self.dimension_identifier()?;
        if self.match_exact(TokenKind::Power).is_some() {
            let exponent = self.dimension_exponent()?;
            Ok(DimensionExpression::Power(Box::new(expr), exponent))
        } else {
            Ok(expr)
        }
    }

    fn dimension_exponent(&mut self) -> (r: Result<i32, Unsupported>)
        requires
            old(self).wf(),
        ensures
            final(self).wf(),
            final(self).toks() == old(self).toks(),
            old(self).pos() <= final(self).pos(),
            match r {
                Ok(n) => spec_dimension_exponent(old(self).toks(), old(self).pos()) == Ok::<
                    (int, int),
                    Unsupported,
                >((n as int, final(self).pos())),
                Err(u) => spec_dimension_exponent(old(self).toks(), old(self).pos()) == Err::<
                    (int, int),
                    Unsupported,
                >(u),
            },
            r matches Ok(n) ==> n > i32::MIN,
            kind_at(old(self).toks(), old(self).pos()) != TokenKind::Number && kind_at(
                old(self).toks(),
                old(self).pos(),
            ) != TokenKind::Minus ==> final(self).pos() == old(self).pos(),
            r is Ok ==> old(self).pos() < final(self).pos(),
        decreases old(self).toks().len() - old(self).pos(),
    {
        if let Some(token) = self.match_exact(TokenKind::Number) {
            match exponent_of(&token.lexeme) {
                Some(n) => Ok(n),
                None => Err(Unsupported::InvalidExponent),
            }
        } else if self.match_exact(TokenKind::Minus).is_some() {
            let exponent = self.dimension_exponent()?;
            Ok(-exponent)
        } else {
            Err(Unsupported::ExponentMissing)
        }
    }

    fn dimension_identifier(&mut self) -> (r: Result<DimensionExpression, Unsupported>)
        requires
            old(self).wf(),
        ensures
            final(self).wf(),
            final(self).toks() == old(self).toks(),
            old(self).pos() <= final(self).pos(),
            dimension_outcome(r, final(self).pos()) == spec_dimension_identifier(
                old(self).toks(),
                old(self).pos(),
            ),
            r is Err ==> final(self).pos() == old(self).pos(),
            r is Ok ==> old(self).pos() < final(self).pos(),
    {
        if let Some(token) = self.match_exact(TokenKind::Identifier) {
            Ok(DimensionExpression::Dimension(token.lexeme.clone()))
        } else {
            Err(Unsupported::DimensionIdentifierMissing)
        }
    }

    /// Consumes the next token when it is of the kind `token_kind`.
    fn match_exact(&mut self, token_kind: TokenKind) -> (r: Option<&'a Token>)
        requires
            old(self).wf(),
        ensures
            final(self).wf(),
            final(self).toks() == old(self).toks(),
            old(self).pos() <= final(self).pos(),
            kind_at(old(self).toks(), old(self).pos()) == token_kind ==> {
                &&& r matches Some(t) && t@ == old(self).toks()[old(self).pos()]
                &&& final(self).pos() == advance_pos(old(self).toks(), old(self).pos())
            },
            kind_at(old(self).toks(), old(self).pos()) != token_kind ==> {
                &&& r is None
                &&& *final(self) == *old(self)
            },
    {
        let token = self.peek();
        if token.kind == token_kind {
            self.advance();
            Some(token)
        } else {
            None
        }
    }

    /// Consumes the next token when it is of one of the kinds in `kinds`.
    fn match_any(&mut self, kinds: &[TokenKind]) -> (r: Option<&'a Token>)
        requires
            old(self).wf(),
        ensures
            final(self).wf(),
            final(self).toks() == old(self).toks(),
            old(self).pos() <= final(self).pos(),
            kinds@.contains(kind_at(old(self).toks(), old(self).pos())) ==> {
                &&& r matches Some(t) && t@ == old(self).toks()[old(self).pos()]
                &&& final(self).pos() == advance_pos(old(self).toks(), old(self).pos())
            },
            !kinds@.contains(kind_at(old(self).toks(), old(self).pos())) ==> {
                &&& r is None
                &&& final(self).pos() == old(self).pos()
            },
    {
        let ghost k = kind_at(self.toks(), self.pos());
        let mut i: usize = 0;
        while i < kinds.len()
            invariant
                *self == *old(self),
                self.wf(),
                k == kind_at(self.toks(), self.pos()),
                i <= kinds@.len(),
                forall|j: int| 0 <= j < i ==> kinds@[j] != k,
            decreases kinds@.len() - i,
        {
            let result = self.match_exact(kinds[i]);
            if result.is_some() {
                return result;
            }
            i = i + 1;
        }
        None
    }

    fn advance(&mut self)
        requires
            old(self).wf(),
        ensures
            final(self).wf(),
            final(self).toks() == old(self).toks(),
            old(self).pos() <= final(self).pos(),
            final(self).pos() == advance_pos(old(self).toks(), old(self).pos()),
    {
        if !self.is_at_end() {
            self.current = self.current + 1;
        }
    }

    fn peek(&self) -> (t: &'a Token)
        requires
            self.wf(),
        ensures
            t@ == self.toks()[self.pos()],
    {
        &self.tokens[self.current]
    }

    fn next(&self) -> (t: &'a Token)
        requires
            self.wf(),
        ensures
            t@ == self.toks()[advance_pos(self.toks(), self.pos())],
    {
        if self.is_at_end() {
            self.peek()
        } else {
            &self.tokens[self.current + 1]
        }
    }

    fn is_at_end(&self) -> (r: bool)
        requires
            self.wf(),
        ensures
            r == (kind_at(self.toks(), self.pos()) == TokenKind::Eof),
    {
        self.peek().kind == TokenKind::Eof
    }
}

/// The exponent written as `lexeme`: its digits read in base 10, where it has
/// no point and fits in an `i32`.
fn exponent_of(lexeme: &String) -> (r: Option<i32>)
    ensures
        match r {
            Some(n) => exponent_value(lexeme@) == Some(n as int),
            None => exponent_value(lexeme@) is None,
        },
        r matches Some(n) ==> n >= 0,
{
    let chars = collect_chars(lexeme.as_str());
    let n = chars.len();
    if n == 0 {
        return None;
    }
    let mut i: usize = 0;
    while i < n
        invariant
            n == chars@.len(),
            chars@ == lexeme@,
            i <= n,
            forall|j: int| 0 <= j < i ==> is_digit(#[trigger] chars@[j]),
        decreases n - i,
    {
        if !is_digit_char(chars[i]) {
            assert(!is_digit(chars@[i as int]));
            assert(!all_digits(lexeme@));
            return None;
        }
        i = i + 1;
    }
    assert(all_digits(chars@));
    let mut value: i32 = 0;
    let mut k: usize = 0;
    while k < n
        invariant
            n == chars@.len(),
            chars@ == lexeme@,
            all_digits(chars@),
            k <= n,
            0 <= value,
            value as int == decimal_value(chars@.take(k as int)),
        decreases n - k,
    {
        let d = (chars[k] as u32 - '0' as u32) as i32;
        assert(chars@.take(k + 1).drop_last() =~= chars@.take(k as int));
        if value > (i32::MAX - d) / 10 {
            proof {
                lemma_decimal_value_prefix(chars@, k + 1);
                assert(is_digit(chars@[k as int]));
                assert(decimal_value(chars@.take(k + 1)) == 10 * value + d);
            }
            return None;
        }
        value = value * 10 + d;
        k = k + 1;
    }
    assert(chars@.take(n as int) =~= chars@);
    Some(value)
}

/// Reading more digits never makes the value smaller.
pub proof fn lemma_decimal_value_prefix(s: Seq<char>, k: int)
    requires
        all_digits(s),
        0 <= k <= s.len(),
    ensures
        0 <= decimal_value(s.take(k)) <= decimal_value(s),
    decreases s.len() - k,
{
    if k < s.len() {
        lemma_decimal_value_prefix(s, k + 1);
        assert(s.take(k + 1).drop_last() =~= s.take(k));
        assert(is_digit(s[k]));
    } else {
        assert(s.take(k) =~= s);
        lemma_decimal_value_nonnegative(s);
    }
}

pub proof fn lemma_decimal_value_nonnegative(s: Seq<char>)
    requires
        all_digits(s),
    ensures
        decimal_value(s) >= 0,
    decreases s.len(),
{
    if s.len() > 0 {
        assert(all_digits(s.drop_last()));
        lemma_decimal_value_nonnegative(s.drop_last());
        assert(is_digit(s[s.len() - 1]));
    }
}

// ---------------------------------------------------------------------------
// The entry points
// ---------------------------------------------------------------------------

/// What parsing `input` gives: the statements, or why there are none.
pub open spec fn spec_parse(input: Seq<char>) -> Result<Seq<SpecStatement>, SpecFailure> {
    match spec_tokenize(input) {
        Err(TokenizerError::UnexpectedCharacter { character, span }) => Err(
            SpecFailure::Error(
                SpecParseError {
                    kind: SpecParseErrorKind::TokenizerUnexpectedCharacter(character),
                    span,
                },
            ),
        ),
        Ok(toks) => spec_statements(toks, 0),
    }
}

/// `input` holds a form that the parser does not handle yet.
pub open spec fn is_unsupported(input: Seq<char>) -> bool {
    spec_parse(input) matches Err(SpecFailure::Unsupported(_))
}

/// Parses `input`: the statements, one per line, or why there are none.
pub fn try_parse(input: &str) -> (r: Result<Vec<Statement>, Failure>)
    ensures
        statements_outcome(r) == spec_parse(input@),
{
    let tokens = match tokenize(input) {
        Ok(tokens) => tokens,
        Err(TokenizerError::UnexpectedCharacter { character, span }) => {
            return Err(
                Failure::Error(
                    ParseError::new(ParseErrorKind::TokenizerUnexpectedCharacter(character), span),
                ),
            );
        },
    };
    proof {
        lemma_tokenize_wf(input@);
    }
    let mut parser = Parser::new(tokens.as_slice());
    parser.parse()
}

/// Parses `input` when it holds no form that the parser does not handle yet
/// (`None` where it does).
pub fn parse_checked(input: &str) -> (r: Option<Result<Vec<Statement>, ParseError>>)
    ensures
        r is None <==> is_unsupported(input@),
        r matches Some(Ok(statements)) ==> spec_parse(input@) == Ok::<_, SpecFailure>(
            statements_view(statements@),
        ),
        r matches Some(Err(e)) ==> spec_parse(input@) == Err::<Seq<SpecStatement>, _>(
            SpecFailure::Error(e@),
        ),
{
    match try_parse(input) {
        Ok(statements) => Some(Ok(statements)),
        Err(Failure::Error(e)) => Some(Err(e)),
        Err(Failure::Unsupported(_)) => None,
    }
}

/// Parses `input` into statements, one per line.
pub fn parse(input: &str) -> (r: Result<Vec<Statement>, ParseError>)
    requires
        !is_unsupported(input@),
    ensures
        match r {
            Ok(statements) => spec_parse(input@) == Ok::<_, SpecFailure>(
                statements_view(statements@),
            ),
            Err(e) => spec_parse(input@) == Err::<Seq<SpecStatement>, _>(SpecFailure::Error(e@)),
        },
{
    match try_parse(input) {
        Ok(statements) => Ok(statements),
        Err(Failure::Error(e)) => Err(e),
        Err(Failure::Unsupported(_)) => unreached(),
    }
}

} // verus!
