use vstd::prelude::*;

use crate::tokenizer::{digits_end, is_number_literal};
use vstd::std_specs::cmp::PartialEqSpecImpl;

verus! {

/// The binary operators of expressions.
#[derive(Debug, Clone, Copy, PartialEq, Eq, Structural)]
pub enum BinaryOperator {
    Add,
    Sub,
    Mul,
    Div,
    ConvertTo,
}

/// A number literal, held as the decimal text it was written with
/// (digits, optionally followed by a point and more digits).
///
/// The value it stands for is that of the decimal text; turning it into a
/// machine float is left to the caller. Two numbers are `==` when their
/// decimal values are equal (`1`, `01`, `1.` and `1.00` are one number).
#[derive(Debug)]
pub struct Number {
    literal: String,
}

impl View for Number {
    type V = Seq<char>;

    closed spec fn view(&self) -> Seq<char> {
        self.literal@
    }
}

impl Number {
    #[verifier::type_invariant]
    spec fn literal_is_decimal(self) -> bool {
        is_number_literal(self.literal@)
    }

    /// Wraps a string that is known to be a number literal.
    pub(crate) fn from_checked_literal(literal: String) -> (n: Number)
        requires
            is_number_literal(literal@),
        ensures
            n@ == literal@,
    {
        Number { literal }
    }

    /// The number written as `text`, when `text` is a number literal
    /// (one or more ASCII digits, optionally followed by `.` and digits).
    pub fn from_literal(text: &str) -> (r: Option<Number>)
        ensures
            r is Some <==> is_number_literal(text@),
            r matches Some(n) ==> n@ == text@,
    {
        let chars = crate::tokenizer::collect_chars(text);
        if crate::tokenizer::is_number_literal_chars(&chars) {
            Some(Number { literal: text.to_owned() })
        } else {
            None
        }
    }

    /// The decimal text of the number.
    pub fn literal(&self) -> (s: &str)
        ensures
            s@ == self@,
            is_number_literal(s@),
    {
        proof {
            use_type_invariant(self);
        }
        self.literal.as_str()
    }
}

// ---------------------------------------------------------------------------
// The decimal value of a number literal
// ---------------------------------------------------------------------------

/// Where the run of `0`s that starts at `k` ends, not past `e`.
pub open spec fn zeros_end(s: Seq<char>, k: int, e: int) -> int
    decreases e - k,
{
    if k < e && s[k] == '0' {
        zeros_end(s, k + 1, e)
    } else {
        k
    }
}

/// Where the run of `0`s that ends at `k` starts, not before `b`.
pub open spec fn zeros_start(s: Seq<char>, b: int, k: int) -> int
    decreases k - b,
{
    if b < k && s[k - 1] == '0' {
        zeros_start(s, b, k - 1)
    } else {
        k
    }
}

/// The digits of the whole part of a number literal, without leading zeros.
pub open spec fn whole_digits(s: Seq<char>) -> Seq<char> {
    let e = digits_end(s, 0);
    s.subrange(zeros_end(s, 0, e), e)
}

/// Where the fraction of a number literal starts (after the point, if any).
pub open spec fn fraction_start(s: Seq<char>) -> int {
    let e = digits_end(s, 0);
    if e < s.len() {
        e + 1
    } else {
        e
    }
}

/// The digits of the fraction of a number literal, without trailing zeros.
pub open spec fn fraction_digits(s: Seq<char>) -> Seq<char> {
    let f = fraction_start(s);
    s.subrange(f, zeros_start(s, f, s.len() as int))
}

/// Two number literals stand for the same decimal value: the same digits once
/// the zeros in front of the whole part and at the end of the fraction are
/// left out.
pub open spec fn same_decimal_value(a: Seq<char>, b: Seq<char>) -> bool {
    whole_digits(a) == whole_digits(b) && fraction_digits(a) == fraction_digits(b)
}

/// Where the whole digits and the fraction digits of a number literal are.
fn decimal_parts(chars: &Vec<char>) -> (r: (usize, usize, usize, usize))
    ensures
        r.0 <= r.1 <= r.2 <= r.3 <= chars@.len(),
        chars@.subrange(r.0 as int, r.1 as int) == whole_digits(chars@),
        chars@.subrange(r.2 as int, r.3 as int) == fraction_digits(chars@),
{
    let n = chars.len();
    let e = crate::tokenizer::scan_digits(chars, 0);
    proof {
        crate::tokenizer::lemma_digits_end_bounds(chars@, 0);
    }
    let mut lo: usize = 0;
    while lo < e && chars[lo] == '0'
        invariant
            lo <= e <= n,
            n == chars@.len(),
            zeros_end(chars@, 0, e as int) == zeros_end(chars@, lo as int, e as int),
        decreases e - lo,
    {
        lo = lo + 1;
    }
    let f = if e < n {
        e + 1
    } else {
        e
    };
    let mut hi: usize = n;
    while hi > f && chars[hi - 1] == '0'
        invariant
            f <= hi <= n,
            n == chars@.len(),
            zeros_start(chars@, f as int, n as int) == zeros_start(chars@, f as int, hi as int),
        decreases hi - f,
    {
        hi = hi - 1;
    }
    (lo, e, f, hi)
}

/// Whether `a[i..j]` and `b[k..l]` hold the same characters.
fn same_range(a: &Vec<char>, i: usize, j: usize, b: &Vec<char>, k: usize, l: usize) -> (r: bool)
    requires
        i <= j <= a@.len(),
        k <= l <= b@.len(),
    ensures
        r == (a@.subrange(i as int, j as int) == b@.subrange(k as int, l as int)),
{
    if j - i != l - k {
        assert(a@.subrange(i as int, j as int).len() != b@.subrange(k as int, l as int).len());
        return false;
    }
    let ghost sa = a@.subrange(i as int, j as int);
    let ghost sb = b@.subrange(k as int, l as int);
    let mut d: usize = 0;
    while d < j - i
        invariant
            i <= j <= a@.len(),
            k <= l <= b@.len(),
            j - i == l - k,
            d <= j - i,
            sa == a@.subrange(i as int, j as int),
            sb == b@.subrange(k as int, l as int),
            forall|t: int| 0 <= t < d ==> #[trigger] sa[t] == sb[t],
        decreases j - i - d,
    {
        assert(sa[d as int] == a@[i + d]);
        assert(sb[d as int] == b@[k + d]);
        if a[i + d] != b[k + d] {
            return false;
        }
        d = d + 1;
    }
    assert(a@.subrange(i as int, j as int) =~= b@.subrange(k as int, l as int));
    true
}

impl PartialEq for Number {
    fn eq(&self, other: &Self) -> (r: bool) {
        let a = crate::tokenizer::collect_chars(self.literal.as_str());
        let b = crate::tokenizer::collect_chars(other.literal.as_str());
        let (a0, a1, a2, a3) = decimal_parts(&a);
        let (b0, b1, b2, b3) = decimal_parts(&b);
        same_range(&a, a0, a1, &b, b0, b1) && same_range(&a, a2, a3, &b, b2, b3)
    }
}

impl PartialEqSpecImpl for Number {
    open spec fn obeys_eq_spec() -> bool {
        true
    }

    open spec fn eq_spec(&self, other: &Number) -> bool {
        same_decimal_value(self@, other@)
    }
}

/// Expressions.
#[derive(Debug, PartialEq)]
pub enum Expression {
    Scalar(Number),
    Identifier(String),
    Negate(Box<Expression>),
    BinaryOperator(BinaryOperator, Box<Expression>, Box<Expression>),
}

/// The mathematical model of an [`Expression`]: names and numbers as
/// character sequences.
pub enum SpecExpression {
    Scalar(Seq<char>),
    Identifier(Seq<char>),
    Negate(Box<SpecExpression>),
    BinaryOperator(BinaryOperator, Box<SpecExpression>, Box<SpecExpression>),
}

pub open spec fn expression_view(e: Expression) -> SpecExpression
    decreases e,
{
    match e {
        Expression::Scalar(n) => SpecExpression::Scalar(n@),
        Expression::Identifier(s) => SpecExpression::Identifier(s@),
        Expression::Negate(inner) => SpecExpression::Negate(Box::new(expression_view(*inner))),
        Expression::BinaryOperator(op, lhs, rhs) => SpecExpression::BinaryOperator(
            op,
            Box::new(expression_view(*lhs)),
            Box::new(expression_view(*rhs)),
        ),
    }
}

impl View for Expression {
    type V = SpecExpression;

    open spec fn view(&self) -> SpecExpression {
        expression_view(*self)
    }
}

/// Expressions over dimensions, as in `dimension energy = mass * length^2 / time^2`.
#[derive(Debug, PartialEq)]
pub enum DimensionExpression {
    Dimension(String),
    Multiply(Box<DimensionExpression>, Box<DimensionExpression>),
    Divide(Box<DimensionExpression>, Box<DimensionExpression>),
    Power(Box<DimensionExpression>, i32),
}

/// The mathematical model of a [`DimensionExpression`].
pub enum SpecDimensionExpression {
    Dimension(Seq<char>),
    Multiply(Box<SpecDimensionExpression>, Box<SpecDimensionExpression>),
    Divide(Box<SpecDimensionExpression>, Box<SpecDimensionExpression>),
    Power(Box<SpecDimensionExpression>, int),
}

pub open spec fn dimension_view(d: DimensionExpression) -> SpecDimensionExpression
    decreases d,
{
    match d {
        DimensionExpression::Dimension(s) => SpecDimensionExpression::Dimension(s@),
        DimensionExpression::Multiply(lhs, rhs) => SpecDimensionExpression::Multiply(
            Box::new(dimension_view(*lhs)),
            Box::new(dimension_view(*rhs)),
        ),
        DimensionExpression::Divide(lhs, rhs) => SpecDimensionExpression::Divide(
            Box::new(dimension_view(*lhs)),
            Box::new(dimension_view(*rhs)),
        ),
        DimensionExpression::Power(base, n) => SpecDimensionExpression::Power(
            Box::new(dimension_view(*base)),
            n as int,
        ),
    }
}

impl View for DimensionExpression {
    type V = SpecDimensionExpression;

    open spec fn view(&self) -> SpecDimensionExpression {
        dimension_view(*self)
    }
}

/// The commands of the interactive prompt.
#[derive(Debug, Clone, Copy, PartialEq, Eq, Structural)]
pub enum Command {
    List,
    Exit,
}

/// Statements: one per line of input.
#[derive(Debug, PartialEq)]
pub enum Statement {
    Command(Command),
    Expression(Expression),
    DeclareVariable(String, Expression),
    DeclareDimension(String, Option<DimensionExpression>),
}

/// The mathematical model of a [`Statement`].
pub enum SpecStatement {
    Command(Command),
    Expression(SpecExpression),
    DeclareVariable(Seq<char>, SpecExpression),
    DeclareDimension(Seq<char>, Option<SpecDimensionExpression>),
}

impl View for Statement {
    type V = SpecStatement;

    open spec fn view(&self) -> SpecStatement {
        match *self {
            Statement::Command(c) => SpecStatement::Command(c),
            Statement::Expression(e) => SpecStatement::Expression(e@),
            Statement::DeclareVariable(name, e) => SpecStatement::DeclareVariable(name@, e@),
            Statement::DeclareDimension(name, d) => SpecStatement::DeclareDimension(
                name@,
                match d {
                    Some(d) => Some(d@),
                    None => None,
                },
            ),
        }
    }
}

} // verus!
