//! Laws on inputs made of pieces: lines parse one after the other, and
//! parentheses around an expression only group it.
use vstd::prelude::*;

use crate::agreement::{
    after_expression, agree_expression, extend_expression, extend_statement, extends_at,
    law_parse_reads_only_token_texts, law_statements_after_a_prefix, same_failure, same_text,
};
use crate::ast::{SpecExpression, SpecStatement};
use crate::grammar::{
    kind_at, spec_conversion, spec_expression, spec_factor, spec_primary, spec_statement,
    spec_statements, spec_term, spec_unary,
};
use crate::laws::{
    law_tokens_are_pieces_of_the_input, lemma_scan_from_shift, shift_scan, shift_token,
};
use crate::parser::{spec_parse, SpecFailure};
use crate::tokenizer::{
    digits_end, identifier_end, is_digit, is_identifier_char, lemma_digits_end_bounds,
    lemma_identifier_end_bounds, lemma_scan_from_wf, lemma_scan_token_advances, lemma_tokenize_wf,
    prepend_tokens, scan_from, scan_token, spec_tokenize, SpecToken, TokenKind, TokenizerError,
};

verus! {

/// A character that ends every token before it and starts a token of its own.
pub open spec fn is_stopper(c: char) -> bool {
    c == '\n' || c == ')'
}

/// The same tokens but for their places, or an error at the same character.
pub open spec fn same_scan(
    r1: Result<Seq<SpecToken>, TokenizerError>,
    r2: Result<Seq<SpecToken>, TokenizerError>,
) -> bool {
    match r1 {
        Ok(t1) => r2 is Ok && same_text(t1, r2->Ok_0),
        Err(TokenizerError::UnexpectedCharacter { character, span }) => r2 matches Err(
            TokenizerError::UnexpectedCharacter { character: c2, span: _ },
        ) && c2 == character,
    }
}

proof fn lemma_digits_end_before_stopper(a: Seq<char>, tail: Seq<char>, k: int)
    requires
        tail.len() > 0,
        is_stopper(tail[0]),
        0 <= k <= a.len(),
    ensures
        digits_end(a + tail, k) == digits_end(a, k),
    decreases a.len() - k,
{
    if k < a.len() {
        assert((a + tail)[k] == a[k]);
        if is_digit(a[k]) {
            lemma_digits_end_before_stopper(a, tail, k + 1);
        }
    } else {
        assert((a + tail)[k] == tail[0]);
    }
}

proof fn lemma_identifier_end_before_stopper(a: Seq<char>, tail: Seq<char>, k: int)
    requires
        tail.len() > 0,
        is_stopper(tail[0]),
        0 <= k <= a.len(),
    ensures
        identifier_end(a + tail, k) == identifier_end(a, k),
    decreases a.len() - k,
{
    if k < a.len() {
        assert((a + tail)[k] == a[k]);
        if is_identifier_char(a[k]) {
            lemma_identifier_end_before_stopper(a, tail, k + 1);
        }
    } else {
        assert((a + tail)[k] == tail[0]);
    }
}

proof fn lemma_scan_token_before_stopper(a: Seq<char>, tail: Seq<char>, i: int)
    requires
        tail.len() > 0,
        is_stopper(tail[0]),
        0 <= i < a.len(),
    ensures
        scan_token(a + tail, i) == scan_token(a, i),
{
    let s = a + tail;
    assert(s[i] == a[i]);
    if i + 1 < a.len() {
        assert(s[i + 1] == a[i + 1]);
    } else {
        assert(s[i + 1] == tail[0]);
    }
    lemma_digits_end_before_stopper(a, tail, i + 1);
    lemma_digits_end_bounds(a, i + 1);
    let j = digits_end(a, i + 1);
    if j < a.len() {
        assert(s[j] == a[j]);
        lemma_digits_end_before_stopper(a, tail, j + 1);
    } else {
        assert(s[j] == tail[0]);
    }
    lemma_identifier_end_before_stopper(a, tail, i + 1);
    lemma_identifier_end_bounds(a, i + 1);
    let e = identifier_end(a, i + 1);
    assert(s.subrange(i, e) =~= a.subrange(i, e));
}

/// Scanning `a` followed by a stopper gives the tokens of `a`, its `Eof`
/// replaced by what is scanned from the stopper on.
proof fn lemma_scan_before_stopper(a: Seq<char>, tail: Seq<char>, i: int, line: int)
    requires
        tail.len() > 0,
        is_stopper(tail[0]),
        0 <= i <= a.len(),
    ensures
        scan_from(a, i, line) matches Err(e) ==> scan_from(a + tail, i, line) == Err::<
            Seq<SpecToken>,
            TokenizerError,
        >(e),
        scan_from(a, i, line) matches Ok(ta) ==> exists|l: int|
            scan_from(a + tail, i, line) == prepend_tokens(
                ta.drop_last(),
                #[trigger] scan_from(a + tail, a.len() as int, l),
            ),
    decreases a.len() - i,
{
    let s = a + tail;
    if i == a.len() {
        let ta = scan_from(a, i, line)->Ok_0;
        assert(ta.drop_last() =~= Seq::<SpecToken>::empty());
        let r = scan_from(s, a.len() as int, line);
        if let Ok(t) = r {
            assert(Seq::<SpecToken>::empty() + t =~= t);
        }
        assert(scan_from(s, i, line) == prepend_tokens(ta.drop_last(), r));
    } else {
        assert(s[i] == a[i]);
        if crate::tokenizer::is_blank(a[i]) {
            lemma_scan_before_stopper(a, tail, i + 1, line);
            if let Ok(ta) = scan_from(a, i, line) {
                let l = choose|l: int|
                    scan_from(a + tail, i + 1, line) == prepend_tokens(
                        ta.drop_last(),
                        #[trigger] scan_from(a + tail, a.len() as int, l),
                    );
                assert(scan_from(s, i, line) == prepend_tokens(
                    ta.drop_last(),
                    scan_from(s, a.len() as int, l),
                ));
            }
        } else {
            lemma_scan_token_before_stopper(a, tail, i);
            match scan_token(a, i) {
                None => {},
                Some((kind, j)) => {
                    lemma_scan_token_advances(a, i);
                    let next_line = if kind == TokenKind::Newline {
                        line + 1
                    } else {
                        line
                    };
                    lemma_scan_before_stopper(a, tail, j, next_line);
                    assert(s.subrange(i, j) =~= a.subrange(i, j));
                    if let Ok(ta) = scan_from(a, i, line) {
                        let rest = scan_from(a, j, next_line)->Ok_0;
                        lemma_scan_from_wf(a, j, next_line);
                        let token = ta[0];
                        assert(ta == seq![token] + rest);
                        let l = choose|l: int|
                            scan_from(a + tail, j, next_line) == prepend_tokens(
                                rest.drop_last(),
                                #[trigger] scan_from(a + tail, a.len() as int, l),
                            );
                        let x = scan_from(s, a.len() as int, l);
                        assert(ta.drop_last() =~= seq![token] + rest.drop_last());
                        if let Ok(xt) = x {
                            assert(seq![token] + (rest.drop_last() + xt) =~= (seq![token]
                                + rest.drop_last()) + xt);
                        }
                        assert(scan_from(s, i, line) == prepend_tokens(ta.drop_last(), x));
                    }
                },
            }
        }
    }
}

proof fn lemma_scan_lines(s: Seq<char>, i: int, l1: int, l2: int)
    ensures
        same_scan(scan_from(s, i, l1), scan_from(s, i, l2)),
    decreases s.len() - i,
{
    if i < 0 || i >= s.len() {
    } else if crate::tokenizer::is_blank(s[i]) {
        lemma_scan_lines(s, i + 1, l1, l2);
    } else {
        match scan_token(s, i) {
            None => {},
            Some((kind, j)) => {
                lemma_scan_token_advances(s, i);
                let n1 = if kind == TokenKind::Newline {
                    l1 + 1
                } else {
                    l1
                };
                let n2 = if kind == TokenKind::Newline {
                    l2 + 1
                } else {
                    l2
                };
                lemma_scan_lines(s, j, n1, n2);
                if let Ok(r1) = scan_from(s, j, n1) {
                    let r2 = scan_from(s, j, n2)->Ok_0;
                    let t1 = scan_from(s, i, l1)->Ok_0;
                    let t2 = scan_from(s, i, l2)->Ok_0;
                    assert forall|k: int| 0 <= k < t1.len() implies (#[trigger] t1[k]).kind
                        == t2[k].kind && t1[k].lexeme == t2[k].lexeme by {
                        if k > 0 {
                            assert(t1[k] == r1[k - 1]);
                            assert(t2[k] == r2[k - 1]);
                        }
                    }
                }
            },
        }
    }
}

proof fn lemma_shift_same_text(r: Result<Seq<SpecToken>, TokenizerError>, n: int)
    requires
        r is Ok,
    ensures
        shift_scan(r, n) is Ok,
        same_text(shift_scan(r, n)->Ok_0, r->Ok_0),
{
    let t = r->Ok_0;
    let u = shift_scan(r, n)->Ok_0;
    assert forall|k: int| 0 <= k < u.len() implies (#[trigger] u[k]).kind == t[k].kind
        && u[k].lexeme == t[k].lexeme by {
        assert(u[k] == shift_token(t[k], n));
    }
}

proof fn lemma_same_text_compose(t1: Seq<SpecToken>, t2: Seq<SpecToken>, t3: Seq<SpecToken>)
    requires
        same_text(t1, t2),
        same_text(t2, t3),
    ensures
        same_text(t3, t1),
{
    assert forall|k: int| 0 <= k < t3.len() implies (#[trigger] t3[k]).kind == t1[k].kind
        && t3[k].lexeme == t1[k].lexeme by {
        assert(t1[k].kind == t2[k].kind);
        assert(t2[k].kind == t3[k].kind);
    }
}

pub open spec fn has_no_newline(a: Seq<char>) -> bool {
    forall|k: int| 0 <= k < a.len() ==> #[trigger] a[k] != '\n'
}

proof fn lemma_no_newline_tokens(a: Seq<char>, i: int, line: int)
    requires
        has_no_newline(a),
    ensures
        scan_from(a, i, line) matches Ok(t) ==> forall|k: int|
            0 <= k < t.len() ==> (#[trigger] t[k]).kind != TokenKind::Newline,
    decreases a.len() - i,
{
    if i < 0 || i >= a.len() {
    } else if crate::tokenizer::is_blank(a[i]) {
        lemma_no_newline_tokens(a, i + 1, line);
    } else {
        match scan_token(a, i) {
            None => {},
            Some((kind, j)) => {
                lemma_scan_token_advances(a, i);
                assert(a[i] != '\n');
                lemma_no_newline_tokens(a, j, line);
                if let Ok(t) = scan_from(a, i, line) {
                    let rest = scan_from(a, j, line)->Ok_0;
                    assert forall|k: int| 0 <= k < t.len() implies (#[trigger] t[k]).kind
                        != TokenKind::Newline by {
                        if k > 0 {
                            assert(t[k] == rest[k - 1]);
                        }
                    }
                }
            },
        }
    }
}

/// The tokens of `a`, a newline, `b`: those of `a` without their `Eof`, a
/// newline token, then tokens with the kinds and texts of those of `b`; or
/// an error at the same character as in `b`.
proof fn lemma_tokens_of_two_lines(a: Seq<char>, b: Seq<char>)
    requires
        a.len() + 1 + b.len() <= usize::MAX,
        spec_tokenize(a) is Ok,
    ensures
        spec_tokenize(b) is Err ==> same_scan(spec_tokenize(b), spec_tokenize(a + seq!['\n'] + b)),
        spec_tokenize(b) is Ok ==> exists|nl_token: SpecToken, r: Seq<SpecToken>|
            {
                &&& nl_token.kind == TokenKind::Newline
                &&& #[trigger] spec_tokenize(a + seq!['\n'] + b) == Ok::<_, TokenizerError>(
                    spec_tokenize(a)->Ok_0.drop_last() + seq![nl_token] + r,
                )
                &&& same_text(spec_tokenize(b)->Ok_0, r)
            },
{
    let nl = seq!['\n'];
    let tail = nl + b;
    let c = a + nl + b;
    assert(c =~= a + tail);
    let ta = spec_tokenize(a)->Ok_0;
    lemma_scan_before_stopper(a, tail, 0, 0);
    let l = choose|l: int|
        scan_from(a + tail, 0, 0) == prepend_tokens(
            ta.drop_last(),
            #[trigger] scan_from(a + tail, a.len() as int, l),
        );
    assert(c[a.len() as int] == '\n');
    assert(scan_token(c, a.len() as int) == Some((TokenKind::Newline, a.len() + 1int)));
    let x = scan_from(c, a.len() + 1int, l + 1);
    lemma_scan_from_shift(a + nl, b, 0, l + 1);
    lemma_scan_lines(b, 0, l + 1, 0);
    let b1 = scan_from(b, 0, l + 1);
    let bt = spec_tokenize(b);
    if let Ok(t1) = b1 {
        let r = x->Ok_0;
        lemma_shift_same_text(b1, a.len() + 1int);
        lemma_same_text_compose(r, t1, bt->Ok_0);
        lemma_same_text_compose(bt->Ok_0, r, t1);
        let nl_token = SpecToken {
            kind: TokenKind::Newline,
            lexeme: c.subrange(a.len() as int, a.len() + 1int),
            span: crate::tokenizer::span_at(l, a.len() as int),
        };
        assert(ta.drop_last() + (seq![nl_token] + r) =~= ta.drop_last() + seq![nl_token] + r);
        assert(spec_tokenize(c) == Ok::<_, TokenizerError>(
            ta.drop_last() + seq![nl_token] + r,
        ));
    }
}

/// The statements of a line that holds one statement, a newline token and
/// more tokens: that statement, then the statements of the rest.
proof fn lemma_statements_of_two_lines(
    ta: Seq<SpecToken>,
    nl_token: SpecToken,
    r: Seq<SpecToken>,
    bt: Seq<SpecToken>,
)
    requires
        crate::tokenizer::tokens_wf(ta),
        forall|k: int| 0 <= k < ta.len() - 1 ==> (#[trigger] ta[k]).kind != TokenKind::Eof,
        forall|k: int| 0 <= k < ta.len() ==> (#[trigger] ta[k]).kind != TokenKind::Newline,
        spec_statements(ta, 0) is Ok,
        spec_statements(ta, 0)->Ok_0.len() == 1,
        nl_token.kind == TokenKind::Newline,
        same_text(bt, r),
    ensures
        spec_statements(bt, 0) matches Ok(vb) ==> spec_statements(
            ta.drop_last() + seq![nl_token] + r,
            0,
        ) == Ok::<_, SpecFailure>(spec_statements(ta, 0)->Ok_0 + vb),
        spec_statements(bt, 0) matches Err(f) ==> spec_statements(
            ta.drop_last() + seq![nl_token] + r,
            0,
        ) is Err && same_failure(
            f,
            spec_statements(ta.drop_last() + seq![nl_token] + r, 0)->Err_0,
        ),
{
    let pre = ta.drop_last() + seq![nl_token];
    let t = pre + r;
    let m = ta.len() - 1;
    assert(kind_at(ta, 0) != TokenKind::Eof);
    assert(spec_statement(ta, 0) is Ok);
    let (s, q) = spec_statement(ta, 0)->Ok_0;
    assert(kind_at(ta, q) == TokenKind::Eof);
    assert(spec_statements(ta, 0)->Ok_0 == seq![s]);
    assert forall|i: int| 0 <= i < m implies #[trigger] ta[i] == t[i] by {
        assert(t[i] == ta.drop_last()[i]);
    }
    assert(t[m] == nl_token);
    assert(extends_at(ta, t, m));
    extend_statement(ta, t, m, 0);
    crate::agreement::lemma_statement_progress(ta, 0);
    assert(q == m) by {
        if q < m {
            assert(ta[q].kind != TokenKind::Eof);
        }
    }
    assert(t[0] == ta[0]);
    assert(spec_statement(t, 0) == Ok::<_, SpecFailure>((s, m)));
    law_statements_after_a_prefix(pre, r);
    law_parse_reads_only_token_texts(bt, r);
    assert(spec_statements(t, m + 1) == spec_statements(r, 0));
}

/// Two lines parse one after the other: when the line `a` holds one statement,
/// the input `a`, a newline, `b` gives that statement followed by the
/// statements of `b`, or fails where `b` fails, in the same way.
pub proof fn law_lines_parse_one_after_another(a: Seq<char>, b: Seq<char>)
    requires
        has_no_newline(a),
        a.len() + 1 + b.len() <= usize::MAX,
        spec_parse(a) is Ok,
        spec_parse(a)->Ok_0.len() == 1,
    ensures
        spec_parse(b) matches Ok(vb) ==> spec_parse(a + seq!['\n'] + b) == Ok::<_, SpecFailure>(
            spec_parse(a)->Ok_0 + vb,
        ),
        spec_parse(b) matches Err(f) ==> spec_parse(a + seq!['\n'] + b) is Err && same_failure(
            f,
            spec_parse(a + seq!['\n'] + b)->Err_0,
        ),
{
    let c = a + seq!['\n'] + b;
    let ta = spec_tokenize(a)->Ok_0;
    lemma_tokenize_wf(a);
    law_tokens_are_pieces_of_the_input(a);
    lemma_no_newline_tokens(a, 0, 0);
    lemma_tokens_of_two_lines(a, b);
    if spec_tokenize(b) is Ok {
        let (nl_token, r) = choose|nl_token: SpecToken, r: Seq<SpecToken>|
            {
                &&& nl_token.kind == TokenKind::Newline
                &&& #[trigger] spec_tokenize(c) == Ok::<_, TokenizerError>(
                    ta.drop_last() + seq![nl_token] + r,
                )
                &&& same_text(spec_tokenize(b)->Ok_0, r)
            };
        lemma_statements_of_two_lines(ta, nl_token, r, spec_tokenize(b)->Ok_0);
    }
}

/// The tokens of `(`, `s`, `)`: a `(` token, then tokens with the kinds and
/// texts of those of `s` but a `)` token in place of its `Eof`, then `Eof`.
proof fn lemma_tokens_in_parentheses(s: Seq<char>) -> (r: (SpecToken, Seq<SpecToken>))
    requires
        s.len() + 2 <= usize::MAX,
        spec_tokenize(s) is Ok,
    ensures
        r.0.kind == TokenKind::LeftParen,
        spec_tokenize(seq!['('] + s + seq![')']) == Ok::<_, TokenizerError>(seq![r.0] + r.1),
        r.1.len() == spec_tokenize(s)->Ok_0.len() + 1,
        forall|i: int|
            0 <= i < spec_tokenize(s)->Ok_0.len() - 1 ==> (#[trigger] r.1[i]).kind
                == spec_tokenize(s)->Ok_0[i].kind && r.1[i].lexeme == spec_tokenize(
                s,
            )->Ok_0[i].lexeme,
        r.1[r.1.len() - 2].kind == TokenKind::RightParen,
        r.1[r.1.len() - 1].kind == TokenKind::Eof,
{
    let open = seq!['('];
    let close = seq![')'];
    let inner = s + close;
    let c = open + s + close;
    assert(c =~= open + inner);
    let ts = spec_tokenize(s)->Ok_0;
    lemma_tokenize_wf(s);
    lemma_scan_before_stopper(s, close, 0, 0);
    let l = choose|l: int|
        scan_from(s + close, 0, 0) == prepend_tokens(
            ts.drop_last(),
            #[trigger] scan_from(s + close, s.len() as int, l),
        );
    assert(inner[s.len() as int] == ')');
    assert(scan_token(inner, s.len() as int) == Some((TokenKind::RightParen, s.len() + 1int)));
    let rp = SpecToken {
        kind: TokenKind::RightParen,
        lexeme: inner.subrange(s.len() as int, s.len() + 1int),
        span: crate::tokenizer::span_at(l, s.len() as int),
    };
    let eof = crate::tokenizer::eof_token(l, s.len() + 1int);
    assert(scan_from(inner, s.len() + 1int, l) == Ok::<_, TokenizerError>(seq![eof]));
    assert(scan_from(inner, s.len() as int, l) == Ok::<_, TokenizerError>(seq![rp] + seq![eof]));
    let u = ts.drop_last() + (seq![rp] + seq![eof]);
    assert(scan_from(inner, 0, 0) == Ok::<_, TokenizerError>(u));
    assert(u.len() == ts.len() + 1);
    lemma_scan_from_shift(open, inner, 0, 0);
    assert(c[0] == '(');
    assert(scan_token(c, 0) == Some((TokenKind::LeftParen, 1int)));
    let lp = SpecToken {
        kind: TokenKind::LeftParen,
        lexeme: c.subrange(0, 1),
        span: crate::tokenizer::span_at(0, 0),
    };
    let v = shift_scan(scan_from(inner, 0, 0), 1)->Ok_0;
    assert(scan_from(c, 1, 0) == scan_from(open + inner, 0 + open.len() as int, 0));
    assert(spec_tokenize(c) == Ok::<_, TokenizerError>(seq![lp] + v));
    assert forall|i: int| 0 <= i < ts.len() - 1 implies (#[trigger] v[i]).kind == ts[i].kind
        && v[i].lexeme == ts[i].lexeme by {
        assert(v[i] == shift_token(u[i], 1));
        assert(u[i] == ts.drop_last()[i]);
    }
    assert(v[v.len() - 2] == shift_token(u[u.len() - 2], 1));
    assert(v[v.len() - 1] == shift_token(u[u.len() - 1], 1));
    (lp, v)
}

/// An expression parsed from `(` at `0` to the `)` at `m + 1` and `Eof` after.
proof fn lemma_parenthesized_expression(t: Seq<SpecToken>, e: SpecExpression, m: int)
    requires
        t.len() == m + 3,
        0 <= m,
        t[0].kind == TokenKind::LeftParen,
        spec_expression(t, 1) == Ok::<_, crate::parser::SpecParseError>((e, m + 1)),
        t[m + 1].kind == TokenKind::RightParen,
        t[m + 2].kind == TokenKind::Eof,
    ensures
        spec_statements(t, 0) == Ok::<_, SpecFailure>(seq![SpecStatement::Expression(e)]),
{
    assert(spec_primary(t, 0) == Ok::<_, crate::parser::SpecParseError>((e, m + 2)));
    assert(spec_unary(t, 0) == spec_primary(t, 0));
    assert(spec_factor(t, 0) == Ok::<_, crate::parser::SpecParseError>((e, m + 2)));
    assert(spec_term(t, 0) == Ok::<_, crate::parser::SpecParseError>((e, m + 2)));
    assert(spec_conversion(t, 0) == Ok::<_, crate::parser::SpecParseError>((e, m + 2)));
    assert(spec_expression(t, 0) == Ok::<_, crate::parser::SpecParseError>((e, m + 2)));
    assert(spec_statement(t, 0) == Ok::<_, SpecFailure>((SpecStatement::Expression(e), m + 2)));
}

/// A line that is one expression statement: the expression spans all its
/// tokens up to `Eof`.
proof fn lemma_one_expression_statement(ts: Seq<SpecToken>, e: SpecExpression)
    requires
        crate::tokenizer::tokens_wf(ts),
        forall|k: int| 0 <= k < ts.len() - 1 ==> (#[trigger] ts[k]).kind != TokenKind::Eof,
        forall|k: int| 0 <= k < ts.len() ==> (#[trigger] ts[k]).kind != TokenKind::Newline,
        spec_statements(ts, 0) == Ok::<_, SpecFailure>(seq![SpecStatement::Expression(e)]),
    ensures
        spec_expression(ts, 0) == Ok::<_, crate::parser::SpecParseError>((e, ts.len() - 1)),
{
    let m = ts.len() - 1;
    let one = seq![SpecStatement::Expression(e)];
    assert(one.len() == 1 && one[0] == SpecStatement::Expression(e));
    assert(kind_at(ts, 0) != TokenKind::Eof) by {
        if kind_at(ts, 0) == TokenKind::Eof {
            assert(spec_statements(ts, 0) == Ok::<_, SpecFailure>(Seq::<SpecStatement>::empty()));
        }
    }
    assert(spec_statement(ts, 0) is Ok);
    let (st, q) = spec_statement(ts, 0)->Ok_0;
    assert(kind_at(ts, q) != TokenKind::Newline);
    assert(kind_at(ts, q) == TokenKind::Eof);
    assert(spec_statements(ts, 0) == Ok::<_, SpecFailure>(seq![st]));
    assert(seq![st][0] == st);
    assert(st == SpecStatement::Expression(e));
    assert(spec_expression(ts, 0) == Ok::<_, crate::parser::SpecParseError>((e, q)));
    crate::agreement::lemma_statement_progress(ts, 0);
    assert(extends_at(ts, ts, m));
    extend_statement(ts, ts, m, 0);
    assert(q == m) by {
        if q < m {
            assert(ts[q].kind != TokenKind::Eof);
        }
    }
}

/// The tokens of a line with the last two tokens of `v` in place of its `Eof`.
proof fn lemma_close_tokens(ts: Seq<SpecToken>, v: Seq<SpecToken>) -> (u: Seq<SpecToken>)
    requires
        crate::tokenizer::tokens_wf(ts),
        v.len() == ts.len() + 1,
        forall|i: int|
            0 <= i < ts.len() - 1 ==> (#[trigger] v[i]).kind == ts[i].kind && v[i].lexeme
                == ts[i].lexeme,
        v[v.len() - 2].kind == TokenKind::RightParen,
    ensures
        extends_at(ts, u, ts.len() - 1),
        same_text(u, v),
{
    let m = ts.len() - 1;
    let u = ts.drop_last() + seq![v[m], v[m + 1]];
    assert forall|i: int| 0 <= i < m implies #[trigger] ts[i] == u[i] by {
        assert(u[i] == ts.drop_last()[i]);
    }
    assert(u[m] == v[m]);
    assert forall|i: int| 0 <= i < u.len() implies (#[trigger] u[i]).kind == v[i].kind
        && u[i].lexeme == v[i].lexeme by {
        if i < m {
            assert(u[i] == ts[i]);
        }
    }
    u
}

/// The expression of a line, read where a `)` stands in place of its `Eof`.
proof fn lemma_expression_before_close(ts: Seq<SpecToken>, v: Seq<SpecToken>, e: SpecExpression)
    requires
        crate::tokenizer::tokens_wf(ts),
        spec_expression(ts, 0) == Ok::<_, crate::parser::SpecParseError>((e, ts.len() - 1)),
        v.len() == ts.len() + 1,
        forall|i: int|
            0 <= i < ts.len() - 1 ==> (#[trigger] v[i]).kind == ts[i].kind && v[i].lexeme
                == ts[i].lexeme,
        v[v.len() - 2].kind == TokenKind::RightParen,
    ensures
        spec_expression(v, 0) == Ok::<_, crate::parser::SpecParseError>((e, ts.len() - 1)),
{
    let u = lemma_close_tokens(ts, v);
    extend_expression(ts, u, ts.len() - 1, 0);
    agree_expression(u, v, 0);
}

/// A line of one expression statement, put between a `(` token and the
/// tokens that `v` holds: `)` in place of its `Eof`, then `Eof`.
proof fn lemma_parenthesized_line(
    ts: Seq<SpecToken>,
    lp: SpecToken,
    v: Seq<SpecToken>,
    e: SpecExpression,
)
    requires
        crate::tokenizer::tokens_wf(ts),
        forall|k: int| 0 <= k < ts.len() - 1 ==> (#[trigger] ts[k]).kind != TokenKind::Eof,
        forall|k: int| 0 <= k < ts.len() ==> (#[trigger] ts[k]).kind != TokenKind::Newline,
        spec_statements(ts, 0) == Ok::<_, SpecFailure>(seq![SpecStatement::Expression(e)]),
        lp.kind == TokenKind::LeftParen,
        v.len() == ts.len() + 1,
        forall|i: int|
            0 <= i < ts.len() - 1 ==> (#[trigger] v[i]).kind == ts[i].kind && v[i].lexeme
                == ts[i].lexeme,
        v[v.len() - 2].kind == TokenKind::RightParen,
        v[v.len() - 1].kind == TokenKind::Eof,
    ensures
        spec_statements(seq![lp] + v, 0) == Ok::<_, SpecFailure>(
            seq![SpecStatement::Expression(e)],
        ),
{
    let m = ts.len() - 1;
    lemma_one_expression_statement(ts, e);
    lemma_expression_before_close(ts, v, e);
    after_expression(seq![lp], v, 0);
    let t = seq![lp] + v;
    assert(t[0] == lp);
    assert(t[m + 2] == v[m + 1]);
    assert(t[m + 1] == v[m]);
    lemma_parenthesized_expression(t, e, m);
}

/// Parentheses only group: when the line `s` is one expression, `(`, `s`, `)`
/// is the same expression, with nothing added around it.
pub proof fn law_parentheses_only_group(s: Seq<char>, e: SpecExpression)
    requires
        has_no_newline(s),
        s.len() + 2 <= usize::MAX,
        spec_parse(s) == Ok::<_, SpecFailure>(seq![SpecStatement::Expression(e)]),
    ensures
        spec_parse(seq!['('] + s + seq![')']) == Ok::<_, SpecFailure>(
            seq![SpecStatement::Expression(e)],
        ),
{
    let ts = spec_tokenize(s)->Ok_0;
    lemma_tokenize_wf(s);
    law_tokens_are_pieces_of_the_input(s);
    lemma_no_newline_tokens(s, 0, 0);
    let (lp, v) = lemma_tokens_in_parentheses(s);
    lemma_parenthesized_line(ts, lp, v, e);
}

} // verus!
