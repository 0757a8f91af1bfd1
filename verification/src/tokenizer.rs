use vstd::prelude::*;

use crate::span::Span;

verus! {

/// The kinds of tokens.
#[derive(Debug, Clone, Copy, PartialEq, Eq, Structural)]
pub enum TokenKind {
    // Brackets
    LeftParen,
    RightParen,
    // Operators and special signs
    Plus,
    Minus,
    Multiply,
    Power,
    Divide,
    Arrow,
    Equal,
    // Keywords
    Let,
    Dimension,
    // Commands
    List,
    Exit,
    // Variable-length tokens
    Number,
    Identifier,
    // Other
    Newline,
    Eof,
}

/// The mathematical model of a [`Token`].
pub struct SpecToken {
    pub kind: TokenKind,
    pub lexeme: Seq<char>,
    pub span: Span,
}

/// A token: its kind, the text it was read from, and where that text starts.
#[derive(Debug, Clone, PartialEq, Eq)]
pub struct Token {
    pub kind: TokenKind,
    pub lexeme: String,
    pub span: Span,
}

impl View for Token {
    type V = SpecToken;

    open spec fn view(&self) -> SpecToken {
        SpecToken { kind: self.kind, lexeme: self.lexeme@, span: self.span }
    }
}

/// Why the input could not be split into tokens.
#[derive(Debug, Clone, Copy, PartialEq, Eq)]
pub enum TokenizerError {
    UnexpectedCharacter { character: char, span: Span },
}

// ---------------------------------------------------------------------------
// Character classes
// ---------------------------------------------------------------------------

/// What `char::is_alphanumeric` of std returns for `c` (Unicode's
/// `Alphabetic` or `Numeric` properties).
pub uninterp spec fn char_is_alphanumeric(c: char) -> bool;

pub open spec fn is_ascii_alphanumeric(c: char) -> bool {
    ('a' <= c && c <= 'z') || ('A' <= c && c <= 'Z') || is_digit(c)
}

/// Whether `c` is a letter or a numeral: among ASCII characters exactly the
/// letters and digits, beyond ASCII the named result of std.
pub open spec fn is_alphanumeric_char(c: char) -> bool {
    if c <= '\x7f' {
        is_ascii_alphanumeric(c)
    } else {
        char_is_alphanumeric(c)
    }
}

/// Calls `char::is_alphanumeric` of std. Claimed of it: on an ASCII character
/// it is true exactly for the letters `a`-`z`, `A`-`Z` and the digits `0`-`9`
/// (the ASCII characters that are `Alphabetic` or `Numeric`); beyond ASCII its
/// result is the named value `char_is_alphanumeric(c)`, which depends on `c`
/// alone (std's fixed Unicode tables) and of which nothing more is stated.
#[verifier::external_body]
fn is_alphanumeric(c: char) -> (r: bool)
    ensures
        c <= '\x7f' ==> r == is_ascii_alphanumeric(c),
        c > '\x7f' ==> r == char_is_alphanumeric(c),
{
    c.is_alphanumeric()
}

pub open spec fn is_digit(c: char) -> bool {
    '0' <= c && c <= '9'
}

pub open spec fn is_blank(c: char) -> bool {
    c == ' ' || c == '\t' || c == '\r'
}

pub open spec fn is_identifier_char(c: char) -> bool {
    is_alphanumeric_char(c) || c == '_' || c == '°'
}

pub(crate) fn is_digit_char(c: char) -> (r: bool)
    ensures
        r == is_digit(c),
{
    '0' <= c && c <= '9'
}

fn is_identifier_char_exec(c: char) -> (r: bool)
    ensures
        r == is_identifier_char(c),
{
    is_alphanumeric(c) || c == '_' || c == '°'
}

// ---------------------------------------------------------------------------
// The lexical grammar
// ---------------------------------------------------------------------------

/// The end of the run of ASCII digits that starts at `i`.
pub open spec fn digits_end(s: Seq<char>, i: int) -> int
    decreases s.len() - i,
{
    if 0 <= i < s.len() && is_digit(s[i]) {
        digits_end(s, i + 1)
    } else {
        i
    }
}

/// The end of the run of identifier characters that starts at `i`.
pub open spec fn identifier_end(s: Seq<char>, i: int) -> int
    decreases s.len() - i,
{
    if 0 <= i < s.len() && is_identifier_char(s[i]) {
        identifier_end(s, i + 1)
    } else {
        i
    }
}

/// The end of the number literal that starts with the digit at `i`:
/// digits, then optionally a point and digits.
pub open spec fn number_end(s: Seq<char>, i: int) -> int {
    let j = digits_end(s, i + 1);
    if j < s.len() && s[j] == '.' {
        digits_end(s, j + 1)
    } else {
        j
    }
}

/// `s` is a number literal: a digit, more digits, optionally a point and digits.
pub open spec fn is_number_literal(s: Seq<char>) -> bool {
    s.len() > 0 && is_digit(s[0]) && number_end(s, 0) == s.len()
}

/// The kind of a word made of identifier characters: a keyword or an identifier.
pub open spec fn word_kind(w: Seq<char>) -> TokenKind {
    if w == seq!['p', 'e', 'r'] {
        TokenKind::Divide
    } else if w == seq!['l', 'e', 't'] {
        TokenKind::Let
    } else if w == seq!['d', 'i', 'm', 'e', 'n', 's', 'i', 'o', 'n'] {
        TokenKind::Dimension
    } else if w == seq!['l', 'i', 's', 't'] {
        TokenKind::List
    } else if w == seq!['q', 'u', 'i', 't'] || w == seq!['e', 'x', 'i', 't'] {
        TokenKind::Exit
    } else {
        TokenKind::Identifier
    }
}

/// The token that starts with the (non-blank) character at `i`: its kind and
/// where it ends, or `None` where no token starts with that character.
pub open spec fn scan_token(s: Seq<char>, i: int) -> Option<(TokenKind, int)> {
    let c = s[i];
    if c == '(' {
        Some((TokenKind::LeftParen, i + 1))
    } else if c == ')' {
        Some((TokenKind::RightParen, i + 1))
    } else if is_digit(c) {
        Some((TokenKind::Number, number_end(s, i)))
    } else if c == '\n' {
        Some((TokenKind::Newline, i + 1))
    } else if c == '*' || c == '·' || c == '×' {
        Some((TokenKind::Multiply, i + 1))
    } else if c == '^' {
        Some((TokenKind::Power, i + 1))
    } else if c == '+' {
        Some((TokenKind::Plus, i + 1))
    } else if c == '-' {
        if i + 1 < s.len() && s[i + 1] == '>' {
            Some((TokenKind::Arrow, i + 2))
        } else {
            Some((TokenKind::Minus, i + 1))
        }
    } else if c == '/' || c == '÷' {
        Some((TokenKind::Divide, i + 1))
    } else if c == '→' {
        Some((TokenKind::Arrow, i + 1))
    } else if c == '=' {
        Some((TokenKind::Equal, i + 1))
    } else if is_identifier_char(c) {
        let j = identifier_end(s, i + 1);
        Some((word_kind(s.subrange(i, j)), j))
    } else {
        None
    }
}

pub open spec fn span_at(line: int, i: int) -> Span {
    Span { line: line as usize, position: i as usize }
}

pub open spec fn eof_token(line: int, i: int) -> SpecToken {
    SpecToken { kind: TokenKind::Eof, lexeme: Seq::empty(), span: span_at(line, i) }
}

/// The tokens of `s` from position `i` on, where `line` newlines came before `i`.
pub open spec fn scan_from(s: Seq<char>, i: int, line: int) -> Result<
    Seq<SpecToken>,
    TokenizerError,
>
    decreases s.len() - i,
{
    if i < 0 || i >= s.len() {
        Ok(seq![eof_token(line, i)])
    } else if is_blank(s[i]) {
        scan_from(s, i + 1, line)
    } else {
        match scan_token(s, i) {
            None => Err(
                TokenizerError::UnexpectedCharacter { character: s[i], span: span_at(line, i) },
            ),
            Some((kind, j)) => {
                proof {
                    lemma_scan_token_advances(s, i);
                }
                let token = SpecToken { kind, lexeme: s.subrange(i, j), span: span_at(line, i) };
                let next_line = if kind == TokenKind::Newline {
                    line + 1
                } else {
                    line
                };
                match scan_from(s, j, next_line) {
                    Ok(rest) => Ok(seq![token] + rest),
                    Err(e) => Err(e),
                }
            },
        }
    }
}

/// The tokens of `input`, ended by one `Eof` token, or the first character
/// that starts no token.
pub open spec fn spec_tokenize(input: Seq<char>) -> Result<Seq<SpecToken>, TokenizerError> {
    scan_from(input, 0, 0)
}

/// The models of a sequence of tokens.
pub open spec fn tokens_view(tokens: Seq<Token>) -> Seq<SpecToken> {
    tokens.map_values(|t: Token| t@)
}

pub open spec fn prepend_tokens(
    prefix: Seq<SpecToken>,
    r: Result<Seq<SpecToken>, TokenizerError>,
) -> Result<Seq<SpecToken>, TokenizerError> {
    match r {
        Ok(rest) => Ok(prefix + rest),
        Err(e) => Err(e),
    }
}

// ---------------------------------------------------------------------------
// Lemmas on the lexical grammar
// ---------------------------------------------------------------------------

pub proof fn lemma_digits_end_bounds(s: Seq<char>, i: int)
    requires
        0 <= i <= s.len(),
    ensures
        i <= digits_end(s, i) <= s.len(),
    decreases s.len() - i,
{
    if i < s.len() && is_digit(s[i]) {
        lemma_digits_end_bounds(s, i + 1);
    }
}

pub proof fn lemma_identifier_end_bounds(s: Seq<char>, i: int)
    requires
        0 <= i <= s.len(),
    ensures
        i <= identifier_end(s, i) <= s.len(),
    decreases s.len() - i,
{
    if i < s.len() && is_identifier_char(s[i]) {
        lemma_identifier_end_bounds(s, i + 1);
    }
}

pub proof fn lemma_number_end_bounds(s: Seq<char>, i: int)
    requires
        0 <= i < s.len(),
    ensures
        i < number_end(s, i) <= s.len(),
{
    lemma_digits_end_bounds(s, i + 1);
    let j = digits_end(s, i + 1);
    if j < s.len() && s[j] == '.' {
        lemma_digits_end_bounds(s, j + 1);
    }
}

/// A token that is found ends after it starts and within the input.
pub proof fn lemma_scan_token_advances(s: Seq<char>, i: int)
    requires
        0 <= i < s.len(),
    ensures
        scan_token(s, i) matches Some((_, j)) ==> i < j <= s.len(),
{
    lemma_number_end_bounds(s, i);
    lemma_identifier_end_bounds(s, i + 1);
}

// ---------------------------------------------------------------------------
// The scanner
// ---------------------------------------------------------------------------

/// The characters of `s`, in order.
pub(crate) fn collect_chars(s: &str) -> (v: Vec<char>)
    ensures
        v@ == s@,
{
    let mut v: Vec<char> = Vec::new();
    for c in it: s.chars()
        invariant
            v@ == it.seq().take(it.index()),
            it.seq() == s@,
    {
        v.push(c);
    }
    v
}

pub(crate) fn scan_digits(chars: &Vec<char>, i: usize) -> (r: usize)
    requires
        i <= chars@.len(),
    ensures
        r == digits_end(chars@, i as int),
{
    let mut k = i;
    while k < chars.len() && is_digit_char(chars[k])
        invariant
            i <= k <= chars@.len(),
            digits_end(chars@, i as int) == digits_end(chars@, k as int),
        decreases chars@.len() - k,
    {
        k = k + 1;
    }
    k
}

fn scan_identifier(chars: &Vec<char>, i: usize) -> (r: usize)
    requires
        i <= chars@.len(),
    ensures
        r == identifier_end(chars@, i as int),
{
    let mut k = i;
    while k < chars.len() && is_identifier_char_exec(chars[k])
        invariant
            i <= k <= chars@.len(),
            identifier_end(chars@, i as int) == identifier_end(chars@, k as int),
        decreases chars@.len() - k,
    {
        k = k + 1;
    }
    k
}

fn scan_number(chars: &Vec<char>, i: usize) -> (r: usize)
    requires
        i < chars.len(),
    ensures
        r == number_end(chars@, i as int),
{
    let j = scan_digits(chars, i + 1);
    if j < chars.len() && chars[j] == '.' {
        scan_digits(chars, j + 1)
    } else {
        j
    }
}

/// Whether `chars` is a number literal.
pub(crate) fn is_number_literal_chars(chars: &Vec<char>) -> (r: bool)
    ensures
        r == is_number_literal(chars@),
{
    chars.len() > 0 && is_digit_char(chars[0]) && scan_number(chars, 0) == chars.len()
}

/// Whether the characters from `i` to `j` spell `word`.
fn spells(chars: &Vec<char>, i: usize, j: usize, word: &[char]) -> (r: bool)
    requires
        i <= j <= chars@.len(),
    ensures
        r == (chars@.subrange(i as int, j as int) == word@),
{
    if j - i != word.len() {
        return false;
    }
    let mut k: usize = 0;
    while k < word.len()
        invariant
            j - i == word@.len(),
            i <= j <= chars@.len(),
            k <= word@.len(),
            forall|m: int| 0 <= m < k ==> chars@[i + m] == word@[m],
        decreases word@.len() - k,
    {
        if chars[i + k] != word[k] {
            assert(chars@.subrange(i as int, j as int)[k as int] != word@[k as int]);
            return false;
        }
        k = k + 1;
    }
    assert(chars@.subrange(i as int, j as int) =~= word@);
    true
}

fn word_kind_of(chars: &Vec<char>, i: usize, j: usize) -> (r: TokenKind)
    requires
        i <= j <= chars@.len(),
    ensures
        r == word_kind(chars@.subrange(i as int, j as int)),
{
    let w = Ghost(chars@.subrange(i as int, j as int));
    let per = ['p', 'e', 'r'];
    let let_ = ['l', 'e', 't'];
    let dimension = ['d', 'i', 'm', 'e', 'n', 's', 'i', 'o', 'n'];
    let list = ['l', 'i', 's', 't'];
    let quit = ['q', 'u', 'i', 't'];
    let exit = ['e', 'x', 'i', 't'];
    assert(per@ =~= seq!['p', 'e', 'r']);
    assert(let_@ =~= seq!['l', 'e', 't']);
    assert(dimension@ =~= seq!['d', 'i', 'm', 'e', 'n', 's', 'i', 'o', 'n']);
    assert(list@ =~= seq!['l', 'i', 's', 't']);
    assert(quit@ =~= seq!['q', 'u', 'i', 't']);
    assert(exit@ =~= seq!['e', 'x', 'i', 't']);
    if spells(chars, i, j, per.as_slice()) {
        TokenKind::Divide
    } else if spells(chars, i, j, let_.as_slice()) {
        TokenKind::Let
    } else if spells(chars, i, j, dimension.as_slice()) {
        TokenKind::Dimension
    } else if spells(chars, i, j, list.as_slice()) {
        TokenKind::List
    } else if spells(chars, i, j, quit.as_slice()) || spells(chars, i, j, exit.as_slice()) {
        TokenKind::Exit
    } else {
        TokenKind::Identifier
    }
}

fn scan_single_token(chars: &Vec<char>, i: usize) -> (r: Option<(TokenKind, usize)>)
    requires
        i < chars.len(),
    ensures
        match r {
            Some((kind, j)) => scan_token(chars@, i as int) == Some((kind, j as int)),
            None => scan_token(chars@, i as int) is None,
        },
{
    let c = chars[i];
    if c == '(' {
        Some((TokenKind::LeftParen, i + 1))
    } else if c == ')' {
        Some((TokenKind::RightParen, i + 1))
    } else if is_digit_char(c) {
        Some((TokenKind::Number, scan_number(chars, i)))
    } else if c == '\n' {
        Some((TokenKind::Newline, i + 1))
    } else if c == '*' || c == '·' || c == '×' {
        Some((TokenKind::Multiply, i + 1))
    } else if c == '^' {
        Some((TokenKind::Power, i + 1))
    } else if c == '+' {
        Some((TokenKind::Plus, i + 1))
    } else if c == '-' {
        if i + 1 < chars.len() && chars[i + 1] == '>' {
            Some((TokenKind::Arrow, i + 2))
        } else {
            Some((TokenKind::Minus, i + 1))
        }
    } else if c == '/' || c == '÷' {
        Some((TokenKind::Divide, i + 1))
    } else if c == '→' {
        Some((TokenKind::Arrow, i + 1))
    } else if c == '=' {
        Some((TokenKind::Equal, i + 1))
    } else if is_identifier_char_exec(c) {
        proof {
            lemma_identifier_end_bounds(chars@, i + 1);
        }
        let j = scan_identifier(chars, i + 1);
        Some((word_kind_of(chars, i, j), j))
    } else {
        None
    }
}

/// Splits `input` into tokens, ended by an `Eof` token.
pub fn tokenize(input: &str) -> (r: Result<Vec<Token>, TokenizerError>)
    ensures
        match r {
            Ok(tokens) => spec_tokenize(input@) == Ok::<_, TokenizerError>(tokens_view(tokens@)),
            Err(e) => spec_tokenize(input@) == Err::<Seq<SpecToken>, _>(e),
        },
{
    let chars = collect_chars(input);
    let n = chars.len();
    let mut tokens: Vec<Token> = Vec::new();
    let mut i: usize = 0;
    let mut line: usize = 0;
    assert(tokens_view(tokens@) + Seq::<SpecToken>::empty() =~= Seq::<SpecToken>::empty());
    while i < n
        invariant
            chars@ == input@,
            n == chars@.len(),
            i <= n,
            line <= i,
            spec_tokenize(input@) == prepend_tokens(
                tokens_view(tokens@),
                scan_from(input@, i as int, line as int),
            ),
        decreases n - i,
    {
        let c = chars[i];
        if c == ' ' || c == '\t' || c == '\r' {
            i = i + 1;
        } else {
            match scan_single_token(&chars, i) {
                None => {
                    return Err(
                        TokenizerError::UnexpectedCharacter {
                            character: c,
                            span: Span { line, position: i },
                        },
                    );
                },
                Some((kind, j)) => {
                    proof {
                        lemma_scan_token_advances(chars@, i as int);
                    }
                    let lexeme = input.substring_char(i, j).to_owned();
                    let token = Token { kind, lexeme, span: Span { line, position: i } };
                    let ghost before = tokens_view(tokens@);
                    tokens.push(token);
                    assert(tokens_view(tokens@) =~= before + seq![token@]);
                    let ghost rest = scan_from(input@, j as int, if kind == TokenKind::Newline {
                        line + 1
                    } else {
                        line as int
                    });
                    proof {
                        if let Ok(r) = rest {
                            assert(before + (seq![token@] + r) =~= (before + seq![token@]) + r);
                        }
                    }
                    if kind == TokenKind::Newline {
                        line = line + 1;
                    }
                    i = j;
                },
            }
        }
    }
    let ghost before = tokens_view(tokens@);
    let eof = Token { kind: TokenKind::Eof, lexeme: String::new(), span: Span { line, position: n } };
    tokens.push(eof);
    assert(eof@.lexeme =~= Seq::<char>::empty());
    assert(tokens_view(tokens@) =~= before + seq![eof_token(line as int, n as int)]);
    Ok(tokens)
}

// ---------------------------------------------------------------------------
// What the parser needs of a token sequence
// ---------------------------------------------------------------------------

/// The tokens end with `Eof`, and every number token holds a number literal.
pub open spec fn tokens_wf(toks: Seq<SpecToken>) -> bool {
    &&& toks.len() > 0
    &&& toks.last().kind == TokenKind::Eof
    &&& forall|k: int|
        0 <= k < toks.len() && (#[trigger] toks[k]).kind == TokenKind::Number ==> is_number_literal(
            toks[k].lexeme,
        )
}

/// The digit run that starts at `k`, read in the slice `s[a..b]`.
proof fn lemma_digits_end_in_slice(s: Seq<char>, a: int, b: int, k: int)
    requires
        0 <= a <= k <= b <= s.len(),
    ensures
        digits_end(s.subrange(a, b), k - a) == (if digits_end(s, k) < b {
            digits_end(s, k)
        } else {
            b
        }) - a,
    decreases b - k,
{
    lemma_digits_end_bounds(s, k);
    if k < b && is_digit(s[k]) {
        lemma_digits_end_in_slice(s, a, b, k + 1);
    }
}

/// The text of a number token is a number literal.
pub proof fn lemma_number_token_is_literal(s: Seq<char>, i: int)
    requires
        0 <= i < s.len(),
        is_digit(s[i]),
    ensures
        is_number_literal(s.subrange(i, number_end(s, i))),
{
    lemma_number_end_bounds(s, i);
    let e = number_end(s, i);
    let sub = s.subrange(i, e);
    let j = digits_end(s, i + 1);
    lemma_digits_end_bounds(s, i + 1);
    lemma_digits_end_in_slice(s, i, e, i + 1);
    if j < s.len() && s[j] == '.' {
        lemma_digits_end_bounds(s, j + 1);
        lemma_digits_end_in_slice(s, i, e, j + 1);
        assert(sub[j - i] == '.');
    }
}

pub(crate) proof fn lemma_scan_from_wf(s: Seq<char>, i: int, line: int)
    ensures
        scan_from(s, i, line) matches Ok(toks) ==> tokens_wf(toks),
    decreases s.len() - i,
{
    if i < 0 || i >= s.len() {
    } else if is_blank(s[i]) {
        lemma_scan_from_wf(s, i + 1, line);
    } else {
        match scan_token(s, i) {
            None => {},
            Some((kind, j)) => {
                lemma_scan_token_advances(s, i);
                let next_line = if kind == TokenKind::Newline {
                    line + 1
                } else {
                    line
                };
                lemma_scan_from_wf(s, j, next_line);
                if let Ok(rest) = scan_from(s, j, next_line) {
                    let token = SpecToken { kind, lexeme: s.subrange(i, j), span: span_at(line, i) };
                    let toks = seq![token] + rest;
                    if kind == TokenKind::Number {
                        assert(is_digit(s[i]));
                        lemma_number_token_is_literal(s, i);
                    }
                    assert forall|k: int|
                        0 <= k < toks.len() && (#[trigger] toks[k]).kind
                            == TokenKind::Number implies is_number_literal(toks[k].lexeme) by {
                        if k > 0 {
                            assert(toks[k] == rest[k - 1]);
                        }
                    }
                }
            },
        }
    }
}

/// Tokenizing gives a sequence that the parser can work on.
pub proof fn lemma_tokenize_wf(input: Seq<char>)
    ensures
        spec_tokenize(input) matches Ok(toks) ==> tokens_wf(toks),
{
    lemma_scan_from_wf(input, 0, 0);
}

} // verus!
