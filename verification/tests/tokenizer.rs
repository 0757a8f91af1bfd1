use numbat::span::Span;
use numbat::tokenizer::{tokenize, TokenKind, TokenizerError};

fn kinds(input: &str) -> Vec<TokenKind> {
    tokenize(input).unwrap().into_iter().map(|t| t.kind).collect()
}

#[test]
fn tokens_are_pieces_of_the_input() {
    let input = "let x = 12.5 * (y→z)";
    let chars: Vec<char> = input.chars().collect();
    let tokens = tokenize(input).unwrap();
    let mut end = 0;
    for (k, t) in tokens.iter().enumerate() {
        let a = t.span.position;
        let piece: String = chars[a..a + t.lexeme.chars().count()].iter().collect();
        assert_eq!(piece, t.lexeme);
        assert!(end <= a);
        end = a + t.lexeme.chars().count();
        if k + 1 < tokens.len() {
            assert_ne!(t.kind, TokenKind::Eof);
        }
    }
    let last = tokens.last().unwrap();
    assert_eq!(last.kind, TokenKind::Eof);
    assert_eq!(last.lexeme, "");
    assert_eq!(last.span.position, chars.len());
    let lexemes: Vec<&str> = tokens.iter().map(|t| t.lexeme.as_str()).collect();
    assert_eq!(lexemes, vec!["let", "x", "=", "12.5", "*", "(", "y", "→", "z", ")", ""]);
}

#[test]
fn leading_blanks_only_shift_the_tokens() {
    let plain = tokenize("1+x").unwrap();
    let padded = tokenize(" \t\r1+x").unwrap();
    assert_eq!(plain.len(), padded.len());
    for (a, b) in plain.iter().zip(padded.iter()) {
        assert_eq!(a.kind, b.kind);
        assert_eq!(a.lexeme, b.lexeme);
        assert_eq!(a.span.line, b.span.line);
        assert_eq!(a.span.position + 3, b.span.position);
    }
    assert_eq!(
        tokenize("  ?").unwrap_err(),
        TokenizerError::UnexpectedCharacter { character: '?', span: Span { line: 0, position: 2 } }
    );
}

#[test]
fn operator_spellings() {
    assert_eq!(kinds("* · ×"), vec![TokenKind::Multiply, TokenKind::Multiply, TokenKind::Multiply, TokenKind::Eof]);
    assert_eq!(kinds("/ ÷ per"), vec![TokenKind::Divide, TokenKind::Divide, TokenKind::Divide, TokenKind::Eof]);
    assert_eq!(kinds("-> →"), vec![TokenKind::Arrow, TokenKind::Arrow, TokenKind::Eof]);
    assert!(tokenize("- >").is_err());
    assert_eq!(kinds("^ = ( ) +"), vec![TokenKind::Power, TokenKind::Equal, TokenKind::LeftParen, TokenKind::RightParen, TokenKind::Plus, TokenKind::Eof]);
}

#[test]
fn keywords() {
    assert_eq!(
        kinds("let dimension list quit exit letter pe"),
        vec![TokenKind::Let, TokenKind::Dimension, TokenKind::List, TokenKind::Exit, TokenKind::Exit, TokenKind::Identifier, TokenKind::Identifier, TokenKind::Eof]
    );
}

#[test]
fn newlines_count_lines() {
    let tokens = tokenize("a\nb\n\nc").unwrap();
    let lines: Vec<usize> = tokens.iter().map(|t| t.span.line).collect();
    assert_eq!(lines, vec![0, 0, 1, 1, 2, 3, 3]);
    assert_eq!(tokens[1].kind, TokenKind::Newline);
}

#[test]
fn numbers() {
    let tokens = tokenize("12.5.3").unwrap_err();
    assert_eq!(
        tokens,
        TokenizerError::UnexpectedCharacter { character: '.', span: Span { line: 0, position: 4 } }
    );
    let tokens = tokenize("007 1.").unwrap();
    assert_eq!(tokens[0].lexeme, "007");
    assert_eq!(tokens[1].lexeme, "1.");
}
