//! End-to-end tests of the scanner: concrete scenarios, edge cases, and
//! instances of the general laws on chosen inputs.

use lox_scanner::diagnostic::DiagnosticKind;
use lox_scanner::scanner::Scanner;
use lox_scanner::token::{LiteralValue, TokenType};

fn scan(src: &str) -> Scanner {
    let mut scanner = Scanner::default();
    scanner.run(src.to_string());
    scanner
}

fn types(s: &Scanner) -> Vec<TokenType> {
    s.tokens.iter().map(|t| t.token_type).collect()
}

#[test]
fn parens_plus_numbers() {
    let s = scan("(+ 1 2)");
    assert_eq!(
        types(&s),
        vec![
            TokenType::LeftParen,
            TokenType::Plus,
            TokenType::Number,
            TokenType::Number,
            TokenType::RightParen,
            TokenType::Eof,
        ]
    );
    assert_eq!(s.tokens[0].lexeme, "(");
    assert_eq!(s.tokens[1].lexeme, "+");
    assert_eq!(s.tokens[2].lexeme, "1");
    assert_eq!(s.tokens[2].literal, Some(LiteralValue::Num("1".to_string())));
    assert_eq!(s.tokens[3].literal, Some(LiteralValue::Num("2".to_string())));
    assert_eq!(s.tokens[4].lexeme, ")");
    assert!(!s.had_error);
}

#[test]
fn line_comment_produces_no_token() {
    let s = scan("// comment\n1");
    assert_eq!(types(&s), vec![TokenType::Number, TokenType::Eof]);
    assert_eq!(s.tokens[0].lexeme, "1");
    assert_eq!(s.tokens[0].line, 2);
    assert!(!s.had_error);
}

#[test]
fn string_literal_strips_quotes() {
    let s = scan("\"abc\"");
    assert_eq!(types(&s), vec![TokenType::String, TokenType::Eof]);
    assert_eq!(s.tokens[0].lexeme, "\"abc\"");
    assert_eq!(s.tokens[0].literal, Some(LiteralValue::Str("abc".to_string())));
    assert!(!s.had_error);
}

#[test]
fn unterminated_string_reports_and_emits_nothing() {
    let s = scan("\"unterminated");
    assert_eq!(types(&s), vec![TokenType::Eof]);
    assert!(s.had_error);
    assert_eq!(s.diagnostics.len(), 1);
    assert_eq!(s.diagnostics[0].kind, DiagnosticKind::UnterminatedString);
    assert_eq!(s.diagnostics[0].line, 1);
}

#[test]
fn bang_equal_is_one_token() {
    let s = scan("!=");
    assert_eq!(types(&s), vec![TokenType::BangEqual, TokenType::Eof]);
    assert_eq!(s.tokens[0].lexeme, "!=");
    assert!(!s.had_error);
}

#[test]
fn empty_input_yields_only_the_sentinel() {
    let s = scan("");
    assert_eq!(types(&s), vec![TokenType::Eof]);
    assert_eq!(s.tokens[0].lexeme, "");
    assert_eq!(s.tokens[0].literal, None);
    assert_eq!(s.tokens[0].line, 1);
    assert!(!s.had_error);
}

#[test]
fn keyword_prefix_scans_as_identifier() {
    let s = scan("classify");
    assert_eq!(types(&s), vec![TokenType::Identifier, TokenType::Eof]);
    assert_eq!(s.tokens[0].lexeme, "classify");
}

#[test]
fn all_keywords_recognized() {
    let s = scan("and class else false fun for if nil or print return super this true var while");
    assert_eq!(
        types(&s),
        vec![
            TokenType::And,
            TokenType::Class,
            TokenType::Else,
            TokenType::False,
            TokenType::Fun,
            TokenType::For,
            TokenType::If,
            TokenType::Nil,
            TokenType::Or,
            TokenType::Print,
            TokenType::Return,
            TokenType::Super,
            TokenType::This,
            TokenType::True,
            TokenType::Var,
            TokenType::While,
            TokenType::Eof,
        ]
    );
}

#[test]
fn fractional_number_parses_exactly() {
    let s = scan("3.25");
    assert_eq!(types(&s), vec![TokenType::Number, TokenType::Eof]);
    let lit = match &s.tokens[0].literal {
        Some(LiteralValue::Num(text)) => text.clone(),
        other => panic!("expected a numeric literal, got {:?}", other),
    };
    assert_eq!(lit, s.tokens[0].lexeme);
    let value: f64 = lit.parse().unwrap();
    let from_lexeme: f64 = s.tokens[0].lexeme.parse().unwrap();
    assert_eq!(value, 3.25);
    assert_eq!(value, from_lexeme);
}

#[test]
fn trailing_dot_is_not_part_of_the_number() {
    let s = scan("4.");
    assert_eq!(types(&s), vec![TokenType::Number, TokenType::Dot, TokenType::Eof]);
    assert_eq!(s.tokens[0].lexeme, "4");
    assert_eq!(s.tokens[1].lexeme, ".");
}

#[test]
fn newlines_before_a_lexeme_set_its_line() {
    let s = scan("\n\n\nfoo");
    assert_eq!(types(&s), vec![TokenType::Identifier, TokenType::Eof]);
    assert_eq!(s.tokens[0].line, 1 + 3);
    assert_eq!(s.tokens[1].line, 1 + 3);
}

#[test]
fn unexpected_character_is_skipped_and_reported() {
    let s = scan("@");
    assert_eq!(types(&s), vec![TokenType::Eof]);
    assert!(s.had_error);
    assert_eq!(s.diagnostics.len(), 1);
    assert_eq!(s.diagnostics[0].kind, DiagnosticKind::UnexpectedCharacter);
    assert_eq!(s.diagnostics[0].line, 1);
}

#[test]
fn scanning_continues_after_errors() {
    let s = scan("#@\n$1");
    assert_eq!(types(&s), vec![TokenType::Number, TokenType::Eof]);
    assert_eq!(s.tokens[0].line, 2);
    assert!(s.had_error);
    assert_eq!(s.diagnostics.len(), 3);
    assert_eq!(s.diagnostics[0].line, 1);
    assert_eq!(s.diagnostics[1].line, 1);
    assert_eq!(s.diagnostics[2].line, 2);
    for d in &s.diagnostics {
        assert_eq!(d.kind, DiagnosticKind::UnexpectedCharacter);
    }
}

#[test]
fn string_may_span_lines() {
    let s = scan("\"a\nb\"");
    assert_eq!(types(&s), vec![TokenType::String, TokenType::Eof]);
    assert_eq!(s.tokens[0].literal, Some(LiteralValue::Str("a\nb".to_string())));
    // The token starts on line 1; the cursor (and so the sentinel) ends on
    // line 2.
    assert_eq!(s.tokens[0].line, 1);
    assert_eq!(s.tokens[1].line, 2);
}

#[test]
fn string_literal_roundtrip() {
    let first = scan("\"ab c\"");
    let value = match &first.tokens[0].literal {
        Some(LiteralValue::Str(v)) => v.clone(),
        other => panic!("expected a string literal, got {:?}", other),
    };
    let again = scan(&format!("\"{}\"", value));
    assert_eq!(types(&again), vec![TokenType::String, TokenType::Eof]);
    assert_eq!(again.tokens[0].literal, Some(LiteralValue::Str(value)));
}

#[test]
fn final_character_is_never_dropped() {
    let s = scan("ab");
    assert_eq!(types(&s), vec![TokenType::Identifier, TokenType::Eof]);
    assert_eq!(s.tokens[0].lexeme, "ab");
    let t = scan("7");
    assert_eq!(types(&t), vec![TokenType::Number, TokenType::Eof]);
    assert_eq!(t.tokens[0].lexeme, "7");
    let u = scan("+");
    assert_eq!(types(&u), vec![TokenType::Plus, TokenType::Eof]);
}

#[test]
fn operators_and_punctuation() {
    let s = scan("{}(),.-+;* / < <= > >= = == ! !=");
    assert_eq!(
        types(&s),
        vec![
            TokenType::LeftBrace,
            TokenType::RightBrace,
            TokenType::LeftParen,
            TokenType::RightParen,
            TokenType::Comma,
            TokenType::Dot,
            TokenType::Minus,
            TokenType::Plus,
            TokenType::Semicolon,
            TokenType::Star,
            TokenType::Slash,
            TokenType::Less,
            TokenType::LessEqual,
            TokenType::Greater,
            TokenType::GreaterEqual,
            TokenType::Equal,
            TokenType::EqualEqual,
            TokenType::Bang,
            TokenType::BangEqual,
            TokenType::Eof,
        ]
    );
    assert!(!s.had_error);
}

#[test]
fn every_scan_ends_in_exactly_one_sentinel() {
    for src in ["", "foo bar", "\"open", "@#$", "1 + 2 // done", "\n\n"] {
        let s = scan(src);
        assert!(!s.tokens.is_empty());
        assert_eq!(s.tokens.last().unwrap().token_type, TokenType::Eof);
        for t in &s.tokens[..s.tokens.len() - 1] {
            assert_ne!(t.token_type, TokenType::Eof);
        }
    }
}

#[test]
fn diagnostic_messages() {
    assert_eq!(DiagnosticKind::UnexpectedCharacter.message(), "Unexpected character.");
    assert_eq!(DiagnosticKind::UnterminatedString.message(), "Unterminated string.");
}

#[test]
fn comment_without_newline_runs_to_end() {
    let s = scan("1 // trailing");
    assert_eq!(types(&s), vec![TokenType::Number, TokenType::Eof]);
    assert!(!s.had_error);
}

#[test]
fn identifiers_with_digits_and_underscores() {
    let s = scan("_x9 y_2");
    assert_eq!(
        types(&s),
        vec![TokenType::Identifier, TokenType::Identifier, TokenType::Eof]
    );
    assert_eq!(s.tokens[0].lexeme, "_x9");
    assert_eq!(s.tokens[1].lexeme, "y_2");
}
