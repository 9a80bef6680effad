use lox::scanner::Scanner;
use lox::token::{Token, TokenKind};

fn scan(source: &str) -> Scanner {
    let mut s = Scanner::from(source.to_string());
    s.scan_tokens();
    s
}

fn kinds(tokens: &[Token]) -> Vec<TokenKind> {
    tokens.iter().map(|t| t.token_type).collect()
}

#[test]
fn scans_sum_with_literals() {
    let s = scan("1 + 2");
    assert_eq!(
        kinds(&s.tokens),
        vec![TokenKind::Number, TokenKind::Plus, TokenKind::Number, TokenKind::Eof]
    );
    assert_eq!(s.tokens[0].literal, Some("1".to_string()));
    assert_eq!(s.tokens[2].literal, Some("2".to_string()));
    assert_eq!(s.tokens[1].lexeme, "+");
    assert!(s.errors.is_empty());
}

#[test]
fn comment_yields_no_token_and_one_line() {
    let s = scan("// comment\n1");
    assert_eq!(kinds(&s.tokens), vec![TokenKind::Number, TokenKind::Eof]);
    assert_eq!(s.tokens[0].line, 1);
    assert_eq!(s.tokens[1].line, 1);
}

#[test]
fn unterminated_string_reports_and_ends_with_eof() {
    let s = scan("\"abc");
    assert_eq!(kinds(&s.tokens), vec![TokenKind::Eof]);
    assert_eq!(s.errors.len(), 1);
    assert!(s.errors[0].message.contains("Unterminated string."));
    assert_eq!(s.errors[0].line, 0);
}

#[test]
fn unterminated_string_error_line_counts_its_newlines() {
    let s = scan("\"a\nb\nc");
    assert_eq!(s.errors.len(), 1);
    assert_eq!(s.errors[0].line, 2);
    assert_eq!(s.tokens.last().unwrap().line, 2);
}

#[test]
fn keyword_prefix_stays_identifier() {
    let s = scan("forest");
    assert_eq!(kinds(&s.tokens), vec![TokenKind::Identifier, TokenKind::Eof]);
    assert_eq!(s.tokens[0].lexeme, "forest");
}

#[test]
fn reserved_words_are_recognized() {
    let s = scan("and class else false for fun if nil or print return super this true var while x_1");
    assert_eq!(
        kinds(&s.tokens),
        vec![
            TokenKind::And,
            TokenKind::Class,
            TokenKind::Else,
            TokenKind::False,
            TokenKind::For,
            TokenKind::Fun,
            TokenKind::If,
            TokenKind::Nil,
            TokenKind::Or,
            TokenKind::Print,
            TokenKind::Return,
            TokenKind::Super,
            TokenKind::This,
            TokenKind::True,
            TokenKind::Var,
            TokenKind::While,
            TokenKind::Identifier,
            TokenKind::Eof,
        ]
    );
}

#[test]
fn empty_source_gives_only_eof() {
    let s = scan("");
    assert_eq!(kinds(&s.tokens), vec![TokenKind::Eof]);
    assert_eq!(s.tokens[0].lexeme, "");
}

#[test]
fn malformed_source_still_ends_with_single_eof() {
    let s = scan("@ # \"x");
    assert_eq!(kinds(&s.tokens), vec![TokenKind::Eof]);
    assert_eq!(s.errors.len(), 3);
}

#[test]
fn unexpected_character_message() {
    let s = scan("1 @");
    assert_eq!(kinds(&s.tokens), vec![TokenKind::Number, TokenKind::Eof]);
    assert_eq!(s.errors.len(), 1);
    assert_eq!(s.errors[0].message, "Unexpected character '@'.");
}

#[test]
fn one_and_two_character_operators() {
    let s = scan("!= == <= >= ! = < > ( ) { } , . - + ; * /");
    assert_eq!(
        kinds(&s.tokens),
        vec![
            TokenKind::BangEqual,
            TokenKind::EqualEqual,
            TokenKind::LessEqual,
            TokenKind::GreaterEqual,
            TokenKind::Bang,
            TokenKind::Equal,
            TokenKind::Less,
            TokenKind::Greater,
            TokenKind::LeftParen,
            TokenKind::RightParen,
            TokenKind::LeftBrace,
            TokenKind::RightBrace,
            TokenKind::Comma,
            TokenKind::Dot,
            TokenKind::Minus,
            TokenKind::Plus,
            TokenKind::SemiColon,
            TokenKind::Star,
            TokenKind::Slash,
            TokenKind::Eof,
        ]
    );
    assert_eq!(s.tokens[0].lexeme, "!=");
}

#[test]
fn fractional_numbers_need_a_digit_after_the_dot() {
    let s = scan("12.5 7. 9");
    assert_eq!(
        kinds(&s.tokens),
        vec![TokenKind::Number, TokenKind::Number, TokenKind::Dot, TokenKind::Number, TokenKind::Eof]
    );
    assert_eq!(s.tokens[0].lexeme, "12.5");
    assert_eq!(s.tokens[0].literal, Some("12.5".to_string()));
    assert_eq!(s.tokens[1].lexeme, "7");
    assert_eq!(s.tokens[3].literal, Some("9".to_string()));
}

#[test]
fn string_literal_value_and_lines() {
    let s = scan("\"hi\nthere\" x");
    assert_eq!(kinds(&s.tokens), vec![TokenKind::String, TokenKind::Identifier, TokenKind::Eof]);
    assert_eq!(s.tokens[0].lexeme, "\"hi\nthere\"");
    assert_eq!(s.tokens[0].literal, Some("hi\nthere".to_string()));
    assert_eq!(s.tokens[0].line, 0);
    assert_eq!(s.tokens[1].line, 1);
}

#[test]
fn whitespace_and_newlines() {
    let s = scan(" \t\r\n\n/");
    assert_eq!(kinds(&s.tokens), vec![TokenKind::Slash, TokenKind::Eof]);
    assert_eq!(s.tokens[0].line, 2);
}

#[test]
fn comment_at_end_of_input() {
    let s = scan("1 // trailing");
    assert_eq!(kinds(&s.tokens), vec![TokenKind::Number, TokenKind::Eof]);
    assert!(s.errors.is_empty());
}

#[test]
fn token_description() {
    let s = scan("\"ab\" +");
    assert_eq!(s.tokens[0].describe(), "String \"ab\" ab");
    assert_eq!(s.tokens[1].describe(), "Plus +");
    assert_eq!(s.tokens[1].duplicate().lexeme, "+");
}

#[test]
fn identifiers_continue_over_unicode_alphanumerics() {
    let s = scan("aé_2ü b");
    assert_eq!(kinds(&s.tokens), vec![TokenKind::Identifier, TokenKind::Identifier, TokenKind::Eof]);
    assert_eq!(s.tokens[0].lexeme, "aé_2ü");
    assert!(s.errors.is_empty());
}

#[test]
fn identifiers_cannot_start_with_a_non_ascii_letter() {
    let s = scan("éa");
    assert_eq!(kinds(&s.tokens), vec![TokenKind::Identifier, TokenKind::Eof]);
    assert_eq!(s.tokens[0].lexeme, "a");
    assert_eq!(s.errors.len(), 1);
    assert_eq!(s.errors[0].message, "Unexpected character 'é'.");
}
