use lox::expr::{Expr, LiteralValue};
use lox::parser::Parser;
use lox::scanner::Scanner;
use lox::token::{Token, TokenKind};

fn tokens(source: &str) -> Vec<Token> {
    let mut s = Scanner::from(source.to_string());
    s.scan_tokens();
    s.tokens
}

fn printed(source: &str) -> String {
    let mut p = Parser::new(tokens(source));
    p.parse().expect("parses").print()
}

#[test]
fn factor_binds_tighter_than_term() {
    let mut p = Parser::new(tokens("1 + 2 * 3"));
    let e = p.parse().expect("parses");
    match &e {
        Expr::Binary { operator, right, .. } => {
            assert_eq!(operator.token_type, TokenKind::Plus);
            match right.as_ref() {
                Expr::Binary { operator, .. } => assert_eq!(operator.token_type, TokenKind::Star),
                other => panic!("unexpected right operand {:?}", other),
            }
        }
        other => panic!("unexpected tree {:?}", other),
    }
    assert_eq!(e.print(), "(+ 1 (* 2 3))");
}

#[test]
fn missing_close_paren_is_a_syntax_error() {
    let mut p = Parser::new(tokens("(1 + 2"));
    let err = p.parse().expect_err("fails");
    assert_eq!(err.token.token_type, TokenKind::Eof);
    assert!(err.message.contains("Expect ')'"));
}

#[test]
fn binary_levels_fold_left() {
    assert_eq!(printed("1 - 2 - 3"), "(- (- 1 2) 3)");
    assert_eq!(printed("8 / 4 / 2"), "(/ (/ 8 4) 2)");
    assert_eq!(printed("1 == 2 != 3"), "(!= (== 1 2) 3)");
}

#[test]
fn full_precedence_ladder() {
    assert_eq!(printed("1 < 2 == 3 >= 4 + 5 * -6"), "(== (< 1 2) (>= 3 (+ 4 (* 5 (- 6)))))");
}

#[test]
fn unary_and_grouping() {
    assert_eq!(printed("-123 * (45.67)"), "(* (- 123) (group 45.67))");
    assert_eq!(printed("!!true"), "(! (! true))");
}

#[test]
fn literals() {
    assert_eq!(printed("false"), "false");
    assert_eq!(printed("nil"), "nil");
    assert_eq!(printed("\"hi\""), "\"hi\"");
    let mut p = Parser::new(tokens("\"hi\""));
    match p.parse().expect("parses") {
        Expr::Literal(LiteralValue::String(s)) => assert_eq!(s, "hi"),
        other => panic!("unexpected tree {:?}", other),
    }
}

#[test]
fn no_primary_is_a_syntax_error() {
    let mut p = Parser::new(tokens("1 + ;"));
    let err = p.parse().expect_err("fails");
    assert_eq!(err.token.token_type, TokenKind::SemiColon);
    assert_eq!(err.message, "Expect expression.");
}

#[test]
fn empty_input_is_a_syntax_error() {
    let mut p = Parser::new(tokens(""));
    let err = p.parse().expect_err("fails");
    assert_eq!(err.token.token_type, TokenKind::Eof);
    assert_eq!(err.message, "Expect expression.");
}

#[test]
fn synchronize_stops_after_semicolon() {
    let mut p = Parser::new(tokens("a b ; c"));
    p.synchronize();
    assert_eq!(p.current, 3);
}

#[test]
fn synchronize_stops_before_statement_keyword() {
    let mut p = Parser::new(tokens("a b var c"));
    p.synchronize();
    assert_eq!(p.current, 2);
}

#[test]
fn synchronize_stops_at_end() {
    let mut p = Parser::new(tokens("a b c"));
    p.synchronize();
    assert_eq!(p.current, 3);
    p.synchronize();
    assert_eq!(p.current, 3);
}

#[test]
fn printing_follows_tree_shape() {
    // Equal shapes print alike, different shapes differently.
    assert_eq!(printed("1 + 2"), printed("1   +   2"));
    assert_ne!(printed("(1 + 2) * 3"), printed("1 + 2 * 3"));
    assert_ne!(printed("-1 - 2"), printed("-(1 - 2)"));
    assert_ne!(printed("\"1\""), printed("1"));
}

#[test]
fn prints_hand_built_tree() {
    let minus = Token {
        token_type: TokenKind::Minus,
        lexeme: "-".to_string(),
        literal: None,
        line: 1,
    };
    let star = Token {
        token_type: TokenKind::Star,
        lexeme: "*".to_string(),
        literal: None,
        line: 1,
    };
    let expr = Expr::Binary {
        left: Box::new(Expr::Unary {
            operator: minus,
            right: Box::new(Expr::Literal(LiteralValue::Number("123".to_string()))),
        }),
        operator: star,
        right: Box::new(Expr::Grouping(Box::new(Expr::Literal(LiteralValue::Number(
            "45.67".to_string(),
        ))))),
    };
    assert_eq!(expr.print(), "(* (- 123) (group 45.67))");
    assert_eq!(LiteralValue::Nil.text(), "nil");
    assert_eq!(LiteralValue::Boolean(true).text(), "true");
}
