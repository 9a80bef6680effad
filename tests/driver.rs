use lox::lox::{decimal, Lox};

#[test]
fn run_reports_lexical_errors() {
    let mut l = Lox::new();
    assert!(!l.had_error());
    let e = l.run("1 @".to_string());
    assert_eq!(e.expect("parses").print(), "1");
    assert!(l.had_error());
    let d = l.take_diagnostics();
    assert_eq!(d.len(), 1);
    assert_eq!(d[0].render(), "[line 0] Error : Unexpected character '@'.");
    assert!(l.take_diagnostics().is_empty());
}

#[test]
fn run_reports_syntax_error_at_end() {
    let mut l = Lox::new();
    assert!(l.run("\n(1".to_string()).is_none());
    let d = l.take_diagnostics();
    assert_eq!(d.len(), 1);
    assert_eq!(d[0].render(), "[line 1] Error at end: Expect ')' after expression.");
}

#[test]
fn run_reports_syntax_error_at_token() {
    let mut l = Lox::new();
    assert!(l.run("1 + )".to_string()).is_none());
    let d = l.take_diagnostics();
    assert_eq!(d[0].render(), "[line 0] Error at ')': Expect expression.");
}

#[test]
fn reset_clears_the_error_flag_only() {
    let mut l = Lox::new();
    l.error(3, "boom".to_string());
    assert!(l.had_error());
    l.reset();
    assert!(!l.had_error());
    let d = l.take_diagnostics();
    assert_eq!(d[0].render(), "[line 3] Error : boom");
}

#[test]
fn clean_run_reports_nothing() {
    let mut l = Lox::new();
    let e = l.run("(1 + 2) * 3".to_string());
    assert_eq!(e.expect("parses").print(), "(* (group (+ 1 2)) 3)");
    assert!(!l.had_error());
    assert!(l.take_diagnostics().is_empty());
}

#[test]
fn decimal_text() {
    assert_eq!(decimal(0), "0");
    assert_eq!(decimal(7), "7");
    assert_eq!(decimal(1234), "1234");
    assert_eq!(decimal(1000), "1000");
}
