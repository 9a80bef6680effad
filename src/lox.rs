use vstd::prelude::*;
use crate::expr::{Expr, ExprView};
use crate::parser::{ParseError, Parsed, Parser, parse_expression};
use crate::scanner::{ErrorView, Scanner, lemma_scan_source_ends_with_eof, push_char, scan_source};
use crate::token::{TokenKind, TokenView, tokens_view};

verus! {

/// A reported error: the line, where on the line (empty for lexical
/// errors), and the message.
#[derive(Debug)]
pub struct Diagnostic {
    pub line: usize,
    pub location: String,
    pub message: String,
}

pub struct DiagnosticView {
    pub line: nat,
    pub location: Seq<char>,
    pub message: Seq<char>,
}

impl View for Diagnostic {
    type V = DiagnosticView;

    open spec fn view(&self) -> DiagnosticView {
        DiagnosticView { line: self.line as nat, location: self.location@, message: self.message@ }
    }
}

pub open spec fn diagnostics_view(ds: Seq<Diagnostic>) -> Seq<DiagnosticView> {
    ds.map_values(|d: Diagnostic| d@)
}

/// The decimal digits of `n`.
pub open spec fn decimal_text(n: nat) -> Seq<char>
    decreases n,
{
    if n < 10 {
        seq!["0123456789"@[n as int]]
    } else {
        decimal_text(n / 10).push("0123456789"@[(n % 10) as int])
    }
}

/// The user-visible form of a diagnostic:
/// `[line <N>] Error <location>: <message>`.
pub open spec fn rendered(d: DiagnosticView) -> Seq<char> {
    "[line "@ + decimal_text(d.line) + "] Error "@ + d.location + ": "@ + d.message
}

/// Where a syntax error stands, as the report names it.
pub open spec fn location_of(t: TokenView) -> Seq<char> {
    if t.kind == TokenKind::Eof {
        "at end"@
    } else {
        "at '"@ + t.lexeme + "'"@
    }
}

/// A lexical error as a diagnostic.
pub open spec fn lexical_diagnostic(e: ErrorView) -> DiagnosticView {
    DiagnosticView { line: e.line, location: Seq::empty(), message: e.message }
}

/// The diagnostics that running `source` reports, in order: its lexical
/// errors, then the syntax error, if any.
pub open spec fn run_diagnostics(source: Seq<char>) -> Seq<DiagnosticView> {
    let scan = scan_source(source);
    let lexical = scan.errors.map_values(|e: ErrorView| lexical_diagnostic(e));
    match parse_expression(scan.tokens, 0) {
        Parsed::Tree(_, _) => lexical,
        Parsed::Error(k, m) => lexical.push(
            DiagnosticView {
                line: scan.tokens[k].line,
                location: location_of(scan.tokens[k]),
                message: m,
            },
        ),
    }
}

/// The tree that running `source` gives, if it parses.
pub open spec fn run_result(source: Seq<char>) -> Option<ExprView> {
    let scan = scan_source(source);
    match parse_expression(scan.tokens, 0) {
        Parsed::Tree(e, _) => Some(e),
        Parsed::Error(_, _) => None,
    }
}

fn digit_char(d: usize) -> (r: char)
    requires
        d < 10,
    ensures
        r == "0123456789"@[d as int],
{
    proof {
        reveal_strlit("0123456789");
    }
    "0123456789".get_char(d)
}

/// The decimal form of `n`.
pub fn decimal(n: usize) -> (r: String)
    ensures
        r@ == decimal_text(n as nat),
    decreases n,
{
    proof {
        reveal_strlit("0123456789");
    }
    if n < 10 {
        let mut s = String::new();
        push_char(&mut s, digit_char(n));
        assert(s@ =~= decimal_text(n as nat));
        s
    } else {
        let mut s = decimal(n / 10);
        push_char(&mut s, digit_char(n % 10));
        s
    }
}

impl Diagnostic {
    /// The diagnostic as it is shown to the user.
    pub fn render(&self) -> (r: String)
        ensures
            r@ == rendered(self@),
    {
        let mut r = String::from_str("[line ");
        let n = decimal(self.line);
        r.append(n.as_str());
        r.append("] Error ");
        r.append(self.location.as_str());
        r.append(": ");
        r.append(self.message.as_str());
        r
    }
}

/// The front end's error state: whether an error was reported since the
/// last reset, and the diagnostics not yet handed out.
pub struct Lox {
    had_error: bool,
    diagnostics: Vec<Diagnostic>,
}

impl Lox {
    pub closed spec fn error_seen(&self) -> bool {
        self.had_error
    }

    pub closed spec fn pending(&self) -> Seq<DiagnosticView> {
        diagnostics_view(self.diagnostics@)
    }

    /// No error seen, nothing pending.
    pub fn new() -> (r: Lox)
        ensures
            !r.error_seen(),
            r.pending() == Seq::<DiagnosticView>::empty(),
    {
        let r = Lox { had_error: false, diagnostics: Vec::new() };
        assert(r.pending() =~= Seq::<DiagnosticView>::empty());
        r
    }

    /// Reports a lexical error at `line`.
    pub fn error(&mut self, line: usize, message: String)
        ensures
            final(self).error_seen(),
            final(self).pending() == old(self).pending().push(
                DiagnosticView { line: line as nat, location: Seq::empty(), message: message@ },
            ),
    {
        self.report(line, String::new(), message);
    }

    fn report(&mut self, line: usize, location: String, message: String)
        ensures
            final(self).error_seen(),
            final(self).pending() == old(self).pending().push(
                DiagnosticView { line: line as nat, location: location@, message: message@ },
            ),
    {
        self.diagnostics.push(Diagnostic { line, location, message });
        self.had_error = true;
        assert(diagnostics_view(self.diagnostics@) =~= diagnostics_view(
            old(self).diagnostics@,
        ).push(DiagnosticView { line: line as nat, location: location@, message: message@ }));
    }

    /// Whether an error was reported since the last reset.
    pub fn had_error(&self) -> (r: bool)
        ensures
            r == self.error_seen(),
    {
        self.had_error
    }

    /// Forgets that an error was reported (after each interactive line).
    pub fn reset(&mut self)
        ensures
            !final(self).error_seen(),
            final(self).pending() == old(self).pending(),
    {
        self.had_error = false;
    }

    /// Hands out the pending diagnostics, oldest first.
    pub fn take_diagnostics(&mut self) -> (r: Vec<Diagnostic>)
        ensures
            diagnostics_view(r@) == old(self).pending(),
            final(self).pending() == Seq::<DiagnosticView>::empty(),
            final(self).error_seen() == old(self).error_seen(),
    {
        let mut r: Vec<Diagnostic> = Vec::new();
        std::mem::swap(&mut r, &mut self.diagnostics);
        assert(self.pending() =~= Seq::<DiagnosticView>::empty());
        r
    }

    /// Scans and parses `source`: reports its lexical errors and its syntax
    /// error, if any, and gives the tree where it parses.
    pub fn run(&mut self, source: String) -> (r: Option<Expr>)
        ensures
            match run_result(source@) {
                Some(e) => r is Some && r->0@ == e,
                None => r is None,
            },
            final(self).pending() == old(self).pending() + run_diagnostics(source@),
            final(self).error_seen() == (old(self).error_seen() || run_diagnostics(source@).len()
                > 0),
    {
        let ghost src = source@;
        let mut s = Scanner::from(source);
        s.scan_tokens();
        assert(tokens_view(s.tokens@) =~= scan_source(src).tokens);
        assert(crate::scanner::errors_view(s.errors@) =~= scan_source(src).errors);
        let ghost lexical = scan_source(src).errors.map_values(
            |e: ErrorView| lexical_diagnostic(e),
        );
        let ghost start = self.pending();
        assert forall|j: int| 0 <= j < lexical.len() implies #[trigger] lexical[j]
            == lexical_diagnostic(s.errors@[j]@) by {
            assert(crate::scanner::errors_view(s.errors@)[j] == s.errors@[j]@);
        }
        let ghost seen = self.error_seen();
        let mut i: usize = 0;
        while i < s.errors.len()
            invariant
                i <= s.errors.len(),
                crate::scanner::errors_view(s.errors@) == scan_source(src).errors,
                lexical.len() == s.errors@.len(),
                forall|j: int|
                    0 <= j < lexical.len() ==> #[trigger] lexical[j] == lexical_diagnostic(
                        s.errors@[j]@,
                    ),
                self.pending() == start + lexical.take(i as int),
                self.error_seen() == (seen || i > 0),
            decreases s.errors.len() - i,
        {
            let line = s.errors[i].line;
            let message = s.errors[i].message.clone();
            self.error(line, message);
            assert(lexical.take(i + 1) =~= lexical.take(i as int).push(lexical[i as int]));
            i = i + 1;
        }
        assert(lexical.take(i as int) =~= lexical);
        proof {
            lemma_scan_source_ends_with_eof(src);
        }
        let mut parser = Parser::new(s.tokens);
        match parser.parse() {
            Ok(e) => Some(e),
            Err(ParseError { token, message }) => {
                let location = if token.token_type == TokenKind::Eof {
                    String::from_str("at end")
                } else {
                    let mut l = String::from_str("at '");
                    l.append(token.lexeme.as_str());
                    l.append("'");
                    l
                };
                self.report(token.line, location, message);
                None
            },
        }
    }
}

} // verus!
