use vstd::prelude::*;
use crate::token::{Token, TokenKind, TokenView, tokens_view};
use vstd::std_specs::iter::IteratorSpec;

verus! {

// ---------------------------------------------------------------------------
// Character classes
// ---------------------------------------------------------------------------

pub open spec fn is_digit(c: char) -> bool {
    '0' <= c && c <= '9'
}

pub open spec fn is_alpha(c: char) -> bool {
    ('a' <= c && c <= 'z') || ('A' <= c && c <= 'Z') || c == '_'
}

/// What `char::is_alphanumeric` gives for a character: whether it is
/// alphabetic or numeric in Unicode's sense.
pub uninterp spec fn alnum_of(c: char) -> bool;

/// A character that continues an identifier.
pub open spec fn is_ident_char(c: char) -> bool {
    alnum_of(c) || c == '_'
}

// ---------------------------------------------------------------------------
// The lexical grammar, over the characters of the source
// ---------------------------------------------------------------------------

/// End of the run of digits that starts at `i`.
pub open spec fn digits_end(s: Seq<char>, i: int) -> int
    decreases s.len() - i,
{
    if 0 <= i < s.len() && is_digit(s[i]) {
        digits_end(s, i + 1)
    } else {
        i
    }
}

/// End of the run of identifier characters that starts at `i`.
pub open spec fn ident_end(s: Seq<char>, i: int) -> int
    decreases s.len() - i,
{
    if 0 <= i < s.len() && is_ident_char(s[i]) {
        ident_end(s, i + 1)
    } else {
        i
    }
}

/// Position of the first newline at or after `i`, or the end of the source.
pub open spec fn line_end(s: Seq<char>, i: int) -> int
    decreases s.len() - i,
{
    if 0 <= i < s.len() && s[i] != '\n' {
        line_end(s, i + 1)
    } else {
        i
    }
}

/// Position of the first double quote at or after `i`, or the end of the source.
pub open spec fn quote_from(s: Seq<char>, i: int) -> int
    decreases s.len() - i,
{
    if 0 <= i < s.len() && s[i] != '"' {
        quote_from(s, i + 1)
    } else {
        i
    }
}

/// End of the number literal whose first digit is at `i`: digits, then a
/// fractional part only where a digit follows the dot.
pub open spec fn number_end(s: Seq<char>, i: int) -> int {
    let d = digits_end(s, i + 1);
    if d + 1 < s.len() && s[d] == '.' && is_digit(s[d + 1]) {
        digits_end(s, d + 1)
    } else {
        d
    }
}

/// Number of newline characters in `s`.
pub open spec fn count_newlines(s: Seq<char>) -> nat
    decreases s.len(),
{
    if s.len() == 0 {
        0
    } else {
        count_newlines(s.drop_last()) + if s.last() == '\n' { 1nat } else { 0nat }
    }
}

/// The kind of an identifier-shaped word: a reserved word or an identifier.
pub open spec fn keyword_kind(w: Seq<char>) -> TokenKind {
    if w == "and"@ {
        TokenKind::And
    } else if w == "class"@ {
        TokenKind::Class
    } else if w == "else"@ {
        TokenKind::Else
    } else if w == "false"@ {
        TokenKind::False
    } else if w == "for"@ {
        TokenKind::For
    } else if w == "fun"@ {
        TokenKind::Fun
    } else if w == "if"@ {
        TokenKind::If
    } else if w == "nil"@ {
        TokenKind::Nil
    } else if w == "or"@ {
        TokenKind::Or
    } else if w == "print"@ {
        TokenKind::Print
    } else if w == "return"@ {
        TokenKind::Return
    } else if w == "super"@ {
        TokenKind::Super
    } else if w == "this"@ {
        TokenKind::This
    } else if w == "true"@ {
        TokenKind::True
    } else if w == "var"@ {
        TokenKind::Var
    } else if w == "while"@ {
        TokenKind::While
    } else {
        TokenKind::Identifier
    }
}

/// The kind of a character that is a token by itself.
pub open spec fn single_char_kind(c: char) -> Option<TokenKind> {
    if c == '(' {
        Some(TokenKind::LeftParen)
    } else if c == ')' {
        Some(TokenKind::RightParen)
    } else if c == '{' {
        Some(TokenKind::LeftBrace)
    } else if c == '}' {
        Some(TokenKind::RightBrace)
    } else if c == ',' {
        Some(TokenKind::Comma)
    } else if c == '.' {
        Some(TokenKind::Dot)
    } else if c == '-' {
        Some(TokenKind::Minus)
    } else if c == '+' {
        Some(TokenKind::Plus)
    } else if c == ';' {
        Some(TokenKind::SemiColon)
    } else if c == '*' {
        Some(TokenKind::Star)
    } else {
        None
    }
}

/// For a character that starts a one- or two-character operator: the kind
/// alone and the kind when `=` follows.
pub open spec fn operator_kinds(c: char) -> Option<(TokenKind, TokenKind)> {
    if c == '!' {
        Some((TokenKind::Bang, TokenKind::BangEqual))
    } else if c == '=' {
        Some((TokenKind::Equal, TokenKind::EqualEqual))
    } else if c == '<' {
        Some((TokenKind::Less, TokenKind::LessEqual))
    } else if c == '>' {
        Some((TokenKind::Greater, TokenKind::GreaterEqual))
    } else {
        None
    }
}

pub open spec fn unexpected_message(c: char) -> Seq<char> {
    "Unexpected character '"@ + seq![c] + "'."@
}

/// What one lexeme gives.
pub enum Outcome {
    Emit(TokenKind, Option<Seq<char>>),
    Ignored,
    Failed(Seq<char>),
}

/// One lexeme: where it ends and what it gives.
pub struct Lexeme {
    pub end: int,
    pub outcome: Outcome,
}

/// The lexeme that starts at `i` (where `i` is inside the source).
pub open spec fn lex_at(s: Seq<char>, i: int) -> Lexeme {
    let c = s[i];
    let eq_next = i + 1 < s.len() && s[i + 1] == '=';
    if single_char_kind(c) is Some {
        Lexeme { end: i + 1, outcome: Outcome::Emit(single_char_kind(c)->0, None) }
    } else if operator_kinds(c) is Some {
        let (alone, with_eq) = operator_kinds(c)->0;
        if eq_next {
            Lexeme { end: i + 2, outcome: Outcome::Emit(with_eq, None) }
        } else {
            Lexeme { end: i + 1, outcome: Outcome::Emit(alone, None) }
        }
    } else if c == '/' {
        if i + 1 < s.len() && s[i + 1] == '/' {
            Lexeme { end: line_end(s, i + 2), outcome: Outcome::Ignored }
        } else {
            Lexeme { end: i + 1, outcome: Outcome::Emit(TokenKind::Slash, None) }
        }
    } else if c == ' ' || c == '\r' || c == '\t' || c == '\n' {
        Lexeme { end: i + 1, outcome: Outcome::Ignored }
    } else if c == '"' {
        let q = quote_from(s, i + 1);
        if q < s.len() {
            Lexeme {
                end: q + 1,
                outcome: Outcome::Emit(TokenKind::String, Some(s.subrange(i + 1, q))),
            }
        } else {
            Lexeme { end: s.len() as int, outcome: Outcome::Failed("Unterminated string."@) }
        }
    } else if is_digit(c) {
        let e = number_end(s, i);
        Lexeme { end: e, outcome: Outcome::Emit(TokenKind::Number, Some(s.subrange(i, e))) }
    } else if is_alpha(c) {
        let e = ident_end(s, i + 1);
        Lexeme { end: e, outcome: Outcome::Emit(keyword_kind(s.subrange(i, e)), None) }
    } else {
        Lexeme { end: i + 1, outcome: Outcome::Failed(unexpected_message(c)) }
    }
}

/// A lexical error as a value: the line it was reported on and its message.
pub struct ErrorView {
    pub line: nat,
    pub message: Seq<char>,
}

/// Everything that scanning a source gives.
pub struct Scan {
    pub tokens: Seq<TokenView>,
    pub errors: Seq<ErrorView>,
}

pub open spec fn eof_token(line: nat) -> TokenView {
    TokenView { kind: TokenKind::Eof, lexeme: Seq::empty(), literal: None, line }
}

/// Scanning from position `i`, on line `line`, to the end of the source.
pub open spec fn scan_from(s: Seq<char>, i: int, line: nat) -> Scan
    decreases s.len() - i via scan_from_decreases
{
    if i < 0 || i >= s.len() {
        Scan { tokens: seq![eof_token(line)], errors: Seq::empty() }
    } else {
        let lx = lex_at(s, i);
        let next_line = line + count_newlines(s.subrange(i, lx.end));
        let rest = scan_from(s, lx.end, next_line);
        match lx.outcome {
            Outcome::Emit(kind, literal) => Scan {
                tokens: seq![TokenView { kind, lexeme: s.subrange(i, lx.end), literal, line }]
                    + rest.tokens,
                errors: rest.errors,
            },
            Outcome::Ignored => rest,
            Outcome::Failed(message) => Scan {
                tokens: rest.tokens,
                errors: seq![ErrorView { line: next_line, message }] + rest.errors,
            },
        }
    }
}

/// Scanning a whole source.
pub open spec fn scan_source(s: Seq<char>) -> Scan {
    scan_from(s, 0, 0)
}

#[via_fn]
proof fn scan_from_decreases(s: Seq<char>, i: int, line: nat) {
    if 0 <= i < s.len() {
        lemma_lex_progress(s, i);
    }
}

// ---------------------------------------------------------------------------
// Lemmas on the grammar
// ---------------------------------------------------------------------------

pub(crate) proof fn lemma_digits_end(s: Seq<char>, i: int)
    requires
        0 <= i <= s.len(),
    ensures
        i <= digits_end(s, i) <= s.len(),
        forall|k: int| i <= k < digits_end(s, i) ==> is_digit(#[trigger] s[k]),
    decreases s.len() - i,
{
    if i < s.len() && is_digit(s[i]) {
        lemma_digits_end(s, i + 1);
    }
}

pub(crate) proof fn lemma_ident_end(s: Seq<char>, i: int)
    requires
        0 <= i <= s.len(),
    ensures
        i <= ident_end(s, i) <= s.len(),
        forall|k: int| i <= k < ident_end(s, i) ==> is_ident_char(#[trigger] s[k]),
    decreases s.len() - i,
{
    if i < s.len() && is_ident_char(s[i]) {
        lemma_ident_end(s, i + 1);
    }
}

proof fn lemma_line_end(s: Seq<char>, i: int)
    requires
        0 <= i <= s.len(),
    ensures
        i <= line_end(s, i) <= s.len(),
    decreases s.len() - i,
{
    if i < s.len() && s[i] != '\n' {
        lemma_line_end(s, i + 1);
    }
}

pub(crate) proof fn lemma_quote_from(s: Seq<char>, i: int)
    requires
        0 <= i <= s.len(),
    ensures
        i <= quote_from(s, i) <= s.len(),
        forall|k: int| i <= k < quote_from(s, i) ==> #[trigger] s[k] != '"',
        quote_from(s, i) < s.len() ==> s[quote_from(s, i)] == '"',
    decreases s.len() - i,
{
    if i < s.len() && s[i] != '"' {
        lemma_quote_from(s, i + 1);
    }
}

/// Every lexeme consumes at least one character and stays inside the source.
pub proof fn lemma_lex_progress(s: Seq<char>, i: int)
    requires
        0 <= i < s.len(),
    ensures
        i < lex_at(s, i).end <= s.len(),
{
    let c = s[i];
    if c == '/' && i + 1 < s.len() && s[i + 1] == '/' {
        lemma_line_end(s, i + 2);
    } else if c == '"' {
        lemma_quote_from(s, i + 1);
    } else if is_digit(c) {
        lemma_digits_end(s, i + 1);
        let d = digits_end(s, i + 1);
        if d + 1 < s.len() && s[d] == '.' && is_digit(s[d + 1]) {
            lemma_digits_end(s, d + 1);
        }
    } else if is_alpha(c) {
        lemma_ident_end(s, i + 1);
    }
}

/// Numbers hold no newline.
proof fn lemma_number_no_newlines(s: Seq<char>, i: int)
    requires
        0 <= i < s.len(),
        is_digit(s[i]),
    ensures
        count_newlines(s.subrange(i, lex_at(s, i).end)) == 0,
{
    let e = lex_at(s, i).end;
    lemma_lex_progress(s, i);
    lemma_digits_end(s, i + 1);
    let d = digits_end(s, i + 1);
    if d + 1 < s.len() && s[d] == '.' && is_digit(s[d + 1]) {
        lemma_digits_end(s, d + 1);
    }
    assert forall|k: int| i <= k < e implies #[trigger] s[k] != '\n' by {}
    lemma_no_newlines(s, i, e);
}

/// The newlines of a range never outnumber its characters.
proof fn lemma_count_newlines_le(s: Seq<char>)
    ensures
        count_newlines(s) <= s.len(),
    decreases s.len(),
{
    if s.len() > 0 {
        lemma_count_newlines_le(s.drop_last());
    }
}

/// Scanning always ends with exactly one end-of-input token, in last place.
pub proof fn lemma_scan_ends_with_eof(s: Seq<char>, i: int, line: nat)
    ensures
        scan_from(s, i, line).tokens.len() > 0,
        scan_from(s, i, line).tokens.last().kind == TokenKind::Eof,
        forall|k: int|
            0 <= k < scan_from(s, i, line).tokens.len() - 1
                ==> #[trigger] scan_from(s, i, line).tokens[k].kind != TokenKind::Eof,
    decreases s.len() - i,
{
    if 0 <= i < s.len() {
        lemma_lex_progress(s, i);
        let lx = lex_at(s, i);
        let next_line = line + count_newlines(s.subrange(i, lx.end));
        lemma_scan_ends_with_eof(s, lx.end, next_line);
        let rest = scan_from(s, lx.end, next_line);
        match lx.outcome {
            Outcome::Emit(kind, literal) => {
                let t = scan_from(s, i, line).tokens;
                assert(kind != TokenKind::Eof);
                assert forall|k: int| 0 <= k < t.len() - 1 implies #[trigger] t[k].kind
                    != TokenKind::Eof by {
                    if k > 0 {
                        assert(t[k] == rest.tokens[k - 1]);
                    }
                }
            },
            _ => {},
        }
    }
}

/// Every token sequence that scanning produces is non-empty, ends with the
/// end-of-input token, and holds that token nowhere else.
pub proof fn lemma_scan_source_ends_with_eof(s: Seq<char>)
    ensures
        scan_source(s).tokens.len() > 0,
        scan_source(s).tokens.last().kind == TokenKind::Eof,
        forall|k: int|
            0 <= k < scan_source(s).tokens.len() - 1
                ==> #[trigger] scan_source(s).tokens[k].kind != TokenKind::Eof,
{
    lemma_scan_ends_with_eof(s, 0, 0);
}

proof fn lemma_count_newlines_empty(s: Seq<char>, a: int)
    requires
        0 <= a <= s.len(),
    ensures
        count_newlines(s.subrange(a, a)) == 0,
{
    assert(s.subrange(a, a).len() == 0);
}

proof fn lemma_count_newlines_step(s: Seq<char>, a: int, j: int)
    requires
        0 <= a <= j < s.len(),
    ensures
        count_newlines(s.subrange(a, j + 1)) == count_newlines(s.subrange(a, j)) + if s[j]
            == '\n' {
            1nat
        } else {
            0nat
        },
{
    assert(s.subrange(a, j + 1).drop_last() =~= s.subrange(a, j));
}

/// A range without newline characters counts none.
proof fn lemma_no_newlines(s: Seq<char>, i: int, j: int)
    requires
        0 <= i <= j <= s.len(),
        forall|k: int| i <= k < j ==> #[trigger] s[k] != '\n',
    ensures
        count_newlines(s.subrange(i, j)) == 0,
    decreases j - i,
{
    if j == i {
        lemma_count_newlines_empty(s, i);
    } else {
        lemma_no_newlines(s, i, j - 1);
        lemma_count_newlines_step(s, i, j - 1);
    }
}

// ---------------------------------------------------------------------------
// The scanner
// ---------------------------------------------------------------------------

/// A lexical error: the line on which it was found and what went wrong.
#[derive(Debug)]
pub struct ScanError {
    pub line: usize,
    pub message: String,
}

impl View for ScanError {
    type V = ErrorView;

    open spec fn view(&self) -> ErrorView {
        ErrorView { line: self.line as nat, message: self.message@ }
    }
}

pub open spec fn errors_view(es: Seq<ScanError>) -> Seq<ErrorView> {
    es.map_values(|e: ScanError| e@)
}

/// Relies on `String::push`: the character is appended at the end.
#[verifier::external_body]
pub(crate) fn push_char(s: &mut String, c: char)
    ensures
        final(s)@ == old(s)@.push(c),
{
    s.push(c);
}

/// The characters of a string, in order.
fn chars_of(s: &str) -> (r: Vec<char>)
    ensures
        r@ == s@,
{
    broadcast use vstd::string::group_string_axioms;

    let mut it = s.chars();
    let mut v: Vec<char> = Vec::new();
    let mut done = false;
    while !done
        invariant
            !done ==> v@ + it.remaining() == s@,
            done ==> v@ == s@,
            v.len() <= s@.len(),
        decreases s@.len() - v.len() + if done { 0int } else { 1int },
    {
        match it.next() {
            Some(c) => {
                v.push(c);
            },
            None => {
                assert(v@ =~= s@);
                done = true;
            },
        }
    }
    v
}

/// The string made of the characters `from..to`.
fn text_of(chars: &Vec<char>, from: usize, to: usize) -> (r: String)
    requires
        from <= to <= chars.len(),
    ensures
        r@ == chars@.subrange(from as int, to as int),
{
    let mut r = String::new();
    let mut i = from;
    while i < to
        invariant
            from <= i <= to <= chars.len(),
            r@ == chars@.subrange(from as int, i as int),
        decreases to - i,
    {
        push_char(&mut r, chars[i]);
        assert(chars@.subrange(from as int, i + 1) =~= chars@.subrange(from as int, i as int).push(
            chars@[i as int],
        ));
        i = i + 1;
    }
    r
}

/// Whether `chars[from..to]` spells `word`.
fn spells(chars: &Vec<char>, from: usize, to: usize, word: &str) -> (r: bool)
    requires
        from <= to <= chars.len(),
    ensures
        r == (chars@.subrange(from as int, to as int) == word@),
{
    let n = word.unicode_len();
    if to - from != n {
        return false;
    }
    let mut k: usize = 0;
    while k < n
        invariant
            k <= n,
            to - from == n,
            n == word@.len(),
            from <= to <= chars.len(),
            forall|m: int| 0 <= m < k ==> chars@[from + m] == word@[m],
        decreases n - k,
    {
        if chars[from + k] != word.get_char(k) {
            assert(chars@.subrange(from as int, to as int)[k as int] != word@[k as int]);
            return false;
        }
        k = k + 1;
    }
    assert(chars@.subrange(from as int, to as int) =~= word@);
    true
}

/// The kind of the word `chars[from..to]`: a reserved word or an identifier.
fn keyword_of(chars: &Vec<char>, from: usize, to: usize) -> (r: TokenKind)
    requires
        from <= to <= chars.len(),
    ensures
        r == keyword_kind(chars@.subrange(from as int, to as int)),
{
    if spells(chars, from, to, "and") {
        TokenKind::And
    } else if spells(chars, from, to, "class") {
        TokenKind::Class
    } else if spells(chars, from, to, "else") {
        TokenKind::Else
    } else if spells(chars, from, to, "false") {
        TokenKind::False
    } else if spells(chars, from, to, "for") {
        TokenKind::For
    } else if spells(chars, from, to, "fun") {
        TokenKind::Fun
    } else if spells(chars, from, to, "if") {
        TokenKind::If
    } else if spells(chars, from, to, "nil") {
        TokenKind::Nil
    } else if spells(chars, from, to, "or") {
        TokenKind::Or
    } else if spells(chars, from, to, "print") {
        TokenKind::Print
    } else if spells(chars, from, to, "return") {
        TokenKind::Return
    } else if spells(chars, from, to, "super") {
        TokenKind::Super
    } else if spells(chars, from, to, "this") {
        TokenKind::This
    } else if spells(chars, from, to, "true") {
        TokenKind::True
    } else if spells(chars, from, to, "var") {
        TokenKind::Var
    } else if spells(chars, from, to, "while") {
        TokenKind::While
    } else {
        TokenKind::Identifier
    }
}

fn single_kind(c: char) -> (r: Option<TokenKind>)
    ensures
        r == single_char_kind(c),
{
    if c == '(' {
        Some(TokenKind::LeftParen)
    } else if c == ')' {
        Some(TokenKind::RightParen)
    } else if c == '{' {
        Some(TokenKind::LeftBrace)
    } else if c == '}' {
        Some(TokenKind::RightBrace)
    } else if c == ',' {
        Some(TokenKind::Comma)
    } else if c == '.' {
        Some(TokenKind::Dot)
    } else if c == '-' {
        Some(TokenKind::Minus)
    } else if c == '+' {
        Some(TokenKind::Plus)
    } else if c == ';' {
        Some(TokenKind::SemiColon)
    } else if c == '*' {
        Some(TokenKind::Star)
    } else {
        None
    }
}

fn operator_pair(c: char) -> (r: Option<(TokenKind, TokenKind)>)
    ensures
        r == operator_kinds(c),
{
    if c == '!' {
        Some((TokenKind::Bang, TokenKind::BangEqual))
    } else if c == '=' {
        Some((TokenKind::Equal, TokenKind::EqualEqual))
    } else if c == '<' {
        Some((TokenKind::Less, TokenKind::LessEqual))
    } else if c == '>' {
        Some((TokenKind::Greater, TokenKind::GreaterEqual))
    } else {
        None
    }
}

fn char_is_digit(c: char) -> (r: bool)
    ensures
        r == is_digit(c),
{
    '0' <= c && c <= '9'
}

/// Relies on `char::is_alphanumeric`: the result depends on the character
/// alone; ASCII letters and digits are alphanumeric, a newline is not.
#[verifier::external_body]
fn is_alphanumeric(c: char) -> (r: bool)
    ensures
        r == alnum_of(c),
        ('a' <= c && c <= 'z') || ('A' <= c && c <= 'Z') || ('0' <= c && c <= '9') ==> r,
        c == '\n' ==> !r,
{
    c.is_alphanumeric()
}

fn char_is_alpha(c: char) -> (r: bool)
    ensures
        r == is_alpha(c),
{
    ('a' <= c && c <= 'z') || ('A' <= c && c <= 'Z') || c == '_'
}

/// Converts source text into tokens, one lexeme at a time, collecting the
/// lexical errors it meets instead of stopping at them.
pub struct Scanner {
    pub source: Vec<char>,
    pub tokens: Vec<Token>,
    pub errors: Vec<ScanError>,
    pub start: usize,
    pub current: usize,
    pub line: usize,
}

impl Scanner {
    /// The characters being scanned.
    pub open spec fn chars(&self) -> Seq<char> {
        self.source@
    }

    /// Where the next lexeme starts.
    pub open spec fn position(&self) -> int {
        self.current as int
    }

    /// The line the cursor is on, counted from 0.
    pub open spec fn line_number(&self) -> nat {
        self.line as nat
    }

    pub open spec fn wf(&self) -> bool {
        &&& self.start <= self.current <= self.source.len()
        &&& self.line <= self.current
    }

    /// What is left to scan gives.
    pub open spec fn pending(&self) -> Scan {
        scan_from(self.chars(), self.position(), self.line_number())
    }

    pub open spec fn moved_from(&self, old: &Scanner) -> bool {
        &&& self.source == old.source
        &&& self.tokens == old.tokens
        &&& self.errors == old.errors
        &&& self.start == old.start
        &&& self.line == old.line
    }

    /// A scanner at the start of `source`, with no tokens and no errors yet.
    pub fn from(source: String) -> (r: Scanner)
        ensures
            r.wf(),
            r.chars() == source@,
            r.position() == 0,
            r.line_number() == 0,
            r.tokens@.len() == 0,
            r.errors@.len() == 0,
    {
        let source = chars_of(source.as_str());
        Scanner { source, tokens: Vec::new(), errors: Vec::new(), start: 0, current: 0, line: 0 }
    }

    fn is_at_end(&self) -> (r: bool)
        ensures
            r == (self.current >= self.source.len()),
    {
        self.current >= self.source.len()
    }

    /// Scans the rest of the source: appends its tokens, ending with the
    /// end-of-input token, and its lexical errors.
    pub fn scan_tokens(&mut self)
        requires
            old(self).wf(),
        ensures
            tokens_view(final(self).tokens@) == tokens_view(old(self).tokens@) + old(
                self,
            ).pending().tokens,
            errors_view(final(self).errors@) == errors_view(old(self).errors@) + old(
                self,
            ).pending().errors,
            final(self).tokens@.len() > old(self).tokens@.len(),
            final(self).tokens@.last().token_type == TokenKind::Eof,
    {
        let ghost src = self.source@;
        let ghost goal_tokens = tokens_view(self.tokens@) + self.pending().tokens;
        let ghost goal_errors = errors_view(self.errors@) + self.pending().errors;
        while !self.is_at_end()
            invariant
                self.wf(),
                self.source@ == src,
                self.tokens@.len() >= old(self).tokens@.len(),
                tokens_view(self.tokens@) + self.pending().tokens == goal_tokens,
                errors_view(self.errors@) + self.pending().errors == goal_errors,
            decreases src.len() - self.current,
        {
            self.start = self.current;
            let ghost before = *self;
            let tok = self.scan_token();
            proof {
                let i = before.current as int;
                let lx = lex_at(src, i);
                lemma_lex_progress(src, i);
                assert(before.pending() == scan_from(src, i, before.line as nat));
                match lx.outcome {
                    Outcome::Emit(kind, literal) => {
                        assert(tokens_view(before.tokens@.push(tok->0)) =~= tokens_view(
                            before.tokens@,
                        ).push(tok->0@));
                    },
                    _ => {},
                }
            }
            match tok {
                Some(t) => {
                    self.tokens.push(t);
                    proof {
                        assert(tokens_view(self.tokens@) =~= tokens_view(before.tokens@).push(
                            t@,
                        ));
                    }
                },
                None => {},
            }
            proof {
                let i = before.current as int;
                let lx = lex_at(src, i);
                match lx.outcome {
                    Outcome::Emit(kind, literal) => {
                        assert(tokens_view(self.tokens@) + self.pending().tokens =~= tokens_view(
                            before.tokens@,
                        ) + before.pending().tokens);
                    },
                    Outcome::Failed(m) => {
                        assert(errors_view(self.errors@) + self.pending().errors =~= errors_view(
                            before.errors@,
                        ) + before.pending().errors);
                    },
                    Outcome::Ignored => {},
                }
            }
        }
        let eof = Token {
            token_type: TokenKind::Eof,
            lexeme: String::new(),
            literal: None,
            line: self.line,
        };
        self.tokens.push(eof);
        proof {
            assert(tokens_view(self.tokens@) =~= goal_tokens);
        }
    }

    fn advance(&mut self) -> (r: char)
        requires
            old(self).current < old(self).source.len(),
        ensures
            r == old(self).source@[old(self).current as int],
            final(self).current == old(self).current + 1,
            final(self).moved_from(old(self)),
    {
        let r = self.source[self.current];
        self.current = self.current + 1;
        r
    }

    /// The token for the lexeme `start..current`.
    fn add_token(&self, token_type: TokenKind, literal: Option<String>) -> (r: Token)
        requires
            self.start <= self.current <= self.source.len(),
        ensures
            r@ == (TokenView {
                kind: token_type,
                lexeme: self.source@.subrange(self.start as int, self.current as int),
                literal: crate::token::opt_string_view(literal),
                line: self.line as nat,
            }),
    {
        let lexeme = text_of(&self.source, self.start, self.current);
        Token { token_type, lexeme, literal, line: self.line }
    }

    /// Consumes the next character where it is `expected`.
    fn match_ahead(&mut self, expected: char) -> (r: bool)
        requires
            old(self).current <= old(self).source.len(),
        ensures
            r == (old(self).current < old(self).source.len() && old(self).source@[old(
                self,
            ).current as int] == expected),
            final(self).current == old(self).current + if r {
                1int
            } else {
                0int
            },
            final(self).moved_from(old(self)),
    {
        if self.is_at_end() {
            return false;
        }
        if self.source[self.current] != expected {
            return false;
        }
        self.current = self.current + 1;
        true
    }

    fn peek(&self) -> (r: Option<char>)
        ensures
            r == if self.current < self.source.len() {
                Some(self.source@[self.current as int])
            } else {
                None::<char>
            },
    {
        if self.is_at_end() {
            None
        } else {
            Some(self.source[self.current])
        }
    }

    fn peek_next(&self) -> (r: Option<char>)
        ensures
            r == if self.current + 1 < self.source.len() {
                Some(self.source@[self.current + 1])
            } else {
                None::<char>
            },
    {
        if self.current >= self.source.len() || self.current + 1 >= self.source.len() {
            None
        } else {
            Some(self.source[self.current + 1])
        }
    }

    /// Skips the characters of a digit run.
    #[verifier::loop_isolation(false)]
    fn skip_digits(&mut self)
        requires
            old(self).current <= old(self).source.len(),
        ensures
            final(self).current == digits_end(old(self).source@, old(self).current as int),
            final(self).moved_from(old(self)),
    {
        let ghost s = self.source@;
        let ghost goal = digits_end(s, self.current as int);
        loop
            invariant
                self.current <= self.source.len(),
                digits_end(s, self.current as int) == goal,
                self.moved_from(old(self)),
            decreases self.source.len() - self.current,
        {
            match self.peek() {
                Some(c) => {
                    if !char_is_digit(c) {
                        break;
                    }
                    self.advance();
                },
                None => break,
            }
        }
    }

    /// The number literal whose first digit has just been consumed.
    fn number(&mut self) -> (r: Token)
        requires
            old(self).start < old(self).source.len(),
            old(self).current == old(self).start + 1,
        ensures
            final(self).current == number_end(old(self).source@, old(self).start as int),
            final(self).moved_from(old(self)),
            r@ == (TokenView {
                kind: TokenKind::Number,
                lexeme: old(self).source@.subrange(
                    old(self).start as int,
                    number_end(old(self).source@, old(self).start as int),
                ),
                literal: Some(
                    old(self).source@.subrange(
                        old(self).start as int,
                        number_end(old(self).source@, old(self).start as int),
                    ),
                ),
                line: old(self).line as nat,
            }),
    {
        self.skip_digits();
        proof {
            lemma_digits_end(self.source@, old(self).current as int);
        }
        if self.peek() == Some('.') {
            match self.peek_next() {
                Some(d) => {
                    if char_is_digit(d) {
                        self.advance();
                        proof {
                            lemma_digits_end(self.source@, self.current as int);
                        }
                        self.skip_digits();
                    }
                },
                None => {},
            }
        }
        let text = text_of(&self.source, self.start, self.current);
        self.add_token(TokenKind::Number, Some(text))
    }

    /// The identifier or reserved word whose first character has just been
    /// consumed.
    #[verifier::loop_isolation(false)]
    fn identifier(&mut self) -> (r: Token)
        requires
            old(self).start < old(self).source.len(),
            old(self).current == old(self).start + 1,
            is_alpha(old(self).source@[old(self).start as int]),
        ensures
            final(self).current == ident_end(old(self).source@, old(self).start + 1),
            final(self).moved_from(old(self)),
            forall|k: int|
                old(self).start <= k < final(self).current ==> #[trigger] old(self).source@[k]
                    != '\n',
            r@ == (TokenView {
                kind: keyword_kind(
                    old(self).source@.subrange(
                        old(self).start as int,
                        ident_end(old(self).source@, old(self).start + 1),
                    ),
                ),
                lexeme: old(self).source@.subrange(
                    old(self).start as int,
                    ident_end(old(self).source@, old(self).start + 1),
                ),
                literal: None,
                line: old(self).line as nat,
            }),
    {
        let ghost s = self.source@;
        let ghost goal = ident_end(s, self.current as int);
        loop
            invariant
                self.start < self.current <= self.source.len(),
                ident_end(s, self.current as int) == goal,
                self.moved_from(old(self)),
                s == old(self).source@,
                forall|k: int| self.start <= k < self.current ==> #[trigger] s[k] != '\n',
            decreases self.source.len() - self.current,
        {
            match self.peek() {
                Some(c) => {
                    if !is_alphanumeric(c) && c != '_' {
                        break;
                    }
                    self.advance();
                },
                None => break,
            }
        }
        let kind = keyword_of(&self.source, self.start, self.current);
        self.add_token(kind, None)
    }

    /// The string literal whose opening quote has just been consumed; `None`
    /// with an error recorded where the source ends before the closing quote.
    #[verifier::loop_isolation(false)]
    fn string(&mut self) -> (r: Option<Token>)
        requires
            old(self).wf(),
            old(self).start < old(self).source.len(),
            old(self).current == old(self).start + 1,
            old(self).line <= old(self).start,
            old(self).source@[old(self).start as int] == '"',
        ensures
            ({
                let s = old(self).source@;
                let i = old(self).start as int;
                let lx = lex_at(s, i);
                let next_line = (old(self).line + count_newlines(s.subrange(i, lx.end))) as nat;
                &&& final(self).current == lx.end
                &&& final(self).line == next_line
                &&& final(self).source == old(self).source
                &&& final(self).tokens == old(self).tokens
                &&& final(self).start == old(self).start
                &&& final(self).wf()
                &&& match lx.outcome {
                    Outcome::Emit(kind, literal) => r is Some && r->0@ == (TokenView {
                        kind,
                        lexeme: s.subrange(i, lx.end),
                        literal,
                        line: old(self).line as nat,
                    }) && final(self).errors == old(self).errors,
                    Outcome::Failed(m) => r is None && errors_view(final(self).errors@)
                        == errors_view(old(self).errors@).push(
                        ErrorView { line: next_line, message: m },
                    ),
                    Outcome::Ignored => false,
                }
            }),
    {
        let ghost s = self.source@;
        let ghost i = self.start as int;
        let ghost goal = quote_from(s, i + 1);
        let mut lines: usize = 0;
        proof {
            lemma_count_newlines_empty(s, i);
            lemma_count_newlines_step(s, i, i);
            lemma_quote_from(s, i + 1);
            lemma_count_newlines_le(s.subrange(i, i + 1));
        }
        loop
            invariant
                self.start < self.current <= self.source.len(),
                self.source@ == s,
                self.source == old(self).source,
                self.start == i,
                self.tokens == old(self).tokens,
                self.errors == old(self).errors,
                self.line == old(self).line,
                self.line <= self.start,
                quote_from(s, self.current as int) == goal,
                lines == count_newlines(s.subrange(i, self.current as int)),
                lines <= self.current - i,
            decreases self.source.len() - self.current,
        {
            match self.peek() {
                Some(c) => {
                    if c == '"' {
                        break;
                    }
                    proof {
                        lemma_count_newlines_step(s, i, self.current as int);
                    }
                    if c == '\n' {
                        lines = lines + 1;
                    }
                    self.advance();
                },
                None => break,
            }
        }
        if self.is_at_end() {
            self.line = self.line + lines;
            let message = String::from_str("Unterminated string.");
            self.errors.push(ScanError { line: self.line, message });
            proof {
                assert(errors_view(self.errors@) =~= errors_view(old(self).errors@).push(
                    ErrorView { line: self.line as nat, message: "Unterminated string."@ },
                ));
            }
            return None;
        }
        proof {
            lemma_count_newlines_step(s, i, self.current as int);
        }
        self.advance();
        let value = text_of(&self.source, self.start + 1, self.current - 1);
        let token = self.add_token(TokenKind::String, Some(value));
        self.line = self.line + lines;
        Some(token)
    }

    /// Scans the lexeme that starts at `start`.
    fn scan_token(&mut self) -> (r: Option<Token>)
        requires
            old(self).wf(),
            old(self).start == old(self).current,
            old(self).current < old(self).source.len(),
        ensures
            ({
                let s = old(self).source@;
                let i = old(self).start as int;
                let lx = lex_at(s, i);
                let next_line = (old(self).line + count_newlines(s.subrange(i, lx.end))) as nat;
                &&& final(self).current == lx.end
                &&& final(self).line == next_line
                &&& final(self).source == old(self).source
                &&& final(self).tokens == old(self).tokens
                &&& final(self).wf()
                &&& match lx.outcome {
                    Outcome::Emit(kind, literal) => r is Some && r->0@ == (TokenView {
                        kind,
                        lexeme: s.subrange(i, lx.end),
                        literal,
                        line: old(self).line as nat,
                    }) && final(self).errors == old(self).errors,
                    Outcome::Ignored => r is None && final(self).errors == old(self).errors,
                    Outcome::Failed(m) => r is None && errors_view(final(self).errors@)
                        == errors_view(old(self).errors@).push(
                        ErrorView { line: next_line, message: m },
                    ),
                }
            }),
    {
        let ghost s = self.source@;
        let ghost i = self.start as int;
        proof {
            lemma_lex_progress(s, i);
            lemma_count_newlines_empty(s, i);
            lemma_count_newlines_step(s, i, i);
        }
        let c = self.advance();
        match single_kind(c) {
            Some(kind) => {
                return Some(self.add_token(kind, None));
            },
            None => {},
        }
        match operator_pair(c) {
            Some((alone, with_eq)) => {
                if self.match_ahead('=') {
                    proof {
                        lemma_count_newlines_step(s, i, i + 1);
                    }
                    return Some(self.add_token(with_eq, None));
                } else {
                    return Some(self.add_token(alone, None));
                }
            },
            None => {},
        }
        if c == '/' {
            if self.match_ahead('/') {
                proof {
                    lemma_count_newlines_step(s, i, i + 1);
                }
                self.skip_comment();
                return None;
            } else {
                return Some(self.add_token(TokenKind::Slash, None));
            }
        }
        if c == ' ' || c == '\r' || c == '\t' {
            return None;
        }
        if c == '\n' {
            self.line = self.line + 1;
            return None;
        }
        if c == '"' {
            return self.string();
        }
        if char_is_digit(c) {
            let t = self.number();
            proof {
                lemma_number_no_newlines(s, i);
            }
            return Some(t);
        }
        if char_is_alpha(c) {
            let t = self.identifier();
            proof {
                lemma_no_newlines(s, i, self.current as int);
            }
            return Some(t);
        }
        let mut message = String::from_str("Unexpected character '");
        push_char(&mut message, c);
        message.append("'.");
        assert(message@ =~= unexpected_message(c));
        self.errors.push(ScanError { line: self.line, message });
        proof {
            assert(errors_view(self.errors@) =~= errors_view(old(self).errors@).push(
                ErrorView { line: self.line as nat, message: unexpected_message(c) },
            ));
        }
        None
    }

    /// Skips the rest of a comment, up to the newline that ends it.
    #[verifier::loop_isolation(false)]
    fn skip_comment(&mut self)
        requires
            old(self).wf(),
            old(self).start < old(self).current,
            old(self).line <= old(self).start,
            count_newlines(
                old(self).source@.subrange(old(self).start as int, old(self).current as int),
            ) == 0,
        ensures
            final(self).current == line_end(old(self).source@, old(self).current as int),
            final(self).moved_from(old(self)),
            count_newlines(
                old(self).source@.subrange(old(self).start as int, final(self).current as int),
            ) == 0,
            final(self).wf(),
    {
        let ghost s = self.source@;
        let ghost goal = line_end(s, self.current as int);
        loop
            invariant
                self.start < self.current <= self.source.len(),
                line_end(s, self.current as int) == goal,
                self.moved_from(old(self)),
                self.line <= self.start,
                count_newlines(s.subrange(self.start as int, self.current as int)) == 0,
            decreases self.source.len() - self.current,
        {
            match self.peek() {
                Some(c) => {
                    if c == '\n' {
                        break;
                    }
                    proof {
                        lemma_count_newlines_step(s, self.start as int, self.current as int);
                    }
                    self.advance();
                },
                None => break,
            }
        }
    }

}

} // verus!
