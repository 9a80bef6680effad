use vstd::prelude::*;
use crate::expr::{
    Expr,
    ExprView,
    LiteralValue,
    LiteralView,
    lemma_print_faithful,
    numeral,
    operator_text,
    print_view,
    printable,
    same_shape,
};
use crate::scanner::{
    Outcome,
    is_digit,
    lemma_digits_end,
    lemma_lex_progress,
    lemma_quote_from,
    lex_at,
    number_end,
    quote_from,
    scan_from,
    scan_source,
};
use crate::token::{Token, TokenKind, TokenView, tokens_view};

verus! {

// ---------------------------------------------------------------------------
// The grammar, over token views
//
//   expression -> equality
//   equality   -> comparison ( ( "!=" | "==" ) comparison )*
//   comparison -> term ( ( ">" | ">=" | "<" | "<=" ) term )*
//   term       -> factor ( ( "-" | "+" ) factor )*
//   factor     -> unary ( ( "/" | "*" ) unary )*
//   unary      -> ( "!" | "-" ) unary | primary
//   primary    -> "false" | "true" | "nil" | NUMBER | STRING | "(" expression ")"
//
// The binary levels are numbered from 0 (equality) to 3 (factor).
// ---------------------------------------------------------------------------

/// Whether `k` is an operator of binary level `level`.
pub open spec fn level_op(level: nat, k: TokenKind) -> bool {
    if level == 0 {
        k == TokenKind::BangEqual || k == TokenKind::EqualEqual
    } else if level == 1 {
        k == TokenKind::Greater || k == TokenKind::GreaterEqual || k == TokenKind::Less || k
            == TokenKind::LessEqual
    } else if level == 2 {
        k == TokenKind::Minus || k == TokenKind::Plus
    } else {
        k == TokenKind::Slash || k == TokenKind::Star
    }
}

pub open spec fn unary_op(k: TokenKind) -> bool {
    k == TokenKind::Bang || k == TokenKind::Minus
}

/// What parsing from a position gives: a tree and the position after it,
/// or the position of the offending token and a message.
pub enum Parsed {
    Tree(ExprView, int),
    Error(int, Seq<char>),
}

/// A token sequence the parser can walk: it ends with the end-of-input token.
pub open spec fn tokens_wf(toks: Seq<TokenView>) -> bool {
    toks.len() > 0 && toks.last().kind == TokenKind::Eof
}

/// The kind of the token at `p`, where the cursor never moves past the end.
pub open spec fn kind_at(toks: Seq<TokenView>, p: int) -> TokenKind {
    toks[p].kind
}

/// The decoded value of a literal token; its text where it carries none.
pub open spec fn literal_of(t: TokenView) -> Seq<char> {
    match t.literal {
        Some(l) => l,
        None => t.lexeme,
    }
}

/// Binary level `level` (4 stands for unary) from position `p`.
pub open spec fn parse_level(toks: Seq<TokenView>, level: nat, p: int) -> Parsed
    decreases toks.len() - p, 2 * (if level >= 4 { 0int } else { 4 - level }) + 3,
{
    if level >= 4 {
        parse_unary(toks, p)
    } else {
        match parse_level(toks, level + 1, p) {
            Parsed::Tree(left, q) => if p < q <= toks.len() {
                fold_level(toks, level, left, q)
            } else {
                Parsed::Tree(left, q)
            },
            Parsed::Error(k, m) => Parsed::Error(k, m),
        }
    }
}

/// The left-associative fold of binary level `level`: `left` has been
/// parsed and the cursor is at `q`.
pub open spec fn fold_level(toks: Seq<TokenView>, level: nat, left: ExprView, q: int) -> Parsed
    decreases toks.len() - q, 2 * (if level >= 4 { 0int } else { 4 - level }) + 2,
{
    if 0 <= q < toks.len() && level < 4 && level_op(level, kind_at(toks, q)) {
        match parse_level(toks, level + 1, q + 1) {
            Parsed::Tree(right, q2) => {
                let folded = ExprView::Binary(Box::new(left), toks[q], Box::new(right));
                if q < q2 <= toks.len() {
                    fold_level(toks, level, folded, q2)
                } else {
                    Parsed::Tree(folded, q2)
                }
            },
            Parsed::Error(k, m) => Parsed::Error(k, m),
        }
    } else {
        Parsed::Tree(left, q)
    }
}

pub open spec fn parse_unary(toks: Seq<TokenView>, p: int) -> Parsed
    decreases toks.len() - p, 1int,
{
    if 0 <= p < toks.len() && unary_op(kind_at(toks, p)) {
        match parse_unary(toks, p + 1) {
            Parsed::Tree(right, q) => Parsed::Tree(ExprView::Unary(toks[p], Box::new(right)), q),
            Parsed::Error(k, m) => Parsed::Error(k, m),
        }
    } else {
        parse_primary(toks, p)
    }
}

pub open spec fn parse_primary(toks: Seq<TokenView>, p: int) -> Parsed
    decreases toks.len() - p, 0int,
{
    if !(0 <= p < toks.len()) {
        Parsed::Error(p, "Expect expression."@)
    } else {
        let k = kind_at(toks, p);
        if k == TokenKind::False {
            Parsed::Tree(ExprView::Literal(LiteralView::Boolean(false)), p + 1)
        } else if k == TokenKind::True {
            Parsed::Tree(ExprView::Literal(LiteralView::Boolean(true)), p + 1)
        } else if k == TokenKind::Nil {
            Parsed::Tree(ExprView::Literal(LiteralView::Nil), p + 1)
        } else if k == TokenKind::Number {
            Parsed::Tree(ExprView::Literal(LiteralView::Number(literal_of(toks[p]))), p + 1)
        } else if k == TokenKind::String {
            Parsed::Tree(ExprView::Literal(LiteralView::Str(literal_of(toks[p]))), p + 1)
        } else if k == TokenKind::LeftParen {
            match parse_level(toks, 0, p + 1) {
                Parsed::Tree(inner, q) => if 0 <= q < toks.len() && kind_at(toks, q)
                    == TokenKind::RightParen {
                    Parsed::Tree(ExprView::Grouping(Box::new(inner)), q + 1)
                } else {
                    Parsed::Error(q, "Expect ')' after expression."@)
                },
                Parsed::Error(k, m) => Parsed::Error(k, m),
            }
        } else {
            Parsed::Error(p, "Expect expression."@)
        }
    }
}

/// A whole expression from position `p`.
pub open spec fn parse_expression(toks: Seq<TokenView>, p: int) -> Parsed {
    parse_level(toks, 0, p)
}

/// The positions a parse from `p` may end at.
pub open spec fn progress(toks: Seq<TokenView>, p: int, r: Parsed) -> bool {
    match r {
        Parsed::Tree(_, q) => p < q < toks.len(),
        Parsed::Error(k, _) => p <= k < toks.len(),
    }
}

proof fn lemma_level_progress(toks: Seq<TokenView>, level: nat, p: int)
    requires
        tokens_wf(toks),
        0 <= p < toks.len(),
    ensures
        progress(toks, p, parse_level(toks, level, p)),
    decreases toks.len() - p, 2 * (if level >= 4 { 0int } else { 4 - level }) + 3,
{
    if level >= 4 {
        lemma_unary_progress(toks, p);
    } else {
        lemma_level_progress(toks, level + 1, p);
        match parse_level(toks, level + 1, p) {
            Parsed::Tree(left, q) => {
                lemma_fold_progress(toks, level, left, q);
            },
            _ => {},
        }
    }
}

proof fn lemma_fold_progress(toks: Seq<TokenView>, level: nat, left: ExprView, q: int)
    requires
        tokens_wf(toks),
        0 <= q < toks.len(),
        level < 4,
    ensures
        progress(toks, q - 1, fold_level(toks, level, left, q)),
    decreases toks.len() - q, 2 * (if level >= 4 { 0int } else { 4 - level }) + 2,
{
    if level_op(level, kind_at(toks, q)) {
        assert(q + 1 < toks.len());
        lemma_level_progress(toks, level + 1, q + 1);
        match parse_level(toks, level + 1, q + 1) {
            Parsed::Tree(right, q2) => {
                let folded = ExprView::Binary(Box::new(left), toks[q], Box::new(right));
                lemma_fold_progress(toks, level, folded, q2);
            },
            _ => {},
        }
    }
}

proof fn lemma_unary_progress(toks: Seq<TokenView>, p: int)
    requires
        tokens_wf(toks),
        0 <= p < toks.len(),
    ensures
        progress(toks, p, parse_unary(toks, p)),
    decreases toks.len() - p, 1int,
{
    if unary_op(kind_at(toks, p)) {
        assert(p + 1 < toks.len());
        lemma_unary_progress(toks, p + 1);
    } else {
        lemma_primary_progress(toks, p);
    }
}

proof fn lemma_primary_progress(toks: Seq<TokenView>, p: int)
    requires
        tokens_wf(toks),
        0 <= p < toks.len(),
    ensures
        progress(toks, p, parse_primary(toks, p)),
    decreases toks.len() - p, 0int,
{
    let k = kind_at(toks, p);
    if k == TokenKind::LeftParen {
        assert(p + 1 < toks.len());
        lemma_level_progress(toks, 0, p + 1);
    }
}

/// Whether `k` begins a statement-level construct.
pub open spec fn starts_statement(k: TokenKind) -> bool {
    k == TokenKind::Class || k == TokenKind::For || k == TokenKind::Fun || k == TokenKind::If || k
        == TokenKind::Print || k == TokenKind::Return || k == TokenKind::Var || k
        == TokenKind::While
}

/// Where panic-mode recovery stops, scanning from `p` (just after the
/// token that was skipped first): after a semicolon, or before a token that
/// begins a statement, or at the end of input.
pub open spec fn sync_from(toks: Seq<TokenView>, p: int) -> int
    decreases toks.len() - p,
{
    if !(0 < p < toks.len()) || kind_at(toks, p) == TokenKind::Eof {
        p
    } else if kind_at(toks, p - 1) == TokenKind::SemiColon {
        p
    } else if starts_statement(kind_at(toks, p)) {
        p
    } else {
        sync_from(toks, p + 1)
    }
}

/// Where recovery from the token at `p` stops.
pub open spec fn synchronized(toks: Seq<TokenView>, p: int) -> int {
    if kind_at(toks, p) == TokenKind::Eof {
        p
    } else {
        sync_from(toks, p + 1)
    }
}

// ---------------------------------------------------------------------------
// Trees parsed from scanned source print faithfully
// ---------------------------------------------------------------------------

pub open spec fn operator_kind(k: TokenKind) -> bool {
    level_op(0, k) || level_op(1, k) || level_op(2, k) || level_op(3, k) || unary_op(k)
}

/// What the parser needs of a token for its trees to be printable: an
/// operator's text is made of operator characters, a number's value is a
/// numeral, a string's value holds no double quote.
pub open spec fn token_sound(t: TokenView) -> bool {
    &&& operator_kind(t.kind) ==> operator_text(t.lexeme)
    &&& t.kind == TokenKind::Number ==> numeral(literal_of(t))
    &&& t.kind == TokenKind::String ==> forall|k: int|
        0 <= k < literal_of(t).len() ==> #[trigger] literal_of(t)[k] != '"'
}

pub open spec fn all_sound(toks: Seq<TokenView>) -> bool {
    forall|k: int| 0 <= k < toks.len() ==> token_sound(#[trigger] toks[k])
}

proof fn lemma_lexeme_sound(s: Seq<char>, i: int)
    requires
        0 <= i < s.len(),
    ensures
        lex_at(s, i).outcome matches Outcome::Emit(kind, literal) ==> token_sound(
            TokenView { kind, lexeme: s.subrange(i, lex_at(s, i).end), literal, line: 0 },
        ),
{
    lemma_lex_progress(s, i);
    let lx = lex_at(s, i);
    let c = s[i];
    let lexeme = s.subrange(i, lx.end);
    assert(lexeme[0] == c);
    if lx.end == i + 2 {
        assert(lexeme[1] == s[i + 1]);
    }
    if c == '"' {
        lemma_quote_from(s, i + 1);
        let q = quote_from(s, i + 1);
        if q < s.len() {
            let v = s.subrange(i + 1, q);
            assert forall|k: int| 0 <= k < v.len() implies #[trigger] v[k] != '"' by {
                assert(v[k] == s[i + 1 + k]);
            }
        }
    } else if is_digit(c) {
        lemma_digits_end(s, i + 1);
        let d = crate::scanner::digits_end(s, i + 1);
        if d + 1 < s.len() && s[d] == '.' && is_digit(s[d + 1]) {
            lemma_digits_end(s, d + 1);
        }
        let e = number_end(s, i);
        assert forall|k: int| 0 <= k < lexeme.len() implies ('0' <= #[trigger] lexeme[k]
            && lexeme[k] <= '9') || lexeme[k] == '.' by {
            assert(lexeme[k] == s[i + k]);
        }
    }
}

/// Every token that scanning produces is sound.
pub proof fn lemma_scan_sound(s: Seq<char>, i: int, line: nat)
    ensures
        all_sound(scan_from(s, i, line).tokens),
    decreases s.len() - i,
{
    if 0 <= i < s.len() {
        lemma_lex_progress(s, i);
        lemma_lexeme_sound(s, i);
        let lx = lex_at(s, i);
        let next_line = line + crate::scanner::count_newlines(s.subrange(i, lx.end));
        lemma_scan_sound(s, lx.end, next_line);
        let rest = scan_from(s, lx.end, next_line);
        let t = scan_from(s, i, line).tokens;
        match lx.outcome {
            Outcome::Emit(kind, literal) => {
                assert forall|k: int| 0 <= k < t.len() implies token_sound(#[trigger] t[k]) by {
                    if k > 0 {
                        assert(t[k] == rest.tokens[k - 1]);
                    }
                }
            },
            _ => {},
        }
    } else {
        let t = scan_from(s, i, line).tokens;
        assert forall|k: int| 0 <= k < t.len() implies token_sound(#[trigger] t[k]) by {
            assert(t[k].kind == TokenKind::Eof);
        }
    }
}

pub open spec fn printable_result(r: Parsed) -> bool {
    r matches Parsed::Tree(e, _) ==> printable(e)
}

proof fn lemma_level_printable(toks: Seq<TokenView>, level: nat, p: int)
    requires
        all_sound(toks),
    ensures
        printable_result(parse_level(toks, level, p)),
    decreases toks.len() - p, 2 * (if level >= 4 { 0int } else { 4 - level }) + 3,
{
    if level >= 4 {
        lemma_unary_printable(toks, p);
    } else {
        lemma_level_printable(toks, level + 1, p);
        match parse_level(toks, level + 1, p) {
            Parsed::Tree(left, q) => {
                if p < q <= toks.len() {
                    lemma_fold_printable(toks, level, left, q);
                }
            },
            _ => {},
        }
    }
}

proof fn lemma_fold_printable(toks: Seq<TokenView>, level: nat, left: ExprView, q: int)
    requires
        all_sound(toks),
        printable(left),
        level < 4,
    ensures
        printable_result(fold_level(toks, level, left, q)),
    decreases toks.len() - q, 2 * (if level >= 4 { 0int } else { 4 - level }) + 2,
{
    if 0 <= q < toks.len() && level_op(level, kind_at(toks, q)) {
        assert(token_sound(toks[q]));
        lemma_level_printable(toks, level + 1, q + 1);
        match parse_level(toks, level + 1, q + 1) {
            Parsed::Tree(right, q2) => {
                let folded = ExprView::Binary(Box::new(left), toks[q], Box::new(right));
                assert(printable(folded));
                if q < q2 <= toks.len() {
                    lemma_fold_printable(toks, level, folded, q2);
                }
            },
            _ => {},
        }
    }
}

proof fn lemma_unary_printable(toks: Seq<TokenView>, p: int)
    requires
        all_sound(toks),
    ensures
        printable_result(parse_unary(toks, p)),
    decreases toks.len() - p, 1int,
{
    if 0 <= p < toks.len() && unary_op(kind_at(toks, p)) {
        assert(token_sound(toks[p]));
        lemma_unary_printable(toks, p + 1);
    } else {
        lemma_primary_printable(toks, p);
    }
}

proof fn lemma_primary_printable(toks: Seq<TokenView>, p: int)
    requires
        all_sound(toks),
    ensures
        printable_result(parse_primary(toks, p)),
    decreases toks.len() - p, 0int,
{
    if 0 <= p < toks.len() {
        assert(token_sound(toks[p]));
        if kind_at(toks, p) == TokenKind::LeftParen {
            lemma_level_printable(toks, 0, p + 1);
        }
    }
}

/// The tree that parsing a scanned source gives, if any.
pub open spec fn parsed_tree(source: Seq<char>) -> Option<ExprView> {
    match parse_expression(scan_source(source).tokens, 0) {
        Parsed::Tree(e, _) => Some(e),
        Parsed::Error(_, _) => None,
    }
}

/// Printing the trees parsed from source text is faithful to their shape:
/// two such trees print identically exactly when they have the same shape
/// (the same node kinds, operators and literal values).
pub proof fn lemma_parsed_print_faithful(s1: Seq<char>, s2: Seq<char>)
    requires
        parsed_tree(s1) is Some,
        parsed_tree(s2) is Some,
    ensures
        print_view(parsed_tree(s1)->0) == print_view(parsed_tree(s2)->0) <==> same_shape(
            parsed_tree(s1)->0,
            parsed_tree(s2)->0,
        ),
{
    lemma_scan_sound(s1, 0, 0);
    lemma_scan_sound(s2, 0, 0);
    lemma_level_printable(scan_source(s1).tokens, 0, 0);
    lemma_level_printable(scan_source(s2).tokens, 0, 0);
    lemma_print_faithful(parsed_tree(s1)->0, parsed_tree(s2)->0);
}

// ---------------------------------------------------------------------------
// The parser
// ---------------------------------------------------------------------------

/// A syntax error: the token at which it was found and what was expected.
#[derive(Debug)]
pub struct ParseError {
    pub token: Token,
    pub message: String,
}

/// Whether an executable result agrees with the grammar's outcome, the
/// cursor ending at `after`.
pub open spec fn agrees(
    r: Result<Expr, ParseError>,
    o: Parsed,
    toks: Seq<TokenView>,
    after: int,
) -> bool {
    match o {
        Parsed::Tree(e, q) => r is Ok && r->Ok_0@ == e && after == q,
        Parsed::Error(k, m) => r is Err && r->Err_0.token@ == toks[k] && r->Err_0.message@ == m,
    }
}

/// A recursive-descent parser over a token sequence that ends with the
/// end-of-input token; the cursor only moves forward.
pub struct Parser {
    pub tokens: Vec<Token>,
    pub current: usize,
}

impl Parser {
    pub open spec fn toks(&self) -> Seq<TokenView> {
        tokens_view(self.tokens@)
    }

    pub open spec fn wf(&self) -> bool {
        tokens_wf(self.toks()) && self.current < self.tokens.len()
    }

    /// A parser at the first of `tokens`.
    pub fn new(tokens: Vec<Token>) -> (r: Parser)
        requires
            tokens_wf(tokens_view(tokens@)),
        ensures
            r.wf(),
            r.tokens == tokens,
            r.current == 0,
    {
        Parser { tokens, current: 0 }
    }

    /// Parses one expression from the cursor.
    pub fn parse(&mut self) -> (r: Result<Expr, ParseError>)
        requires
            old(self).wf(),
        ensures
            final(self).tokens == old(self).tokens,
            final(self).wf(),
            old(self).current <= final(self).current,
            agrees(
                r,
                parse_expression(old(self).toks(), old(self).current as int),
                old(self).toks(),
                final(self).current as int,
            ),
    {
        self.expression()
    }

    pub fn expression(&mut self) -> (r: Result<Expr, ParseError>)
        requires
            old(self).wf(),
        ensures
            final(self).tokens == old(self).tokens,
            final(self).wf(),
            old(self).current <= final(self).current,
            agrees(
                r,
                parse_level(old(self).toks(), 0, old(self).current as int),
                old(self).toks(),
                final(self).current as int,
            ),
        decreases old(self).tokens@.len() - old(self).current, 21int,
    {
        self.equality()
    }

    pub fn equality(&mut self) -> (r: Result<Expr, ParseError>)
        requires
            old(self).wf(),
        ensures
            final(self).tokens == old(self).tokens,
            final(self).wf(),
            old(self).current <= final(self).current,
            agrees(
                r,
                parse_level(old(self).toks(), 0, old(self).current as int),
                old(self).toks(),
                final(self).current as int,
            ),
        decreases old(self).tokens@.len() - old(self).current, 20int,
    {
        self.binary(0)
    }

    fn comparison(&mut self) -> (r: Result<Expr, ParseError>)
        requires
            old(self).wf(),
        ensures
            final(self).tokens == old(self).tokens,
            final(self).wf(),
            old(self).current <= final(self).current,
            agrees(
                r,
                parse_level(old(self).toks(), 1, old(self).current as int),
                old(self).toks(),
                final(self).current as int,
            ),
        decreases old(self).tokens@.len() - old(self).current, 17int,
    {
        self.binary(1)
    }

    fn term(&mut self) -> (r: Result<Expr, ParseError>)
        requires
            old(self).wf(),
        ensures
            final(self).tokens == old(self).tokens,
            final(self).wf(),
            old(self).current <= final(self).current,
            agrees(
                r,
                parse_level(old(self).toks(), 2, old(self).current as int),
                old(self).toks(),
                final(self).current as int,
            ),
        decreases old(self).tokens@.len() - old(self).current, 13int,
    {
        self.binary(2)
    }

    fn factor(&mut self) -> (r: Result<Expr, ParseError>)
        requires
            old(self).wf(),
        ensures
            final(self).tokens == old(self).tokens,
            final(self).wf(),
            old(self).current <= final(self).current,
            agrees(
                r,
                parse_level(old(self).toks(), 3, old(self).current as int),
                old(self).toks(),
                final(self).current as int,
            ),
        decreases old(self).tokens@.len() - old(self).current, 9int,
    {
        self.binary(3)
    }

    /// The operand of binary level `level`: the next level up, or a unary
    /// expression above the highest.
    fn operand(&mut self, level: usize) -> (r: Result<Expr, ParseError>)
        requires
            old(self).wf(),
            1 <= level <= 4,
        ensures
            final(self).tokens == old(self).tokens,
            final(self).wf(),
            old(self).current <= final(self).current,
            agrees(
                r,
                parse_level(old(self).toks(), level as nat, old(self).current as int),
                old(self).toks(),
                final(self).current as int,
            ),
        decreases old(self).tokens@.len() - old(self).current, 4 * (4 - level) + 6,
    {
        if level == 1 {
            self.comparison()
        } else if level == 2 {
            self.term()
        } else if level == 3 {
            self.factor()
        } else {
            self.unary()
        }
    }

    /// Consumes the next token where it is an operator of level `level`.
    fn match_level(&mut self, level: usize) -> (r: bool)
        requires
            old(self).wf(),
            level <= 3,
        ensures
            final(self).tokens == old(self).tokens,
            final(self).wf(),
            r == level_op(level as nat, kind_at(old(self).toks(), old(self).current as int)),
            final(self).current == old(self).current + if r { 1int } else { 0int },
    {
        if level == 0 {
            self.match_types(&[TokenKind::BangEqual, TokenKind::EqualEqual])
        } else if level == 1 {
            self.match_types(
                &[
                    TokenKind::Greater,
                    TokenKind::GreaterEqual,
                    TokenKind::Less,
                    TokenKind::LessEqual,
                ],
            )
        } else if level == 2 {
            self.match_types(&[TokenKind::Minus, TokenKind::Plus])
        } else {
            self.match_types(&[TokenKind::Slash, TokenKind::Star])
        }
    }

    /// Binary level `level`: an operand, then as long as an operator of the
    /// level follows, that operator and another operand, folded to the left.
    fn binary(&mut self, level: usize) -> (r: Result<Expr, ParseError>)
        requires
            old(self).wf(),
            level <= 3,
        ensures
            final(self).tokens == old(self).tokens,
            final(self).wf(),
            old(self).current <= final(self).current,
            agrees(
                r,
                parse_level(old(self).toks(), level as nat, old(self).current as int),
                old(self).toks(),
                final(self).current as int,
            ),
        decreases old(self).tokens@.len() - old(self).current, 4 * (4 - level) + 3,
    {
        let ghost toks = self.toks();
        let ghost p = self.current as int;
        proof {
            lemma_level_progress(toks, (level + 1) as nat, p);
        }
        let mut expr = match self.operand(level + 1) {
            Ok(e) => e,
            Err(e) => return Err(e),
        };
        let ghost goal = fold_level(toks, level as nat, expr@, self.current as int);
        assert(parse_level(toks, level as nat, p) == goal);
        while self.match_level(level)
            invariant
                self.wf(),
                self.toks() == toks,
                self.tokens == old(self).tokens,
                level <= 3,
                p == old(self).current,
                p < self.current,
                parse_level(toks, level as nat, p) == goal,
                fold_level(toks, level as nat, expr@, self.current as int) == goal,
            decreases self.tokens@.len() - self.current,
        {
            let ghost q = (self.current - 1) as int;
            let operator = self.previous().duplicate();
            proof {
                lemma_level_progress(toks, (level + 1) as nat, q + 1);
            }
            let ghost left = expr@;
            let result = self.operand(level + 1);
            proof {
                assert(level_op(level as nat, kind_at(toks, q)));
                let next = parse_level(toks, (level + 1) as nat, q + 1);
                assert(fold_level(toks, level as nat, left, q) == match next {
                    Parsed::Tree(right, q2) => {
                        let folded = ExprView::Binary(Box::new(left), toks[q], Box::new(right));
                        if q < q2 <= toks.len() {
                            fold_level(toks, level as nat, folded, q2)
                        } else {
                            Parsed::Tree(folded, q2)
                        }
                    },
                    Parsed::Error(k, m) => Parsed::Error(k, m),
                });
            }
            let right = match result {
                Ok(e) => e,
                Err(e) => return Err(e),
            };
            expr = Expr::Binary { left: Box::new(expr), operator, right: Box::new(right) };
        }
        Ok(expr)
    }

    fn unary(&mut self) -> (r: Result<Expr, ParseError>)
        requires
            old(self).wf(),
        ensures
            final(self).tokens == old(self).tokens,
            final(self).wf(),
            old(self).current <= final(self).current,
            agrees(
                r,
                parse_unary(old(self).toks(), old(self).current as int),
                old(self).toks(),
                final(self).current as int,
            ),
        decreases old(self).tokens@.len() - old(self).current, 1int,
    {
        if self.match_types(&[TokenKind::Bang, TokenKind::Minus]) {
            let operator = self.previous().duplicate();
            let right = match self.unary() {
                Ok(e) => e,
                Err(e) => return Err(e),
            };
            return Ok(Expr::Unary { operator, right: Box::new(right) });
        }
        self.primary()
    }

    fn primary(&mut self) -> (r: Result<Expr, ParseError>)
        requires
            old(self).wf(),
        ensures
            final(self).tokens == old(self).tokens,
            final(self).wf(),
            old(self).current <= final(self).current,
            agrees(
                r,
                parse_primary(old(self).toks(), old(self).current as int),
                old(self).toks(),
                final(self).current as int,
            ),
        decreases old(self).tokens@.len() - old(self).current, 0int,
    {
        if self.match_types(&[TokenKind::False]) {
            return Ok(Expr::Literal(LiteralValue::Boolean(false)));
        }
        if self.match_types(&[TokenKind::True]) {
            return Ok(Expr::Literal(LiteralValue::Boolean(true)));
        }
        if self.match_types(&[TokenKind::Nil]) {
            return Ok(Expr::Literal(LiteralValue::Nil));
        }
        if self.match_types(&[TokenKind::Number]) {
            return Ok(Expr::Literal(LiteralValue::Number(self.previous_literal())));
        }
        if self.match_types(&[TokenKind::String]) {
            return Ok(Expr::Literal(LiteralValue::String(self.previous_literal())));
        }
        if self.match_types(&[TokenKind::LeftParen]) {
            let expr = match self.expression() {
                Ok(e) => e,
                Err(e) => return Err(e),
            };
            let message = String::from_str("Expect ')' after expression.");
            return match self.consume(TokenKind::RightParen, message) {
                Ok(_) => Ok(Expr::Grouping(Box::new(expr))),
                Err(e) => Err(e),
            };
        }
        Err(self.error(self.peek(), String::from_str("Expect expression.")))
    }

    /// The decoded value of the token just consumed.
    fn previous_literal(&self) -> (r: String)
        requires
            0 < self.current <= self.tokens.len(),
        ensures
            r@ == literal_of(self.toks()[self.current - 1]),
    {
        let t = self.previous();
        match &t.literal {
            Some(l) => l.clone(),
            None => t.lexeme.clone(),
        }
    }

    /// Consumes the next token where it has kind `token_type`; otherwise
    /// the error `message` at that token.
    fn consume(&mut self, token_type: TokenKind, message: String) -> (r: Result<Token, ParseError>)
        requires
            old(self).wf(),
        ensures
            final(self).tokens == old(self).tokens,
            final(self).wf(),
            ({
                let t = old(self).toks()[old(self).current as int];
                if t.kind != TokenKind::Eof && t.kind == token_type {
                    r is Ok && r->Ok_0@ == t && final(self).current == old(self).current + 1
                } else {
                    r is Err && r->Err_0.token@ == t && r->Err_0.message == message
                        && final(self).current == old(self).current
                }
            }),
    {
        if self.check(token_type) {
            return Ok(self.advance());
        }
        Err(self.error(self.peek(), message))
    }

    fn error(&self, token: &Token, message: String) -> (r: ParseError)
        ensures
            r.token@ == token@,
            r.message == message,
    {
        ParseError { token: token.duplicate(), message }
    }

    /// Consumes the next token where its kind is one of `types`.
    fn match_types(&mut self, types: &[TokenKind]) -> (r: bool)
        requires
            old(self).wf(),
        ensures
            final(self).tokens == old(self).tokens,
            final(self).wf(),
            r == (kind_at(old(self).toks(), old(self).current as int) != TokenKind::Eof
                && types@.contains(kind_at(old(self).toks(), old(self).current as int))),
            final(self).current == old(self).current + if r { 1int } else { 0int },
    {
        let mut i: usize = 0;
        while i < types.len()
            invariant
                i <= types.len(),
                self.wf(),
                self.tokens == old(self).tokens,
                self.current == old(self).current,
                forall|j: int| 0 <= j < i ==> !(#[trigger] self.check_spec(types@[j])),
            decreases types.len() - i,
        {
            if self.check(types[i]) {
                assert(types@[i as int] == kind_at(self.toks(), self.current as int));
                self.advance();
                return true;
            }
            i = i + 1;
        }
        proof {
            let k = kind_at(self.toks(), self.current as int);
            if types@.contains(k) {
                let j = choose|j: int| 0 <= j < types@.len() && types@[j] == k;
                assert(!self.check_spec(types@[j]));
            }
        }
        false
    }

    pub open spec fn check_spec(&self, k: TokenKind) -> bool {
        let here = kind_at(self.toks(), self.current as int);
        here != TokenKind::Eof && here == k
    }

    fn check(&self, token_type: TokenKind) -> (r: bool)
        requires
            self.wf(),
        ensures
            r == self.check_spec(token_type),
    {
        if self.is_at_end() {
            false
        } else {
            self.peek().token_type == token_type
        }
    }

    fn is_at_end(&self) -> (r: bool)
        requires
            self.wf(),
        ensures
            r == (kind_at(self.toks(), self.current as int) == TokenKind::Eof),
    {
        self.peek().token_type == TokenKind::Eof
    }

    fn peek(&self) -> (r: &Token)
        requires
            self.current < self.tokens.len(),
        ensures
            r@ == self.toks()[self.current as int],
    {
        &self.tokens[self.current]
    }

    fn previous(&self) -> (r: &Token)
        requires
            0 < self.current <= self.tokens.len(),
        ensures
            r@ == self.toks()[self.current - 1],
    {
        &self.tokens[self.current - 1]
    }

    /// Moves past the current token, unless it is the end of input, and
    /// returns the token last consumed.
    fn advance(&mut self) -> (r: Token)
        requires
            old(self).wf(),
            old(self).current > 0 || kind_at(old(self).toks(), old(self).current as int)
                != TokenKind::Eof,
        ensures
            final(self).tokens == old(self).tokens,
            final(self).wf(),
            final(self).current == old(self).current + if kind_at(
                old(self).toks(),
                old(self).current as int,
            ) == TokenKind::Eof {
                0int
            } else {
                1int
            },
            r@ == old(self).toks()[final(self).current - 1],
    {
        if !self.is_at_end() {
            self.current = self.current + 1;
        }
        self.previous().duplicate()
    }

    /// Panic-mode recovery: skips tokens up to the next statement boundary,
    /// that is just after a semicolon or just before a token that begins a
    /// statement, or to the end of input.
    pub fn synchronize(&mut self)
        requires
            old(self).wf(),
        ensures
            final(self).tokens == old(self).tokens,
            final(self).wf(),
            final(self).current == synchronized(old(self).toks(), old(self).current as int),
    {
        if self.is_at_end() {
            return;
        }
        self.advance();
        while !self.is_at_end()
            invariant
                self.wf(),
                self.tokens == old(self).tokens,
                self.current > 0,
                sync_from(self.toks(), self.current as int) == synchronized(
                    old(self).toks(),
                    old(self).current as int,
                ),
            decreases self.tokens@.len() - self.current,
        {
            if self.previous().token_type == TokenKind::SemiColon {
                return;
            }
            let k = self.peek().token_type;
            if k == TokenKind::Class || k == TokenKind::For || k == TokenKind::Fun || k
                == TokenKind::If || k == TokenKind::Print || k == TokenKind::Return || k
                == TokenKind::Var || k == TokenKind::While {
                return;
            }
            self.advance();
        }
    }
}

} // verus!
