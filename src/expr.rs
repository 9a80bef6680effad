use vstd::prelude::*;
use crate::token::{Token, TokenView};

verus! {

/// The value of a literal expression. A number is kept as the decimal text
/// it was written with, so that no precision is lost before evaluation.
#[derive(Debug)]
pub enum LiteralValue {
    Number(String),
    String(String),
    Boolean(bool),
    Nil,
}

/// An expression tree; every subtree is owned by its parent.
#[derive(Debug)]
pub enum Expr {
    Binary { left: Box<Expr>, operator: Token, right: Box<Expr> },
    Grouping(Box<Expr>),
    Literal(LiteralValue),
    Unary { operator: Token, right: Box<Expr> },
}

/// The mathematical content of a literal value.
pub enum LiteralView {
    Number(Seq<char>),
    Str(Seq<char>),
    Boolean(bool),
    Nil,
}

/// The mathematical content of an expression tree.
pub enum ExprView {
    Binary(Box<ExprView>, TokenView, Box<ExprView>),
    Grouping(Box<ExprView>),
    Literal(LiteralView),
    Unary(TokenView, Box<ExprView>),
}

impl View for LiteralValue {
    type V = LiteralView;

    open spec fn view(&self) -> LiteralView {
        match self {
            LiteralValue::Number(n) => LiteralView::Number(n@),
            LiteralValue::String(s) => LiteralView::Str(s@),
            LiteralValue::Boolean(b) => LiteralView::Boolean(*b),
            LiteralValue::Nil => LiteralView::Nil,
        }
    }
}

pub open spec fn expr_view(e: Expr) -> ExprView
    decreases e,
{
    match e {
        Expr::Binary { left, operator, right } => ExprView::Binary(
            Box::new(expr_view(*left)),
            operator@,
            Box::new(expr_view(*right)),
        ),
        Expr::Grouping(inner) => ExprView::Grouping(Box::new(expr_view(*inner))),
        Expr::Literal(v) => ExprView::Literal(v@),
        Expr::Unary { operator, right } => ExprView::Unary(operator@, Box::new(expr_view(*right))),
    }
}

impl View for Expr {
    type V = ExprView;

    open spec fn view(&self) -> ExprView {
        expr_view(*self)
    }
}

/// The printed form of a literal value.
pub open spec fn literal_text(v: LiteralView) -> Seq<char> {
    match v {
        LiteralView::Number(n) => n,
        LiteralView::Str(s) => "\""@ + s + "\""@,
        LiteralView::Boolean(b) => if b {
            "true"@
        } else {
            "false"@
        },
        LiteralView::Nil => "nil"@,
    }
}

/// The fully parenthesized prefix form of an expression.
pub open spec fn print_view(e: ExprView) -> Seq<char>
    decreases e,
{
    match e {
        ExprView::Binary(left, operator, right) => "("@ + operator.lexeme + " "@ + print_view(*left)
            + " "@ + print_view(*right) + ")"@,
        ExprView::Grouping(inner) => "(group "@ + print_view(*inner) + ")"@,
        ExprView::Literal(v) => literal_text(v),
        ExprView::Unary(operator, right) => "("@ + operator.lexeme + " "@ + print_view(*right)
            + ")"@,
    }
}

// ---------------------------------------------------------------------------
// Printing is faithful to tree shape
// ---------------------------------------------------------------------------

/// Two trees have the same shape: the same node kinds, the same operator
/// texts and the same literal values, wherever they stand.
pub open spec fn same_shape(a: ExprView, b: ExprView) -> bool
    decreases a,
{
    match a {
        ExprView::Binary(la, oa, ra) => match b {
            ExprView::Binary(lb, ob, rb) => oa.lexeme == ob.lexeme && same_shape(*la, *lb)
                && same_shape(*ra, *rb),
            _ => false,
        },
        ExprView::Grouping(ia) => match b {
            ExprView::Grouping(ib) => same_shape(*ia, *ib),
            _ => false,
        },
        ExprView::Literal(va) => match b {
            ExprView::Literal(vb) => va == vb,
            _ => false,
        },
        ExprView::Unary(oa, ra) => match b {
            ExprView::Unary(ob, rb) => oa.lexeme == ob.lexeme && same_shape(*ra, *rb),
            _ => false,
        },
    }
}

pub open spec fn is_operator_char(c: char) -> bool {
    c == '!' || c == '=' || c == '<' || c == '>' || c == '-' || c == '+' || c == '/' || c == '*'
}

/// An operator text: one or more operator characters.
pub open spec fn operator_text(l: Seq<char>) -> bool {
    l.len() > 0 && forall|i: int| 0 <= i < l.len() ==> is_operator_char(#[trigger] l[i])
}

/// A number text: a digit, then digits and dots.
pub open spec fn numeral(n: Seq<char>) -> bool {
    n.len() > 0 && '0' <= n[0] && n[0] <= '9' && forall|i: int|
        0 <= i < n.len() ==> ('0' <= #[trigger] n[i] && n[i] <= '9') || n[i] == '.'
}

/// A tree as the parser builds it from scanned tokens: operators are
/// operator texts, numbers are numerals, strings hold no double quote.
pub open spec fn printable(e: ExprView) -> bool
    decreases e,
{
    match e {
        ExprView::Binary(l, op, r) => operator_text(op.lexeme) && printable(*l) && printable(*r),
        ExprView::Grouping(i) => printable(*i),
        ExprView::Literal(v) => match v {
            LiteralView::Number(n) => numeral(n),
            LiteralView::Str(s) => forall|i: int| 0 <= i < s.len() ==> #[trigger] s[i] != '"',
            _ => true,
        },
        ExprView::Unary(op, r) => operator_text(op.lexeme) && printable(*r),
    }
}

/// Printing depends on the shape of a tree alone: trees of the same shape
/// print identically.
pub proof fn lemma_same_shape_same_print(a: ExprView, b: ExprView)
    requires
        same_shape(a, b),
    ensures
        print_view(a) == print_view(b),
    decreases a,
{
    match a {
        ExprView::Binary(la, oa, ra) => match b {
            ExprView::Binary(lb, ob, rb) => {
                lemma_same_shape_same_print(*la, *lb);
                lemma_same_shape_same_print(*ra, *rb);
            },
            _ => {},
        },
        ExprView::Grouping(ia) => match b {
            ExprView::Grouping(ib) => {
                lemma_same_shape_same_print(*ia, *ib);
            },
            _ => {},
        },
        ExprView::Literal(_) => {},
        ExprView::Unary(oa, ra) => match b {
            ExprView::Unary(ob, rb) => {
                lemma_same_shape_same_print(*ra, *rb);
            },
            _ => {},
        },
    }
}

/// Where two words that hold no stop character are each followed by a
/// stop character or by nothing, equal texts split the same way.
proof fn lemma_split_at_stop(
    x1: Seq<char>,
    s1: Seq<char>,
    x2: Seq<char>,
    s2: Seq<char>,
    stop: spec_fn(char) -> bool,
)
    requires
        forall|i: int| 0 <= i < x1.len() ==> !stop(#[trigger] x1[i]),
        forall|i: int| 0 <= i < x2.len() ==> !stop(#[trigger] x2[i]),
        s1.len() > 0 ==> stop(s1[0]),
        s2.len() > 0 ==> stop(s2[0]),
        x1 + s1 == x2 + s2,
    ensures
        x1 == x2,
        s1 == s2,
{
    let t = x1 + s1;
    if x1.len() < x2.len() {
        assert(t[x1.len() as int] == x2[x1.len() as int]);
        if s1.len() == 0 {
            assert(t.len() == x1.len());
        } else {
            assert(t[x1.len() as int] == s1[0]);
        }
    } else if x2.len() < x1.len() {
        assert(t[x2.len() as int] == x1[x2.len() as int]);
        if s2.len() == 0 {
            assert(t.len() == x2.len());
        } else {
            assert((x2 + s2)[x2.len() as int] == s2[0]);
        }
    }
    assert(x1 =~= t.subrange(0, x1.len() as int));
    assert(x2 =~= (x2 + s2).subrange(0, x2.len() as int));
    assert(s1 =~= t.subrange(x1.len() as int, t.len() as int));
    assert(s2 =~= (x2 + s2).subrange(x2.len() as int, t.len() as int));
}

pub open spec fn is_compound(e: ExprView) -> bool {
    !(e is Literal)
}

/// What follows a printed tree: nothing, a space or a closing parenthesis.
pub open spec fn terminated(s: Seq<char>) -> bool {
    s.len() > 0 ==> (s[0] == ' ' || s[0] == ')')
}

/// The head of a compound node's printed form: its operator, or `group`.
pub open spec fn head_of(e: ExprView) -> Seq<char> {
    match e {
        ExprView::Binary(_, op, _) => op.lexeme,
        ExprView::Unary(op, _) => op.lexeme,
        _ => "group"@,
    }
}

/// What follows the head and its space in a compound node's printed form.
pub open spec fn body_of(e: ExprView) -> Seq<char> {
    match e {
        ExprView::Binary(l, _, r) => print_view(*l) + " "@ + print_view(*r) + ")"@,
        ExprView::Grouping(i) => print_view(*i) + ")"@,
        ExprView::Unary(_, r) => print_view(*r) + ")"@,
        _ => Seq::empty(),
    }
}

proof fn lemma_print_shape(e: ExprView)
    requires
        printable(e),
    ensures
        print_view(e).len() > 0,
        is_compound(e) ==> print_view(e) =~= seq!['('] + head_of(e) + seq![' '] + body_of(e),
        is_compound(e) ==> forall|i: int|
            0 <= i < head_of(e).len() ==> #[trigger] head_of(e)[i] != ' ',
        e is Grouping ==> head_of(e).len() > 0 && head_of(e)[0] == 'g',
        (e is Binary || e is Unary) ==> head_of(e).len() > 0 && is_operator_char(head_of(e)[0]),
        !is_compound(e) ==> print_view(e)[0] != '(',
        e matches ExprView::Literal(LiteralView::Number(_)) ==> ('0' <= print_view(e)[0]
            && print_view(e)[0] <= '9'),
        e matches ExprView::Literal(LiteralView::Str(_)) ==> print_view(e)[0] == '"',
        e matches ExprView::Literal(LiteralView::Boolean(true)) ==> print_view(e)[0] == 't',
        e matches ExprView::Literal(LiteralView::Boolean(false)) ==> print_view(e)[0] == 'f',
        e matches ExprView::Literal(LiteralView::Nil) ==> print_view(e)[0] == 'n',
{
    reveal_strlit("(");
    reveal_strlit(")");
    reveal_strlit(" ");
    reveal_strlit("(group ");
    reveal_strlit("group");
    reveal_strlit("\"");
    reveal_strlit("true");
    reveal_strlit("false");
    reveal_strlit("nil");
    match e {
        ExprView::Binary(l, op, r) => {
            assert(print_view(e) =~= seq!['('] + head_of(e) + seq![' '] + body_of(e));
        },
        ExprView::Grouping(i) => {
            assert(print_view(e) =~= seq!['('] + head_of(e) + seq![' '] + body_of(e));
        },
        ExprView::Unary(op, r) => {
            assert(print_view(e) =~= seq!['('] + head_of(e) + seq![' '] + body_of(e));
        },
        ExprView::Literal(v) => {
            match v {
                LiteralView::Str(t) => {
                    assert(print_view(e)[0] == '"');
                },
                _ => {},
            }
        },
    }
}

/// Unique readability: a printed tree followed by a terminating text is
/// read back as one tree only.
proof fn lemma_read_back(a: ExprView, b: ExprView, s1: Seq<char>, s2: Seq<char>)
    requires
        printable(a),
        printable(b),
        terminated(s1),
        terminated(s2),
        print_view(a) + s1 == print_view(b) + s2,
    ensures
        same_shape(a, b),
        print_view(a) == print_view(b),
        s1 == s2,
    decreases a, 1int,
{
    lemma_print_shape(a);
    lemma_print_shape(b);
    let t = print_view(a) + s1;
    assert(t[0] == print_view(a)[0]);
    assert(t[0] == print_view(b)[0]);
    if is_compound(a) && is_compound(b) {
        lemma_read_back_compound(a, b, s1, s2);
    } else if !is_compound(a) && !is_compound(b) {
        lemma_read_back_literal(a, b, s1, s2);
    }
}

/// Two compound nodes whose printed forms agree have the same head, and
/// what follows the head agrees.
proof fn lemma_heads(a: ExprView, b: ExprView, s1: Seq<char>, s2: Seq<char>)
    requires
        printable(a),
        printable(b),
        is_compound(a),
        is_compound(b),
        print_view(a) + s1 == print_view(b) + s2,
    ensures
        head_of(a) == head_of(b),
        body_of(a) + s1 == body_of(b) + s2,
{
    lemma_print_shape(a);
    lemma_print_shape(b);
    let t = print_view(a) + s1;
    let ha = head_of(a);
    let hb = head_of(b);
    let ra = seq![' '] + body_of(a) + s1;
    let rb = seq![' '] + body_of(b) + s2;
    assert(t.drop_first() =~= ha + ra);
    assert(t.drop_first() =~= hb + rb);
    lemma_split_at_stop(ha, ra, hb, rb, |c: char| c == ' ');
    assert(body_of(a) + s1 =~= ra.drop_first());
    assert(body_of(b) + s2 =~= rb.drop_first());
}

proof fn lemma_read_back_compound(a: ExprView, b: ExprView, s1: Seq<char>, s2: Seq<char>)
    requires
        printable(a),
        printable(b),
        is_compound(a),
        is_compound(b),
        terminated(s1),
        terminated(s2),
        print_view(a) + s1 == print_view(b) + s2,
    ensures
        same_shape(a, b),
        print_view(a) == print_view(b),
        s1 == s2,
    decreases a, 0int,
{
    reveal_strlit(")");
    reveal_strlit(" ");
    lemma_print_shape(a);
    lemma_print_shape(b);
    lemma_heads(a, b, s1, s2);
    let close1 = ")"@ + s1;
    let close2 = ")"@ + s2;
    assert(s1 =~= close1.drop_first());
    assert(s2 =~= close2.drop_first());
    match a {
        ExprView::Grouping(ia) => {
            match b {
                ExprView::Grouping(ib) => {
                    assert(print_view(*ia) + close1 =~= body_of(a) + s1);
                    assert(print_view(*ib) + close2 =~= body_of(b) + s2);
                    lemma_read_back(*ia, *ib, close1, close2);
                },
                _ => {},
            }
        },
        ExprView::Binary(la, oa, ra) => {
            let sa = " "@ + print_view(*ra) + close1;
            assert(print_view(*la) + sa =~= body_of(a) + s1);
            match b {
                ExprView::Binary(lb, ob, rb) => {
                    let sb = " "@ + print_view(*rb) + close2;
                    assert(print_view(*lb) + sb =~= body_of(b) + s2);
                    lemma_read_back(*la, *lb, sa, sb);
                    assert(print_view(*ra) + close1 =~= sa.drop_first());
                    assert(print_view(*rb) + close2 =~= sb.drop_first());
                    lemma_read_back(*ra, *rb, close1, close2);
                },
                ExprView::Unary(ob, rb) => {
                    assert(print_view(*rb) + close2 =~= body_of(b) + s2);
                    lemma_read_back(*la, *rb, sa, close2);
                    assert(sa[0] == ' ');
                    assert(close2[0] == ')');
                },
                _ => {},
            }
        },
        ExprView::Unary(oa, ra) => {
            assert(print_view(*ra) + close1 =~= body_of(a) + s1);
            match b {
                ExprView::Binary(lb, ob, rb) => {
                    let sb = " "@ + print_view(*rb) + close2;
                    assert(print_view(*lb) + sb =~= body_of(b) + s2);
                    lemma_read_back(*ra, *lb, close1, sb);
                    assert(close1[0] == ')');
                    assert(sb[0] == ' ');
                },
                ExprView::Unary(ob, rb) => {
                    assert(print_view(*rb) + close2 =~= body_of(b) + s2);
                    lemma_read_back(*ra, *rb, close1, close2);
                },
                _ => {},
            }
        },
        _ => {},
    }
}

proof fn lemma_read_back_literal(a: ExprView, b: ExprView, s1: Seq<char>, s2: Seq<char>)
    requires
        printable(a),
        printable(b),
        !is_compound(a),
        !is_compound(b),
        terminated(s1),
        terminated(s2),
        print_view(a) + s1 == print_view(b) + s2,
    ensures
        same_shape(a, b),
        print_view(a) == print_view(b),
        s1 == s2,
{
    reveal_strlit("\"");
    lemma_print_shape(a);
    lemma_print_shape(b);
    let t = print_view(a) + s1;
    assert(t[0] == print_view(a)[0]);
    assert(t[0] == print_view(b)[0]);
    match a {
        ExprView::Literal(LiteralView::Number(na)) => match b {
            ExprView::Literal(LiteralView::Number(nb)) => {
                lemma_split_at_stop(na, s1, nb, s2, |c: char| c == ' ' || c == ')');
            },
            _ => {},
        },
        ExprView::Literal(LiteralView::Str(xa)) => match b {
            ExprView::Literal(LiteralView::Str(xb)) => {
                assert(t.drop_first() =~= xa + ("\""@ + s1));
                assert(t.drop_first() =~= xb + ("\""@ + s2));
                lemma_split_at_stop(xa, "\""@ + s1, xb, "\""@ + s2, |c: char| c == '"');
                assert(s1 =~= ("\""@ + s1).drop_first());
                assert(s2 =~= ("\""@ + s2).drop_first());
            },
            _ => {},
        },
        _ => {
            if same_shape(a, b) {
                assert(print_view(a) == print_view(b));
                assert(s1 =~= t.subrange(print_view(a).len() as int, t.len() as int));
                assert(s2 =~= t.subrange(print_view(a).len() as int, t.len() as int));
            }
        },
    }
}

/// Printing is faithful: two printable trees print identically exactly
/// when they have the same shape.
pub proof fn lemma_print_faithful(a: ExprView, b: ExprView)
    requires
        printable(a),
        printable(b),
    ensures
        print_view(a) == print_view(b) <==> same_shape(a, b),
{
    if print_view(a) == print_view(b) {
        assert(print_view(a) + Seq::empty() =~= print_view(b) + Seq::empty());
        lemma_read_back(a, b, Seq::empty(), Seq::empty());
    }
    if same_shape(a, b) {
        lemma_same_shape_same_print(a, b);
    }
}

impl LiteralValue {
    /// The printed form of this value.
    pub fn text(&self) -> (r: String)
        ensures
            r@ == literal_text(self@),
    {
        match self {
            LiteralValue::Number(n) => n.clone(),
            LiteralValue::String(s) => {
                let mut r = String::from_str("\"");
                r.append(s.as_str());
                r.append("\"");
                r
            },
            LiteralValue::Boolean(b) => if *b {
                String::from_str("true")
            } else {
                String::from_str("false")
            },
            LiteralValue::Nil => String::from_str("nil"),
        }
    }
}

impl Expr {
    /// The tree in fully parenthesized prefix notation, e.g.
    /// `(* (- 123) (group 45.67))`.
    pub fn print(&self) -> (r: String)
        ensures
            r@ == print_view(self@),
        decreases self,
    {
        match self {
            Expr::Binary { left, operator, right } => {
                let l = left.print();
                let rt = right.print();
                let mut r = String::from_str("(");
                r.append(operator.lexeme.as_str());
                r.append(" ");
                r.append(l.as_str());
                r.append(" ");
                r.append(rt.as_str());
                r.append(")");
                r
            },
            Expr::Grouping(inner) => {
                let i = inner.print();
                let mut r = String::from_str("(group ");
                r.append(i.as_str());
                r.append(")");
                r
            },
            Expr::Literal(v) => v.text(),
            Expr::Unary { operator, right } => {
                let rt = right.print();
                let mut r = String::from_str("(");
                r.append(operator.lexeme.as_str());
                r.append(" ");
                r.append(rt.as_str());
                r.append(")");
                r
            },
        }
    }
}

} // verus!
