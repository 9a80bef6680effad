use vstd::prelude::*;

verus! {

/// The lexical class of a token.
#[derive(Clone, Copy, Debug, PartialEq, Eq, Structural)]
pub enum TokenKind {
    // Single-character punctuation.
    LeftParen,
    RightParen,
    LeftBrace,
    RightBrace,
    Comma,
    Dot,
    Minus,
    Plus,
    SemiColon,
    Slash,
    Star,
    // One- or two-character operators.
    Bang,
    BangEqual,
    Equal,
    EqualEqual,
    Greater,
    GreaterEqual,
    Less,
    LessEqual,
    // Literals.
    Identifier,
    String,
    Number,
    // Reserved words.
    And,
    Class,
    Else,
    False,
    Fun,
    For,
    If,
    Nil,
    Or,
    Print,
    Return,
    Super,
    This,
    True,
    Var,
    While,
    // End of input.
    Eof,
}

/// A classified lexical unit: its kind, the exact source text it was read
/// from, the decoded literal (string contents or number text) and the line
/// (counted from 0) on which it began.
#[derive(Debug)]
pub struct Token {
    pub token_type: TokenKind,
    pub lexeme: String,
    pub literal: Option<String>,
    pub line: usize,
}

/// The mathematical content of a token.
pub struct TokenView {
    pub kind: TokenKind,
    pub lexeme: Seq<char>,
    pub literal: Option<Seq<char>>,
    pub line: nat,
}

pub open spec fn opt_string_view(o: Option<String>) -> Option<Seq<char>> {
    match o {
        Some(s) => Some(s@),
        None => None,
    }
}

impl View for Token {
    type V = TokenView;

    open spec fn view(&self) -> TokenView {
        TokenView {
            kind: self.token_type,
            lexeme: self.lexeme@,
            literal: opt_string_view(self.literal),
            line: self.line as nat,
        }
    }
}

/// The views of a sequence of tokens.
pub open spec fn tokens_view(ts: Seq<Token>) -> Seq<TokenView> {
    ts.map_values(|t: Token| t@)
}

impl Token {
    /// A copy of this token with the same contents.
    pub fn duplicate(&self) -> (r: Token)
        ensures
            r@ == self@,
    {
        let literal = match &self.literal {
            Some(s) => Some(s.clone()),
            None => None,
        };
        Token { token_type: self.token_type, lexeme: self.lexeme.clone(), literal, line: self.line }
    }

    /// The text form used for debugging: kind, lexeme and literal.
    pub fn describe(&self) -> (r: String)
        ensures
            r@ == describe_view(self@),
    {
        let mut r = kind_name(self.token_type);
        r.append(" ");
        r.append(self.lexeme.as_str());
        match &self.literal {
            Some(s) => {
                r.append(" ");
                r.append(s.as_str());
            },
            None => {},
        }
        r
    }
}

pub open spec fn describe_view(t: TokenView) -> Seq<char> {
    let base = kind_text(t.kind) + " "@ + t.lexeme;
    match t.literal {
        Some(l) => base + " "@ + l,
        None => base,
    }
}

/// The name of a token kind, as shown in debugging output.
pub open spec fn kind_text(k: TokenKind) -> Seq<char> {
    match k {
        TokenKind::LeftParen => "LeftParen"@,
        TokenKind::RightParen => "RightParen"@,
        TokenKind::LeftBrace => "LeftBrace"@,
        TokenKind::RightBrace => "RightBrace"@,
        TokenKind::Comma => "Comma"@,
        TokenKind::Dot => "Dot"@,
        TokenKind::Minus => "Minus"@,
        TokenKind::Plus => "Plus"@,
        TokenKind::SemiColon => "SemiColon"@,
        TokenKind::Slash => "Slash"@,
        TokenKind::Star => "Star"@,
        TokenKind::Bang => "Bang"@,
        TokenKind::BangEqual => "BangEqual"@,
        TokenKind::Equal => "Equal"@,
        TokenKind::EqualEqual => "EqualEqual"@,
        TokenKind::Greater => "Greater"@,
        TokenKind::GreaterEqual => "GreaterEqual"@,
        TokenKind::Less => "Less"@,
        TokenKind::LessEqual => "LessEqual"@,
        TokenKind::Identifier => "Identifier"@,
        TokenKind::String => "String"@,
        TokenKind::Number => "Number"@,
        TokenKind::And => "And"@,
        TokenKind::Class => "Class"@,
        TokenKind::Else => "Else"@,
        TokenKind::False => "False"@,
        TokenKind::Fun => "Fun"@,
        TokenKind::For => "For"@,
        TokenKind::If => "If"@,
        TokenKind::Nil => "Nil"@,
        TokenKind::Or => "Or"@,
        TokenKind::Print => "Print"@,
        TokenKind::Return => "Return"@,
        TokenKind::Super => "Super"@,
        TokenKind::This => "This"@,
        TokenKind::True => "True"@,
        TokenKind::Var => "Var"@,
        TokenKind::While => "While"@,
        TokenKind::Eof => "Eof"@,
    }
}

/// The name of a token kind as a string.
pub fn kind_name(k: TokenKind) -> (r: String)
    ensures
        r@ == kind_text(k),
{
    let s: &str = match k {
        TokenKind::LeftParen => "LeftParen",
        TokenKind::RightParen => "RightParen",
        TokenKind::LeftBrace => "LeftBrace",
        TokenKind::RightBrace => "RightBrace",
        TokenKind::Comma => "Comma",
        TokenKind::Dot => "Dot",
        TokenKind::Minus => "Minus",
        TokenKind::Plus => "Plus",
        TokenKind::SemiColon => "SemiColon",
        TokenKind::Slash => "Slash",
        TokenKind::Star => "Star",
        TokenKind::Bang => "Bang",
        TokenKind::BangEqual => "BangEqual",
        TokenKind::Equal => "Equal",
        TokenKind::EqualEqual => "EqualEqual",
        TokenKind::Greater => "Greater",
        TokenKind::GreaterEqual => "GreaterEqual",
        TokenKind::Less => "Less",
        TokenKind::LessEqual => "LessEqual",
        TokenKind::Identifier => "Identifier",
        TokenKind::String => "String",
        TokenKind::Number => "Number",
        TokenKind::And => "And",
        TokenKind::Class => "Class",
        TokenKind::Else => "Else",
        TokenKind::False => "False",
        TokenKind::Fun => "Fun",
        TokenKind::For => "For",
        TokenKind::If => "If",
        TokenKind::Nil => "Nil",
        TokenKind::Or => "Or",
        TokenKind::Print => "Print",
        TokenKind::Return => "Return",
        TokenKind::Super => "Super",
        TokenKind::This => "This",
        TokenKind::True => "True",
        TokenKind::Var => "Var",
        TokenKind::While => "While",
        TokenKind::Eof => "Eof",
    };
    String::from_str(s)
}

} // verus!
