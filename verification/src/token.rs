//! The token vocabulary shared by the lexer and the reader.

use vstd::prelude::*;

verus! {

/// An exact decimal: `digits / 10^scale`, negated when `negative`.
///
/// A literal such as `-3.25` is held as `negative`, `digits == 325` and
/// `scale == 2`, so that no precision is lost before the value is used.
#[derive(Clone, Copy, Debug, PartialEq, Eq, Structural)]
pub struct Decimal {
    pub negative: bool,
    pub digits: u64,
    pub scale: u32,
}

/// What a token is, with the decoded value of a literal.
#[derive(Clone, Debug, PartialEq)]
pub enum TokenKind {
    LParen,
    RParen,
    Plus,
    Minus,
    Slash,
    Star,
    Quote,
    Comma,
    QuasiQuote,
    CommaAt,
    HashLParen,
    Dot,
    True,
    False,
    Number(i64),
    Float(Decimal),
    Identifier(String),
    String(String),
    Char(char),
    Define,
    Lambda,
    Arrow,
    SetBang,
    Begin,
    Cond,
    And,
    Or,
    LetRec,
    Else,
    If,
    Symbol(String),
    Eof,
    Ellipsis,
}

/// A token and the place where it starts: `line` and `column` count from 1,
/// and `column` counts the characters since the last newline.
#[derive(Clone, Debug, PartialEq)]
pub struct Token {
    pub kind: TokenKind,
    pub line: usize,
    pub column: usize,
}

/// The mathematical model of a `TokenKind`: text is a sequence of
/// characters.
pub enum Kind {
    LParen,
    RParen,
    Plus,
    Minus,
    Slash,
    Star,
    Quote,
    Comma,
    QuasiQuote,
    CommaAt,
    HashLParen,
    Dot,
    True,
    False,
    Number(i64),
    Float(Decimal),
    Identifier(Seq<char>),
    String(Seq<char>),
    Char(char),
    Define,
    Lambda,
    Arrow,
    SetBang,
    Begin,
    Cond,
    And,
    Or,
    LetRec,
    Else,
    If,
    Symbol(Seq<char>),
    Eof,
    Ellipsis,
}

/// The mathematical model of a `Token`.
pub struct TokenView {
    pub kind: Kind,
    pub line: usize,
    pub column: usize,
}

impl View for TokenKind {
    type V = Kind;

    open spec fn view(&self) -> Kind {
        match *self {
            TokenKind::LParen => Kind::LParen,
            TokenKind::RParen => Kind::RParen,
            TokenKind::Plus => Kind::Plus,
            TokenKind::Minus => Kind::Minus,
            TokenKind::Slash => Kind::Slash,
            TokenKind::Star => Kind::Star,
            TokenKind::Quote => Kind::Quote,
            TokenKind::Comma => Kind::Comma,
            TokenKind::QuasiQuote => Kind::QuasiQuote,
            TokenKind::CommaAt => Kind::CommaAt,
            TokenKind::HashLParen => Kind::HashLParen,
            TokenKind::Dot => Kind::Dot,
            TokenKind::True => Kind::True,
            TokenKind::False => Kind::False,
            TokenKind::Number(n) => Kind::Number(n),
            TokenKind::Float(d) => Kind::Float(d),
            TokenKind::Identifier(s) => Kind::Identifier(s@),
            TokenKind::String(s) => Kind::String(s@),
            TokenKind::Char(c) => Kind::Char(c),
            TokenKind::Define => Kind::Define,
            TokenKind::Lambda => Kind::Lambda,
            TokenKind::Arrow => Kind::Arrow,
            TokenKind::SetBang => Kind::SetBang,
            TokenKind::Begin => Kind::Begin,
            TokenKind::Cond => Kind::Cond,
            TokenKind::And => Kind::And,
            TokenKind::Or => Kind::Or,
            TokenKind::LetRec => Kind::LetRec,
            TokenKind::Else => Kind::Else,
            TokenKind::If => Kind::If,
            TokenKind::Symbol(s) => Kind::Symbol(s@),
            TokenKind::Eof => Kind::Eof,
            TokenKind::Ellipsis => Kind::Ellipsis,
        }
    }
}

impl View for Token {
    type V = TokenView;

    open spec fn view(&self) -> TokenView {
        TokenView { kind: self.kind@, line: self.line, column: self.column }
    }
}

/// The models of a sequence of tokens, one by one.
pub open spec fn tokens_view(tokens: Seq<Token>) -> Seq<TokenView> {
    Seq::new(tokens.len(), |i: int| tokens[i]@)
}

/// The kinds of a sequence of tokens, without their places.
pub open spec fn kinds_of(tokens: Seq<TokenView>) -> Seq<Kind> {
    Seq::new(tokens.len(), |i: int| tokens[i].kind)
}

} // verus!
