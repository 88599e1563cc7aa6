use vstd::prelude::*;

verus! {

/// The kinds of token of the Edust language.
#[derive(Debug, Clone, PartialEq)]
pub enum TokenType {
    Number(i64),
    Ident(String),
    Func,
    Let,
    If,
    Else,
    While,
    Return,
    Plus,
    Minus,
    Star,
    Slash,
    Percent,
    Lt,
    Le,
    Gt,
    Ge,
    Eq,
    Ne,
    And,
    Or,
    Bang,
    Assign,
    LParen,
    RParen,
    LBrace,
    RBrace,
    Comma,
    Semicolon,
    Eof,
}

/// A token kind as mathematics sees it: an identifier is its characters.
pub enum TokenView {
    Ident(Seq<char>),
    Other(TokenType),
}

impl View for TokenType {
    type V = TokenView;

    open spec fn view(&self) -> TokenView {
        match self {
            TokenType::Ident(s) => TokenView::Ident(s@),
            _ => TokenView::Other(*self),
        }
    }
}

/// The kind of a token as a number, payloads aside.
pub open spec fn kind_tag(t: TokenType) -> u8 {
    match t {
        TokenType::Number(_) => 0,
        TokenType::Ident(_) => 1,
        TokenType::Func => 2,
        TokenType::Let => 3,
        TokenType::If => 4,
        TokenType::Else => 5,
        TokenType::While => 6,
        TokenType::Return => 7,
        TokenType::Plus => 8,
        TokenType::Minus => 9,
        TokenType::Star => 10,
        TokenType::Slash => 11,
        TokenType::Percent => 12,
        TokenType::Lt => 13,
        TokenType::Le => 14,
        TokenType::Gt => 15,
        TokenType::Ge => 16,
        TokenType::Eq => 17,
        TokenType::Ne => 18,
        TokenType::And => 19,
        TokenType::Or => 20,
        TokenType::Bang => 21,
        TokenType::Assign => 22,
        TokenType::LParen => 23,
        TokenType::RParen => 24,
        TokenType::LBrace => 25,
        TokenType::RBrace => 26,
        TokenType::Comma => 27,
        TokenType::Semicolon => 28,
        TokenType::Eof => 29,
    }
}

/// True when two token kinds are the same kind, payloads aside.
pub open spec fn same_kind(a: TokenType, b: TokenType) -> bool {
    kind_tag(a) == kind_tag(b)
}

impl TokenType {
    pub fn tag(&self) -> (r: u8)
        ensures
            r == kind_tag(*self),
    {
        match self {
            TokenType::Number(_) => 0,
            TokenType::Ident(_) => 1,
            TokenType::Func => 2,
            TokenType::Let => 3,
            TokenType::If => 4,
            TokenType::Else => 5,
            TokenType::While => 6,
            TokenType::Return => 7,
            TokenType::Plus => 8,
            TokenType::Minus => 9,
            TokenType::Star => 10,
            TokenType::Slash => 11,
            TokenType::Percent => 12,
            TokenType::Lt => 13,
            TokenType::Le => 14,
            TokenType::Gt => 15,
            TokenType::Ge => 16,
            TokenType::Eq => 17,
            TokenType::Ne => 18,
            TokenType::And => 19,
            TokenType::Or => 20,
            TokenType::Bang => 21,
            TokenType::Assign => 22,
            TokenType::LParen => 23,
            TokenType::RParen => 24,
            TokenType::LBrace => 25,
            TokenType::RBrace => 26,
            TokenType::Comma => 27,
            TokenType::Semicolon => 28,
            TokenType::Eof => 29,
        }
    }
}

#[derive(Debug, Clone)]
pub struct Token {
    pub typ: TokenType,
    pub line: usize,
    pub column: usize,
}

impl View for Token {
    type V = (TokenView, int, int);

    open spec fn view(&self) -> (TokenView, int, int) {
        (self.typ@, self.line as int, self.column as int)
    }
}

impl Token {
    pub fn new(typ: TokenType, line: usize, column: usize) -> (r: Self)
        ensures
            r.typ == typ,
            r.line == line,
            r.column == column,
    {
        Token { typ, line, column }
    }
}

} // verus!
