use vstd::prelude::*;

verus! {

/// One lexical unit of the scripting language.
#[derive(Debug, PartialEq, Eq)]
pub enum Token {
    // Comparison operators
    Equal,
    Greater,
    GreaterEqual,
    Lesser,
    LesserEqual,
    NotEqual,
    // Assignment operators
    Assign,
    AddAssign,
    DivAssign,
    MultAssign,
    SubAssign,
    // Arithmetic operators
    Minus,
    Percent,
    Plus,
    Slash,
    Star,
    // Delimiters
    CloseBrace,
    CloseIndex,
    CloseParen,
    OpenBrace,
    OpenBracket,
    OpenParen,
    // Keywords
    If,
    ElseIf,
    Else,
    For,
    While,
    // Everything else
    Char(char),
    Comment,
    Eof,
    Ident(String),
    Integer(i32),
    String(String),
}

/// The mathematical value of a [`Token`]: text payloads become character
/// sequences and the integer payload an unbounded integer.
pub enum TokenView {
    Equal,
    Greater,
    GreaterEqual,
    Lesser,
    LesserEqual,
    NotEqual,
    Assign,
    AddAssign,
    DivAssign,
    MultAssign,
    SubAssign,
    Minus,
    Percent,
    Plus,
    Slash,
    Star,
    CloseBrace,
    CloseIndex,
    CloseParen,
    OpenBrace,
    OpenBracket,
    OpenParen,
    If,
    ElseIf,
    Else,
    For,
    While,
    Char(char),
    Comment,
    Eof,
    Ident(Seq<char>),
    Integer(int),
    String(Seq<char>),
}

impl View for Token {
    type V = TokenView;

    open spec fn view(&self) -> TokenView {
        match self {
            Token::Equal => TokenView::Equal,
            Token::Greater => TokenView::Greater,
            Token::GreaterEqual => TokenView::GreaterEqual,
            Token::Lesser => TokenView::Lesser,
            Token::LesserEqual => TokenView::LesserEqual,
            Token::NotEqual => TokenView::NotEqual,
            Token::Assign => TokenView::Assign,
            Token::AddAssign => TokenView::AddAssign,
            Token::DivAssign => TokenView::DivAssign,
            Token::MultAssign => TokenView::MultAssign,
            Token::SubAssign => TokenView::SubAssign,
            Token::Minus => TokenView::Minus,
            Token::Percent => TokenView::Percent,
            Token::Plus => TokenView::Plus,
            Token::Slash => TokenView::Slash,
            Token::Star => TokenView::Star,
            Token::CloseBrace => TokenView::CloseBrace,
            Token::CloseIndex => TokenView::CloseIndex,
            Token::CloseParen => TokenView::CloseParen,
            Token::OpenBrace => TokenView::OpenBrace,
            Token::OpenBracket => TokenView::OpenBracket,
            Token::OpenParen => TokenView::OpenParen,
            Token::If => TokenView::If,
            Token::ElseIf => TokenView::ElseIf,
            Token::Else => TokenView::Else,
            Token::For => TokenView::For,
            Token::While => TokenView::While,
            Token::Char(c) => TokenView::Char(*c),
            Token::Comment => TokenView::Comment,
            Token::Eof => TokenView::Eof,
            Token::Ident(s) => TokenView::Ident(s@),
            Token::Integer(n) => TokenView::Integer(*n as int),
            Token::String(s) => TokenView::String(s@),
        }
    }
}

/// Why a run of the tokenizer stopped without a token list.
#[derive(Debug, PartialEq, Eq)]
pub enum LexError {
    /// The input ends inside a lexeme; the payload is the number of bytes
    /// still missing.
    Incomplete(usize),
    /// The input holds a lexeme that cannot be decoded.
    Malformed(String),
}

/// The mathematical value of a [`LexError`]: the description of a
/// malformed lexeme is not part of it.
pub enum LexErrorView {
    Incomplete(nat),
    Malformed,
}

impl View for LexError {
    type V = LexErrorView;

    open spec fn view(&self) -> LexErrorView {
        match self {
            LexError::Incomplete(n) => LexErrorView::Incomplete(*n as nat),
            LexError::Malformed(_) => LexErrorView::Malformed,
        }
    }
}

/// The values of a sequence of tokens.
pub open spec fn tokens_view(ts: Seq<Token>) -> Seq<TokenView> {
    ts.map_values(|t: Token| t@)
}

} // verus!
