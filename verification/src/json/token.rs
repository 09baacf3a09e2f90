//! JSON tokens.
use vstd::prelude::*;
use crate::span::Span;

verus! {

#[derive(Debug, Clone, Copy, PartialEq, Eq, Structural)]
pub enum TokenKind {
    LeftBrace,
    RightBrace,
    LeftBracket,
    RightBracket,
    Colon,
    Comma,
    String,
    Number,
    True,
    False,
    Null,
    Unknown,
}

/// A JSON token: its kind and the byte range it covers.
#[derive(Debug, Clone, Copy, PartialEq, Eq, Structural)]
pub struct Token {
    pub kind: TokenKind,
    pub span: Span,
}

/// The name a token kind is printed with.
pub open spec fn kind_name(kind: TokenKind) -> Seq<char> {
    match kind {
        TokenKind::LeftBrace => "LeftBrace"@,
        TokenKind::RightBrace => "RightBrace"@,
        TokenKind::LeftBracket => "LeftBracket"@,
        TokenKind::RightBracket => "RightBracket"@,
        TokenKind::Colon => "Colon"@,
        TokenKind::Comma => "Comma"@,
        TokenKind::String => "String"@,
        TokenKind::Number => "Number"@,
        TokenKind::True => "True"@,
        TokenKind::False => "False"@,
        TokenKind::Null => "Null"@,
        TokenKind::Unknown => "Unknown"@,
    }
}

impl TokenKind {
    /// The name this kind is printed with.
    pub fn name(self) -> (s: &'static str)
        ensures
            s@ == kind_name(self),
    {
        match self {
            TokenKind::LeftBrace => "LeftBrace",
            TokenKind::RightBrace => "RightBrace",
            TokenKind::LeftBracket => "LeftBracket",
            TokenKind::RightBracket => "RightBracket",
            TokenKind::Colon => "Colon",
            TokenKind::Comma => "Comma",
            TokenKind::String => "String",
            TokenKind::Number => "Number",
            TokenKind::True => "True",
            TokenKind::False => "False",
            TokenKind::Null => "Null",
            TokenKind::Unknown => "Unknown",
        }
    }
}

pub open spec fn token(kind: TokenKind, start: int, end: int) -> Token {
    Token { kind, span: Span { start: start as usize, end: end as usize } }
}

} // verus!
