use vstd::prelude::*;
use crate::operator::Operator;
use crate::span::Span;

verus! {

/// What a token is.
///
/// Identifiers carry the key under which their name is interned; string
/// literals carry their text, without the quotes. Float literals carry no
/// value: their text is the source text that the token's span covers, with
/// the `_` separators removed.
#[derive(Clone, Copy, Debug, PartialEq, Eq)]
pub enum TokenKind {
    IntLit(i64),
    FloatLit,
    StringLit(&'static str),
    Identifier(usize),
    Operator(Operator),
    LParen,
    RParen,
    LCurly,
    RCurly,
    Semicolon,
    Colon,
    CColon,
    Walrus,
    Comma,
    Assign,
    KwProc,
    KwFunc,
    KwCallable,
    KwNil,
}

/// A token and the bytes of the source that it was read from.
#[derive(Clone, Copy, Debug, PartialEq, Eq)]
pub struct Token {
    pub kind: TokenKind,
    pub span: Span,
}

impl TokenKind {
    /// Whether this is the token kind `other`, which is not a string literal.
    pub(crate) fn is_kind(&self, other: TokenKind) -> (b: bool)
        requires
            !(other is StringLit),
        ensures
            b == (*self == other),
    {
        match (*self, other) {
            (TokenKind::IntLit(a), TokenKind::IntLit(b)) => a == b,
            (TokenKind::FloatLit, TokenKind::FloatLit) => true,
            (TokenKind::Identifier(a), TokenKind::Identifier(b)) => a == b,
            (TokenKind::Operator(a), TokenKind::Operator(b)) => a == b,
            (TokenKind::LParen, TokenKind::LParen) => true,
            (TokenKind::RParen, TokenKind::RParen) => true,
            (TokenKind::LCurly, TokenKind::LCurly) => true,
            (TokenKind::RCurly, TokenKind::RCurly) => true,
            (TokenKind::Semicolon, TokenKind::Semicolon) => true,
            (TokenKind::Colon, TokenKind::Colon) => true,
            (TokenKind::CColon, TokenKind::CColon) => true,
            (TokenKind::Walrus, TokenKind::Walrus) => true,
            (TokenKind::Comma, TokenKind::Comma) => true,
            (TokenKind::Assign, TokenKind::Assign) => true,
            (TokenKind::KwProc, TokenKind::KwProc) => true,
            (TokenKind::KwFunc, TokenKind::KwFunc) => true,
            (TokenKind::KwCallable, TokenKind::KwCallable) => true,
            (TokenKind::KwNil, TokenKind::KwNil) => true,
            _ => false,
        }
    }
}

} // verus!
