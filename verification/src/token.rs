//! The closed taxonomy of tokens that the lexer produces.

use vstd::prelude::*;

use crate::span::Span;

verus! {

/// The slang keywords, one variant per word of the fixed vocabulary.
#[derive(Debug, Clone, Copy, PartialEq, Eq, Structural)]
pub enum KeywordKind {
    Gyy,
    Uchastkoviy,
    YasenHuy,
    Vilkoyvglaz,
    Ilivzhopuraz,
    Potreshchim,
    Go,
    Hare,
    Dvigay,
    Yopta,
    Otvechayu,
}

/// Operator tokens, single- and multi-character.
#[derive(Debug, Clone, Copy, PartialEq, Eq, Structural)]
pub enum OperatorKind {
    Plus,
    Minus,
    Multiply,
    Divide,
    Modulo,
    Assign,
    Equals,
    StrictEquals,
    NotEquals,
    StrictNotEquals,
    Less,
    Greater,
    LessOrEqual,
    GreaterOrEqual,
    And,
    Or,
    Not,
}

/// Punctuation tokens.
#[derive(Debug, Clone, Copy, PartialEq, Eq, Structural)]
pub enum PunctuationKind {
    LParen,
    RParen,
    LBrace,
    RBrace,
    LBracket,
    RBracket,
    Semicolon,
    Comma,
    Colon,
    Dot,
}

/// What a token is. The lexeme itself is not stored: it is recovered by
/// slicing the token's span out of the source buffer.
#[derive(Debug, Clone, Copy, PartialEq, Eq, Structural)]
pub enum TokenKind {
    Identifier,
    Number,
    StringLiteral,
    Keyword(KeywordKind),
    Operator(OperatorKind),
    Punctuation(PunctuationKind),
    Eof,
    Unknown,
}

/// A token: its kind and the byte range of its lexeme.
#[derive(Debug, Clone, Copy, PartialEq, Eq, Structural)]
pub struct Token {
    pub kind: TokenKind,
    pub span: Span,
}

} // verus!
