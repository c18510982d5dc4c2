//! Front end for a small slang-keyword scripting language: a UTF-8 lexer
//! producing byte-accurate token spans, and a Pratt parser producing a typed
//! syntax tree, both with diagnostics and panic-free error recovery.

pub mod ast;
pub mod chars;
pub mod lexer;
pub mod parser;
pub mod relex;
pub mod source;
pub mod span;
pub mod token;

pub use ast::{
    BinaryOp, Block, Expr, Identifier, Literal, ObjectProperty, Program, Stmt, UnaryOp,
};
pub use lexer::Lexer;
pub use parser::{parse_source, Parser};
pub use source::SourceFile;
pub use span::{Diagnostic, DiagView, Severity, Span};
pub use token::{KeywordKind, OperatorKind, PunctuationKind, Token, TokenKind};
