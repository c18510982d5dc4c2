//! Byte ranges into the source text, and the diagnostics that the lexer and
//! parser report against them.

use vstd::prelude::*;
use vstd::utf8::is_char_boundary;

verus! {

/// Half-open byte range `[start, end)` into the source buffer.
///
/// Spans address raw bytes, never characters; a span produced by the lexer
/// always begins and ends on a UTF-8 character boundary.
#[derive(Debug, Clone, Copy, PartialEq, Eq, Structural)]
pub struct Span {
    pub start: usize,
    pub end: usize,
}

/// A span is well formed for a buffer of `n` bytes when it is ordered and
/// lies inside the buffer.
pub open spec fn span_in(span: Span, n: int) -> bool {
    span.start <= span.end <= n
}

/// A span addresses the buffer `b` when it is well formed and both of its
/// ends lie on UTF-8 character boundaries, so that slicing it out of the
/// text is meaningful.
pub open spec fn span_on_boundaries(span: Span, b: Seq<u8>) -> bool {
    &&& span_in(span, b.len() as int)
    &&& is_char_boundary(b, span.start as int)
    &&& is_char_boundary(b, span.end as int)
}

/// How serious a diagnostic is.
#[derive(Debug, Clone, Copy, PartialEq, Eq, Structural)]
pub enum Severity {
    Error,
    Warning,
}

/// A single message reported against a region of the source.
#[derive(Debug, Clone)]
pub struct Diagnostic {
    pub severity: Severity,
    pub message: String,
    pub span: Span,
}

/// The mathematical content of a [`Diagnostic`]: the same record with the
/// message as a sequence of characters.
pub struct DiagView {
    pub severity: Severity,
    pub message: Seq<char>,
    pub span: Span,
}

impl DeepView for Diagnostic {
    type V = DiagView;

    open spec fn deep_view(&self) -> DiagView {
        DiagView { severity: self.severity, message: self.message@, span: self.span }
    }
}

} // verus!
