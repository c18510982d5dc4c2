//! The lexer: one pass over the UTF-8 source buffer that yields the token
//! stream and the lexical diagnostics.
//!
//! The first half of this file is the byte-level model of the scan, written
//! as spec functions over the byte sequence of the source; the second half is
//! the executable lexer, whose contract says that it produces exactly what
//! the model describes.

use vstd::prelude::*;
use vstd::string::StringExecFns;
use vstd::utf8::*;

use crate::chars::{char_at, is_alnum, is_alpha, is_space, read_char, scalar_at, width_at};
use crate::span::{span_on_boundaries, Diagnostic, DiagView, Severity, Span};
use crate::token::{KeywordKind, OperatorKind, PunctuationKind, Token, TokenKind};

verus! {

// --- Diagnostic messages ---------------------------------------------------
/// Message for a string literal that is still open at the end of the source.
pub open spec fn msg_unterminated_string() -> Seq<char> {
    "Незакрытая строка"@
}

/// Message for a lone `&`.
pub open spec fn msg_single_ampersand() -> Seq<char> {
    "одиночный '&' не поддерживается (используйте '&&')"@
}

/// Message for a lone `|`.
pub open spec fn msg_single_pipe() -> Seq<char> {
    "одиночный '|' не поддерживается (используйте '||')"@
}

/// Message for an escape sequence other than the five canonical ones.
pub open spec fn msg_unknown_escape() -> Seq<char> {
    "Неизвестная экранированная последовательность"@
}

/// Message for a character no token can start with: the fixed text with the
/// character between the quotes.
pub open spec fn msg_unknown_char(c: char) -> Seq<char> {
    "Неизвестный символ: '"@ + seq![c] + "'"@
}

// --- The scan model --------------------------------------------------------
/// First position at or after `q` that holds a line feed, or the end of the
/// buffer. Line comments run up to here.
pub open spec fn line_end(b: Seq<u8>, q: int) -> int
    decreases b.len() - q,
{
    if 0 <= q < b.len() && b[q] != 0x0a {
        line_end(b, q + 1)
    } else {
        q
    }
}

/// Position of the first token character at or after `pos`: skips white
/// space and `//` line comments. The two clamps at the recursive comment
/// step only keep the recursion visibly decreasing; they never move the
/// position on actual calls.
pub open spec fn scan_start(b: Seq<u8>, pos: int) -> int
    decreases b.len() - pos,
{
    if !(0 <= pos < b.len()) {
        pos
    } else if is_space(char_at(b, pos)) {
        scan_start(b, pos + width_at(b, pos))
    } else if b[pos] == 0x2f && pos + 1 < b.len() && b[pos + 1] == 0x2f {
        let e0 = line_end(b, pos + 2);
        let e1 = if e0 < pos + 2 {
            pos + 2
        } else {
            e0
        };
        let e = if e1 > b.len() {
            b.len() as int
        } else {
            e1
        };
        scan_start(b, e)
    } else {
        pos
    }
}

/// End of the identifier that starts at `q`: the maximal run of alphanumeric
/// characters and underscores.
pub open spec fn ident_end(b: Seq<u8>, q: int) -> int
    decreases b.len() - q,
{
    if 0 <= q < b.len() && (is_alnum(char_at(b, q)) || b[q] == 0x5f) {
        ident_end(b, q + width_at(b, q))
    } else {
        q
    }
}

/// End of the digit run that starts at `q`.
pub open spec fn digits_end(b: Seq<u8>, q: int) -> int
    decreases b.len() - q,
{
    if 0 <= q < b.len() && 0x30 <= b[q] <= 0x39 {
        digits_end(b, q + 1)
    } else {
        q
    }
}

/// End of the number that starts at `q`: a digit run, then a fractional part
/// only when a dot is followed by another digit.
pub open spec fn number_end(b: Seq<u8>, q: int) -> int {
    let d = digits_end(b, q);
    if d + 1 < b.len() && b[d] == 0x2e && 0x30 <= b[d + 1] <= 0x39 {
        digits_end(b, d + 2)
    } else {
        d
    }
}

/// The five escapes the language knows: `\"`, `\\`, `\n`, `\t`, `\r`.
pub open spec fn known_escape(v: u32) -> bool {
    v == 0x22 || v == 0x5c || v == 0x6e || v == 0x74 || v == 0x72
}

/// Result of scanning a string literal body.
pub struct StrScan {
    /// First position after the literal (after the closing quote, or the end
    /// of the buffer when the literal never closes).
    pub end: int,
    /// Whether the closing quote was found.
    pub terminated: bool,
    /// Diagnostics for unknown escape sequences, in source order.
    pub diags: Seq<DiagView>,
}

/// Scans the body of a string literal from `q` up to the closing `quote`.
/// A backslash always consumes the character after it.
pub open spec fn scan_string_body(b: Seq<u8>, q: int, quote: u8) -> StrScan
    decreases b.len() - q,
{
    if !(0 <= q < b.len()) {
        StrScan { end: q, terminated: false, diags: seq![] }
    } else if b[q] == quote {
        StrScan { end: q + 1, terminated: true, diags: seq![] }
    } else if b[q] == 0x5c {
        if q + 1 < b.len() {
            let we = width_at(b, q + 1);
            let rest = scan_string_body(b, q + 1 + we, quote);
            if known_escape(scalar_at(b, q + 1)) {
                rest
            } else {
                let d = DiagView {
                    severity: Severity::Warning,
                    message: msg_unknown_escape(),
                    span: Span { start: q as usize, end: (q + 1 + we) as usize },
                };
                StrScan { end: rest.end, terminated: rest.terminated, diags: seq![d] + rest.diags }
            }
        } else {
            StrScan { end: q + 1, terminated: false, diags: seq![] }
        }
    } else {
        scan_string_body(b, q + width_at(b, q), quote)
    }
}

/// The keyword table: the decoded lexeme against the fixed vocabulary.
pub open spec fn ident_kind(chars: Seq<char>) -> TokenKind {
    if chars == "гыы"@ {
        TokenKind::Keyword(KeywordKind::Gyy)
    } else if chars == "участковый"@ {
        TokenKind::Keyword(KeywordKind::Uchastkoviy)
    } else if chars == "ясенХуй"@ {
        TokenKind::Keyword(KeywordKind::YasenHuy)
    } else if chars == "вилкойвглаз"@ {
        TokenKind::Keyword(KeywordKind::Vilkoyvglaz)
    } else if chars == "иливжопураз"@ {
        TokenKind::Keyword(KeywordKind::Ilivzhopuraz)
    } else if chars == "потрещим"@ {
        TokenKind::Keyword(KeywordKind::Potreshchim)
    } else if chars == "го"@ {
        TokenKind::Keyword(KeywordKind::Go)
    } else if chars == "харэ"@ {
        TokenKind::Keyword(KeywordKind::Hare)
    } else if chars == "двигай"@ {
        TokenKind::Keyword(KeywordKind::Dvigay)
    } else if chars == "йопта"@ {
        TokenKind::Keyword(KeywordKind::Yopta)
    } else if chars == "отвечаю"@ {
        TokenKind::Keyword(KeywordKind::Otvechayu)
    } else {
        TokenKind::Identifier
    }
}

/// One step of the lexer model: the token found at or after `pos`, the
/// diagnostics it raises, and the position the scan resumes at.
pub struct LexStep {
    pub token: Token,
    pub diags: Seq<DiagView>,
    pub next: int,
}

/// A step that yields a token of `kind` spanning `[start, end)` with no
/// diagnostics.
pub open spec fn plain_step(kind: TokenKind, start: int, end: int) -> LexStep {
    LexStep {
        token: Token { kind, span: Span { start: start as usize, end: end as usize } },
        diags: seq![],
        next: end,
    }
}

/// A step that yields a token of `kind` spanning `[start, end)` and one
/// error diagnostic with the given message over the same span.
pub open spec fn error_step(kind: TokenKind, start: int, end: int, msg: Seq<char>) -> LexStep {
    LexStep {
        token: Token { kind, span: Span { start: start as usize, end: end as usize } },
        diags: seq![
            DiagView {
                severity: Severity::Error,
                message: msg,
                span: Span { start: start as usize, end: end as usize },
            },
        ],
        next: end,
    }
}

/// The operator or punctuation token that starts at `p`, by maximal munch.
/// `p` holds a character that no other token class claimed.
pub open spec fn op_step(b: Seq<u8>, p: int) -> LexStep {
    let c0 = b[p];
    let two = p + 1 < b.len();
    if c0 == 0x2b {
        plain_step(TokenKind::Operator(OperatorKind::Plus), p, p + 1)
    } else if c0 == 0x2d {
        plain_step(TokenKind::Operator(OperatorKind::Minus), p, p + 1)
    } else if c0 == 0x2a {
        plain_step(TokenKind::Operator(OperatorKind::Multiply), p, p + 1)
    } else if c0 == 0x25 {
        plain_step(TokenKind::Operator(OperatorKind::Modulo), p, p + 1)
    } else if c0 == 0x2f {
        // a second slash was already taken as a comment by scan_start
        plain_step(TokenKind::Operator(OperatorKind::Divide), p, p + 1)
    } else if c0 == 0x3d {
        if two && b[p + 1] == 0x3d {
            if p + 2 < b.len() && b[p + 2] == 0x3d {
                plain_step(TokenKind::Operator(OperatorKind::StrictEquals), p, p + 3)
            } else {
                plain_step(TokenKind::Operator(OperatorKind::Equals), p, p + 2)
            }
        } else {
            plain_step(TokenKind::Operator(OperatorKind::Assign), p, p + 1)
        }
    } else if c0 == 0x21 {
        if two && b[p + 1] == 0x3d {
            if p + 2 < b.len() && b[p + 2] == 0x3d {
                plain_step(TokenKind::Operator(OperatorKind::StrictNotEquals), p, p + 3)
            } else {
                plain_step(TokenKind::Operator(OperatorKind::NotEquals), p, p + 2)
            }
        } else {
            plain_step(TokenKind::Operator(OperatorKind::Not), p, p + 1)
        }
    } else if c0 == 0x3c {
        if two && b[p + 1] == 0x3d {
            plain_step(TokenKind::Operator(OperatorKind::LessOrEqual), p, p + 2)
        } else {
            plain_step(TokenKind::Operator(OperatorKind::Less), p, p + 1)
        }
    } else if c0 == 0x3e {
        if two && b[p + 1] == 0x3d {
            plain_step(TokenKind::Operator(OperatorKind::GreaterOrEqual), p, p + 2)
        } else {
            plain_step(TokenKind::Operator(OperatorKind::Greater), p, p + 1)
        }
    } else if c0 == 0x26 {
        if two && b[p + 1] == 0x26 {
            plain_step(TokenKind::Operator(OperatorKind::And), p, p + 2)
        } else {
            error_step(TokenKind::Unknown, p, p + 1, msg_single_ampersand())
        }
    } else if c0 == 0x7c {
        if two && b[p + 1] == 0x7c {
            plain_step(TokenKind::Operator(OperatorKind::Or), p, p + 2)
        } else {
            error_step(TokenKind::Unknown, p, p + 1, msg_single_pipe())
        }
    } else if c0 == 0x28 {
        plain_step(TokenKind::Punctuation(PunctuationKind::LParen), p, p + 1)
    } else if c0 == 0x29 {
        plain_step(TokenKind::Punctuation(PunctuationKind::RParen), p, p + 1)
    } else if c0 == 0x7b {
        plain_step(TokenKind::Punctuation(PunctuationKind::LBrace), p, p + 1)
    } else if c0 == 0x7d {
        plain_step(TokenKind::Punctuation(PunctuationKind::RBrace), p, p + 1)
    } else if c0 == 0x5b {
        plain_step(TokenKind::Punctuation(PunctuationKind::LBracket), p, p + 1)
    } else if c0 == 0x5d {
        plain_step(TokenKind::Punctuation(PunctuationKind::RBracket), p, p + 1)
    } else if c0 == 0x3b {
        plain_step(TokenKind::Punctuation(PunctuationKind::Semicolon), p, p + 1)
    } else if c0 == 0x2c {
        plain_step(TokenKind::Punctuation(PunctuationKind::Comma), p, p + 1)
    } else if c0 == 0x3a {
        plain_step(TokenKind::Punctuation(PunctuationKind::Colon), p, p + 1)
    } else if c0 == 0x2e {
        plain_step(TokenKind::Punctuation(PunctuationKind::Dot), p, p + 1)
    } else {
        error_step(TokenKind::Unknown, p, p + width_at(b, p), msg_unknown_char(char_at(b, p)))
    }
}

/// The full lexer step at `pos`: skip white space and comments, then scan
/// one token.
pub open spec fn next_lex(b: Seq<u8>, pos: int) -> LexStep {
    let p = scan_start(b, pos);
    if !(0 <= p < b.len()) {
        LexStep {
            token: Token {
                kind: TokenKind::Eof,
                span: Span { start: p as usize, end: p as usize },
            },
            diags: seq![],
            next: p,
        }
    } else {
        let c = char_at(b, p);
        if is_alpha(c) || b[p] == 0x5f {
            let e = ident_end(b, p);
            let kind = ident_kind(decode_utf8(b.subrange(p, e)));
            plain_step(kind, p, e)
        } else if 0x30 <= b[p] <= 0x39 {
            plain_step(TokenKind::Number, p, number_end(b, p))
        } else if b[p] == 0x22 || b[p] == 0x27 {
            let s = scan_string_body(b, p + 1, b[p]);
            let tail: Seq<DiagView> = if s.terminated {
                seq![]
            } else {
                seq![
                    DiagView {
                        severity: Severity::Error,
                        message: msg_unterminated_string(),
                        span: Span { start: p as usize, end: s.end as usize },
                    },
                ]
            };
            LexStep {
                token: Token {
                    kind: TokenKind::StringLiteral,
                    span: Span { start: p as usize, end: s.end as usize },
                },
                diags: s.diags + tail,
                next: s.end,
            }
        } else {
            op_step(b, p)
        }
    }
}

/// Everything the lexer produces from `pos` on.
pub struct LexOut {
    pub tokens: Seq<Token>,
    pub diags: Seq<DiagView>,
}

/// The token stream and diagnostics of the whole scan from `pos`: steps of
/// [`next_lex`] up to and including the final `Eof` token. The clamp on the
/// recursive position only keeps the recursion visibly decreasing; a step
/// that yields anything but `Eof` always advances.
pub open spec fn lex_from(b: Seq<u8>, pos: int) -> LexOut
    decreases b.len() - pos,
{
    let step = next_lex(b, pos);
    if step.token.kind == TokenKind::Eof || pos >= b.len() {
        LexOut { tokens: seq![step.token], diags: step.diags }
    } else {
        let np0 = if step.next <= pos {
            pos + 1
        } else {
            step.next
        };
        let np = if np0 > b.len() {
            b.len() as int
        } else {
            np0
        };
        let rest = lex_from(b, np);
        LexOut { tokens: seq![step.token] + rest.tokens, diags: step.diags + rest.diags }
    }
}

/// The model of the whole lexer on buffer `b`.
pub open spec fn lex(b: Seq<u8>) -> LexOut {
    lex_from(b, 0)
}

// --- Bounds and progress of the model --------------------------------------
/// `line_end` stays inside the buffer and stops only on a line feed or at
/// the end.
pub proof fn lemma_line_end(b: Seq<u8>, q: int)
    requires
        0 <= q <= b.len(),
    ensures
        q <= line_end(b, q) <= b.len(),
        line_end(b, q) < b.len() ==> b[line_end(b, q)] == 0x0a,
    decreases b.len() - q,
{
    if 0 <= q < b.len() && b[q] != 0x0a {
        lemma_line_end(b, q + 1);
    }
}

/// `scan_start` stays inside the buffer and lands on a character boundary.
pub proof fn lemma_scan_start(b: Seq<u8>, pos: int)
    requires
        valid_utf8(b),
        0 <= pos <= b.len(),
        is_char_boundary(b, pos),
    ensures
        pos <= scan_start(b, pos) <= b.len(),
        is_char_boundary(b, scan_start(b, pos)),
    decreases b.len() - pos,
{
    if !(0 <= pos < b.len()) {
    } else if is_space(char_at(b, pos)) {
        crate::chars::lemma_boundary_step(b, pos);
        lemma_scan_start(b, pos + width_at(b, pos));
    } else if b[pos] == 0x2f && pos + 1 < b.len() && b[pos + 1] == 0x2f {
        lemma_line_end(b, pos + 2);
        let e = line_end(b, pos + 2);
        assert(is_char_boundary(b, e)) by {
            if e < b.len() {
                is_char_boundary_iff_not_is_continuation_byte(b, e);
            } else {
                is_char_boundary_start_end_of_seq(b);
            }
        }
        lemma_scan_start(b, e);
    }
}

/// `ident_end` stays inside the buffer and lands on a character boundary.
pub proof fn lemma_ident_end(b: Seq<u8>, q: int)
    requires
        valid_utf8(b),
        0 <= q <= b.len(),
        is_char_boundary(b, q),
    ensures
        q <= ident_end(b, q) <= b.len(),
        is_char_boundary(b, ident_end(b, q)),
    decreases b.len() - q,
{
    if 0 <= q < b.len() && (is_alnum(char_at(b, q)) || b[q] == 0x5f) {
        crate::chars::lemma_boundary_step(b, q);
        lemma_ident_end(b, q + width_at(b, q));
    }
}

/// `digits_end` stays inside the buffer and lands on a character boundary:
/// every digit is a single byte.
pub proof fn lemma_digits_end(b: Seq<u8>, q: int)
    requires
        valid_utf8(b),
        0 <= q <= b.len(),
        is_char_boundary(b, q),
    ensures
        q <= digits_end(b, q) <= b.len(),
        is_char_boundary(b, digits_end(b, q)),
    decreases b.len() - q,
{
    if 0 <= q < b.len() && 0x30 <= b[q] <= 0x39 {
        crate::chars::lemma_boundary_step(b, q);
        assert(width_at(b, q) == 1);
        lemma_digits_end(b, q + 1);
    }
}

/// `number_end` stays inside the buffer, lands on a character boundary, and
/// consumes at least the digit the number started with.
pub proof fn lemma_number_end(b: Seq<u8>, q: int)
    requires
        valid_utf8(b),
        0 <= q < b.len(),
        is_char_boundary(b, q),
        0x30 <= b[q] <= 0x39,
    ensures
        q < number_end(b, q) <= b.len(),
        is_char_boundary(b, number_end(b, q)),
{
    lemma_digits_end(b, q);
    let d = digits_end(b, q);
    assert(d > q) by {
        crate::chars::lemma_boundary_step(b, q);
        assert(width_at(b, q) == 1);
        lemma_digits_end(b, q + 1);
        assert(digits_end(b, q) == digits_end(b, q + 1));
    }
    if d + 1 < b.len() && b[d] == 0x2e && 0x30 <= b[d + 1] <= 0x39 {
        crate::chars::lemma_boundary_step(b, d);
        assert(width_at(b, d) == 1);
        crate::chars::lemma_boundary_step(b, d + 1);
        assert(width_at(b, d + 1) == 1);
        lemma_digits_end(b, d + 2);
    }
}

/// `scan_string_body` stays inside the buffer, never moves backwards, and
/// lands on a character boundary.
pub proof fn lemma_scan_string_body(b: Seq<u8>, q: int, quote: u8)
    requires
        valid_utf8(b),
        0 <= q <= b.len(),
        is_char_boundary(b, q),
        quote < 0x80,
    ensures
        q <= scan_string_body(b, q, quote).end <= b.len(),
        is_char_boundary(b, scan_string_body(b, q, quote).end),
    decreases b.len() - q,
{
    if !(0 <= q < b.len()) {
    } else if b[q] == quote {
        crate::chars::lemma_boundary_step(b, q);
        assert(width_at(b, q) == 1);
    } else if b[q] == 0x5c {
        crate::chars::lemma_boundary_step(b, q);
        assert(width_at(b, q) == 1);
        if q + 1 < b.len() {
            crate::chars::lemma_boundary_step(b, q + 1);
            lemma_scan_string_body(b, q + 1 + width_at(b, q + 1), quote);
        }
    } else {
        crate::chars::lemma_boundary_step(b, q);
        lemma_scan_string_body(b, q + width_at(b, q), quote);
    }
}

/// One model step: the token it yields sits after `pos`, has an ordered span
/// on character boundaries, ends exactly where the scan resumes, yields
/// `Eof` exactly at the end of the buffer, and otherwise makes progress.
pub proof fn lemma_next_lex(b: Seq<u8>, pos: int)
    requires
        valid_utf8(b),
        0 <= pos <= b.len(),
        is_char_boundary(b, pos),
        b.len() <= usize::MAX,
    ensures
        ({
            let st = next_lex(b, pos);
            &&& pos <= st.token.span.start as int
            &&& st.token.span.start <= st.token.span.end
            &&& st.token.span.end as int == st.next
            &&& st.next <= b.len()
            &&& is_char_boundary(b, st.token.span.start as int)
            &&& is_char_boundary(b, st.token.span.end as int)
            &&& (st.token.kind == TokenKind::Eof <==> scan_start(b, pos) == b.len())
            &&& (st.token.kind == TokenKind::Eof ==> st.token.span == Span {
                start: b.len() as usize,
                end: b.len() as usize,
            })
            &&& (st.token.kind != TokenKind::Eof ==> st.next > pos)
            &&& (st.token.kind != TokenKind::Eof ==> st.token.span.start < st.token.span.end)
        }),
{
    lemma_scan_start(b, pos);
    let p = scan_start(b, pos);
    if p < b.len() {
        let c = char_at(b, p);
        if is_alpha(c) || b[p] == 0x5f {
            lemma_ident_end(b, p);
            assert(ident_end(b, p) > p) by {
                crate::chars::lemma_boundary_step(b, p);
                lemma_ident_end(b, p + width_at(b, p));
                assert(ident_end(b, p) == ident_end(b, p + width_at(b, p)));
            }
        } else if 0x30 <= b[p] <= 0x39 {
            lemma_number_end(b, p);
        } else if b[p] == 0x22 || b[p] == 0x27 {
            crate::chars::lemma_boundary_step(b, p);
            assert(width_at(b, p) == 1);
            lemma_scan_string_body(b, p + 1, b[p]);
        } else {
            crate::chars::lemma_boundary_step(b, p);
            // multi-character operators are built from single-byte characters
            if b[p] == 0x3d || b[p] == 0x21 || b[p] == 0x3c || b[p] == 0x3e || b[p] == 0x26 || b[p]
                == 0x7c {
                assert(width_at(b, p) == 1);
                if p + 1 < b.len() && (b[p + 1] == 0x3d || b[p + 1] == 0x26 || b[p + 1] == 0x7c) {
                    crate::chars::lemma_boundary_step(b, p + 1);
                    assert(width_at(b, p + 1) == 1);
                    if p + 2 < b.len() && b[p + 2] == 0x3d {
                        crate::chars::lemma_boundary_step(b, p + 2);
                        assert(width_at(b, p + 2) == 1);
                    }
                }
            }
        }
    }
}

/// The shape every token stream coming out of the lexer has: it ends with
/// exactly one `Eof` token whose span is the empty range at the end of the
/// buffer, every span is ordered, lies inside the buffer and sits on
/// character boundaries, and successive tokens never overlap.
pub open spec fn token_stream_wf(ts: Seq<Token>, b: Seq<u8>) -> bool {
    &&& ts.len() >= 1
    &&& ts.last() == Token {
        kind: TokenKind::Eof,
        span: Span { start: b.len() as usize, end: b.len() as usize },
    }
    &&& forall|i: int| 0 <= i < ts.len() - 1 ==> #[trigger] ts[i].kind != TokenKind::Eof
    &&& forall|i: int| 0 <= i < ts.len() ==> span_on_boundaries(#[trigger] ts[i].span, b)
    &&& forall|i: int|
        0 <= i < ts.len() - 1 ==> #[trigger] ts[i].span.end <= ts[i + 1].span.start
}

/// In a well-formed stream, a token ends no later than any later token
/// starts.
pub proof fn lemma_token_stream_order(ts: Seq<Token>, b: Seq<u8>, i: int, j: int)
    requires
        token_stream_wf(ts, b),
        0 <= i < j < ts.len(),
    ensures
        ts[i].span.end <= ts[j].span.start,
    decreases j - i,
{
    if i + 1 == j {
    } else {
        lemma_token_stream_order(ts, b, i + 1, j);
        assert(span_on_boundaries(ts[i + 1].span, b));
    }
}

/// The token stream of the model is well formed, and every token of it
/// starts at or after the position the scan started from.
pub proof fn lemma_lex_from_wf(b: Seq<u8>, pos: int)
    requires
        valid_utf8(b),
        0 <= pos <= b.len(),
        is_char_boundary(b, pos),
        b.len() <= usize::MAX,
    ensures
        token_stream_wf(lex_from(b, pos).tokens, b),
        forall|i: int|
            0 <= i < lex_from(b, pos).tokens.len() ==> pos <= #[trigger] lex_from(
                b,
                pos,
            ).tokens[i].span.start,
    decreases b.len() - pos,
{
    let st = next_lex(b, pos);
    lemma_next_lex(b, pos);
    let out = lex_from(b, pos);
    if st.token.kind == TokenKind::Eof || pos >= b.len() {
        assert(scan_start(b, pos) == b.len());
        assert(out.tokens =~= seq![st.token]);
    } else {
        let np = st.next;
        assert(np > pos && np <= b.len());
        let rest = lex_from(b, np);
        assert(out.tokens =~= seq![st.token] + rest.tokens);
        lemma_lex_from_wf(b, np);
        assert forall|i: int| 0 <= i < out.tokens.len() implies span_on_boundaries(
            #[trigger] out.tokens[i].span,
            b,
        ) && pos <= out.tokens[i].span.start && (i < out.tokens.len() - 1
            ==> out.tokens[i].kind != TokenKind::Eof) by {
            if i > 0 {
                assert(out.tokens[i] == rest.tokens[i - 1]);
            }
        }
        assert forall|i: int| 0 <= i < out.tokens.len() - 1 implies #[trigger] out.tokens[i].span.end
            <= out.tokens[i + 1].span.start by {
            if i == 0 {
                assert(out.tokens[1] == rest.tokens[0]);
                assert(np <= rest.tokens[0].span.start);
            } else {
                assert(out.tokens[i] == rest.tokens[i - 1]);
                assert(out.tokens[i + 1] == rest.tokens[i]);
            }
        }
        assert(out.tokens.last() == rest.tokens.last());
    }
}

// --- The executable scan --------------------------------------------------
/// Skips white space and `//` line comments, stopping at the first
/// character a token can start with.
fn scan_ws_comments(bytes: &[u8], start: usize) -> (r: usize)
    requires
        valid_utf8(bytes@),
        start <= bytes@.len(),
        is_char_boundary(bytes@, start as int),
    ensures
        r as int == scan_start(bytes@, start as int),
        r <= bytes@.len(),
        is_char_boundary(bytes@, r as int),
{
    let ghost b = bytes@;
    let mut p = start;
    loop
        invariant_except_break
            valid_utf8(b),
            b == bytes@,
            p <= b.len(),
            is_char_boundary(b, p as int),
            scan_start(b, start as int) == scan_start(b, p as int),
        ensures
            p as int == scan_start(b, start as int),
            p <= b.len(),
            is_char_boundary(b, p as int),
        decreases b.len() - p,
    {
        if p >= bytes.len() {
            break ;
        }
        let (v, c, w) = read_char(bytes, p);
        if c.is_whitespace() {
            proof {
                assert(scan_start(b, p as int) == scan_start(b, p + w));
            }
            p = p + w;
        } else if v == 0x2f && p + 1 < bytes.len() && bytes[p + 1] == 0x2f {
            proof {
                lemma_line_end(b, p + 2);
                assert(scan_start(b, p as int) == scan_start(b, line_end(b, p + 2)));
            }
            let mut q = p + 2;
            while q < bytes.len() && bytes[q] != 0x0a
                invariant
                    b == bytes@,
                    p + 2 <= q <= b.len(),
                    line_end(b, p + 2) == line_end(b, q as int),
                decreases b.len() - q,
            {
                q = q + 1;
            }
            proof {
                assert(line_end(b, q as int) == q as int);
                assert(is_char_boundary(b, q as int)) by {
                    if (q as int) < b.len() {
                        is_char_boundary_iff_not_is_continuation_byte(b, q as int);
                    } else {
                        is_char_boundary_start_end_of_seq(b);
                    }
                }
            }
            p = q;
        } else {
            proof {
                assert(scan_start(b, p as int) == p as int);
            }
            break ;
        }
    }
    p
}

/// Consumes the maximal run of identifier characters from `start`.
fn scan_ident(bytes: &[u8], start: usize) -> (r: usize)
    requires
        valid_utf8(bytes@),
        start <= bytes@.len(),
        is_char_boundary(bytes@, start as int),
    ensures
        r as int == ident_end(bytes@, start as int),
        start <= r <= bytes@.len(),
        is_char_boundary(bytes@, r as int),
{
    let ghost b = bytes@;
    proof {
        lemma_ident_end(b, start as int);
    }
    let mut p = start;
    loop
        invariant_except_break
            valid_utf8(b),
            b == bytes@,
            start <= p <= b.len(),
            is_char_boundary(b, p as int),
            ident_end(b, start as int) == ident_end(b, p as int),
        ensures
            p as int == ident_end(b, start as int),
            start <= p <= b.len(),
            is_char_boundary(b, p as int),
        decreases b.len() - p,
    {
        if p >= bytes.len() {
            break ;
        }
        let (v, c, w) = read_char(bytes, p);
        if c.is_alphanumeric() || v == 0x5f {
            proof {
                assert(ident_end(b, p as int) == ident_end(b, p + w));
            }
            p = p + w;
        } else {
            proof {
                assert(ident_end(b, p as int) == p as int);
            }
            break ;
        }
    }
    p
}

/// Consumes the maximal digit run from `start`.
fn scan_digits(bytes: &[u8], start: usize) -> (r: usize)
    requires
        valid_utf8(bytes@),
        start <= bytes@.len(),
        is_char_boundary(bytes@, start as int),
    ensures
        r as int == digits_end(bytes@, start as int),
        start <= r <= bytes@.len(),
        is_char_boundary(bytes@, r as int),
{
    let ghost b = bytes@;
    proof {
        lemma_digits_end(b, start as int);
    }
    let mut p = start;
    while p < bytes.len() && 0x30 <= bytes[p] && bytes[p] <= 0x39
        invariant
            valid_utf8(b),
            b == bytes@,
            start <= p <= b.len(),
            is_char_boundary(b, p as int),
            digits_end(b, start as int) == digits_end(b, p as int),
        decreases b.len() - p,
    {
        proof {
            crate::chars::lemma_boundary_step(b, p as int);
            assert(width_at(b, p as int) == 1);
        }
        p = p + 1;
    }
    p
}

/// Consumes a number: a digit run, then a fractional part only when a dot
/// is followed by another digit.
fn scan_number(bytes: &[u8], start: usize) -> (r: usize)
    requires
        valid_utf8(bytes@),
        start < bytes@.len(),
        is_char_boundary(bytes@, start as int),
        0x30 <= bytes@[start as int] <= 0x39,
    ensures
        r as int == number_end(bytes@, start as int),
        start < r <= bytes@.len(),
        is_char_boundary(bytes@, r as int),
{
    let ghost b = bytes@;
    proof {
        lemma_number_end(b, start as int);
    }
    let d = scan_digits(bytes, start);
    if d < bytes.len() && bytes[d] == 0x2e && d + 1 < bytes.len() && 0x30 <= bytes[d + 1] && bytes[d
        + 1] <= 0x39 {
        proof {
            crate::chars::lemma_boundary_step(b, d as int);
            crate::chars::lemma_boundary_step(b, d + 1);
        }
        scan_digits(bytes, d + 2)
    } else {
        d
    }
}

/// Appends one diagnostic.
fn push_diag(diags: &mut Vec<Diagnostic>, severity: Severity, message: String, span: Span)
    ensures
        final(diags).deep_view() == old(diags).deep_view().push(
            DiagView { severity, message: message@, span },
        ),
{
    let ghost d0 = diags.deep_view();
    let ghost m = message@;
    diags.push(Diagnostic { severity, message, span });
    proof {
        assert(diags.deep_view() =~= d0.push(DiagView { severity, message: m, span }));
    }
}

/// The two texts, concatenated.
pub(crate) fn concat_strs(a: &str, b: &str) -> (r: String)
    ensures
        r@ == a@ + b@,
{
    a.to_owned().concat(b)
}

/// Scans the body of a string literal from `start` (just after the opening
/// quote), reporting unknown escape sequences; returns where the literal
/// ends and whether the closing quote was found.
fn scan_string(bytes: &[u8], start: usize, quote: u8, diags: &mut Vec<Diagnostic>) -> (r: (
    usize,
    bool,
))
    requires
        valid_utf8(bytes@),
        start <= bytes@.len(),
        is_char_boundary(bytes@, start as int),
        quote < 0x80,
    ensures
        ({
            let s = scan_string_body(bytes@, start as int, quote);
            &&& r.0 as int == s.end
            &&& r.1 == s.terminated
            &&& final(diags).deep_view() == old(diags).deep_view() + s.diags
            &&& start <= r.0 <= bytes@.len()
            &&& is_char_boundary(bytes@, r.0 as int)
        }),
{
    let ghost b = bytes@;
    let ghost d0 = diags.deep_view();
    let ghost full = scan_string_body(b, start as int, quote);
    let mut p = start;
    let mut terminated = false;
    loop
        invariant_except_break
            valid_utf8(b),
            b == bytes@,
            quote < 0x80,
            start <= p <= b.len(),
            is_char_boundary(b, p as int),
            terminated == false,
            full == scan_string_body(b, start as int, quote),
            full.end == scan_string_body(b, p as int, quote).end,
            full.terminated == scan_string_body(b, p as int, quote).terminated,
            d0 + full.diags == diags.deep_view() + scan_string_body(b, p as int, quote).diags,
        ensures
            p as int == full.end,
            terminated == full.terminated,
            diags.deep_view() == d0 + full.diags,
            start <= p <= b.len(),
            is_char_boundary(b, p as int),
        decreases b.len() - p,
    {
        if p >= bytes.len() {
            proof {
                assert(scan_string_body(b, p as int, quote).diags =~= Seq::<DiagView>::empty());
                assert(diags.deep_view() + Seq::<DiagView>::empty() =~= diags.deep_view());
                assert(d0 + full.diags == diags.deep_view());
            }
            break ;
        }
        let b0 = bytes[p];
        if b0 == quote {
            proof {
                crate::chars::lemma_boundary_step(b, p as int);
                assert(width_at(b, p as int) == 1);
                assert(scan_string_body(b, p as int, quote).diags =~= Seq::<DiagView>::empty());
                assert(diags.deep_view() + Seq::<DiagView>::empty() =~= diags.deep_view());
            }
            p = p + 1;
            terminated = true;
            break ;
        }
        if b0 == 0x5c {
            proof {
                crate::chars::lemma_boundary_step(b, p as int);
                assert(width_at(b, p as int) == 1);
            }
            if p + 1 < bytes.len() {
                let (ev, _, ew) = read_char(bytes, p + 1);
                let ghost snext = scan_string_body(b, p + 1 + ew, quote);
                if !(ev == 0x22 || ev == 0x5c || ev == 0x6e || ev == 0x74 || ev == 0x72) {
                    let msg = "Неизвестная экранированная последовательность".to_owned();
                    let ghost dv = DiagView {
                        severity: Severity::Warning,
                        message: msg_unknown_escape(),
                        span: Span { start: p, end: (p + 1 + ew) as usize },
                    };
                    let ghost before = diags.deep_view();
                    push_diag(
                        diags,
                        Severity::Warning,
                        msg,
                        Span { start: p, end: p + 1 + ew },
                    );
                    proof {
                        assert(scan_string_body(b, p as int, quote).diags =~= seq![dv]
                            + snext.diags);
                        assert(before + (seq![dv] + snext.diags) =~= (before.push(dv))
                            + snext.diags);
                    }
                } else {
                    proof {
                        assert(scan_string_body(b, p as int, quote).diags == snext.diags);
                    }
                }
                p = p + 1 + ew;
            } else {
                proof {
                    assert(scan_string_body(b, p as int, quote) == StrScan {
                        end: p + 1,
                        terminated: false,
                        diags: Seq::<DiagView>::empty(),
                    });
                    assert(diags.deep_view() + Seq::<DiagView>::empty() =~= diags.deep_view());
                }
                p = p + 1;
                break ;
            }
        } else {
            let (_, _, w) = read_char(bytes, p);
            proof {
                assert(scan_string_body(b, p as int, quote) == scan_string_body(
                    b,
                    p + w,
                    quote,
                ));
            }
            p = p + w;
        }
    }
    (p, terminated)
}

/// Scans the operator, punctuation or unknown-character token at `p`, by
/// maximal munch.
fn scan_operator(
    bytes: &[u8],
    p: usize,
    src: &crate::source::SourceFile,
    diags: &mut Vec<Diagnostic>,
) -> (t: Token)
    requires
        valid_utf8(bytes@),
        p < bytes@.len(),
        is_char_boundary(bytes@, p as int),
        bytes@ == src.bytes(),
    ensures
        ({
            let st = op_step(bytes@, p as int);
            &&& t == st.token
            &&& final(diags).deep_view() == old(diags).deep_view() + st.diags
        }),
{
    let ghost b = bytes@;
    let ghost st = op_step(b, p as int);
    let (v, c, w) = read_char(bytes, p);
    let n = bytes.len();
    let kind: TokenKind;
    let end: usize;
    if v == 0x2b {
        kind = TokenKind::Operator(OperatorKind::Plus);
        end = p + 1;
    } else if v == 0x2d {
        kind = TokenKind::Operator(OperatorKind::Minus);
        end = p + 1;
    } else if v == 0x2a {
        kind = TokenKind::Operator(OperatorKind::Multiply);
        end = p + 1;
    } else if v == 0x25 {
        kind = TokenKind::Operator(OperatorKind::Modulo);
        end = p + 1;
    } else if v == 0x2f {
        kind = TokenKind::Operator(OperatorKind::Divide);
        end = p + 1;
    } else if v == 0x3d {
        if p + 1 < n && bytes[p + 1] == 0x3d {
            if p + 2 < n && bytes[p + 2] == 0x3d {
                kind = TokenKind::Operator(OperatorKind::StrictEquals);
                end = p + 3;
            } else {
                kind = TokenKind::Operator(OperatorKind::Equals);
                end = p + 2;
            }
        } else {
            kind = TokenKind::Operator(OperatorKind::Assign);
            end = p + 1;
        }
    } else if v == 0x21 {
        if p + 1 < n && bytes[p + 1] == 0x3d {
            if p + 2 < n && bytes[p + 2] == 0x3d {
                kind = TokenKind::Operator(OperatorKind::StrictNotEquals);
                end = p + 3;
            } else {
                kind = TokenKind::Operator(OperatorKind::NotEquals);
                end = p + 2;
            }
        } else {
            kind = TokenKind::Operator(OperatorKind::Not);
            end = p + 1;
        }
    } else if v == 0x3c {
        if p + 1 < n && bytes[p + 1] == 0x3d {
            kind = TokenKind::Operator(OperatorKind::LessOrEqual);
            end = p + 2;
        } else {
            kind = TokenKind::Operator(OperatorKind::Less);
            end = p + 1;
        }
    } else if v == 0x3e {
        if p + 1 < n && bytes[p + 1] == 0x3d {
            kind = TokenKind::Operator(OperatorKind::GreaterOrEqual);
            end = p + 2;
        } else {
            kind = TokenKind::Operator(OperatorKind::Greater);
            end = p + 1;
        }
    } else if v == 0x26 {
        if p + 1 < n && bytes[p + 1] == 0x26 {
            kind = TokenKind::Operator(OperatorKind::And);
            end = p + 2;
        } else {
            let msg = "одиночный '&' не поддерживается (используйте '&&')".to_owned();
            push_diag(diags, Severity::Error, msg, Span { start: p, end: p + 1 });
            kind = TokenKind::Unknown;
            end = p + 1;
        }
    } else if v == 0x7c {
        if p + 1 < n && bytes[p + 1] == 0x7c {
            kind = TokenKind::Operator(OperatorKind::Or);
            end = p + 2;
        } else {
            let msg = "одиночный '|' не поддерживается (используйте '||')".to_owned();
            push_diag(diags, Severity::Error, msg, Span { start: p, end: p + 1 });
            kind = TokenKind::Unknown;
            end = p + 1;
        }
    } else if v == 0x28 {
        kind = TokenKind::Punctuation(PunctuationKind::LParen);
        end = p + 1;
    } else if v == 0x29 {
        kind = TokenKind::Punctuation(PunctuationKind::RParen);
        end = p + 1;
    } else if v == 0x7b {
        kind = TokenKind::Punctuation(PunctuationKind::LBrace);
        end = p + 1;
    } else if v == 0x7d {
        kind = TokenKind::Punctuation(PunctuationKind::RBrace);
        end = p + 1;
    } else if v == 0x5b {
        kind = TokenKind::Punctuation(PunctuationKind::LBracket);
        end = p + 1;
    } else if v == 0x5d {
        kind = TokenKind::Punctuation(PunctuationKind::RBracket);
        end = p + 1;
    } else if v == 0x3b {
        kind = TokenKind::Punctuation(PunctuationKind::Semicolon);
        end = p + 1;
    } else if v == 0x2c {
        kind = TokenKind::Punctuation(PunctuationKind::Comma);
        end = p + 1;
    } else if v == 0x3a {
        kind = TokenKind::Punctuation(PunctuationKind::Colon);
        end = p + 1;
    } else if v == 0x2e {
        kind = TokenKind::Punctuation(PunctuationKind::Dot);
        end = p + 1;
    } else {
        let ghost sub = b.subrange(p as int, p + w);
        proof {
            // the lexeme of the unknown character decodes to that character
            crate::relex::lemma_char_at_local(b, p as int, p + w, p as int);
            crate::chars::lemma_boundary_step(b, p as int);
            valid_utf8_split(b, p as int);
            let suffix = b.subrange(p as int, b.len() as int);
            crate::source::lemma_boundary_in_suffix(b, p as int, p + w);
            valid_utf8_split(suffix, w as int);
            assert(suffix.subrange(0, w as int) =~= sub);
            assert(valid_utf8(sub));
            crate::chars::lemma_boundary_step(sub, 0);
            assert(length_of_first_scalar(sub) == w);
            assert(pop_first_scalar(sub).len() == 0);
            assert(decode_utf8(pop_first_scalar(sub)) =~= Seq::<char>::empty());
            assert(decode_utf8(sub) =~= seq![decode_first_scalar(sub) as char]);
            assert(decode_first_scalar(sub) == scalar_at(b, p as int));
            assert(decode_utf8(sub) =~= seq![c]);
        }
        let lexeme = src.slice(Span { start: p, end: p + w });
        let msg = concat_strs(concat_strs("Неизвестный символ: '", lexeme).as_str(), "'");
        proof {
            assert(msg@ =~= msg_unknown_char(c));
        }
        push_diag(diags, Severity::Error, msg, Span { start: p, end: p + w });
        kind = TokenKind::Unknown;
        end = p + w;
    }
    let t = Token { kind, span: Span { start: p, end } };
    proof {
        if st.diags.len() == 0 {
            assert(diags.deep_view() + st.diags =~= diags.deep_view());
        } else {
            assert(old(diags).deep_view() + st.diags =~= old(diags).deep_view().push(st.diags[0]));
        }
    }
    t
}

/// Classifies the identifier lexeme `bytes[start..end]` against the keyword
/// table.
fn classify_ident(bytes: &[u8], start: usize, end: usize) -> (k: TokenKind)
    requires
        valid_utf8(bytes@),
        start <= end <= bytes@.len(),
        is_char_boundary(bytes@, start as int),
        is_char_boundary(bytes@, end as int),
    ensures
        k == ident_kind(decode_utf8(bytes@.subrange(start as int, end as int))),
{
    let ghost b = bytes@;
    let ghost sub = b.subrange(start as int, end as int);
    proof {
        crate::source::lemma_boundary_in_suffix(b, start as int, end as int);
        valid_utf8_split(b, start as int);
        let suffix = b.subrange(start as int, b.len() as int);
        valid_utf8_split(suffix, end - start);
        assert(suffix.subrange(0, end - start) =~= sub);
    }
    let lexeme = vstd::slice::slice_subrange(bytes, start, end);
    if crate::chars::decoded_eq(lexeme, "гыы") {
        TokenKind::Keyword(KeywordKind::Gyy)
    } else if crate::chars::decoded_eq(lexeme, "участковый") {
        TokenKind::Keyword(KeywordKind::Uchastkoviy)
    } else if crate::chars::decoded_eq(lexeme, "ясенХуй") {
        TokenKind::Keyword(KeywordKind::YasenHuy)
    } else if crate::chars::decoded_eq(lexeme, "вилкойвглаз") {
        TokenKind::Keyword(KeywordKind::Vilkoyvglaz)
    } else if crate::chars::decoded_eq(lexeme, "иливжопураз") {
        TokenKind::Keyword(KeywordKind::Ilivzhopuraz)
    } else if crate::chars::decoded_eq(lexeme, "потрещим") {
        TokenKind::Keyword(KeywordKind::Potreshchim)
    } else if crate::chars::decoded_eq(lexeme, "го") {
        TokenKind::Keyword(KeywordKind::Go)
    } else if crate::chars::decoded_eq(lexeme, "харэ") {
        TokenKind::Keyword(KeywordKind::Hare)
    } else if crate::chars::decoded_eq(lexeme, "двигай") {
        TokenKind::Keyword(KeywordKind::Dvigay)
    } else if crate::chars::decoded_eq(lexeme, "йопта") {
        TokenKind::Keyword(KeywordKind::Yopta)
    } else if crate::chars::decoded_eq(lexeme, "отвечаю") {
        TokenKind::Keyword(KeywordKind::Otvechayu)
    } else {
        TokenKind::Identifier
    }
}

/// The lexer: a cursor over the source buffer and the diagnostics collected
/// so far. One-shot; `tokenize` consumes it.
pub struct Lexer<'src> {
    source: &'src crate::source::SourceFile,
    position: usize,
    diagnostics: Vec<Diagnostic>,
}

impl<'src> Lexer<'src> {
    /// The byte buffer the lexer walks.
    pub closed spec fn buf(&self) -> Seq<u8> {
        self.source.bytes()
    }

    /// The cursor stays inside the buffer, on a character boundary.
    pub closed spec fn wf(&self) -> bool {
        &&& self.position <= self.buf().len()
        &&& is_char_boundary(self.buf(), self.position as int)
    }

    /// The diagnostics collected so far.
    pub closed spec fn spec_diagnostics(&self) -> Seq<DiagView> {
        self.diagnostics.deep_view()
    }

    /// The cursor, as a byte offset into the buffer.
    pub closed spec fn spec_position(&self) -> int {
        self.position as int
    }

    pub fn new(source: &'src crate::source::SourceFile) -> (r: Lexer<'src>)
        ensures
            r.wf(),
            r.buf() == source.bytes(),
            r.spec_position() == 0,
            r.spec_diagnostics() =~= Seq::<DiagView>::empty(),
    {
        proof {
            broadcast use encode_utf8_valid_utf8;

            assert(is_char_boundary(source.bytes(), 0));
        }
        Lexer { source, position: 0, diagnostics: Vec::new() }
    }

    /// Scans the next token, appending any diagnostics it raises: exactly
    /// one step of the model.
    pub fn next_token(&mut self) -> (t: Token)
        requires
            old(self).wf(),
        ensures
            ({
                let st = next_lex(old(self).buf(), old(self).spec_position());
                &&& final(self).wf()
                &&& final(self).buf() == old(self).buf()
                &&& t == st.token
                &&& final(self).spec_position() == st.next
                &&& final(self).spec_diagnostics() == old(self).spec_diagnostics() + st.diags
                &&& (t.kind != TokenKind::Eof ==> final(self).spec_position() > old(
                    self,
                ).spec_position())
            }),
    {
        proof {
            broadcast use encode_utf8_valid_utf8;

        }
        let ghost b = self.buf();
        let ghost pos0 = self.position as int;
        let ghost st = next_lex(b, pos0);
        let ghost d0 = self.diagnostics.deep_view();
        let bytes: &[u8] = self.source.source.as_str().as_bytes();
        let n = bytes.len();
        proof {
            assert(bytes@ == b);
            assert(b.len() <= usize::MAX);
            lemma_next_lex(b, pos0);
        }
        let p = scan_ws_comments(bytes, self.position);
        if p >= bytes.len() {
            self.position = p;
            proof {
                assert(d0 + st.diags =~= d0);
            }
            return Token { kind: TokenKind::Eof, span: Span { start: p, end: p } };
        }
        let (v, c, w) = read_char(bytes, p);
        if c.is_alphabetic() || v == 0x5f {
            let e = scan_ident(bytes, p);
            let k = classify_ident(bytes, p, e);
            self.position = e;
            proof {
                assert(d0 + st.diags =~= d0);
            }
            Token { kind: k, span: Span { start: p, end: e } }
        } else if 0x30 <= v && v <= 0x39 {
            let e = scan_number(bytes, p);
            self.position = e;
            proof {
                assert(d0 + st.diags =~= d0);
            }
            Token { kind: TokenKind::Number, span: Span { start: p, end: e } }
        } else if v == 0x22 || v == 0x27 {
            let quote = bytes[p];
            proof {
                crate::chars::lemma_boundary_step(b, p as int);
                assert(width_at(b, p as int) == 1);
            }
            let ghost s = scan_string_body(b, p + 1, quote);
            let (e, term) = scan_string(bytes, p + 1, quote, &mut self.diagnostics);
            if !term {
                push_diag(
                    &mut self.diagnostics,
                    Severity::Error,
                    "Незакрытая строка".to_owned(),
                    Span { start: p, end: e },
                );
                proof {
                    let tail = seq![
                        DiagView {
                            severity: Severity::Error,
                            message: msg_unterminated_string(),
                            span: Span { start: p, end: e },
                        },
                    ];
                    assert(st.diags =~= s.diags + tail);
                    assert((d0 + s.diags).push(tail[0]) =~= d0 + (s.diags + tail));
                }
            } else {
                proof {
                    assert(st.diags =~= s.diags);
                }
            }
            self.position = e;
            Token { kind: TokenKind::StringLiteral, span: Span { start: p, end: e } }
        } else {
            let t = scan_operator(bytes, p, self.source, &mut self.diagnostics);
            self.position = t.span.end;
            proof {
                assert(st == op_step(b, p as int));
            }
            t
        }
    }

    /// The diagnostics collected so far.
    pub fn diagnostics(&self) -> (r: &[Diagnostic])
        ensures
            r.deep_view() == self.spec_diagnostics(),
    {
        let r = self.diagnostics.as_slice();
        proof {
            assert(r.deep_view() =~= self.diagnostics.deep_view());
        }
        r
    }

    /// Runs the lexer to the end: the token stream of the model, ending in
    /// `Eof`, and every diagnostic of the scan, in source order. The stream
    /// is well formed in the sense of [`token_stream_wf`].
    pub fn tokenize(self) -> (r: (Vec<Token>, Vec<Diagnostic>))
        requires
            self.wf(),
        ensures
            r.0@ == lex_from(self.buf(), self.spec_position()).tokens,
            r.1.deep_view() == self.spec_diagnostics() + lex_from(
                self.buf(),
                self.spec_position(),
            ).diags,
            token_stream_wf(r.0@, self.buf()),
    {
        let mut lexer = self;
        let ghost b = lexer.buf();
        let ghost p0 = lexer.position as int;
        let ghost d0 = lexer.diagnostics.deep_view();
        let n = lexer.source.source.as_str().as_bytes().len();
        proof {
            broadcast use encode_utf8_valid_utf8;

            assert(b.len() == n);
        }
        let mut tokens: Vec<Token> = Vec::new();
        loop
            invariant_except_break
                lexer.wf(),
                b == lexer.buf(),
                b.len() == n,
                lex_from(b, p0).tokens =~= tokens@ + lex_from(b, lexer.position as int).tokens,
                d0 + lex_from(b, p0).diags =~= lexer.diagnostics.deep_view() + lex_from(
                    b,
                    lexer.position as int,
                ).diags,
            ensures
                tokens@ == lex_from(b, p0).tokens,
                lexer.diagnostics.deep_view() == d0 + lex_from(b, p0).diags,
            decreases b.len() - lexer.position,
        {
            let ghost pcur = lexer.position as int;
            let ghost dcur = lexer.diagnostics.deep_view();
            let ghost toks_cur = tokens@;
            let t = lexer.next_token();
            let is_eof = matches!(t.kind, TokenKind::Eof);
            tokens.push(t);
            proof {
                let st = next_lex(b, pcur);
                let cur = lex_from(b, pcur);
                if st.token.kind == TokenKind::Eof || pcur >= b.len() {
                    assert(cur.tokens =~= seq![st.token]);
                    assert(cur.diags =~= st.diags);
                    assert(tokens@ =~= toks_cur + cur.tokens);
                    assert(lex_from(b, p0).tokens =~= tokens@);
                    assert(d0 + lex_from(b, p0).diags =~= lexer.diagnostics.deep_view());
                    assert(st.token.kind == TokenKind::Eof);
                } else {
                    let rest = lex_from(b, st.next);
                    assert(cur.tokens =~= seq![st.token] + rest.tokens);
                    assert(cur.diags =~= st.diags + rest.diags);
                    assert(tokens@ =~= (toks_cur + seq![st.token]));
                    assert(toks_cur + cur.tokens =~= tokens@ + rest.tokens);
                    assert(lex_from(b, p0).tokens =~= tokens@ + rest.tokens);
                    assert(dcur + cur.diags =~= (dcur + st.diags) + rest.diags);
                    assert(d0 + lex_from(b, p0).diags =~= lexer.diagnostics.deep_view()
                        + rest.diags);
                }
            }
            if is_eof {
                break ;
            }
        }
        proof {
            lemma_lex_from_wf(b, p0);
        }
        (tokens, lexer.diagnostics)
    }
}

} // verus!
