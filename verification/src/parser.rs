//! The parser: a Pratt precedence-climbing pass over the token stream that
//! yields a typed syntax tree plus diagnostics, with panic-mode recovery.
//!
//! Every tree the parser returns is well formed in the sense of the `ast`
//! well-formedness predicates: spans are ordered, lie inside the source,
//! and each node's span covers its children together with the node's own
//! tokens; an infix node's span runs exactly from its first operand's start
//! to its last operand's end.

use vstd::prelude::*;
use vstd::string::StringSliceAdditionalSpecFns;
use vstd::utf8::*;

use crate::ast::{
    block_wf, expr_wf, program_wf, stmt_wf, BinaryOp, Block, Expr, Identifier, Literal, Program,
    Stmt, UnaryOp,
};
use crate::lexer::{concat_strs, lemma_token_stream_order, token_stream_wf};
use crate::source::SourceFile;
use crate::span::{span_in, span_on_boundaries, Diagnostic, DiagView, Severity, Span};
use crate::token::{KeywordKind, OperatorKind, PunctuationKind, Token, TokenKind};

verus! {

/// Prefix operators bind tighter than any infix level.
pub const UNARY_PRECEDENCE: u8 = 8;

// --- Diagnostic messages ---------------------------------------------------
/// Message when an identifier was required.
pub open spec fn msg_expected_identifier() -> Seq<char> {
    "Ожидался идентификатор"@
}

/// Message when a variable declaration is missing its `=`.
pub open spec fn msg_expected_assign() -> Seq<char> {
    "Ожидался '=' после имени переменной"@
}

/// Message when an expression statement is missing its `;`.
pub open spec fn msg_expected_semicolon_expr() -> Seq<char> {
    "Ожидалась ';' после выражения"@
}

/// Message when the condition of an `if` is not opened by `(`.
pub open spec fn msg_expected_lparen_if() -> Seq<char> {
    "Ожидалась '(' после 'вилкойвглаз'"@
}

/// Message at a token no primary expression can start with.
pub open spec fn msg_unexpected_token(k: TokenKind) -> Seq<char> {
    "Неожиданный токен: "@ + kind_label(k)
}

/// The text the unexpected-token message shows for a token kind: the
/// variant's name, with the inner variant in parentheses.
pub open spec fn kind_label(k: TokenKind) -> Seq<char> {
    match k {
        TokenKind::Identifier => "Identifier"@,
        TokenKind::Number => "Number"@,
        TokenKind::StringLiteral => "StringLiteral"@,
        TokenKind::Keyword(k) => match k {
            KeywordKind::Gyy => "Keyword(Gyy)"@,
            KeywordKind::Uchastkoviy => "Keyword(Uchastkoviy)"@,
            KeywordKind::YasenHuy => "Keyword(YasenHuy)"@,
            KeywordKind::Vilkoyvglaz => "Keyword(Vilkoyvglaz)"@,
            KeywordKind::Ilivzhopuraz => "Keyword(Ilivzhopuraz)"@,
            KeywordKind::Potreshchim => "Keyword(Potreshchim)"@,
            KeywordKind::Go => "Keyword(Go)"@,
            KeywordKind::Hare => "Keyword(Hare)"@,
            KeywordKind::Dvigay => "Keyword(Dvigay)"@,
            KeywordKind::Yopta => "Keyword(Yopta)"@,
            KeywordKind::Otvechayu => "Keyword(Otvechayu)"@,
        },
        TokenKind::Operator(o) => match o {
            OperatorKind::Plus => "Operator(Plus)"@,
            OperatorKind::Minus => "Operator(Minus)"@,
            OperatorKind::Multiply => "Operator(Multiply)"@,
            OperatorKind::Divide => "Operator(Divide)"@,
            OperatorKind::Modulo => "Operator(Modulo)"@,
            OperatorKind::Assign => "Operator(Assign)"@,
            OperatorKind::Equals => "Operator(Equals)"@,
            OperatorKind::StrictEquals => "Operator(StrictEquals)"@,
            OperatorKind::NotEquals => "Operator(NotEquals)"@,
            OperatorKind::StrictNotEquals => "Operator(StrictNotEquals)"@,
            OperatorKind::Less => "Operator(Less)"@,
            OperatorKind::Greater => "Operator(Greater)"@,
            OperatorKind::LessOrEqual => "Operator(LessOrEqual)"@,
            OperatorKind::GreaterOrEqual => "Operator(GreaterOrEqual)"@,
            OperatorKind::And => "Operator(And)"@,
            OperatorKind::Or => "Operator(Or)"@,
            OperatorKind::Not => "Operator(Not)"@,
        },
        TokenKind::Punctuation(p) => match p {
            PunctuationKind::LParen => "Punctuation(LParen)"@,
            PunctuationKind::RParen => "Punctuation(RParen)"@,
            PunctuationKind::LBrace => "Punctuation(LBrace)"@,
            PunctuationKind::RBrace => "Punctuation(RBrace)"@,
            PunctuationKind::LBracket => "Punctuation(LBracket)"@,
            PunctuationKind::RBracket => "Punctuation(RBracket)"@,
            PunctuationKind::Semicolon => "Punctuation(Semicolon)"@,
            PunctuationKind::Comma => "Punctuation(Comma)"@,
            PunctuationKind::Colon => "Punctuation(Colon)"@,
            PunctuationKind::Dot => "Punctuation(Dot)"@,
        },
        TokenKind::Eof => "Eof"@,
        TokenKind::Unknown => "Unknown"@,
    }
}

/// The display text of a token kind, as [`kind_label`] gives it.
pub fn kind_label_str(k: TokenKind) -> (r: &'static str)
    ensures
        r@ == kind_label(k),
{
    match k {
        TokenKind::Identifier => "Identifier",
        TokenKind::Number => "Number",
        TokenKind::StringLiteral => "StringLiteral",
        TokenKind::Keyword(k) => match k {
            KeywordKind::Gyy => "Keyword(Gyy)",
            KeywordKind::Uchastkoviy => "Keyword(Uchastkoviy)",
            KeywordKind::YasenHuy => "Keyword(YasenHuy)",
            KeywordKind::Vilkoyvglaz => "Keyword(Vilkoyvglaz)",
            KeywordKind::Ilivzhopuraz => "Keyword(Ilivzhopuraz)",
            KeywordKind::Potreshchim => "Keyword(Potreshchim)",
            KeywordKind::Go => "Keyword(Go)",
            KeywordKind::Hare => "Keyword(Hare)",
            KeywordKind::Dvigay => "Keyword(Dvigay)",
            KeywordKind::Yopta => "Keyword(Yopta)",
            KeywordKind::Otvechayu => "Keyword(Otvechayu)",
        },
        TokenKind::Operator(o) => match o {
            OperatorKind::Plus => "Operator(Plus)",
            OperatorKind::Minus => "Operator(Minus)",
            OperatorKind::Multiply => "Operator(Multiply)",
            OperatorKind::Divide => "Operator(Divide)",
            OperatorKind::Modulo => "Operator(Modulo)",
            OperatorKind::Assign => "Operator(Assign)",
            OperatorKind::Equals => "Operator(Equals)",
            OperatorKind::StrictEquals => "Operator(StrictEquals)",
            OperatorKind::NotEquals => "Operator(NotEquals)",
            OperatorKind::StrictNotEquals => "Operator(StrictNotEquals)",
            OperatorKind::Less => "Operator(Less)",
            OperatorKind::Greater => "Operator(Greater)",
            OperatorKind::LessOrEqual => "Operator(LessOrEqual)",
            OperatorKind::GreaterOrEqual => "Operator(GreaterOrEqual)",
            OperatorKind::And => "Operator(And)",
            OperatorKind::Or => "Operator(Or)",
            OperatorKind::Not => "Operator(Not)",
        },
        TokenKind::Punctuation(p) => match p {
            PunctuationKind::LParen => "Punctuation(LParen)",
            PunctuationKind::RParen => "Punctuation(RParen)",
            PunctuationKind::LBrace => "Punctuation(LBrace)",
            PunctuationKind::RBrace => "Punctuation(RBrace)",
            PunctuationKind::LBracket => "Punctuation(LBracket)",
            PunctuationKind::RBracket => "Punctuation(RBracket)",
            PunctuationKind::Semicolon => "Punctuation(Semicolon)",
            PunctuationKind::Comma => "Punctuation(Comma)",
            PunctuationKind::Colon => "Punctuation(Colon)",
            PunctuationKind::Dot => "Punctuation(Dot)",
        },
        TokenKind::Eof => "Eof",
        TokenKind::Unknown => "Unknown",
    }
}

// --- What the primaries produce --------------------------------------------
/// The content of a string literal whose bytes are `sub` (quotes included):
/// everything between the first and the last byte, decoded. A literal too
/// short to hold two quote bytes, or one whose last byte would split a
/// character, keeps no content.
pub open spec fn string_content(sub: Seq<u8>) -> Seq<char> {
    if sub.len() >= 2 && is_char_boundary(sub, 1) && is_char_boundary(sub, sub.len() - 1) {
        decode_utf8(sub.subrange(1, sub.len() - 1))
    } else {
        Seq::<char>::empty()
    }
}

/// The expression a `Number` token at span `sp` becomes: the literal with
/// the lexeme kept verbatim.
pub open spec fn is_number_literal(e: Expr, b: Seq<u8>, sp: Span) -> bool {
    match e {
        Expr::Literal(Literal::Number { raw, span }) => {
            &&& span == sp
            &&& raw@ == decode_utf8(b.subrange(sp.start as int, sp.end as int))
        },
        _ => false,
    }
}

/// The expression a `StringLiteral` token at span `sp` becomes: the literal
/// holding the content between the quotes.
pub open spec fn is_string_literal(e: Expr, b: Seq<u8>, sp: Span) -> bool {
    match e {
        Expr::Literal(Literal::String { value, span }) => {
            &&& span == sp
            &&& value@ == string_content(b.subrange(sp.start as int, sp.end as int))
        },
        _ => false,
    }
}

/// The expression an `Identifier` token at span `sp` becomes.
pub open spec fn is_identifier_expr(e: Expr, b: Seq<u8>, sp: Span) -> bool {
    match e {
        Expr::Identifier(id) => {
            &&& id.span == sp
            &&& id.name@ == decode_utf8(b.subrange(sp.start as int, sp.end as int))
        },
        _ => false,
    }
}

/// The binary operator table: the operator a token kind stands for and its
/// precedence; higher binds tighter. `Not` is never an infix operator.
pub open spec fn binop_of(k: TokenKind) -> Option<(BinaryOp, u8)> {
    match k {
        TokenKind::Operator(o) => match o {
            OperatorKind::Assign => Some((BinaryOp::Assign, 1u8)),
            OperatorKind::Or => Some((BinaryOp::Or, 2u8)),
            OperatorKind::And => Some((BinaryOp::And, 3u8)),
            OperatorKind::Equals => Some((BinaryOp::Equals, 4u8)),
            OperatorKind::StrictEquals => Some((BinaryOp::StrictEquals, 4u8)),
            OperatorKind::NotEquals => Some((BinaryOp::NotEquals, 4u8)),
            OperatorKind::StrictNotEquals => Some((BinaryOp::StrictNotEquals, 4u8)),
            OperatorKind::Less => Some((BinaryOp::Less, 5u8)),
            OperatorKind::Greater => Some((BinaryOp::Greater, 5u8)),
            OperatorKind::LessOrEqual => Some((BinaryOp::LessOrEqual, 5u8)),
            OperatorKind::GreaterOrEqual => Some((BinaryOp::GreaterOrEqual, 5u8)),
            OperatorKind::Plus => Some((BinaryOp::Add, 6u8)),
            OperatorKind::Minus => Some((BinaryOp::Sub, 6u8)),
            OperatorKind::Multiply => Some((BinaryOp::Mul, 7u8)),
            OperatorKind::Divide => Some((BinaryOp::Div, 7u8)),
            OperatorKind::Modulo => Some((BinaryOp::Mod, 7u8)),
            OperatorKind::Not => None,
        },
        _ => None,
    }
}

/// Appending only error diagnostics twice appends only error diagnostics.
proof fn lemma_error_extension_chain(a: Seq<DiagView>, b: Seq<DiagView>, c: Seq<DiagView>)
    requires
        a.is_prefix_of(b),
        b.is_prefix_of(c),
        forall|j: int| a.len() <= j < b.len() ==> (#[trigger] b[j]).severity == Severity::Error,
        forall|j: int| b.len() <= j < c.len() ==> (#[trigger] c[j]).severity == Severity::Error,
    ensures
        a.is_prefix_of(c),
        forall|j: int| a.len() <= j < c.len() ==> (#[trigger] c[j]).severity == Severity::Error,
{
    assert(b == c.subrange(0, b.len() as int));
    assert forall|j: int| a.len() <= j < c.len() implies (#[trigger] c[j]).severity
        == Severity::Error by {
        if j < b.len() {
            assert(c[j] == c.subrange(0, b.len() as int)[j]);
        }
    }
    assert(a.is_prefix_of(c)) by {
        assert(a == b.subrange(0, a.len() as int));
        assert forall|j: int| 0 <= j < a.len() implies c.subrange(0, a.len() as int)[j]
            == a[j] by {
            assert(c[j] == c.subrange(0, b.len() as int)[j]);
        }
        assert(a =~= c.subrange(0, a.len() as int));
    }
}

/// The prefix operator a token opens, if any.
pub open spec fn unary_op_of(k: TokenKind) -> Option<UnaryOp> {
    match k {
        TokenKind::Operator(OperatorKind::Plus) => Some(UnaryOp::Plus),
        TokenKind::Operator(OperatorKind::Minus) => Some(UnaryOp::Minus),
        TokenKind::Operator(OperatorKind::Not) => Some(UnaryOp::Not),
        _ => None,
    }
}

/// Whether the token is a literal or a name: a one-token primary.
pub open spec fn operand_token(k: TokenKind) -> bool {
    k == TokenKind::Number || k == TokenKind::StringLiteral || k == TokenKind::Identifier
}

/// The expression a one-token primary becomes.
pub open spec fn primary_token_result(e: Expr, b: Seq<u8>, t: Token) -> bool {
    match t.kind {
        TokenKind::Number => is_number_literal(e, b, t.span),
        TokenKind::StringLiteral => is_string_literal(e, b, t.span),
        TokenKind::Identifier => is_identifier_expr(e, b, t.span),
        _ => false,
    }
}

/// A literal or name token that stands alone: the token after it opens no
/// infix operator.
pub open spec fn lone_operand_at(toks: Seq<Token>, pos: int) -> bool {
    operand_token(toks[pos].kind) && binop_of(toks[pos + 1].kind) is None
}

/// A two-operand infix form standing alone: operand, infix operator,
/// operand, and then no further infix operator.
pub open spec fn operand_op_operand_at(toks: Seq<Token>, pos: int) -> bool {
    &&& operand_token(toks[pos].kind)
    &&& binop_of(toks[pos + 1].kind) is Some
    &&& operand_token(toks[pos + 2].kind)
    &&& binop_of(toks[pos + 3].kind) is None
}

/// The expression a lone two-operand infix form becomes: the infix node of
/// the operator the middle token opens, over the two one-token primaries,
/// spanning from the first to the second operand.
pub open spec fn binary_pair_result(e: Expr, b: Seq<u8>, toks: Seq<Token>, pos: int) -> bool {
    match e {
        Expr::Binary { op, lhs, rhs, span } => {
            &&& (match binop_of(toks[pos + 1].kind) {
                Some(x) => op == x.0,
                None => false,
            })
            &&& primary_token_result(*lhs, b, toks[pos])
            &&& primary_token_result(*rhs, b, toks[pos + 2])
            &&& span == Span { start: toks[pos].span.start, end: toks[pos + 2].span.end }
        },
        _ => false,
    }
}

/// A three-operand infix form standing alone whose second operator binds
/// tighter than the first.
pub open spec fn rising_triple_at(toks: Seq<Token>, pos: int) -> bool {
    &&& operand_token(toks[pos].kind)
    &&& binop_of(toks[pos + 1].kind) is Some
    &&& operand_token(toks[pos + 2].kind)
    &&& binop_of(toks[pos + 3].kind) is Some
    &&& operand_token(toks[pos + 4].kind)
    &&& binop_of(toks[pos + 5].kind) is None
    &&& (match (binop_of(toks[pos + 1].kind), binop_of(toks[pos + 3].kind)) {
        (Some(x), Some(y)) => y.1 > x.1,
        _ => false,
    })
}

/// What a rising triple parses to: the tighter right pair groups together
/// under the looser first operator.
pub open spec fn rising_triple_result(e: Expr, b: Seq<u8>, toks: Seq<Token>, pos: int) -> bool {
    match e {
        Expr::Binary { op, lhs, rhs, span } => {
            &&& (match binop_of(toks[pos + 1].kind) {
                Some(x) => op == x.0,
                None => false,
            })
            &&& primary_token_result(*lhs, b, toks[pos])
            &&& binary_pair_result(*rhs, b, toks, pos + 2)
            &&& span == Span { start: toks[pos].span.start, end: toks[pos + 4].span.end }
        },
        _ => false,
    }
}

/// A three-operand infix form standing alone whose second operator binds
/// no tighter than the first.
pub open spec fn level_triple_at(toks: Seq<Token>, pos: int) -> bool {
    &&& operand_token(toks[pos].kind)
    &&& binop_of(toks[pos + 1].kind) is Some
    &&& operand_token(toks[pos + 2].kind)
    &&& binop_of(toks[pos + 3].kind) is Some
    &&& operand_token(toks[pos + 4].kind)
    &&& binop_of(toks[pos + 5].kind) is None
    &&& (match (binop_of(toks[pos + 1].kind), binop_of(toks[pos + 3].kind)) {
        (Some(x), Some(y)) => y.1 <= x.1,
        _ => false,
    })
}

/// What a level triple parses to: the left pair groups together under the
/// second operator — every level is left-associative.
pub open spec fn level_triple_result(e: Expr, b: Seq<u8>, toks: Seq<Token>, pos: int) -> bool {
    match e {
        Expr::Binary { op, lhs, rhs, span } => {
            &&& (match binop_of(toks[pos + 3].kind) {
                Some(y) => op == y.0,
                None => false,
            })
            &&& binary_pair_result(*lhs, b, toks, pos)
            &&& primary_token_result(*rhs, b, toks[pos + 4])
            &&& span == Span { start: toks[pos].span.start, end: toks[pos + 4].span.end }
        },
        _ => false,
    }
}

/// Whether the token opens one of the keyword- or punctuation-led
/// statement forms; everything else is parsed as an expression statement.
pub open spec fn starts_special_statement(k: TokenKind) -> bool {
    ||| k matches TokenKind::Keyword(
        KeywordKind::Gyy | KeywordKind::Uchastkoviy | KeywordKind::YasenHuy,
    )
    ||| k == TokenKind::Keyword(KeywordKind::Vilkoyvglaz)
    ||| k == TokenKind::Punctuation(PunctuationKind::LBrace)
    ||| k == TokenKind::Punctuation(PunctuationKind::Semicolon)
}

// --- The parser -------------------------------------------------------------
/// The parser: a cursor over a well-formed token stream, the source the
/// tokens point into, and the diagnostics collected so far. One-shot;
/// `parse_program` consumes it.
pub struct Parser<'a> {
    tokens: &'a [Token],
    source: &'a SourceFile,
    position: usize,
    diagnostics: Vec<Diagnostic>,
}

impl<'a> Parser<'a> {
    /// The token stream under the cursor.
    pub closed spec fn toks(&self) -> Seq<Token> {
        self.tokens@
    }

    /// The byte buffer of the source the tokens point into.
    pub closed spec fn buf(&self) -> Seq<u8> {
        self.source.bytes()
    }

    /// The cursor.
    pub closed spec fn spec_position(&self) -> int {
        self.position as int
    }

    /// The diagnostics collected so far.
    pub closed spec fn spec_diagnostics(&self) -> Seq<DiagView> {
        self.diagnostics.deep_view()
    }

    /// The stream is well formed for the source and the cursor is on a
    /// token; the guaranteed final `Eof` keeps it there.
    pub closed spec fn wf(&self) -> bool {
        &&& token_stream_wf(self.tokens@, self.source.bytes())
        &&& self.position < self.tokens@.len()
        &&& self.tokens@.len() <= usize::MAX
        &&& self.source.bytes().len() <= usize::MAX
    }

    /// What every parsing step preserves: the stream and source stay put,
    /// the cursor only moves forward, and diagnostics are only appended —
    /// and every diagnostic the parser itself appends is an error.
    spec fn frame(pre: Self, post: Self) -> bool {
        &&& post.wf()
        &&& post.tokens == pre.tokens
        &&& post.source == pre.source
        &&& pre.position <= post.position
        &&& pre.diagnostics.deep_view().is_prefix_of(post.diagnostics.deep_view())
        &&& forall|j: int|
            pre.diagnostics.deep_view().len() <= j < post.diagnostics.deep_view().len() ==> (
            #[trigger] post.diagnostics.deep_view()[j]).severity == Severity::Error
    }

    /// The token under the cursor.
    spec fn cur(&self) -> Token {
        self.tokens@[self.position as int]
    }

    /// Whether the cursor is at the final `Eof` token.
    pub closed spec fn spec_at_end(&self) -> bool {
        self.tokens@[self.position as int].kind == TokenKind::Eof
    }

    pub fn new(tokens: &'a [Token], source: &'a SourceFile) -> (r: Parser<'a>)
        requires
            token_stream_wf(tokens@, source.bytes()),
        ensures
            r.wf(),
            r.toks() == tokens@,
            r.buf() == source.bytes(),
            r.spec_position() == 0,
            r.spec_diagnostics() =~= Seq::<DiagView>::empty(),
    {
        // the lengths of the real slices witness the bounds `wf` asks for
        let n = tokens.len();
        let nb = source.source.as_str().as_bytes().len();
        proof {
            assert(tokens@.len() == n && source.bytes().len() == nb);
        }
        Parser { tokens, source, position: 0, diagnostics: Vec::new() }
    }

    /// The token under the cursor; the stream's final `Eof` stops the
    /// cursor from ever running past it.
    fn current(&self) -> (t: &Token)
        requires
            self.wf(),
        ensures
            *t == self.cur(),
    {
        &self.tokens[self.position]
    }

    /// Whether the cursor is at the final `Eof`.
    fn is_at_end(&self) -> (r: bool)
        requires
            self.wf(),
        ensures
            r == self.spec_at_end(),
    {
        matches!(self.current().kind, TokenKind::Eof)
    }

    /// Moves past the current token, except at the final `Eof`.
    fn advance(&mut self)
        requires
            old(self).wf(),
        ensures
            Self::frame(*old(self), *final(self)),
            final(self).diagnostics == old(self).diagnostics,
            old(self).spec_at_end() ==> final(self).position == old(self).position,
            !old(self).spec_at_end() ==> final(self).position == old(self).position + 1,
    {
        if !self.is_at_end() {
            proof {
                assert(self.tokens@[self.position as int].kind != TokenKind::Eof);
                assert(self.position < self.tokens@.len() - 1);
            }
            self.position = self.position + 1;
        }
    }

    /// Records an error diagnostic against `span`.
    fn push_error(&mut self, span: Span, message: String)
        ensures
            final(self).tokens == old(self).tokens,
            final(self).source == old(self).source,
            final(self).position == old(self).position,
            final(self).diagnostics.deep_view() == old(self).diagnostics.deep_view().push(
                DiagView { severity: Severity::Error, message: message@, span },
            ),
            old(self).diagnostics.deep_view().is_prefix_of(final(self).diagnostics.deep_view()),
            final(self).wf() == old(self).wf(),
    {
        let ghost d0 = self.diagnostics.deep_view();
        let ghost m = message@;
        self.diagnostics.push(Diagnostic { severity: Severity::Error, message, span });
        proof {
            assert(self.diagnostics.deep_view() =~= d0.push(
                DiagView { severity: Severity::Error, message: m, span },
            ));
            assert(self.diagnostics.deep_view().take(d0.len() as int) =~= d0);
        }
    }

    /// Panic-mode recovery: walks forward until a statement boundary was
    /// just crossed (a `;` or `}` behind the cursor), a token that can open
    /// a statement is reached (a keyword or `{`), or the stream ends.
    fn synchronize(&mut self)
        requires
            old(self).wf(),
        ensures
            Self::frame(*old(self), *final(self)),
            final(self).diagnostics == old(self).diagnostics,
            ({
                let post = *final(self);
                ||| post.spec_at_end()
                ||| (post.position > 0 && post.tokens@[post.position - 1].kind
                    matches TokenKind::Punctuation(
                    PunctuationKind::Semicolon | PunctuationKind::RBrace,
                ))
                ||| post.cur().kind matches TokenKind::Keyword(_)
                ||| post.cur().kind == TokenKind::Punctuation(PunctuationKind::LBrace)
            }),
    {
        while !self.is_at_end()
            invariant
                self.wf(),
                self.tokens == old(self).tokens,
                self.source == old(self).source,
                self.diagnostics == old(self).diagnostics,
                old(self).position <= self.position,
            decreases self.tokens@.len() - self.position,
        {
            if self.position > 0 {
                let prev = &self.tokens[self.position - 1];
                if matches!(
                    prev.kind,
                    TokenKind::Punctuation(PunctuationKind::Semicolon)
                        | TokenKind::Punctuation(PunctuationKind::RBrace)
                ) {
                    return ;
                }
            }
            match &self.current().kind {
                TokenKind::Keyword(_) => {
                    return ;
                },
                TokenKind::Punctuation(PunctuationKind::LBrace) => {
                    return ;
                },
                _ => {
                    self.advance();
                },
            }
        }
    }
}

// --- Expressions ------------------------------------------------------------
impl<'a> Parser<'a> {
    /// What parsing one expression consumed: it starts at the token the
    /// cursor stood on and ends at the last token taken.
    spec fn consumed(pre: Self, post: Self, sp: Span) -> bool {
        &&& post.position > pre.position
        &&& sp.start == pre.tokens@[pre.position as int].span.start
        &&& sp.end == pre.tokens@[post.position - 1].span.end
    }

    /// The infix operator under the cursor, with its precedence.
    fn try_parse_binary_op(&self) -> (r: Option<(BinaryOp, u8)>)
        requires
            self.wf(),
        ensures
            r == binop_of(self.cur().kind),
            r matches Some(x) ==> 1 <= x.1 <= 7,
    {
        let op_kind = match &self.current().kind {
            TokenKind::Operator(o) => o,
            _ => {
                return None;
            },
        };
        match op_kind {
            OperatorKind::Assign => Some((BinaryOp::Assign, 1)),
            OperatorKind::Or => Some((BinaryOp::Or, 2)),
            OperatorKind::And => Some((BinaryOp::And, 3)),
            OperatorKind::Equals => Some((BinaryOp::Equals, 4)),
            OperatorKind::StrictEquals => Some((BinaryOp::StrictEquals, 4)),
            OperatorKind::NotEquals => Some((BinaryOp::NotEquals, 4)),
            OperatorKind::StrictNotEquals => Some((BinaryOp::StrictNotEquals, 4)),
            OperatorKind::Less => Some((BinaryOp::Less, 5)),
            OperatorKind::Greater => Some((BinaryOp::Greater, 5)),
            OperatorKind::LessOrEqual => Some((BinaryOp::LessOrEqual, 5)),
            OperatorKind::GreaterOrEqual => Some((BinaryOp::GreaterOrEqual, 5)),
            OperatorKind::Plus => Some((BinaryOp::Add, 6)),
            OperatorKind::Minus => Some((BinaryOp::Sub, 6)),
            OperatorKind::Multiply => Some((BinaryOp::Mul, 7)),
            OperatorKind::Divide => Some((BinaryOp::Div, 7)),
            OperatorKind::Modulo => Some((BinaryOp::Mod, 7)),
            OperatorKind::Not => None,
        }
    }

    /// A `Number` token becomes a number literal keeping its lexeme.
    fn parse_number(&mut self) -> (e: Expr)
        requires
            old(self).wf(),
            old(self).cur().kind == TokenKind::Number,
        ensures
            Self::frame(*old(self), *final(self)),
            final(self).diagnostics == old(self).diagnostics,
            final(self).position == old(self).position + 1,
            is_number_literal(e, old(self).buf(), old(self).cur().span),
            expr_wf(e, old(self).buf().len() as int),
            e.spec_span() == old(self).cur().span,
    {
        proof {
            assert(span_on_boundaries(self.tokens@[self.position as int].span, self.buf()));
        }
        let span = self.current().span;
        let raw = self.source.slice(span).to_owned();
        self.advance();
        Expr::Literal(Literal::Number { raw, span })
    }

    /// A `StringLiteral` token becomes a string literal holding the content
    /// between the quotes.
    fn parse_string(&mut self) -> (e: Expr)
        requires
            old(self).wf(),
            old(self).cur().kind == TokenKind::StringLiteral,
        ensures
            Self::frame(*old(self), *final(self)),
            final(self).diagnostics == old(self).diagnostics,
            final(self).position == old(self).position + 1,
            is_string_literal(e, old(self).buf(), old(self).cur().span),
            expr_wf(e, old(self).buf().len() as int),
            e.spec_span() == old(self).cur().span,
    {
        proof {
            broadcast use encode_utf8_valid_utf8;
            broadcast use encode_utf8_decode_utf8;

            assert(span_on_boundaries(self.tokens@[self.position as int].span, self.buf()));
        }
        let ghost b = self.buf();
        let span = self.current().span;
        let ghost sub = b.subrange(span.start as int, span.end as int);
        let raw = self.source.slice(span);
        let len = raw.len();
        let value: String;
        if len >= 2 && raw.is_char_boundary(1) && raw.is_char_boundary(len - 1) {
            proof {
                crate::source::lemma_boundary_in_suffix(b, span.start as int, span.end as int);
                valid_utf8_split(b, span.start as int);
                let suffix = b.subrange(span.start as int, b.len() as int);
                valid_utf8_split(suffix, span.end - span.start);
                assert(suffix.subrange(0, span.end - span.start) =~= sub);
                assert(valid_utf8(sub));
                crate::source::lemma_boundary_in_suffix(sub, 1, len - 1);
            }
            let (_, tail) = raw.split_at(1);
            proof {
                assert(tail.spec_bytes() =~= sub.subrange(1, sub.len() as int));
            }
            let (mid, _) = tail.split_at(len - 2);
            proof {
                assert(mid.spec_bytes() =~= sub.subrange(1, sub.len() - 1));
                valid_utf8_split(sub, 1);
                let sub_tail = sub.subrange(1, sub.len() as int);
                valid_utf8_split(sub_tail, len - 2);
                assert(sub_tail.subrange(0, len - 2) =~= mid.spec_bytes());
                assert(valid_utf8(mid.spec_bytes()));
                assert(decode_utf8(mid.spec_bytes()) == mid@);
                assert(mid@ == string_content(sub));
            }
            value = mid.to_owned();
        } else {
            value = String::new();
            proof {
                assert(string_content(sub) =~= Seq::<char>::empty());
            }
        }
        self.advance();
        Expr::Literal(Literal::String { value, span })
    }

    /// An `Identifier` token becomes an identifier; anything else is an
    /// error.
    fn parse_identifier(&mut self) -> (r: Result<Identifier, ()>)
        requires
            old(self).wf(),
        ensures
            Self::frame(*old(self), *final(self)),
            match r {
                Ok(id) => {
                    &&& old(self).cur().kind == TokenKind::Identifier
                    &&& final(self).diagnostics == old(self).diagnostics
                    &&& final(self).position == old(self).position + 1
                    &&& id.span == old(self).cur().span
                    &&& id.name@ == decode_utf8(
                        old(self).buf().subrange(
                            old(self).cur().span.start as int,
                            old(self).cur().span.end as int,
                        ),
                    )
                    &&& span_in(id.span, old(self).buf().len() as int)
                },
                Err(_) => {
                    &&& old(self).cur().kind != TokenKind::Identifier
                    &&& final(self).position == old(self).position
                    &&& final(self).diagnostics.deep_view() == old(
                        self,
                    ).diagnostics.deep_view().push(
                        DiagView {
                            severity: Severity::Error,
                            message: msg_expected_identifier(),
                            span: old(self).cur().span,
                        },
                    )
                },
            },
    {
        proof {
            assert(span_on_boundaries(self.tokens@[self.position as int].span, self.buf()));
        }
        if !matches!(self.current().kind, TokenKind::Identifier) {
            let span = self.current().span;
            self.push_error(span, "Ожидался идентификатор".to_owned());
            return Err(());
        }
        let span = self.current().span;
        let name = self.source.slice(span).to_owned();
        self.advance();
        Ok(Identifier { name, span })
    }

    /// A parenthesised expression: `(`, the inner expression, `)`.
    fn parse_grouping(&mut self) -> (r: Result<Expr, ()>)
        requires
            old(self).wf(),
            old(self).cur().kind == TokenKind::Punctuation(PunctuationKind::LParen),
        ensures
            Self::frame(*old(self), *final(self)),
            (operand_token(old(self).tokens@[old(self).position + 1].kind) && old(
                self,
            ).tokens@[old(self).position + 2].kind == TokenKind::Punctuation(
                PunctuationKind::RParen,
            )) ==> r is Ok && final(self).position == old(self).position + 3,
            match r {
                Ok(e) => {
                    &&& expr_wf(e, old(self).buf().len() as int)
                    &&& Self::consumed(*old(self), *final(self), e.spec_span())
                    &&& final(self).diagnostics == old(self).diagnostics
                    &&& e matches Expr::Grouping { .. }
                    &&& (e matches Expr::Grouping { expr, .. } ==> expr.spec_span().start == old(
                        self,
                    ).tokens@[old(self).position + 1].span.start)
                },
                Err(_) => final(self).diagnostics.deep_view().len() > old(
                    self,
                ).diagnostics.deep_view().len(),
            },
        decreases old(self).tokens@.len() - old(self).position, 2int,
    {
        let ghost pre = *self;
        let start = self.current().span.start;
        self.advance();
        let expr = match self.parse_expression_with_precedence(0) {
            Ok(e) => e,
            Err(()) => {
                return Err(());
            },
        };
        if !matches!(self.current().kind, TokenKind::Punctuation(PunctuationKind::RParen)) {
            let span = self.current().span;
            self.push_error(span, "Ожидался ')'".to_owned());
            return Err(());
        }
        proof {
            assert(span_on_boundaries(self.tokens@[self.position as int].span, self.buf()));
            lemma_token_stream_order(self.tokens@, self.buf(), pre.position as int, pre.position + 1);
            lemma_token_stream_order(
                self.tokens@,
                self.buf(),
                self.position - 1,
                self.position as int,
            );
            assert(span_on_boundaries(self.tokens@[pre.position as int].span, self.buf()));
        }
        let end = self.current().span.end;
        self.advance();
        Ok(Expr::Grouping { expr: Box::new(expr), span: Span { start, end } })
    }

    /// A primary expression: a literal, an identifier, or a grouping.
    /// Anything else raises one unexpected-token diagnostic and fails.
    fn parse_primary(&mut self) -> (r: Result<Expr, ()>)
        requires
            old(self).wf(),
        ensures
            Self::frame(*old(self), *final(self)),
            operand_token(old(self).cur().kind) ==> r is Ok,
            (old(self).cur().kind == TokenKind::Punctuation(PunctuationKind::LParen)
                && operand_token(old(self).tokens@[old(self).position + 1].kind) && old(
                self,
            ).tokens@[old(self).position + 2].kind == TokenKind::Punctuation(
                PunctuationKind::RParen,
            )) ==> r is Ok,
            match r {
                Ok(e) => {
                    &&& expr_wf(e, old(self).buf().len() as int)
                    &&& Self::consumed(*old(self), *final(self), e.spec_span())
                    &&& final(self).diagnostics == old(self).diagnostics
                    &&& (operand_token(old(self).cur().kind)
                        ==> final(self).position == old(self).position + 1
                        && primary_token_result(e, old(self).buf(), old(self).cur()))
                    &&& (old(self).cur().kind == TokenKind::Punctuation(PunctuationKind::LParen)
                        ==> e matches Expr::Grouping { .. })
                },
                Err(_) => {
                    &&& final(self).diagnostics.deep_view().len() > old(
                        self,
                    ).diagnostics.deep_view().len()
                    &&& old(self).cur().kind != TokenKind::Number
                    &&& old(self).cur().kind != TokenKind::StringLiteral
                    &&& old(self).cur().kind != TokenKind::Identifier
                },
            },
            old(self).cur().kind != TokenKind::Number && old(self).cur().kind
                != TokenKind::StringLiteral && old(self).cur().kind != TokenKind::Identifier && old(
                self,
            ).cur().kind != TokenKind::Punctuation(PunctuationKind::LParen) ==> (r is Err
                && final(self).position == old(self).position
                && final(self).diagnostics.deep_view() == old(self).diagnostics.deep_view().push(
                DiagView {
                    severity: Severity::Error,
                    message: msg_unexpected_token(old(self).cur().kind),
                    span: old(self).cur().span,
                },
            )),
        decreases old(self).tokens@.len() - old(self).position, 3int,
    {
        match &self.current().kind {
            TokenKind::Number => Ok(self.parse_number()),
            TokenKind::StringLiteral => Ok(self.parse_string()),
            TokenKind::Identifier => match self.parse_identifier() {
                Ok(id) => Ok(Expr::Identifier(id)),
                Err(e) => Err(e),
            },
            TokenKind::Punctuation(PunctuationKind::LParen) => self.parse_grouping(),
            _ => {
                let span = self.current().span;
                let kind = self.current().kind;
                let msg = concat_strs("Неожиданный токен: ", kind_label_str(kind));
                self.push_error(span, msg);
                Err(())
            },
        }
    }

    /// A prefix form: `+`, `-` or `!` binding a prefix expression, or a
    /// primary.
    fn parse_prefix(&mut self) -> (r: Result<Expr, ()>)
        requires
            old(self).wf(),
        ensures
            Self::frame(*old(self), *final(self)),
            operand_token(old(self).cur().kind) ==> r is Ok,
            (unary_op_of(old(self).cur().kind) is Some && lone_operand_at(
                old(self).tokens@,
                old(self).position + 1,
            )) ==> (r is Ok && final(self).position == old(self).position + 2),
            match r {
                Ok(e) => {
                    &&& expr_wf(e, old(self).buf().len() as int)
                    &&& Self::consumed(*old(self), *final(self), e.spec_span())
                    &&& final(self).diagnostics == old(self).diagnostics
                    &&& (operand_token(old(self).cur().kind)
                        ==> final(self).position == old(self).position + 1
                        && primary_token_result(e, old(self).buf(), old(self).cur()))
                    &&& (unary_op_of(old(self).cur().kind) matches Some(u) ==> (e
                        matches Expr::Unary { op, .. } && op == u))
                    &&& ((unary_op_of(old(self).cur().kind) is Some && lone_operand_at(
                        old(self).tokens@,
                        old(self).position + 1,
                    )) ==> (e matches Expr::Unary { expr, .. } ==> primary_token_result(
                        *expr,
                        old(self).buf(),
                        old(self).tokens@[old(self).position + 1],
                    )))
                },
                Err(_) => final(self).diagnostics.deep_view().len() > old(
                    self,
                ).diagnostics.deep_view().len(),
            },
        decreases old(self).tokens@.len() - old(self).position, 4int,
    {
        let ghost pre = *self;
        let op: UnaryOp = match &self.current().kind {
            TokenKind::Operator(OperatorKind::Plus) => UnaryOp::Plus,
            TokenKind::Operator(OperatorKind::Minus) => UnaryOp::Minus,
            TokenKind::Operator(OperatorKind::Not) => UnaryOp::Not,
            _ => {
                return self.parse_primary();
            },
        };
        let start = self.current().span.start;
        self.advance();
        let expr = match self.parse_expression_with_precedence(UNARY_PRECEDENCE) {
            Ok(e) => e,
            Err(()) => {
                return Err(());
            },
        };
        proof {
            assert(span_on_boundaries(self.tokens@[pre.position as int].span, self.buf()));
            lemma_token_stream_order(self.tokens@, self.buf(), pre.position as int, pre.position + 1);
        }
        let end = expr.span().end;
        Ok(Expr::Unary { op, expr: Box::new(expr), span: Span { start, end } })
    }

    /// Precedence climbing: a prefix form, then greedily every infix
    /// operator whose precedence reaches `min_precedence`, each right
    /// operand parsed one level tighter, which makes every level
    /// left-associative.
    fn parse_expression_with_precedence(&mut self, min_precedence: u8) -> (r: Result<Expr, ()>)
        requires
            old(self).wf(),
        ensures
            Self::frame(*old(self), *final(self)),
            lone_operand_at(old(self).tokens@, old(self).position as int) ==> r is Ok,
            (operand_op_operand_at(old(self).tokens@, old(self).position as int) && (
            match binop_of(old(self).tokens@[old(self).position + 1].kind) {
                Some(x) => x.1 >= min_precedence,
                None => false,
            })) ==> (r is Ok && final(self).position == old(self).position + 3),
            (rising_triple_at(old(self).tokens@, old(self).position as int) && (
            match binop_of(old(self).tokens@[old(self).position + 1].kind) {
                Some(x) => x.1 >= min_precedence,
                None => false,
            })) ==> (r is Ok && final(self).position == old(self).position + 5),
            (operand_token(old(self).tokens@[old(self).position as int].kind) && (
            match binop_of(old(self).tokens@[old(self).position + 1].kind) {
                Some(x) => x.1 < min_precedence,
                None => true,
            })) ==> (r is Ok && final(self).position == old(self).position + 1),
            (unary_op_of(old(self).tokens@[old(self).position as int].kind) is Some
                && lone_operand_at(old(self).tokens@, old(self).position + 1) && binop_of(
                old(self).tokens@[old(self).position + 2].kind,
            ) is None) ==> (r is Ok && final(self).position == old(self).position + 2),
            (level_triple_at(old(self).tokens@, old(self).position as int) && (
            match binop_of(old(self).tokens@[old(self).position + 3].kind) {
                Some(y) => y.1 >= min_precedence,
                None => false,
            })) ==> (r is Ok && final(self).position == old(self).position + 5),
            match r {
                Ok(e) => {
                    &&& expr_wf(e, old(self).buf().len() as int)
                    &&& Self::consumed(*old(self), *final(self), e.spec_span())
                    &&& final(self).diagnostics == old(self).diagnostics
                    &&& (lone_operand_at(old(self).tokens@, old(self).position as int)
                        ==> final(self).position == old(self).position + 1
                        && primary_token_result(
                        e,
                        old(self).buf(),
                        old(self).tokens@[old(self).position as int],
                    ))
                    &&& ((operand_op_operand_at(old(self).tokens@, old(self).position as int) && (
                    match binop_of(old(self).tokens@[old(self).position + 1].kind) {
                        Some(x) => x.1 >= min_precedence,
                        None => false,
                    })) ==> binary_pair_result(
                        e,
                        old(self).buf(),
                        old(self).tokens@,
                        old(self).position as int,
                    ))
                    &&& ((rising_triple_at(old(self).tokens@, old(self).position as int) && (
                    match binop_of(old(self).tokens@[old(self).position + 1].kind) {
                        Some(x) => x.1 >= min_precedence,
                        None => false,
                    })) ==> rising_triple_result(
                        e,
                        old(self).buf(),
                        old(self).tokens@,
                        old(self).position as int,
                    ))
                    &&& ((operand_token(old(self).tokens@[old(self).position as int].kind) && (
                    match binop_of(old(self).tokens@[old(self).position + 1].kind) {
                        Some(x) => x.1 < min_precedence,
                        None => true,
                    })) ==> primary_token_result(
                        e,
                        old(self).buf(),
                        old(self).tokens@[old(self).position as int],
                    ))
                    &&& ((level_triple_at(old(self).tokens@, old(self).position as int) && (
                    match binop_of(old(self).tokens@[old(self).position + 3].kind) {
                        Some(y) => y.1 >= min_precedence,
                        None => false,
                    })) ==> level_triple_result(
                        e,
                        old(self).buf(),
                        old(self).tokens@,
                        old(self).position as int,
                    ))
                    &&& ((unary_op_of(old(self).tokens@[old(self).position as int].kind) is Some
                        && lone_operand_at(old(self).tokens@, old(self).position + 1) && binop_of(
                        old(self).tokens@[old(self).position + 2].kind,
                    ) is None) ==> (e matches Expr::Unary { op, expr, span } ==> Some(op)
                        == unary_op_of(old(self).tokens@[old(self).position as int].kind)
                        && primary_token_result(
                        *expr,
                        old(self).buf(),
                        old(self).tokens@[old(self).position + 1],
                    )))
                },
                Err(_) => final(self).diagnostics.deep_view().len() > old(
                    self,
                ).diagnostics.deep_view().len(),
            },
        decreases old(self).tokens@.len() - old(self).position, 5int,
    {
        let ghost pre = *self;
        let ghost n = self.buf().len() as int;
        let mut lhs = match self.parse_prefix() {
            Ok(e) => e,
            Err(()) => {
                return Err(());
            },
        };
        loop
            invariant_except_break
                pre == *old(self),
                self.wf(),
                self.tokens == pre.tokens,
                self.source == pre.source,
                self.diagnostics == pre.diagnostics,
                pre.position < self.position,
                n == self.buf().len() as int,
                expr_wf(lhs, n),
                lhs.spec_span().start == self.tokens@[pre.position as int].span.start,
                lhs.spec_span().end == self.tokens@[self.position - 1].span.end,
                lone_operand_at(pre.tokens@, pre.position as int) ==> (self.position
                    == pre.position + 1 && primary_token_result(
                    lhs,
                    self.buf(),
                    pre.tokens@[pre.position as int],
                )),
                (operand_op_operand_at(pre.tokens@, pre.position as int) && (
                match binop_of(pre.tokens@[pre.position + 1].kind) {
                    Some(x) => x.1 >= min_precedence,
                    None => false,
                })) ==> ((self.position == pre.position + 1 && primary_token_result(
                    lhs,
                    self.buf(),
                    pre.tokens@[pre.position as int],
                )) || (self.position == pre.position + 3 && binary_pair_result(
                    lhs,
                    self.buf(),
                    pre.tokens@,
                    pre.position as int,
                ))),
                (rising_triple_at(pre.tokens@, pre.position as int) && (
                match binop_of(pre.tokens@[pre.position + 1].kind) {
                    Some(x) => x.1 >= min_precedence,
                    None => false,
                })) ==> ((self.position == pre.position + 1 && primary_token_result(
                    lhs,
                    self.buf(),
                    pre.tokens@[pre.position as int],
                )) || (self.position == pre.position + 5 && rising_triple_result(
                    lhs,
                    self.buf(),
                    pre.tokens@,
                    pre.position as int,
                ))),
                (operand_token(pre.tokens@[pre.position as int].kind) && (
                match binop_of(pre.tokens@[pre.position + 1].kind) {
                    Some(x) => x.1 < min_precedence,
                    None => true,
                })) ==> (self.position == pre.position + 1 && primary_token_result(
                    lhs,
                    self.buf(),
                    pre.tokens@[pre.position as int],
                )),
                (level_triple_at(pre.tokens@, pre.position as int) && (
                match binop_of(pre.tokens@[pre.position + 3].kind) {
                    Some(y) => y.1 >= min_precedence,
                    None => false,
                })) ==> ((self.position == pre.position + 1 && primary_token_result(
                    lhs,
                    self.buf(),
                    pre.tokens@[pre.position as int],
                )) || (self.position == pre.position + 3 && binary_pair_result(
                    lhs,
                    self.buf(),
                    pre.tokens@,
                    pre.position as int,
                )) || (self.position == pre.position + 5 && level_triple_result(
                    lhs,
                    self.buf(),
                    pre.tokens@,
                    pre.position as int,
                ))),
                (unary_op_of(pre.tokens@[pre.position as int].kind) is Some && lone_operand_at(
                    pre.tokens@,
                    pre.position + 1,
                ) && binop_of(pre.tokens@[pre.position + 2].kind) is None) ==> (self.position
                    == pre.position + 2 && (lhs matches Expr::Unary { op, expr, span } ==> Some(
                    op,
                ) == unary_op_of(pre.tokens@[pre.position as int].kind) && primary_token_result(
                    *expr,
                    self.buf(),
                    pre.tokens@[pre.position + 1],
                )) && lhs matches Expr::Unary { .. }),
            ensures
                self.wf(),
                self.tokens == pre.tokens,
                self.source == pre.source,
                self.diagnostics == pre.diagnostics,
                pre.position < self.position,
                expr_wf(lhs, n),
                lhs.spec_span().start == self.tokens@[pre.position as int].span.start,
                lhs.spec_span().end == self.tokens@[self.position - 1].span.end,
                lone_operand_at(pre.tokens@, pre.position as int) ==> (self.position
                    == pre.position + 1 && primary_token_result(
                    lhs,
                    self.buf(),
                    pre.tokens@[pre.position as int],
                )),
                (operand_op_operand_at(pre.tokens@, pre.position as int) && (
                match binop_of(pre.tokens@[pre.position + 1].kind) {
                    Some(x) => x.1 >= min_precedence,
                    None => false,
                })) ==> (self.position == pre.position + 3 && binary_pair_result(
                    lhs,
                    self.buf(),
                    pre.tokens@,
                    pre.position as int,
                )),
                (rising_triple_at(pre.tokens@, pre.position as int) && (
                match binop_of(pre.tokens@[pre.position + 1].kind) {
                    Some(x) => x.1 >= min_precedence,
                    None => false,
                })) ==> (self.position == pre.position + 5 && rising_triple_result(
                    lhs,
                    self.buf(),
                    pre.tokens@,
                    pre.position as int,
                )),
                (operand_token(pre.tokens@[pre.position as int].kind) && (
                match binop_of(pre.tokens@[pre.position + 1].kind) {
                    Some(x) => x.1 < min_precedence,
                    None => true,
                })) ==> (self.position == pre.position + 1 && primary_token_result(
                    lhs,
                    self.buf(),
                    pre.tokens@[pre.position as int],
                )),
                (level_triple_at(pre.tokens@, pre.position as int) && (
                match binop_of(pre.tokens@[pre.position + 3].kind) {
                    Some(y) => y.1 >= min_precedence,
                    None => false,
                })) ==> (self.position == pre.position + 5 && level_triple_result(
                    lhs,
                    self.buf(),
                    pre.tokens@,
                    pre.position as int,
                )),
                (unary_op_of(pre.tokens@[pre.position as int].kind) is Some && lone_operand_at(
                    pre.tokens@,
                    pre.position + 1,
                ) && binop_of(pre.tokens@[pre.position + 2].kind) is None) ==> (self.position
                    == pre.position + 2 && (lhs matches Expr::Unary { op, expr, span } ==> Some(
                    op,
                ) == unary_op_of(pre.tokens@[pre.position as int].kind) && primary_token_result(
                    *expr,
                    self.buf(),
                    pre.tokens@[pre.position + 1],
                )) && lhs matches Expr::Unary { .. }),
            decreases self.tokens@.len() - self.position,
        {
            let opt = self.try_parse_binary_op();
            let (op, precedence) = match opt {
                Some(x) => x,
                None => {
                    break ;
                },
            };
            if precedence < min_precedence {
                break ;
            }
            proof {
                assert(self.cur().kind != TokenKind::Eof);
            }
            let ghost mid = *self;
            self.advance();
            let rhs = match self.parse_expression_with_precedence(precedence + 1) {
                Ok(e) => e,
                Err(()) => {
                    return Err(());
                },
            };
            proof {
                lemma_token_stream_order(
                    self.tokens@,
                    self.buf(),
                    mid.position - 1,
                    mid.position as int,
                );
                lemma_token_stream_order(
                    self.tokens@,
                    self.buf(),
                    mid.position as int,
                    mid.position + 1,
                );
                assert(span_on_boundaries(self.tokens@[mid.position as int].span, self.buf()));
            }
            let start = lhs.span().start;
            let end = rhs.span().end;
            lhs = Expr::Binary { op, lhs: Box::new(lhs), rhs: Box::new(rhs), span: Span {
                start,
                end,
            } };
        }
        Ok(lhs)
    }

    /// One whole expression, from the lowest precedence level. On success
    /// the tree is well formed, no diagnostic was raised, and the tree's
    /// span runs from the token the cursor stood on to the last token
    /// consumed; on failure at least one diagnostic was raised.
    pub fn parse_expr(&mut self) -> (r: Result<Expr, ()>)
        requires
            old(self).wf(),
        ensures
            final(self).wf(),
            final(self).toks() == old(self).toks(),
            final(self).buf() == old(self).buf(),
            old(self).spec_position() <= final(self).spec_position(),
            old(self).spec_diagnostics().is_prefix_of(final(self).spec_diagnostics()),
            lone_operand_at(old(self).toks(), old(self).spec_position()) ==> r is Ok,
            operand_op_operand_at(old(self).toks(), old(self).spec_position()) ==> (r is Ok
                && final(self).spec_position() == old(self).spec_position() + 3),
            rising_triple_at(old(self).toks(), old(self).spec_position()) ==> (r is Ok
                && final(self).spec_position() == old(self).spec_position() + 5),
            level_triple_at(old(self).toks(), old(self).spec_position()) ==> (r is Ok
                && final(self).spec_position() == old(self).spec_position() + 5),
            (unary_op_of(old(self).toks()[old(self).spec_position()].kind) is Some
                && lone_operand_at(old(self).toks(), old(self).spec_position() + 1) && binop_of(
                old(self).toks()[old(self).spec_position() + 2].kind,
            ) is None) ==> (r is Ok && final(self).spec_position() == old(self).spec_position()
                + 2),
            match r {
                Ok(e) => {
                    &&& expr_wf(e, old(self).buf().len() as int)
                    &&& final(self).spec_diagnostics() == old(self).spec_diagnostics()
                    &&& final(self).spec_position() > old(self).spec_position()
                    &&& e.spec_span().start == old(self).toks()[old(self).spec_position()].span.start
                    &&& e.spec_span().end == old(self).toks()[final(self).spec_position()
                        - 1].span.end
                    &&& (lone_operand_at(old(self).toks(), old(self).spec_position())
                        ==> final(self).spec_position() == old(self).spec_position() + 1
                        && primary_token_result(
                        e,
                        old(self).buf(),
                        old(self).toks()[old(self).spec_position()],
                    ))
                    &&& (operand_op_operand_at(old(self).toks(), old(self).spec_position())
                        ==> binary_pair_result(
                        e,
                        old(self).buf(),
                        old(self).toks(),
                        old(self).spec_position(),
                    ))
                    &&& (rising_triple_at(old(self).toks(), old(self).spec_position())
                        ==> rising_triple_result(
                        e,
                        old(self).buf(),
                        old(self).toks(),
                        old(self).spec_position(),
                    ))
                    &&& (level_triple_at(old(self).toks(), old(self).spec_position())
                        ==> level_triple_result(
                        e,
                        old(self).buf(),
                        old(self).toks(),
                        old(self).spec_position(),
                    ))
                    &&& ((unary_op_of(old(self).toks()[old(self).spec_position()].kind) is Some
                        && lone_operand_at(old(self).toks(), old(self).spec_position() + 1)
                        && binop_of(old(self).toks()[old(self).spec_position() + 2].kind) is None)
                        ==> (e matches Expr::Unary { op, expr, span } ==> Some(op) == unary_op_of(
                        old(self).toks()[old(self).spec_position()].kind,
                    ) && primary_token_result(
                        *expr,
                        old(self).buf(),
                        old(self).toks()[old(self).spec_position() + 1],
                    )))
                },
                Err(_) => final(self).spec_diagnostics().len() > old(self).spec_diagnostics().len(),
            },
        decreases old(self).toks().len() - old(self).spec_position(), 6int,
    {
        self.parse_expression_with_precedence(0)
    }

    /// The diagnostics collected so far.
    pub fn diagnostics(&self) -> (r: &[Diagnostic])
        ensures
            r.deep_view() == self.spec_diagnostics(),
    {
        let r = self.diagnostics.as_slice();
        proof {
            assert(r.deep_view() =~= self.diagnostics.deep_view());
        }
        r
    }
}

// --- Statements -------------------------------------------------------------
impl<'a> Parser<'a> {
    /// A variable declaration: one of the declaring keywords, a name, `=`,
    /// the initialiser, `;`.
    fn parse_var_decl(&mut self) -> (r: Result<Stmt, ()>)
        requires
            old(self).wf(),
            old(self).cur().kind matches TokenKind::Keyword(
                KeywordKind::Gyy | KeywordKind::Uchastkoviy | KeywordKind::YasenHuy,
            ),
        ensures
            Self::frame(*old(self), *final(self)),
            ({
                let toks = old(self).tokens@;
                let pos = old(self).position as int;
                &&& (toks[pos + 1].kind != TokenKind::Identifier ==> (r is Err
                    && final(self).position == old(self).position + 1
                    && final(self).diagnostics.deep_view() == old(
                    self,
                ).diagnostics.deep_view().push(
                    DiagView {
                        severity: Severity::Error,
                        message: msg_expected_identifier(),
                        span: toks[pos + 1].span,
                    },
                )))
                &&& ((toks[pos + 1].kind == TokenKind::Identifier && toks[pos + 2].kind
                    != TokenKind::Operator(OperatorKind::Assign)) ==> (r is Err
                    && final(self).position == old(self).position + 2
                    && final(self).diagnostics.deep_view() == old(
                    self,
                ).diagnostics.deep_view().push(
                    DiagView {
                        severity: Severity::Error,
                        message: msg_expected_assign(),
                        span: toks[pos + 2].span,
                    },
                )))
                &&& ((toks[pos + 1].kind == TokenKind::Identifier && toks[pos + 2].kind
                    == TokenKind::Operator(OperatorKind::Assign) && lone_operand_at(toks, pos + 3)
                    && toks[pos + 4].kind == TokenKind::Punctuation(PunctuationKind::Semicolon))
                    ==> (r is Ok && final(self).position == old(self).position + 5))
            }),
            match r {
                Ok(s) => {
                    &&& stmt_wf(s, old(self).buf().len() as int)
                    &&& Self::consumed(*old(self), *final(self), s.spec_span())
                    &&& final(self).diagnostics == old(self).diagnostics
                    &&& s matches Stmt::VarDecl { .. }
                    &&& (s matches Stmt::VarDecl { name, .. } ==> {
                        let id_span = old(self).tokens@[old(self).position + 1].span;
                        &&& name.span == id_span
                        &&& name.name@ == decode_utf8(
                            old(self).buf().subrange(id_span.start as int, id_span.end as int),
                        )
                    })
                    &&& ((lone_operand_at(old(self).tokens@, old(self).position + 3) && old(
                        self,
                    ).tokens@[old(self).position + 2].kind == TokenKind::Operator(
                        OperatorKind::Assign,
                    )) ==> (s matches Stmt::VarDecl { init, .. } ==> primary_token_result(
                        init,
                        old(self).buf(),
                        old(self).tokens@[old(self).position + 3],
                    )))
                },
                Err(_) => final(self).diagnostics.deep_view().len() > old(
                    self,
                ).diagnostics.deep_view().len(),
            },
        decreases old(self).tokens@.len() - old(self).position, 7int,
    {
        let ghost pre = *self;
        let start = self.current().span.start;
        self.advance();
        let name = match self.parse_identifier() {
            Ok(id) => id,
            Err(()) => {
                return Err(());
            },
        };
        if !matches!(self.current().kind, TokenKind::Operator(OperatorKind::Assign)) {
            let span = self.current().span;
            self.push_error(span, "Ожидался '=' после имени переменной".to_owned());
            return Err(());
        }
        let ghost assign_pos = self.position as int;
        self.advance();
        let init = match self.parse_expression_with_precedence(0) {
            Ok(e) => e,
            Err(()) => {
                return Err(());
            },
        };
        if !matches!(self.current().kind, TokenKind::Punctuation(PunctuationKind::Semicolon)) {
            let span = self.current().span;
            self.push_error(span, "Ожидалась ';' после объявления переменной".to_owned());
            return Err(());
        }
        proof {
            let ts = self.tokens@;
            let b = self.buf();
            assert(span_on_boundaries(ts[pre.position as int].span, b));
            assert(span_on_boundaries(ts[assign_pos].span, b));
            assert(span_on_boundaries(ts[self.position as int].span, b));
            lemma_token_stream_order(ts, b, pre.position as int, pre.position + 1);
            lemma_token_stream_order(ts, b, pre.position + 1, assign_pos);
            lemma_token_stream_order(ts, b, self.position - 1, self.position as int);
        }
        let end = self.current().span.end;
        self.advance();
        Ok(Stmt::VarDecl { name, init, span: Span { start, end } })
    }

    /// A braced block: `{`, statements with per-statement recovery, `}`.
    /// Recovery always makes progress: when synchronisation stops on the
    /// failing token itself, that token is skipped.
    fn parse_block(&mut self) -> (r: Result<Block, ()>)
        requires
            old(self).wf(),
            old(self).cur().kind == TokenKind::Punctuation(PunctuationKind::LBrace),
        ensures
            Self::frame(*old(self), *final(self)),
            old(self).tokens@[old(self).position + 1].kind == TokenKind::Punctuation(
                PunctuationKind::RBrace,
            ) ==> (r is Ok && final(self).position == old(self).position + 2),
            match r {
                Ok(bl) => {
                    &&& block_wf(bl, old(self).buf().len() as int)
                    &&& Self::consumed(*old(self), *final(self), bl.span)
                    &&& (old(self).tokens@[old(self).position + 1].kind
                        == TokenKind::Punctuation(PunctuationKind::RBrace) ==> (bl.stmts@.len()
                        == 0 && bl.span == Span {
                        start: old(self).tokens@[old(self).position as int].span.start,
                        end: old(self).tokens@[old(self).position + 1].span.end,
                    }))
                },
                Err(_) => final(self).diagnostics.deep_view().len() > old(
                    self,
                ).diagnostics.deep_view().len(),
            },
        decreases old(self).tokens@.len() - old(self).position, 7int,
    {
        let ghost pre = *self;
        let ghost n = self.buf().len() as int;
        let start = self.current().span.start;
        self.advance();
        let mut stmts: Vec<Stmt> = Vec::new();
        loop
            invariant_except_break
                pre == *old(self),
                self.wf(),
                self.tokens == pre.tokens,
                self.source == pre.source,
                pre.position < self.position,
                n == self.buf().len() as int,
                pre.diagnostics.deep_view().is_prefix_of(self.diagnostics.deep_view()),
                forall|j: int|
                    pre.diagnostics.deep_view().len() <= j < self.diagnostics.deep_view().len()
                    ==> (#[trigger] self.diagnostics.deep_view()[j]).severity == Severity::Error,
                forall|i: int| 0 <= i < stmts@.len() ==> stmt_wf(#[trigger] stmts@[i], n),
                pre.tokens@[pre.position + 1].kind == TokenKind::Punctuation(
                    PunctuationKind::RBrace,
                ) ==> (stmts@.len() == 0 && self.position == pre.position + 1
                    && self.diagnostics == pre.diagnostics),
            ensures
                self.wf(),
                self.tokens == pre.tokens,
                self.source == pre.source,
                pre.position < self.position,
                pre.diagnostics.deep_view().is_prefix_of(self.diagnostics.deep_view()),
                forall|j: int|
                    pre.diagnostics.deep_view().len() <= j < self.diagnostics.deep_view().len()
                    ==> (#[trigger] self.diagnostics.deep_view()[j]).severity == Severity::Error,
                forall|i: int| 0 <= i < stmts@.len() ==> stmt_wf(#[trigger] stmts@[i], n),
                self.cur().kind == TokenKind::Punctuation(PunctuationKind::RBrace)
                    || self.spec_at_end(),
                pre.tokens@[pre.position + 1].kind == TokenKind::Punctuation(
                    PunctuationKind::RBrace,
                ) ==> (stmts@.len() == 0 && self.position == pre.position + 1
                    && self.diagnostics == pre.diagnostics),
            decreases self.tokens@.len() - self.position,
        {
            if matches!(self.current().kind, TokenKind::Punctuation(PunctuationKind::RBrace))
                || self.is_at_end() {
                break ;
            }
            let before = self.position;
            let ghost dcur = self.diagnostics.deep_view();
            let ghost stmts0 = stmts@;
            match self.parse_statement() {
                Ok(stmt) => {
                    stmts.push(stmt);
                    proof {
                        assert forall|i: int| 0 <= i < stmts@.len() implies stmt_wf(
                            #[trigger] stmts@[i],
                            n,
                        ) by {
                            if i < stmts0.len() {
                                assert(stmts@[i] == stmts0[i]);
                            }
                        }
                    }
                },
                Err(()) => {
                    self.synchronize();
                    if self.position == before && !self.is_at_end() {
                        self.advance();
                    }
                },
            }
            proof {
                lemma_error_extension_chain(
                    pre.diagnostics.deep_view(),
                    dcur,
                    self.diagnostics.deep_view(),
                );
            }
        }
        if !matches!(self.current().kind, TokenKind::Punctuation(PunctuationKind::RBrace)) {
            let span = self.current().span;
            self.push_error(span, "Ожидалась '}'".to_owned());
            return Err(());
        }
        proof {
            let ts = self.tokens@;
            let b = self.buf();
            assert(span_on_boundaries(ts[pre.position as int].span, b));
            assert(span_on_boundaries(ts[self.position as int].span, b));
            lemma_token_stream_order(ts, b, pre.position as int, self.position as int);
        }
        let end = self.current().span.end;
        self.advance();
        Ok(Block { stmts, span: Span { start, end } })
    }

    /// An expression statement: an expression closed by `;`.
    fn parse_expr_stmt(&mut self) -> (r: Result<Stmt, ()>)
        requires
            old(self).wf(),
        ensures
            Self::frame(*old(self), *final(self)),
            ({
                let toks = old(self).tokens@;
                let pos = old(self).position as int;
                &&& ((lone_operand_at(toks, pos) && toks[pos + 1].kind == TokenKind::Punctuation(
                    PunctuationKind::Semicolon,
                )) ==> (r is Ok && final(self).position == old(self).position + 2))
                &&& ((lone_operand_at(toks, pos) && toks[pos + 1].kind != TokenKind::Punctuation(
                    PunctuationKind::Semicolon,
                )) ==> (r is Err && final(self).position == old(self).position + 1
                    && final(self).diagnostics.deep_view() == old(
                    self,
                ).diagnostics.deep_view().push(
                    DiagView {
                        severity: Severity::Error,
                        message: msg_expected_semicolon_expr(),
                        span: toks[pos + 1].span,
                    },
                )))
            }),
            match r {
                Ok(s) => {
                    &&& stmt_wf(s, old(self).buf().len() as int)
                    &&& Self::consumed(*old(self), *final(self), s.spec_span())
                    &&& final(self).diagnostics == old(self).diagnostics
                    &&& s matches Stmt::Expr { .. }
                    &&& (lone_operand_at(old(self).tokens@, old(self).position as int) ==> (s
                        matches Stmt::Expr { expr, span } ==> primary_token_result(
                        expr,
                        old(self).buf(),
                        old(self).tokens@[old(self).position as int],
                    ) && span.start == old(self).tokens@[old(self).position as int].span.start))
                },
                Err(_) => final(self).diagnostics.deep_view().len() > old(
                    self,
                ).diagnostics.deep_view().len(),
            },
        decreases old(self).tokens@.len() - old(self).position, 7int,
    {
        let ghost pre = *self;
        let expr = match self.parse_expression_with_precedence(0) {
            Ok(e) => e,
            Err(()) => {
                return Err(());
            },
        };
        if !matches!(self.current().kind, TokenKind::Punctuation(PunctuationKind::Semicolon)) {
            let span = self.current().span;
            self.push_error(span, "Ожидалась ';' после выражения".to_owned());
            return Err(());
        }
        proof {
            let ts = self.tokens@;
            let b = self.buf();
            assert(span_on_boundaries(ts[self.position as int].span, b));
            lemma_token_stream_order(ts, b, self.position - 1, self.position as int);
        }
        let end = self.current().span.end;
        self.advance();
        let start = expr.span().start;
        Ok(Stmt::Expr { expr, span: Span { start, end } })
    }

    /// A conditional: the `if` keyword, a parenthesised condition, the then
    /// branch, and optionally the `else` keyword with its branch.
    #[verifier::rlimit(100)]
    fn parse_if_stmt(&mut self) -> (r: Result<Stmt, ()>)
        requires
            old(self).wf(),
            old(self).cur().kind == TokenKind::Keyword(KeywordKind::Vilkoyvglaz),
        ensures
            Self::frame(*old(self), *final(self)),
            old(self).tokens@[old(self).position + 1].kind != TokenKind::Punctuation(
                PunctuationKind::LParen,
            ) ==> (r is Err && final(self).position == old(self).position + 1
                && final(self).diagnostics.deep_view() == old(self).diagnostics.deep_view().push(
                DiagView {
                    severity: Severity::Error,
                    message: msg_expected_lparen_if(),
                    span: old(self).tokens@[old(self).position + 1].span,
                },
            )),
            ({
                let toks = old(self).tokens@;
                let pos = old(self).position as int;
                (toks[pos + 1].kind == TokenKind::Punctuation(PunctuationKind::LParen)
                    && operand_token(toks[pos + 2].kind) && toks[pos + 3].kind
                    == TokenKind::Punctuation(PunctuationKind::RParen) && toks[pos + 4].kind
                    == TokenKind::Punctuation(PunctuationKind::Semicolon) && toks[pos + 5].kind
                    != TokenKind::Keyword(KeywordKind::Ilivzhopuraz)) ==> (r is Ok
                    && final(self).position == old(self).position + 5)
            }),
            match r {
                Ok(s) => {
                    &&& stmt_wf(s, old(self).buf().len() as int)
                    &&& Self::consumed(*old(self), *final(self), s.spec_span())
                    &&& s matches Stmt::If { .. }
                    &&& (s matches Stmt::If { condition, .. } ==> condition.spec_span().start
                        == old(self).tokens@[old(self).position + 2].span.start)
                },
                Err(_) => final(self).diagnostics.deep_view().len() > old(
                    self,
                ).diagnostics.deep_view().len(),
            },
        decreases old(self).tokens@.len() - old(self).position, 7int,
    {
        let ghost pre = *self;
        let start = self.current().span.start;
        self.advance();
        if !matches!(self.current().kind, TokenKind::Punctuation(PunctuationKind::LParen)) {
            let span = self.current().span;
            self.push_error(span, "Ожидалась '(' после 'вилкойвглаз'".to_owned());
            return Err(());
        }
        let ghost lparen_pos = self.position as int;
        self.advance();
        let condition = match self.parse_expression_with_precedence(0) {
            Ok(e) => e,
            Err(()) => {
                return Err(());
            },
        };
        if !matches!(self.current().kind, TokenKind::Punctuation(PunctuationKind::RParen)) {
            let span = self.current().span;
            self.push_error(span, "Ожидалась ')' после условия".to_owned());
            return Err(());
        }
        proof {
            let ts = self.tokens@;
            let b = self.buf();
            assert(span_on_boundaries(ts[pre.position as int].span, b));
            assert(span_on_boundaries(ts[lparen_pos].span, b));
            lemma_token_stream_order(ts, b, pre.position as int, pre.position + 1);
            lemma_token_stream_order(ts, b, pre.position + 1, lparen_pos + 1);
        }
        self.advance();
        let ghost then_start = self.position as int;
        let then_branch = match self.parse_statement() {
            Ok(s) => Box::new(s),
            Err(()) => {
                return Err(());
            },
        };
        let ghost d_then = self.diagnostics.deep_view();
        let else_branch: Option<Box<Stmt>>;
        if matches!(self.current().kind, TokenKind::Keyword(KeywordKind::Ilivzhopuraz)) {
            proof {
                let ts = self.tokens@;
                let b = self.buf();
                assert(span_on_boundaries(ts[self.position as int].span, b));
                lemma_token_stream_order(ts, b, self.position - 1, self.position as int);
                assert(self.cur().kind != TokenKind::Eof);
            }
            let ghost else_kw_pos = self.position as int;
            self.advance();
            let ghost after_then = self.position as int;
            let els = match self.parse_statement() {
                Ok(s) => Box::new(s),
                Err(()) => {
                    proof {
                        lemma_error_extension_chain(
                            old(self).diagnostics.deep_view(),
                            d_then,
                            self.diagnostics.deep_view(),
                        );
                    }
                    return Err(());
                },
            };
            proof {
                lemma_error_extension_chain(
                    old(self).diagnostics.deep_view(),
                    d_then,
                    self.diagnostics.deep_view(),
                );
            }
            proof {
                let ts = self.tokens@;
                let b = self.buf();
                let n = b.len() as int;
                assert(span_on_boundaries(ts[else_kw_pos].span, b));
                lemma_token_stream_order(ts, b, else_kw_pos, else_kw_pos + 1);
                crate::ast::lemma_stmt_wf_span(*els, n);
                crate::ast::lemma_stmt_wf_span(*then_branch, n);
                assert(then_branch.spec_span().end <= els.spec_span().end);
                assert(span_on_boundaries(ts[pre.position as int].span, b));
                lemma_token_stream_order(ts, b, pre.position as int, else_kw_pos + 1);
                assert(start <= els.spec_span().end);
            }
            else_branch = Some(els);
        } else {
            proof {
                let ts = self.tokens@;
                let b = self.buf();
                crate::ast::lemma_stmt_wf_span(*then_branch, b.len() as int);
                assert(span_on_boundaries(ts[pre.position as int].span, b));
                lemma_token_stream_order(ts, b, pre.position as int, then_start);
            }
            else_branch = None;
        }
        let end: usize = match &else_branch {
            Some(els) => els.span().end,
            None => then_branch.span().end,
        };
        Ok(Stmt::If { condition, then_branch, else_branch, span: Span { start, end } })
    }

    /// One statement, dispatched on the leading token: a declaring keyword
    /// opens a variable declaration, the `if` keyword a conditional, `{` a
    /// block, `;` an empty statement, and anything else an expression
    /// statement.
    fn parse_statement(&mut self) -> (r: Result<Stmt, ()>)
        requires
            old(self).wf(),
        ensures
            Self::frame(*old(self), *final(self)),
            old(self).cur().kind == TokenKind::Punctuation(PunctuationKind::Semicolon) ==> (r
                is Ok && final(self).diagnostics == old(self).diagnostics),
            (lone_operand_at(old(self).tokens@, old(self).position as int) && old(
                self,
            ).tokens@[old(self).position + 1].kind == TokenKind::Punctuation(
                PunctuationKind::Semicolon,
            )) ==> (r is Ok && final(self).position == old(self).position + 2
                && final(self).diagnostics == old(self).diagnostics),
            ({
                let toks = old(self).tokens@;
                let pos = old(self).position as int;
                (toks[pos].kind matches TokenKind::Keyword(
                    KeywordKind::Gyy | KeywordKind::Uchastkoviy | KeywordKind::YasenHuy,
                ) && toks[pos + 1].kind == TokenKind::Identifier && toks[pos + 2].kind
                    == TokenKind::Operator(OperatorKind::Assign) && lone_operand_at(toks, pos + 3)
                    && toks[pos + 4].kind == TokenKind::Punctuation(PunctuationKind::Semicolon))
                    ==> (r is Ok && final(self).position == old(self).position + 5)
            }),
            match r {
                Ok(s) => {
                    &&& stmt_wf(s, old(self).buf().len() as int)
                    &&& Self::consumed(*old(self), *final(self), s.spec_span())
                    &&& (!starts_special_statement(old(self).cur().kind) ==> s
                        matches Stmt::Expr { .. })
                    &&& (lone_operand_at(old(self).tokens@, old(self).position as int) ==> (s
                        matches Stmt::Expr { expr, .. } ==> primary_token_result(
                        expr,
                        old(self).buf(),
                        old(self).tokens@[old(self).position as int],
                    )))
                    &&& (old(self).cur().kind matches TokenKind::Keyword(
                        KeywordKind::Gyy | KeywordKind::Uchastkoviy | KeywordKind::YasenHuy,
                    ) ==> s matches Stmt::VarDecl { .. })
                    &&& ((old(self).tokens@[old(self).position + 1].kind == TokenKind::Identifier
                        && old(self).tokens@[old(self).position + 2].kind == TokenKind::Operator(
                        OperatorKind::Assign,
                    ) && lone_operand_at(old(self).tokens@, old(self).position + 3)) ==> (s
                        matches Stmt::VarDecl { name, init, span } ==> name.span == old(
                        self,
                    ).tokens@[old(self).position + 1].span && name.name@ == decode_utf8(
                        old(self).buf().subrange(
                            old(self).tokens@[old(self).position + 1].span.start as int,
                            old(self).tokens@[old(self).position + 1].span.end as int,
                        ),
                    ) && primary_token_result(
                        init,
                        old(self).buf(),
                        old(self).tokens@[old(self).position + 3],
                    )))
                    &&& (old(self).cur().kind == TokenKind::Keyword(KeywordKind::Vilkoyvglaz)
                        ==> s matches Stmt::If { .. })
                    &&& (old(self).cur().kind == TokenKind::Punctuation(PunctuationKind::LBrace)
                        ==> s matches Stmt::Block(_))
                    &&& (old(self).cur().kind == TokenKind::Punctuation(PunctuationKind::Semicolon)
                        ==> s == Stmt::Empty { span: old(self).cur().span } && final(self).position
                        == old(self).position + 1)
                },
                Err(_) => final(self).diagnostics.deep_view().len() > old(
                    self,
                ).diagnostics.deep_view().len(),
            },
        decreases old(self).tokens@.len() - old(self).position, 8int,
    {
        match &self.current().kind {
            TokenKind::Keyword(KeywordKind::Gyy)
            | TokenKind::Keyword(KeywordKind::Uchastkoviy)
            | TokenKind::Keyword(KeywordKind::YasenHuy) => self.parse_var_decl(),
            TokenKind::Keyword(KeywordKind::Vilkoyvglaz) => self.parse_if_stmt(),
            TokenKind::Punctuation(PunctuationKind::LBrace) => {
                match self.parse_block() {
                    Ok(bl) => Ok(Stmt::Block(bl)),
                    Err(e) => Err(e),
                }
            },
            TokenKind::Punctuation(PunctuationKind::Semicolon) => {
                proof {
                    assert(span_on_boundaries(
                        self.tokens@[self.position as int].span,
                        self.buf(),
                    ));
                }
                let span = self.current().span;
                self.advance();
                Ok(Stmt::Empty { span })
            },
            _ => self.parse_expr_stmt(),
        }
    }

    /// The top-level loop: statements until the end of the stream, each
    /// failed statement recovered from by synchronisation. Recovery always
    /// makes progress: when synchronisation stops on the failing token
    /// itself, that token is skipped. Always returns a program; its items
    /// are well formed, and the diagnostics collected so far come back
    /// first, in order.
    pub fn parse_program(self) -> (r: (Program, Vec<Diagnostic>))
        requires
            self.wf(),
        ensures
            program_wf(r.0, self.buf().len() as int),
            self.spec_diagnostics().is_prefix_of(r.1.deep_view()),
            forall|j: int|
                self.spec_diagnostics().len() <= j < r.1.deep_view().len() ==> (
                #[trigger] r.1.deep_view()[j]).severity == Severity::Error,
            self.spec_at_end() ==> (r.0.items.len() == 0 && r.1.deep_view()
                == self.spec_diagnostics()),
            (!self.spec_at_end() && r.1.deep_view() == self.spec_diagnostics())
                ==> r.0.items.len() > 0,
            (!self.spec_at_end() && self.toks()[self.spec_position()].kind
                == TokenKind::Punctuation(PunctuationKind::Semicolon)) ==> (r.0.items.len() >= 1
                && r.0.items@[0] == (Stmt::Empty {
                span: self.toks()[self.spec_position()].span,
            })),
            (!self.spec_at_end() && self.toks()[self.spec_position()].kind
                == TokenKind::Punctuation(PunctuationKind::Semicolon) && self.toks()[self.spec_position()
                + 1].kind == TokenKind::Eof) ==> (r.0.items@ =~= seq![
                Stmt::Empty { span: self.toks()[self.spec_position()].span },
            ] && r.1.deep_view() == self.spec_diagnostics()),
    {
        let mut parser = self;
        let ghost pre = parser;
        let ghost n = parser.buf().len() as int;
        let mut items: Vec<Stmt> = Vec::new();
        loop
            invariant_except_break
                parser.wf(),
                parser.tokens == pre.tokens,
                parser.source == pre.source,
                pre.position <= parser.position,
                n == parser.buf().len() as int,
                pre.diagnostics.deep_view().is_prefix_of(parser.diagnostics.deep_view()),
                forall|j: int|
                    pre.diagnostics.deep_view().len() <= j < parser.diagnostics.deep_view().len()
                    ==> (#[trigger] parser.diagnostics.deep_view()[j]).severity == Severity::Error,
                forall|i: int| 0 <= i < items@.len() ==> stmt_wf(#[trigger] items@[i], n),
                pre.spec_at_end() ==> (items@.len() == 0 && parser.position == pre.position
                    && parser.diagnostics == pre.diagnostics),
                items@.len() > 0 || parser.diagnostics.deep_view().len()
                    > pre.diagnostics.deep_view().len() || parser.position == pre.position,
                (!pre.spec_at_end() && pre.tokens@[pre.position as int].kind
                    == TokenKind::Punctuation(PunctuationKind::Semicolon)) ==> ((items@.len() == 0
                    && parser.position == pre.position && parser.diagnostics == pre.diagnostics)
                    || (items@.len() >= 1 && items@[0] == (Stmt::Empty {
                    span: pre.tokens@[pre.position as int].span,
                }))),
                (!pre.spec_at_end() && pre.tokens@[pre.position as int].kind
                    == TokenKind::Punctuation(PunctuationKind::Semicolon)
                    && pre.tokens@[pre.position + 1].kind == TokenKind::Eof) ==> ((items@.len()
                    == 0 && parser.position == pre.position && parser.diagnostics
                    == pre.diagnostics) || (items@ =~= seq![
                    Stmt::Empty { span: pre.tokens@[pre.position as int].span },
                ] && parser.position == pre.position + 1 && parser.diagnostics
                    == pre.diagnostics)),
            ensures
                parser.wf(),
                parser.tokens == pre.tokens,
                parser.source == pre.source,
                pre.position <= parser.position,
                pre.diagnostics.deep_view().is_prefix_of(parser.diagnostics.deep_view()),
                forall|j: int|
                    pre.diagnostics.deep_view().len() <= j < parser.diagnostics.deep_view().len()
                    ==> (#[trigger] parser.diagnostics.deep_view()[j]).severity == Severity::Error,
                forall|i: int| 0 <= i < items@.len() ==> stmt_wf(#[trigger] items@[i], n),
                parser.cur().kind == TokenKind::Eof,
                pre.spec_at_end() ==> (items@.len() == 0 && parser.position == pre.position
                    && parser.diagnostics == pre.diagnostics),
                items@.len() > 0 || parser.diagnostics.deep_view().len()
                    > pre.diagnostics.deep_view().len() || parser.position == pre.position,
                (!pre.spec_at_end() && pre.tokens@[pre.position as int].kind
                    == TokenKind::Punctuation(PunctuationKind::Semicolon)) ==> ((items@.len() == 0
                    && parser.position == pre.position && parser.diagnostics == pre.diagnostics)
                    || (items@.len() >= 1 && items@[0] == (Stmt::Empty {
                    span: pre.tokens@[pre.position as int].span,
                }))),
                (!pre.spec_at_end() && pre.tokens@[pre.position as int].kind
                    == TokenKind::Punctuation(PunctuationKind::Semicolon)
                    && pre.tokens@[pre.position + 1].kind == TokenKind::Eof) ==> ((items@.len()
                    == 0 && parser.position == pre.position && parser.diagnostics
                    == pre.diagnostics) || (items@ =~= seq![
                    Stmt::Empty { span: pre.tokens@[pre.position as int].span },
                ] && parser.position == pre.position + 1 && parser.diagnostics
                    == pre.diagnostics)),
            decreases parser.tokens@.len() - parser.position,
        {
            if parser.is_at_end() {
                break ;
            }
            let before = parser.position;
            let ghost dcur = parser.diagnostics.deep_view();
            let ghost items0 = items@;
            match parser.parse_statement() {
                Ok(stmt) => {
                    items.push(stmt);
                    proof {
                        assert forall|i: int| 0 <= i < items@.len() implies stmt_wf(
                            #[trigger] items@[i],
                            n,
                        ) by {
                            if i < items0.len() {
                                assert(items@[i] == items0[i]);
                            }
                        }
                    }
                },
                Err(()) => {
                    parser.synchronize();
                    if parser.position == before && !parser.is_at_end() {
                        parser.advance();
                    }
                },
            }
            proof {
                lemma_error_extension_chain(
                    pre.diagnostics.deep_view(),
                    dcur,
                    parser.diagnostics.deep_view(),
                );
            }
        }
        proof {
            if !pre.spec_at_end() {
                if parser.diagnostics.deep_view() == pre.diagnostics.deep_view() {
                    if parser.position == pre.position {
                        assert(parser.cur() == pre.tokens@[pre.position as int]);
                        assert(false);
                    }
                    assert(items@.len() > 0);
                }
                if pre.tokens@[pre.position as int].kind == TokenKind::Punctuation(
                    PunctuationKind::Semicolon,
                ) {
                    if items@.len() == 0 && parser.position == pre.position {
                        assert(parser.cur() == pre.tokens@[pre.position as int]);
                        assert(false);
                    }
                }
            }
        }
        let program = Program { items };
        (program, parser.diagnostics)
    }
}

/// The whole front end over one source: the token stream, the lexical
/// diagnostics, the program, and the parse diagnostics. Total for every
/// source text: the tokens are exactly the lexer model's, the stream is
/// well formed, the tree is well formed over the source, and every parse
/// diagnostic is an error.
pub fn parse_source(source: &SourceFile) -> (r: (Vec<Token>, Vec<Diagnostic>, Program, Vec<
    Diagnostic,
>))
    ensures
        r.0@ == crate::lexer::lex(source.bytes()).tokens,
        r.1.deep_view() == crate::lexer::lex(source.bytes()).diags,
        token_stream_wf(r.0@, source.bytes()),
        program_wf(r.2, source.bytes().len() as int),
        forall|j: int|
            0 <= j < r.3.deep_view().len() ==> (#[trigger] r.3.deep_view()[j]).severity
                == Severity::Error,
        source.bytes().len() == 0 ==> (r.0@.len() == 1 && r.1.deep_view() =~= Seq::<
            DiagView,
        >::empty() && r.2.items.len() == 0 && r.3.deep_view() =~= Seq::<DiagView>::empty()),
        (r.0@.len() > 1 && r.3.deep_view().len() == 0) ==> r.2.items.len() > 0,
        (r.0@.len() > 1 && r.0@[0].kind == TokenKind::Punctuation(PunctuationKind::Semicolon))
            ==> (r.2.items.len() >= 1 && r.2.items@[0] == (Stmt::Empty { span: r.0@[0].span })),
{
    let lexer = crate::lexer::Lexer::new(source);
    let (tokens, lex_diagnostics) = lexer.tokenize();
    let parser = Parser::new(tokens.as_slice(), source);
    let ghost p0 = parser;
    let (program, parse_diagnostics) = parser.parse_program();
    proof {
        let b = source.bytes();
        assert(Seq::<DiagView>::empty().is_prefix_of(parse_diagnostics.deep_view()));
        if tokens@.len() > 1 {
            // the token before the final Eof is not Eof, so the cursor does
            // not start at the end of the stream
            assert(tokens@[0].kind != TokenKind::Eof);
            assert(!p0.spec_at_end());
            if parse_diagnostics.deep_view().len() == 0 {
                assert(parse_diagnostics.deep_view() =~= p0.spec_diagnostics());
            }
        }
        if b.len() == 0 {
            assert(crate::lexer::scan_start(b, 0) == 0);
            assert(crate::lexer::lex_from(b, 0).tokens =~= seq![
                Token {
                    kind: TokenKind::Eof,
                    span: Span { start: 0, end: 0 },
                },
            ]);
            assert(crate::lexer::lex_from(b, 0).diags =~= Seq::<DiagView>::empty());
            assert(p0.spec_at_end());
            assert(parse_diagnostics.deep_view() =~= Seq::<DiagView>::empty());
        }
    }
    (tokens, lex_diagnostics, program, parse_diagnostics)
}

} // verus!

