//! Re-lexing: the text of any token, scanned on its own, yields one token
//! of the same kind and then the end of input. The lemmas here localise
//! each scan of the lexer model to the sub-buffer a token's span cuts out.

use vstd::prelude::*;
use vstd::utf8::*;

use crate::chars::{char_at, is_alnum, is_alpha, is_space, scalar_at, width_at};
use crate::lexer::{
    digits_end, ident_end, lex, lex_from, lemma_ident_end, lemma_next_lex,
    lemma_scan_string_body, line_end, next_lex, number_end, op_step, scan_start,
    scan_string_body,
};
use crate::token::TokenKind;

verus! {

/// `scan_start` stops only where no white space and no comment stands.
pub proof fn lemma_scan_start_blocked(b: Seq<u8>, pos: int)
    requires
        valid_utf8(b),
        0 <= pos <= b.len(),
        is_char_boundary(b, pos),
    ensures
        ({
            let p = scan_start(b, pos);
            p < b.len() ==> !is_space(char_at(b, p)) && !(b[p] == 0x2f && p + 1 < b.len() && b[p
                + 1] == 0x2f)
        }),
    decreases b.len() - pos,
{
    if !(0 <= pos < b.len()) {
    } else if is_space(char_at(b, pos)) {
        crate::chars::lemma_boundary_step(b, pos);
        lemma_scan_start_blocked(b, pos + width_at(b, pos));
    } else if b[pos] == 0x2f && pos + 1 < b.len() && b[pos + 1] == 0x2f {
        crate::lexer::lemma_line_end(b, pos + 2);
        let e = line_end(b, pos + 2);
        assert(is_char_boundary(b, e)) by {
            if e < b.len() {
                is_char_boundary_iff_not_is_continuation_byte(b, e);
            } else {
                is_char_boundary_start_end_of_seq(b);
            }
        }
        lemma_scan_start_blocked(b, e);
    }
}

/// Reading one character is local: inside a sub-buffer that wholly contains
/// it, the character and its width are the same as in the full buffer.
pub proof fn lemma_char_at_local(b: Seq<u8>, p: int, e: int, q: int)
    requires
        valid_utf8(b),
        is_char_boundary(b, q),
        0 <= p <= q < e <= b.len(),
        q + width_at(b, q) <= e,
    ensures
        ({
            let sub = b.subrange(p, e);
            &&& sub[q - p] == b[q]
            &&& width_at(sub, q - p) == width_at(b, q)
            &&& scalar_at(sub, q - p) == scalar_at(b, q)
            &&& char_at(sub, q - p) == char_at(b, q)
        }),
{
    crate::chars::lemma_boundary_step(b, q);
    let sub = b.subrange(p, e);
    let sfull = b.subrange(q, b.len() as int);
    let spart = sub.subrange(q - p, sub.len() as int);
    assert(sfull[0] == b[q] && spart[0] == b[q]);
    let w = length_of_first_codepoint(sfull);
    let wp = length_of_first_codepoint(spart);
    assert(w == wp);
    assert(width_at(b, q) == w);
    assert(q + w <= e);
    assert(spart.len() >= w);
    assert(width_at(sub, q - p) == w);
    if is_leading_byte_width_1(b[q]) {
        assert(decode_first_codepoint(sfull) == decode_first_codepoint(spart));
    } else if is_leading_byte_width_2(b[q]) {
        assert(sfull[1] == b[q + 1] && spart[1] == b[q + 1]);
        assert(decode_first_codepoint(sfull) == decode_first_codepoint(spart));
    } else if is_leading_byte_width_3(b[q]) {
        assert(sfull[1] == b[q + 1] && spart[1] == b[q + 1]);
        assert(sfull[2] == b[q + 2] && spart[2] == b[q + 2]);
        assert(decode_first_codepoint(sfull) == decode_first_codepoint(spart));
    } else {
        assert(sfull[1] == b[q + 1] && spart[1] == b[q + 1]);
        assert(sfull[2] == b[q + 2] && spart[2] == b[q + 2]);
        assert(sfull[3] == b[q + 3] && spart[3] == b[q + 3]);
        assert(decode_first_codepoint(sfull) == decode_first_codepoint(spart));
    }
}

/// An identifier scan that runs to `e` in the full buffer runs to the end
/// of the sub-buffer `b[p..e]`.
pub proof fn lemma_ident_end_local(b: Seq<u8>, p: int, e: int, q: int)
    requires
        valid_utf8(b),
        0 <= p <= q <= e <= b.len(),
        is_char_boundary(b, q),
        ident_end(b, q) == e,
    ensures
        ident_end(b.subrange(p, e), q - p) == e - p,
    decreases e - q,
{
    let sub = b.subrange(p, e);
    if q == e {
        assert(ident_end(sub, q - p) == q - p);
    } else {
        assert(0 <= q < b.len() && (is_alnum(char_at(b, q)) || b[q] == 0x5f)) by {
            if !(0 <= q < b.len() && (is_alnum(char_at(b, q)) || b[q] == 0x5f)) {
                assert(ident_end(b, q) == q);
            }
        }
        crate::chars::lemma_boundary_step(b, q);
        let w = width_at(b, q);
        lemma_ident_end(b, q + w);
        assert(ident_end(b, q + w) == e);
        assert(q + w <= e);
        lemma_char_at_local(b, p, e, q);
        lemma_ident_end_local(b, p, e, q + w);
        assert(ident_end(sub, q - p) == ident_end(sub, q - p + width_at(sub, q - p)));
    }
}

/// A digit scan never moves backwards.
proof fn lemma_digits_end_lower(b: Seq<u8>, q: int)
    requires
        q <= b.len(),
    ensures
        digits_end(b, q) >= q,
    decreases b.len() - q,
{
    if 0 <= q < b.len() && 0x30 <= b[q] <= 0x39 {
        lemma_digits_end_lower(b, q + 1);
    }
}

/// A digit scan that runs to `d` in the full buffer runs to `d - p` in the
/// sub-buffer `b[p..e]`, as long as it is cut off no earlier than `d`.
pub proof fn lemma_digits_end_local(b: Seq<u8>, p: int, e: int, q: int)
    requires
        0 <= p <= q <= e <= b.len(),
        digits_end(b, q) <= e,
        digits_end(b, q) < e ==> !(0x30 <= b[digits_end(b, q)] <= 0x39),
    ensures
        digits_end(b.subrange(p, e), q - p) == digits_end(b, q) - p,
    decreases e - q,
{
    let sub = b.subrange(p, e);
    let d = digits_end(b, q);
    if 0 <= q < b.len() && 0x30 <= b[q] <= 0x39 && q < e {
        assert(digits_end(b, q) == digits_end(b, q + 1));
        lemma_digits_end_local(b, p, e, q + 1);
        assert(sub[q - p] == b[q]);
        assert(digits_end(sub, q - p) == digits_end(sub, q - p + 1));
    } else {
        if q == e {
            assert(d == q) by {
                lemma_digits_end_lower(b, q);
            }
            assert(digits_end(sub, q - p) == q - p);
        } else {
            assert(d == q);
            assert(sub[q - p] == b[q]);
            assert(digits_end(sub, q - p) == q - p);
        }
    }
}

/// A string-body scan that ends at `E` in the full buffer ends at `E - p`
/// in the sub-buffer `b[p..E]`, closed the same way.
pub proof fn lemma_scan_string_local(b: Seq<u8>, p: int, q: int, quote: u8)
    requires
        valid_utf8(b),
        0 <= p < q <= b.len(),
        is_char_boundary(b, q),
        quote < 0x80,
        p <= scan_string_body(b, q, quote).end,
    ensures
        ({
            let s = scan_string_body(b, q, quote);
            let sub = b.subrange(p, s.end);
            let s2 = scan_string_body(sub, q - p, quote);
            &&& s2.end == s.end - p
            &&& s2.terminated == s.terminated
        }),
    decreases b.len() - q,
{
    let s = scan_string_body(b, q, quote);
    let e = s.end;
    lemma_scan_string_body(b, q, quote);
    let sub = b.subrange(p, e);
    if !(0 <= q < b.len()) {
        assert(e == q);
        assert(scan_string_body(sub, q - p, quote).end == q - p);
    } else if b[q] == quote {
        assert(e == q + 1);
        assert(sub[q - p] == b[q]);
        assert(scan_string_body(sub, q - p, quote).end == q - p + 1);
        assert(scan_string_body(sub, q - p, quote).terminated);
    } else if b[q] == 0x5c {
        crate::chars::lemma_boundary_step(b, q);
        assert(width_at(b, q) == 1);
        if q + 1 < b.len() {
            crate::chars::lemma_boundary_step(b, q + 1);
            let we = width_at(b, q + 1);
            let rest = scan_string_body(b, q + 1 + we, quote);
            lemma_scan_string_body(b, q + 1 + we, quote);
            assert(e == rest.end && e >= q + 1 + we);
            assert(q + 1 < e);
            assert(sub[q - p] == b[q]);
            assert(sub[q + 1 - p] == b[q + 1]);
            lemma_char_at_local(b, p, e, q + 1);
            lemma_scan_string_local(b, p, q + 1 + we, quote);
        } else {
            assert(e == q + 1);
            assert(q < e);
            assert(sub[q - p] == b[q]);
            assert(q - p + 1 == sub.len());
        }
    } else {
        crate::chars::lemma_boundary_step(b, q);
        let w = width_at(b, q);
        lemma_scan_string_body(b, q + w, quote);
        assert(e == scan_string_body(b, q + w, quote).end && e >= q + w);
        assert(q < e);
        assert(sub[q - p] == b[q]);
        lemma_char_at_local(b, p, e, q);
        lemma_scan_string_local(b, p, q + w, quote);
    }
}

/// One non-`Eof` step of the lexer, re-run on exactly the bytes of its own
/// token, finds a token of the same kind covering the whole sub-buffer.
pub proof fn lemma_relex_step(b: Seq<u8>, pos: int)
    requires
        valid_utf8(b),
        0 <= pos <= b.len(),
        is_char_boundary(b, pos),
        b.len() <= usize::MAX,
        next_lex(b, pos).token.kind != TokenKind::Eof,
    ensures
        ({
            let t = next_lex(b, pos).token;
            let sub = b.subrange(t.span.start as int, t.span.end as int);
            let st2 = next_lex(sub, 0);
            &&& t.span.start < t.span.end
            &&& st2.token.kind == t.kind
            &&& st2.next == sub.len()
        }),
{
    lemma_next_lex(b, pos);
    lemma_scan_start_blocked(b, pos);
    crate::lexer::lemma_scan_start(b, pos);
    let p = scan_start(b, pos);
    assert(p < b.len());
    let st = next_lex(b, pos);
    let t = st.token;
    let e = st.next;
    assert(t.span.start as int == p && t.span.end as int == e);
    assert(p < e <= b.len());
    let sub = b.subrange(p, e);
    let c = char_at(b, p);
    crate::chars::lemma_boundary_step(b, p);
    let w = width_at(b, p);
    if is_alpha(c) || b[p] == 0x5f {
        assert(e == ident_end(b, p));
        assert(ident_end(b, p) == ident_end(b, p + w));
        lemma_ident_end(b, p + w);
        assert(p + w <= e);
        lemma_char_at_local(b, p, e, p);
        assert(1 < sub.len() ==> sub[1] == b[p + 1]);
        assert(scan_start(sub, 0) == 0);
        lemma_ident_end_local(b, p, e, p);
        assert(ident_end(sub, 0) == sub.len());
        assert(sub.subrange(0, sub.len() as int) =~= sub);
        assert(b.subrange(p, e) == sub);
    } else if 0x30 <= b[p] <= 0x39 {
        assert(e == number_end(b, p));
        crate::lexer::lemma_number_end(b, p);
        assert(w == 1);
        lemma_char_at_local(b, p, e, p);
        assert(1 < sub.len() ==> sub[1] == b[p + 1]);
        assert(scan_start(sub, 0) == 0);
        let d = digits_end(b, p);
        if d + 1 < b.len() && b[d] == 0x2e && 0x30 <= b[d + 1] <= 0x39 {
            assert(e == digits_end(b, d + 2));
            lemma_digits_end_lower(b, p);
            lemma_digits_end_lower(b, d + 2);
            assert(p <= d && d + 2 <= e);
            lemma_digits_end_local(b, p, e, p);
            assert(digits_end(sub, 0) == d - p);
            lemma_digits_end_local(b, p, e, d + 2);
            assert(sub[d - p] == b[d] && sub[d - p + 1] == b[d + 1]);
            assert(number_end(sub, 0) == sub.len());
        } else {
            assert(e == d);
            lemma_digits_end_local(b, p, e, p);
            assert(digits_end(sub, 0) == sub.len());
            assert(number_end(sub, 0) == sub.len());
        }
    } else if b[p] == 0x22 || b[p] == 0x27 {
        assert(w == 1);
        let s = scan_string_body(b, p + 1, b[p]);
        lemma_scan_string_body(b, p + 1, b[p]);
        assert(e == s.end && p + 1 <= e);
        lemma_char_at_local(b, p, e, p);
        assert(1 < sub.len() ==> sub[1] == b[p + 1]);
        assert(scan_start(sub, 0) == 0);
        assert(sub[0] == b[p]);
        lemma_scan_string_local(b, p, p + 1, b[p]);
        assert(scan_string_body(sub, 1, sub[0]).end == sub.len());
    } else {
        assert(st == op_step(b, p));
        assert(p + w <= e) by {
            if b[p] < 0x80 {
                assert(w == 1);
            }
        }
        lemma_char_at_local(b, p, e, p);
        assert(1 < sub.len() ==> sub[1] == b[p + 1]);
        assert(2 < sub.len() ==> sub[2] == b[p + 2]);
        assert(scan_start(sub, 0) == 0);
        let st2 = next_lex(sub, 0);
        assert(st2 == op_step(sub, 0));
        assert(st2.token.kind == t.kind && st2.next == sub.len());
    }
}

/// Every token of the stream is the token of one lexer step.
pub proof fn lemma_token_origin(b: Seq<u8>, pos: int, i: int) -> (p: int)
    requires
        valid_utf8(b),
        0 <= pos <= b.len(),
        is_char_boundary(b, pos),
        b.len() <= usize::MAX,
        0 <= i < lex_from(b, pos).tokens.len(),
    ensures
        pos <= p <= b.len(),
        is_char_boundary(b, p),
        lex_from(b, pos).tokens[i] == next_lex(b, p).token,
    decreases i,
{
    lemma_next_lex(b, pos);
    let st = next_lex(b, pos);
    if st.token.kind == TokenKind::Eof || pos >= b.len() {
        assert(lex_from(b, pos).tokens =~= seq![st.token]);
        pos
    } else if i == 0 {
        pos
    } else {
        let np = st.next;
        assert(lex_from(b, pos).tokens =~= seq![st.token] + lex_from(b, np).tokens);
        assert(lex_from(b, pos).tokens[i] == lex_from(b, np).tokens[i - 1]);
        lemma_token_origin(b, np, i - 1)
    }
}

/// Re-lexing the exact text of any token standing before the final `Eof`
/// yields a single token of the same kind, followed by the end-of-input
/// token.
pub proof fn lemma_relex_preserves_kind(b: Seq<u8>, i: int)
    requires
        valid_utf8(b),
        b.len() <= usize::MAX,
        0 <= i < lex(b).tokens.len(),
        lex(b).tokens[i].kind != TokenKind::Eof,
    ensures
        ({
            let t = lex(b).tokens[i];
            let sub = b.subrange(t.span.start as int, t.span.end as int);
            &&& lex(sub).tokens.len() == 2
            &&& lex(sub).tokens[0].kind == t.kind
            &&& lex(sub).tokens[1].kind == TokenKind::Eof
        }),
{
    let p = lemma_token_origin(b, 0, i);
    lemma_next_lex(b, p);
    lemma_relex_step(b, p);
    let t = lex(b).tokens[i];
    let sub = b.subrange(t.span.start as int, t.span.end as int);
    let st2 = next_lex(sub, 0);
    assert(st2.token.kind == t.kind && st2.token.kind != TokenKind::Eof);
    assert(sub.len() > 0 && st2.next == sub.len());
    assert(lex_from(sub, 0).tokens =~= seq![st2.token] + lex_from(
        sub,
        sub.len() as int,
    ).tokens);
    let st3 = next_lex(sub, sub.len() as int);
    assert(scan_start(sub, sub.len() as int) == sub.len() as int);
    assert(st3.token.kind == TokenKind::Eof);
    assert(lex_from(sub, sub.len() as int).tokens =~= seq![st3.token]);
}

} // verus!

