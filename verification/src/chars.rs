//! Characters of the source buffer: reading one Unicode scalar out of the
//! UTF-8 bytes at a byte offset, and the character classes that the lexer
//! dispatches on.
//!
//! The byte-level model comes from `vstd::utf8`; the only trusted facts are
//! the contracts on the four `std` character functions at the bottom.

use vstd::prelude::*;
use vstd::utf8::*;

verus! {

/// Whether the character is alphabetic, after Unicode's `Alphabetic` property.
pub uninterp spec fn is_alpha(c: char) -> bool;

/// Whether the character is numeric, after Unicode's `Nd`, `Nl` and `No` classes.
pub uninterp spec fn is_num(c: char) -> bool;

/// Whether the character is white space, after Unicode's `White_Space` property.
pub uninterp spec fn is_space(c: char) -> bool;

/// Whether the character is alphanumeric. `char::is_alphanumeric` is
/// documented as exactly `is_alphabetic || is_numeric`.
pub open spec fn is_alnum(c: char) -> bool {
    is_alpha(c) || is_num(c)
}

/// Relies on `char::is_alphabetic`, which reports Unicode's `Alphabetic`
/// property; the result depends on the character alone.
pub assume_specification[ char::is_alphabetic ](c: char) -> (r: bool)
    ensures
        r == is_alpha(c),
;

/// Relies on `char::is_alphanumeric`, documented as true exactly when
/// `is_alphabetic` or `is_numeric` is; the result depends on the character alone.
pub assume_specification[ char::is_alphanumeric ](c: char) -> (r: bool)
    ensures
        r == (is_alpha(c) || is_num(c)),
;

/// Relies on `char::is_whitespace`, which reports Unicode's `White_Space`
/// property; the result depends on the character alone.
pub assume_specification[ char::is_whitespace ](c: char) -> (r: bool)
    ensures
        r == is_space(c),
;

/// Relies on `char::from_u32`: it returns `Some` exactly for Unicode scalar
/// values, that is everything up to `0x10FFFF` except the surrogate range.
pub assume_specification[ char::from_u32 ](v: u32) -> (r: Option<char>)
    ensures
        is_scalar(v) ==> r == Some(v as char),
        !is_scalar(v) ==> r is None,
;

/// The scalar value encoded at byte offset `pos` of the buffer.
pub open spec fn scalar_at(b: Seq<u8>, pos: int) -> u32 {
    decode_first_codepoint(b.subrange(pos, b.len() as int))
}

/// The character encoded at byte offset `pos` of the buffer.
pub open spec fn char_at(b: Seq<u8>, pos: int) -> char {
    scalar_at(b, pos) as char
}

/// How many bytes the character at byte offset `pos` occupies. Clamped so
/// that it is at least 1 and never runs past the end of the buffer, which
/// keeps every scan over the buffer visibly decreasing; on valid UTF-8 at a
/// character boundary the clamps never apply.
pub open spec fn width_at(b: Seq<u8>, pos: int) -> int {
    let w = length_of_first_codepoint(b.subrange(pos, b.len() as int));
    if pos + w <= b.len() {
        w
    } else if pos + 1 <= b.len() {
        b.len() - pos
    } else {
        1
    }
}

/// On valid UTF-8, stepping a character boundary forward by the width of the
/// character standing there lands on a character boundary again.
pub proof fn lemma_boundary_step(b: Seq<u8>, pos: int)
    requires
        valid_utf8(b),
        is_char_boundary(b, pos),
        0 <= pos < b.len(),
    ensures
        valid_first_scalar(b.subrange(pos, b.len() as int)),
        width_at(b, pos) == length_of_first_scalar(b.subrange(pos, b.len() as int)),
        pos + width_at(b, pos) <= b.len(),
        is_char_boundary(b, pos + width_at(b, pos)),
        1 <= width_at(b, pos) <= 4,
    decreases b.len(),
{
    let suffix = b.subrange(pos, b.len() as int);
    valid_utf8_split(b, pos);
    assert(valid_utf8(suffix));
    assert(suffix.len() > 0);
    assert(valid_first_scalar(suffix));
    let w = length_of_first_scalar(suffix);
    assert(1 <= w <= 4);
    assert(w <= suffix.len());
    if pos == 0 {
        assert(suffix =~= b);
        assert(is_char_boundary(b, w)) by {
            if w < b.len() {
                is_char_boundary_iff_not_is_continuation_byte(b, w);
                assert(valid_utf8(pop_first_scalar(b)));
                if pop_first_scalar(b).len() > 0 {
                    is_char_boundary_iff_not_is_continuation_byte(pop_first_scalar(b), 0);
                    is_char_boundary_start_end_of_seq(pop_first_scalar(b));
                    assert(pop_first_scalar(b)[0] == b[w]);
                }
            } else {
                is_char_boundary_start_end_of_seq(b);
            }
        }
    } else {
        let head_w = length_of_first_scalar(b);
        assert(is_char_boundary(pop_first_scalar(b), pos - head_w));
        let tail = pop_first_scalar(b);
        assert(valid_utf8(tail));
        assert(pos - head_w < tail.len());
        assert(tail.subrange(pos - head_w, tail.len() as int) =~= suffix);
        lemma_boundary_step(tail, pos - head_w);
        assert(is_char_boundary(tail, pos - head_w + w));
        assert(is_char_boundary(b, pos + w));
    }
}

/// Reads the scalar value and byte width of the character at byte offset
/// `pos`, straight off the UTF-8 bit patterns.
pub fn decode_scalar_at(b: &[u8], pos: usize) -> (r: (u32, usize))
    requires
        valid_utf8(b@),
        is_char_boundary(b@, pos as int),
        pos < b@.len(),
    ensures
        r.0 == scalar_at(b@, pos as int),
        r.1 == width_at(b@, pos as int),
        1 <= r.1 <= 4,
        pos + r.1 <= b@.len(),
        is_char_boundary(b@, pos + r.1),
        is_scalar(r.0),
        b@[pos as int] < 0x80 ==> r.0 == b@[pos as int],
        b@[pos as int] >= 0x80 ==> r.0 >= 0x80,
{
    proof {
        lemma_boundary_step(b@, pos as int);
    }
    let ghost suffix = b@.subrange(pos as int, b@.len() as int);
    let n = b.len();
    let b0 = b[pos];
    assert(suffix[0] == b0);
    if b0 < 0x80 {
        assert(b0 & 0x7f == b0) by (bit_vector)
            requires
                b0 < 0x80,
        ;
        assert(b0 as u32 == codepoint_width_1(b0));
        (b0 as u32, 1)
    } else if b0 < 0xe0 {
        assert(is_leading_byte_width_2(b0));
        assert(suffix.len() >= 2);
        let b1 = b[pos + 1];
        assert(suffix[1] == b1);
        let v = (((b0 & 0x1f) as u32) << 6u32) | ((b1 & 0x3f) as u32);
        assert(v == codepoint_width_2(b0, b1));
        assert(v <= 0x7ff) by {
            assert((((b0 & 0x1f) as u32) << 6u32) | ((b1 & 0x3f) as u32) <= 0x7ff) by (bit_vector);
        }
        assert(0x80 <= v);
        (v, 2)
    } else if b0 < 0xf0 {
        assert(is_leading_byte_width_3(b0));
        assert(suffix.len() >= 3);
        let b1 = b[pos + 1];
        let b2 = b[pos + 2];
        assert(suffix[1] == b1 && suffix[2] == b2);
        let v = (((b0 & 0x0f) as u32) << 12u32) | (((b1 & 0x3f) as u32) << 6u32) | ((b2
            & 0x3f) as u32);
        assert(v == codepoint_width_3(b0, b1, b2));
        assert(v <= 0xffff) by {
            assert((((b0 & 0x0f) as u32) << 12u32) | (((b1 & 0x3f) as u32) << 6u32) | ((b2
                & 0x3f) as u32) <= 0xffff) by (bit_vector);
        }
        assert(0x800 <= v && not_surrogate(v));
        (v, 3)
    } else {
        assert(is_leading_byte_width_4(b0));
        assert(suffix.len() >= 4);
        let b1 = b[pos + 1];
        let b2 = b[pos + 2];
        let b3 = b[pos + 3];
        assert(suffix[1] == b1 && suffix[2] == b2 && suffix[3] == b3);
        let v = (((b0 & 0x07) as u32) << 18u32) | (((b1 & 0x3f) as u32) << 12u32) | (((b2
            & 0x3f) as u32) << 6u32) | ((b3 & 0x3f) as u32);
        assert(v == codepoint_width_4(b0, b1, b2, b3));
        assert(0x10000 <= v <= 0x10ffff);
        (v, 4)
    }
}

/// Reads the character at byte offset `pos`, both as its scalar value (for
/// single-byte comparisons) and as a `char` (for classification).
pub fn read_char(b: &[u8], pos: usize) -> (r: (u32, char, usize))
    requires
        valid_utf8(b@),
        is_char_boundary(b@, pos as int),
        pos < b@.len(),
    ensures
        r.0 == scalar_at(b@, pos as int),
        r.1 == char_at(b@, pos as int),
        r.2 == width_at(b@, pos as int),
        1 <= r.2 <= 4,
        pos + r.2 <= b@.len(),
        is_char_boundary(b@, pos + r.2),
        b@[pos as int] < 0x80 ==> r.0 == b@[pos as int],
        b@[pos as int] >= 0x80 ==> r.0 >= 0x80,
{
    let (v, w) = decode_scalar_at(b, pos);
    let c = char::from_u32(v).unwrap();
    (v, c, w)
}

/// Two byte slices hold the same bytes.
pub fn bytes_eq(a: &[u8], b: &[u8]) -> (r: bool)
    ensures
        r == (a@ == b@),
{
    if a.len() != b.len() {
        assert(a@ != b@);
        return false;
    }
    let n = a.len();
    let mut i: usize = 0;
    while i < n
        invariant
            n == a@.len() == b@.len(),
            0 <= i <= n,
            forall|k: int| 0 <= k < i ==> a@[k] == b@[k],
        decreases n - i,
    {
        if a[i] != b[i] {
            return false;
        }
        i += 1;
    }
    assert(a@ =~= b@);
    true
}

/// Whether the valid UTF-8 bytes `a` decode to exactly the text `s`.
pub fn decoded_eq(a: &[u8], s: &str) -> (r: bool)
    requires
        valid_utf8(a@),
    ensures
        r == (decode_utf8(a@) == s@),
{
    let r = bytes_eq(a, s.as_bytes());
    proof {
        broadcast use encode_utf8_decode_utf8;
        broadcast use decode_utf8_encode_utf8;

        if a@ == encode_utf8(s@) {
            assert(decode_utf8(a@) == s@);
        } else {
            if decode_utf8(a@) == s@ {
                assert(encode_utf8(decode_utf8(a@)) == a@);
                assert(false);
            }
        }
    }
    r
}

} // verus!
