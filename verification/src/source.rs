//! The source buffer: an immutable named UTF-8 text with byte-range slicing
//! and (line, column) resolution.

use vstd::prelude::*;
use vstd::string::StringSliceAdditionalSpecFns;
use vstd::utf8::*;

use crate::span::{span_on_boundaries, Span};

verus! {

/// An immutable source text and the name it was loaded under.
#[derive(Debug, Clone)]
pub struct SourceFile {
    pub name: String,
    pub source: String,
}

/// A character boundary of the whole buffer is also one of the suffix that
/// starts at an earlier character boundary.
pub proof fn lemma_boundary_in_suffix(b: Seq<u8>, s: int, e: int)
    requires
        valid_utf8(b),
        is_char_boundary(b, s),
        is_char_boundary(b, e),
        0 <= s <= e <= b.len(),
    ensures
        is_char_boundary(b.subrange(s, b.len() as int), e - s),
{
    let suffix = b.subrange(s, b.len() as int);
    valid_utf8_split(b, s);
    if e == s {
        is_char_boundary_start_end_of_seq(suffix);
    } else if e == b.len() {
        is_char_boundary_start_end_of_seq(suffix);
    } else {
        is_char_boundary_iff_not_is_continuation_byte(b, e);
        assert(suffix[e - s] == b[e]);
        is_char_boundary_iff_not_is_continuation_byte(suffix, e - s);
    }
}

impl SourceFile {
    /// The source text as the byte sequence that spans address.
    pub open spec fn bytes(&self) -> Seq<u8> {
        encode_utf8(self.source@)
    }

    pub fn new(name: String, source: String) -> (r: SourceFile)
        ensures
            r.name == name,
            r.source == source,
    {
        SourceFile { name, source }
    }

    /// The text inside `span`. The caller guarantees that the span lies on
    /// character boundaries; the result is exactly the bytes of the range,
    /// decoded.
    pub fn slice(&self, span: Span) -> (r: &str)
        requires
            span_on_boundaries(span, self.bytes()),
        ensures
            r@ == decode_utf8(self.bytes().subrange(span.start as int, span.end as int)),
            r.spec_bytes() == self.bytes().subrange(span.start as int, span.end as int),
    {
        proof {
            broadcast use vstd::utf8::encode_utf8_valid_utf8;

            lemma_boundary_in_suffix(self.bytes(), span.start as int, span.end as int);
        }
        let s: &str = self.source.as_str();
        let (_, rest) = s.split_at(span.start);
        let ghost b = self.bytes();
        let ghost suffix = b.subrange(span.start as int, b.len() as int);
        assert(rest.spec_bytes() =~= suffix);
        let (mid, _) = rest.split_at(span.end - span.start);
        proof {
            assert(mid.spec_bytes() =~= b.subrange(span.start as int, span.end as int));
            valid_utf8_split(b, span.start as int);
            valid_utf8_split(suffix, span.end - span.start);
            broadcast use vstd::utf8::encode_utf8_decode_utf8;

            assert(decode_utf8(mid.spec_bytes()) == mid@);
        }
        mid
    }
}

/// Each character takes at least one byte in UTF-8.
pub proof fn lemma_encode_len(chars: Seq<char>)
    ensures
        encode_utf8(chars).len() >= chars.len(),
    decreases chars.len(),
{
    if chars.len() > 0 {
        lemma_encode_len(chars.drop_first());
        assert(encode_scalar(chars[0] as u32).len() >= 1);
    }
}

/// The 1-based line and column just before the `k`-th character: lines
/// advance on a line feed, columns reset to 1 right after one and otherwise
/// grow by one per character. Characters past the end of the text change
/// nothing.
pub open spec fn line_col(s: Seq<char>, k: int) -> (int, int)
    decreases k,
{
    if k <= 0 {
        (1, 1)
    } else {
        let (l, c) = line_col(s, k - 1);
        if k - 1 < s.len() {
            if s[k - 1] == '\n' {
                (l + 1, 1)
            } else {
                (l, c + 1)
            }
        } else {
            (l, c)
        }
    }
}

/// Offsets past the end of the text resolve like the end of the text.
pub proof fn lemma_line_col_past(s: Seq<char>, k: int)
    requires
        k >= s.len(),
    ensures
        line_col(s, k) == line_col(s, s.len() as int),
    decreases k,
{
    if k > s.len() {
        lemma_line_col_past(s, k - 1);
    }
}

/// The first line feed at or after character index `q`, or the end of the
/// text.
pub open spec fn line_break(s: Seq<char>, q: int) -> int
    decreases s.len() - q,
{
    if 0 <= q < s.len() && s[q] != '\n' {
        line_break(s, q + 1)
    } else {
        q
    }
}

/// `line_break` stays between its start and the end of the text.
pub proof fn lemma_line_break(s: Seq<char>, q: int)
    requires
        0 <= q <= s.len(),
    ensures
        q <= line_break(s, q) <= s.len(),
        line_break(s, q) < s.len() ==> s[line_break(s, q)] == '\n',
    decreases s.len() - q,
{
    if 0 <= q < s.len() && s[q] != '\n' {
        lemma_line_break(s, q + 1);
    }
}

/// The character index the `k`-th line (0-based) starts at: line 0 starts
/// at 0, and each next line starts right after the previous line's line
/// feed. One past the end of the text means there is no such line; a line
/// exists exactly when its start lies strictly inside the text.
pub open spec fn line_start(s: Seq<char>, k: int) -> int
    decreases k,
{
    if k <= 0 {
        0
    } else {
        let p = line_start(s, k - 1);
        let b = line_break(s, if p < 0 {
            0
        } else {
            p
        });
        if b < s.len() {
            b + 1
        } else {
            s.len() as int + 1
        }
    }
}

/// Once the lines run out they stay run out.
pub proof fn lemma_line_start_none(s: Seq<char>, k: int, j: int)
    requires
        0 <= k <= j,
        line_start(s, k) > s.len(),
    ensures
        line_start(s, j) > s.len(),
    decreases j - k,
{
    if k < j {
        assert(line_break(s, s.len() as int) == s.len() as int);
        lemma_line_start_none(s, k + 1, j);
    }
}

/// The text of the line that starts at character index `q`: up to the next
/// line feed, which is not part of the line, and without a carriage return
/// standing right before that line feed.
pub open spec fn line_content(s: Seq<char>, q: int) -> Seq<char> {
    let b = line_break(s, q);
    let ce = if b < s.len() && b > q && s[b - 1] == '\r' {
        b - 1
    } else {
        b
    };
    s.subrange(q, ce)
}

/// The first line feed of the text at or after character index `from`, or
/// the end of the text.
fn find_newline(s: &str, from: usize, ulen: usize) -> (r: usize)
    requires
        from <= s@.len(),
        ulen == s@.len(),
    ensures
        r as int == line_break(s@, from as int),
        from <= r <= s@.len(),
        r < s@.len() ==> s@[r as int] == '\n',
{
    proof {
        lemma_line_break(s@, from as int);
    }
    let mut j = from;
    while j < ulen && s.get_char(j) != '\n'
        invariant
            from <= j <= s@.len(),
            ulen == s@.len(),
            line_break(s@, from as int) == line_break(s@, j as int),
        decreases s@.len() - j,
    {
        j = j + 1;
    }
    j
}

impl SourceFile {
    /// The 1-based (line, column) of the character offset `offset`, counting
    /// characters, not bytes.
    pub fn position(&self, offset: usize) -> (r: (usize, usize))
        requires
            self.bytes().len() < usize::MAX,
        ensures
            r.0 as int == line_col(self.source@, offset as int).0,
            r.1 as int == line_col(self.source@, offset as int).1,
    {
        let s = self.source.as_str();
        let ulen = s.unicode_len();
        proof {
            lemma_encode_len(self.source@);
        }
        let mut line: usize = 1;
        let mut col: usize = 1;
        let mut i: usize = 0;
        while i < offset && i < ulen
            invariant
                i <= ulen,
                s@ == self.source@,
                ulen == s@.len(),
                ulen <= self.bytes().len() < usize::MAX,
                i <= offset,
                line as int == line_col(s@, i as int).0,
                col as int == line_col(s@, i as int).1,
                line <= 1 + i,
                col <= 1 + i,
            decreases offset - i,
        {
            let c = s.get_char(i);
            if c == '\n' {
                line = line + 1;
                col = 1;
            } else {
                col = col + 1;
            }
            i = i + 1;
        }
        proof {
            if i < offset {
                lemma_line_col_past(s@, offset as int);
            }
        }
        (line, col)
    }

    /// The `line_num`-th line, 1-based: the text between line feeds, without
    /// the terminator and without a carriage return right before it. `None`
    /// out of range, so also for `line_num == 0`.
    pub fn get_line(&self, line_num: usize) -> (r: Option<&str>)
        ensures
            line_num == 0 ==> r is None,
            line_num >= 1 ==> ({
                let st = line_start(self.source@, line_num - 1);
                &&& (r is Some <==> st < self.source@.len())
                &&& match r {
                    Some(t) => t@ == line_content(self.source@, st),
                    None => true,
                }
            }),
    {
        if line_num == 0 {
            return None;
        }
        let ghost sq = self.source@;
        let idx: usize = line_num - 1;
        let s = self.source.as_str();
        let ulen = s.unicode_len();
        let mut cur: usize = 0;
        let mut k: usize = 0;
        while k < idx
            invariant
                k <= idx,
                sq == s@,
                sq == self.source@,
                idx as int == (if line_num == 0 { 0int } else { line_num - 1 }),
                ulen == s@.len(),
                cur <= ulen,
                cur as int == line_start(sq, k as int),
            decreases idx - k,
        {
            let b = find_newline(s, cur, ulen);
            if b >= ulen {
                proof {
                    assert(line_start(sq, k + 1) == sq.len() + 1);
                    lemma_line_start_none(sq, k + 1, idx as int);
                }
                return None;
            }
            cur = b + 1;
            k = k + 1;
        }
        if cur >= ulen {
            return None;
        }
        let b = find_newline(s, cur, ulen);
        let ce: usize = if b < ulen && b > cur && s.get_char(b - 1) == '\r' {
            b - 1
        } else {
            b
        };
        proof {
            lemma_line_break(sq, cur as int);
        }
        Some(s.substring_char(cur, ce))
    }
}
} // verus!
