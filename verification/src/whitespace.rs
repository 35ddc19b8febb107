//! Leading whitespace of a UTF-8 byte string.
//!
//! Whitespace is the Unicode property `White_Space`. The executable code
//! works on the encoded bytes; `lemma_trim_start_decodes` shows that it
//! removes exactly the leading whitespace characters of the decoded text.

use vstd::prelude::*;
use vstd::utf8::*;

verus! {

/// Whether `c` has the Unicode property `White_Space`.
pub open spec fn is_white_space(c: char) -> bool {
    let v = c as u32;
    ||| 0x09 <= v <= 0x0D
    ||| v == 0x20
    ||| v == 0x85
    ||| v == 0xA0
    ||| v == 0x1680
    ||| 0x2000 <= v <= 0x200A
    ||| v == 0x2028
    ||| v == 0x2029
    ||| v == 0x202F
    ||| v == 0x205F
    ||| v == 0x3000
}

/// `text` without its leading whitespace characters.
pub open spec fn trim_start_chars(text: Seq<char>) -> Seq<char>
    decreases text.len(),
{
    if text.len() > 0 && is_white_space(text[0]) {
        trim_start_chars(text.drop_first())
    } else {
        text
    }
}

/// Whether the three bytes encode a whitespace character.
pub open spec fn is_white_space_3(b0: u8, b1: u8, b2: u8) -> bool {
    ||| b0 == 0xE1 && b1 == 0x9A && b2 == 0x80
    ||| b0 == 0xE2 && b1 == 0x80 && (0x80 <= b2 <= 0x8A || b2 == 0xA8 || b2 == 0xA9 || b2 == 0xAF)
    ||| b0 == 0xE2 && b1 == 0x81 && b2 == 0x9F
    ||| b0 == 0xE3 && b1 == 0x80 && b2 == 0x80
}

/// Number of bytes of the whitespace character encoded at the front of
/// `bytes`; 0 where `bytes` does not start with one.
pub open spec fn white_space_width(bytes: Seq<u8>) -> int {
    if bytes.len() >= 1 && (0x09 <= bytes[0] <= 0x0D || bytes[0] == 0x20) {
        1
    } else if bytes.len() >= 2 && bytes[0] == 0xC2 && (bytes[1] == 0x85 || bytes[1] == 0xA0) {
        2
    } else if bytes.len() >= 3 && is_white_space_3(bytes[0], bytes[1], bytes[2]) {
        3
    } else {
        0
    }
}

/// Number of bytes taken by the whitespace characters at the front of `bytes`.
pub open spec fn leading_white_space(bytes: Seq<u8>) -> int
    decreases bytes.len(),
{
    let w = white_space_width(bytes);
    if w == 0 {
        0
    } else {
        w + leading_white_space(bytes.skip(w))
    }
}

/// `bytes` without its leading whitespace.
pub open spec fn trim_start(bytes: Seq<u8>) -> Seq<u8> {
    bytes.skip(leading_white_space(bytes))
}

/// The leading whitespace lies within the bytes.
pub proof fn lemma_leading_white_space_bounds(bytes: Seq<u8>)
    ensures
        0 <= leading_white_space(bytes) <= bytes.len(),
    decreases bytes.len(),
{
    let w = white_space_width(bytes);
    if w != 0 {
        lemma_leading_white_space_bounds(bytes.skip(w));
    }
}

/// What is left after trimming does not start with whitespace, so trimming
/// again changes nothing.
pub proof fn lemma_trim_start_idempotent(bytes: Seq<u8>)
    ensures
        white_space_width(trim_start(bytes)) == 0,
        trim_start(trim_start(bytes)) == trim_start(bytes),
    decreases bytes.len(),
{
    let w = white_space_width(bytes);
    if w != 0 {
        let rest = bytes.skip(w);
        lemma_trim_start_idempotent(rest);
        lemma_leading_white_space_bounds(rest);
        assert(rest.skip(leading_white_space(rest)) =~= bytes.skip(leading_white_space(bytes)));
    } else {
        assert(bytes.skip(0) =~= bytes);
    }
    assert(trim_start(bytes).skip(0) =~= trim_start(bytes));
}

proof fn lemma_decode_width_1(b0: u8)
    by (bit_vector)
    requires
        b0 <= 0x7f,
    ensures
        (b0 & 0x7f) as u32 == b0 as u32,
{
}

proof fn lemma_decode_width_2(b0: u8, b1: u8)
    by (bit_vector)
    requires
        0xc0 <= b0 <= 0xdf,
        0x80 <= b1 <= 0xbf,
    ensures
        ({
            let v = (((b0 & 0x1f) as u32) << 6) | ((b1 & 0x3f) as u32);
            &&& v < 0x800
            &&& (v == 0x85 <==> b0 == 0xC2 && b1 == 0x85)
            &&& (v == 0xA0 <==> b0 == 0xC2 && b1 == 0xA0)
        }),
{
}

proof fn lemma_decode_width_3(b0: u8, b1: u8, b2: u8)
    by (bit_vector)
    requires
        0xe0 <= b0 <= 0xef,
        0x80 <= b1 <= 0xbf,
        0x80 <= b2 <= 0xbf,
    ensures
        ({
            let v = (((b0 & 0x0f) as u32) << 12) | (((b1 & 0x3f) as u32) << 6) | ((b2
                & 0x3f) as u32);
            &&& v <= 0xFFFF
            &&& (v == 0x1680 <==> b0 == 0xE1 && b1 == 0x9A && b2 == 0x80)
            &&& (0x2000 <= v <= 0x200A <==> b0 == 0xE2 && b1 == 0x80 && 0x80 <= b2 <= 0x8A)
            &&& (v == 0x2028 <==> b0 == 0xE2 && b1 == 0x80 && b2 == 0xA8)
            &&& (v == 0x2029 <==> b0 == 0xE2 && b1 == 0x80 && b2 == 0xA9)
            &&& (v == 0x202F <==> b0 == 0xE2 && b1 == 0x80 && b2 == 0xAF)
            &&& (v == 0x205F <==> b0 == 0xE2 && b1 == 0x81 && b2 == 0x9F)
            &&& (v == 0x3000 <==> b0 == 0xE3 && b1 == 0x80 && b2 == 0x80)
        }),
{
}

/// A well-formed scalar at the front of `bytes` is matched by
/// `white_space_width` exactly when it decodes to a whitespace character, and
/// then with its full length.
pub proof fn lemma_white_space_width_decodes(bytes: Seq<u8>)
    requires
        valid_first_scalar(bytes),
    ensures
        white_space_width(bytes) == if is_white_space(decode_first_scalar(bytes) as char) {
            length_of_first_scalar(bytes)
        } else {
            0
        },
{
    let v = decode_first_scalar(bytes);
    if is_leading_byte_width_1(bytes[0]) {
        lemma_decode_width_1(bytes[0]);
    } else if is_leading_byte_width_2(bytes[0]) {
        lemma_decode_width_2(bytes[0], bytes[1]);
    } else if is_leading_byte_width_3(bytes[0]) {
        lemma_decode_width_3(bytes[0], bytes[1], bytes[2]);
    }
    assert(v <= 0x10FFFF && !(0xD800 <= v <= 0xDFFF));
    assert((v as char) as u32 == v);
}

/// Trimming well-formed UTF-8 leaves well-formed UTF-8, which decodes to the
/// text of the untrimmed bytes without its leading whitespace characters.
pub proof fn lemma_trim_start_decodes(bytes: Seq<u8>)
    requires
        valid_utf8(bytes),
    ensures
        valid_utf8(trim_start(bytes)),
        decode_utf8(trim_start(bytes)) == trim_start_chars(decode_utf8(bytes)),
    decreases bytes.len(),
{
    if bytes.len() == 0 {
        assert(trim_start(bytes) =~= bytes);
    } else {
        lemma_white_space_width_decodes(bytes);
        let w = white_space_width(bytes);
        let rest = pop_first_scalar(bytes);
        let text = decode_utf8(bytes);
        assert(text.drop_first() =~= decode_utf8(rest));
        if w == 0 {
            assert(bytes.skip(0) =~= bytes);
        } else {
            lemma_trim_start_decodes(rest);
            lemma_leading_white_space_bounds(rest);
            assert(rest =~= bytes.skip(w));
            assert(trim_start(rest) =~= trim_start(bytes));
        }
    }
}

/// Width of the whitespace character encoded at `bytes[from..]`, 0 if none.
fn whitespace_width(bytes: &[u8], from: usize) -> (w: usize)
    requires
        from <= bytes.len(),
    ensures
        w == white_space_width(bytes@.skip(from as int)),
        from + w <= bytes.len(),
{
    let left: usize = bytes.len() - from;
    if left >= 1 {
        let b0: u8 = bytes[from];
        if (0x09 <= b0 && b0 <= 0x0D) || b0 == 0x20 {
            return 1;
        }
        if left >= 2 {
            let b1: u8 = bytes[from + 1];
            if b0 == 0xC2 && (b1 == 0x85 || b1 == 0xA0) {
                return 2;
            }
            if left >= 3 {
                let b2: u8 = bytes[from + 2];
                let wide: bool = (b0 == 0xE1 && b1 == 0x9A && b2 == 0x80) || (b0 == 0xE2 && b1
                    == 0x80 && ((0x80 <= b2 && b2 <= 0x8A) || b2 == 0xA8 || b2 == 0xA9 || b2
                    == 0xAF)) || (b0 == 0xE2 && b1 == 0x81 && b2 == 0x9F) || (b0 == 0xE3 && b1
                    == 0x80 && b2 == 0x80);
                if wide {
                    return 3;
                }
            }
        }
    }
    0
}

/// Counts the bytes of leading whitespace in `bytes`.
pub fn leading_whitespace(bytes: &[u8]) -> (n: usize)
    ensures
        n == leading_white_space(bytes@),
        n <= bytes.len(),
{
    let mut at: usize = 0;
    assert(bytes@.skip(0) =~= bytes@);
    loop
        invariant
            at <= bytes.len(),
            leading_white_space(bytes@) == at + leading_white_space(bytes@.skip(at as int)),
        ensures
            at <= bytes.len(),
            leading_white_space(bytes@) == at,
        decreases bytes.len() - at,
    {
        let w: usize = whitespace_width(bytes, at);
        if w == 0 {
            break;
        }
        assert(bytes@.skip(at as int).skip(w as int) =~= bytes@.skip(at + w));
        at = at + w;
    }
    at
}

} // verus!
