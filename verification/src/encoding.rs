//! Checking that bytes are well-formed UTF-8.

use vstd::prelude::*;
use vstd::utf8::*;

verus! {

/// Length of the scalar encoded at the front of `bytes[from..]`, or 0 where
/// no well-formed scalar starts there.
fn scalar_len(bytes: &[u8], from: usize) -> (n: usize)
    requires
        from < bytes.len(),
    ensures
        n == 0 <==> !valid_first_scalar(bytes@.skip(from as int)),
        n != 0 ==> n == length_of_first_scalar(bytes@.skip(from as int)),
        from + n <= bytes.len(),
{
    let ghost rest = bytes@.skip(from as int);
    let left: usize = bytes.len() - from;
    let b0: u8 = bytes[from];
    assert(rest[0] == b0);
    if b0 <= 0x7f {
        assert((b0 & 0x7f) as u32 <= 0x7f) by (bit_vector);
        1
    } else if 0xc0 <= b0 && b0 <= 0xdf {
        if left < 2 {
            return 0;
        }
        let b1: u8 = bytes[from + 1];
        assert(rest[1] == b1);
        if !(0x80 <= b1 && b1 <= 0xbf) {
            return 0;
        }
        let cp: u32 = (((b0 & 0x1f) as u32) << 6) | ((b1 & 0x3f) as u32);
        if 0x80 <= cp && !(0xD800 <= cp && cp <= 0xDFFF) {
            2
        } else {
            0
        }
    } else if 0xe0 <= b0 && b0 <= 0xef {
        if left < 3 {
            return 0;
        }
        let b1: u8 = bytes[from + 1];
        let b2: u8 = bytes[from + 2];
        assert(rest[1] == b1 && rest[2] == b2);
        if !(0x80 <= b1 && b1 <= 0xbf) || !(0x80 <= b2 && b2 <= 0xbf) {
            return 0;
        }
        let cp: u32 = (((b0 & 0x0f) as u32) << 12) | (((b1 & 0x3f) as u32) << 6) | ((b2
            & 0x3f) as u32);
        if 0x800 <= cp && !(0xD800 <= cp && cp <= 0xDFFF) {
            3
        } else {
            0
        }
    } else if 0xf0 <= b0 && b0 <= 0xf7 {
        if left < 4 {
            return 0;
        }
        let b1: u8 = bytes[from + 1];
        let b2: u8 = bytes[from + 2];
        let b3: u8 = bytes[from + 3];
        assert(rest[1] == b1 && rest[2] == b2 && rest[3] == b3);
        if !(0x80 <= b1 && b1 <= 0xbf) || !(0x80 <= b2 && b2 <= 0xbf) || !(0x80 <= b3 && b3
            <= 0xbf) {
            return 0;
        }
        let cp: u32 = (((b0 & 0x07) as u32) << 18) | (((b1 & 0x3f) as u32) << 12) | (((b2
            & 0x3f) as u32) << 6) | ((b3 & 0x3f) as u32);
        if 0x10000 <= cp && cp <= 0x10ffff && !(0xD800 <= cp && cp <= 0xDFFF) {
            4
        } else {
            0
        }
    } else {
        0
    }
}

/// Tells whether `bytes` is well-formed UTF-8.
pub fn is_utf8(bytes: &[u8]) -> (ok: bool)
    ensures
        ok == valid_utf8(bytes@),
{
    let mut at: usize = 0;
    assert(bytes@.skip(0) =~= bytes@);
    while at < bytes.len()
        invariant
            at <= bytes.len(),
            valid_utf8(bytes@) == valid_utf8(bytes@.skip(at as int)),
        decreases bytes.len() - at,
    {
        let n: usize = scalar_len(bytes, at);
        if n == 0 {
            return false;
        }
        assert(pop_first_scalar(bytes@.skip(at as int)) =~= bytes@.skip(at + n));
        at = at + n;
    }
    true
}

} // verus!
