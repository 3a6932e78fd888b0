//! Named-pipe transport constants and the wide-string form Win32 takes.

use vstd::prelude::*;

use crate::text::to_chars;

verus! {

/// Pipe name.
pub const PIPE_NAME: &'static str = "\\\\.\\pipe\\mochi-brain-v0";

/// One message is at most 64KB.
pub const MAX_MESSAGE: usize = 65536;

/// UTF-16 code units of one char: one unit below U+10000, else a
/// surrogate pair.
pub open spec fn utf16_char(c: char) -> Seq<u16> {
    let u = (c as u32) as int;
    if u < 0x10000 {
        seq![u as u16]
    } else {
        let v = u - 0x10000;
        seq![(0xD800 + v / 0x400) as u16, (0xDC00 + v % 0x400) as u16]
    }
}

/// UTF-16 encoding of a string (std `str::encode_utf16`).
pub open spec fn utf16_spec(s: Seq<char>) -> Seq<u16>
    decreases s.len(),
{
    if s.len() == 0 {
        seq![]
    } else {
        utf16_spec(s.drop_last()) + utf16_char(s.last())
    }
}

/// NUL-terminated UTF-16 form of `s`, as Win32 wide-string parameters take.
pub fn wide(s: &str) -> (w: Vec<u16>)
    ensures
        w@ == utf16_spec(s@).push(0u16),
{
    let chars = to_chars(s);
    let mut w: Vec<u16> = Vec::new();
    let mut i: usize = 0;
    while i < chars.len()
        invariant
            chars@ == s@,
            i <= chars@.len(),
            w@ == utf16_spec(chars@.take(i as int)),
        decreases chars@.len() - i,
    {
        let c = chars[i];
        let u = c as u32;
        proof {
            assert(chars@.take(i + 1).drop_last() =~= chars@.take(i as int));
            assert(u <= 0x10ffff) by {
                vstd::utf8::char_is_scalar(c);
            }
        }
        let ghost w0 = w@;
        if u < 0x10000 {
            w.push(u as u16);
            assert(utf16_char(c) == seq![u as u16]);
        } else {
            let v = u - 0x10000;
            let hi = (0xD800 + v / 0x400) as u16;
            let lo = (0xDC00 + v % 0x400) as u16;
            w.push(hi);
            w.push(lo);
            assert(utf16_char(c) =~= seq![hi, lo]);
        }
        assert(w@ =~= w0 + utf16_char(c));
        i += 1;
    }
    assert(chars@.take(i as int) =~= chars@);
    w.push(0);
    w
}

} // verus!
