//! The classes of characters that the generator draws and the search asks for.

use vstd::prelude::*;

verus! {

/// A printable character of ASCII: a space up to a tilde.
pub open spec fn is_printable(b: u8) -> bool {
    0x20 <= b <= 0x7e
}

/// A digit or a letter of ASCII.
pub open spec fn is_alphanumeric(b: u8) -> bool {
    ||| 0x30 <= b <= 0x39
    ||| 0x41 <= b <= 0x5a
    ||| 0x61 <= b <= 0x7a
}

/// A digit of base64: a digit, a letter, `+` or `/`.
pub open spec fn is_base64(b: u8) -> bool {
    is_alphanumeric(b) || b == 0x2b || b == 0x2f
}

/// A digit of base64 in its form for URLs: a digit, a letter, `-` or `_`.
pub open spec fn is_url_base64(b: u8) -> bool {
    is_alphanumeric(b) || b == 0x2d || b == 0x5f
}

/// Every byte of `s` is a digit or a letter.
pub open spec fn all_alphanumeric(s: Seq<u8>) -> bool {
    forall|i: int| 0 <= i < s.len() ==> is_alphanumeric(#[trigger] s[i])
}

/// Tells whether every byte of the block is a digit or a letter.
pub fn check_alphanum(bytes: [u8; 16]) -> (r: bool)
    ensures
        r == all_alphanumeric(bytes@),
{
    let mut i: usize = 0;
    while i < 16
        invariant
            i <= 16,
            forall|k: int| 0 <= k < i ==> is_alphanumeric(#[trigger] bytes@[k]),
        decreases 16 - i,
    {
        let b: u8 = bytes[i];
        // outside of '0'..'z'
        if b < 0x30 || b > 0x7a {
            return false;
        }
        // between '9' and 'A'
        if b > 0x39 && b < 0x41 {
            return false;
        }
        // between 'Z' and 'a'
        if b > 0x5a && b < 0x61 {
            return false;
        }
        i += 1;
    }
    true
}

} // verus!
