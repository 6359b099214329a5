//! UTF-16 as the codec needs it: which code units stand alone, how two of
//! them pair up, and how one character is spelled in code units.

use vstd::prelude::*;

verus! {

/// `unit` is one half of a surrogate pair.
pub open spec fn is_surrogate(unit: u16) -> bool {
    0xD800 <= unit <= 0xDFFF
}

/// `unit` is the first half of a surrogate pair.
pub open spec fn is_high_surrogate(unit: u16) -> bool {
    0xD800 <= unit <= 0xDBFF
}

/// `unit` is the second half of a surrogate pair.
pub open spec fn is_low_surrogate(unit: u16) -> bool {
    0xDC00 <= unit <= 0xDFFF
}

/// The character that a high and a low surrogate spell together.
pub open spec fn pair_char(high: u16, low: u16) -> char
    recommends
        is_high_surrogate(high),
        is_low_surrogate(low),
{
    (0x10000 + (high - 0xD800) * 0x400 + (low - 0xDC00)) as char
}

/// The code units of one character: itself below 0x10000, a surrogate pair
/// from there on.
pub open spec fn char_units(c: char) -> Seq<u16> {
    if (c as u32) < 0x10000 {
        seq![c as u16]
    } else {
        seq![
            (0xD800 + (c as u32 - 0x10000) / 0x400) as u16,
            (0xDC00 + (c as u32 - 0x10000) % 0x400) as u16,
        ]
    }
}

/// The error of `String::from_utf16`, carried through untouched.
#[verifier::external_type_specification]
#[verifier::external_body]
pub struct ExFromUtf16Error(std::string::FromUtf16Error);

/// `char::from_u32`: trusted to return the character numbered `i` where `i`
/// is a Unicode scalar value, and nothing for a surrogate or a number past
/// 0x10FFFF.
pub assume_specification[ char::from_u32 ](i: u32) -> (r: Option<char>)
    ensures
        match r {
            Some(c) => (i <= 0xD7FF || 0xE000 <= i <= 0x10FFFF) && c == i as char,
            None => !(i <= 0xD7FF || 0xE000 <= i <= 0x10FFFF),
        },
;

/// `String::push`: trusted to append the character and change nothing else.
pub assume_specification[ String::push ](s: &mut String, c: char)
    ensures
        final(s)@ == old(s)@.push(c),
;

/// `String::from_utf16` on two code units of which the first is a surrogate:
/// trusted to accept exactly a high surrogate followed by a low one, and to
/// return then the one character that the pair spells.
#[verifier::external_body]
pub(crate) fn pair_to_string(first: u16, second: u16) -> (r: Result<String, std::string::FromUtf16Error>)
    requires
        is_surrogate(first),
    ensures
        match r {
            Ok(s) => is_high_surrogate(first) && is_low_surrogate(second) && s@ == seq![
                pair_char(first, second),
            ],
            Err(_) => !(is_high_surrogate(first) && is_low_surrogate(second)),
        },
{
    String::from_utf16(&[first, second])
}

/// Appends the code units of `c` to `out`.
pub fn push_char_units(out: &mut Vec<u16>, c: char)
    ensures
        final(out)@ == old(out)@ + char_units(c),
{
    let n: u32 = c as u32;
    if n < 0x10000 {
        out.push(n as u16);
        assert(out@ =~= old(out)@ + char_units(c));
    } else {
        let rest: u32 = n - 0x10000;
        let high: u32 = 0xD800 + rest / 0x400;
        let low: u32 = 0xDC00 + rest % 0x400;
        out.push(high as u16);
        out.push(low as u16);
        assert(out@ =~= old(out)@ + char_units(c));
    }
}

} // verus!
