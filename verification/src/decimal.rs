//! Unsigned decimal numerals: what they look like as text and what they are
//! worth, with the two conversions of the standard library behind them.

use vstd::prelude::*;

verus! {

/// The character of one decimal digit.
pub open spec fn digit_char(d: nat) -> char
    recommends
        d < 10,
{
    (48 + d) as char
}

/// The decimal numeral of `n`, without sign and without leading zeros.
pub open spec fn decimal_text(n: nat) -> Seq<char>
    decreases n,
{
    if n < 10 {
        seq![digit_char(n)]
    } else {
        decimal_text(n / 10).push(digit_char(n % 10))
    }
}

/// Every character of `s` is one of `0` to `9`.
pub open spec fn is_digits(s: Seq<char>) -> bool {
    forall|i: int| 0 <= i < s.len() ==> '0' <= #[trigger] s[i] <= '9'
}

/// The number that a run of decimal digits denotes.
pub open spec fn digits_value(s: Seq<char>) -> nat
    decreases s.len(),
{
    if s.len() == 0 {
        0
    } else {
        digits_value(s.drop_last()) * 10 + (s.last() as nat - 48) as nat
    }
}

/// The digits of a numeral: the text itself, less one leading `+`.
pub open spec fn unsigned_part(s: Seq<char>) -> Seq<char> {
    if s.len() > 0 && s[0] == '+' {
        s.skip(1)
    } else {
        s
    }
}

/// The 32-bit number written in `s`: an optional `+`, then one or more
/// decimal digits, worth at most `u32::MAX`. `None` for any other text.
pub open spec fn parsed_u32(s: Seq<char>) -> Option<u32> {
    let d = unsigned_part(s);
    if d.len() > 0 && is_digits(d) && digits_value(d) <= u32::MAX {
        Some(digits_value(d) as u32)
    } else {
        None
    }
}

/// The error of `u32::from_str_radix`, carried through untouched.
#[verifier::external_type_specification]
#[verifier::external_body]
pub struct ExParseIntError(core::num::ParseIntError);

/// `u32::to_string`: trusted to write `n` in decimal, without sign and
/// without leading zeros.
#[verifier::external_body]
pub(crate) fn decimal_string(n: u32) -> (s: String)
    ensures
        s@ == decimal_text(n as nat),
{
    n.to_string()
}

/// `u32::from_str_radix` with radix 10: trusted to accept exactly an optional
/// `+` followed by one or more decimal digits whose value fits in 32 bits,
/// and to return that value.
#[verifier::external_body]
pub(crate) fn parse_decimal(s: &String) -> (r: Result<u32, core::num::ParseIntError>)
    ensures
        match r {
            Ok(v) => parsed_u32(s@) == Some(v),
            Err(_) => parsed_u32(s@) is None,
        },
{
    u32::from_str_radix(s, 10)
}

} // verus!
