use vstd::prelude::*;

verus! {

/// Whether `c` is alphanumeric under the full Unicode classification.
/// The classification is a fixed function of the character alone; its
/// table is far too large to restate, so it is only named here and every
/// contract speaks of it through this name.
pub uninterp spec fn unicode_alphanumeric(c: char) -> bool;

/// Whether `c` is whitespace under the full Unicode classification.
pub uninterp spec fn unicode_whitespace(c: char) -> bool;

/// Relies on char::is_alphanumeric: true exactly for the characters in
/// Unicode's Alphabetic or Number categories, a property of `c` alone.
#[verifier::external_body]
pub(crate) fn char_is_alphanumeric(c: char) -> (r: bool)
    ensures
        r == unicode_alphanumeric(c),
{
    c.is_alphanumeric()
}

/// Relies on char::is_whitespace: true exactly for the characters with
/// Unicode's White_Space property, a property of `c` alone.
#[verifier::external_body]
pub(crate) fn char_is_whitespace(c: char) -> (r: bool)
    ensures
        r == unicode_whitespace(c),
{
    c.is_whitespace()
}

/// Whether `c` may appear in an identifier: underscore or alphanumeric.
pub open spec fn is_ident_char(c: char) -> bool {
    c == '_' || unicode_alphanumeric(c)
}

/// The numeric value of `c` as a digit, or -1 if `c` is no digit in any
/// supported radix. Letter digits follow the usual hexadecimal reading,
/// in either case.
pub open spec fn digit_val(c: char) -> int {
    if '0' as int <= c as int && c as int <= '9' as int {
        c as int - '0' as int
    } else if 'a' as int <= c as int && c as int <= 'f' as int {
        c as int - 'a' as int + 10
    } else if 'A' as int <= c as int && c as int <= 'F' as int {
        c as int - 'A' as int + 10
    } else {
        -1
    }
}

/// Whether `c` is a valid digit under `radix` (2, 8, 10 or 16).
pub open spec fn is_digit_in(c: char, radix: int) -> bool {
    0 <= digit_val(c) && digit_val(c) < radix
}

/// The value of a digit string read in `radix`, most significant first.
/// Leading zeros are harmless; the empty string reads as 0.
pub open spec fn digits_value(s: Seq<char>, radix: int) -> int
    decreases s.len(),
{
    if s.len() == 0 {
        0
    } else {
        digits_value(s.drop_last(), radix) * radix + digit_val(s.last())
    }
}

/// Executable digit classification, exact against `digit_val`.
pub fn digit_in(c: char, radix: u32) -> (r: Option<u8>)
    ensures
        match r {
            Some(d) => is_digit_in(c, radix as int) && d as int == digit_val(c),
            None => !is_digit_in(c, radix as int),
        },
{
    let u = c as u32;
    if u >= '0' as u32 && u <= '9' as u32 {
        let d = (u - '0' as u32) as u8;
        if (d as u32) < radix {
            Some(d)
        } else {
            None
        }
    } else if u >= 'a' as u32 && u <= 'f' as u32 {
        let d = (u - 'a' as u32 + 10) as u8;
        if (d as u32) < radix {
            Some(d)
        } else {
            None
        }
    } else if u >= 'A' as u32 && u <= 'F' as u32 {
        let d = (u - 'A' as u32 + 10) as u8;
        if (d as u32) < radix {
            Some(d)
        } else {
            None
        }
    } else {
        None
    }
}

} // verus!
