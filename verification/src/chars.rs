//! Character classes the tokenizer dispatches on: Unicode identifier
//! classes (through the `unicode-xid` crate), whitespace, digits of a
//! given radix, and Unicode scalar values.

use vstd::prelude::*;

use unicode_xid::UnicodeXID;

verus! {

pub uninterp spec fn is_xid_start(c: char) -> bool;

pub uninterp spec fn is_xid_continue(c: char) -> bool;

pub uninterp spec fn is_space(c: char) -> bool;

/// Relies on `unicode_xid::UnicodeXID::is_xid_start`: whether `c` has
/// the Unicode `XID_Start` property, a function of the character alone.
#[verifier::external_body]
pub(crate) fn xid_start_char(c: char) -> (r: bool)
    ensures
        r == is_xid_start(c),
{
    UnicodeXID::is_xid_start(c)
}

/// Relies on `unicode_xid::UnicodeXID::is_xid_continue`: whether `c` has
/// the Unicode `XID_Continue` property, a function of the character
/// alone.
#[verifier::external_body]
pub(crate) fn xid_continue_char(c: char) -> (r: bool)
    ensures
        r == is_xid_continue(c),
{
    UnicodeXID::is_xid_continue(c)
}

/// Relies on `char::is_whitespace`: whether `c` has the Unicode
/// `White_Space` property, a function of the character alone.
#[verifier::external_body]
pub(crate) fn space_char(c: char) -> (r: bool)
    ensures
        r == is_space(c),
{
    c.is_whitespace()
}

/// The value of `c` as a digit in base `radix`, mirroring
/// `char::to_digit`: decimal digits first, then letters of either case.
pub open spec fn digit_val(c: char, radix: u32) -> Option<u32> {
    let v = c as u32;
    if 0x30 <= v && v <= 0x39 {
        // '0' to '9'
        if v - 0x30 < radix {
            Some((v - 0x30) as u32)
        } else {
            None
        }
    } else if 0x61 <= v && v <= 0x7a {
        // 'a' to 'z'
        if v - 0x61 + 10 < radix {
            Some((v - 0x61 + 10) as u32)
        } else {
            None
        }
    } else if 0x41 <= v && v <= 0x5a {
        // 'A' to 'Z'
        if v - 0x41 + 10 < radix {
            Some((v - 0x41 + 10) as u32)
        } else {
            None
        }
    } else {
        None
    }
}

pub fn digit_of(c: char, radix: u32) -> (r: Option<u32>)
    requires
        2 <= radix <= 36,
    ensures
        r == digit_val(c, radix),
{
    let v = c as u32;
    if 0x30 <= v && v <= 0x39 {
        let d = v - 0x30;
        if d < radix {
            Some(d)
        } else {
            None
        }
    } else if 0x61 <= v && v <= 0x7a {
        let d = v - 0x61 + 10;
        if d < radix {
            Some(d)
        } else {
            None
        }
    } else if 0x41 <= v && v <= 0x5a {
        let d = v - 0x41 + 10;
        if d < radix {
            Some(d)
        } else {
            None
        }
    } else {
        None
    }
}

/// The radix a letter after a leading `0` selects.
pub open spec fn spec_radix_of(c: char) -> Option<u32> {
    if c == 'x' {
        Some(16u32)
    } else if c == 'o' {
        Some(8u32)
    } else if c == 'b' {
        Some(2u32)
    } else {
        None
    }
}

pub fn radix_of(c: char) -> (r: Option<u32>)
    ensures
        r == spec_radix_of(c),
{
    if c == 'x' {
        Some(16)
    } else if c == 'o' {
        Some(8)
    } else if c == 'b' {
        Some(2)
    } else {
        None
    }
}

/// Whether `v` is a Unicode scalar value: any code point up to 0x10FFFF
/// that is not a surrogate.
pub open spec fn is_unicode_scalar(v: int) -> bool {
    (0 <= v < 0xD800) || (0xE000 <= v <= 0x10FFFF)
}

/// Relies on `char::from_u32`: `Some` exactly when `v` is a Unicode
/// scalar value (not a surrogate, at most 0x10FFFF), and then the
/// returned character is that code point.
#[verifier::external_body]
pub(crate) fn char_from_u32(v: u32) -> (r: Option<char>)
    ensures
        match r {
            Some(c) => is_unicode_scalar(v as int) && c as u32 == v,
            None => !is_unicode_scalar(v as int),
        },
{
    char::from_u32(v)
}

} // verus!
