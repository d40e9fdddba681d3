//! Character classes.
//!
//! Which characters are space, letters and numbers is decided by the Unicode
//! tables of the standard library. Within ASCII the answer is written out here;
//! beyond it, letters and numbers are known only by name.
use vstd::prelude::*;

verus! {

/// The answer of [`char::is_alphabetic`] on a character outside ASCII.
pub uninterp spec fn unicode_alphabetic(c: char) -> bool;

/// The answer of [`char::is_numeric`] on a character outside ASCII.
pub uninterp spec fn unicode_numeric(c: char) -> bool;

/// `c` is one of the 128 ASCII characters.
pub open spec fn ascii(c: char) -> bool {
    (c as u32) < 0x80
}

/// `c` is an ASCII decimal digit.
pub open spec fn digit(c: char) -> bool {
    '0' <= c <= '9'
}

/// `c` has the Unicode property `Alphabetic`.
pub open spec fn alphabetic(c: char) -> bool {
    if ascii(c) {
        'a' <= c <= 'z' || 'A' <= c <= 'Z'
    } else {
        unicode_alphabetic(c)
    }
}

/// `c` belongs to one of the Unicode general categories for numbers.
pub open spec fn numeric(c: char) -> bool {
    if ascii(c) {
        digit(c)
    } else {
        unicode_numeric(c)
    }
}

/// `c` has the Unicode property `White_Space`.
pub open spec fn whitespace(c: char) -> bool {
    let code = c as u32;
    ||| 0x9 <= code <= 0xd
    ||| code == 0x20
    ||| code == 0x85
    ||| code == 0xa0
    ||| code == 0x1680
    ||| 0x2000 <= code <= 0x200a
    ||| code == 0x2028
    ||| code == 0x2029
    ||| code == 0x202f
    ||| code == 0x205f
    ||| code == 0x3000
}

/// [`char::is_alphabetic`] tests for the Unicode property `Alphabetic`. Its
/// answer is a fixed function of the character, and among the ASCII characters
/// it holds of the 52 letters alone. Which characters outside ASCII have the
/// property is left to the name.
pub assume_specification[ char::is_alphabetic ](c: char) -> (answer: bool)
    ensures
        answer == if ascii(c) {
            'a' <= c <= 'z' || 'A' <= c <= 'Z'
        } else {
            unicode_alphabetic(c)
        },
;

/// [`char::is_alphanumeric`] holds of a character that is either alphabetic or
/// numeric, and of no other. Among the ASCII characters the numeric ones are
/// the ten digits; outside ASCII they are left to the name.
pub assume_specification[ char::is_alphanumeric ](c: char) -> (answer: bool)
    ensures
        answer == if ascii(c) {
            'a' <= c <= 'z' || 'A' <= c <= 'Z' || digit(c)
        } else {
            unicode_alphabetic(c) || unicode_numeric(c)
        },
;

/// [`char::is_whitespace`] tests for the Unicode property `White_Space`, which
/// the file `PropList.txt` of the Unicode Character Database gives to exactly
/// the code points listed in [`whitespace`].
pub assume_specification[ char::is_whitespace ](c: char) -> (answer: bool)
    ensures
        answer == whitespace(c),
;

} // verus!
