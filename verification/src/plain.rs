//! Plain descriptions of characters.
//!
//! The laws of the library are stated in these words rather than in those that
//! the functions are defined with.
use crate::chars;
use vstd::prelude::*;

verus! {

/// `c` is space of some kind: it has the Unicode property `White_Space`.
pub open spec fn space(c: char) -> bool {
    ||| c == ' ' || c == '\n' || c == '\t' || c == '\r'
    ||| c == '\u{b}' || c == '\u{c}' || c == '\u{85}' || c == '\u{a0}'
    ||| c == '\u{1680}' || '\u{2000}' <= c <= '\u{200a}'
    ||| c == '\u{2028}' || c == '\u{2029}' || c == '\u{202f}' || c == '\u{205f}'
    ||| c == '\u{3000}'
}

/// `c` is a decimal digit.
pub open spec fn digit(c: char) -> bool {
    '0' <= c <= '9'
}

/// `c` is a letter. Outside ASCII the standard library decides.
pub open spec fn letter(c: char) -> bool {
    if c <= '\u{7f}' {
        'a' <= c <= 'z' || 'A' <= c <= 'Z'
    } else {
        chars::unicode_alphabetic(c)
    }
}

/// `c` is a number. Outside ASCII the standard library decides.
pub open spec fn number(c: char) -> bool {
    if c <= '\u{7f}' {
        '0' <= c <= '9'
    } else {
        chars::unicode_numeric(c)
    }
}

/// `c` may begin a word.
pub open spec fn begins_word(c: char) -> bool {
    !space(c) && (letter(c) || c == '_')
}

/// `c` may continue a word.
pub open spec fn continues_word(c: char) -> bool {
    letter(c) || number(c) || c == '_'
}

/// The character classes are what they are said to be.
pub proof fn lemma_classes(c: char)
    ensures
        chars::whitespace(c) == space(c),
        chars::alphabetic(c) == letter(c),
        chars::numeric(c) == number(c),
        chars::digit(c) == digit(c),
        chars::ascii(c) == (c <= '\u{7f}'),
{
}

} // verus!
