//! Characters and bytes.
//!
//! Source text is lexed character by character and addressed byte by byte. This
//! module relates the two: how many bytes a run of characters takes up, and
//! which byte offsets fall between characters. It also counts words and writes
//! numbers out.
use crate::chars;
use vstd::prelude::*;
use vstd::string::*;
use vstd::utf8::*;

pub mod laws;

verus! {

/// How many bytes `chars` takes up as UTF-8.
pub open spec fn byte_len(chars: Seq<char>) -> nat {
    encode_utf8(chars).len()
}

/// How many bytes one character takes up as UTF-8.
pub open spec fn char_width(c: char) -> nat {
    encode_scalar(c as u32).len()
}

/// A word begins at position `i`: there is no space there, and what comes
/// before it, if anything, is space.
pub open spec fn starts_word(chars: Seq<char>, i: int) -> bool {
    !chars::whitespace(chars[i]) && (i == 0 || chars::whitespace(chars[i - 1]))
}

/// How many words `chars` holds, where words are separated by space.
pub open spec fn words(chars: Seq<char>) -> nat
    decreases chars.len(),
{
    if chars.len() == 0 {
        0
    } else if starts_word(chars, chars.len() - 1) {
        words(chars.drop_last()) + 1
    } else {
        words(chars.drop_last())
    }
}

/// The decimal digit for `n`, which is below ten.
pub open spec fn digit_char(n: nat) -> char {
    ('0' as u32 + n) as char
}

/// `n` written in decimal, without leading zeros.
pub open spec fn decimal(n: nat) -> Seq<char>
    decreases n,
{
    if n < 10 {
        seq![digit_char(n)]
    } else {
        decimal(n / 10).push(digit_char(n % 10))
    }
}

/// Encoding distributes over concatenation.
pub proof fn lemma_encode_concat(a: Seq<char>, b: Seq<char>)
    ensures
        encode_utf8(a + b) == encode_utf8(a) + encode_utf8(b),
        byte_len(a + b) == byte_len(a) + byte_len(b),
    decreases a.len(),
{
    if a.len() == 0 {
        assert(a + b =~= b);
        assert(encode_utf8(a) =~= Seq::<u8>::empty());
        assert(encode_utf8(a) + encode_utf8(b) =~= encode_utf8(b));
    } else {
        lemma_encode_concat(a.drop_first(), b);
        assert((a + b).drop_first() =~= a.drop_first() + b);
        assert(encode_utf8(a + b) =~= encode_utf8(a) + encode_utf8(b));
    }
}

/// Different texts have different encodings.
pub proof fn lemma_encode_injective(a: Seq<char>, b: Seq<char>)
    requires
        encode_utf8(a) == encode_utf8(b),
    ensures
        a == b,
{
    encode_utf8_decode_utf8(a);
    encode_utf8_decode_utf8(b);
}

/// Every character takes up at least one byte.
pub proof fn lemma_byte_len_bound(chars: Seq<char>)
    ensures
        chars.len() <= byte_len(chars),
    decreases chars.len(),
{
    if chars.len() > 0 {
        lemma_byte_len_bound(chars.drop_first());
    }
}

/// A text whose first byte is ASCII starts with that character.
pub proof fn lemma_first_byte(chars: Seq<char>)
    requires
        chars.len() > 0,
        encode_utf8(chars)[0] < 0x80,
    ensures
        chars[0] as u32 == encode_utf8(chars)[0],
{
    let scalar = chars[0] as u32;
    let two = ((scalar >> 6) & 0x1F) as u8;
    let three = ((scalar >> 12) & 0x0F) as u8;
    let four = ((scalar >> 18) & 0x07) as u8;
    assert(encode_utf8(chars)[0] == encode_scalar(scalar)[0]);
    assert(scalar <= 0x7F ==> (scalar & 0x7F) as u8 == scalar) by (bit_vector);
    assert(0xC0u8 | two >= 0x80) by (bit_vector);
    assert(0xE0u8 | three >= 0x80) by (bit_vector);
    assert(0xF0u8 | four >= 0x80) by (bit_vector);
}

/// A longer prefix takes up no fewer bytes.
pub proof fn lemma_byte_len_take(chars: Seq<char>, i: int, j: int)
    requires
        0 <= i <= j <= chars.len(),
    ensures
        byte_len(chars.take(j)) == byte_len(chars.take(i)) + byte_len(chars.subrange(i, j)),
        byte_len(chars.take(i)) <= byte_len(chars.take(j)) <= byte_len(chars),
{
    assert(chars.take(j) =~= chars.take(i) + chars.subrange(i, j));
    lemma_encode_concat(chars.take(i), chars.subrange(i, j));
    assert(chars =~= chars.take(j) + chars.skip(j));
    lemma_encode_concat(chars.take(j), chars.skip(j));
}

/// The bytes of a run of characters are the bytes between its two ends.
pub proof fn lemma_encode_subrange(chars: Seq<char>, i: int, j: int)
    requires
        0 <= i <= j <= chars.len(),
    ensures
        encode_utf8(chars.subrange(i, j)) == encode_utf8(chars).subrange(
            byte_len(chars.take(i)) as int,
            byte_len(chars.take(j)) as int,
        ),
{
    let head = chars.take(i);
    let body = chars.subrange(i, j);
    let tail = chars.skip(j);
    assert(chars =~= head + (body + tail));
    lemma_encode_concat(head, body + tail);
    lemma_encode_concat(body, tail);
    lemma_byte_len_take(chars, i, j);
    assert(encode_utf8(chars).subrange(
        byte_len(head) as int,
        byte_len(chars.take(j)) as int,
    ) =~= encode_utf8(body));
}

/// The end of any prefix of characters is a character boundary.
pub proof fn lemma_boundary(chars: Seq<char>, i: int)
    requires
        0 <= i <= chars.len(),
    ensures
        is_char_boundary(encode_utf8(chars), byte_len(chars.take(i)) as int),
    decreases i,
{
    encode_utf8_valid_utf8(chars);
    if i == 0 {
        assert(encode_utf8(chars.take(0)).len() == 0);
        is_char_boundary_start_end_of_seq(encode_utf8(chars));
    } else {
        let rest = chars.drop_first();
        encode_utf8_first_scalar(chars);
        assert(pop_first_scalar(encode_utf8(chars)) =~= encode_utf8(rest));
        lemma_boundary(rest, i - 1);
        assert(chars.take(i).drop_first() =~= rest.take(i - 1));
        lemma_byte_len_take(chars, i, i);
    }
}

/// Shortening a text to a boundary keeps the boundaries before it.
pub proof fn lemma_boundary_in_prefix(bytes: Seq<u8>, lo: int, hi: int)
    requires
        valid_utf8(bytes),
        0 <= lo <= hi <= bytes.len(),
        is_char_boundary(bytes, lo),
        is_char_boundary(bytes, hi),
    ensures
        is_char_boundary(bytes.subrange(0, hi), lo),
{
    let prefix = bytes.subrange(0, hi);
    valid_utf8_split(bytes, hi);
    if lo == hi {
        is_char_boundary_start_end_of_seq(prefix);
    } else {
        is_char_boundary_iff_not_is_continuation_byte(bytes, lo);
        is_char_boundary_iff_not_is_continuation_byte(prefix, lo);
    }
}

/// A boundary lies within the text.
pub proof fn lemma_boundary_in_bounds(bytes: Seq<u8>, index: int)
    requires
        valid_utf8(bytes),
        is_char_boundary(bytes, index),
    ensures
        0 <= index <= bytes.len(),
{
}

/// There are no more words than characters.
pub proof fn lemma_words_bound(chars: Seq<char>)
    ensures
        words(chars) <= chars.len(),
    decreases chars.len(),
{
    if chars.len() > 0 {
        lemma_words_bound(chars.drop_last());
    }
}

/// Different numbers are written differently.
pub proof fn lemma_decimal_injective(a: nat, b: nat)
    requires
        decimal(a) == decimal(b),
    ensures
        a == b,
    decreases a,
{
    assert(decimal(a).last() == digit_char(a % 10));
    assert(decimal(b).last() == digit_char(b % 10));
    if a >= 10 || b >= 10 {
        lemma_decimal_nonempty(a / 10);
        lemma_decimal_nonempty(b / 10);
        assert(a >= 10 ==> decimal(a).drop_last() =~= decimal(a / 10));
        assert(b >= 10 ==> decimal(b).drop_last() =~= decimal(b / 10));
        lemma_decimal_injective(a / 10, b / 10);
    }
}

proof fn lemma_decimal_nonempty(n: nat)
    ensures
        decimal(n).len() > 0,
{
}

/// Keeps the low 32 bits of `n`.
pub fn low_bits(n: usize) -> (low: u32)
    ensures
        low == n as int % 0x1_0000_0000,
{
    let wide: u64 = n as u64;
    proof {
        assert(wide as u32 == wide % 0x1_0000_0000) by (bit_vector);
    }
    #[verifier::truncate]
    (wide as u32)
}

/// The length of `text` in bytes.
pub fn str_len(text: &str) -> (len: usize)
    ensures
        len == byte_len(text@),
{
    text.as_bytes().len()
}

/// The first character of `text` and what follows it.
pub fn split_first(text: &str) -> (parts: Option<(char, &str)>)
    ensures
        match parts {
            Some((c, rest)) => text@.len() > 0 && c == text@[0] && rest@ == text@.drop_first(),
            None => text@.len() == 0,
        },
{
    if text.is_empty() {
        return None;
    }
    let c = text.get_char(0);
    let width: usize = utf8_width(c);
    proof {
        lemma_boundary(text@, 1);
        lemma_encode_subrange(text@, 1, text@.len() as int);
        assert(text@.take(1).drop_first() =~= Seq::<char>::empty());
        assert(text@.take(1)[0] == c);
        assert(encode_utf8(text@.take(1).drop_first()) =~= Seq::<u8>::empty());
        assert(encode_utf8(text@.take(1)) =~= encode_scalar(c as u32));
        assert(text@.take(text@.len() as int) =~= text@);
        assert(text@.subrange(1, text@.len() as int) =~= text@.drop_first());
    }
    let rest = text.split_at(width).1;
    proof {
        lemma_encode_injective(rest@, text@.drop_first());
    }
    Some((c, rest))
}

/// How many bytes `c` takes up.
fn utf8_width(c: char) -> (width: usize)
    ensures
        width == char_width(c),
{
    let code: u32 = c as u32;
    if code < 0x80 {
        1
    } else if code < 0x800 {
        2
    } else if code < 0x1_0000 {
        3
    } else {
        4
    }
}

/// Counts the words of `text`, which are separated by space.
pub fn count_words(text: &str) -> (count: usize)
    ensures
        count == words(text@),
{
    let size: usize = str_len(text);
    let mut rest = text;
    let mut count: usize = 0;
    let mut after_space = true;
    let ghost mut done: int = 0;
    proof {
        lemma_byte_len_bound(text@);
        assert(text@.skip(0) =~= text@);
        assert(words(text@.take(0)) == 0);
    }
    loop
        invariant
            0 <= done <= text@.len() <= size,
            rest@ == text@.skip(done),
            count == words(text@.take(done)),
            after_space == (done == 0 || chars::whitespace(text@[done - 1])),
        ensures
            done == text@.len(),
        decreases rest@.len(),
    {
        let (c, tail) = match split_first(rest) {
            Some(parts) => parts,
            None => {
                break;
            },
        };
        let space = c.is_whitespace();
        proof {
            assert(text@.take(done + 1).drop_last() =~= text@.take(done));
            assert(rest@.drop_first() =~= text@.skip(done + 1));
            lemma_words_bound(text@.take(done));
        }
        if !space && after_space {
            count += 1;
        }
        after_space = space;
        rest = tail;
        proof {
            done = done + 1;
        }
    }
    assert(text@.take(done) =~= text@);
    count
}

/// Writes `n` in decimal.
pub fn to_decimal(n: u32) -> (digits: String)
    ensures
        digits@ == decimal(n as nat),
    decreases n,
{
    let mut digits = if n < 10 {
        String::new()
    } else {
        to_decimal(n / 10)
    };
    digits.append(digit_str(n % 10));
    assert(digits@ =~= decimal(n as nat));
    digits
}

/// Writes a number below ten.
fn digit_str(n: u32) -> (digit: &'static str)
    requires
        n < 10,
    ensures
        digit@ == seq![digit_char(n as nat)],
{
    proof {
        reveal_strlit("0");
        reveal_strlit("1");
        reveal_strlit("2");
        reveal_strlit("3");
        reveal_strlit("4");
        reveal_strlit("5");
        reveal_strlit("6");
        reveal_strlit("7");
        reveal_strlit("8");
        reveal_strlit("9");
    }
    let digit = match n {
        0 => "0",
        1 => "1",
        2 => "2",
        3 => "3",
        4 => "4",
        5 => "5",
        6 => "6",
        7 => "7",
        8 => "8",
        _ => "9",
    };
    assert(digit@ =~= seq![digit_char(n as nat)]);
    digit
}

} // verus!
