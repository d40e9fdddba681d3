//! What counting words and writing numbers amount to.
use crate::plain;
use crate::text;
use vstd::prelude::*;

verus! {

/// There is no word in nothing.
pub proof fn lemma_no_words_in_nothing()
    ensures
        text::words(Seq::empty()) == 0,
{
}

/// Characters without space among them are one word.
pub proof fn lemma_a_word_is_one_word(word: Seq<char>)
    requires
        word.len() > 0,
        forall|i: int| 0 <= i < word.len() ==> !plain::space(#[trigger] word[i]),
    ensures
        text::words(word) == 1,
    decreases word.len(),
{
    plain::lemma_classes(word.last());
    assert(!plain::space(word[word.len() - 1]));
    if word.len() > 1 {
        let front = word.drop_last();
        assert(!plain::space(word[word.len() - 2]));
        plain::lemma_classes(word[word.len() - 2]);
        assert forall|i: int| 0 <= i < front.len() implies !plain::space(#[trigger] front[i]) by {
            assert(front[i] == word[i]);
        }
        lemma_a_word_is_one_word(front);
    } else {
        assert(text::words(word.drop_last()) == 0);
    }
}

/// Space of any kind separates words: those on its two sides are counted by
/// themselves.
pub proof fn lemma_space_separates_words(a: Seq<char>, c: char, b: Seq<char>)
    requires
        plain::space(c),
    ensures
        text::words(a + seq![c] + b) == text::words(a) + text::words(b),
    decreases b.len(),
{
    let whole = a + seq![c] + b;
    plain::lemma_classes(c);
    if b.len() == 0 {
        assert(whole.drop_last() =~= a);
    } else {
        assert(whole.drop_last() =~= a + seq![c] + b.drop_last());
        lemma_space_separates_words(a, c, b.drop_last());
        assert(whole.last() == b.last());
        if b.len() == 1 {
            assert(whole[whole.len() - 2] == c);
        } else {
            assert(whole[whole.len() - 2] == b[b.len() - 2]);
        }
    }
}

/// The number that decimal digits stand for.
pub open spec fn value(digits: Seq<char>) -> nat
    decreases digits.len(),
{
    if digits.len() == 0 {
        0
    } else {
        value(digits.drop_last()) * 10 + (digits.last() as u32 - '0' as u32) as nat
    }
}

/// A number is written with decimal digits that stand for it, without leading
/// zeros.
pub proof fn lemma_decimal_stands_for_the_number(n: nat)
    ensures
        text::decimal(n).len() > 0,
        forall|i: int|
            0 <= i < text::decimal(n).len() ==> '0' <= #[trigger] text::decimal(n)[i] <= '9',
        text::decimal(n)[0] == '0' ==> n == 0,
        n == 0 ==> text::decimal(n).len() == 1,
        value(text::decimal(n)) == n,
    decreases n,
{
    let digits = text::decimal(n);
    if n < 10 {
        assert(value(digits.drop_last()) == 0);
    } else {
        lemma_decimal_stands_for_the_number(n / 10);
        assert(digits.drop_last() =~= text::decimal(n / 10));
        assert forall|i: int| 0 <= i < digits.len() implies '0' <= #[trigger] digits[i] <= '9' by {
            if i < digits.len() - 1 {
                assert(digits[i] == text::decimal(n / 10)[i]);
            }
        }
        assert(digits[0] == text::decimal(n / 10)[0]);
    }
}

} // verus!
