//! What the raw lexer promises, in plain words about characters.
//!
//! [`lemma_lexemes_look_right`] says what a token of each kind looks like, so
//! that the text of a token tells its kind. [`lemma_lexemes_stop_right`] says
//! what cannot follow it, so that its start tells its end. With the tiling of
//! [`lexer::lemma_lexemes_tile`] these leave one way to cut a text into tokens.
use crate::lexer;
use crate::lexer::{CharClass, Lexeme, RawTokenKind};
use crate::plain;
use crate::text;
use vstd::prelude::*;

verus! {

/// What the two pairs `/*` and `*/` do to the depth of a block comment, read from
/// left to right without overlap: each `/*` opens a level and each `*/` closes
/// one. Nothing else counts.
pub open spec fn turns(s: Seq<char>) -> Seq<int>
    decreases s.len(),
{
    if s.len() < 2 {
        Seq::empty()
    } else if s[0] == '/' && s[1] == '*' {
        seq![1int] + turns(s.skip(2))
    } else if s[0] == '*' && s[1] == '/' {
        seq![-1int] + turns(s.skip(2))
    } else {
        turns(s.skip(1))
    }
}

/// The depth after the first `k` turns.
pub open spec fn depth(turns: Seq<int>, k: int) -> int
    decreases k,
{
    if k <= 0 {
        0
    } else {
        depth(turns, k - 1) + turns[k - 1]
    }
}

/// `s` is a block comment. If it is `terminated`, it ends at the first point where
/// every level that was opened is closed. If it is not, there is no such point.
pub open spec fn block_comment(s: Seq<char>, terminated: bool) -> bool {
    let turns = turns(s);
    &&& s.len() >= 2 && s[0] == '/' && s[1] == '*'
    &&& forall|k: int| 0 < k < turns.len() ==> #[trigger] depth(turns, k) > 0
    &&& if terminated {
        &&& depth(turns, turns.len() as int) == 0
        &&& s.len() >= 4 && s[s.len() - 2] == '*' && s[s.len() - 1] == '/'
    } else {
        depth(turns, turns.len() as int) > 0
    }
}

/// `c` is a token by itself.
pub open spec fn punctuation(c: char) -> bool {
    ||| c == '(' || c == ')' || c == '{' || c == '}'
    ||| c == ',' || c == ':' || c == ';' || c == '.'
    ||| c == '=' || c == '!' || c == '<' || c == '>'
    ||| c == '+' || c == '-' || c == '*' || c == '/' || c == '%'
    ||| c == '&'
}

/// `s` looks like a token of this kind.
pub open spec fn looks(kind: RawTokenKind, s: Seq<char>) -> bool {
    match kind {
        RawTokenKind::Whitespace => s.len() > 0 && forall|i: int|
            0 <= i < s.len() ==> plain::space(#[trigger] s[i]),
        RawTokenKind::LineComment => {
            &&& s.len() >= 2 && s[0] == '/' && s[1] == '/'
            &&& forall|i: int| 0 <= i < s.len() ==> #[trigger] s[i] != '\n'
        },
        RawTokenKind::BlockComment { terminated } => block_comment(s, terminated),
        RawTokenKind::Ident => {
            &&& s.len() > 0 && plain::begins_word(s[0])
            &&& forall|i: int| 0 < i < s.len() ==> plain::continues_word(#[trigger] s[i])
        },
        RawTokenKind::Int => {
            &&& s.len() > 0 && plain::digit(s[0])
            &&& forall|i: int|
                0 < i < s.len() ==> plain::digit(#[trigger] s[i]) || s[i] == '_'
        },
        RawTokenKind::Lifetime => {
            &&& s.len() >= 2 && s[0] == '\'' && (plain::letter(s[1]) || s[1] == '_')
            &&& forall|i: int| 1 < i < s.len() ==> plain::continues_word(#[trigger] s[i])
        },
        RawTokenKind::OpenParen => s.len() == 1 && s[0] == '(',
        RawTokenKind::CloseParen => s.len() == 1 && s[0] == ')',
        RawTokenKind::OpenBrace => s.len() == 1 && s[0] == '{',
        RawTokenKind::CloseBrace => s.len() == 1 && s[0] == '}',
        RawTokenKind::Comma => s.len() == 1 && s[0] == ',',
        RawTokenKind::Colon => s.len() == 1 && s[0] == ':',
        RawTokenKind::Semi => s.len() == 1 && s[0] == ';',
        RawTokenKind::Dot => s.len() == 1 && s[0] == '.',
        RawTokenKind::Eq => s.len() == 1 && s[0] == '=',
        RawTokenKind::Bang => s.len() == 1 && s[0] == '!',
        RawTokenKind::Lt => s.len() == 1 && s[0] == '<',
        RawTokenKind::Gt => s.len() == 1 && s[0] == '>',
        RawTokenKind::Plus => s.len() == 1 && s[0] == '+',
        RawTokenKind::Minus => s.len() == 1 && s[0] == '-',
        RawTokenKind::Star => s.len() == 1 && s[0] == '*',
        RawTokenKind::Slash => s.len() == 1 && s[0] == '/',
        RawTokenKind::Percent => s.len() == 1 && s[0] == '%',
        RawTokenKind::And => s.len() == 1 && s[0] == '&',
        RawTokenKind::Unknown => {
            &&& s.len() == 1
            &&& !plain::space(s[0]) && !plain::begins_word(s[0]) && !plain::digit(s[0])
            &&& !punctuation(s[0])
        },
        RawTokenKind::Eof => false,
    }
}

/// `c` may follow a token of this kind that is written `s`: it could not have
/// been part of it.
pub open spec fn may_follow(kind: RawTokenKind, s: Seq<char>, c: char) -> bool {
    match kind {
        RawTokenKind::Whitespace => !plain::space(c),
        RawTokenKind::LineComment => c == '\n',
        RawTokenKind::BlockComment { terminated } => terminated,
        RawTokenKind::Ident | RawTokenKind::Lifetime => !plain::continues_word(c),
        RawTokenKind::Int => !plain::digit(c) && c != '_',
        RawTokenKind::Slash => c != '/' && c != '*',
        RawTokenKind::Unknown => s[0] == '\'' ==> !plain::letter(c) && c != '_',
        _ => true,
    }
}

proof fn lemma_depth_shifts(first: int, rest: Seq<int>, k: int)
    requires
        0 <= k <= rest.len(),
    ensures
        depth(seq![first] + rest, k + 1) == first + depth(rest, k),
    decreases k,
{
    let all = seq![first] + rest;
    assert(all[k] == if k == 0 {
        first
    } else {
        rest[k - 1]
    });
    if k > 0 {
        lemma_depth_shifts(first, rest, k - 1);
    } else {
        assert(depth(all, 0) == 0);
    }
}

/// What is left of a block comment of which `open` levels are open ends at the
/// first point where all are closed.
proof fn lemma_comment_turns(s: Seq<char>, open: nat)
    requires
        open > 0,
    ensures
        ({
            let (n, closed) = lexer::comment_rest(s, open);
            let turns = turns(s.take(n as int));
            &&& n <= s.len()
            &&& forall|k: int| 0 <= k < turns.len() ==> open + #[trigger] depth(turns, k) > 0
            &&& closed ==> open + depth(turns, turns.len() as int) == 0
            &&& !closed ==> open + depth(turns, turns.len() as int) > 0
        }),
    decreases s.len(),
{
    let (n, closed) = lexer::comment_rest(s, open);
    lexer::lemma_comment_bound(s, open);
    let t = s.take(n as int);
    let all = turns(t);
    if s.len() == 0 {
        assert(depth(all, 0) == 0);
    } else if s.len() >= 2 && ((s[0] == '/' && s[1] == '*') || (s[0] == '*' && s[1] == '/')) {
        let first: int = if s[0] == '/' {
            1
        } else {
            -1
        };
        let next = (open + first) as nat;
        let rest = turns(t.skip(2));
        lexer::lemma_comment_bound(s.skip(2), next);
        assert(t.skip(2) =~= s.skip(2).take(n - 2));
        assert(all == seq![first] + rest);
        if next > 0 {
            lemma_comment_turns(s.skip(2), next);
        } else {
            assert(n == 2);
            assert(rest =~= Seq::empty());
            assert(depth(rest, 0) == 0);
        }
        lemma_depth_shifts(first, rest, rest.len() as int);
        assert forall|k: int| 0 <= k < all.len() implies open + #[trigger] depth(all, k) > 0 by {
            if k > 0 {
                lemma_depth_shifts(first, rest, k - 1);
                assert(next + depth(rest, k - 1) > 0);
            }
        }
    } else {
        lexer::lemma_comment_bound(s.drop_first(), open);
        lemma_comment_turns(s.drop_first(), open);
        assert(t.drop_first() =~= s.drop_first().take(n - 1));
        if t.len() >= 2 {
            assert(t.skip(1) =~= t.drop_first());
        } else {
            assert(turns(t.drop_first()) =~= all);
        }
    }
}

/// A block comment looks like one.
proof fn lemma_block_comment_looks_right(s: Seq<char>, terminated: bool)
    requires
        lexer::well_shaped(Lexeme { kind: RawTokenKind::BlockComment { terminated }, text: s }),
    ensures
        block_comment(s, terminated),
{
    let rest = s.skip(2);
    lemma_comment_turns(rest, 1);
    assert(rest.take(rest.len() as int) =~= rest);
    let inner = turns(rest);
    assert(turns(s) == seq![1int] + inner);
    lemma_depth_shifts(1, inner, inner.len() as int);
    assert forall|k: int| 0 < k < turns(s).len() implies #[trigger] depth(turns(s), k) > 0 by {
        lemma_depth_shifts(1, inner, k - 1);
        assert(1 + depth(inner, k - 1) > 0);
    }
}

/// Every token looks the way its kind says.
pub proof fn lemma_lexemes_look_right(s: Seq<char>, i: int)
    requires
        0 <= i < lexer::lexemes(s).len(),
    ensures
        looks(lexer::lexemes(s)[i].kind, lexer::lexemes(s)[i].text),
{
    lexer::lemma_lexemes_are_well_shaped(s, i);
    lexer::lemma_lexemes_suffix(s, i);
    let lexeme = lexer::lexemes(s)[i];
    let t = lexeme.text;
    let rest = s.skip(lexer::written(lexer::lexemes(s).take(i)).len() as int);
    lexer::lemma_first_token_bound(rest);
    assert(lexer::lexemes(rest)[0] == lexeme);
    assert(t[0] == rest[0]);
    if let RawTokenKind::BlockComment { terminated } = lexeme.kind {
        lemma_block_comment_looks_right(t, terminated);
    }
    assert forall|j: int| 0 <= j < t.len() implies {
        let c = #[trigger] t[j];
        &&& lexer::in_class(c, CharClass::Whitespace) == plain::space(c)
        &&& lexer::in_class(c, CharClass::InLine) == (c != '\n')
        &&& lexer::in_class(c, CharClass::IdentContinue) == plain::continues_word(c)
        &&& lexer::in_class(c, CharClass::IntContinue) == (plain::digit(c) || c == '_')
        &&& lexer::ident_start(c) == (plain::letter(c) || c == '_')
    } by {
        plain::lemma_classes(t[j]);
    }
    assert forall|j: int| 0 < j < t.len() implies t.drop_first()[j - 1] == #[trigger] t[j] by {}
    plain::lemma_classes(t[0]);
}

/// What comes after a token could not have been part of it. Nothing comes after a
/// comment left open.
pub proof fn lemma_lexemes_stop_right(s: Seq<char>, i: int)
    requires
        0 <= i < lexer::lexemes(s).len() - 1,
    ensures
        may_follow(
            lexer::lexemes(s)[i].kind,
            lexer::lexemes(s)[i].text,
            lexer::lexemes(s)[i + 1].text[0],
        ),
{
    lexer::lemma_lexemes_are_maximal(s, i);
    lexer::lemma_lexemes_suffix(s, i);
    lexer::lemma_lexemes_suffix(s, i + 1);
    lexer::lemma_offset_step(lexer::lexemes(s), i);
    lexer::lemma_lexemes_tile(s);
    let p = lexer::written(lexer::lexemes(s).take(i)).len() as int;
    let rest = s.skip(p);
    let n = lexer::lexemes(s)[i].text.len() as int;
    let next = s.skip(p + n);
    lexer::lemma_first_token_bound(rest);
    lexer::lemma_first_token_bound(next);
    assert(lexer::lexemes(rest)[0] == lexer::lexemes(s)[i]);
    assert(lexer::lexemes(next)[0] == lexer::lexemes(s)[i + 1]);
    let c = lexer::lexemes(s)[i + 1].text[0];
    assert(c == next[0]);
    assert(next[0] == rest[n]);
    plain::lemma_classes(c);
    lexer::lemma_lexemes_are_well_shaped(s, i);
    if n == 1 {
        assert(rest.drop_first()[0] == c);
    }
}

/// The lengths of the tokens add up to the length of the text.
pub open spec fn total(lengths: Seq<nat>) -> nat
    decreases lengths.len(),
{
    if lengths.len() == 0 {
        0
    } else {
        total(lengths.drop_last()) + lengths.last()
    }
}

/// The lengths of the tokens, in bytes, add up to the length of the text.
pub proof fn lemma_lengths_add_up(s: Seq<char>)
    ensures
        total(
            Seq::new(
                lexer::lexemes(s).len(),
                |i: int| text::byte_len(lexer::lexemes(s)[i].text),
            ),
        ) == text::byte_len(s),
{
    let all = lexer::lexemes(s);
    lexer::lemma_lexemes_tile(s);
    lemma_lengths_to(s, all.len() as int);
    let lengths = Seq::new(all.len(), |i: int| text::byte_len(all[i].text));
    assert(lengths.take(all.len() as int) =~= lengths);
}

proof fn lemma_lengths_to(s: Seq<char>, n: int)
    requires
        0 <= n <= lexer::lexemes(s).len(),
    ensures
        total(
            Seq::new(
                lexer::lexemes(s).len(),
                |i: int| text::byte_len(lexer::lexemes(s)[i].text),
            ).take(n),
        ) == lexer::offset(lexer::lexemes(s), n),
    decreases n,
{
    let all = lexer::lexemes(s);
    let lengths = Seq::new(all.len(), |i: int| text::byte_len(all[i].text));
    if n == 0 {
        assert(all.take(0) =~= Seq::<Lexeme>::empty());
        assert(vstd::utf8::encode_utf8(Seq::<char>::empty()) =~= Seq::<u8>::empty());
    } else {
        lemma_lengths_to(s, n - 1);
        lexer::lemma_offset_step(all, n - 1);
        assert(lengths.take(n).drop_last() =~= lengths.take(n - 1));
    }
}

} // verus!
