//! The raw lexer: the first of two lexing layers.
//!
//! This layer answers exactly one question - "what is the next lexical unit, and
//! how many bytes long is it" - and deliberately knows nothing else. It has no
//! notion of source files, byte offsets, symbols, keywords, or diagnostics. The
//! second layer, which attaches spans and interns identifiers, is built on top.
//!
//! Three consequences of that split are worth stating:
//!
//! - **Keywords do not exist here.** `fn` and `let` are [`RawTokenKind::Ident`]
//!   like any other word.
//! - **Compound operators are not glued.** `==` lexes as two [`RawTokenKind::Eq`]
//!   tokens and `->` as [`RawTokenKind::Minus`] followed by [`RawTokenKind::Gt`].
//! - **Whitespace and comments are tokens.** Nothing is silently dropped, so the
//!   lengths of the tokens produced for an input sum exactly to that input's
//!   length. See [`lemma_lexemes_tile`].
//!
//! Lengths are `u32`, which caps a single source file at four gibibytes.
use crate::chars;
use crate::text;
use vstd::prelude::*;
use vstd::utf8::*;

pub mod laws;

verus! {

/// Returned by [`Cursor::first`] when there is no character left.
///
/// It is only ever observed by predicates, which are always paired with an
/// end-of-input check, so a literal NUL in the source is still lexed as
/// [`RawTokenKind::Unknown`].
const EOF_CHAR: char = '\0';

/// A lexical unit: what it is, and how many bytes it spans.
///
/// Carries no position. The layer above knows where lexing started and
/// accumulates these lengths into absolute offsets.
#[derive(Copy, Clone, PartialEq, Eq, Structural, Debug)]
pub struct RawToken {
    pub kind: RawTokenKind,
    pub len: u32,
}

/// The kinds of lexical unit this layer can produce.
///
/// Punctuation is one variant per character by design; see the module
/// documentation.
#[derive(Copy, Clone, PartialEq, Eq, Structural, Debug)]
pub enum RawTokenKind {
    /// Trivia. Reported rather than skipped so that token lengths tile the input.
    Whitespace,
    /// From `//` to just before the end of the line.
    LineComment,
    /// `terminated` is false for a block comment running to the end of the
    /// input. The token is still produced, because refusing to produce one would
    /// break the tiling and leave the layer above unable to place the error.
    BlockComment { terminated: bool },
    /// A word, keyword or not.
    Ident,
    /// A decimal literal, possibly with `_` separators.
    Int,
    /// `'a`. Distinguished lexically because it is a lexical shape, unlike a
    /// keyword, which is not.
    Lifetime,
    /// `(`
    OpenParen,
    /// `)`
    CloseParen,
    /// `{`
    OpenBrace,
    /// `}`
    CloseBrace,
    /// `,`
    Comma,
    /// `:`
    Colon,
    /// `;`
    Semi,
    /// `.`
    Dot,
    /// `=`
    Eq,
    /// `!`
    Bang,
    /// `<`
    Lt,
    /// `>`
    Gt,
    /// `+`
    Plus,
    /// `-`
    Minus,
    /// `*`
    Star,
    /// `/`
    Slash,
    /// `%`
    Percent,
    /// `&`
    And,
    /// A character this language has no use for. Reported rather than skipped,
    /// leaving the decision of how loudly to complain to the layer above.
    Unknown,
    /// Input exhausted. Never yielded by [`tokenize`], which ends instead.
    Eof,
}

/// The classes of character that a token can be a run of.
#[derive(Copy, Clone, PartialEq, Eq, Structural, Debug)]
pub enum CharClass {
    /// Space of any kind.
    Whitespace,
    /// Anything that does not end a line.
    InLine,
    /// What may continue an identifier.
    IdentContinue,
    /// What may continue an integer.
    IntContinue,
}

/// `c` may begin an identifier.
pub open spec fn ident_start(c: char) -> bool {
    c == '_' || chars::alphabetic(c)
}

/// `c` may continue an identifier.
pub open spec fn ident_continue(c: char) -> bool {
    c == '_' || chars::alphabetic(c) || chars::numeric(c)
}

/// `c` belongs to `class`.
pub open spec fn in_class(c: char, class: CharClass) -> bool {
    match class {
        CharClass::Whitespace => chars::whitespace(c),
        CharClass::InLine => c != '\n',
        CharClass::IdentContinue => ident_continue(c),
        CharClass::IntContinue => chars::digit(c) || c == '_',
    }
}

/// How many characters at the front of `s` belong to `class`.
pub open spec fn run(s: Seq<char>, class: CharClass) -> nat
    decreases s.len(),
{
    if s.len() > 0 && in_class(s[0], class) {
        1 + run(s.drop_first(), class)
    } else {
        0
    }
}

/// The kind of token that `c` is on its own.
pub open spec fn punctuation(c: char) -> RawTokenKind {
    match c {
        '(' => RawTokenKind::OpenParen,
        ')' => RawTokenKind::CloseParen,
        '{' => RawTokenKind::OpenBrace,
        '}' => RawTokenKind::CloseBrace,
        ',' => RawTokenKind::Comma,
        ':' => RawTokenKind::Colon,
        ';' => RawTokenKind::Semi,
        '.' => RawTokenKind::Dot,
        '=' => RawTokenKind::Eq,
        '!' => RawTokenKind::Bang,
        '<' => RawTokenKind::Lt,
        '>' => RawTokenKind::Gt,
        '+' => RawTokenKind::Plus,
        '-' => RawTokenKind::Minus,
        '*' => RawTokenKind::Star,
        '/' => RawTokenKind::Slash,
        '%' => RawTokenKind::Percent,
        '&' => RawTokenKind::And,
        _ => RawTokenKind::Unknown,
    }
}

/// What is left of a block comment of which `depth` levels are open: how many
/// characters it goes on for, and whether the outermost level is closed.
pub open spec fn comment_rest(s: Seq<char>, depth: nat) -> (nat, bool)
    decreases s.len(),
{
    if depth == 0 {
        (0, true)
    } else if s.len() == 0 {
        (0, false)
    } else if s.len() >= 2 && s[0] == '/' && s[1] == '*' {
        let (len, closed) = comment_rest(s.skip(2), depth + 1);
        (2 + len, closed)
    } else if s.len() >= 2 && s[0] == '*' && s[1] == '/' {
        let (len, closed) = comment_rest(s.skip(2), (depth - 1) as nat);
        (2 + len, closed)
    } else {
        let (len, closed) = comment_rest(s.drop_first(), depth);
        (1 + len, closed)
    }
}

/// The token at the front of `s`: its kind, and how many characters it takes.
pub open spec fn first_token(s: Seq<char>) -> (RawTokenKind, nat) {
    if s.len() == 0 {
        (RawTokenKind::Eof, 0)
    } else {
        let c = s[0];
        let rest = s.drop_first();
        if chars::whitespace(c) {
            (RawTokenKind::Whitespace, 1 + run(rest, CharClass::Whitespace))
        } else if c == '/' && rest.len() > 0 && rest[0] == '/' {
            (RawTokenKind::LineComment, 1 + run(rest, CharClass::InLine))
        } else if c == '/' && rest.len() > 0 && rest[0] == '*' {
            let (len, terminated) = comment_rest(s.skip(2), 1);
            (RawTokenKind::BlockComment { terminated }, 2 + len)
        } else if c == '\'' && rest.len() > 0 && ident_start(rest[0]) {
            (RawTokenKind::Lifetime, 1 + run(rest, CharClass::IdentContinue))
        } else if ident_start(c) {
            (RawTokenKind::Ident, 1 + run(rest, CharClass::IdentContinue))
        } else if chars::digit(c) {
            (RawTokenKind::Int, 1 + run(rest, CharClass::IntContinue))
        } else {
            (punctuation(c), 1)
        }
    }
}

/// A token together with the characters it is made of.
pub struct Lexeme {
    pub kind: RawTokenKind,
    pub text: Seq<char>,
}

impl Lexeme {
    /// What the raw layer reports of the lexeme. Lengths are kept in 32 bits.
    pub open spec fn raw(self) -> RawToken {
        RawToken {
            kind: self.kind,
            len: (text::byte_len(self.text) % 0x1_0000_0000) as u32,
        }
    }
}

/// `s` cut into its tokens, from left to right.
pub open spec fn lexemes(s: Seq<char>) -> Seq<Lexeme>
    decreases s.len(),
{
    let (kind, len) = first_token(s);
    if 0 < len <= s.len() {
        seq![Lexeme { kind, text: s.take(len as int) }] + lexemes(s.skip(len as int))
    } else {
        Seq::empty()
    }
}

/// The characters of `lexemes`, one after the other.
pub open spec fn written(lexemes: Seq<Lexeme>) -> Seq<char>
    decreases lexemes.len(),
{
    if lexemes.len() == 0 {
        Seq::empty()
    } else {
        written(lexemes.drop_last()) + lexemes.last().text
    }
}

/// The byte at which the lexeme numbered `i` starts.
pub open spec fn offset(lexemes: Seq<Lexeme>, i: int) -> nat {
    text::byte_len(written(lexemes.take(i)))
}

/// Each lexeme starts where the one before it ends.
pub proof fn lemma_offset_step(lexemes: Seq<Lexeme>, i: int)
    requires
        0 <= i < lexemes.len(),
    ensures
        written(lexemes.take(i + 1)) == written(lexemes.take(i)) + lexemes[i].text,
        offset(lexemes, i + 1) == offset(lexemes, i) + text::byte_len(lexemes[i].text),
{
    assert(lexemes.take(i + 1).drop_last() =~= lexemes.take(i));
    text::lemma_encode_concat(written(lexemes.take(i)), lexemes[i].text);
}

/// The characters of two runs of lexemes follow each other.
pub proof fn lemma_written_concat(a: Seq<Lexeme>, b: Seq<Lexeme>)
    ensures
        written(a + b) == written(a) + written(b),
    decreases b.len(),
{
    if b.len() == 0 {
        assert(a + b =~= a);
        assert(written(a) + written(b) =~= written(a));
    } else {
        assert((a + b).drop_last() =~= a + b.drop_last());
        lemma_written_concat(a, b.drop_last());
        assert(written(a + b) =~= written(a) + written(b));
    }
}

/// No lexeme starts or ends beyond the end of the text.
pub proof fn lemma_offset_bound(lexemes: Seq<Lexeme>, i: int)
    requires
        0 <= i <= lexemes.len(),
    ensures
        offset(lexemes, i) <= text::byte_len(written(lexemes)),
        written(lexemes) == written(lexemes.take(i)) + written(lexemes.skip(i)),
{
    assert(lexemes =~= lexemes.take(i) + lexemes.skip(i));
    lemma_written_concat(lexemes.take(i), lexemes.skip(i));
    text::lemma_encode_concat(written(lexemes.take(i)), written(lexemes.skip(i)));
}

/// Tokens tile their input: written one after the other, their texts are the
/// input, so that lengths can be accumulated into byte offsets. No token is
/// empty, and none of them is [`RawTokenKind::Eof`].
pub proof fn lemma_lexemes_tile(s: Seq<char>)
    ensures
        written(lexemes(s)) == s,
        offset(lexemes(s), lexemes(s).len() as int) == text::byte_len(s),
        forall|i: int|
            0 <= i < lexemes(s).len() ==> (#[trigger] lexemes(s)[i]).text.len() > 0
                && lexemes(s)[i].kind != RawTokenKind::Eof,
    decreases s.len(),
{
    lemma_first_token_bound(s);
    assert(lexemes(s).take(lexemes(s).len() as int) =~= lexemes(s));
    if s.len() > 0 {
        let (kind, len) = first_token(s);
        let head = seq![Lexeme { kind, text: s.take(len as int) }];
        let tail = lexemes(s.skip(len as int));
        lemma_lexemes_tile(s.skip(len as int));
        lemma_written_concat(head, tail);
        assert(head.drop_last() =~= Seq::<Lexeme>::empty());
        assert(written(head.drop_last()) =~= Seq::<char>::empty());
        assert(written(head) =~= s.take(len as int));
        assert(written(lexemes(s)) =~= s);
        assert forall|i: int| 0 <= i < lexemes(s).len() implies (#[trigger] lexemes(
            s,
        )[i]).text.len() > 0 && lexemes(s)[i].kind != RawTokenKind::Eof by {
            if i > 0 {
                assert(lexemes(s)[i] == tail[i - 1]);
            }
        }
    } else {
        assert(lexemes(s) =~= Seq::<Lexeme>::empty());
    }
}

/// A run of lexemes lies between two character boundaries of the input, and the
/// bytes between them are its own.
pub proof fn lemma_lexemes_slice(s: Seq<char>, i: int, j: int)
    requires
        0 <= i <= j <= lexemes(s).len(),
    ensures
        offset(lexemes(s), i) <= offset(lexemes(s), j) <= text::byte_len(s),
        is_char_boundary(encode_utf8(s), offset(lexemes(s), i) as int),
        is_char_boundary(encode_utf8(s), offset(lexemes(s), j) as int),
        encode_utf8(s).subrange(
            offset(lexemes(s), i) as int,
            offset(lexemes(s), j) as int,
        ) == encode_utf8(written(lexemes(s).subrange(i, j))),
{
    let all = lexemes(s);
    lemma_lexemes_tile(s);
    lemma_offset_bound(all, i);
    lemma_offset_bound(all, j);
    assert(all.take(j) =~= all.take(i) + all.subrange(i, j));
    lemma_written_concat(all.take(i), all.subrange(i, j));
    let lo = written(all.take(i)).len() as int;
    let hi = written(all.take(j)).len() as int;
    assert(s.take(lo) =~= written(all.take(i)));
    assert(s.take(hi) =~= written(all.take(j)));
    assert(s.subrange(lo, hi) =~= written(all.subrange(i, j)));
    text::lemma_boundary(s, lo);
    text::lemma_boundary(s, hi);
    text::lemma_encode_subrange(s, lo, hi);
    text::lemma_byte_len_take(s, lo, hi);
}

/// Every lexeme lies between two character boundaries of the input, and the
/// bytes between them are its own.
pub proof fn lemma_lexeme_slice(s: Seq<char>, i: int)
    requires
        0 <= i < lexemes(s).len(),
    ensures
        offset(lexemes(s), i) < offset(lexemes(s), i + 1) <= text::byte_len(s),
        is_char_boundary(encode_utf8(s), offset(lexemes(s), i) as int),
        is_char_boundary(encode_utf8(s), offset(lexemes(s), i + 1) as int),
        encode_utf8(s).subrange(
            offset(lexemes(s), i) as int,
            offset(lexemes(s), i + 1) as int,
        ) == encode_utf8(lexemes(s)[i].text),
{
    let all = lexemes(s);
    lemma_lexemes_tile(s);
    lemma_lexemes_slice(s, i, i + 1);
    lemma_offset_step(all, i);
    text::lemma_byte_len_bound(all[i].text);
    lemma_written_one(all, i);
}

/// A single lexeme is written as its own text.
pub proof fn lemma_written_one(lexemes: Seq<Lexeme>, i: int)
    requires
        0 <= i < lexemes.len(),
    ensures
        written(lexemes.subrange(i, i + 1)) == lexemes[i].text,
{
    let one = lexemes.subrange(i, i + 1);
    assert(one.drop_last() =~= Seq::<Lexeme>::empty());
    assert(written(one.drop_last()) =~= Seq::<char>::empty());
    assert(written(one) =~= lexemes[i].text);
}

pub proof fn lemma_run_bound(s: Seq<char>, class: CharClass)
    ensures
        run(s, class) <= s.len(),
    decreases s.len(),
{
    if s.len() > 0 {
        lemma_run_bound(s.drop_first(), class);
    }
}

pub proof fn lemma_comment_bound(s: Seq<char>, depth: nat)
    ensures
        comment_rest(s, depth).0 <= s.len(),
    decreases s.len(),
{
    if depth > 0 && s.len() > 0 {
        lemma_comment_bound(s.drop_first(), depth);
        if s.len() >= 2 {
            lemma_comment_bound(s.skip(2), depth + 1);
            lemma_comment_bound(s.skip(2), (depth - 1) as nat);
        }
    }
}

/// Unless the input is exhausted, the next token takes at least one character of
/// it and at most all of them. Only the end of the input is [`RawTokenKind::Eof`].
pub proof fn lemma_first_token_bound(s: Seq<char>)
    ensures
        first_token(s).1 <= s.len(),
        s.len() > 0 ==> first_token(s).1 > 0,
        first_token(s).0 == RawTokenKind::Eof <==> s.len() == 0,
{
    if s.len() > 0 {
        let rest = s.drop_first();
        lemma_run_bound(rest, CharClass::Whitespace);
        lemma_run_bound(rest, CharClass::InLine);
        lemma_run_bound(rest, CharClass::IdentContinue);
        lemma_run_bound(rest, CharClass::IntContinue);
        if rest.len() > 0 {
            lemma_comment_bound(s.skip(2), 1);
        }
    }
}

/// Every character of `chars` belongs to `class`.
pub open spec fn all_in_class(chars: Seq<char>, class: CharClass) -> bool {
    forall|i: int| 0 <= i < chars.len() ==> in_class(#[trigger] chars[i], class)
}

/// The class that a token of this kind goes on with for as long as it can.
pub open spec fn run_class(kind: RawTokenKind) -> Option<CharClass> {
    match kind {
        RawTokenKind::Whitespace => Some(CharClass::Whitespace),
        RawTokenKind::LineComment => Some(CharClass::InLine),
        RawTokenKind::Ident | RawTokenKind::Lifetime => Some(CharClass::IdentContinue),
        RawTokenKind::Int => Some(CharClass::IntContinue),
        _ => None,
    }
}

/// The lexeme looks the way its kind says.
pub open spec fn well_shaped(lexeme: Lexeme) -> bool {
    let s = lexeme.text;
    match lexeme.kind {
        RawTokenKind::Whitespace => s.len() >= 1 && all_in_class(s, CharClass::Whitespace),
        RawTokenKind::LineComment => {
            &&& s.len() >= 2 && s[0] == '/' && s[1] == '/'
            &&& all_in_class(s, CharClass::InLine)
        },
        RawTokenKind::BlockComment { terminated } => {
            &&& s.len() >= 2 && s[0] == '/' && s[1] == '*'
            &&& comment_rest(s.skip(2), 1) == ((s.len() - 2) as nat, terminated)
            &&& terminated ==> s.len() >= 4 && s[s.len() - 2] == '*' && s.last() == '/'
        },
        RawTokenKind::Ident => {
            &&& s.len() >= 1 && ident_start(s[0])
            &&& all_in_class(s.drop_first(), CharClass::IdentContinue)
        },
        RawTokenKind::Int => {
            &&& s.len() >= 1 && chars::digit(s[0])
            &&& all_in_class(s.drop_first(), CharClass::IntContinue)
        },
        RawTokenKind::Lifetime => {
            &&& s.len() >= 2 && s[0] == '\'' && ident_start(s[1])
            &&& all_in_class(s.drop_first(), CharClass::IdentContinue)
        },
        RawTokenKind::Eof => false,
        kind => s.len() == 1 && punctuation(s[0]) == kind,
    }
}

/// Cutting off whole tokens at the front leaves the remaining tokens as they
/// are.
pub proof fn lemma_lexemes_suffix(s: Seq<char>, i: int)
    requires
        0 <= i <= lexemes(s).len(),
    ensures
        written(lexemes(s).take(i)).len() <= s.len(),
        lexemes(s.skip(written(lexemes(s).take(i)).len() as int)) == lexemes(s).skip(i),
    decreases i,
{
    if i == 0 {
        assert(lexemes(s).take(0) =~= Seq::<Lexeme>::empty());
        assert(s.skip(0) =~= s);
        assert(lexemes(s).skip(0) =~= lexemes(s));
    } else {
        lemma_lexemes_suffix(s, i - 1);
        lemma_offset_step(lexemes(s), i - 1);
        let p = written(lexemes(s).take(i - 1)).len() as int;
        let rest = s.skip(p);
        let n = first_token(rest).1 as int;
        lemma_first_token_bound(rest);
        assert(lexemes(s).skip(i - 1)[0] == lexemes(s)[i - 1]);
        assert(lexemes(rest) =~= seq![
            Lexeme { kind: first_token(rest).0, text: rest.take(n) },
        ] + lexemes(rest.skip(n)));
        assert(rest.skip(n) =~= s.skip(p + n));
        assert(lexemes(rest).skip(1) =~= lexemes(rest.skip(n)));
        assert(lexemes(s).skip(i - 1).skip(1) =~= lexemes(s).skip(i));
    }
}

/// A run takes in nothing else, and stops only where it must.
pub proof fn lemma_run_is_maximal(s: Seq<char>, class: CharClass)
    ensures
        all_in_class(s.take(run(s, class) as int), class),
        run(s, class) < s.len() ==> !in_class(s[run(s, class) as int], class),
    decreases s.len(),
{
    lemma_run_bound(s, class);
    if s.len() > 0 && in_class(s[0], class) {
        let rest = s.drop_first();
        let n = run(rest, class) as int;
        lemma_run_is_maximal(rest, class);
        lemma_run_bound(rest, class);
        assert forall|i: int| 0 <= i < s.take(n + 1).len() implies in_class(
            #[trigger] s.take(n + 1)[i],
            class,
        ) by {
            if i > 0 {
                assert(s.take(n + 1)[i] == rest.take(n)[i - 1]);
            }
        }
    }
}

/// What is left of a block comment ends in `*/` if it is closed, goes on to the
/// end if it is not, and depends on nothing that comes after it.
proof fn lemma_comment_is_delimited(s: Seq<char>, depth: nat)
    ensures
        ({
            let (n, closed) = comment_rest(s, depth);
            &&& n <= s.len()
            &&& comment_rest(s.take(n as int), depth) == (n, closed)
            &&& closed && depth > 0 ==> n >= 2 && s[n - 2] == '*' && s[n - 1] == '/'
            &&& !closed ==> n == s.len()
        }),
    decreases s.len(),
{
    lemma_comment_bound(s, depth);
    let (n, closed) = comment_rest(s, depth);
    let t = s.take(n as int);
    if depth > 0 && s.len() > 0 {
        if s.len() >= 2 && s[0] == '/' && s[1] == '*' {
            lemma_comment_is_delimited(s.skip(2), depth + 1);
            assert(t.skip(2) =~= s.skip(2).take(n - 2));
        } else if s.len() >= 2 && s[0] == '*' && s[1] == '/' {
            lemma_comment_is_delimited(s.skip(2), (depth - 1) as nat);
            assert(t.skip(2) =~= s.skip(2).take(n - 2));
        } else {
            lemma_comment_is_delimited(s.drop_first(), depth);
            assert(t.drop_first() =~= s.drop_first().take(n - 1));
        }
    }
}

/// The first token looks the way its kind says, goes on for as long as it can,
/// and is the last one if it is a comment left open.
pub proof fn lemma_first_token_shape(s: Seq<char>)
    requires
        s.len() > 0,
    ensures
        ({
            let (kind, n) = first_token(s);
            &&& n <= s.len()
            &&& well_shaped(Lexeme { kind, text: s.take(n as int) })
            &&& n < s.len() ==> (run_class(kind) matches Some(class) ==> !in_class(
                s[n as int],
                class,
            ))
            &&& kind == (RawTokenKind::BlockComment { terminated: false }) ==> n == s.len()
        }),
{
    lemma_first_token_bound(s);
    let (kind, n) = first_token(s);
    let t = s.take(n as int);
    let rest = s.drop_first();
    assert(t.drop_first() =~= rest.take(n - 1));
    match run_class(kind) {
        Some(class) => {
            lemma_run_is_maximal(rest, class);
            lemma_run_bound(rest, class);
            if n < s.len() {
                assert(s[n as int] == rest[n - 1]);
            }
            assert forall|i: int| 0 <= i < t.len() implies i == 0 || in_class(
                #[trigger] t[i],
                class,
            ) by {
                if i > 0 {
                    assert(t[i] == rest.take(n - 1)[i - 1]);
                }
            }
            if kind == RawTokenKind::LineComment || kind == RawTokenKind::Lifetime {
                assert(run(rest, class) >= 1);
                assert(t[1] == rest[0]);
            }
        },
        None => {
            if kind is BlockComment {
                lemma_comment_is_delimited(s.skip(2), 1);
                assert(t.skip(2) =~= s.skip(2).take(n - 2));
            }
        },
    }
}

/// Every lexeme looks the way its kind says. In particular a punctuation
/// character is always a token of its own, a line comment holds no newline, and
/// a character without a use is a token of kind [`RawTokenKind::Unknown`].
pub proof fn lemma_lexemes_are_well_shaped(s: Seq<char>, i: int)
    requires
        0 <= i < lexemes(s).len(),
    ensures
        well_shaped(lexemes(s)[i]),
{
    lemma_lexemes_suffix(s, i);
    let rest = s.skip(written(lexemes(s).take(i)).len() as int);
    lemma_first_token_bound(rest);
    assert(lexemes(rest)[0] == lexemes(s)[i]);
    lemma_first_token_shape(rest);
}

/// A token goes on for as long as it can: what follows it could not have
/// continued it. A line comment is followed by a newline, and nothing follows a
/// comment left open.
pub proof fn lemma_lexemes_are_maximal(s: Seq<char>, i: int)
    requires
        0 <= i < lexemes(s).len() - 1,
    ensures
        lexemes(s)[i].kind != (RawTokenKind::BlockComment { terminated: false }),
        run_class(lexemes(s)[i].kind) matches Some(class) ==> !in_class(
            lexemes(s)[i + 1].text[0],
            class,
        ),
{
    lemma_lexemes_suffix(s, i);
    lemma_lexemes_suffix(s, i + 1);
    lemma_offset_step(lexemes(s), i);
    lemma_lexemes_tile(s);
    let p = written(lexemes(s).take(i)).len() as int;
    let rest = s.skip(p);
    lemma_first_token_bound(rest);
    assert(lexemes(rest)[0] == lexemes(s)[i]);
    lemma_first_token_shape(rest);
    let n = first_token(rest).1 as int;
    let next = s.skip(p + n);
    lemma_first_token_bound(next);
    assert(lexemes(next)[0] == lexemes(s)[i + 1]);
    assert(next[0] == rest[n]);
}

/// A word is a single token, whatever the word.
pub proof fn lemma_a_word_is_one_token(s: Seq<char>)
    requires
        s.len() > 0,
        ident_start(s[0]),
        !chars::whitespace(s[0]),
        all_in_class(s.drop_first(), CharClass::IdentContinue),
    ensures
        lexemes(s) == seq![Lexeme { kind: RawTokenKind::Ident, text: s }],
{
    let rest = s.drop_first();
    lemma_run_bound(rest, CharClass::IdentContinue);
    lemma_run_is_maximal(rest, CharClass::IdentContinue);
    assert(s.take(s.len() as int) =~= s);
    assert(lexemes(s.skip(s.len() as int)) =~= Seq::<Lexeme>::empty());
    assert(lexemes(s) =~= seq![Lexeme { kind: RawTokenKind::Ident, text: s }]);
}

/// Whether `c` may begin an identifier.
///
/// This settles for [`char::is_alphabetic`], which agrees with the Unicode XID
/// properties on ASCII.
fn is_ident_start(c: char) -> (answer: bool)
    ensures
        answer == ident_start(c),
{
    c == '_' || c.is_alphabetic()
}

/// Whether `c` may continue an identifier.
fn is_ident_continue(c: char) -> (answer: bool)
    ensures
        answer == ident_continue(c),
{
    c == '_' || c.is_alphanumeric()
}

impl CharClass {
    /// Whether `c` belongs to this class.
    fn admits(self, c: char) -> (answer: bool)
        ensures
            answer == in_class(c, self),
    {
        match self {
            CharClass::Whitespace => c.is_whitespace(),
            CharClass::InLine => c != '\n',
            CharClass::IdentContinue => is_ident_continue(c),
            CharClass::IntContinue => ('0' <= c && c <= '9') || c == '_',
        }
    }
}

/// A peekable, position-tracking reader over one string.
pub struct Cursor<'a> {
    /// Bytes left when the current token started, used to derive its length.
    len_remaining: usize,
    /// What has not been consumed yet.
    rest: &'a str,
}

impl<'a> View for Cursor<'a> {
    type V = Seq<char>;

    /// The characters still to be read.
    closed spec fn view(&self) -> Seq<char> {
        self.rest@
    }
}

impl<'a> Cursor<'a> {
    /// The cursor stands between two tokens.
    pub closed spec fn wf(&self) -> bool {
        self.len_remaining == text::byte_len(self.rest@)
    }

    /// A cursor at the start of `input`.
    pub fn new(input: &'a str) -> (cursor: Cursor<'a>)
        ensures
            cursor.wf(),
            cursor@ == input@,
    {
        Cursor { len_remaining: text::str_len(input), rest: input }
    }

    /// The next character without consuming it, or [`EOF_CHAR`].
    fn first(&self) -> (c: char)
        ensures
            c == if self@.len() > 0 {
                self@[0]
            } else {
                EOF_CHAR
            },
    {
        match text::split_first(self.rest) {
            Some((c, _)) => c,
            None => EOF_CHAR,
        }
    }

    /// Consumes one character, if there is one.
    fn bump(&mut self) -> (c: Option<char>)
        ensures
            final(self).len_remaining == old(self).len_remaining,
            match c {
                Some(c) => old(self)@.len() > 0 && c == old(self)@[0] && final(self)@ == old(
                    self,
                )@.drop_first(),
                None => old(self)@.len() == 0 && final(self)@ == old(self)@,
            },
    {
        match text::split_first(self.rest) {
            Some((c, rest)) => {
                self.rest = rest;
                Some(c)
            },
            None => None,
        }
    }

    /// Whether everything has been consumed.
    fn is_eof(&self) -> (eof: bool)
        ensures
            eof <==> self@.len() == 0,
    {
        self.rest.is_empty()
    }

    /// Bytes consumed since the current token started.
    fn pos_within_token(&self) -> (pos: u32)
        requires
            text::byte_len(self@) <= self.len_remaining,
        ensures
            pos == (self.len_remaining - text::byte_len(self@)) % 0x1_0000_0000,
    {
        text::low_bits(self.len_remaining - text::str_len(self.rest))
    }

    /// Starts a new token where the cursor stands.
    fn reset_pos_within_token(&mut self)
        ensures
            final(self).wf(),
            final(self)@ == old(self)@,
    {
        self.len_remaining = text::str_len(self.rest);
    }

    /// Consumes characters while they belong to `class`.
    fn eat_while(&mut self, class: CharClass)
        ensures
            final(self).len_remaining == old(self).len_remaining,
            final(self)@ == old(self)@.skip(run(old(self)@, class) as int),
    {
        let ghost start = self@;
        let ghost mut eaten: nat = 0;
        assert(start.skip(0) =~= start);
        while class.admits(self.first()) && !self.is_eof()
            invariant
                self.len_remaining == old(self).len_remaining,
                eaten <= start.len(),
                self@ == start.skip(eaten as int),
                run(start, class) == eaten + run(self@, class),
            decreases self@.len(),
        {
            self.bump();
            proof {
                assert(start.skip(eaten as int).drop_first() =~= start.skip(eaten as int + 1));
                eaten = eaten + 1;
            }
        }
    }

    /// Consumes one token.
    ///
    /// Returns [`RawTokenKind::Eof`] with length zero once the input is
    /// exhausted, and keeps doing so if called again.
    #[verifier::rlimit(30)]
    pub fn advance_token(&mut self) -> (token: RawToken)
        requires
            old(self).wf(),
        ensures
            final(self).wf(),
            token.kind == first_token(old(self)@).0,
            token.len == text::byte_len(old(self)@.take(first_token(old(self)@).1 as int))
                % 0x1_0000_0000,
            final(self)@ == old(self)@.skip(first_token(old(self)@).1 as int),
            token.kind == RawTokenKind::Eof <==> old(self)@.len() == 0,
            token.kind == RawTokenKind::Eof ==> token.len == 0 && final(self)@ == old(self)@,
            token.kind == RawTokenKind::Eof <==> lexemes(old(self)@).len() == 0,
            token.kind != RawTokenKind::Eof ==> {
                let lexeme = lexemes(old(self)@)[0];
                &&& token.kind == lexeme.kind
                &&& token.len == text::byte_len(lexeme.text) % 0x1_0000_0000
                &&& old(self)@ == lexeme.text + final(self)@
            },
    {
        let ghost s = self@;
        let ghost n = first_token(s).1;
        proof {
            lemma_first_token_bound(s);
        }
        let first = match self.bump() {
            Some(c) => c,
            None => {
                assert(s.take(0) =~= Seq::<char>::empty());
                assert(s.skip(0) =~= s);
                return RawToken { kind: RawTokenKind::Eof, len: 0 };
            },
        };
        let ghost rest = s.drop_first();
        assert(rest.skip(0) =~= rest);
        assert(rest.len() > 0 ==> rest.drop_first() =~= s.skip(2));

        let kind = if first.is_whitespace() {
            self.eat_while(CharClass::Whitespace);
            RawTokenKind::Whitespace
        } else if first == '/' {
            // The only place this layer needs to look ahead: a slash may open a
            // comment or stand alone as division.
            match self.first() {
                '/' => self.line_comment(),
                '*' => self.block_comment(),
                _ => RawTokenKind::Slash,
            }
        } else if first == '\'' {
            self.lifetime()
        } else if is_ident_start(first) {
            self.eat_while(CharClass::IdentContinue);
            RawTokenKind::Ident
        } else if '0' <= first && first <= '9' {
            self.eat_while(CharClass::IntContinue);
            RawTokenKind::Int
        } else {
            match first {
                '(' => RawTokenKind::OpenParen,
                ')' => RawTokenKind::CloseParen,
                '{' => RawTokenKind::OpenBrace,
                '}' => RawTokenKind::CloseBrace,
                ',' => RawTokenKind::Comma,
                ':' => RawTokenKind::Colon,
                ';' => RawTokenKind::Semi,
                '.' => RawTokenKind::Dot,
                '=' => RawTokenKind::Eq,
                '!' => RawTokenKind::Bang,
                '<' => RawTokenKind::Lt,
                '>' => RawTokenKind::Gt,
                '+' => RawTokenKind::Plus,
                '-' => RawTokenKind::Minus,
                '*' => RawTokenKind::Star,
                '%' => RawTokenKind::Percent,
                '&' => RawTokenKind::And,
                _ => RawTokenKind::Unknown,
            }
        };

        proof {
            assert(rest.skip(n as int - 1) =~= s.skip(n as int));
            if n >= 2 {
                assert(s.skip(2).skip(n as int - 2) =~= s.skip(n as int));
            }
            assert(self@ == s.skip(n as int));
            assert(s =~= s.take(n as int) + s.skip(n as int));
            text::lemma_encode_concat(s.take(n as int), s.skip(n as int));
        }
        let len = self.pos_within_token();
        self.reset_pos_within_token();
        RawToken { kind, len }
    }

    /// Lexes from the second `/` to just before the newline, which belongs to
    /// the following whitespace token.
    fn line_comment(&mut self) -> (kind: RawTokenKind)
        requires
            old(self)@.len() > 0,
            old(self)@[0] == '/',
        ensures
            final(self).len_remaining == old(self).len_remaining,
            kind == RawTokenKind::LineComment,
            final(self)@ == old(self)@.skip(run(old(self)@, CharClass::InLine) as int),
    {
        let ghost s = self@;
        self.bump();
        self.eat_while(CharClass::InLine);
        proof {
            let n = run(s.drop_first(), CharClass::InLine) as int;
            lemma_run_bound(s.drop_first(), CharClass::InLine);
            assert(run(s, CharClass::InLine) == 1 + n);
            assert(s.drop_first().skip(n) =~= s.skip(1 + n));
        }
        RawTokenKind::LineComment
    }

    /// Lexes from the `*` to the matching `*/`, honouring nesting.
    fn block_comment(&mut self) -> (kind: RawTokenKind)
        requires
            old(self)@.len() > 0,
            old(self)@[0] == '*',
            text::byte_len(old(self)@) <= old(self).len_remaining,
        ensures
            final(self).len_remaining == old(self).len_remaining,
            kind == (RawTokenKind::BlockComment {
                terminated: comment_rest(old(self)@.drop_first(), 1).1,
            }),
            final(self)@ == old(self)@.drop_first().skip(
                comment_rest(old(self)@.drop_first(), 1).0 as int,
            ),
    {
        proof {
            text::lemma_byte_len_bound(self@);
        }
        self.bump();
        let ghost start = self@;
        let ghost mut eaten: nat = 0;
        let mut depth: usize = 1;
        assert(start.skip(0) =~= start);
        loop
            invariant_except_break
                depth > 0,
            invariant
                self.len_remaining == old(self).len_remaining,
                start.len() < usize::MAX,
                eaten <= start.len(),
                depth <= 1 + eaten,
                self@ == start.skip(eaten as int),
                comment_rest(start, 1) == (
                    eaten + comment_rest(self@, depth as nat).0,
                    comment_rest(self@, depth as nat).1,
                ),
            ensures
                depth == 0 || self@.len() == 0,
            decreases self@.len(),
        {
            let ghost before = self@;
            let c = match self.bump() {
                Some(c) => c,
                None => {
                    break;
                },
            };
            proof {
                assert(before.drop_first() =~= start.skip(eaten as int + 1));
                assert(before.len() >= 2 ==> before.drop_first().drop_first() =~= before.skip(2));
                assert(before.len() >= 2 ==> before.skip(2) =~= start.skip(eaten as int + 2));
            }
            if c == '/' && self.first() == '*' {
                self.bump();
                depth += 1;
                proof {
                    eaten = eaten + 2;
                }
            } else if c == '*' && self.first() == '/' {
                self.bump();
                depth -= 1;
                proof {
                    eaten = eaten + 2;
                }
                if depth == 0 {
                    break;
                }
            } else {
                proof {
                    eaten = eaten + 1;
                }
            }
        }
        RawTokenKind::BlockComment { terminated: depth == 0 }
    }

    /// Lexes a lifetime, the leading `'` already consumed.
    ///
    /// A bare `'` is [`RawTokenKind::Unknown`]. This language has no character
    /// literals, which is what makes the decision this simple.
    fn lifetime(&mut self) -> (kind: RawTokenKind)
        ensures
            final(self).len_remaining == old(self).len_remaining,
            if old(self)@.len() > 0 && ident_start(old(self)@[0]) {
                &&& kind == RawTokenKind::Lifetime
                &&& final(self)@ == old(self)@.skip(
                    run(old(self)@, CharClass::IdentContinue) as int,
                )
            } else {
                &&& kind == RawTokenKind::Unknown
                &&& final(self)@ == old(self)@
            },
    {
        if !is_ident_start(self.first()) {
            return RawTokenKind::Unknown;
        }
        self.eat_while(CharClass::IdentContinue);
        RawTokenKind::Lifetime
    }
}

/// Lexes `input`, yielding every token including trivia, and stopping at the
/// end rather than yielding [`RawTokenKind::Eof`].
pub fn tokenize(input: &str) -> (tokens: Vec<RawToken>)
    ensures
        tokens.len() == lexemes(input@).len(),
        forall|i: int| 0 <= i < tokens.len() ==> tokens[i] == #[trigger] lexemes(input@)[i].raw(),
        forall|i: int|
            0 <= i < tokens.len() ==> {
                let lexeme = #[trigger] lexemes(input@)[i];
                &&& tokens[i].kind == lexeme.kind
                &&& tokens[i].len == text::byte_len(lexeme.text) % 0x1_0000_0000
            },
{
    let mut cursor = Cursor::new(input);
    let mut tokens: Vec<RawToken> = Vec::new();
    loop
        invariant
            cursor.wf(),
            lexemes(input@).len() == tokens.len() + lexemes(cursor@).len(),
            forall|i: int|
                0 <= i < tokens.len() ==> tokens[i] == #[trigger] lexemes(input@)[i].raw(),
            forall|i: int|
                0 <= i < lexemes(cursor@).len() ==> #[trigger] lexemes(cursor@)[i] == lexemes(
                    input@,
                )[tokens.len() + i],
        ensures
            lexemes(cursor@).len() == 0,
        decreases cursor@.len(),
    {
        let ghost before = cursor@;
        let ghost done = tokens.len() as int;
        proof {
            lemma_first_token_bound(before);
        }
        let token = cursor.advance_token();
        if token.kind == RawTokenKind::Eof {
            break;
        }
        tokens.push(token);
        proof {
            let n = first_token(before).1 as int;
            let head = Lexeme { kind: first_token(before).0, text: before.take(n) };
            assert(lexemes(before) =~= seq![head] + lexemes(before.skip(n)));
            assert(lexemes(before)[0] == lexemes(input@)[done + 0]);
            assert forall|i: int| 0 <= i < lexemes(cursor@).len() implies #[trigger] lexemes(
                cursor@,
            )[i] == lexemes(input@)[tokens.len() + i] by {
                assert(lexemes(before)[i + 1] == lexemes(input@)[done + (i + 1)]);
            }
        }
    }
    assert forall|i: int| 0 <= i < tokens.len() implies {
        let lexeme = #[trigger] lexemes(input@)[i];
        &&& tokens[i].kind == lexeme.kind
        &&& tokens[i].len == text::byte_len(lexeme.text) % 0x1_0000_0000
    } by {
        assert(tokens[i] == lexemes(input@)[i].raw());
    }
    tokens
}

} // verus!
