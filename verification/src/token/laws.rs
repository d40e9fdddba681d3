//! What the second lexing layer promises.
use crate::lexer;
use crate::lexer::{Lexeme, RawTokenKind};
use crate::plain;
use crate::span::Span;
use crate::symbol;
use crate::symbol::Symbol;
use crate::text;
use crate::token;
use crate::token::{Cooked, LexError, LexErrorKind, Token, TokenKind};
use vstd::prelude::*;
use vstd::utf8::*;

verus! {

broadcast use Span::lemma_of;

/// Lexing only ever adds names, each at the end and none twice.
pub proof fn lemma_cook_grows(lexemes: Seq<Lexeme>, pos: nat, names: Seq<Seq<char>>)
    requires
        symbol::valid_names(names),
    ensures
        symbol::valid_names(token::cook(lexemes, pos, names).names),
        names.is_prefix_of(token::cook(lexemes, pos, names).names),
    decreases lexemes.len(),
{
    if lexemes.len() > 0 {
        let end = pos + text::byte_len(lexemes[0].text);
        lemma_cook_grows(lexemes.skip(1), end, names);
        if lexemes.len() >= 2 {
            lemma_cook_grows(lexemes.skip(2), end + text::byte_len(lexemes[1].text), names);
        }
        if let Some(name) = token::name_of(lexemes[0]) {
            symbol::lemma_interned_grows(names, name);
            symbol::lemma_interned_valid(names, name);
            lemma_cook_grows(lexemes.skip(1), end, symbol::interned(names, name));
        }
    }
}

/// Lexemes become the same tokens whenever all of their names are known, and
/// then no name is added.
pub proof fn lemma_cook_stable(
    lexemes: Seq<Lexeme>,
    pos: nat,
    names: Seq<Seq<char>>,
    more: Seq<Seq<char>>,
)
    requires
        symbol::valid_names(names),
        token::cook(lexemes, pos, names).names.is_prefix_of(more),
        more.no_duplicates(),
    ensures
        token::cook(lexemes, pos, more) == (Cooked {
            names: more,
            ..token::cook(lexemes, pos, names)
        }),
    decreases lexemes.len(),
{
    if lexemes.len() > 0 {
        let kind = lexemes[0].kind;
        let end = pos + text::byte_len(lexemes[0].text);
        if lexemes.len() >= 2 && token::glued(kind, lexemes[1].kind) is Some {
            lemma_cook_stable(
                lexemes.skip(2),
                end + text::byte_len(lexemes[1].text),
                names,
                more,
            );
        } else if let Some(name) = token::name_of(lexemes[0]) {
            let next = symbol::interned(names, name);
            symbol::lemma_interned_grows(names, name);
            symbol::lemma_interned_valid(names, name);
            lemma_cook_grows(lexemes.skip(1), end, next);
            lemma_cook_stable(lexemes.skip(1), end, next, more);
            symbol::lemma_symbol_stable(next, more, name);
        } else {
            lemma_cook_stable(lexemes.skip(1), end, names, more);
        }
    }
}

/// Lexing a text again, whatever else has been interned since, gives the same
/// tokens and the same errors, and interns nothing.
pub proof fn lemma_relexing_changes_nothing(
    source: Seq<char>,
    names: Seq<Seq<char>>,
    more: Seq<Seq<char>>,
)
    requires
        symbol::valid_names(names),
        token::lexing(source, names).names.is_prefix_of(more),
        more.no_duplicates(),
    ensures
        token::lexing(source, more).tokens == token::lexing(source, names).tokens,
        token::lexing(source, more).errors == token::lexing(source, names).errors,
        token::lexing(source, more).names == more,
{
    lemma_cook_stable(lexer::lexemes(source), 0, names, more);
}

/// The symbol that a token carries, if it carries one.
pub open spec fn symbol_of(kind: TokenKind) -> Option<Symbol> {
    match kind {
        TokenKind::Ident(symbol) => Some(symbol),
        TokenKind::Int(symbol) => Some(symbol),
        TokenKind::Lifetime(symbol) => Some(symbol),
        _ => None,
    }
}

/// How a token is written, given the table that its symbol belongs to.
pub open spec fn spelling(kind: TokenKind, names: Seq<Seq<char>>) -> Seq<char> {
    match kind {
        TokenKind::Ident(symbol) => names[symbol.index()],
        TokenKind::Int(symbol) => names[symbol.index()],
        TokenKind::Lifetime(symbol) => seq!['\''] + names[symbol.index()],
        TokenKind::OpenParen => seq!['('],
        TokenKind::CloseParen => seq![')'],
        TokenKind::OpenBrace => seq!['{'],
        TokenKind::CloseBrace => seq!['}'],
        TokenKind::Comma => seq![','],
        TokenKind::Colon => seq![':'],
        TokenKind::Semi => seq![';'],
        TokenKind::Dot => seq!['.'],
        TokenKind::Eq => seq!['='],
        TokenKind::EqEq => seq!['=', '='],
        TokenKind::Ne => seq!['!', '='],
        TokenKind::Bang => seq!['!'],
        TokenKind::Lt => seq!['<'],
        TokenKind::Le => seq!['<', '='],
        TokenKind::Gt => seq!['>'],
        TokenKind::Ge => seq!['>', '='],
        TokenKind::Plus => seq!['+'],
        TokenKind::Minus => seq!['-'],
        TokenKind::Star => seq!['*'],
        TokenKind::Slash => seq!['/'],
        TokenKind::Percent => seq!['%'],
        TokenKind::And => seq!['&'],
        TokenKind::AndAnd => seq!['&', '&'],
        TokenKind::RArrow => seq!['-', '>'],
        TokenKind::Eof => seq![],
    }
}

/// The first lexeme, if it becomes a token without the help of the second.
proof fn lemma_one_lexeme_spelling(lexeme: Lexeme, names: Seq<Seq<char>>, more: Seq<Seq<char>>)
    requires
        lexer::well_shaped(lexeme),
        symbol::valid_names(names),
        token::name_of(lexeme) matches Some(name) ==> symbol::interned(names, name).is_prefix_of(
            more,
        ),
    ensures
        more.len() <= 0x1_0000_0000 ==> (token::name_of(lexeme) matches Some(name) ==> spelling(
            token::named(lexeme.kind, symbol::symbol_for(names, name)),
            more,
        ) == lexeme.text),
        token::single(lexeme.kind) matches Some(kind) ==> spelling(kind, more) == lexeme.text,
{
    match token::name_of(lexeme) {
        Some(name) => if more.len() <= 0x1_0000_0000 {
            let next = symbol::interned(names, name);
            symbol::lemma_symbols_round_trip(names, name);
            let i = symbol::symbol_for(names, name).index();
            assert(more[i] == next[i]);
            if lexeme.kind == RawTokenKind::Lifetime {
                assert(seq!['\''] + name =~= lexeme.text);
            }
        },
        None => {
            if let Some(kind) = token::single(lexeme.kind) {
                assert(spelling(kind, more) =~= lexeme.text);
            }
        },
    }
}

/// Two lexemes that make one token.
proof fn lemma_two_lexemes_spelling(a: Lexeme, b: Lexeme, names: Seq<Seq<char>>)
    requires
        lexer::well_shaped(a),
        lexer::well_shaped(b),
        token::glued(a.kind, b.kind) is Some,
    ensures
        spelling(token::glued(a.kind, b.kind)->0, names) == a.text + b.text,
{
    assert(spelling(token::glued(a.kind, b.kind)->0, names) =~= a.text + b.text);
}

/// Each token is made of one lexeme or of two that follow each other. It covers
/// them, and they are how it is written.
#[verifier::rlimit(30)]
proof fn lemma_token_origin(
    lexemes: Seq<Lexeme>,
    from: int,
    names: Seq<Seq<char>>,
    more: Seq<Seq<char>>,
    i: int,
) -> (place: (int, int))
    requires
        symbol::valid_names(names),
        0 <= from <= lexemes.len(),
        forall|j: int| 0 <= j < lexemes.len() ==> lexer::well_shaped(#[trigger] lexemes[j]),
        ({
            let cooked = token::cook(lexemes.skip(from), lexer::offset(lexemes, from), names);
            cooked.names.is_prefix_of(more) && 0 <= i < cooked.tokens.len() - 1
        }),
    ensures
        from <= place.0 < place.1 <= lexemes.len(),
        ({
            let cooked = token::cook(lexemes.skip(from), lexer::offset(lexemes, from), names);
            let token = cooked.tokens[i];
            &&& token.kind != TokenKind::Eof
            &&& token.span == token::range(
                lexer::offset(lexemes, place.0),
                lexer::offset(lexemes, place.1),
            )
            &&& (symbol_of(token.kind) is None || more.len() <= 0x1_0000_0000) ==> spelling(
                token.kind,
                more,
            ) == lexer::written(lexemes.subrange(place.0, place.1))
            &&& forall|j: int|
                place.0 <= j < place.1 ==> token::complaint((#[trigger] lexemes[j]).kind) is None
            &&& forall|j: int| place.0 <= j < place.1 ==> !trivia((#[trigger] lexemes[j]).kind)
            &&& token.kind is Ident <==> lexemes[place.0].kind == RawTokenKind::Ident
            &&& token.kind is Int <==> lexemes[place.0].kind == RawTokenKind::Int
            &&& token.kind is Lifetime <==> lexemes[place.0].kind == RawTokenKind::Lifetime
            &&& symbol_of(token.kind) is Some ==> place.1 == place.0 + 1
            &&& place.1 == place.0 + 1 && place.1 < lexemes.len() ==> token::glued(
                lexemes[place.0].kind,
                lexemes[place.1].kind,
            ) is None
        }),
    decreases lexemes.len() - from,
{
    let here = lexemes.skip(from);
    let pos = lexer::offset(lexemes, from);
    let kind = here[0].kind;
    assert(here[0] == lexemes[from]);
    assert(here.skip(1) =~= lexemes.skip(from + 1));
    lexer::lemma_offset_step(lexemes, from);
    lexer::lemma_written_one(lexemes, from);
    if here.len() >= 2 && token::glued(kind, here[1].kind) is Some {
        assert(here[1] == lexemes[from + 1]);
        assert(here.skip(2) =~= lexemes.skip(from + 2));
        lexer::lemma_offset_step(lexemes, from + 1);
        lexer::lemma_written_one(lexemes, from + 1);
        if i == 0 {
            lemma_two_lexemes_spelling(here[0], here[1], more);
            assert(lexemes.subrange(from, from + 2) =~= lexemes.subrange(from, from + 1)
                + lexemes.subrange(from + 1, from + 2));
            lexer::lemma_written_concat(
                lexemes.subrange(from, from + 1),
                lexemes.subrange(from + 1, from + 2),
            );
            (from, from + 2)
        } else {
            lemma_token_origin(lexemes, from + 2, names, more, i - 1)
        }
    } else if let Some(name) = token::name_of(here[0]) {
        let next = symbol::interned(names, name);
        symbol::lemma_interned_valid(names, name);
        lemma_cook_grows(here.skip(1), lexer::offset(lexemes, from + 1), next);
        if i == 0 {
            lemma_one_lexeme_spelling(here[0], names, more);
            (from, from + 1)
        } else {
            lemma_token_origin(lexemes, from + 1, next, more, i - 1)
        }
    } else if token::single(kind) is Some {
        if i == 0 {
            lemma_one_lexeme_spelling(here[0], names, more);
            (from, from + 1)
        } else {
            lemma_token_origin(lexemes, from + 1, names, more, i - 1)
        }
    } else {
        lemma_token_origin(lexemes, from + 1, names, more, i)
    }
}

/// A later token reaches further.
pub proof fn lemma_tokens_advance(tokens: Seq<Token>, i: int, j: int)
    requires
        token::in_order(tokens),
        0 <= i <= j < tokens.len(),
    ensures
        tokens[i].span.lo().0 <= tokens[j].span.lo().0,
        tokens[i].span.hi().0 <= tokens[j].span.hi().0,
        tokens[i].span.wf(),
        tokens[j].span.wf(),
        i < j ==> tokens[i].span.hi().0 <= tokens[j].span.lo().0,
{
    reveal(token::in_order);
    assert(tokens[i].span.wf());
    assert(tokens[j].span.wf());
}

/// Lexemes become tokens that follow one another, start no earlier than the
/// first lexeme, and end in [`TokenKind::Eof`].
#[verifier::rlimit(30)]
proof fn lemma_cook_in_order(lexemes: Seq<Lexeme>, from: int, names: Seq<Seq<char>>)
    requires
        0 <= from <= lexemes.len(),
        text::byte_len(lexer::written(lexemes)) <= u32::MAX,
    ensures
        ({
            let cooked = token::cook(lexemes.skip(from), lexer::offset(lexemes, from), names);
            let tokens = cooked.tokens;
            let end = text::byte_len(lexer::written(lexemes));
            &&& tokens.len() > 0
            &&& tokens.last() == (Token { kind: TokenKind::Eof, span: token::range(end, end) })
            &&& tokens.len() <= lexemes.len() - from + 1
            &&& token::in_order(tokens)
            &&& forall|i: int|
                0 <= i < tokens.len() ==> lexer::offset(lexemes, from) <= (
                #[trigger] tokens[i]).span.lo().0
        }),
    decreases lexemes.len() - from,
{
    reveal(token::in_order);
    let here = lexemes.skip(from);
    lexer::lemma_offset_bound(lexemes, from);
    if here.len() == 0 {
        assert(lexemes.take(from) =~= lexemes);
    } else {
        let kind = here[0].kind;
        assert(here[0] == lexemes[from]);
        assert(here.skip(1) =~= lexemes.skip(from + 1));
        lexer::lemma_offset_step(lexemes, from);
        lexer::lemma_offset_bound(lexemes, from + 1);
        if here.len() >= 2 && token::glued(kind, here[1].kind) is Some {
            assert(here[1] == lexemes[from + 1]);
            assert(here.skip(2) =~= lexemes.skip(from + 2));
            lexer::lemma_offset_step(lexemes, from + 1);
            lexer::lemma_offset_bound(lexemes, from + 2);
            lemma_cook_in_order(lexemes, from + 2, names);
        } else if let Some(name) = token::name_of(here[0]) {
            lemma_cook_in_order(lexemes, from + 1, symbol::interned(names, name));
        } else {
            lemma_cook_in_order(lexemes, from + 1, names);
        }
    }
}

/// The tokens follow one another without overlapping. The last one is
/// [`TokenKind::Eof`], with an empty span at the end of the text, and no other
/// is.
pub proof fn lemma_stream_ends_in_eof(source: Seq<char>, names: Seq<Seq<char>>)
    requires
        symbol::valid_names(names),
        text::byte_len(source) <= u32::MAX,
    ensures
        ({
            let tokens = token::lexing(source, names).tokens;
            let end = text::byte_len(source);
            &&& token::in_order(tokens)
            &&& tokens.len() > 0
            &&& tokens.last() == (Token { kind: TokenKind::Eof, span: token::range(end, end) })
            &&& tokens.last().span.lo().0 == end && tokens.last().span.hi().0 == end
            &&& forall|i: int|
                0 <= i < tokens.len() - 1 ==> (#[trigger] tokens[i]).kind != TokenKind::Eof
        }),
{
    let all = lexer::lexemes(source);
    lexer::lemma_lexemes_tile(source);
    assert(all.skip(0) =~= all);
    assert(all.take(0) =~= Seq::<Lexeme>::empty());
    assert(lexer::offset(all, 0) == 0);
    lemma_cook_in_order(all, 0, names);
    lemma_only_the_end_is_eof(all, 0, names);
}

/// No lexeme becomes [`TokenKind::Eof`].
proof fn lemma_only_the_end_is_eof(lexemes: Seq<Lexeme>, pos: nat, names: Seq<Seq<char>>)
    ensures
        forall|i: int|
            0 <= i < token::cook(lexemes, pos, names).tokens.len() - 1 ==> (#[trigger] token::cook(
                lexemes,
                pos,
                names,
            ).tokens[i]).kind != TokenKind::Eof,
    decreases lexemes.len(),
{
    if lexemes.len() > 0 {
        let end = pos + text::byte_len(lexemes[0].text);
        lemma_only_the_end_is_eof(lexemes.skip(1), end, names);
        if lexemes.len() >= 2 {
            let end = end + text::byte_len(lexemes[1].text);
            lemma_only_the_end_is_eof(lexemes.skip(2), end, names);
        }
        if let Some(name) = token::name_of(lexemes[0]) {
            lemma_only_the_end_is_eof(lexemes.skip(1), end, symbol::interned(names, name));
        }
    }
}

/// The span of every token lies between two character boundaries of the source,
/// and the text under it is how the token is written. Only the span of
/// [`TokenKind::Eof`] is empty.
///
/// A compound operator can thus never reach across a space, and a name is always
/// what its span covers, as long as positions in the table of names fit into a
/// symbol.
pub proof fn lemma_spans_slice_back(source: Seq<char>, names: Seq<Seq<char>>, i: int)
    requires
        symbol::valid_names(names),
        text::byte_len(source) <= u32::MAX,
        0 <= i < token::lexing(source, names).tokens.len(),
    ensures
        ({
            let cooked = token::lexing(source, names);
            let token = cooked.tokens[i];
            let lo = token.span.lo().0 as int;
            let hi = token.span.hi().0 as int;
            &&& is_char_boundary(encode_utf8(source), lo)
            &&& is_char_boundary(encode_utf8(source), hi)
            &&& lo <= hi <= text::byte_len(source)
            &&& (symbol_of(token.kind) is None || cooked.names.len() <= 0x1_0000_0000)
                ==> encode_utf8(source).subrange(lo, hi) == encode_utf8(
                spelling(token.kind, cooked.names),
            )
            &&& lo == hi <==> token.kind == TokenKind::Eof
        }),
{
    let all = lexer::lexemes(source);
    let cooked = token::lexing(source, names);
    lexer::lemma_lexemes_tile(source);
    assert(all.skip(0) =~= all);
    assert(all.take(0) =~= Seq::<Lexeme>::empty());
    assert(lexer::offset(all, 0) == 0);
    assert forall|j: int| 0 <= j < all.len() implies lexer::well_shaped(#[trigger] all[j]) by {
        lexer::lemma_lexemes_are_well_shaped(source, j);
    }
    if i < cooked.tokens.len() - 1 {
        let (j, k) = lemma_token_origin(all, 0, names, cooked.names, i);
        lexer::lemma_lexemes_slice(source, j, k);
        lexer::lemma_lexeme_slice(source, j);
        lexer::lemma_lexemes_slice(source, j + 1, k);
    } else {
        lemma_stream_ends_in_eof(source, names);
        lexer::lemma_lexemes_slice(source, all.len() as int, all.len() as int);
        let end = text::byte_len(source) as int;
        assert(encode_utf8(source).subrange(end, end) =~= Seq::<u8>::empty());
        assert(encode_utf8(Seq::<char>::empty()) =~= Seq::<u8>::empty());
    }
}

/// Two characters that make one operator when they stand together.
pub open spec fn compound(a: char, b: char) -> bool {
    match (a, b) {
        ('=', '=') | ('!', '=') | ('<', '=') | ('>', '=') | ('&', '&') | ('-', '>') => true,
        _ => false,
    }
}

/// Gluing is greedy from the left: a token of one byte is never followed
/// immediately by a token that starts with a byte it could have been glued to.
#[verifier::rlimit(30)]
pub proof fn lemma_gluing_is_greedy(source: Seq<char>, names: Seq<Seq<char>>, i: int)
    requires
        symbol::valid_names(names),
        text::byte_len(source) <= u32::MAX,
        0 <= i < token::lexing(source, names).tokens.len() - 2,
    ensures
        ({
            let tokens = token::lexing(source, names).tokens;
            let bytes = encode_utf8(source);
            let lo = tokens[i].span.lo().0 as int;
            let hi = tokens[i].span.hi().0 as int;
            hi == lo + 1 && hi == tokens[i + 1].span.lo().0 ==> !compound(
                bytes[lo] as char,
                bytes[hi] as char,
            )
        }),
{
    let all = lexer::lexemes(source);
    let cooked = token::lexing(source, names);
    let bytes = encode_utf8(source);
    lexer::lemma_lexemes_tile(source);
    assert(all.skip(0) =~= all);
    assert(all.take(0) =~= Seq::<Lexeme>::empty());
    assert(lexer::offset(all, 0) == 0);
    assert forall|j: int| 0 <= j < all.len() implies lexer::well_shaped(#[trigger] all[j]) by {
        lexer::lemma_lexemes_are_well_shaped(source, j);
    }
    let (j, k) = lemma_token_origin(all, 0, names, cooked.names, i);
    let (l, m) = lemma_token_origin(all, 0, names, cooked.names, i + 1);
    lexer::lemma_lexemes_slice(source, j, k);
    lexer::lemma_lexemes_slice(source, l, m);
    let lo = cooked.tokens[i].span.lo().0 as int;
    let hi = cooked.tokens[i].span.hi().0 as int;
    if hi == lo + 1 && hi == cooked.tokens[i + 1].span.lo().0 && compound(
        bytes[lo] as char,
        bytes[hi] as char,
    ) {
        // The second token starts at the lexeme where the first one ends.
        lemma_same_offset(source, k, l);
        // And the first one is a single lexeme of a single character.
        lexer::lemma_lexeme_slice(source, j);
        lexer::lemma_lexeme_slice(source, k);
        lexer::lemma_lexemes_slice(source, j + 1, k);
        lemma_same_offset(source, j + 1, k);
        let first = all[j].text;
        let second = all[k].text;
        assert(encode_utf8(first)[0] == bytes[lo]);
        assert(encode_utf8(second)[0] == bytes[hi]);
        text::lemma_byte_len_bound(first);
        text::lemma_first_byte(first);
        text::lemma_first_byte(second);
        assert(lexer::well_shaped(all[j]));
        assert(lexer::well_shaped(all[k]));
        assert(all[j].kind == lexer::punctuation(first[0]));
        assert(all[k].kind == lexer::punctuation(second[0]));
    }
}

/// Different lexemes start at different bytes.
proof fn lemma_same_offset(source: Seq<char>, i: int, j: int)
    requires
        0 <= i <= lexer::lexemes(source).len(),
        0 <= j <= lexer::lexemes(source).len(),
        lexer::offset(lexer::lexemes(source), i) == lexer::offset(lexer::lexemes(source), j),
    ensures
        i == j,
{
    if i < j {
        lexer::lemma_lexeme_slice(source, i);
        lexer::lemma_lexemes_slice(source, i + 1, j);
    }
    if j < i {
        lexer::lemma_lexeme_slice(source, j);
        lexer::lemma_lexemes_slice(source, j + 1, i);
    }
}

/// The raw layer takes every keyword for a word like any other.
pub proof fn lemma_keywords_are_words(i: int)
    requires
        0 <= i < symbol::KEYWORD_COUNT,
    ensures
        lexer::lexemes(symbol::keywords()[i]) == seq![
            Lexeme { kind: RawTokenKind::Ident, text: symbol::keywords()[i] },
        ],
{
    reveal_strlit("fn");
    reveal_strlit("let");
    reveal_strlit("mut");
    reveal_strlit("if");
    reveal_strlit("else");
    reveal_strlit("while");
    reveal_strlit("return");
    reveal_strlit("struct");
    reveal_strlit("true");
    reveal_strlit("false");
    assert("fn"@ =~= seq!['f', 'n']);
    assert("let"@ =~= seq!['l', 'e', 't']);
    assert("mut"@ =~= seq!['m', 'u', 't']);
    assert("if"@ =~= seq!['i', 'f']);
    assert("else"@ =~= seq!['e', 'l', 's', 'e']);
    assert("while"@ =~= seq!['w', 'h', 'i', 'l', 'e']);
    assert("return"@ =~= seq!['r', 'e', 't', 'u', 'r', 'n']);
    assert("struct"@ =~= seq!['s', 't', 'r', 'u', 'c', 't']);
    assert("true"@ =~= seq!['t', 'r', 'u', 'e']);
    assert("false"@ =~= seq!['f', 'a', 'l', 's', 'e']);
    lexer::lemma_a_word_is_one_token(symbol::keywords()[i]);
}

/// A name is a keyword token if and only if it is the spelling of a keyword:
/// keywords arrive as identifiers that carry the symbol of a keyword.
pub proof fn lemma_keywords_arrive_as_identifiers(
    source: Seq<char>,
    names: Seq<Seq<char>>,
    i: int,
)
    requires
        symbol::valid_names(names),
        0 <= i < token::lexing(source, names).tokens.len(),
    ensures
        ({
            let cooked = token::lexing(source, names);
            cooked.tokens[i].kind matches TokenKind::Ident(symbol) ==> {
                &&& symbol.index() < cooked.names.len()
                &&& symbol.index() < symbol::KEYWORD_COUNT <==> symbol::keywords().contains(
                    spelling(cooked.tokens[i].kind, cooked.names),
                )
            }
        }),
{
    let all = lexer::lexemes(source);
    let cooked = token::lexing(source, names);
    lemma_cook_grows(all, 0, names);
    lemma_symbols_are_known(all, 0, names, i);
    if let TokenKind::Ident(symbol) = cooked.tokens[i].kind {
        let text = cooked.names[symbol.index()];
        if symbol.index() < symbol::KEYWORD_COUNT {
            assert(symbol::keywords()[symbol.index()] == text);
        }
        if symbol::keywords().contains(text) {
            let k = symbol::keywords().index_of(text);
            assert(cooked.names[k] == text);
        }
    }
}

/// The symbol that a token carries is in the table that lexing leaves behind.
pub proof fn lemma_symbols_resolve(source: Seq<char>, names: Seq<Seq<char>>, i: int)
    requires
        symbol::valid_names(names),
        0 <= i < token::lexing(source, names).tokens.len(),
    ensures
        symbol_of(token::lexing(source, names).tokens[i].kind) matches Some(symbol) ==> 0
            <= symbol.index() < token::lexing(source, names).names.len(),
{
    lemma_symbols_are_known(lexer::lexemes(source), 0, names, i);
}

proof fn lemma_symbols_are_known(
    lexemes: Seq<Lexeme>,
    pos: nat,
    names: Seq<Seq<char>>,
    i: int,
)
    requires
        symbol::valid_names(names),
        0 <= i < token::cook(lexemes, pos, names).tokens.len(),
    ensures
        symbol_of(token::cook(lexemes, pos, names).tokens[i].kind) matches Some(symbol) ==> 0
            <= symbol.index() < token::cook(lexemes, pos, names).names.len(),
    decreases lexemes.len(),
{
    broadcast use Symbol::lemma_nth;

    if lexemes.len() > 0 {
        let kind = lexemes[0].kind;
        let end = pos + text::byte_len(lexemes[0].text);
        if lexemes.len() >= 2 && token::glued(kind, lexemes[1].kind) is Some {
            if i > 0 {
                let end = end + text::byte_len(lexemes[1].text);
                lemma_symbols_are_known(lexemes.skip(2), end, names, i - 1);
            }
        } else if let Some(name) = token::name_of(lexemes[0]) {
            let next = symbol::interned(names, name);
            symbol::lemma_interned_valid(names, name);
            lemma_cook_grows(lexemes.skip(1), end, next);
            symbol::lemma_interned_grows(names, name);
            if i > 0 {
                lemma_symbols_are_known(lexemes.skip(1), end, next, i - 1);
            }
        } else if token::single(kind) is Some {
            if i > 0 {
                lemma_symbols_are_known(lexemes.skip(1), end, names, i - 1);
            }
        } else {
            lemma_symbols_are_known(lexemes.skip(1), end, names, i);
        }
    }
}

/// Lexemes of this kind mean nothing and are dropped.
pub open spec fn trivia(kind: RawTokenKind) -> bool {
    match kind {
        RawTokenKind::Whitespace | RawTokenKind::LineComment => true,
        RawTokenKind::BlockComment { terminated } => terminated,
        _ => false,
    }
}

/// Some token covers the span.
pub open spec fn under_a_token(tokens: Seq<Token>, span: Span) -> bool {
    exists|i: int| 0 <= i < tokens.len() && (#[trigger] tokens[i]).span.covers(span)
}

/// Some error points at exactly this span.
pub open spec fn reported(errors: Seq<LexError>, span: Span) -> bool {
    exists|i: int| 0 <= i < errors.len() && (#[trigger] errors[i]).span == span
}

/// Nothing that means something is lost: what is neither under a token nor
/// pointed at by an error is space or a comment.
pub proof fn lemma_nothing_is_lost(source: Seq<char>, names: Seq<Seq<char>>, k: int)
    requires
        text::byte_len(source) <= u32::MAX,
        0 <= k < lexer::lexemes(source).len(),
    ensures
        ({
            let all = lexer::lexemes(source);
            let span = token::range(lexer::offset(all, k), lexer::offset(all, k + 1));
            ||| trivia(all[k].kind)
            ||| under_a_token(token::lexing(source, names).tokens, span)
            ||| reported(token::lexing(source, names).errors, span)
        }),
{
    let all = lexer::lexemes(source);
    lexer::lemma_lexemes_tile(source);
    assert(all.skip(0) =~= all);
    assert(all.take(0) =~= Seq::<Lexeme>::empty());
    assert(lexer::offset(all, 0) == 0);
    assert forall|j: int| 0 <= j < all.len() implies lexer::well_shaped(#[trigger] all[j]) by {
        lexer::lemma_lexemes_are_well_shaped(source, j);
    }
    lemma_cook_accounts(all, 0, names, k);
}

#[verifier::rlimit(30)]
proof fn lemma_cook_accounts(
    lexemes: Seq<Lexeme>,
    from: int,
    names: Seq<Seq<char>>,
    k: int,
)
    requires
        0 <= from <= k < lexemes.len(),
        text::byte_len(lexer::written(lexemes)) <= u32::MAX,
        forall|j: int| 0 <= j < lexemes.len() ==> lexer::well_shaped(#[trigger] lexemes[j]),
    ensures
        ({
            let cooked = token::cook(lexemes.skip(from), lexer::offset(lexemes, from), names);
            let span = token::range(lexer::offset(lexemes, k), lexer::offset(lexemes, k + 1));
            ||| trivia(lexemes[k].kind)
            ||| under_a_token(cooked.tokens, span)
            ||| reported(cooked.errors, span)
        }),
    decreases lexemes.len() - from,
{
    let here = lexemes.skip(from);
    let pos = lexer::offset(lexemes, from);
    let kind = here[0].kind;
    let cooked = token::cook(here, pos, names);
    let span = token::range(lexer::offset(lexemes, k), lexer::offset(lexemes, k + 1));
    assert(here[0] == lexemes[from]);
    assert(lexer::well_shaped(lexemes[from]));
    assert(here.skip(1) =~= lexemes.skip(from + 1));
    lexer::lemma_offset_step(lexemes, from);
    lexer::lemma_offset_bound(lexemes, from + 1);
    lexer::lemma_offset_bound(lexemes, k + 1);
    lexer::lemma_offset_step(lexemes, k);
    let (skipped, rest) = if here.len() >= 2 && token::glued(kind, here[1].kind) is Some {
        assert(here[1] == lexemes[from + 1]);
        assert(here.skip(2) =~= lexemes.skip(from + 2));
        lexer::lemma_offset_step(lexemes, from + 1);
        lexer::lemma_offset_bound(lexemes, from + 2);
        if k < from + 2 {
            assert(cooked.tokens[0].span.covers(span));
        } else {
            lemma_cook_accounts(lexemes, from + 2, names, k);
        }
        (2int, token::cook(here.skip(2), lexer::offset(lexemes, from + 2), names))
    } else {
        let next = match token::name_of(here[0]) {
            Some(name) => symbol::interned(names, name),
            None => names,
        };
        if k == from {
            if token::name_of(here[0]) is Some || token::single(kind) is Some {
                assert(cooked.tokens[0].span.covers(span));
            } else if token::complaint(kind) is Some {
                assert(cooked.errors[0].span == span);
            }
        } else {
            lemma_cook_accounts(lexemes, from + 1, next, k);
        }
        (1int, token::cook(here.skip(1), lexer::offset(lexemes, from + 1), next))
    };
    if k >= from + skipped {
        if under_a_token(rest.tokens, span) {
            let i = choose|i: int|
                0 <= i < rest.tokens.len() && (#[trigger] rest.tokens[i]).span.covers(span);
            let shift = cooked.tokens.len() - rest.tokens.len();
            assert(cooked.tokens[i + shift] == rest.tokens[i]);
        }
        if reported(rest.errors, span) {
            let i = choose|i: int|
                0 <= i < rest.errors.len() && (#[trigger] rest.errors[i]).span == span;
            let shift = cooked.errors.len() - rest.errors.len();
            assert(cooked.errors[i + shift] == rest.errors[i]);
        }
    }
}

/// Some error says this of exactly this span.
pub open spec fn reported_as(errors: Seq<LexError>, span: Span, kind: LexErrorKind) -> bool {
    exists|i: int| 0 <= i < errors.len() && #[trigger] errors[i] == (LexError { span, kind })
}

/// The spans have no byte in common.
pub open spec fn apart(a: Span, b: Span) -> bool {
    a.hi().0 <= b.lo().0 || b.hi().0 <= a.lo().0
}

/// What becomes of each piece of the text. A character without a use is reported,
/// and so is a comment left open. Space and other comments leave no trace.
/// Everything else is under a token.
pub proof fn lemma_every_piece_is_accounted_for(
    source: Seq<char>,
    names: Seq<Seq<char>>,
    k: int,
)
    requires
        symbol::valid_names(names),
        text::byte_len(source) <= u32::MAX,
        0 <= k < lexer::lexemes(source).len(),
    ensures
        ({
            let all = lexer::lexemes(source);
            let span = token::range(lexer::offset(all, k), lexer::offset(all, k + 1));
            let tokens = token::lexing(source, names).tokens;
            let errors = token::lexing(source, names).errors;
            match all[k].kind {
                RawTokenKind::Unknown => reported_as(
                    errors,
                    span,
                    LexErrorKind::UnknownCharacter,
                ),
                RawTokenKind::BlockComment { terminated: false } => reported_as(
                    errors,
                    span,
                    LexErrorKind::UnterminatedBlockComment,
                ),
                RawTokenKind::Whitespace
                | RawTokenKind::LineComment
                | RawTokenKind::BlockComment { terminated: true } => {
                    &&& forall|i: int|
                        0 <= i < tokens.len() ==> apart((#[trigger] tokens[i]).span, span)
                    &&& forall|i: int|
                        0 <= i < errors.len() ==> apart((#[trigger] errors[i]).span, span)
                },
                _ => under_a_token(tokens, span),
            }
        }),
{
    let all = lexer::lexemes(source);
    let cooked = token::lexing(source, names);
    let span = token::range(lexer::offset(all, k), lexer::offset(all, k + 1));
    lexer::lemma_lexemes_tile(source);
    assert(all.skip(0) =~= all);
    assert(all.take(0) =~= Seq::<Lexeme>::empty());
    assert(lexer::offset(all, 0) == 0);
    assert forall|j: int| 0 <= j < all.len() implies lexer::well_shaped(#[trigger] all[j]) by {
        lexer::lemma_lexemes_are_well_shaped(source, j);
    }
    lemma_nothing_is_lost(source, names, k);
    lexer::lemma_lexeme_slice(source, k);
    assert forall|i: int| 0 <= i < cooked.tokens.len() && (trivia(all[k].kind) || all[k].kind
        == RawTokenKind::Unknown || all[k].kind is BlockComment) implies apart(
        (#[trigger] cooked.tokens[i]).span,
        span,
    ) by {
        if i < cooked.tokens.len() - 1 {
            let (j, l) = lemma_token_origin(all, 0, names, cooked.names, i);
            lexer::lemma_lexemes_slice(source, j, l);
            assert(!(j <= k < l)) by {
                if j <= k < l {
                    assert(token::complaint(all[k].kind) is None);
                    assert(!trivia(all[k].kind));
                }
            }
            if k < j {
                lexer::lemma_lexemes_slice(source, k + 1, j);
            } else {
                lexer::lemma_lexemes_slice(source, l, k);
            }
        } else {
            lemma_stream_ends_in_eof(source, names);
        }
    }
    assert forall|i: int| 0 <= i < cooked.errors.len() && cooked.errors[i].span
        == span implies #[trigger] cooked.errors[i] == (LexError {
        span,
        kind: token::complaint(all[k].kind)->0,
    }) && token::complaint(all[k].kind) is Some by {
        let l = lemma_error_origin(all, 0, names, i);
        lexer::lemma_lexeme_slice(source, l);
        lemma_same_offset(source, k, l);
    }
    assert forall|i: int| 0 <= i < cooked.errors.len() && trivia(all[k].kind) implies apart(
        (#[trigger] cooked.errors[i]).span,
        span,
    ) by {
        let l = lemma_error_origin(all, 0, names, i);
        lexer::lemma_lexeme_slice(source, l);
        if k < l {
            lexer::lemma_lexemes_slice(source, k + 1, l);
        } else if l < k {
            lexer::lemma_lexemes_slice(source, l + 1, k);
        }
    }
    if reported(cooked.errors, span) {
        let i = choose|i: int|
            0 <= i < cooked.errors.len() && (#[trigger] cooked.errors[i]).span == span;
        assert(cooked.errors[i].span == span);
    }
    if under_a_token(cooked.tokens, span) {
        let i = choose|i: int|
            0 <= i < cooked.tokens.len() && (#[trigger] cooked.tokens[i]).span.covers(span);
        assert(cooked.tokens[i].span.covers(span));
    }
}

/// What a token is, is told by the text under its span: a literal starts with a
/// digit, a lifetime with an apostrophe, a word with a letter or an underscore,
/// and anything else is punctuation that is written the way its kind says.
pub proof fn lemma_the_text_tells_the_token(
    source: Seq<char>,
    names: Seq<Seq<char>>,
    i: int,
) -> (written: Seq<char>)
    requires
        symbol::valid_names(names),
        text::byte_len(source) <= u32::MAX,
        0 <= i < token::lexing(source, names).tokens.len() - 1,
    ensures
        ({
            let cooked = token::lexing(source, names);
            let token = cooked.tokens[i];
            &&& encode_utf8(source).subrange(
                token.span.lo().0 as int,
                token.span.hi().0 as int,
            ) == encode_utf8(written)
            &&& written.len() > 0
            &&& token.kind is Int <==> plain::digit(written[0])
            &&& token.kind is Lifetime <==> written[0] == '\''
            &&& token.kind is Ident <==> plain::begins_word(written[0])
            &&& token.kind is Int ==> lexer::laws::looks(RawTokenKind::Int, written)
            &&& token.kind is Lifetime ==> lexer::laws::looks(RawTokenKind::Lifetime, written)
            &&& token.kind is Ident ==> lexer::laws::looks(RawTokenKind::Ident, written)
            &&& symbol_of(token.kind) is None ==> written == spelling(token.kind, cooked.names)
            &&& cooked.names.len() <= 0x1_0000_0000 ==> match token.kind {
                TokenKind::Ident(symbol) => written == cooked.names[symbol.index()],
                TokenKind::Int(symbol) => written == cooked.names[symbol.index()],
                TokenKind::Lifetime(symbol) => written.drop_first()
                    == cooked.names[symbol.index()],
                _ => true,
            }
        }),
{
    let all = lexer::lexemes(source);
    let cooked = token::lexing(source, names);
    lexer::lemma_lexemes_tile(source);
    assert(all.skip(0) =~= all);
    assert(all.take(0) =~= Seq::<Lexeme>::empty());
    assert(lexer::offset(all, 0) == 0);
    assert forall|j: int| 0 <= j < all.len() implies lexer::well_shaped(#[trigger] all[j]) by {
        lexer::lemma_lexemes_are_well_shaped(source, j);
    }
    let (j, k) = lemma_token_origin(all, 0, names, cooked.names, i);
    let written = lexer::written(all.subrange(j, k));
    lexer::lemma_lexemes_slice(source, j, k);
    lexer::laws::lemma_lexemes_look_right(source, j);
    if k == j + 1 {
        lexer::lemma_written_one(all, j);
    } else {
        lemma_written_starts(all, j, k);
    }
    plain::lemma_classes(written[0]);
    if let TokenKind::Lifetime(symbol) = cooked.tokens[i].kind {
        if cooked.names.len() <= 0x1_0000_0000 {
            assert(written.drop_first() =~= cooked.names[symbol.index()]);
        }
    }
    written
}

/// A run of lexemes starts with the first character of the first one.
proof fn lemma_written_starts(lexemes: Seq<Lexeme>, i: int, j: int)
    requires
        0 <= i < j <= lexemes.len(),
        forall|k: int| 0 <= k < lexemes.len() ==> (#[trigger] lexemes[k]).text.len() > 0,
    ensures
        lexer::written(lexemes.subrange(i, j)).len() > 0,
        lexer::written(lexemes.subrange(i, j))[0] == lexemes[i].text[0],
    decreases j - i,
{
    if j == i + 1 {
        lexer::lemma_written_one(lexemes, i);
        assert(lexemes[i].text.len() > 0);
    } else {
        lemma_written_starts(lexemes, i, j - 1);
        assert(lexemes.subrange(i, j).drop_last() =~= lexemes.subrange(i, j - 1));
    }
}

/// The names that are written in the lexemes, in order.
pub open spec fn spoken(lexemes: Seq<Lexeme>) -> Seq<Seq<char>>
    decreases lexemes.len(),
{
    if lexemes.len() == 0 {
        Seq::empty()
    } else {
        let rest = spoken(lexemes.skip(1));
        match lexemes[0].kind {
            RawTokenKind::Ident => seq![lexemes[0].text] + rest,
            RawTokenKind::Int => seq![lexemes[0].text] + rest,
            RawTokenKind::Lifetime => seq![lexemes[0].text.skip(1)] + rest,
            _ => rest,
        }
    }
}

/// The table `names` with those of `more` added at the end that are not in it
/// yet, each once, in order.
pub open spec fn extended(names: Seq<Seq<char>>, more: Seq<Seq<char>>) -> Seq<Seq<char>>
    decreases more.len(),
{
    if more.len() == 0 {
        names
    } else if names.contains(more[0]) {
        extended(names, more.skip(1))
    } else {
        extended(names.push(more[0]), more.skip(1))
    }
}

/// Lexing adds the names that are written in the text to the table, in the order
/// in which they first occur, and no others.
pub proof fn lemma_lexing_adds_the_names_written(source: Seq<char>, names: Seq<Seq<char>>)
    ensures
        token::lexing(source, names).names == extended(
            names,
            spoken(lexer::lexemes(source)),
        ),
{
    lemma_cook_adds_the_names(lexer::lexemes(source), 0, names);
}

proof fn lemma_cook_adds_the_names(lexemes: Seq<Lexeme>, pos: nat, names: Seq<Seq<char>>)
    ensures
        token::cook(lexemes, pos, names).names == extended(names, spoken(lexemes)),
    decreases lexemes.len(),
{
    if lexemes.len() > 0 {
        let kind = lexemes[0].kind;
        let end = pos + text::byte_len(lexemes[0].text);
        let rest = lexemes.skip(1);
        if lexemes.len() >= 2 && token::glued(kind, lexemes[1].kind) is Some {
            let after = end + text::byte_len(lexemes[1].text);
            lemma_cook_adds_the_names(lexemes.skip(2), after, names);
            assert(rest.skip(1) =~= lexemes.skip(2));
            assert(spoken(rest) == spoken(rest.skip(1)));
        } else if let Some(name) = token::name_of(lexemes[0]) {
            lemma_cook_adds_the_names(rest, end, symbol::interned(names, name));
            assert(lexemes[0].text.skip(1) =~= lexemes[0].text.drop_first());
            assert(spoken(lexemes).skip(1) =~= spoken(rest));
        } else {
            lemma_cook_adds_the_names(rest, end, names);
        }
    }
}

/// The complaints of the lexemes, from left to right. The first lexeme starts at
/// byte `pos`.
pub open spec fn complaints(lexemes: Seq<Lexeme>, pos: nat) -> Seq<LexError>
    decreases lexemes.len(),
{
    if lexemes.len() == 0 {
        Seq::empty()
    } else {
        let end = pos + text::byte_len(lexemes[0].text);
        let rest = complaints(lexemes.skip(1), end);
        match token::complaint(lexemes[0].kind) {
            Some(kind) => seq![LexError { span: token::range(pos, end), kind }] + rest,
            None => rest,
        }
    }
}

/// The errors are the complaints of the lexemes in order, and nothing else. Names
/// have no part in them.
pub proof fn lemma_errors_are_the_complaints(source: Seq<char>, names: Seq<Seq<char>>)
    ensures
        token::lexing(source, names).errors == complaints(lexer::lexemes(source), 0),
{
    lemma_cook_complains(lexer::lexemes(source), 0, names);
}

proof fn lemma_cook_complains(lexemes: Seq<Lexeme>, pos: nat, names: Seq<Seq<char>>)
    ensures
        token::cook(lexemes, pos, names).errors == complaints(lexemes, pos),
    decreases lexemes.len(),
{
    if lexemes.len() > 0 {
        let kind = lexemes[0].kind;
        let end = pos + text::byte_len(lexemes[0].text);
        let rest = lexemes.skip(1);
        if lexemes.len() >= 2 && token::glued(kind, lexemes[1].kind) is Some {
            let after = end + text::byte_len(lexemes[1].text);
            lemma_cook_complains(lexemes.skip(2), after, names);
            assert(rest.skip(1) =~= lexemes.skip(2));
            assert(complaints(rest, end) == complaints(rest.skip(1), after));
        } else if let Some(name) = token::name_of(lexemes[0]) {
            lemma_cook_complains(rest, end, symbol::interned(names, name));
        } else {
            lemma_cook_complains(rest, end, names);
        }
    }
}

/// The errors follow one another without overlapping, and a comment left open can
/// only be the last.
pub proof fn lemma_errors_are_in_order(
    source: Seq<char>,
    names: Seq<Seq<char>>,
    i: int,
    j: int,
)
    requires
        text::byte_len(source) <= u32::MAX,
        0 <= i < j < token::lexing(source, names).errors.len(),
    ensures
        ({
            let errors = token::lexing(source, names).errors;
            &&& errors[i].span.wf() && errors[j].span.wf()
            &&& errors[i].span.hi().0 <= errors[j].span.lo().0
            &&& errors[i].kind == LexErrorKind::UnknownCharacter
        }),
{
    let all = lexer::lexemes(source);
    lexer::lemma_lexemes_tile(source);
    assert(all.skip(0) =~= all);
    assert(all.take(0) =~= Seq::<Lexeme>::empty());
    assert(lexer::offset(all, 0) == 0);
    let (k, l) = lemma_error_origins(all, 0, names, i, j);
    lexer::lemma_lexeme_slice(source, k);
    lexer::lemma_lexeme_slice(source, l);
    lexer::lemma_lexemes_slice(source, k + 1, l);
    lexer::lemma_lexemes_are_maximal(source, k);
}

/// A token and an error never overlap.
pub proof fn lemma_errors_and_tokens_are_disjoint(
    source: Seq<char>,
    names: Seq<Seq<char>>,
    i: int,
    e: int,
)
    requires
        symbol::valid_names(names),
        text::byte_len(source) <= u32::MAX,
        0 <= i < token::lexing(source, names).tokens.len(),
        0 <= e < token::lexing(source, names).errors.len(),
    ensures
        ({
            let token = token::lexing(source, names).tokens[i];
            let error = token::lexing(source, names).errors[e];
            ||| token.span.hi().0 <= error.span.lo().0
            ||| error.span.hi().0 <= token.span.lo().0
        }),
{
    let all = lexer::lexemes(source);
    let cooked = token::lexing(source, names);
    lexer::lemma_lexemes_tile(source);
    assert(all.skip(0) =~= all);
    assert(all.take(0) =~= Seq::<Lexeme>::empty());
    assert(lexer::offset(all, 0) == 0);
    assert forall|j: int| 0 <= j < all.len() implies lexer::well_shaped(#[trigger] all[j]) by {
        lexer::lemma_lexemes_are_well_shaped(source, j);
    }
    let l = lemma_error_origin(all, 0, names, e);
    lexer::lemma_lexeme_slice(source, l);
    if i < cooked.tokens.len() - 1 {
        let (j, k) = lemma_token_origin(all, 0, names, cooked.names, i);
        lexer::lemma_lexemes_slice(source, j, k);
        assert(!(j <= l < k)) by {
            if j <= l < k {
                assert(token::complaint(all[l].kind) is None);
            }
        }
        if l < j {
            lexer::lemma_lexemes_slice(source, l + 1, j);
        } else {
            lexer::lemma_lexemes_slice(source, k, l);
        }
    } else {
        lemma_stream_ends_in_eof(source, names);
    }
}

/// An error points at a single character that begins no token, or at a block
/// comment that is still open at the end of the text.
pub proof fn lemma_errors_point_at_their_cause(
    source: Seq<char>,
    names: Seq<Seq<char>>,
    i: int,
) -> (k: int)
    requires
        text::byte_len(source) <= u32::MAX,
        0 <= i < token::lexing(source, names).errors.len(),
    ensures
        0 <= k < lexer::lexemes(source).len(),
        ({
            let error = token::lexing(source, names).errors[i];
            let all = lexer::lexemes(source);
            let chars = all[k].text;
            &&& error.span == token::range(lexer::offset(all, k), lexer::offset(all, k + 1))
            &&& error.span.lo().0 == text::byte_len(lexer::written(all.take(k)))
            &&& error.span.hi().0 == error.span.lo().0 + text::byte_len(chars)
            &&& encode_utf8(source).subrange(
                error.span.lo().0 as int,
                error.span.hi().0 as int,
            ) == encode_utf8(chars)
            &&& error.kind is UnknownCharacter <==> all[k].kind == RawTokenKind::Unknown
            &&& error.kind is UnterminatedBlockComment <==> all[k].kind == (
            RawTokenKind::BlockComment { terminated: false })
            &&& match error.kind {
                LexErrorKind::UnknownCharacter => chars.len() == 1 && lexer::punctuation(chars[0])
                    == RawTokenKind::Unknown,
                LexErrorKind::UnterminatedBlockComment => {
                    &&& chars.len() >= 2 && chars[0] == '/' && chars[1] == '*'
                    &&& !lexer::comment_rest(chars.skip(2), 1).1
                    &&& error.span.hi().0 == text::byte_len(source)
                },
            }
        }),
{
    let all = lexer::lexemes(source);
    lexer::lemma_lexemes_tile(source);
    assert(all.skip(0) =~= all);
    assert(all.take(0) =~= Seq::<Lexeme>::empty());
    assert(lexer::offset(all, 0) == 0);
    let k = lemma_error_origin(all, 0, names, i);
    lexer::lemma_lexemes_are_well_shaped(source, k);
    if k < all.len() - 1 {
        lexer::lemma_lexemes_are_maximal(source, k);
    }
    lexer::lemma_lexeme_slice(source, k);
    k
}

proof fn lemma_error_origin(
    lexemes: Seq<Lexeme>,
    from: int,
    names: Seq<Seq<char>>,
    i: int,
) -> (k: int)
    requires
        0 <= from <= lexemes.len(),
        0 <= i < token::cook(lexemes.skip(from), lexer::offset(lexemes, from), names).errors.len(),
    ensures
        from <= k < lexemes.len(),
        ({
            let cooked = token::cook(lexemes.skip(from), lexer::offset(lexemes, from), names);
            let error = cooked.errors[i];
            &&& error.span == token::range(lexer::offset(lexemes, k), lexer::offset(lexemes, k + 1))
            &&& token::complaint(lexemes[k].kind) == Some(error.kind)
        }),
    decreases lexemes.len() - from,
{
    let here = lexemes.skip(from);
    let kind = here[0].kind;
    assert(here[0] == lexemes[from]);
    assert(here.skip(1) =~= lexemes.skip(from + 1));
    lexer::lemma_offset_step(lexemes, from);
    if here.len() >= 2 && token::glued(kind, here[1].kind) is Some {
        assert(here[1] == lexemes[from + 1]);
        assert(here.skip(2) =~= lexemes.skip(from + 2));
        lexer::lemma_offset_step(lexemes, from + 1);
        lemma_error_origin(lexemes, from + 2, names, i)
    } else if let Some(name) = token::name_of(here[0]) {
        lemma_error_origin(lexemes, from + 1, symbol::interned(names, name), i)
    } else if token::single(kind) is Some {
        lemma_error_origin(lexemes, from + 1, names, i)
    } else if token::complaint(kind) is Some {
        if i == 0 {
            from
        } else {
            lemma_error_origin(lexemes, from + 1, names, i - 1)
        }
    } else {
        lemma_error_origin(lexemes, from + 1, names, i)
    }
}

/// Later errors come from later lexemes.
proof fn lemma_error_origins(
    lexemes: Seq<Lexeme>,
    from: int,
    names: Seq<Seq<char>>,
    i: int,
    j: int,
) -> (places: (int, int))
    requires
        0 <= from <= lexemes.len(),
        0 <= i < j < token::cook(
            lexemes.skip(from),
            lexer::offset(lexemes, from),
            names,
        ).errors.len(),
    ensures
        from <= places.0 < places.1 < lexemes.len(),
        ({
            let cooked = token::cook(lexemes.skip(from), lexer::offset(lexemes, from), names);
            let (k, l) = places;
            &&& cooked.errors[i].span == token::range(
                lexer::offset(lexemes, k),
                lexer::offset(lexemes, k + 1),
            )
            &&& cooked.errors[j].span == token::range(
                lexer::offset(lexemes, l),
                lexer::offset(lexemes, l + 1),
            )
            &&& token::complaint(lexemes[k].kind) == Some(cooked.errors[i].kind)
        }),
    decreases lexemes.len() - from,
{
    let here = lexemes.skip(from);
    let kind = here[0].kind;
    assert(here[0] == lexemes[from]);
    assert(here.skip(1) =~= lexemes.skip(from + 1));
    lexer::lemma_offset_step(lexemes, from);
    if here.len() >= 2 && token::glued(kind, here[1].kind) is Some {
        assert(here[1] == lexemes[from + 1]);
        assert(here.skip(2) =~= lexemes.skip(from + 2));
        lexer::lemma_offset_step(lexemes, from + 1);
        lemma_error_origins(lexemes, from + 2, names, i, j)
    } else if let Some(name) = token::name_of(here[0]) {
        lemma_error_origins(lexemes, from + 1, symbol::interned(names, name), i, j)
    } else if token::single(kind) is Some {
        lemma_error_origins(lexemes, from + 1, names, i, j)
    } else if token::complaint(kind) is Some {
        if i == 0 {
            (from, lemma_error_origin(lexemes, from + 1, names, j - 1))
        } else {
            lemma_error_origins(lexemes, from + 1, names, i - 1, j - 1)
        }
    } else {
        lemma_error_origins(lexemes, from + 1, names, i, j)
    }
}

} // verus!
