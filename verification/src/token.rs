//! Spanned tokens, and the second lexing layer that produces them.
//!
//! Where the raw layer answers "what and how long", this one answers "what,
//! where, and which name", and it is the first place that throws anything away.
//!
//! Three things happen here and nowhere else:
//!
//! - **Positions become absolute.** Raw token lengths are accumulated into
//!   [`Span`]s. This is sound only because the raw layer tiles its input exactly.
//! - **Trivia is dropped.** Whitespace and comments do not survive.
//! - **Compound operators are assembled.** Adjacency is known here, because
//!   trivia is still visible while deciding, so `= =` stays two tokens while
//!   `==` becomes one.
//!
//! # Keywords are not token kinds
//!
//! There is no `TokenKind::Fn`. The word `fn` arrives as [`TokenKind::Ident`]
//! carrying a [`Symbol`] that happens to be a keyword. Keyword-ness is a property
//! of the name rather than of the token.
use crate::lexer;
use crate::lexer::{Lexeme, RawTokenKind};
use crate::span::{BytePos, Span};
use crate::symbol;
use crate::symbol::{Interner, Symbol};
use crate::text;
use vstd::prelude::*;
use vstd::string::*;

pub mod laws;

verus! {

broadcast use Span::lemma_of;

/// A token together with the source range it covers.
#[derive(Copy, Clone, PartialEq, Eq, Structural, Debug)]
pub struct Token {
    pub kind: TokenKind,
    pub span: Span,
}

/// What a token is, once trivia is gone and operators are assembled.
#[derive(Copy, Clone, PartialEq, Eq, Structural, Debug)]
pub enum TokenKind {
    /// An identifier, which may or may not be a keyword. See the module
    /// documentation.
    Ident(Symbol),
    /// An integer literal, held as written.
    ///
    /// Deliberately not parsed into a number here. A literal too large for its
    /// type is a type error, not a lexical one, and diagnostics want the
    /// original spelling.
    Int(Symbol),
    /// `'a`, holding just the name: the apostrophe is syntax, not part of it.
    Lifetime(Symbol),
    /// `(`
    OpenParen,
    /// `)`
    CloseParen,
    /// `{`
    OpenBrace,
    /// `}`
    CloseBrace,
    /// `,`
    Comma,
    /// `:`
    Colon,
    /// `;`
    Semi,
    /// `.`
    Dot,
    /// `=`
    Eq,
    /// `==`
    EqEq,
    /// `!=`
    Ne,
    /// `!`
    Bang,
    /// `<`
    Lt,
    /// `<=`
    Le,
    /// `>`
    Gt,
    /// `>=`
    Ge,
    /// `+`
    Plus,
    /// `-`
    Minus,
    /// `*`
    Star,
    /// `/`
    Slash,
    /// `%`
    Percent,
    /// `&`
    And,
    /// `&&`
    AndAnd,
    /// `->`
    RArrow,
    /// End of input. Always the last token, with an empty span, so the parser
    /// never has to special-case running off the end.
    Eof,
}

/// Something the lexer could not make sense of.
///
/// Collected rather than reported, because lexing must not stop at the first
/// problem: a parser needs the rest of the tokens to recover.
#[derive(Copy, Clone, PartialEq, Eq, Structural, Debug)]
pub struct LexError {
    pub span: Span,
    pub kind: LexErrorKind,
}

/// What went wrong while lexing.
#[derive(Copy, Clone, PartialEq, Eq, Structural, Debug)]
pub enum LexErrorKind {
    /// A character that begins no token.
    UnknownCharacter,
    /// A block comment that is still open at the end of the input.
    UnterminatedBlockComment,
}

/// What lexing a file yields: every token, and everything that went wrong.
///
/// The token list always ends in [`TokenKind::Eof`].
#[derive(Debug)]
pub struct Lexed {
    pub tokens: Vec<Token>,
    pub errors: Vec<LexError>,
}

impl Lexed {
    /// The result holds exactly these tokens and these errors.
    pub open spec fn holds(&self, tokens: Seq<Token>, errors: Seq<LexError>) -> bool {
        self.tokens@ == tokens && self.errors@ == errors
    }
}

impl Clone for Lexed {
    fn clone(&self) -> (copy: Lexed)
        ensures
            copy.holds(self.tokens@, self.errors@),
            copy.tokens@ == self.tokens@,
            copy.errors@ == self.errors@,
    {
        let copy = Lexed { tokens: self.tokens.clone(), errors: self.errors.clone() };
        assert(copy.tokens@ =~= self.tokens@);
        assert(copy.errors@ =~= self.errors@);
        copy
    }
}

impl vstd::std_specs::cmp::PartialEqSpecImpl for Lexed {
    open spec fn obeys_eq_spec() -> bool {
        true
    }

    open spec fn eq_spec(&self, other: &Lexed) -> bool {
        self.holds(other.tokens@, other.errors@)
    }
}

impl PartialEq for Lexed {
    fn eq(&self, other: &Lexed) -> (same: bool) {
        if self.tokens.len() != other.tokens.len() || self.errors.len() != other.errors.len() {
            return false;
        }
        for i in 0..self.tokens.len()
            invariant
                self.tokens@.len() == other.tokens@.len(),
                forall|j: int| 0 <= j < i ==> self.tokens@[j] == other.tokens@[j],
        {
            if self.tokens[i] != other.tokens[i] {
                return false;
            }
        }
        for i in 0..self.errors.len()
            invariant
                self.errors@.len() == other.errors@.len(),
                forall|j: int| 0 <= j < i ==> self.errors@[j] == other.errors@[j],
        {
            if self.errors[i] != other.errors[i] {
                return false;
            }
        }
        assert(self.tokens@ =~= other.tokens@);
        assert(self.errors@ =~= other.errors@);
        true
    }
}

impl Eq for Lexed {

}

/// The token that two adjacent raw tokens make together, if they do.
pub open spec fn glued(kind: RawTokenKind, next: RawTokenKind) -> Option<TokenKind> {
    match (kind, next) {
        (RawTokenKind::Eq, RawTokenKind::Eq) => Some(TokenKind::EqEq),
        (RawTokenKind::Bang, RawTokenKind::Eq) => Some(TokenKind::Ne),
        (RawTokenKind::Lt, RawTokenKind::Eq) => Some(TokenKind::Le),
        (RawTokenKind::Gt, RawTokenKind::Eq) => Some(TokenKind::Ge),
        (RawTokenKind::And, RawTokenKind::And) => Some(TokenKind::AndAnd),
        (RawTokenKind::Minus, RawTokenKind::Gt) => Some(TokenKind::RArrow),
        _ => None,
    }
}

/// The token that a punctuation character is on its own.
pub open spec fn single(kind: RawTokenKind) -> Option<TokenKind> {
    match kind {
        RawTokenKind::OpenParen => Some(TokenKind::OpenParen),
        RawTokenKind::CloseParen => Some(TokenKind::CloseParen),
        RawTokenKind::OpenBrace => Some(TokenKind::OpenBrace),
        RawTokenKind::CloseBrace => Some(TokenKind::CloseBrace),
        RawTokenKind::Comma => Some(TokenKind::Comma),
        RawTokenKind::Colon => Some(TokenKind::Colon),
        RawTokenKind::Semi => Some(TokenKind::Semi),
        RawTokenKind::Dot => Some(TokenKind::Dot),
        RawTokenKind::Eq => Some(TokenKind::Eq),
        RawTokenKind::Bang => Some(TokenKind::Bang),
        RawTokenKind::Lt => Some(TokenKind::Lt),
        RawTokenKind::Gt => Some(TokenKind::Gt),
        RawTokenKind::Plus => Some(TokenKind::Plus),
        RawTokenKind::Minus => Some(TokenKind::Minus),
        RawTokenKind::Star => Some(TokenKind::Star),
        RawTokenKind::Slash => Some(TokenKind::Slash),
        RawTokenKind::Percent => Some(TokenKind::Percent),
        RawTokenKind::And => Some(TokenKind::And),
        _ => None,
    }
}

/// The name that a lexeme carries, if it carries one.
pub open spec fn name_of(lexeme: Lexeme) -> Option<Seq<char>> {
    match lexeme.kind {
        RawTokenKind::Ident | RawTokenKind::Int => Some(lexeme.text),
        RawTokenKind::Lifetime => Some(lexeme.text.drop_first()),
        _ => None,
    }
}

/// The token that a lexeme carrying a name becomes.
pub open spec fn named(kind: RawTokenKind, symbol: Symbol) -> TokenKind {
    match kind {
        RawTokenKind::Ident => TokenKind::Ident(symbol),
        RawTokenKind::Int => TokenKind::Int(symbol),
        _ => TokenKind::Lifetime(symbol),
    }
}

/// The complaint that a lexeme gives rise to, if any.
pub open spec fn complaint(kind: RawTokenKind) -> Option<LexErrorKind> {
    match kind {
        RawTokenKind::Unknown => Some(LexErrorKind::UnknownCharacter),
        RawTokenKind::BlockComment { terminated: false } => Some(
            LexErrorKind::UnterminatedBlockComment,
        ),
        _ => None,
    }
}

/// The bytes from `lo` to `hi`.
pub open spec fn range(lo: nat, hi: nat) -> Span {
    Span::of(BytePos(lo as u32), BytePos(hi as u32))
}

/// What lexing amounts to: the tokens, the complaints, and the table of names
/// once every name has been interned.
pub struct Cooked {
    pub tokens: Seq<Token>,
    pub errors: Seq<LexError>,
    pub names: Seq<Seq<char>>,
}

impl Cooked {
    /// The same with `token` in front.
    pub open spec fn after_token(self, token: Token) -> Cooked {
        Cooked { tokens: seq![token] + self.tokens, ..self }
    }

    /// The same with `error` in front.
    pub open spec fn after_error(self, error: LexError) -> Cooked {
        Cooked { errors: seq![error] + self.errors, ..self }
    }
}

/// Lexemes become tokens from left to right. The first lexeme starts at byte
/// `pos`, and `names` holds the names known so far.
pub open spec fn cook(lexemes: Seq<Lexeme>, pos: nat, names: Seq<Seq<char>>) -> Cooked
    decreases lexemes.len(),
{
    if lexemes.len() == 0 {
        Cooked {
            tokens: seq![Token { kind: TokenKind::Eof, span: range(pos, pos) }],
            errors: Seq::empty(),
            names,
        }
    } else {
        let kind = lexemes[0].kind;
        let end = pos + text::byte_len(lexemes[0].text);
        let span = range(pos, end);
        if lexemes.len() >= 2 && glued(kind, lexemes[1].kind) is Some {
            let end = end + text::byte_len(lexemes[1].text);
            let kind = glued(kind, lexemes[1].kind)->0;
            cook(lexemes.skip(2), end, names).after_token(Token { kind, span: range(pos, end) })
        } else {
            let rest = lexemes.skip(1);
            match (name_of(lexemes[0]), single(kind), complaint(kind)) {
                (Some(name), _, _) => cook(rest, end, symbol::interned(names, name)).after_token(
                    Token { kind: named(kind, symbol::symbol_for(names, name)), span },
                ),
                (_, Some(kind), _) => cook(rest, end, names).after_token(Token { kind, span }),
                (_, _, Some(kind)) => cook(rest, end, names).after_error(LexError { span, kind }),
                _ => cook(rest, end, names),
            }
        }
    }
}

/// What lexing `source` amounts to when `names` are known already.
pub open spec fn lexing(source: Seq<char>, names: Seq<Seq<char>>) -> Cooked {
    cook(lexer::lexemes(source), 0, names)
}

/// The stream ends in [`TokenKind::Eof`].
pub open spec fn ends_in_eof(tokens: Seq<Token>) -> bool {
    tokens.len() > 0 && tokens.last().kind == TokenKind::Eof
}

/// The tokens follow one another without overlapping.
#[verifier::opaque]
pub open spec fn in_order(tokens: Seq<Token>) -> bool {
    &&& forall|i: int| 0 <= i < tokens.len() ==> (#[trigger] tokens[i]).span.wf()
    &&& forall|i: int, j: int|
        0 <= i < j < tokens.len() ==> (#[trigger] tokens[i]).span.hi().0 <= (
        #[trigger] tokens[j]).span.lo().0
}

/// Lexes `source`, interning every name it finds.
///
/// Always returns a token list ending in [`TokenKind::Eof`], whatever errors
/// were found alongside.
#[verifier::rlimit(30)]
pub fn lex(source: &str, interner: &mut Interner) -> (result: (Vec<Token>, Vec<LexError>))
    requires
        text::byte_len(source@) <= u32::MAX,
        old(interner).wf(),
    ensures
        final(interner).wf(),
        result.0@ == lexing(source@, old(interner)@).tokens,
        result.1@ == lexing(source@, old(interner)@).errors,
        final(interner)@ == lexing(source@, old(interner)@).names,
        ends_in_eof(result.0@),
        in_order(result.0@),
{

    let ghost all = lexer::lexemes(source@);
    // Absolute positions come from accumulating raw token lengths. Sound only
    // because the raw layer tiles its input.
    let mut raw: Vec<(RawTokenKind, Span)> = Vec::new();
    let mut pos = BytePos::zero();
    let lengths = lexer::tokenize(source);
    proof {
        lexer::lemma_lexemes_tile(source@);
        assert(lexer::written(all.take(0)) =~= Seq::<char>::empty());
    }
    for i in 0..lengths.len()
        invariant
            all == lexer::lexemes(source@),
            lexer::written(all) == source@,
            text::byte_len(source@) <= u32::MAX,
            lengths@.len() == all.len(),
            forall|j: int| 0 <= j < lengths@.len() ==> lengths@[j] == #[trigger] all[j].raw(),
            raw@.len() == i,
            pos.0 == lexer::offset(all, i as int),
            forall|j: int|
                0 <= j < i ==> #[trigger] raw@[j] == (
                    all[j].kind,
                    range(lexer::offset(all, j), lexer::offset(all, j + 1)),
                ),
    {
        let token = lengths[i];
        proof {
            assert(token == all[i as int].raw());
            lexer::lemma_offset_step(all, i as int);
            lexer::lemma_offset_bound(all, i as int + 1);
        }
        let end = pos + token.len;
        raw.push((token.kind, Span::new(pos, end)));
        pos = end;
    }

    let mut tokens: Vec<Token> = Vec::new();
    let mut errors: Vec<LexError> = Vec::new();
    let mut index: usize = 0;
    let ghost goal = lexing(source@, interner@);
    assert(all.skip(0) =~= all);
    assert(raw@.len() == all.len());

    while index < raw.len()
        invariant
            all == lexer::lexemes(source@),
            text::byte_len(source@) <= u32::MAX,
            raw@.len() == all.len(),
            forall|j: int|
                0 <= j < raw@.len() ==> #[trigger] raw@[j] == (
                    all[j].kind,
                    range(lexer::offset(all, j), lexer::offset(all, j + 1)),
                ),
            index <= raw@.len(),
            interner.wf(),
            goal.tokens == tokens@ + cook(
                all.skip(index as int),
                lexer::offset(all, index as int),
                interner@,
            ).tokens,
            goal.errors == errors@ + cook(
                all.skip(index as int),
                lexer::offset(all, index as int),
                interner@,
            ).errors,
            goal.names == cook(
                all.skip(index as int),
                lexer::offset(all, index as int),
                interner@,
            ).names,
        decreases raw@.len() - index,
    {
        let (kind, span) = raw[index];
        // Gluing consults the immediately following raw token, so a compound
        // operator can never be assembled across whitespace or a comment.
        let following = if index + 1 < raw.len() {
            Some(raw[index + 1].0)
        } else {
            None
        };
        let ghost here = all.skip(index as int);
        proof {
            lexer::lemma_lexemes_tile(source@);
            lexer::lemma_offset_step(all, index as int);
            lexer::lemma_lexeme_slice(source@, index as int);
            assert(here[0] == all[index as int]);
            assert(here.skip(1) =~= all.skip(index as int + 1));
            if index + 1 < raw@.len() {
                assert(here[1] == all[index as int + 1]);
                assert(here.skip(2) =~= all.skip(index as int + 2));
                lexer::lemma_offset_step(all, index as int + 1);
                lexer::lemma_lexeme_slice(source@, index as int + 1);
                assert(raw@[index as int + 1].0 == all[index as int + 1].kind);
            }
        }

        let (cooked, consumed): (TokenKind, usize) = match (kind, following) {
            (RawTokenKind::Whitespace, _) | (RawTokenKind::LineComment, _) => {
                index += 1;
                continue;
            },
            (RawTokenKind::BlockComment { terminated }, _) => {
                if !terminated {
                    errors.push(LexError { span, kind: LexErrorKind::UnterminatedBlockComment });
                }
                index += 1;
                continue;
            },
            (RawTokenKind::Eq, Some(RawTokenKind::Eq)) => (TokenKind::EqEq, 2),
            (RawTokenKind::Bang, Some(RawTokenKind::Eq)) => (TokenKind::Ne, 2),
            (RawTokenKind::Lt, Some(RawTokenKind::Eq)) => (TokenKind::Le, 2),
            (RawTokenKind::Gt, Some(RawTokenKind::Eq)) => (TokenKind::Ge, 2),
            (RawTokenKind::And, Some(RawTokenKind::And)) => (TokenKind::AndAnd, 2),
            (RawTokenKind::Minus, Some(RawTokenKind::Gt)) => (TokenKind::RArrow, 2),
            (RawTokenKind::Ident, _) => {
                let name = span.slice(source);
                proof {
                    text::lemma_encode_injective(name@, here[0].text);
                }
                (TokenKind::Ident(interner.intern(name)), 1)
            },
            (RawTokenKind::Int, _) => {
                let name = span.slice(source);
                proof {
                    text::lemma_encode_injective(name@, here[0].text);
                }
                (TokenKind::Int(interner.intern(name)), 1)
            },
            (RawTokenKind::Lifetime, _) => {
                let lifetime = span.slice(source);
                proof {
                    text::lemma_encode_injective(lifetime@, here[0].text);
                }
                // Skip the apostrophe the raw token includes.
                let name = match text::split_first(lifetime) {
                    Some((_, name)) => name,
                    None => lifetime,
                };
                (TokenKind::Lifetime(interner.intern(name)), 1)
            },
            (RawTokenKind::OpenParen, _) => (TokenKind::OpenParen, 1),
            (RawTokenKind::CloseParen, _) => (TokenKind::CloseParen, 1),
            (RawTokenKind::OpenBrace, _) => (TokenKind::OpenBrace, 1),
            (RawTokenKind::CloseBrace, _) => (TokenKind::CloseBrace, 1),
            (RawTokenKind::Comma, _) => (TokenKind::Comma, 1),
            (RawTokenKind::Colon, _) => (TokenKind::Colon, 1),
            (RawTokenKind::Semi, _) => (TokenKind::Semi, 1),
            (RawTokenKind::Dot, _) => (TokenKind::Dot, 1),
            (RawTokenKind::Eq, _) => (TokenKind::Eq, 1),
            (RawTokenKind::Bang, _) => (TokenKind::Bang, 1),
            (RawTokenKind::Lt, _) => (TokenKind::Lt, 1),
            (RawTokenKind::Gt, _) => (TokenKind::Gt, 1),
            (RawTokenKind::Plus, _) => (TokenKind::Plus, 1),
            (RawTokenKind::Minus, _) => (TokenKind::Minus, 1),
            (RawTokenKind::Star, _) => (TokenKind::Star, 1),
            (RawTokenKind::Slash, _) => (TokenKind::Slash, 1),
            (RawTokenKind::Percent, _) => (TokenKind::Percent, 1),
            (RawTokenKind::And, _) => (TokenKind::And, 1),
            (RawTokenKind::Unknown, _) => {
                errors.push(LexError { span, kind: LexErrorKind::UnknownCharacter });
                index += 1;
                continue;
            },
            // The raw layer never yields this.
            (RawTokenKind::Eof, _) => {
                index += 1;
                continue;
            },
        };

        let span = if consumed == 2 {
            span.to(raw[index + 1].1)
        } else {
            span
        };
        tokens.push(Token { kind: cooked, span });
        index += consumed;
    }

    tokens.push(Token { kind: TokenKind::Eof, span: Span::new(pos, pos) });
    proof {
        assert(tokens@ =~= goal.tokens);
        laws::lemma_stream_ends_in_eof(source@, old(interner)@);
    }
    (tokens, errors)
}

} // verus!
