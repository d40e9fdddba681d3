//! Spanned tokens.
use tinyrustc::span::{BytePos, Span};
use tinyrustc::symbol::{kw, Interner};
use tinyrustc::token::{lex, LexError, LexErrorKind, Lexed, TokenKind};

/// Renders each token as `Kind lo..hi`, resolving symbols so expectations
/// stay readable.
fn render(text: &str) -> Vec<String> {
    let mut interner = Interner::new();
    let (tokens, _) = lex(text, &mut interner);
    tokens
        .iter()
        .map(|token| {
            let body = match token.kind {
                TokenKind::Ident(symbol) => format!("Ident({})", interner.get(symbol)),
                TokenKind::Int(symbol) => format!("Int({})", interner.get(symbol)),
                TokenKind::Lifetime(symbol) => format!("Lifetime({})", interner.get(symbol)),
                other => format!("{other:?}"),
            };
            format!("{body} {}..{}", token.span.lo().0, token.span.hi().0)
        })
        .collect()
}

fn errors(text: &str) -> Vec<LexError> {
    let mut interner = Interner::new();
    lex(text, &mut interner).1
}

#[test]
fn trivia_is_dropped_and_positions_are_absolute() {
    assert_eq!(
        render("fn main() { }"),
        [
            "Ident(fn) 0..2",
            "Ident(main) 3..7",
            "OpenParen 7..8",
            "CloseParen 8..9",
            "OpenBrace 10..11",
            "CloseBrace 12..13",
            "Eof 13..13",
        ],
    );
}

#[test]
fn a_declaration_lexes_with_its_positions() {
    assert_eq!(
        render("let x: u32 = 1;"),
        [
            "Ident(let) 0..3",
            "Ident(x) 4..5",
            "Colon 5..6",
            "Ident(u32) 7..10",
            "Eq 11..12",
            "Int(1) 13..14",
            "Semi 14..15",
            "Eof 15..15",
        ],
    );
}

#[test]
fn compound_operators_are_glued() {
    assert_eq!(
        render("a == b"),
        ["Ident(a) 0..1", "EqEq 2..4", "Ident(b) 5..6", "Eof 6..6"],
    );
    assert_eq!(render("-> !="), ["RArrow 0..2", "Ne 3..5", "Eof 5..5"]);
}

/// Adjacency is the whole point of gluing here rather than in the parser.
#[test]
fn gluing_does_not_cross_whitespace() {
    assert_eq!(
        render("a = = b"),
        [
            "Ident(a) 0..1",
            "Eq 2..3",
            "Eq 4..5",
            "Ident(b) 6..7",
            "Eof 7..7",
        ],
    );
}

/// Gluing is greedy from the left, so a third `&` stands alone.
#[test]
fn gluing_is_greedy_from_the_left() {
    assert_eq!(
        render("a &&& b"),
        [
            "Ident(a) 0..1",
            "AndAnd 2..4",
            "And 4..5",
            "Ident(b) 6..7",
            "Eof 7..7",
        ],
    );
}

#[test]
fn a_lifetime_keeps_its_name_without_the_apostrophe() {
    assert_eq!(
        render("&'a mut x"),
        [
            "And 0..1",
            "Lifetime(a) 1..3",
            "Ident(mut) 4..7",
            "Ident(x) 8..9",
            "Eof 9..9",
        ],
    );
}

/// Keywords are identifiers whose symbol is a keyword; see the module
/// documentation.
#[test]
fn keywords_arrive_as_identifiers_carrying_keyword_symbols() {
    let mut interner = Interner::new();
    let (tokens, _) = lex("fn while notakeyword", &mut interner);

    assert_eq!(tokens[0].kind, TokenKind::Ident(kw::FN()));
    assert_eq!(tokens[1].kind, TokenKind::Ident(kw::WHILE()));
    match tokens[2].kind {
        TokenKind::Ident(symbol) => assert!(!symbol.is_keyword()),
        other => panic!("expected an identifier, got {other:?}"),
    }
}

#[test]
fn the_same_name_interns_to_the_same_symbol() {
    let mut interner = Interner::new();
    let (tokens, _) = lex("x + x", &mut interner);
    assert_eq!(tokens[0].kind, tokens[2].kind);
}

/// The end-to-end check on the position arithmetic: every span recovers the
/// text it was lexed from.
#[test]
fn spans_slice_back_to_their_source() {
    let text = "fn take(r: &'a mut u32) -> u32 { 1_000 }";
    let mut interner = Interner::new();
    let (tokens, found) = lex(text, &mut interner);
    assert!(found.is_empty(), "unexpected errors: {found:?}");

    for token in &tokens {
        match token.kind {
            TokenKind::Ident(symbol) | TokenKind::Int(symbol) => {
                assert_eq!(token.span.slice(text), &*interner.get(symbol));
            }
            TokenKind::Lifetime(symbol) => {
                assert_eq!(token.span.slice(text), format!("'{}", interner.get(symbol)));
            }
            TokenKind::Eof => assert!(token.span.is_empty()),
            _ => assert!(!token.span.is_empty()),
        }
    }
}

#[test]
fn an_unknown_character_is_reported_and_skipped() {
    assert_eq!(
        errors("a # b"),
        [LexError {
            span: Span::new(BytePos(2), BytePos(3)),
            kind: LexErrorKind::UnknownCharacter,
        }],
    );
    // Lexing continues, because the parser needs the remaining tokens.
    assert_eq!(
        render("a # b"),
        ["Ident(a) 0..1", "Ident(b) 4..5", "Eof 5..5"],
    );
}

#[test]
fn an_unterminated_block_comment_is_reported() {
    assert_eq!(
        errors("x /* oops"),
        [LexError {
            span: Span::new(BytePos(2), BytePos(9)),
            kind: LexErrorKind::UnterminatedBlockComment,
        }],
    );
}

#[test]
fn empty_input_yields_only_eof() {
    assert_eq!(render(""), ["Eof 0..0"]);
}

#[test]
fn every_compound_operator_is_glued() {
    for (text, kind) in [
        ("==", "EqEq"),
        ("!=", "Ne"),
        ("<=", "Le"),
        (">=", "Ge"),
        ("&&", "AndAnd"),
        ("->", "RArrow"),
    ] {
        assert_eq!(render(text), [format!("{kind} 0..2"), "Eof 2..2".to_string()]);
    }
    // Two characters that mean nothing together stay apart.
    assert_eq!(render("=!"), ["Eq 0..1", "Bang 1..2", "Eof 2..2"]);
    assert_eq!(render("<>"), ["Lt 0..1", "Gt 1..2", "Eof 2..2"]);
    assert_eq!(render("==="), ["EqEq 0..2", "Eq 2..3", "Eof 3..3"]);
    assert_eq!(render("!=="), ["Ne 0..2", "Eq 2..3", "Eof 3..3"]);
}

#[test]
fn gluing_does_not_cross_a_comment() {
    assert_eq!(render("=/**/="), ["Eq 0..1", "Eq 5..6", "Eof 6..6"]);
}

#[test]
fn every_single_character_has_its_token() {
    for (text, kind) in [
        ("(", "OpenParen"),
        (")", "CloseParen"),
        ("{", "OpenBrace"),
        ("}", "CloseBrace"),
        (",", "Comma"),
        (":", "Colon"),
        (";", "Semi"),
        (".", "Dot"),
        ("=", "Eq"),
        ("!", "Bang"),
        ("<", "Lt"),
        (">", "Gt"),
        ("+", "Plus"),
        ("-", "Minus"),
        ("*", "Star"),
        ("/", "Slash"),
        ("%", "Percent"),
        ("&", "And"),
    ] {
        assert_eq!(render(text), [format!("{kind} 0..1"), "Eof 1..1".to_string()]);
    }
}

/// Lexing again changes nothing, whatever was interned in between.
#[test]
fn relexing_gives_the_same_tokens() {
    let text = "fn f(x: &'a u32) -> u32 { x + 1_000 } # /*";
    let mut interner = Interner::new();
    let first = lex(text, &mut interner);
    interner.intern("something_else");
    let count_probe = interner.intern("probe");
    let second = lex(text, &mut interner);
    assert_eq!(first, second);
    // Nothing new was interned, so the next name is the next symbol.
    assert_eq!(interner.intern("probe"), count_probe);
    assert_eq!(first.1.len(), 2);
}

#[test]
fn tokens_are_in_order_and_do_not_overlap() {
    let text = "a==b /* c */ && 'x .. { } 12 \u{3042}(#)";
    let mut interner = Interner::new();
    let (tokens, _) = lex(text, &mut interner);
    for pair in tokens.windows(2) {
        assert!(pair[0].span.hi() <= pair[1].span.lo());
        assert_ne!(pair[0].kind, TokenKind::Eof);
        assert!(!pair[0].span.is_empty());
    }
    let last = tokens[tokens.len() - 1];
    assert_eq!(last.kind, TokenKind::Eof);
    assert_eq!(last.span.lo(), BytePos(text.len() as u32));
}

#[test]
fn a_name_is_a_keyword_only_if_it_is_spelt_like_one() {
    let mut interner = Interner::new();
    let (tokens, _) = lex("let lets Let le t mut", &mut interner);
    let keywords: Vec<bool> = tokens
        .iter()
        .filter_map(|token| match token.kind {
            TokenKind::Ident(symbol) => Some(symbol.is_keyword()),
            _ => None,
        })
        .collect();
    assert_eq!(keywords, [true, false, false, false, false, true]);
}

/// What is neither trivia nor a token is reported.
#[test]
fn nothing_is_dropped_in_silence() {
    assert_eq!(
        errors("#a$'/*"),
        [
            LexError {
                span: Span::new(BytePos(0), BytePos(1)),
                kind: LexErrorKind::UnknownCharacter,
            },
            LexError {
                span: Span::new(BytePos(2), BytePos(3)),
                kind: LexErrorKind::UnknownCharacter,
            },
            LexError {
                span: Span::new(BytePos(3), BytePos(4)),
                kind: LexErrorKind::UnknownCharacter,
            },
            LexError {
                span: Span::new(BytePos(4), BytePos(6)),
                kind: LexErrorKind::UnterminatedBlockComment,
            },
        ],
    );
    assert_eq!(render("#a$'/*"), ["Ident(a) 1..2", "Eof 6..6"]);
    assert!(errors("/* fine */ // fine\n").is_empty());
}

#[test]
fn a_lexing_result_compares_by_its_contents() {
    let mut interner = Interner::new();
    let (tokens, errors) = lex("a #", &mut interner);
    let lexed = Lexed { tokens, errors };
    assert_eq!(lexed.clone(), lexed);
    let (tokens, errors) = lex("a", &mut interner);
    assert_ne!(Lexed { tokens, errors }, lexed);
}

/// Errors come in the order of the text, never overlap a token, and a comment
/// left open is the last.
#[test]
fn errors_are_in_order_and_apart_from_tokens() {
    for text in ["# a $ b ' /* c", "a#==$$b @ /* /* */", "@@", "/*#"] {
        let mut interner = Interner::new();
        let (tokens, errors) = lex(text, &mut interner);
        for pair in errors.windows(2) {
            assert!(pair[0].span.hi() <= pair[1].span.lo());
            assert_eq!(pair[0].kind, LexErrorKind::UnknownCharacter);
        }
        for error in &errors {
            for token in &tokens {
                assert!(
                    token.span.hi() <= error.span.lo() || error.span.hi() <= token.span.lo(),
                    "{text:?}",
                );
            }
        }
    }
}
