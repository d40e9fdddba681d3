//! The raw lexer.
use tinyrustc::lexer::{tokenize, Cursor, RawToken, RawTokenKind};

fn kinds(input: &str) -> Vec<RawTokenKind> {
    tokenize(input).into_iter().map(|token| token.kind).collect()
}

/// The invariant everything above this layer relies on: tokens tile the
/// input exactly, so lengths can be accumulated into byte offsets.
fn assert_tiles(input: &str) {
    let total: u32 = tokenize(input).into_iter().map(|token| token.len).sum();
    assert_eq!(total as usize, input.len(), "tokens must tile {input:?}");
}

#[test]
fn empty_input_yields_nothing() {
    assert_eq!(kinds(""), vec![]);
}

#[test]
fn tokens_tile_their_input() {
    assert_tiles("");
    assert_tiles("   ");
    assert_tiles("fn main() { let x: u32 = 1; }");
    assert_tiles("// trailing comment");
    assert_tiles("/* unterminated");
    assert_tiles("let r: &'a mut u32 = &mut y;");
    assert_tiles("\u{3042}\u{3044} = 1;");
    assert_tiles("1_000 % 7");
}

/// Keyword recognition belongs to the layer above, so `fn` and `let` must
/// arrive here as ordinary identifiers.
#[test]
fn keywords_lex_as_identifiers() {
    assert_eq!(kinds("fn"), vec![RawTokenKind::Ident]);
    assert_eq!(kinds("let"), vec![RawTokenKind::Ident]);
    assert_eq!(kinds("struct"), vec![RawTokenKind::Ident]);
}

/// Gluing is the parser's job, so compound operators arrive unassembled.
#[test]
fn compound_operators_are_not_glued() {
    assert_eq!(kinds("=="), vec![RawTokenKind::Eq, RawTokenKind::Eq]);
    assert_eq!(kinds("->"), vec![RawTokenKind::Minus, RawTokenKind::Gt]);
    assert_eq!(kinds("&&"), vec![RawTokenKind::And, RawTokenKind::And]);
}

#[test]
fn identifiers_may_contain_digits_and_underscores() {
    assert_eq!(kinds("_x1"), vec![RawTokenKind::Ident]);
    assert_eq!(kinds("__"), vec![RawTokenKind::Ident]);
}

#[test]
fn integers_admit_separators() {
    assert_eq!(kinds("1_000"), vec![RawTokenKind::Int]);
}

/// An identifier may not start with a digit, so this is two tokens rather
/// than one error. Rejecting it is the parser's decision.
#[test]
fn digit_then_letters_is_two_tokens() {
    assert_eq!(kinds("1abc"), vec![RawTokenKind::Int, RawTokenKind::Ident]);
}

#[test]
fn slash_alone_is_division() {
    assert_eq!(kinds("a / b").first(), Some(&RawTokenKind::Ident));
    assert_eq!(kinds("/"), vec![RawTokenKind::Slash]);
}

/// The newline is whitespace, not part of the comment.
#[test]
fn line_comment_stops_before_the_newline() {
    assert_eq!(
        kinds("// hi\nx"),
        vec![
            RawTokenKind::LineComment,
            RawTokenKind::Whitespace,
            RawTokenKind::Ident,
        ],
    );
}

#[test]
fn block_comments_nest() {
    assert_eq!(
        kinds("/* /* */ */"),
        vec![RawTokenKind::BlockComment { terminated: true }],
    );
}

/// An unterminated comment still produces a token, flagged, so that the
/// tiling invariant holds and the layer above can report it in place.
#[test]
fn unterminated_block_comment_is_flagged() {
    assert_eq!(
        kinds("/* nope"),
        vec![RawTokenKind::BlockComment { terminated: false }],
    );
}

#[test]
fn lifetimes_are_lexed() {
    assert_eq!(kinds("'a"), vec![RawTokenKind::Lifetime]);
    assert_eq!(kinds("'_"), vec![RawTokenKind::Lifetime]);
}

#[test]
fn a_bare_quote_is_unknown() {
    assert_eq!(kinds("'"), vec![RawTokenKind::Unknown]);
}

#[test]
fn unrecognised_characters_are_reported_not_skipped() {
    assert_eq!(kinds("#"), vec![RawTokenKind::Unknown]);
    assert_eq!(kinds("$"), vec![RawTokenKind::Unknown]);
}

/// The Unicode property `White_Space`.
fn is_space(code: u32) -> bool {
    matches!(
        code,
        0x9..=0xd
            | 0x20
            | 0x85
            | 0xa0
            | 0x1680
            | 0x2000..=0x200a
            | 0x2028
            | 0x2029
            | 0x202f
            | 0x205f
            | 0x3000
    )
}

#[test]
fn exactly_the_space_characters_are_whitespace() {
    for code in 0..=0x10ffff {
        if let Some(c) = char::from_u32(code) {
            let space = kinds(&c.to_string()) == [RawTokenKind::Whitespace];
            assert_eq!(space, is_space(code), "U+{code:04X}");
        }
    }
}

#[test]
fn every_ascii_character_has_its_kind() {
    for code in 0..0x80u32 {
        let c = char::from_u32(code).unwrap();
        let expected = match c {
            'a'..='z' | 'A'..='Z' | '_' => RawTokenKind::Ident,
            '0'..='9' => RawTokenKind::Int,
            '(' => RawTokenKind::OpenParen,
            ')' => RawTokenKind::CloseParen,
            '{' => RawTokenKind::OpenBrace,
            '}' => RawTokenKind::CloseBrace,
            ',' => RawTokenKind::Comma,
            ':' => RawTokenKind::Colon,
            ';' => RawTokenKind::Semi,
            '.' => RawTokenKind::Dot,
            '=' => RawTokenKind::Eq,
            '!' => RawTokenKind::Bang,
            '<' => RawTokenKind::Lt,
            '>' => RawTokenKind::Gt,
            '+' => RawTokenKind::Plus,
            '-' => RawTokenKind::Minus,
            '*' => RawTokenKind::Star,
            '/' => RawTokenKind::Slash,
            '%' => RawTokenKind::Percent,
            '&' => RawTokenKind::And,
            _ if is_space(code) => RawTokenKind::Whitespace,
            _ => RawTokenKind::Unknown,
        };
        assert_eq!(kinds(&c.to_string()), [expected], "{c:?}");
    }
}

/// Letters begin a word, and letters and numbers of any script continue one.
#[test]
fn words_may_use_any_script() {
    assert_eq!(kinds("\u{e9}t\u{e9}"), [RawTokenKind::Ident]);
    assert_eq!(kinds("a\u{663}"), [RawTokenKind::Ident]);
    assert_eq!(kinds("a\u{bd}"), [RawTokenKind::Ident]);
    // A number from another script begins nothing.
    assert_eq!(kinds("\u{663}"), [RawTokenKind::Unknown]);
    assert_eq!(kinds("'\u{e9}"), [RawTokenKind::Lifetime]);
    // Neither a letter nor a number.
    assert_eq!(kinds("a\u{2192}"), [RawTokenKind::Ident, RawTokenKind::Unknown]);
}

#[test]
fn a_literal_nul_is_unknown() {
    assert_eq!(kinds("\0"), [RawTokenKind::Unknown]);
    assert_eq!(
        kinds("a\0b"),
        [RawTokenKind::Ident, RawTokenKind::Unknown, RawTokenKind::Ident],
    );
    assert_eq!(kinds("'\0"), [RawTokenKind::Unknown, RawTokenKind::Unknown]);
}

#[test]
fn lengths_are_in_bytes() {
    let lengths: Vec<u32> = tokenize("\u{3042} /* \u{e9} */1_0")
        .into_iter()
        .map(|token| token.len)
        .collect();
    assert_eq!(lengths, [3, 1, 8, 3]);
}

#[test]
fn block_comments_end_where_they_are_closed() {
    let closed = RawTokenKind::BlockComment { terminated: true };
    let open = RawTokenKind::BlockComment { terminated: false };
    assert_eq!(kinds("/**/"), [closed]);
    assert_eq!(kinds("/*/"), [open]);
    assert_eq!(kinds("/*/*/"), [open]);
    assert_eq!(kinds("/*/**/*/x"), [closed, RawTokenKind::Ident]);
    assert_eq!(kinds("/* // */x"), [closed, RawTokenKind::Ident]);
    assert_eq!(kinds("*/"), [RawTokenKind::Star, RawTokenKind::Slash]);
    assert_eq!(kinds("/* a /* b */ c"), [open]);
    assert_eq!(kinds("/*"), [open]);
}

#[test]
fn line_comments_swallow_everything_but_the_newline() {
    assert_eq!(kinds("///* x"), [RawTokenKind::LineComment]);
    assert_eq!(kinds("//"), [RawTokenKind::LineComment]);
    assert_eq!(
        kinds("//\n//"),
        [
            RawTokenKind::LineComment,
            RawTokenKind::Whitespace,
            RawTokenKind::LineComment,
        ],
    );
}

/// No two neighbouring tokens could have been one.
#[test]
fn tokens_are_as_long_as_they_can_be() {
    assert_eq!(kinds(" \t\n\u{3000}"), [RawTokenKind::Whitespace]);
    assert_eq!(kinds("a1_b2"), [RawTokenKind::Ident]);
    assert_eq!(kinds("12_34_"), [RawTokenKind::Int]);
    assert_eq!(kinds("'ab1"), [RawTokenKind::Lifetime]);
    assert_eq!(kinds("'a'b"), [RawTokenKind::Lifetime, RawTokenKind::Lifetime]);
}

/// Lexing can start again at any token boundary.
#[test]
fn cutting_off_tokens_leaves_the_rest_as_it_is() {
    let text = "let x = /* one */ 1; // done\n'a &&";
    let tokens = tokenize(text);
    let mut pos = 0;
    for i in 0..tokens.len() {
        assert_eq!(tokenize(&text[pos..]), tokens[i..]);
        pos += tokens[i].len as usize;
    }
    assert_eq!(pos, text.len());
}

#[test]
fn the_end_is_reported_for_ever() {
    let mut cursor = Cursor::new("x");
    assert_eq!(cursor.advance_token(), RawToken { kind: RawTokenKind::Ident, len: 1 });
    for _ in 0..3 {
        assert_eq!(cursor.advance_token(), RawToken { kind: RawTokenKind::Eof, len: 0 });
    }
}
