//! Interned strings.
use tinyrustc::symbol::{kw, Interner, Symbol};

/// Keyword spellings, in the order of their symbols.
const KEYWORDS: [&str; 10] = [
    "fn", "let", "mut", "if", "else", "while", "return", "struct", "true", "false",
];

/// The symbols of the keywords, in the order `KEYWORDS` spells them.
fn keyword_symbols() -> [Symbol; 10] {
    [
        kw::FN(),
        kw::LET(),
        kw::MUT(),
        kw::IF(),
        kw::ELSE(),
        kw::WHILE(),
        kw::RETURN(),
        kw::STRUCT(),
        kw::TRUE(),
        kw::FALSE(),
    ]
}

/// A symbol naming the wrong index would be noticed nowhere else.
#[test]
fn keyword_constants_match_their_spellings() {
    let interner = Interner::new();
    for (symbol, spelling) in keyword_symbols().into_iter().zip(KEYWORDS) {
        assert_eq!(interner.get(symbol), spelling);
    }
}

#[test]
fn interning_the_same_text_twice_yields_the_same_symbol() {
    let mut interner = Interner::new();
    let first = interner.intern("main");
    let second = interner.intern("main");
    assert_eq!(first, second);
}

#[test]
fn distinct_texts_yield_distinct_symbols() {
    let mut interner = Interner::new();
    assert_ne!(interner.intern("main"), interner.intern("other"));
}

#[test]
fn interning_a_keyword_returns_its_constant() {
    let mut interner = Interner::new();
    assert_eq!(interner.intern("fn"), kw::FN());
    assert_eq!(interner.intern("false"), kw::FALSE());
}

#[test]
fn only_keywords_are_keywords() {
    let mut interner = Interner::new();
    for symbol in keyword_symbols() {
        assert!(symbol.is_keyword());
    }
    assert!(!interner.intern("main").is_keyword());
    // A word that merely contains a keyword is not one.
    assert!(!interner.intern("iffy").is_keyword());
    assert!(!interner.intern("Fn").is_keyword());
}

#[test]
fn symbols_round_trip_through_the_interner() {
    let mut interner = Interner::new();
    let symbol = interner.intern("\u{3042}\u{3044}");
    assert_eq!(interner.get(symbol), "\u{3042}\u{3044}");
}

/// Whatever is interned later, a symbol keeps its text.
#[test]
fn symbols_are_stable() {
    let mut interner = Interner::default();
    let first = interner.intern("first");
    for i in 0..100 {
        interner.intern(&format!("name{i}"));
    }
    assert_eq!(interner.get(first), "first");
    assert_eq!(interner.intern("first"), first);
    let later = interner.intern("name42");
    assert_eq!(interner.get(later), "name42");
}

#[test]
fn every_keyword_interns_to_its_symbol() {
    let mut interner = Interner::new();
    for (symbol, spelling) in keyword_symbols().into_iter().zip(KEYWORDS) {
        assert_eq!(interner.intern(spelling), symbol);
    }
    assert!(!interner.intern("").is_keyword());
    assert_eq!(interner.intern(""), interner.intern(""));
}

/// A symbol is a position: another table has its own text there.
#[test]
fn a_symbol_means_its_position() {
    let mut a = Interner::new();
    let mut b = Interner::new();
    let s = a.intern("x");
    let t = b.intern("y");
    assert_eq!(s, t);
    assert_eq!(a.get(s), "x");
    assert_eq!(b.get(t), "y");
    // The keywords mean the same everywhere.
    assert_eq!(a.get(kw::MUT()), b.get(kw::MUT()));
}
