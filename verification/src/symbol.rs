//! Interned strings.
//!
//! Identifiers are compared constantly, so they are replaced by indices into a
//! table and compared as integers.
//!
//! Keywords occupy the lowest indices, assigned in [`Interner::new`] before any
//! identifier from a source file can be interned. Recognising a keyword is then
//! also an integer comparison.
//!
//! A [`Symbol`] deliberately implements neither `Ord` nor `Display`. Ordering
//! would be by interning order, which depends on the order files happen to be
//! read. Recovering the text needs the [`Interner`] that issued the symbol, so
//! it cannot be a method on the symbol itself.
use crate::text;
use vstd::hash_map::StringHashMap;
use vstd::prelude::*;
use vstd::string::*;

pub mod kw;

verus! {

/// How many keywords there are.
pub const KEYWORD_COUNT: u32 = 10;

/// An interned string, identified by its position in an [`Interner`].
///
/// Only an [`Interner`] can produce one, so a symbol is always valid for the
/// interner that issued it - and meaningless for any other, which would take it
/// for its own symbol of the same position.
#[derive(Copy, Clone, PartialEq, Eq, Structural, Hash, Debug)]
pub struct Symbol(u32);

/// Keyword spellings, in the order that [`kw`] numbers them.
pub open spec fn keywords() -> Seq<Seq<char>> {
    seq![
        "fn"@,
        "let"@,
        "mut"@,
        "if"@,
        "else"@,
        "while"@,
        "return"@,
        "struct"@,
        "true"@,
        "false"@,
    ]
}

/// A table of names: the keywords first, and nothing twice.
pub open spec fn valid_names(names: Seq<Seq<char>>) -> bool {
    &&& keywords().is_prefix_of(names)
    &&& names.no_duplicates()
}

/// The table `names` once `text` has been interned into it.
pub open spec fn interned(names: Seq<Seq<char>>, text: Seq<char>) -> Seq<Seq<char>> {
    if names.contains(text) {
        names
    } else {
        names.push(text)
    }
}

/// The symbol that stands for `text` once it has been interned into `names`.
pub open spec fn symbol_for(names: Seq<Seq<char>>, text: Seq<char>) -> Symbol {
    Symbol::nth(interned(names, text).index_of(text))
}

/// Interning keeps every name where it is, adds at most the one asked for, and
/// leads to that name.
pub proof fn lemma_interned_grows(names: Seq<Seq<char>>, text: Seq<char>)
    requires
        names.no_duplicates(),
    ensures
        names.is_prefix_of(interned(names, text)),
        interned(names, text).no_duplicates(),
        interned(names, text).contains(text),
        interned(names, text)[interned(names, text).index_of(text)] == text,
        0 <= interned(names, text).index_of(text) < interned(names, text).len(),
        !names.contains(text) ==> interned(names, text).index_of(text) == names.len(),
{
    let after = interned(names, text);
    if !names.contains(text) {
        assert(after[names.len() as int] == text);
        let i = after.index_of(text);
        assert(after[i] == text);
        if i < names.len() {
            assert(names[i] == text);
        }
    }
}

/// A name keeps its symbol however many others are interned after it, and
/// interning it again changes nothing.
pub proof fn lemma_symbol_stable(names: Seq<Seq<char>>, more: Seq<Seq<char>>, text: Seq<char>)
    requires
        names.is_prefix_of(more),
        more.no_duplicates(),
        names.contains(text),
    ensures
        interned(more, text) == more,
        symbol_for(more, text) == symbol_for(names, text),
{
    let i = names.index_of(text);
    assert(more[i] == names[i]);
    let j = more.index_of(text);
    assert(more[j] == text);
}

/// Interning keeps a table valid.
pub proof fn lemma_interned_valid(names: Seq<Seq<char>>, text: Seq<char>)
    requires
        valid_names(names),
    ensures
        valid_names(interned(names, text)),
{
    lemma_interned_grows(names, text);
    let after = interned(names, text);
    assert(keywords().is_prefix_of(after));
}

/// No two keywords are spelt the same.
pub proof fn lemma_keywords_distinct()
    ensures
        keywords().no_duplicates(),
{
    reveal_strlit("fn");
    reveal_strlit("let");
    reveal_strlit("mut");
    reveal_strlit("if");
    reveal_strlit("else");
    reveal_strlit("while");
    reveal_strlit("return");
    reveal_strlit("struct");
    reveal_strlit("true");
    reveal_strlit("false");
    let words = keywords();
    assert(words[0].len() == 2 && words[0][0] == 'f');
    assert(words[1].len() == 3 && words[1][0] == 'l');
    assert(words[2].len() == 3 && words[2][0] == 'm');
    assert(words[3].len() == 2 && words[3][0] == 'i');
    assert(words[4].len() == 4 && words[4][0] == 'e');
    assert(words[5].len() == 5 && words[5][0] == 'w');
    assert(words[6].len() == 6 && words[6][0] == 'r');
    assert(words[7].len() == 6 && words[7][0] == 's');
    assert(words[8].len() == 4 && words[8][0] == 't');
    assert(words[9].len() == 5 && words[9][0] == 'f');
}

/// The symbol of each keyword is that of its spelling, in every valid table.
pub proof fn lemma_keywords_match_their_spellings(names: Seq<Seq<char>>)
    requires
        valid_names(names),
    ensures
        names.len() >= KEYWORD_COUNT,
        names[kw::FN().index()] == "fn"@,
        names[kw::LET().index()] == "let"@,
        names[kw::MUT().index()] == "mut"@,
        names[kw::IF().index()] == "if"@,
        names[kw::ELSE().index()] == "else"@,
        names[kw::WHILE().index()] == "while"@,
        names[kw::RETURN().index()] == "return"@,
        names[kw::STRUCT().index()] == "struct"@,
        names[kw::TRUE().index()] == "true"@,
        names[kw::FALSE().index()] == "false"@,
{
    broadcast use Symbol::lemma_nth;

    assert forall|i: int| 0 <= i < 10 implies names[i] == #[trigger] keywords()[i] by {}
}

/// Interning the spelling of a keyword gives the symbol of the keyword.
pub proof fn lemma_interning_a_keyword(names: Seq<Seq<char>>, i: int)
    requires
        valid_names(names),
        0 <= i < KEYWORD_COUNT,
    ensures
        symbol_for(names, keywords()[i]) == Symbol::nth(i),
        interned(names, keywords()[i]) == names,
{
    assert(names[i] == keywords()[i]);
    let j = names.index_of(keywords()[i]);
    assert(names[j] == keywords()[i]);
}

/// A symbol stands for the text it was interned from, as long as positions fit
/// into a symbol.
pub proof fn lemma_symbols_round_trip(names: Seq<Seq<char>>, text: Seq<char>)
    requires
        names.no_duplicates(),
        interned(names, text).len() <= 0x1_0000_0000,
    ensures
        0 <= symbol_for(names, text).index() < interned(names, text).len(),
        interned(names, text)[symbol_for(names, text).index()] == text,
{
    broadcast use Symbol::lemma_nth;

    lemma_interned_grows(names, text);
}

/// Two texts interned one after the other get the same symbol if and only if
/// they are the same, as long as positions fit into a symbol.
pub proof fn lemma_symbols_tell_texts_apart(names: Seq<Seq<char>>, a: Seq<char>, b: Seq<char>)
    requires
        names.no_duplicates(),
        interned(interned(names, a), b).len() <= 0x1_0000_0000,
    ensures
        symbol_for(names, a) == symbol_for(interned(names, a), b) <==> a == b,
{
    let once = interned(names, a);
    let twice = interned(once, b);
    lemma_interned_grows(names, a);
    lemma_interned_grows(once, b);
    lemma_symbols_round_trip(names, a);
    lemma_symbols_round_trip(once, b);
    let i = symbol_for(names, a).index();
    assert(twice[i] == once[i]);
    if a == b {
        lemma_symbol_stable(once, once, a);
    }
}

/// Where a symbol came from cannot be told: two tables give the same symbol to
/// whatever texts stand at the same position in them. Each reads it as its own.
pub proof fn lemma_symbols_do_not_tell_tables_apart(
    names: Seq<Seq<char>>,
    text: Seq<char>,
    others: Seq<Seq<char>>,
    other: Seq<char>,
)
    requires
        names.no_duplicates(),
        others.no_duplicates(),
        interned(names, text).index_of(text) == interned(others, other).index_of(other),
        interned(names, text).len() <= 0x1_0000_0000,
        interned(others, other).len() <= 0x1_0000_0000,
    ensures
        symbol_for(names, text) == symbol_for(others, other),
        interned(names, text)[symbol_for(names, text).index()] == text,
        interned(others, other)[symbol_for(names, text).index()] == other,
{
    lemma_symbols_round_trip(names, text);
    lemma_symbols_round_trip(others, other);
}

/// The symbol of a text is a keyword if and only if the text is the spelling of
/// one, as long as positions fit into a symbol.
pub proof fn lemma_only_keywords_are_keywords(names: Seq<Seq<char>>, text: Seq<char>)
    requires
        valid_names(names),
        interned(names, text).len() <= 0x1_0000_0000,
    ensures
        symbol_for(names, text).index() < KEYWORD_COUNT <==> keywords().contains(text),
{
    lemma_interned_valid(names, text);
    lemma_symbols_round_trip(names, text);
    let all = interned(names, text);
    let i = symbol_for(names, text).index();
    if i < KEYWORD_COUNT {
        assert(all[i] == keywords()[i]);
    }
    if keywords().contains(text) {
        let j = keywords().index_of(text);
        assert(all[j] == keywords()[j]);
    }
}

impl Symbol {
    /// The symbol of the name at position `i` of the table. Positions are kept
    /// in 32 bits.
    pub closed spec fn nth(i: int) -> Symbol {
        Symbol((i % 0x1_0000_0000) as u32)
    }

    /// The position of the symbol's name in the table.
    pub closed spec fn index(self) -> int {
        self.0 as int
    }

    /// Positions and symbols determine each other, up to the width of a symbol.
    pub broadcast proof fn lemma_nth(i: int)
        ensures
            (#[trigger] Symbol::nth(i)).index() == i % 0x1_0000_0000,
    {
    }

    /// Every symbol is the symbol of its own position.
    pub broadcast proof fn lemma_index(self)
        ensures
            0 <= #[trigger] self.index() < 0x1_0000_0000,
            Symbol::nth(self.index()) == self,
    {
    }

    /// Whether this symbol is one of the language's keywords.
    ///
    /// A range check, because keywords are interned first and nothing else can
    /// land below them.
    pub fn is_keyword(self) -> (answer: bool)
        ensures
            answer <==> self.index() < KEYWORD_COUNT,
    {
        self.0 < KEYWORD_COUNT
    }
}

/// The table mapping strings to [`Symbol`]s and back.
pub struct Interner {
    /// Indexed by `Symbol`, so `strings[symbol.0]` is its text.
    strings: Vec<String>,
    lookup: StringHashMap<Symbol>,
}

impl View for Interner {
    type V = Seq<Seq<char>>;

    /// The interned names, in the order of their symbols.
    closed spec fn view(&self) -> Seq<Seq<char>> {
        Seq::new(self.strings@.len(), |i: int| self.strings@[i]@)
    }
}

impl Interner {
    /// The table holds the keywords first and nothing twice, and the index
    /// agrees with it.
    pub open spec fn wf(&self) -> bool {
        &&& valid_names(self@)
        &&& self.consistent()
    }

    /// Each name leads to its symbol, and nothing else leads anywhere.
    pub closed spec fn consistent(&self) -> bool {
        forall|text: Seq<char>|
            {
                &&& #[trigger] self.lookup@.contains_key(text) <==> self@.contains(text)
                &&& self@.contains(text) ==> self.lookup@[text] == symbol_for(self@, text)
            }
    }

    /// Builds an interner with the keywords already assigned.
    pub fn new() -> (interner: Interner)
        ensures
            interner.wf(),
            interner@ == keywords(),
    {
        let spellings: Vec<&'static str> = vec![
            "fn", "let", "mut", "if", "else", "while", "return", "struct", "true", "false",
        ];
        proof {
            lemma_keywords_distinct();
        }
        let mut interner = Interner { strings: Vec::new(), lookup: StringHashMap::new() };
        assert(interner@ =~= keywords().take(0));
        for i in 0..spellings.len()
            invariant
                spellings@.len() == keywords().len(),
                forall|j: int| 0 <= j < spellings@.len() ==> spellings@[j]@ == keywords()[j],
                keywords().no_duplicates(),
                interner.consistent(),
                interner@ == keywords().take(i as int),
        {
            let ghost before = interner@;
            interner.intern_unchecked(spellings[i]);
            proof {
                assert(keywords().take(i as int + 1) =~= before.push(keywords()[i as int]));
                assert(!before.contains(keywords()[i as int]));
            }
        }
        assert(keywords().take(10) =~= keywords());
        interner
    }

    /// Returns the symbol for `name`, assigning a fresh one if it is new.
    pub fn intern(&mut self, name: &str) -> (symbol: Symbol)
        requires
            old(self).wf(),
        ensures
            final(self).wf(),
            final(self)@ == interned(old(self)@, name@),
            final(self)@ == if old(self)@.contains(name@) {
                old(self)@
            } else {
                old(self)@.push(name@)
            },
            symbol == symbol_for(old(self)@, name@),
            0 <= symbol.index() < final(self)@.len(),
            final(self)@.len() <= 0x1_0000_0000 ==> final(self)@[symbol.index()] == name@,
    {
        proof {
            broadcast use Symbol::lemma_nth;

            lemma_interned_valid(self@, name@);
            lemma_interned_grows(self@, name@);
        }
        self.intern_unchecked(name)
    }

    /// Interns `name` into a table that may not hold all keywords yet.
    fn intern_unchecked(&mut self, name: &str) -> (symbol: Symbol)
        requires
            old(self)@.no_duplicates(),
            old(self).consistent(),
        ensures
            final(self).consistent(),
            final(self)@ == interned(old(self)@, name@),
            symbol == symbol_for(old(self)@, name@),
    {
        if let Some(symbol) = self.lookup.get(name) {
            return *symbol;
        }
        let ghost names = self@;
        let position: usize = self.strings.len();
        let symbol = Symbol(text::low_bits(position));
        self.strings.push(name.to_string());
        self.lookup.insert(name.to_string(), symbol);
        proof {
            assert(self@ =~= names.push(name@));
            lemma_interned_grows(names, name@);
            assert forall|text: Seq<char>|
                {
                    &&& #[trigger] self.lookup@.contains_key(text) <==> self@.contains(text)
                    &&& self@.contains(text) ==> self.lookup@[text] == symbol_for(self@, text)
                } by {
                if names.contains(text) {
                    lemma_symbol_stable(names, self@, text);
                }
                if self@.contains(text) && text != name@ {
                    let j = self@.index_of(text);
                    assert(names[j] == text);
                }
            }
        }
        symbol
    }

    /// The text `symbol` stands for.
    ///
    /// What is asked is that the symbol's position is in the table, which holds of
    /// every symbol that this interner has issued. A symbol is its position and
    /// nothing else, so that symbols of two interners with the same position are
    /// the same value, and where one came from cannot be told; see
    /// [`lemma_symbols_do_not_tell_tables_apart`]. A symbol of another interner
    /// whose position happens to be in the table gives the text that this table
    /// has there. Only the keywords mean the same everywhere.
    pub fn get(&self, symbol: Symbol) -> (text: &str)
        requires
            symbol.index() < self@.len(),
        ensures
            text@ == self@[symbol.index()],
    {
        self.strings[symbol.0 as usize].as_str()
    }
}

impl Default for Interner {
    fn default() -> (interner: Interner)
        ensures
            interner.wf(),
            interner@ == keywords(),
    {
        Interner::new()
    }
}

} // verus!
