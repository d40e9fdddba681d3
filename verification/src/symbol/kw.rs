//! The keywords of the language.
//!
//! The numbers must match the order of [`super::keywords`], which
//! [`super::lemma_keywords_match_their_spellings`] checks exhaustively.
#![allow(non_snake_case)]
use super::Symbol;
use vstd::prelude::*;

verus! {

/// The symbol of `fn`.
#[verifier::allow_in_spec]
pub fn FN() -> Symbol
    returns
        Symbol::nth(0),
{
    Symbol(0)
}

/// The symbol of `let`.
#[verifier::allow_in_spec]
pub fn LET() -> Symbol
    returns
        Symbol::nth(1),
{
    Symbol(1)
}

/// The symbol of `mut`.
#[verifier::allow_in_spec]
pub fn MUT() -> Symbol
    returns
        Symbol::nth(2),
{
    Symbol(2)
}

/// The symbol of `if`.
#[verifier::allow_in_spec]
pub fn IF() -> Symbol
    returns
        Symbol::nth(3),
{
    Symbol(3)
}

/// The symbol of `else`.
#[verifier::allow_in_spec]
pub fn ELSE() -> Symbol
    returns
        Symbol::nth(4),
{
    Symbol(4)
}

/// The symbol of `while`.
#[verifier::allow_in_spec]
pub fn WHILE() -> Symbol
    returns
        Symbol::nth(5),
{
    Symbol(5)
}

/// The symbol of `return`.
#[verifier::allow_in_spec]
pub fn RETURN() -> Symbol
    returns
        Symbol::nth(6),
{
    Symbol(6)
}

/// The symbol of `struct`.
#[verifier::allow_in_spec]
pub fn STRUCT() -> Symbol
    returns
        Symbol::nth(7),
{
    Symbol(7)
}

/// The symbol of `true`.
#[verifier::allow_in_spec]
pub fn TRUE() -> Symbol
    returns
        Symbol::nth(8),
{
    Symbol(8)
}

/// The symbol of `false`.
#[verifier::allow_in_spec]
pub fn FALSE() -> Symbol
    returns
        Symbol::nth(9),
{
    Symbol(9)
}

} // verus!
