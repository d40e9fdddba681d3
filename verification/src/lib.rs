//! The front end of a small compiler, from text to expressions.
//!
//! Text becomes raw tokens in [`lexer`], which become spanned tokens carrying
//! interned names in [`token`], which become expressions in [`parser`]. The
//! query database in [`db`] keeps the results and recomputes only what a change
//! to the text makes necessary.
//!
//! What each of them computes is stated as mathematics: [`lexer::lexemes`] and
//! [`token::lexing`] for the two lexing layers, [`grammar`] for the parser, and
//! [`query`] for the database. What can be relied upon follows from that, and is
//! proved in [`token::laws`], [`grammar::laws`], [`grammar::kinds`], [`syntax`] and
//! [`query::laws`].
pub mod ast;
pub mod chars;
pub mod db;
pub mod grammar;
pub mod lexer;
pub mod parser;
pub mod plain;
pub mod query;
pub mod span;
pub mod symbol;
pub mod syntax;
pub mod text;
pub mod token;
