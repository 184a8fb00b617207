//! An Earley parser for arbitrary context-free grammars.
//!
//! Given a [`grammar::Grammar`] and a sequence of [`lex::Lexeme`]s,
//! [`parser::parse`] returns the parse trees of the input, so that an
//! ambiguous input yields more than one tree. Left recursion and empty
//! productions are accepted. Where a part of a derivation derives itself,
//! an input has parse trees without number; of those, the trees that pass
//! through the same rule over the same lexemes twice on a way down from
//! the root are left out.
//!
//! Every function of the crate carries a contract that is checked by Verus.
//! What the parser returns is pinned down by a mathematical model: the
//! chart of the recognizer in [`parser::chart`], the forest that is read
//! off the chart in [`parser::forest`], and the outcome of parsing in
//! [`parser::error`]. What a parse tree is, apart from any algorithm, is
//! said in [`parser::derivation`]; and [`parser::theorems`] proves how
//! the two agree: parsing succeeds on the sentences of the grammar and on
//! nothing else, the trees returned are parse trees of the input, none is
//! returned twice, a success always brings a tree, and every parse tree
//! in which no part derives itself is returned; so that an input with
//! finitely many parse trees gets them all.

pub mod grammar;
pub mod lex;
pub mod parser;
