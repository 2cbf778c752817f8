//! Typed syntax tree for a small Yul subset, its canonical printer, a
//! builder from rule-tagged parse trees, and a grammar for the canonical text.
pub mod ast;
pub mod tree;
pub mod builder;
pub mod laws;
pub mod grammar;
pub mod parser;
