//! A lexer generator: named regular-expression patterns are compiled into a
//! nondeterministic automaton, made deterministic by subset construction,
//! minimised by table filling, and emitted as the source of a table-driven,
//! maximal-munch scanner.
pub mod ast;
pub mod dfa;
pub mod generator;
pub mod lexer;
pub mod nfa;
pub mod parser;
pub mod scanner;
mod text;
pub mod thompson;
pub mod tokenizer;
