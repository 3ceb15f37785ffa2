//! A lexer, a parser and a tree-walking interpreter for While, a minimal
//! imperative language of integers, booleans, assignment, sequencing,
//! conditionals and loops.
//!
//! Every stage is specified by a mathematical model and verified against it:
//! the lexer against a function from characters to lexemes, the parser
//! against a grammar over token sequences, and the interpreter against a
//! fuel-indexed evaluation function. What holds of the stages together,
//! from the text of a source to the state it leaves behind, is proved in
//! [`pipeline`].
pub mod ast;
pub mod text;
pub mod interpreter;
pub mod lexer;
pub mod parser;
pub mod source_navigator;
pub mod utils;
pub mod pipeline;
