//! Conversion of a line-oriented function-call trace into the records of a
//! Chrome trace document: a line tokenizer, an interner for function names,
//! a deduplicating tree of stack frames and the parser that drives them.

pub mod filesize;
pub mod lexer;
pub mod numbers;
pub mod interner;
pub mod frames;
pub mod parser;
