//! A small expression language: a lexer, a parser that lowers source to a
//! flat stack-machine program, a versioned bytecode codec, and a runtime.

pub mod token;
pub mod bytecode;
pub mod runtime;
pub mod lexer;
pub mod parser;
pub mod pipeline;
