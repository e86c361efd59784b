//! A compiler from a small imperative language to Brainfuck.
//!
//! The pipeline has three stages: the lexer turns source text into a token
//! sequence, the parser turns tokens into an abstract syntax tree, and the
//! code generator lowers the tree into a Brainfuck instruction stream while
//! tracking a compile-time model of the Brainfuck tape.

pub mod ast;
pub mod error;
pub mod lexer;
pub mod parser;
pub mod bf;
pub mod codegen;
