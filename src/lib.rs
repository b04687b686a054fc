//! A single-pass bytecode compiler and stack machine for a small expression
//! language: a scanner, a Pratt compiler that writes into a chunk of bytecode
//! with a run-length line table, and a virtual machine that evaluates it.

pub mod chunk;
pub mod compiler;
pub mod error;
pub mod line_encoding;
pub mod scanner;
pub mod token_type;
pub mod value;
pub mod vm;
