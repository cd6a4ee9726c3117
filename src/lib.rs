//! A tokenizer, a compiler and a bytecode machine for the eight-symbol tape language.

pub mod compiler;
pub mod error;
pub mod input;
pub mod lexer;
pub mod vm;
