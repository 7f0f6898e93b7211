//! A minimal ahead-of-time translator for a whitespace-delimited stack
//! language: source text is lowered into a flat instruction sequence, and
//! the sequence is turned into assembly text for an x86-64 stack machine.

pub mod codegen;
pub mod ops;
pub mod tokenizer;
