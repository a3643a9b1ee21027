//! A small brainfuck language processor: a parser from source text to a
//! syntax tree, a code generator lowering the tree to a flat instruction
//! sequence with resolved jump targets, and a fuel-bounded executor that
//! runs the flat sequence against a byte tape.

pub mod codegen;
pub mod interp;
pub mod parser;
