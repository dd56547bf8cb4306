//! QSGAL: a small staged compiler for a procedural-generation language.
//!
//! Source text goes through four phases: parsing into an [`ast::Program`],
//! semantic analysis into an IR of the same shape, emission into one of the
//! output encodings (manifest JSON, OBJ-style mesh text), and CLI dispatch.
//! Numeric operands are exact multiples of 0.001 and are carried in
//! thousandths throughout.

pub mod analyzer;
pub mod ast;
pub mod cli;
pub mod emit;
pub mod fmt;
pub mod json;
pub mod parser;
pub mod spiral;
pub mod text;
