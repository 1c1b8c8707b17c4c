//! A single-pass lexical scanner for a small dynamically-typed scripting
//! language. The scanner walks an ASCII source buffer once, classifying
//! bytes into tokens, tracking 1-based line numbers for diagnostics,
//! collecting non-fatal "unexpected character" reports, and failing fast
//! on an unterminated string literal.

pub mod token;
pub mod model;
pub mod scanner;
pub mod laws;
