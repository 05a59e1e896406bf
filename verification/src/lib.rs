//! Lexical scanner for a small dynamically-typed scripting language.
//!
//! The scanner turns raw source text into a flat sequence of typed tokens,
//! terminated by a single end-of-input sentinel. Its behaviour is specified
//! by a recursive mathematical model of the scan (`model::scan_rest`), and
//! the executable scanner is proved to produce exactly what the model says,
//! for every input string.

pub mod diagnostic;
pub mod model;
pub mod props;
pub mod scanner;
pub mod token;

pub use token::Token;
