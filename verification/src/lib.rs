//! A lexical analyzer for a small expression language.
//!
//! The lexer walks a source buffer of decoded characters and produces a
//! flat sequence of classified tokens, tracking the line number and the
//! absolute character offset of every token it emits.

pub mod laws;
pub mod lexer;
pub mod model;
pub mod token;
