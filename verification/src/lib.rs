//! Lexical scanner for a small C subset.
//!
//! The scanner turns source text into a sequence of classified tokens
//! (keywords, identifiers, numeric constants, punctuation), skipping
//! whitespace and comments, or reports the first lexical error it meets.

pub mod laws;
pub mod render;
pub mod scan;
pub mod token;
