//! A lexer for a minimal C-like language.
//!
//! The crate turns a raw source buffer of bytes into an ordered stream of
//! classified tokens: the keywords `int` and `return`, identifiers, decimal
//! integer literals, the punctuators `(`, `)`, `{`, `}`, and `;`. Scanning
//! follows the maximal-munch discipline: at every position the longest run
//! matching a lexical class is consumed before the result is classified, so
//! an identifier that merely begins with a keyword spelling is never split.
//! Bytes that match no rule are skipped one at a time and reported as
//! diagnostics; lexing never fails.

pub mod laws;
pub mod scan;
pub mod tokens;
