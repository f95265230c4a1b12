//! A lexer for a lightweight markdown-like note format.
//!
//! The library turns a raw text buffer into an ordered sequence of tokens:
//! plain text runs, newline markers (distinguishing the Unix, Windows and
//! classic Mac line-ending conventions), headings, and block comments.
//! The tokenizer is a pure, single-pass function over the input and is
//! verified against a mathematical model of the scan.

pub mod parse;
pub mod laws;
pub mod prompt;
