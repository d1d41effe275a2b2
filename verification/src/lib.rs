//! A lexical scanner: it turns source text into a stream of classified
//! tokens, each paired with its byte offset, and records the byte offsets of
//! newline characters for later line/column diagnostics.

pub mod scanner;
pub mod text;
