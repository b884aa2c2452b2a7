//! Tokenizer for a single line of comma-separated values.
//!
//! A line is split into fields at every separator that stands outside a
//! quoted region. Quoted fields keep their content verbatim, unquoted fields
//! are trimmed of surrounding whitespace, and an opening quote without a
//! matching closing quote is reported as an error.
pub mod laws;
pub mod text;
pub mod tokenizer;

pub use tokenizer::{parse_line, parse_line_sep, ParseError};
