//! Streaming parser for line-oriented configuration text: sections,
//! key/value properties, comments and blank lines.
//!
//! The parser borrows the whole document and hands out one element per
//! pull. Every text it returns is a contiguous byte range of the document.

pub mod ascii;
pub mod import;
pub mod item;
pub mod laws;
pub mod parse;
pub mod parser;
pub mod trim;

pub use item::Item;
pub use parser::Parser;
pub use trim::trim;
