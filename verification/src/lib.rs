//! A path-query language over KDL-style documents.
//!
//! A query such as `article/**/section/paragraph{0..2}` is tokenized,
//! parsed into a list of selectors, and then resolved against a document
//! tree, producing the matching nodes in document order.

pub mod chars;
pub mod display;
pub mod document;
pub mod entries;
pub mod error;
pub mod laws;
pub mod lexer;
pub mod matcher;
pub mod parser;
pub mod resolver;
pub mod strings;
pub mod value;
