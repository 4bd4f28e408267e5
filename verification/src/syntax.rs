//! The concrete syntax of the score language: token kinds, the scanner, the
//! event-recording parser with its markers, and the tree that the recorded
//! events build.
//!
//! `grammar` says what the parser records for each construct, and `sink`
//! which tree the recorded events describe; `parse_fn` and the sink are
//! held to that.

pub mod grammar;
pub mod lexer;
pub mod marker;
pub mod parse_fn;
pub mod parser;
pub mod scan;
pub mod sink;
pub mod tree;
pub mod types;
