//! A small search engine: variable-byte postings encoding, positional and
//! k-gram indexes, token normalization, query parsing and query merging.
pub mod classifier;
pub mod command;
pub mod index;
pub mod parser;
pub mod paths;
pub mod processor;
pub mod reader;
pub mod text;
