pub mod document_parser;
pub mod query_parser;
