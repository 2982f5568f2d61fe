//! Full-text search: query planning, dates, the schema and the documents
//! of the index, tokenizers, snippets and what the ranking reads.

pub mod date;
pub mod document;
pub mod query;
pub mod ranking;
pub mod schema;
pub mod snippet;
pub mod tokenizer;
