//! A TF-IDF document index: a tokenizer, an in-memory frequency model, a
//! query engine that selects the documents sharing a term with the query and
//! hands out the exact counts their scores are computed from, and a validated
//! snapshot form for persistence adapters.
pub mod lexer;
pub mod model;
pub mod query;
pub mod snapshot;
