//! Knowledge-base retrieval engine: parses documents, splits them into
//! overlapping word windows, stores per-bucket chunk records with their
//! embedding vectors, and answers similarity queries.

pub mod chatlog;
pub mod chunk;
pub mod ingest;
pub mod parse;
pub mod registry;
pub mod search;
pub mod store;
pub mod text;
pub mod vector;
