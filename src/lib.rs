//! A BM25 relevance index over dense term and document identifiers.
//!
//! Scores and the floating-point configuration values are carried as IEEE-754
//! binary64 bit patterns (`u64`). The library owns the structure: validation,
//! posting lists, per-document contribution lists for a query, ranking, and a
//! versioned byte format. The arithmetic on the values is done by the caller.
pub mod codec;
pub mod error;
pub mod idf;
pub mod index;
pub mod laws;
pub mod persist;
pub mod rank;
pub mod text;

pub use error::IndexError;
pub use idf::document_frequencies;
pub use index::{config_is_valid, BM25S};
pub use persist::FORMAT_TAG;
pub use rank::score_key;
pub use text::{tokenize_corpus, tokenize_query};
