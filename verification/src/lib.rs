//! An in-memory full-text search core: a document store, a whitespace
//! tokenizer, an inverted word index, and TF-IDF query evaluation.
//!
//! The store and the index are built once and then queried repeatedly.
//! Query evaluation reports, for every candidate document, the exact
//! integer ingredients of its TF-IDF score: one `(tf, df)` pair per
//! matching query term, from which a caller derives the real-valued
//! score `sum of tf * log10(n / df)` over a store of `n` documents.

pub mod file_entry;
pub mod file_logic;
pub mod searching_engine;
pub mod text;
