//! An in-memory hybrid search index: a BM25 inverted index over tokenized
//! text beside a dense row store for embedding vectors, kept in step by
//! document identifier.
//!
//! Everything here is integer work. A vector component and a score are
//! IEEE-754 numbers held as their bit patterns; the index stores, moves and
//! orders them and leaves the arithmetic on them to its caller.

pub mod bm25;
pub mod bm25_model;
pub mod index;
pub mod index_model;
pub mod laws;
pub mod rank;
pub mod seqs;
pub mod tables;
pub mod text;
pub mod vectors;
pub mod vectors_model;

pub use index::{IndexError, SearchIndex};
pub use rank::PairIdScore;
