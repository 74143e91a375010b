//! An in-memory inverted text index with live maintenance.
//!
//! Files are split into tokens, tokens are normalised, and the resulting
//! terms are stored in a persistent ordered map from term to posting list.
//! Queries return the set of files a term was found in, and may run
//! concurrently with index maintenance: every mutation installs a fresh
//! version of the map while readers keep traversing the snapshot they took.

pub mod indexer;
pub mod intern;
pub mod live_indexer;
pub mod normalise;
pub mod order;
pub mod storage;
pub mod tokenise;

pub use indexer::Indexer;
