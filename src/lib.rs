//! A local semantic index over a source tree.
//!
//! Files are split into fragments ([`chunker`]), kept in an in-memory index
//! of fragments and per-file documents ([`store`]), brought up to date
//! incrementally ([`indexer`]), and ranked for a query by lexical search and
//! reciprocal rank fusion ([`hybrid`], [`ranking`]). Around that core: the
//! embedding provider's decisions ([`embedder`]), content hashes
//! ([`hashing`]), symbol parsers ([`lang`]), module detection ([`module`])
//! and the documentation pieces built on it ([`imports`], [`emit`],
//! [`skills`]).

pub mod text;
pub mod types;
pub mod hashing;
pub mod chunker;
pub mod store;
pub mod ranking;
pub mod hybrid;
pub mod indexer;
pub mod embedder;
pub mod sorting;
pub mod module;
pub mod skills;
pub mod imports;
pub mod emit;
pub mod lang;
