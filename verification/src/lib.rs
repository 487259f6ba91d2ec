//! Core of a retrieval-augmented generation pipeline: whitespace chunking of
//! extracted document text, deterministic chunk identifiers, an idempotently
//! provisioned vector collection store, top-k similarity retrieval, and
//! augmented-prompt assembly. Network providers (embedding, completion, the
//! remote vector service) stay outside this crate; the library works on the
//! plain values they exchange.

pub mod chunker;
pub mod docs;
pub mod index;
pub mod pipeline;
pub mod prompt;
