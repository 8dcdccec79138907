//! An inverted-index builder: documents are tokenized into term postings,
//! accumulated in memory, spilled into segments when a size threshold fires,
//! and finally merged into one index.
//!
//! The crate is organised around a small set of dataflow combinators
//! (`off_thread_ext`) and the orchestration that wires them into a five-stage
//! producer/consumer pipeline (`pipeline`), over the in-memory index type
//! (`index`).

pub mod index;
pub mod off_thread_ext;
pub mod pipeline;
