//! A line-oriented symbol index for source trees.
//!
//! The crate scans source files line by line, recognises declarations with a
//! lexical heuristic, stores them in an append-only table with a per-file and
//! a per-name index, and answers per-file listings and ranked workspace-wide
//! searches. The logic is verified against contracts stated over sequences
//! of characters and of records; what the standard library and the worker
//! pool decide (what a letter is, what lower case is, in which order flags
//! come back) stands behind a few small functions whose contracts are taken
//! on trust.

pub mod determinism;
pub mod path;
pub mod query;
pub mod rank;
pub mod recognize;
pub mod scan;
pub mod store;
pub mod text;
pub mod walk;
