//! Planning and policy core of a parallel ZIP archive builder.
//!
//! The crate decides *what* goes into an archive and in which order: entry
//! names, the sorted entry plan with its synthesized directories, the
//! per-entry options, the merge of existing archives under prefixes, and the
//! crawl bookkeeping. Reading files and writing archive bytes is left to the
//! caller, which feeds plain values in and executes the returned plans.

pub mod crawl;
pub mod destination;
pub mod merge;
pub mod name;
pub mod options;
pub mod order;
pub mod plan;
pub mod plan_laws;
pub mod text;
pub mod zip;
