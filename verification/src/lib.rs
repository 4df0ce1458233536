//! Snapshot a directory tree and diff exactly what changed.
//!
//! The library holds the pure, verified core: the manifest model with its
//! deterministic digest, the diff engine with rename detection, label and ref
//! rules of the snapshot store, and the output decisions of the command line.

pub mod error;
pub mod order;
pub mod text;
pub mod hash;
pub mod manifest;
pub mod diff;
pub mod output;
pub mod store;
pub mod refs;
pub mod walk;
pub mod builder;
pub mod cli;
