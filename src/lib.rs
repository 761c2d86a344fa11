//! Integration of lexical sources into study entries: identity-keyed merging,
//! priority-bounded dependency-closed selection, and example matching.

pub mod entry;
pub mod examples;
pub mod graph;
pub mod outside;
pub mod priority;
pub mod reading;
pub mod selection;
pub mod sources;
pub mod store;
pub mod utils;
