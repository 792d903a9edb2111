//! All-shortest-paths queries over a large immutable directed graph.
//!
//! The graph is held in compressed-sparse-row form, forward and reverse,
//! together with maps between external page ids and dense internal indices.
//! A bidirectional breadth-first search finds every shortest path between
//! two pages, and a binary archive codec loads and validates the on-disk
//! representation.

pub mod archive;
pub mod graph;
pub mod paths;
pub mod query;
pub mod redirects;
pub mod search;

use vstd::prelude::*;

verus! {

/// Errors from loading a graph archive.
#[derive(Clone, Copy, PartialEq, Eq, Structural, Debug)]
pub enum ArchiveError {
    /// The archive file is missing or unreadable.
    Unavailable,
    /// The bytes do not form a structurally valid archive.
    Corrupt,
}

} // verus!
