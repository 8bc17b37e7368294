//! Shortest dependency paths in a directed import graph.
//!
//! The library answers one question: is there an import chain from any
//! module in one set to any module in another, and if so, what is the
//! shortest one, honouring caller-supplied exclusion filters? The search is
//! a bidirectional breadth-first search — one frontier grows from the
//! source set along forward edges, one from the target set along reverse
//! edges, a full layer at a time — and the first node seen by both sides
//! yields the answer.

pub mod graph;
pub mod paths;
pub mod search;
pub mod sets;

pub use crate::search::find_shortest_path_bidirectional;

use vstd::prelude::*;

verus! {

/// A graph vertex identifier: an opaque, cheaply copyable value with
/// O(1) equality and hashing. It carries no meaning beyond identity.
pub type ModuleToken = u64;

/// The single error this library raises: the caller handed source and
/// target sets that overlap, which the search rejects before any
/// traversal work.
#[derive(Clone, Copy, Debug, PartialEq, Eq, Structural)]
pub enum SearchError {
    SharedEndpoints,
}

} // verus!
