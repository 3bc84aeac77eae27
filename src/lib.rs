//! Hierarchical application topology: a node arena with materialized paths,
//! a JSON-shaped document parser, a breadth-first depth indexer and the
//! per-level fan-out that drives a radial layout.
use vstd::prelude::*;

pub mod json;
pub mod node;
pub mod tree;
pub mod component;

verus! {

} // verus!
