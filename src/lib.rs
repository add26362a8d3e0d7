//! The equivalence-class core of an e-graph: a union-find over class ids,
//! enodes and eclasses, a small container that hashconses nodes, and a
//! generational collector that keeps only what the newest generation reaches.
use vstd::prelude::*;

pub mod eclass;
pub mod egraph;
pub mod filter;
pub mod language;
pub mod unionfind;

verus! {

/// An identifier of an equivalence-class slot.
pub type Id = usize;

} // verus!
