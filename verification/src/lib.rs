//! Markov blankets, d-separation and agent boundaries on directed graphical models.
//!
//! The verified core works on the structure of a directed graph: which node has which
//! parents and children, the Markov blanket of a node or of a set of nodes, d-separation
//! by a Bayes-ball search, agent boundaries, reachability and path enumeration.
//! Edge weights and probability distributions are real numbers and are handled by the
//! surrounding application; the library hands it the paths and keyed entries it needs.

use vstd::prelude::*;

pub mod sorted;
pub mod graph;
pub mod inference;
pub mod permeability;
pub mod blanket;
pub mod boundary;
pub mod conditional_independence;

pub use graph::{Edge, Graph};

verus! {

/// A node identifier in a graphical model.
pub type NodeId = usize;

} // verus!
