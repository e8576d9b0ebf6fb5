//! A reverse-mode automatic-differentiation engine over scalar values.
//!
//! Nodes live in an arena ([`graph::Graph`]) and are addressed by their index.
//! Each node records its operation and its operands, which always have a
//! smaller index than the node itself, so the graph is acyclic by
//! construction. The backward pass is computed as a plan of gradient
//! accumulation steps, which the numeric layer carries out in order. The
//! plan of [`backward`] follows a depth-first walk that runs each node's rule
//! on the first path reaching it; the plan of [`topological`] runs each rule
//! only after all contributions to that node's gradient have arrived.

use vstd::prelude::*;

pub mod graph;
pub mod backward;
pub mod topological;
