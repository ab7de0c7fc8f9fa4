use vstd::prelude::*;

verus! {

/// A bare directed edge of the cycle-elimination graph.
#[derive(Debug, PartialEq, Eq, Structural, Clone, Copy)]
pub struct Edge {
    pub from: usize,
    pub to: usize,
}

impl Edge {
    /// Creates an edge.
    pub fn new(from: usize, to: usize) -> (edge: Edge)
        ensures
            edge.from == from,
            edge.to == to,
    {
        Edge { from, to }
    }
}

} // verus!
