use vstd::prelude::*;

verus! {

/// A bare node of the cycle-elimination graph: an id and an optional
/// rank.
#[derive(Debug, PartialEq, Eq, Structural, Clone, Copy)]
pub struct Node {
    pub id: usize,
    pub layer: Option<i32>,
}

impl Node {
    /// Creates a node.
    pub fn new(id: usize, layer: Option<i32>) -> (node: Node)
        ensures
            node.id == id,
            node.layer == layer,
    {
        Node { id, layer }
    }
}

} // verus!
