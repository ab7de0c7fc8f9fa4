use vstd::prelude::*;

verus! {

/// A directed edge between two node ids, with an optional label and an
/// optional pool/lane context. The routed waypoints stay empty until edge
/// routing runs; nothing else ever writes them.
#[derive(Debug, Clone)]
pub struct Edge {
    pub from: usize,
    pub to: usize,
    pub text: Option<String>,
    /// The final routed points, covering the start, bend and end points.
    pub adjusted_points: Option<Vec<(usize, usize)>>,
    /// Pool context
    pub pool: Option<String>,
    /// Lane context
    pub lane: Option<String>,
}

impl Edge {
    /// Creates an edge with no routed points.
    pub fn new(
        from: usize,
        to: usize,
        text: Option<String>,
        pool: Option<String>,
        lane: Option<String>,
    ) -> (edge: Edge)
        ensures
            edge.from == from,
            edge.to == to,
            edge.text == text,
            edge.pool == pool,
            edge.lane == lane,
            edge.adjusted_points is None,
    {
        Edge { from, to, text, adjusted_points: None, pool, lane }
    }
}

} // verus!
