use vstd::prelude::*;
use crate::layout::graph::{Graph, spec_contains_edge};

verus! {

/// Removes the graph's back edges so the edge set becomes usable for
/// rank assignment: each edge that closes a cycle on a depth-first walk
/// is reversed, or dropped when its reversal already exists. Every
/// connection is kept in at least one direction and none appears from
/// nowhere.
pub fn eliminate_back_edges(graph: &mut Graph)
    requires
        old(graph).nodes@.len() <= 100000,
        old(graph).edges@.len() <= 100000,
    ensures
        final(graph).nodes == old(graph).nodes,
        forall|k: int|
            0 <= k < final(graph).edges@.len() ==> spec_contains_edge(
                old(graph).edges@,
                (#[trigger] final(graph).edges@[k]).from,
                final(graph).edges@[k].to,
            ) || spec_contains_edge(
                old(graph).edges@,
                final(graph).edges@[k].to,
                final(graph).edges@[k].from,
            ),
        forall|k: int|
            0 <= k < old(graph).edges@.len() ==> spec_contains_edge(
                final(graph).edges@,
                (#[trigger] old(graph).edges@[k]).from,
                old(graph).edges@[k].to,
            ) || spec_contains_edge(
                final(graph).edges@,
                old(graph).edges@[k].to,
                old(graph).edges@[k].from,
            ),
{
    graph.eliminate_back_edges();
}

} // verus!
