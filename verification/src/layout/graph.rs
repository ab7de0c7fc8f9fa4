use vstd::prelude::*;
use vstd::std_specs::hash::group_hash_axioms;
use std::collections::HashSet;
use crate::layout::edge::Edge;
use crate::layout::node::Node;

verus! {

broadcast use group_hash_axioms;

/// The edge list holds an edge with the given endpoints.
pub open spec fn spec_contains_edge(edges: Seq<Edge>, from: usize, to: usize) -> bool {
    exists|k: int| 0 <= k < edges.len() && (#[trigger] edges[k]).from == from && edges[k].to == to
}

/// The first position of the edge (from, to), or -1 when absent.
pub open spec fn spec_first_edge_idx(edges: Seq<Edge>, from: usize, to: usize) -> int
    decreases edges.len(),
{
    if edges.len() == 0 {
        -1
    } else if edges.first().from == from && edges.first().to == to {
        0
    } else {
        let rest = spec_first_edge_idx(edges.drop_first(), from, to);
        if rest == -1 {
            -1
        } else {
            rest + 1
        }
    }
}

/// The first-position search agrees with membership and finds the first
/// occurrence.
pub proof fn lemma_first_edge_idx(edges: Seq<Edge>, from: usize, to: usize)
    ensures
        spec_first_edge_idx(edges, from, to) >= -1,
        spec_first_edge_idx(edges, from, to) == -1 <==> !spec_contains_edge(edges, from, to),
        spec_first_edge_idx(edges, from, to) >= 0 ==> {
            let i = spec_first_edge_idx(edges, from, to);
            &&& i < edges.len()
            &&& edges[i].from == from && edges[i].to == to
            &&& forall|k: int| 0 <= k < i ==> !((#[trigger] edges[k]).from == from && edges[k].to == to)
        },
    decreases edges.len(),
{
    if edges.len() == 0 {
    } else if edges.first().from == from && edges.first().to == to {
        assert(edges[0].from == from && edges[0].to == to);
        assert(spec_contains_edge(edges, from, to));
    } else {
        let tail = edges.drop_first();
        lemma_first_edge_idx(tail, from, to);
        assert forall|k: int| 1 <= k < edges.len() implies #[trigger] edges[k] == tail[k - 1] by {
        }
        let rest = spec_first_edge_idx(tail, from, to);
        if rest == -1 {
            assert forall|k: int| 0 <= k < edges.len() implies !((#[trigger] edges[k]).from == from
                && edges[k].to == to) by {
                if k > 0 {
                    if edges[k].from == from && edges[k].to == to {
                        assert(tail[k - 1].from == from && tail[k - 1].to == to);
                        assert(spec_contains_edge(tail, from, to));
                        assert(false);
                    }
                }
            }
            assert(!spec_contains_edge(edges, from, to));
        } else {
            assert(0 <= rest < tail.len());
            assert(tail[rest].from == from && tail[rest].to == to);
            assert(edges[rest + 1] == tail[rest]);
            assert(spec_contains_edge(edges, from, to));
            assert forall|k: int| 0 <= k < rest + 1 implies !((#[trigger] edges[k]).from == from
                && edges[k].to == to) by {
                if k > 0 {
                    assert(edges[k] == tail[k - 1]);
                }
            }
        }
    }
}

/// What one reversal step leaves behind: the first occurrence of the edge
/// is taken out, and the reversed edge is appended unless it is already
/// there.
pub open spec fn spec_reversed_edges(edges: Seq<Edge>, edge: Edge) -> Seq<Edge> {
    let idx = spec_first_edge_idx(edges, edge.from, edge.to);
    let mid = if idx >= 0 {
        edges.remove(idx)
    } else {
        edges
    };
    if spec_contains_edge(mid, edge.to, edge.from) {
        mid
    } else {
        mid.push(Edge { from: edge.to, to: edge.from })
    }
}

/// A bare graph of nodes and directed edges, for turning a cyclic edge
/// set into an acyclic one before rank assignment.
#[derive(Debug)]
pub struct Graph {
    /// Nodes
    pub nodes: Vec<Node>,
    /// Edges
    pub edges: Vec<Edge>,
}

impl Graph {
    /// Creates a graph from its nodes and edges.
    pub fn new(nodes: Vec<Node>, edges: Vec<Edge>) -> (graph: Graph)
        ensures
            graph.nodes == nodes,
            graph.edges == edges,
    {
        Graph { nodes, edges }
    }

    /// Adds a node to the graph.
    pub fn add_node(&mut self, node: Node)
        ensures
            final(self).nodes@ == old(self).nodes@.push(node),
            final(self).edges == old(self).edges,
    {
        self.nodes.push(node);
    }

    /// Adds an edge to the graph.
    pub fn add_edge(&mut self, edge: Edge)
        ensures
            final(self).edges@ == old(self).edges@.push(edge),
            final(self).nodes == old(self).nodes,
    {
        self.edges.push(edge);
    }

    /// Takes one back edge out and keeps the connection: the first
    /// occurrence of the edge is removed, and the reversed edge is added
    /// unless it already exists.
    pub fn reverse_or_remove_edge(&mut self, edge: Edge)
        ensures
            final(self).nodes == old(self).nodes,
            final(self).edges@ == spec_reversed_edges(old(self).edges@, edge),
    {
        proof {
            lemma_first_edge_idx(old(self).edges@, edge.from, edge.to);
            if spec_first_edge_idx(old(self).edges@, edge.from, edge.to) >= 0 {
                old(self).edges@.remove_ensures(
                    spec_first_edge_idx(old(self).edges@, edge.from, edge.to),
                );
            }
        }
        let found = find_edge_index(&self.edges, edge.from, edge.to);
        match found {
            Option::Some(index) => {
                self.edges.remove(index);
            },
            Option::None => {},
        }
        if !has_edge_exec(&self.edges, edge.to, edge.from) {
            self.edges.push(Edge { from: edge.to, to: edge.from });
        }
    }

    /// Removes the graph's back edges by a depth-first walk: an edge that
    /// closes a cycle on the walk's path is reversed, or dropped when its
    /// reversal already exists. Every connection is kept in at least one
    /// direction, and no new connection appears.
    pub fn eliminate_back_edges(&mut self)
        requires
            old(self).nodes@.len() <= 100000,
            old(self).edges@.len() <= 100000,
        ensures
            final(self).nodes == old(self).nodes,
            forall|k: int|
                0 <= k < final(self).edges@.len() ==> spec_contains_edge(
                    old(self).edges@,
                    (#[trigger] final(self).edges@[k]).from,
                    final(self).edges@[k].to,
                ) || spec_contains_edge(
                    old(self).edges@,
                    final(self).edges@[k].to,
                    final(self).edges@[k].from,
                ),
            forall|k: int|
                0 <= k < old(self).edges@.len() ==> spec_contains_edge(
                    final(self).edges@,
                    (#[trigger] old(self).edges@[k]).from,
                    old(self).edges@[k].to,
                ) || spec_contains_edge(
                    final(self).edges@,
                    old(self).edges@[k].to,
                    old(self).edges@[k].from,
                ),
    {
        let back_edges = self.collect_back_edges();
        let nb = back_edges.len();
        let ghost orig = self.edges@;
        let mut b: usize = 0;
        while b < nb
            invariant
                nb == back_edges@.len(),
                0 <= b <= nb,
                self.nodes == old(self).nodes,
                orig == old(self).edges@,
                forall|k: int|
                    0 <= k < self.edges@.len() ==> spec_contains_edge(
                        orig,
                        (#[trigger] self.edges@[k]).from,
                        self.edges@[k].to,
                    ) || spec_contains_edge(
                        orig,
                        self.edges@[k].to,
                        self.edges@[k].from,
                    ),
                forall|k: int|
                    0 <= k < back_edges@.len() ==> spec_contains_edge(
                        orig,
                        (#[trigger] back_edges@[k]).from,
                        back_edges@[k].to,
                    ),
                forall|k: int|
                    0 <= k < orig.len() ==> spec_contains_edge(
                        self.edges@,
                        (#[trigger] orig[k]).from,
                        orig[k].to,
                    ) || spec_contains_edge(self.edges@, orig[k].to, orig[k].from),
            decreases nb - b,
        {
            let e = back_edges[b];
            let ghost pre = self.edges@;
            self.reverse_or_remove_edge(Edge { from: e.from, to: e.to });
            proof {
                lemma_reverse_keeps_connections(pre, self.edges@, e, orig);
            }
            b += 1;
        }
    }

    /// Walks the graph depth-first from every unvisited node and collects
    /// the edges that point back into the walk's current path.
    fn collect_back_edges(&self) -> (back_edges: Vec<Edge>)
        requires
            self.nodes@.len() <= 100000,
            self.edges@.len() <= 100000,
        ensures
            forall|k: int|
                0 <= k < back_edges@.len() ==> spec_contains_edge(
                    self.edges@,
                    (#[trigger] back_edges@[k]).from,
                    back_edges@[k].to,
                ),
    {
        let mut back_edges: Vec<Edge> = Vec::new();
        let mut visited: HashSet<usize> = HashSet::new();
        let mut on_path: HashSet<usize> = HashSet::new();
        let nn = self.nodes.len();
        let ne = self.edges.len();
        proof {
            assert((nn as u64 + 2) * (ne as u64 + 2) <= 100002 * 100002) by (nonlinear_arith)
                requires
                    nn <= 100000,
                    ne <= 100000,
            ;
        }
        let mut fuel: u64 = (nn as u64 + 2) * (ne as u64 + 2) * 4;
        let mut root: usize = 0;
        while root < nn
            invariant
                nn == self.nodes@.len(),
                ne == self.edges@.len(),
                nn <= 100000,
                ne <= 100000,
                0 <= root <= nn,
                forall|k: int|
                    0 <= k < back_edges@.len() ==> spec_contains_edge(
                        self.edges@,
                        (#[trigger] back_edges@[k]).from,
                        back_edges@[k].to,
                    ),
            decreases nn - root,
        {
            let root_id = self.nodes[root].id;
            if !visited.contains(&root_id) {
                // frames of the walk: a node and the next edge index to
                // scan from it
                let mut frames: Vec<(usize, usize)> = Vec::new();
                visited.insert(root_id);
                on_path.insert(root_id);
                frames.push((root_id, 0));
                while frames.len() > 0 && fuel > 0
                    invariant
                        ne == self.edges@.len(),
                        ne <= 100000,
                        forall|k: int| 0 <= k < frames@.len() ==> (#[trigger] frames@[k]).1 <= ne,
                        forall|k: int|
                            0 <= k < back_edges@.len() ==> spec_contains_edge(
                                self.edges@,
                                (#[trigger] back_edges@[k]).from,
                                back_edges@[k].to,
                            ),
                    decreases fuel,
                {
                    fuel = fuel - 1;
                    let top = frames.len() - 1;
                    let frame = frames[top];
                    if frame.1 >= ne {
                        on_path.remove(&frame.0);
                        frames.pop();
                    } else {
                        let edge = self.edges[frame.1];
                        frames[top] = (frame.0, frame.1 + 1);
                        if edge.from == frame.0 {
                            if on_path.contains(&edge.to) {
                                let ghost idx = frame.1 as int;
                                back_edges.push(Edge { from: edge.from, to: edge.to });
                                proof {
                                    assert(self.edges@[idx].from == edge.from && self.edges@[idx].to
                                        == edge.to);
                                    assert(spec_contains_edge(self.edges@, edge.from, edge.to));
                                }
                            } else if !visited.contains(&edge.to) {
                                visited.insert(edge.to);
                                on_path.insert(edge.to);
                                frames.push((edge.to, 0));
                            }
                        }
                    }
                }
            }
            root += 1;
        }
        back_edges
    }
}

/// One reversal step keeps every original connection in some direction
/// and introduces none, provided the reversed edge came from the original
/// list.
proof fn lemma_reverse_keeps_connections(pre: Seq<Edge>, post: Seq<Edge>, e: Edge, orig: Seq<Edge>)
    requires
        post == spec_reversed_edges(pre, e),
        spec_contains_edge(orig, e.from, e.to),
        forall|k: int|
            0 <= k < pre.len() ==> spec_contains_edge(orig, (#[trigger] pre[k]).from, pre[k].to)
                || spec_contains_edge(orig, pre[k].to, pre[k].from),
        forall|k: int|
            0 <= k < orig.len() ==> spec_contains_edge(pre, (#[trigger] orig[k]).from, orig[k].to)
                || spec_contains_edge(pre, orig[k].to, orig[k].from),
    ensures
        forall|k: int|
            0 <= k < post.len() ==> spec_contains_edge(orig, (#[trigger] post[k]).from, post[k].to)
                || spec_contains_edge(orig, post[k].to, post[k].from),
        forall|k: int|
            0 <= k < orig.len() ==> spec_contains_edge(post, (#[trigger] orig[k]).from, orig[k].to)
                || spec_contains_edge(post, orig[k].to, orig[k].from),
{
    lemma_first_edge_idx(pre, e.from, e.to);
    let idx = spec_first_edge_idx(pre, e.from, e.to);
    if idx >= 0 {
        pre.remove_ensures(idx);
    }
    let mid = if idx >= 0 {
        pre.remove(idx)
    } else {
        pre
    };
    // everything in post stems from pre or is the reversed edge
    assert forall|k: int| 0 <= k < post.len() implies spec_contains_edge(
        orig,
        (#[trigger] post[k]).from,
        post[k].to,
    ) || spec_contains_edge(orig, post[k].to, post[k].from) by {
        if k < mid.len() {
            if idx >= 0 {
                if k < idx {
                    assert(mid[k] == pre[k]);
                } else {
                    assert(mid[k] == pre[k + 1]);
                }
            }
        } else {
            assert(post[k] == (Edge { from: e.to, to: e.from }));
        }
    }
    // every original connection survives in some direction
    assert forall|k: int| 0 <= k < orig.len() implies spec_contains_edge(
        post,
        (#[trigger] orig[k]).from,
        orig[k].to,
    ) || spec_contains_edge(post, orig[k].to, orig[k].from) by {
        let a = orig[k].from;
        let bb = orig[k].to;
        if spec_contains_edge(pre, a, bb) {
            let j = choose|j: int| 0 <= j < pre.len() && (#[trigger] pre[j]).from == a && pre[j].to == bb;
            if idx >= 0 && j == idx {
                // the removed occurrence: either another one remains, the
                // reversal was already present, or the reversal was pushed
                lemma_connection_after_removal(pre, post, mid, e, idx, a, bb);
            } else {
                if post != mid {
                    assert(post == mid.push(Edge { from: e.to, to: e.from }));
                    assert(post.last() == (Edge { from: e.to, to: e.from }));
                }
                lemma_index_survives_removal(pre, mid, post, idx, j);
            }
        } else {
            assert(spec_contains_edge(pre, bb, a));
            let j = choose|j: int| 0 <= j < pre.len() && (#[trigger] pre[j]).from == bb && pre[j].to == a;
            if idx >= 0 && j == idx {
                lemma_connection_after_removal(pre, post, mid, e, idx, bb, a);
            } else {
                if post != mid {
                    assert(post == mid.push(Edge { from: e.to, to: e.from }));
                    assert(post.last() == (Edge { from: e.to, to: e.from }));
                }
                lemma_index_survives_removal(pre, mid, post, idx, j);
            }
        }
    }
}

/// A surviving occurrence keeps its connection through the removal and
/// the optional push.
proof fn lemma_index_survives_removal(pre: Seq<Edge>, mid: Seq<Edge>, post: Seq<Edge>, idx: int, j: int)
    requires
        0 <= j < pre.len(),
        idx >= -1,
        idx == -1 ==> mid == pre,
        idx >= 0 ==> 0 <= idx < pre.len() && mid == pre.remove(idx),
        j != idx,
        post == mid || post == mid.push(Edge { from: post.last().from, to: post.last().to }),
        post.len() >= mid.len(),
    ensures
        spec_contains_edge(post, pre[j].from, pre[j].to),
{
    if idx >= 0 {
        pre.remove_ensures(idx);
    }
    let jm: int = if idx >= 0 && j > idx {
        j - 1
    } else {
        j
    };
    assert(0 <= jm < mid.len());
    assert(mid[jm] == pre[j]);
    assert(post[jm] == mid[jm]);
    assert(spec_contains_edge(post, pre[j].from, pre[j].to));
}

/// The connection of the removed occurrence itself survives: another
/// equal edge remains, or the reversed edge stands in the list.
proof fn lemma_connection_after_removal(
    pre: Seq<Edge>,
    post: Seq<Edge>,
    mid: Seq<Edge>,
    e: Edge,
    idx: int,
    a: usize,
    bb: usize,
)
    requires
        0 <= idx < pre.len(),
        pre[idx].from == a && pre[idx].to == bb,
        a == e.from && bb == e.to,
        mid == pre.remove(idx),
        post == spec_reversed_edges(pre, e),
        idx == spec_first_edge_idx(pre, e.from, e.to),
    ensures
        spec_contains_edge(post, a, bb) || spec_contains_edge(post, bb, a),
{
    pre.remove_ensures(idx);
    if spec_contains_edge(mid, e.to, e.from) {
        assert(post == mid);
        let j = choose|j: int|
            0 <= j < mid.len() && (#[trigger] mid[j]).from == e.to && mid[j].to == e.from;
        assert(spec_contains_edge(post, bb, a));
    } else {
        assert(post == mid.push(Edge { from: e.to, to: e.from }));
        assert(post[post.len() - 1] == (Edge { from: e.to, to: e.from }));
        assert(spec_contains_edge(post, bb, a));
    }
}

/// The position of the first edge with the given endpoints.
fn find_edge_index(edges: &Vec<Edge>, from: usize, to: usize) -> (r: Option<usize>)
    ensures
        match r {
            Some(i) => i as int == spec_first_edge_idx(edges@, from, to),
            None => spec_first_edge_idx(edges@, from, to) == -1,
        },
{
    proof {
        lemma_first_edge_idx(edges@, from, to);
    }
    let n = edges.len();
    let mut i: usize = 0;
    while i < n
        invariant
            n == edges@.len(),
            0 <= i <= n,
            forall|k: int| 0 <= k < i ==> !((#[trigger] edges@[k]).from == from && edges@[k].to == to),
        decreases n - i,
    {
        if edges[i].from == from && edges[i].to == to {
            proof {
                lemma_first_edge_idx(edges@, from, to);
                assert(spec_contains_edge(edges@, from, to));
                let fi = spec_first_edge_idx(edges@, from, to);
                if fi < i {
                    assert(edges@[fi].from == from && edges@[fi].to == to);
                    assert(false);
                } else if fi > i {
                    assert(false);
                }
            }
            return Some(i);
        }
        i += 1;
    }
    proof {
        lemma_first_edge_idx(edges@, from, to);
        if spec_contains_edge(edges@, from, to) {
            let fi = spec_first_edge_idx(edges@, from, to);
            assert(edges@[fi].from == from && edges@[fi].to == to);
            assert(false);
        }
    }
    None
}

/// Whether the list holds an edge with the given endpoints.
fn has_edge_exec(edges: &Vec<Edge>, from: usize, to: usize) -> (r: bool)
    ensures
        r == spec_contains_edge(edges@, from, to),
{
    let n = edges.len();
    let mut i: usize = 0;
    while i < n
        invariant
            n == edges@.len(),
            0 <= i <= n,
            forall|k: int| 0 <= k < i ==> !((#[trigger] edges@[k]).from == from && edges@[k].to == to),
        decreases n - i,
    {
        if edges[i].from == from && edges[i].to == to {
            return true;
        }
        i += 1;
    }
    false
}

} // verus!
