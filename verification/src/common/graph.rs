use vstd::prelude::*;
use crate::common::bpmn_event::BpmnEvent;
use crate::common::edge::Edge;
use crate::common::node::Node;
use crate::common::pool::{Pool, spec_pool_add_node_rel, spec_lane_name_of};

verus! {

/// The pool name a node is filed under: its pool, or the empty name when it
/// has none.
pub open spec fn spec_pool_name_of(node: Node) -> Seq<char> {
    match node.pool {
        Option::Some(s) => s@,
        Option::None => Seq::<char>::empty(),
    }
}

/// Two optional strings holding the same text.
pub open spec fn spec_opt_str_like(a: Option<String>, b: Option<String>) -> bool {
    match (a, b) {
        (Option::None, Option::None) => true,
        (Option::Some(x), Option::Some(y)) => x@ == y@,
        _ => false,
    }
}

/// A node as `add_node` creates it: fresh layout state, the given id and
/// element kind, and copies of the given pool and lane names.
pub open spec fn spec_fresh_node(
    n: Node,
    id: usize,
    event: BpmnEvent,
    pool: Option<String>,
    lane: Option<String>,
) -> bool {
    &&& n.id == id
    &&& n.event == Some(event)
    &&& spec_opt_str_like(pool, n.pool)
    &&& spec_opt_str_like(lane, n.lane)
    &&& n.x is None
    &&& n.y is None
    &&& n.x_offset == Some(0usize)
    &&& n.y_offset == Some(0usize)
    &&& n.layer_id is None
    &&& n.crosses_lanes == false
    &&& n.to_node_id is None
}

/// Relates the pool list before and after a node was added: the node goes
/// into the first pool carrying its pool name, or into a fresh pool
/// appended at the end.
pub open spec fn spec_pools_got_node(pre: Seq<Pool>, post: Seq<Pool>, n: Node) -> bool {
    let pname = spec_pool_name_of(n);
    if exists|i: int| 0 <= i < pre.len() && (#[trigger] pre[i]).pool_name@ == pname {
        exists|i: int|
            {
                &&& 0 <= i < pre.len()
                &&& (#[trigger] pre[i]).pool_name@ == pname
                &&& forall|k: int| 0 <= k < i ==> (#[trigger] pre[k]).pool_name@ != pname
                &&& post.len() == pre.len()
                &&& spec_pool_add_node_rel(pre[i], post[i], n)
                &&& forall|k: int| 0 <= k < pre.len() && k != i ==> post[k] == pre[k]
            }
    } else {
        &&& post.len() == pre.len() + 1
        &&& post.take(pre.len() as int) == pre
        &&& post.last().pool_name@ == pname
        &&& post.last().x is None
        &&& post.last().y is None
        &&& post.last().width is None
        &&& post.last().height is None
        &&& post.last().lanes@.len() == 1
        &&& post.last().lanes@[0].lane@ == spec_lane_name_of(n)
        &&& post.last().lanes@[0].layers@ == seq![n]
        &&& post.last().lanes@[0].x is None
        &&& post.last().lanes@[0].y is None
        &&& post.last().lanes@[0].width is None
        &&& post.last().lanes@[0].height is None
    }
}

/// The process graph: every pool (and through them every node) plus the
/// full edge list. It is the single mutable root passed through every
/// layout stage.
#[derive(Debug, Clone)]
pub struct Graph {
    /// Pools
    pub pools: Vec<Pool>,
    /// Edges
    pub edges: Vec<Edge>,
    /// Last used node ID
    pub last_node_id: usize,
}

impl Graph {
    /// Creates an empty graph.
    pub fn new() -> (graph: Graph)
        ensures
            graph.pools@.len() == 0,
            graph.edges@.len() == 0,
            graph.last_node_id == 0,
    {
        Graph { pools: Vec::new(), edges: Vec::new(), last_node_id: 0 }
    }

    /// Creates a node from an element kind and files it into the pool and
    /// lane named by the optional context, generating a fresh id when none
    /// is given. Returns the node's id.
    pub fn add_node(
        &mut self,
        bpmn_event: BpmnEvent,
        id: Option<usize>,
        pool_node: Option<String>,
        lane_node: Option<String>,
    ) -> (node_id: usize)
        requires
            id is Some || old(self).last_node_id < usize::MAX,
        ensures
            final(self).edges == old(self).edges,
            match id {
                Option::Some(v) => node_id == v && final(self).last_node_id == old(self).last_node_id,
                Option::None => node_id == old(self).last_node_id + 1 && final(self).last_node_id
                    == old(self).last_node_id + 1,
            },
            exists|n: Node|
                #[trigger] spec_fresh_node(n, node_id, bpmn_event, pool_node, lane_node)
                    && spec_pools_got_node(old(self).pools@, final(self).pools@, n),
    {
        let node_id = match id {
            Option::Some(v) => v,
            Option::None => self.next_node_id(),
        };
        let ghost ev = bpmn_event;
        let node = Node::new(
            node_id,
            None,
            None,
            Some(bpmn_event),
            clone_opt_string(&pool_node),
            clone_opt_string(&lane_node),
        );
        let ghost the_node = node;
        let pool_name: String = match &pool_node {
            Option::Some(s) => s.clone(),
            Option::None => String::new(),
        };
        proof {
            assert(pool_name@ == spec_pool_name_of(the_node));
        }
        let np = self.pools.len();
        let mut i: usize = 0;
        while i < np
            invariant
                np == self.pools@.len(),
                0 <= i <= np,
                pool_name@ == spec_pool_name_of(the_node),
                forall|k: int| 0 <= k < i ==> (#[trigger] self.pools@[k]).pool_name@ != pool_name@,
                self.pools == old(self).pools,
                self.edges == old(self).edges,
                match id {
                    Option::Some(v) => node_id == v && self.last_node_id == old(self).last_node_id,
                    Option::None => node_id == old(self).last_node_id + 1 && self.last_node_id
                        == old(self).last_node_id + 1,
                },
                node == the_node,
                ev == bpmn_event,
                spec_fresh_node(the_node, node_id, ev, pool_node, lane_node),
            decreases np - i,
        {
            if self.pools[i].pool_name.eq(&pool_name) {
                let ghost pre = self.pools@;
                let pool_ref = &mut self.pools[i];
                proof {
                    assert(*pool_ref == pre[i as int]);
                }
                pool_ref.add_node(node);
                proof {
                    assert(self.pools@ == pre.update(i as int, self.pools@[i as int]));
                    assert(spec_pool_add_node_rel(pre[i as int], self.pools@[i as int], the_node));
                    assert(spec_fresh_node(the_node, node_id, ev, pool_node, lane_node));
                    assert(pre == old(self).pools@);
                    assert(spec_pools_got_node(pre, self.pools@, the_node));
                    assert(exists|n: Node|
                        #[trigger] spec_fresh_node(n, node_id, ev, pool_node, lane_node)
                            && spec_pools_got_node(old(self).pools@, self.pools@, n));
                }
                return node_id;
            }
            i += 1;
        }
        let mut new_pool = Pool::new(pool_name);
        new_pool.add_node(node);
        let ghost pre = self.pools@;
        let ghost fresh_pool = new_pool;
        self.pools.push(new_pool);
        proof {
            assert(self.pools@.take(pre.len() as int) =~= pre);
            assert(fresh_pool.lanes@ =~= seq![fresh_pool.lanes@[0]]);
            assert(fresh_pool.lanes@[0].layers@ =~= seq![the_node]);
            assert(spec_fresh_node(the_node, node_id, ev, pool_node, lane_node));
            assert(spec_pools_got_node(pre, self.pools@, the_node));
        }
        node_id
    }


    /// Collects references to every node filed under the given pool name,
    /// in pool, lane, node order.
    pub fn get_nodes_by_pool_name<'a>(&'a self, pool_name: &str) -> (found: Vec<&'a Node>)
        ensures
            forall|k: int|
                0 <= k < found@.len() ==> (match (#[trigger] found@[k]).pool {
                    Option::Some(p) => p@ == pool_name@,
                    Option::None => false,
                }),
            forall|pi: int, li: int, ni: int|
                0 <= pi < self.pools@.len() && 0 <= li < (#[trigger] self.pools@[pi]).lanes@.len()
                    && 0 <= ni < (#[trigger] self.pools@[pi].lanes@[li]).layers@.len() && (match (
                #[trigger] self.pools@[pi].lanes@[li].layers@[ni]).pool {
                    Option::Some(p) => p@ == pool_name@,
                    Option::None => false,
                }) ==> found@.contains(&self.pools@[pi].lanes@[li].layers@[ni]),
    {
        let mut found: Vec<&'a Node> = Vec::new();
        let np = self.pools.len();
        let mut pi: usize = 0;
        while pi < np
            invariant
                np == self.pools@.len(),
                0 <= pi <= np,
                forall|k: int|
                    0 <= k < found@.len() ==> (match (#[trigger] found@[k]).pool {
                        Option::Some(p) => p@ == pool_name@,
                        Option::None => false,
                    }),
                forall|a: int, b: int, c: int|
                    0 <= a < pi && 0 <= b < (#[trigger] self.pools@[a]).lanes@.len() && 0 <= c
                        < (#[trigger] self.pools@[a].lanes@[b]).layers@.len() && (match (
                    #[trigger] self.pools@[a].lanes@[b].layers@[c]).pool {
                        Option::Some(p) => p@ == pool_name@,
                        Option::None => false,
                    }) ==> found@.contains(&self.pools@[a].lanes@[b].layers@[c]),
            decreases np - pi,
        {
            let nl = self.pools[pi].lanes.len();
            let mut li: usize = 0;
            while li < nl
                invariant
                    np == self.pools@.len(),
                    0 <= pi < np,
                    nl == self.pools@[pi as int].lanes@.len(),
                    0 <= li <= nl,
                    forall|k: int|
                        0 <= k < found@.len() ==> (match (#[trigger] found@[k]).pool {
                            Option::Some(p) => p@ == pool_name@,
                            Option::None => false,
                        }),
                    forall|a: int, b: int, c: int|
                        0 <= a < pi && 0 <= b < (#[trigger] self.pools@[a]).lanes@.len() && 0 <= c
                            < (#[trigger] self.pools@[a].lanes@[b]).layers@.len() && (match (
                        #[trigger] self.pools@[a].lanes@[b].layers@[c]).pool {
                            Option::Some(p) => p@ == pool_name@,
                            Option::None => false,
                        }) ==> found@.contains(&self.pools@[a].lanes@[b].layers@[c]),
                    forall|b: int, c: int|
                        0 <= b < li && 0 <= c < (#[trigger] self.pools@[pi as int].lanes@[b]).layers@.len()
                            && (match (#[trigger] self.pools@[pi as int].lanes@[b].layers@[c]).pool {
                            Option::Some(p) => p@ == pool_name@,
                            Option::None => false,
                        }) ==> found@.contains(&self.pools@[pi as int].lanes@[b].layers@[c]),
                decreases nl - li,
            {
                let nn = self.pools[pi].lanes[li].layers.len();
                let mut ni: usize = 0;
                while ni < nn
                    invariant
                        np == self.pools@.len(),
                        0 <= pi < np,
                        nl == self.pools@[pi as int].lanes@.len(),
                        0 <= li < nl,
                        nn == self.pools@[pi as int].lanes@[li as int].layers@.len(),
                        0 <= ni <= nn,
                        forall|k: int|
                            0 <= k < found@.len() ==> (match (#[trigger] found@[k]).pool {
                                Option::Some(p) => p@ == pool_name@,
                                Option::None => false,
                            }),
                        forall|a: int, b: int, c: int|
                            0 <= a < pi && 0 <= b < (#[trigger] self.pools@[a]).lanes@.len() && 0 <= c
                                < (#[trigger] self.pools@[a].lanes@[b]).layers@.len() && (match (
                            #[trigger] self.pools@[a].lanes@[b].layers@[c]).pool {
                                Option::Some(p) => p@ == pool_name@,
                                Option::None => false,
                            }) ==> found@.contains(&self.pools@[a].lanes@[b].layers@[c]),
                        forall|b: int, c: int|
                            0 <= b < li && 0 <= c
                                < (#[trigger] self.pools@[pi as int].lanes@[b]).layers@.len() && (match (
                            #[trigger] self.pools@[pi as int].lanes@[b].layers@[c]).pool {
                                Option::Some(p) => p@ == pool_name@,
                                Option::None => false,
                            }) ==> found@.contains(&self.pools@[pi as int].lanes@[b].layers@[c]),
                        forall|c: int|
                            0 <= c < ni && (match (
                            #[trigger] self.pools@[pi as int].lanes@[li as int].layers@[c]).pool {
                                Option::Some(p) => p@ == pool_name@,
                                Option::None => false,
                            }) ==> found@.contains(
                                &self.pools@[pi as int].lanes@[li as int].layers@[c],
                            ),
                    decreases nn - ni,
                {
                    let node_ref = &self.pools[pi].lanes[li].layers[ni];
                    let matches_pool = match &node_ref.pool {
                        Option::Some(p) => str_eq_chars(p.as_str(), pool_name),
                        Option::None => false,
                    };
                    if matches_pool {
                        let ghost pre = found@;
                        found.push(node_ref);
                        proof {
                            assert(found@.last() == node_ref);
                            assert forall|c: int|
                                0 <= c < ni + 1 && (match (
                                #[trigger] self.pools@[pi as int].lanes@[li as int].layers@[c]).pool {
                                    Option::Some(p) => p@ == pool_name@,
                                    Option::None => false,
                                }) implies found@.contains(
                                &self.pools@[pi as int].lanes@[li as int].layers@[c],
                            ) by {
                                if c < ni {
                                    let w = choose|w: int|
                                        0 <= w < pre.len() && pre[w]
                                            == &self.pools@[pi as int].lanes@[li as int].layers@[c];
                                    assert(found@[w] == pre[w]);
                                } else {
                                    assert(found@[found@.len() - 1] == node_ref);
                                }
                            }
                            assert forall|a: int, b: int, c: int|
                                0 <= a < pi && 0 <= b < (#[trigger] self.pools@[a]).lanes@.len() && 0
                                    <= c < (#[trigger] self.pools@[a].lanes@[b]).layers@.len()
                                    && (match (#[trigger] self.pools@[a].lanes@[b].layers@[c]).pool {
                                    Option::Some(p) => p@ == pool_name@,
                                    Option::None => false,
                                }) implies found@.contains(&self.pools@[a].lanes@[b].layers@[c]) by {
                                let w = choose|w: int|
                                    0 <= w < pre.len() && pre[w] == &self.pools@[a].lanes@[b].layers@[c];
                                assert(found@[w] == pre[w]);
                            }
                            assert forall|b: int, c: int|
                                0 <= b < li && 0 <= c
                                    < (#[trigger] self.pools@[pi as int].lanes@[b]).layers@.len()
                                    && (match (
                                #[trigger] self.pools@[pi as int].lanes@[b].layers@[c]).pool {
                                    Option::Some(p) => p@ == pool_name@,
                                    Option::None => false,
                                }) implies found@.contains(&self.pools@[pi as int].lanes@[b].layers@[c]) by {
                                let w = choose|w: int|
                                    0 <= w < pre.len() && pre[w]
                                        == &self.pools@[pi as int].lanes@[b].layers@[c];
                                assert(found@[w] == pre[w]);
                            }
                        }
                    }
                    ni += 1;
                }
                li += 1;
            }
            pi += 1;
        }
        found
    }

    /// The pools of the graph, in order.
    pub fn get_pools(&self) -> (pools: &Vec<Pool>)
        ensures
            pools == &self.pools,
    {
        &self.pools
    }

    /// Mutable access to the pools of the graph.
    pub fn get_pools_mut(&mut self) -> (pools: &mut Vec<Pool>)
        ensures
            *pools == old(self).pools,
            *final(self) == (Graph { pools: *final(pools), ..*old(self) }),
    {
        &mut self.pools
    }

    /// Moves the edge list out of the graph, leaving it empty.
    pub fn take_edges(&mut self) -> (edges: Vec<Edge>)
        ensures
            edges == old(self).edges,
            final(self).edges@.len() == 0,
            final(self).pools == old(self).pools,
            final(self).last_node_id == old(self).last_node_id,
    {
        let mut out: Vec<Edge> = Vec::new();
        core::mem::swap(&mut self.edges, &mut out);
        out
    }

    /// Replaces the edge list.
    pub fn set_edges(&mut self, edges: Vec<Edge>)
        ensures
            *final(self) == (Graph { edges: edges, ..*old(self) }),
    {
        self.edges = edges;
    }

    /// Adds an edge to the graph.
    pub fn add_edge(&mut self, edge: Edge)
        ensures
            final(self).edges@ == old(self).edges@.push(edge),
            final(self).pools == old(self).pools,
            final(self).last_node_id == old(self).last_node_id,
    {
        self.edges.push(edge);
    }

    /// Get the next node ID.
    pub fn next_node_id(&mut self) -> (id: usize)
        requires
            old(self).last_node_id < usize::MAX,
        ensures
            id == old(self).last_node_id + 1,
            *final(self) == (Graph { last_node_id: id, ..*old(self) }),
    {
        self.last_node_id += 1;
        self.last_node_id
    }

    /// Looks up a node anywhere in the graph by id; returns the first match
    /// in pool, lane, node order.
    pub fn get_node_by_id(&self, id: usize) -> (found: Option<&Node>)
        ensures
            match found {
                Option::Some(node) => node.id == id && spec_graph_has_node_id(*self, id)
                    && spec_found_first(*self, id, *node),
                Option::None => !spec_graph_has_node_id(*self, id),
            },
    {
        let np = self.pools.len();
        let mut pi: usize = 0;
        while pi < np
            invariant
                np == self.pools@.len(),
                0 <= pi <= np,
                forall|a: int, b: int, c: int|
                    0 <= a < pi && 0 <= b < (#[trigger] self.pools@[a]).lanes@.len() && 0 <= c
                        < (#[trigger] self.pools@[a].lanes@[b]).layers@.len()
                        ==> (#[trigger] self.pools@[a].lanes@[b].layers@[c]).id != id,
            decreases np - pi,
        {
            let nl = self.pools[pi].lanes.len();
            let mut li: usize = 0;
            while li < nl
                invariant
                    np == self.pools@.len(),
                    0 <= pi < np,
                    nl == self.pools@[pi as int].lanes@.len(),
                    0 <= li <= nl,
                    forall|a: int, b: int, c: int|
                        0 <= a < pi && 0 <= b < (#[trigger] self.pools@[a]).lanes@.len() && 0 <= c
                            < (#[trigger] self.pools@[a].lanes@[b]).layers@.len()
                            ==> (#[trigger] self.pools@[a].lanes@[b].layers@[c]).id != id,
                    forall|b: int, c: int|
                        0 <= b < li && 0 <= c < (#[trigger] self.pools@[pi as int].lanes@[b]).layers@.len()
                            ==> (#[trigger] self.pools@[pi as int].lanes@[b].layers@[c]).id != id,
                decreases nl - li,
            {
                let nn = self.pools[pi].lanes[li].layers.len();
                let mut ni: usize = 0;
                while ni < nn
                    invariant
                        np == self.pools@.len(),
                        0 <= pi < np,
                        nl == self.pools@[pi as int].lanes@.len(),
                        0 <= li < nl,
                        nn == self.pools@[pi as int].lanes@[li as int].layers@.len(),
                        0 <= ni <= nn,
                        forall|a: int, b: int, c: int|
                            0 <= a < pi && 0 <= b < (#[trigger] self.pools@[a]).lanes@.len() && 0 <= c
                                < (#[trigger] self.pools@[a].lanes@[b]).layers@.len()
                                ==> (#[trigger] self.pools@[a].lanes@[b].layers@[c]).id != id,
                        forall|b: int, c: int|
                            0 <= b < li && 0 <= c < (#[trigger] self.pools@[pi as int].lanes@[b]).layers@.len()
                                ==> (#[trigger] self.pools@[pi as int].lanes@[b].layers@[c]).id != id,
                        forall|c: int|
                            0 <= c < ni
                                ==> (#[trigger] self.pools@[pi as int].lanes@[li as int].layers@[c]).id != id,
                    decreases nn - ni,
                {
                    if self.pools[pi].lanes[li].layers[ni].id == id {
                        proof {
                            assert(self.pools@[pi as int].lanes@[li as int].layers@[ni as int]
                                == self.pools@[pi as int].lanes@[li as int].layers@[ni as int]);
                            assert(spec_found_first(
                                *self,
                                id,
                                self.pools@[pi as int].lanes@[li as int].layers@[ni as int],
                            ));
                        }
                        return Some(&self.pools[pi].lanes[li].layers[ni]);
                    }
                    ni += 1;
                }
                li += 1;
            }
            pi += 1;
        }
        None
    }
}

/// The node stands in the graph at the first place, in pool, lane, node
/// order, whose node carries the given id.
pub open spec fn spec_found_first(graph: Graph, id: usize, node: Node) -> bool {
    exists|a: int, b: int, c: int|
        {
            &&& 0 <= a < graph.pools@.len()
            &&& 0 <= b < graph.pools@[a].lanes@.len()
            &&& 0 <= c < graph.pools@[a].lanes@[b].layers@.len()
            &&& #[trigger] graph.pools@[a].lanes@[b].layers@[c] == node
            &&& forall|a2: int, b2: int, c2: int|
                0 <= a2 < a && 0 <= b2 < (#[trigger] graph.pools@[a2]).lanes@.len() && 0 <= c2
                    < (#[trigger] graph.pools@[a2].lanes@[b2]).layers@.len()
                    ==> (#[trigger] graph.pools@[a2].lanes@[b2].layers@[c2]).id != id
            &&& forall|b2: int, c2: int|
                0 <= b2 < b && 0 <= c2 < (#[trigger] graph.pools@[a].lanes@[b2]).layers@.len()
                    ==> (#[trigger] graph.pools@[a].lanes@[b2].layers@[c2]).id != id
            &&& forall|c2: int|
                0 <= c2 < c ==> (#[trigger] graph.pools@[a].lanes@[b].layers@[c2]).id != id
        }
}

/// Some pool of the graph holds a node with the given id.
pub open spec fn spec_graph_has_node_id(graph: Graph, id: usize) -> bool {
    exists|a: int, b: int, c: int|
        0 <= a < graph.pools@.len() && 0 <= b < (#[trigger] graph.pools@[a]).lanes@.len() && 0 <= c
            < (#[trigger] graph.pools@[a].lanes@[b]).layers@.len()
            && (#[trigger] graph.pools@[a].lanes@[b].layers@[c]).id == id
}


/// Compares two strings character by character.
pub fn str_eq_chars(a: &str, b: &str) -> (r: bool)
    ensures
        r == (a@ == b@),
{
    let la = a.unicode_len();
    let lb = b.unicode_len();
    if la != lb {
        proof {
            assert(a@ != b@);
        }
        return false;
    }
    let mut i: usize = 0;
    while i < la
        invariant
            la == a@.len(),
            la == b@.len(),
            0 <= i <= la,
            forall|k: int| 0 <= k < i ==> a@[k] == b@[k],
        decreases la - i,
    {
        if a.get_char(i) != b.get_char(i) {
            return false;
        }
        i += 1;
    }
    proof {
        assert(a@ =~= b@);
    }
    true
}

/// Copies an optional string.
pub fn clone_opt_string(o: &Option<String>) -> (r: Option<String>)
    ensures
        spec_opt_str_like(*o, r),
{
    match o {
        Option::Some(s) => Some(s.clone()),
        Option::None => None,
    }
}

} // verus!
