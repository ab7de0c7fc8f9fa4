use vstd::prelude::*;
use crate::common::edge::Edge;
use crate::common::lane::spec_effective_layer;
use crate::common::node::Node;
use crate::common::pool::Pool;

verus! {

/// The horizontal pitch between neighbouring slots.
pub const SLOT_PITCH: usize = 50;

/// Some edge of the list connects the two node ids, in either direction.
pub open spec fn spec_has_edge(edges: Seq<Edge>, a: usize, b: usize) -> bool {
    exists|k: int|
        0 <= k < edges.len() && ((#[trigger] edges[k]).from == a && edges[k].to == b || edges[k].from
            == b && edges[k].to == a)
}

/// The first earlier node in a different layer that is directly connected
/// to the node at `i`: its alignment predecessor.
pub open spec fn spec_pred_of(nodes: Seq<Node>, edges: Seq<Edge>, i: int, p: int) -> Option<int>
    decreases i - p,
{
    if p < 0 || p >= i || i > nodes.len() {
        None
    } else if spec_effective_layer(nodes[p]) != spec_effective_layer(nodes[i])
        && spec_has_edge(edges, nodes[p].id, nodes[i].id) {
        Some(p)
    } else {
        spec_pred_of(nodes, edges, i, p + 1)
    }
}

/// A slot already claimed by an earlier node of the same layer.
pub open spec fn spec_slot_used(slots: Seq<usize>, nodes: Seq<Node>, i: int, s: usize) -> bool {
    exists|q: int|
        0 <= q < i && spec_effective_layer(#[trigger] nodes[q]) == spec_effective_layer(nodes[i])
            && slots[q] == s
}

/// One more than the greatest slot already claimed in the node's layer, or
/// zero when the layer has none yet.
pub open spec fn spec_next_slot(slots: Seq<usize>, nodes: Seq<Node>, i: int, p: int) -> usize
    decreases i - p,
{
    if p < 0 || p >= i {
        0
    } else {
        let rest = spec_next_slot(slots, nodes, i, p + 1);
        if spec_effective_layer(nodes[p]) == spec_effective_layer(nodes[i]) && slots[p] + 1 > rest {
            (slots[p] + 1) as usize
        } else {
            rest
        }
    }
}

/// The slot of each node, in order: a node aligns to its predecessor's
/// slot when that slot is still unclaimed in its own layer, and otherwise
/// takes the first slot past every claimed one. Earlier claims are never
/// reassigned.
pub open spec fn spec_slots_upto(nodes: Seq<Node>, edges: Seq<Edge>, i: int) -> Seq<usize>
    decreases i,
{
    if i <= 0 {
        Seq::empty()
    } else {
        let prev = spec_slots_upto(nodes, edges, i - 1);
        let cand = spec_pred_of(nodes, edges, i - 1, 0);
        let slot = match cand {
            Some(p) => if !spec_slot_used(prev, nodes, i - 1, prev[p]) {
                prev[p]
            } else {
                spec_next_slot(prev, nodes, i - 1, 0)
            },
            None => spec_next_slot(prev, nodes, i - 1, 0),
        };
        prev.push(slot)
    }
}

/// The in-layer slots a lane's nodes receive.
pub open spec fn spec_slots(nodes: Seq<Node>, edges: Seq<Edge>) -> Seq<usize> {
    spec_slots_upto(nodes, edges, nodes.len() as int)
}

/// Relates a lane's nodes before and after crossing minimization: each
/// node's x position becomes its slot times the pitch; everything else —
/// in particular every layer id — is kept.
pub open spec fn spec_aligned(pre: Seq<Node>, post: Seq<Node>, edges: Seq<Edge>) -> bool {
    &&& post.len() == pre.len()
    &&& forall|i: int| 0 <= i < pre.len() ==> #[trigger] post[i] == (Node {
        x: Some((spec_slots(pre, edges)[i] * SLOT_PITCH) as usize),
        ..pre[i]
    })
}

/// Slots stay within the prefix that produced them.
proof fn lemma_next_slot_bound(slots: Seq<usize>, nodes: Seq<Node>, i: int, p: int, bound: int)
    requires
        0 <= i <= slots.len(),
        0 <= p,
        forall|q: int| 0 <= q < i ==> #[trigger] slots[q] < bound,
        bound >= 0,
    ensures
        spec_next_slot(slots, nodes, i, p) <= bound,
    decreases i - p,
{
    if p < i {
        lemma_next_slot_bound(slots, nodes, i, p + 1, bound);
    }
}

/// Every slot in the sequence is at most its own position.
proof fn lemma_slots_bounded(nodes: Seq<Node>, edges: Seq<Edge>, i: int)
    requires
        0 <= i <= nodes.len(),
    ensures
        spec_slots_upto(nodes, edges, i).len() == i,
        forall|q: int| 0 <= q < i ==> #[trigger] spec_slots_upto(nodes, edges, i)[q] <= q,
    decreases i,
{
    if i > 0 {
        lemma_slots_bounded(nodes, edges, i - 1);
        let prev = spec_slots_upto(nodes, edges, i - 1);
        let cand = spec_pred_of(nodes, edges, i - 1, 0);
        lemma_pred_in_range(nodes, edges, i - 1, 0);
        assert forall|q: int| 0 <= q < i - 1 implies #[trigger] prev[q] < i - 1 by {
            assert(prev[q] <= q);
        }
        lemma_next_slot_bound(prev, nodes, i - 1, 0, i - 1);
    }
}

/// An alignment predecessor lies strictly before its node.
proof fn lemma_pred_in_range(nodes: Seq<Node>, edges: Seq<Edge>, i: int, p: int)
    requires
        0 <= p,
    ensures
        match spec_pred_of(nodes, edges, i, p) {
            Some(r) => p <= r < i && i <= nodes.len(),
            None => true,
        },
    decreases i - p,
{
    if !(p < 0 || p >= i || i > nodes.len()) {
        lemma_pred_in_range(nodes, edges, i, p + 1);
    }
}

/// The fallback slot is strictly greater than every claimed slot of the
/// layer.
proof fn lemma_next_slot_exceeds(slots: Seq<usize>, nodes: Seq<Node>, i: int, p: int, q: int)
    requires
        0 <= p <= q < i <= slots.len(),
        i <= 10000,
        spec_effective_layer(nodes[q]) == spec_effective_layer(nodes[i]),
        forall|w: int| 0 <= w < i ==> #[trigger] slots[w] <= w,
    ensures
        spec_next_slot(slots, nodes, i, p) > slots[q],
    decreases i - p,
{
    if p < q {
        lemma_next_slot_exceeds(slots, nodes, i, p + 1, q);
    } else {
        let rest = spec_next_slot(slots, nodes, i, p + 1);
        if slots[p] + 1 > rest {
            assert(spec_next_slot(slots, nodes, i, p) == slots[p] + 1);
        } else {
            assert(spec_next_slot(slots, nodes, i, p) == rest);
            assert(rest >= slots[p] + 1);
        }
    }
}

/// Law: within one layer, the slots are pairwise distinct — two nodes that
/// share a layer never share a slot, whether or not they are connected.
pub proof fn lemma_slots_distinct_within_layer(nodes: Seq<Node>, edges: Seq<Edge>, i: int, j: int)
    requires
        0 <= i < j < nodes.len(),
        nodes.len() <= 10000,
        spec_effective_layer(nodes[i]) == spec_effective_layer(nodes[j]),
    ensures
        spec_slots(nodes, edges)[i] != spec_slots(nodes, edges)[j],
{
    lemma_slots_distinct_upto(nodes, edges, nodes.len() as int, i, j);
}

/// The distinctness invariant, for every prefix.
proof fn lemma_slots_distinct_upto(nodes: Seq<Node>, edges: Seq<Edge>, m: int, i: int, j: int)
    requires
        0 <= i < j < m <= nodes.len(),
        nodes.len() <= 10000,
        spec_effective_layer(nodes[i]) == spec_effective_layer(nodes[j]),
    ensures
        spec_slots_upto(nodes, edges, m)[i] != spec_slots_upto(nodes, edges, m)[j],
    decreases m,
{
    lemma_slots_bounded(nodes, edges, m);
    if j < m - 1 {
        lemma_slots_distinct_upto(nodes, edges, m - 1, i, j);
        let prev = spec_slots_upto(nodes, edges, m - 1);
        assert(spec_slots_upto(nodes, edges, m)[i] == prev[i]);
        assert(spec_slots_upto(nodes, edges, m)[j] == prev[j]);
    } else {
        // j == m - 1: the new slot differs from every claimed slot of its
        // layer
        let prev = spec_slots_upto(nodes, edges, m - 1);
        lemma_slots_bounded(nodes, edges, m - 1);
        let cand = spec_pred_of(nodes, edges, m - 1, 0);
        let slot = spec_slots_upto(nodes, edges, m)[j];
        assert(spec_slots_upto(nodes, edges, m)[i] == prev[i]);
        match cand {
            Some(p) => {
                if !spec_slot_used(prev, nodes, m - 1, prev[p]) {
                    assert(slot == prev[p]);
                    if prev[i] == slot {
                        assert(spec_slot_used(prev, nodes, m - 1, prev[p]));
                    }
                } else {
                    assert(slot == spec_next_slot(prev, nodes, m - 1, 0));
                    lemma_next_slot_exceeds(prev, nodes, m - 1, 0, i);
                }
            },
            None => {
                assert(slot == spec_next_slot(prev, nodes, m - 1, 0));
                lemma_next_slot_exceeds(prev, nodes, m - 1, 0, i);
            },
        }
    }
}

/// Law: crossing minimization never changes a node's layer id — nor its
/// id, kind, or anything besides the in-layer x position.
pub proof fn lemma_alignment_preserves_layers(pre: Seq<Node>, post: Seq<Node>, edges: Seq<Edge>)
    requires
        spec_aligned(pre, post, edges),
    ensures
        post.len() == pre.len(),
        forall|i: int| 0 <= i < pre.len() ==> (#[trigger] post[i]).layer_id == pre[i].layer_id,
        forall|i: int| 0 <= i < pre.len() ==> (#[trigger] post[i]).id == pre[i].id,
        forall|i: int| 0 <= i < pre.len() ==> (#[trigger] post[i]).y == pre[i].y,
{
}

/// Reduces edge crossings in every lane by aligning directly connected
/// nodes of different layers into the same vertical slot, first claim
/// winning; unconnected nodes keep distinct slots. Only x positions
/// change.
pub fn reduce_crossings(pools_lanes_layers: &mut Vec<Pool>, edges: &Vec<Edge>)
    requires
        forall|pi: int, li: int|
            0 <= pi < old(pools_lanes_layers)@.len() && 0 <= li
                < (#[trigger] old(pools_lanes_layers)@[pi]).lanes@.len()
                ==> (#[trigger] old(pools_lanes_layers)@[pi].lanes@[li]).layers@.len() <= 10000,
    ensures
        final(pools_lanes_layers)@.len() == old(pools_lanes_layers)@.len(),
        forall|pi: int| 0 <= pi < old(pools_lanes_layers)@.len() ==> spec_pool_aligned(
            old(pools_lanes_layers)@[pi],
            #[trigger] final(pools_lanes_layers)@[pi],
            edges@,
        ),
{
    let np = pools_lanes_layers.len();
    let mut pi: usize = 0;
    while pi < np
        invariant
            np == pools_lanes_layers@.len(),
            0 <= pi <= np,
            forall|q: int, li: int|
                0 <= q < np && 0 <= li < (#[trigger] old(pools_lanes_layers)@[q]).lanes@.len()
                    ==> (#[trigger] old(pools_lanes_layers)@[q].lanes@[li]).layers@.len() <= 10000,
            forall|q: int| pi <= q < np ==> #[trigger] pools_lanes_layers@[q]
                == old(pools_lanes_layers)@[q],
            forall|q: int| 0 <= q < pi ==> spec_pool_aligned(
                old(pools_lanes_layers)@[q],
                #[trigger] pools_lanes_layers@[q],
                edges@,
            ),
        decreases np - pi,
    {
        let ghost old_pool = pools_lanes_layers@[pi as int];
        let nl = pools_lanes_layers[pi].lanes.len();
        let mut li: usize = 0;
        while li < nl
            invariant
                np == pools_lanes_layers@.len(),
                0 <= pi < np,
                old_pool == old(pools_lanes_layers)@[pi as int],
                nl == old_pool.lanes@.len(),
                0 <= li <= nl,
                forall|a: int| li <= a < nl ==> #[trigger] pools_lanes_layers@[pi as int].lanes@[a]
                    == old_pool.lanes@[a],
                forall|a: int, ql: int|
                    0 <= a < np && 0 <= ql < (#[trigger] old(pools_lanes_layers)@[a]).lanes@.len()
                        ==> (#[trigger] old(pools_lanes_layers)@[a].lanes@[ql]).layers@.len() <= 10000,
                forall|q: int| pi < q < np ==> #[trigger] pools_lanes_layers@[q]
                    == old(pools_lanes_layers)@[q],
                forall|q: int| 0 <= q < pi ==> spec_pool_aligned(
                    old(pools_lanes_layers)@[q],
                    #[trigger] pools_lanes_layers@[q],
                    edges@,
                ),
                pools_lanes_layers@[pi as int].pool_name@ == old_pool.pool_name@,
                pools_lanes_layers@[pi as int].x == old_pool.x,
                pools_lanes_layers@[pi as int].y == old_pool.y,
                pools_lanes_layers@[pi as int].width == old_pool.width,
                pools_lanes_layers@[pi as int].height == old_pool.height,
                pools_lanes_layers@[pi as int].lanes@.len() == nl,
                forall|a: int| 0 <= a < li ==> spec_lane_aligned(
                    old_pool.lanes@[a],
                    #[trigger] pools_lanes_layers@[pi as int].lanes@[a],
                    edges@,
                ),
            decreases nl - li,
        {
            let pool_ref = &mut pools_lanes_layers[pi];
            let lane_ref = &mut pool_ref.lanes[li];
            let nodes_ref = lane_ref.get_layers_mut();
            align_connected_nodes(nodes_ref, edges);
            li += 1;
        }
        pi += 1;
    }
}

/// One lane aligned: nodes carry their slots, nothing else changed.
pub open spec fn spec_lane_aligned(pre: crate::common::lane::Lane, post: crate::common::lane::Lane, edges: Seq<Edge>) -> bool {
    &&& post.lane@ == pre.lane@
    &&& post.x == pre.x
    &&& post.y == pre.y
    &&& post.width == pre.width
    &&& post.height == pre.height
    &&& spec_aligned(pre.layers@, post.layers@, edges)
}

/// One pool aligned lane by lane.
pub open spec fn spec_pool_aligned(pre: Pool, post: Pool, edges: Seq<Edge>) -> bool {
    &&& post.pool_name@ == pre.pool_name@
    &&& post.x == pre.x
    &&& post.y == pre.y
    &&& post.width == pre.width
    &&& post.height == pre.height
    &&& post.lanes@.len() == pre.lanes@.len()
    &&& forall|li: int| 0 <= li < pre.lanes@.len() ==> spec_lane_aligned(
        pre.lanes@[li],
        #[trigger] post.lanes@[li],
        edges,
    )
}

/// Aligns the nodes of one lane: each node takes its predecessor's slot
/// when that slot is free in its own layer, or the first slot past every
/// claimed one; the slot, times the pitch, becomes the node's x position.
pub fn align_connected_nodes(nodes: &mut Vec<Node>, edges: &Vec<Edge>)
    requires
        old(nodes)@.len() <= 10000,
    ensures
        spec_aligned(old(nodes)@, final(nodes)@, edges@),
{
    let n = nodes.len();
    let mut slots: Vec<usize> = Vec::new();
    let mut i: usize = 0;
    while i < n
        invariant
            n == nodes@.len(),
            n <= 10000,
            0 <= i <= n,
            *nodes == *old(nodes),
            slots@.len() == i,
            slots@ == spec_slots_upto(nodes@, edges@, i as int),
        decreases n - i,
    {
        proof {
            lemma_slots_bounded(nodes@, edges@, i as int);
        }
        let pred = find_pred(nodes, edges, i);
        let slot: usize = match pred {
            Some(p) => {
                let cand = slots[p];
                let used = slot_used(&slots, nodes, i, cand);
                if !used {
                    cand
                } else {
                    next_slot(&slots, nodes, i)
                }
            },
            None => next_slot(&slots, nodes, i),
        };
        slots.push(slot);
        i += 1;
    }
    // write the positions back
    let ghost pre = nodes@;
    let mut k: usize = 0;
    proof {
        lemma_slots_bounded(pre, edges@, n as int);
    }
    while k < n
        invariant
            n == nodes@.len(),
            n <= 10000,
            0 <= k <= n,
            pre == old(nodes)@,
            pre.len() == n,
            slots@.len() == n,
            slots@ == spec_slots(pre, edges@),
            forall|q: int| 0 <= q < n ==> #[trigger] slots@[q] <= q,
            forall|q: int| k <= q < n ==> #[trigger] nodes@[q] == pre[q],
            forall|q: int| 0 <= q < k ==> #[trigger] nodes@[q] == (Node {
                x: Some((slots@[q] * SLOT_PITCH) as usize),
                ..pre[q]
            }),
        decreases n - k,
    {
        let x: usize = slots[k] * SLOT_PITCH;
        nodes[k].x = Some(x);
        k += 1;
    }
}

/// The first earlier node in another layer connected to the node at `i`.
fn find_pred(nodes: &Vec<Node>, edges: &Vec<Edge>, i: usize) -> (r: Option<usize>)
    requires
        i < nodes@.len(),
    ensures
        match r {
            Some(p) => p < i && Some(p as int) == spec_pred_of(nodes@, edges@, i as int, 0),
            None => spec_pred_of(nodes@, edges@, i as int, 0) is None,
        },
{
    let mut p: usize = 0;
    while p < i
        invariant
            i < nodes@.len(),
            0 <= p <= i,
            spec_pred_of(nodes@, edges@, i as int, 0) == spec_pred_of(
                nodes@,
                edges@,
                i as int,
                p as int,
            ),
        decreases i - p,
    {
        let lp = effective_layer(&nodes[p]);
        let lI = effective_layer(&nodes[i]);
        if lp != lI {
            if has_edge(edges, nodes[p].id, nodes[i].id) {
                return Some(p);
            }
        }
        p += 1;
    }
    None
}

/// A node's layer id, an unassigned layer counting as zero.
fn effective_layer(node: &Node) -> (l: usize)
    ensures
        l == spec_effective_layer(*node),
{
    match node.layer_id {
        Option::Some(l) => l,
        Option::None => 0,
    }
}

/// Whether the graph holds an edge between the two ids, in either
/// direction.
fn has_edge(edges: &Vec<Edge>, a: usize, b: usize) -> (r: bool)
    ensures
        r == spec_has_edge(edges@, a, b),
{
    let ne = edges.len();
    let mut k: usize = 0;
    while k < ne
        invariant
            ne == edges@.len(),
            0 <= k <= ne,
            forall|q: int|
                0 <= q < k ==> !((#[trigger] edges@[q]).from == a && edges@[q].to == b
                    || edges@[q].from == b && edges@[q].to == a),
        decreases ne - k,
    {
        let e = &edges[k];
        if e.from == a && e.to == b || e.from == b && e.to == a {
            return true;
        }
        k += 1;
    }
    false
}

/// Whether the slot is already claimed in the layer of the node at `i`.
fn slot_used(slots: &Vec<usize>, nodes: &Vec<Node>, i: usize, s: usize) -> (r: bool)
    requires
        i < nodes@.len(),
        slots@.len() >= i,
    ensures
        r == spec_slot_used(slots@, nodes@, i as int, s),
{
    let mut q: usize = 0;
    while q < i
        invariant
            i < nodes@.len(),
            slots@.len() >= i,
            0 <= q <= i,
            forall|w: int|
                0 <= w < q ==> !(spec_effective_layer(#[trigger] nodes@[w]) == spec_effective_layer(
                    nodes@[i as int],
                ) && slots@[w] == s),
        decreases i - q,
    {
        let lq = effective_layer(&nodes[q]);
        let lI = effective_layer(&nodes[i]);
        if lq == lI && slots[q] == s {
            return true;
        }
        q += 1;
    }
    false
}

/// The first slot past every slot claimed in the layer of the node at `i`.
fn next_slot(slots: &Vec<usize>, nodes: &Vec<Node>, i: usize) -> (r: usize)
    requires
        i < nodes@.len(),
        slots@.len() >= i,
        forall|q: int| 0 <= q < i ==> #[trigger] slots@[q] <= q,
    ensures
        r == spec_next_slot(slots@, nodes@, i as int, 0),
{
    let mut best: usize = 0;
    let mut p: usize = 0;
    while p < i
        invariant
            i < nodes@.len(),
            slots@.len() >= i,
            forall|q: int| 0 <= q < i ==> #[trigger] slots@[q] <= q,
            0 <= p <= i,
            best <= i,
            spec_next_slot(slots@, nodes@, i as int, 0) == (
            if spec_next_slot(slots@, nodes@, i as int, p as int) > best {
                spec_next_slot(slots@, nodes@, i as int, p as int)
            } else {
                best
            }),
        decreases i - p,
    {
        let layer_p = effective_layer(&nodes[p]);
        let layer_i = effective_layer(&nodes[i]);
        if layer_p == layer_i && slots[p] + 1 > best {
            best = slots[p] + 1;
        }
        p += 1;
    }
    best
}

} // verus!
