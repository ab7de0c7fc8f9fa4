use vstd::prelude::*;
use crate::common::bpmn_event::spec_node_size;
use crate::common::graph::Graph;
use crate::common::lane::{Lane, spec_effective_layer, spec_sorted_by_layer};
use crate::common::node::Node;
use crate::common::pool::Pool;

verus! {

/// The horizontal pitch between neighbouring layers.
pub const LAYER_WIDTH: usize = 150;

/// The least vertical pitch between neighbouring nodes of one layer; a
/// node taller than it claims its own height plus the fixed spacing.
pub const NODE_PITCH: usize = 100;

/// The rendered size of a node: its element kind's size, or a task's size
/// when it has no kind.
pub open spec fn spec_node_dims(node: Node) -> (usize, usize) {
    match node.event {
        Option::Some(e) => spec_node_size(&e),
        Option::None => (100, 80),
    }
}

/// Every node's rendered size is positive and no larger than 350x200.
pub proof fn lemma_node_dims_bounds(n: Node)
    ensures
        0 < spec_node_dims(n).0 <= 350,
        0 < spec_node_dims(n).1 <= 200,
{
    match n.event {
        Option::Some(e) => {
            crate::common::bpmn_event::lemma_node_size_bounds(&e);
        },
        Option::None => {},
    }
}

/// The centering x sub-offset of a node narrower than a task.
pub open spec fn spec_x_offset_of(node: Node) -> int {
    if spec_node_dims(node).0 < 100 {
        (100 - spec_node_dims(node).0) / 2
    } else {
        0
    }
}

/// The centering y sub-offset of a node shorter than a task.
pub open spec fn spec_y_offset_of(node: Node) -> int {
    if spec_node_dims(node).1 < 80 {
        (80 - spec_node_dims(node).1) / 2
    } else {
        0
    }
}

/// The layer ids of a node sequence.
pub open spec fn spec_layer_ids(nodes: Seq<Node>) -> Seq<Option<usize>> {
    nodes.map_values(|n: Node| n.layer_id)
}

/// The running (greatest finished run, current run, current layer) state
/// of the layer-size fold, after the first `i` nodes.
pub open spec fn spec_fmax_state(ids: Seq<Option<usize>>, i: int) -> (int, int, int)
    decreases i,
{
    if i <= 0 {
        (0, 0, 0)
    } else {
        let prev = spec_fmax_state(ids, i - 1);
        let l = match ids[i - 1] {
            Option::Some(v) => v as int,
            Option::None => 0,
        };
        if l != prev.2 {
            if prev.1 > prev.0 {
                (prev.1, 1, l)
            } else {
                (prev.0, 1, l)
            }
        } else {
            (prev.0, prev.1 + 1, prev.2)
        }
    }
}

/// The size of the largest layer run, the final run included: on nodes
/// sorted by layer id this is the largest number of nodes sharing one
/// layer.
pub open spec fn spec_find_max_nodes(ids: Seq<Option<usize>>) -> int {
    let st = spec_fmax_state(ids, ids.len() as int);
    if st.1 > st.0 {
        st.1
    } else {
        st.0
    }
}

/// The vertical extent a lane reserves: the layer-size fold times the
/// least node pitch, plus one task height.
pub open spec fn spec_lane_block(lane: Lane) -> int {
    spec_find_max_nodes(spec_layer_ids(lane.layers@)) * 100 + 80
}

/// The width a lane asks for: a two-layer floor for lanes whose last node
/// sits in layer zero or one, else the last layer times a fixed pitch.
pub open spec fn spec_lane_width_of(lane: Lane) -> int {
    let last = match lane.layers@.last().layer_id {
        Option::Some(v) => v as int,
        Option::None => 0,
    };
    if last == 0 || last == 1 {
        350
    } else {
        last * 200
    }
}

/// The vertical room one node takes in its layer's stack: its rendered
/// height plus the fixed minimum spacing, floored at the node pitch.
pub open spec fn spec_node_pitch(n: Node) -> int {
    if spec_node_dims(n).1 + 20 > 100 {
        spec_node_dims(n).1 + 20
    } else {
        100
    }
}

/// The vertical offset the node at `i` starts at within its layer: the
/// summed pitches of the earlier nodes sharing the layer `l`.
pub open spec fn spec_offset_before(nodes: Seq<Node>, l: usize, i: int) -> int
    decreases i,
{
    if i <= 0 {
        0
    } else if spec_effective_layer(nodes[i - 1]) == l {
        spec_offset_before(nodes, l, i - 1) + spec_node_pitch(nodes[i - 1])
    } else {
        spec_offset_before(nodes, l, i - 1)
    }
}

/// The sum of the lane blocks before lane `li` of the pool.
pub open spec fn spec_pool_block_upto(pool: Pool, li: int) -> int
    decreases li,
{
    if li <= 0 {
        0
    } else {
        spec_pool_block_upto(pool, li - 1) + spec_lane_block(pool.lanes@[li - 1])
    }
}

/// The vertical extent of a whole pool.
pub open spec fn spec_pool_block(pool: Pool) -> int {
    spec_pool_block_upto(pool, pool.lanes@.len() as int)
}

/// The sum of the pool blocks before pool `pi`.
pub open spec fn spec_pools_block_upto(pools: Seq<Pool>, pi: int) -> int
    decreases pi,
{
    if pi <= 0 {
        0
    } else {
        spec_pools_block_upto(pools, pi - 1) + spec_pool_block(pools[pi - 1])
    }
}

/// One positioned node: x from its layer, y from the lane's base plus
/// the summed pitches of the layer's earlier nodes (unless the node
/// already carried a y), and the centering sub-offsets from its size. A
/// node whose layer lies past the lane's node count is left untouched.
pub open spec fn spec_node_positioned(mid: Seq<Node>, post: Seq<Node>, i: int, base: int) -> bool {
    let l = spec_effective_layer(mid[i]);
    if l < mid.len() {
        post[i] == (Node {
            x: Some((180 + l * 150) as usize),
            y: Some(
                (match mid[i].y {
                    Option::Some(v) => v as int,
                    Option::None => base + spec_offset_before(mid, l, i),
                }) as usize,
            ),
            x_offset: Some(spec_x_offset_of(mid[i]) as usize),
            y_offset: Some(spec_y_offset_of(mid[i]) as usize),
            ..mid[i]
        })
    } else {
        post[i] == mid[i]
    }
}

/// A whole lane positioned from a sorted arrangement `mid` of its nodes.
pub open spec fn spec_lane_positioned(mid: Seq<Node>, post: Seq<Node>, base: int) -> bool {
    &&& post.len() == mid.len()
    &&& forall|i: int| 0 <= i < mid.len() ==> #[trigger] spec_node_positioned(mid, post, i, base)
}

/// Relates one lane across the stage: its nodes are some layer-sorted
/// arrangement of the old ones, positioned from the lane's base line; the
/// lane's own box is set from its block and the running offsets.
pub open spec fn spec_lane_placed(
    pre: Lane,
    post: Lane,
    base: int,
    lane_y: int,
) -> bool {
    &&& post.lane@ == pre.lane@
    &&& exists|mid: Seq<Node>|
        {
            &&& #[trigger] mid.to_multiset() == pre.layers@.to_multiset()
            &&& spec_sorted_by_layer(mid)
            &&& spec_lane_positioned(mid, post.layers@, base)
        }
    &&& post.height == Some((spec_lane_block(post)) as usize)
    &&& post.x == Some(130usize)
    &&& post.y == Some(lane_y as usize)
}

/// The greatest lane width a pool's non-empty lanes ask for.
pub open spec fn spec_pool_lane_width_upto(post: Pool, li: int) -> int
    decreases li,
{
    if li <= 0 {
        0
    } else {
        let rest = spec_pool_lane_width_upto(post, li - 1);
        let lane = post.lanes@[li - 1];
        if lane.layers@.len() > 0 && spec_lane_width_of(lane) > rest {
            spec_lane_width_of(lane)
        } else {
            rest
        }
    }
}

/// The width the pool's lanes settle on.
pub open spec fn spec_pool_lane_width(post: Pool) -> int {
    spec_pool_lane_width_upto(post, post.lanes@.len() as int)
}

/// Structural limits under which every coordinate fits comfortably in a
/// machine word.
pub open spec fn spec_positioning_limits(graph: Graph) -> bool {
    &&& graph.pools@.len() <= 100
    &&& forall|pi: int| 0 <= pi < graph.pools@.len() ==> (#[trigger] graph.pools@[pi]).lanes@.len()
        <= 100
    &&& forall|pi: int, li: int|
        0 <= pi < graph.pools@.len() && 0 <= li < (#[trigger] graph.pools@[pi]).lanes@.len() ==> (
        #[trigger] graph.pools@[pi].lanes@[li]).layers@.len() <= 1000
    &&& forall|pi: int, li: int, ni: int|
        0 <= pi < graph.pools@.len() && 0 <= li < (#[trigger] graph.pools@[pi]).lanes@.len() && 0
            <= ni < (#[trigger] graph.pools@[pi].lanes@[li]).layers@.len() ==> (match (
        #[trigger] graph.pools@[pi].lanes@[li].layers@[ni]).layer_id {
            Option::Some(l) => l <= 10000,
            Option::None => true,
        } && (match graph.pools@[pi].lanes@[li].layers@[ni].y {
            Option::Some(v) => v <= 100000000,
            Option::None => true,
        }))
}


/// The fold state is bounded by the number of nodes seen.
proof fn lemma_fmax_bounds(ids: Seq<Option<usize>>, i: int)
    requires
        0 <= i <= ids.len(),
    ensures
        0 <= spec_fmax_state(ids, i).0 <= i,
        0 <= spec_fmax_state(ids, i).1 <= i,
    decreases i,
{
    if i > 0 {
        lemma_fmax_bounds(ids, i - 1);
    }
}

/// A lane's block lies between one task height and the worst case for its
/// node count.
pub proof fn lemma_lane_block_bounds(lane: Lane)
    requires
        lane.layers@.len() <= 1000,
    ensures
        80 <= spec_lane_block(lane) <= 100080,
{
    lemma_fmax_bounds(spec_layer_ids(lane.layers@), lane.layers@.len() as int);
}

/// A pool's block prefix is bounded by its lane count.
pub proof fn lemma_pool_block_upto_bounds(pool: Pool, li: int)
    requires
        0 <= li <= pool.lanes@.len(),
        pool.lanes@.len() <= 100,
        forall|a: int| 0 <= a < pool.lanes@.len() ==> (#[trigger] pool.lanes@[a]).layers@.len()
            <= 1000,
    ensures
        0 <= spec_pool_block_upto(pool, li) <= li * 100080,
    decreases li,
{
    if li > 0 {
        lemma_pool_block_upto_bounds(pool, li - 1);
        lemma_lane_block_bounds(pool.lanes@[li - 1]);
    }
}

/// The global block prefix is bounded by the pool count.
pub proof fn lemma_pools_block_upto_bounds(pools: Seq<Pool>, pi: int)
    requires
        0 <= pi <= pools.len(),
        pools.len() <= 100,
        forall|q: int| 0 <= q < pools.len() ==> (#[trigger] pools[q]).lanes@.len() <= 100,
        forall|q: int, a: int|
            0 <= q < pools.len() && 0 <= a < (#[trigger] pools[q]).lanes@.len() ==> (
            #[trigger] pools[q].lanes@[a]).layers@.len() <= 1000,
    ensures
        0 <= spec_pools_block_upto(pools, pi) <= pi * 10008000,
    decreases pi,
{
    if pi > 0 {
        lemma_pools_block_upto_bounds(pools, pi - 1);
        lemma_pool_block_upto_bounds(pools[pi - 1], pools[pi - 1].lanes@.len() as int);
    }
}

/// Freshness carried through a permutation: every node of `b` is a node
/// of `a`, so an unset y and a bounded-or-unset layer survive reordering.
pub proof fn lemma_multiset_fresh_nodes(a: Seq<Node>, b: Seq<Node>, bound: int)
    requires
        a.to_multiset() == b.to_multiset(),
        forall|i: int| 0 <= i < a.len() ==> (match (#[trigger] a[i]).layer_id {
            Option::Some(l) => l <= bound,
            Option::None => true,
        } && a[i].y is None),
    ensures
        forall|i: int| 0 <= i < b.len() ==> (match (#[trigger] b[i]).layer_id {
            Option::Some(l) => l <= bound,
            Option::None => true,
        } && b[i].y is None),
{
    a.to_multiset_ensures();
    b.to_multiset_ensures();
    assert forall|i: int| 0 <= i < b.len() implies (match (#[trigger] b[i]).layer_id {
        Option::Some(l) => l <= bound,
        Option::None => true,
    } && b[i].y is None) by {
        assert(b.contains(b[i]));
        assert(a.to_multiset().contains(b[i]));
        assert(a.contains(b[i]));
        let j = choose|j: int| 0 <= j < a.len() && a[j] == b[i];
        assert(a[j] == b[i]);
    }
}

/// A node's pitch lies between the minimum pitch and the tallest kind
/// plus the spacing.
proof fn lemma_node_pitch_bounds(n: Node)
    ensures
        100 <= spec_node_pitch(n) <= 220,
{
    lemma_node_dims_bounds(n);
}

/// The layer's running offset never exceeds the worst case for its
/// position.
pub proof fn lemma_offset_before_bounds(nodes: Seq<Node>, l: usize, i: int)
    requires
        0 <= i <= nodes.len(),
    ensures
        0 <= spec_offset_before(nodes, l, i) <= 220 * i,
    decreases i,
{
    if i > 0 {
        lemma_offset_before_bounds(nodes, l, i - 1);
        lemma_node_pitch_bounds(nodes[i - 1]);
    }
}

/// A later node of the same layer starts at least one full pitch below an
/// earlier one.
proof fn lemma_offset_before_monotone(nodes: Seq<Node>, l: usize, a: int, b: int)
    requires
        0 <= a < b <= nodes.len(),
        spec_effective_layer(nodes[a]) == l,
    ensures
        spec_offset_before(nodes, l, b) >= spec_offset_before(nodes, l, a) + spec_node_pitch(
            nodes[a],
        ),
    decreases b,
{
    if b - 1 > a {
        lemma_offset_before_monotone(nodes, l, a, b - 1);
        lemma_node_pitch_bounds(nodes[b - 1]);
    }
}

/// Law: two distinct nodes that share a lane and a layer do not overlap
/// vertically — the earlier node's y range, inclusive of its height, ends
/// strictly before the later node's begins, whatever the nodes' kinds.
/// Holds for every freshly positioned lane.
pub proof fn lemma_same_layer_nodes_disjoint(
    mid: Seq<Node>,
    post: Seq<Node>,
    base: int,
    a: int,
    b: int,
)
    requires
        spec_lane_positioned(mid, post, base),
        forall|i: int| 0 <= i < mid.len() ==> (#[trigger] mid[i]).y is None,
        0 <= a < b < post.len(),
        spec_effective_layer(mid[a]) == spec_effective_layer(mid[b]),
        spec_effective_layer(mid[a]) < mid.len(),
        0 <= base,
        base + 220 * mid.len() <= 4000000000,
    ensures
        post[a].y is Some && post[b].y is Some,
        post[a].y->0 + post[a].y_offset->0 + spec_node_dims(post[a]).1 < post[b].y->0
            + post[b].y_offset->0,
{
    let l = spec_effective_layer(mid[a]);
    assert(spec_node_positioned(mid, post, a, base));
    assert(spec_node_positioned(mid, post, b, base));
    lemma_offset_before_bounds(mid, l, a);
    lemma_offset_before_bounds(mid, l, b);
    lemma_offset_before_monotone(mid, l, a, b);
    lemma_node_pitch_bounds(mid[a]);
    lemma_node_dims_bounds(mid[a]);
    let oa = spec_offset_before(mid, l, a);
    let ob = spec_offset_before(mid, l, b);
    assert(post[a].y->0 == base + oa);
    assert(post[b].y->0 == base + ob);
    assert(spec_node_dims(post[a]) == spec_node_dims(mid[a]));
    assert(spec_node_dims(post[b]) == spec_node_dims(mid[b]));
    assert(post[a].y_offset->0 == spec_y_offset_of(mid[a]));
    assert(post[b].y_offset->0 == spec_y_offset_of(mid[b]));
    // the node's centred extent stays strictly inside its own pitch
    assert(spec_y_offset_of(mid[a]) + spec_node_dims(mid[a]).1 < spec_node_pitch(mid[a]));
    assert(spec_y_offset_of(mid[b]) >= 0);
}

/// The size of the largest layer run of a node list whose nodes are
/// visited in order — on a lane sorted by layer id, the most nodes any
/// layer holds.
pub fn find_max_nodes_in_layer(nodes: &Vec<Node>) -> (max: usize)
    requires
        nodes@.len() <= 1000,
    ensures
        max == spec_find_max_nodes(spec_layer_ids(nodes@)),
{
    let ghost ids = spec_layer_ids(nodes@);
    let n = nodes.len();
    let mut max: usize = 0;
    let mut cur_max: usize = 0;
    let mut current_layer_id: usize = 0;
    let mut i: usize = 0;
    while i < n
        invariant
            n == nodes@.len(),
            n <= 1000,
            ids == spec_layer_ids(nodes@),
            0 <= i <= n,
            max == spec_fmax_state(ids, i as int).0,
            cur_max == spec_fmax_state(ids, i as int).1,
            current_layer_id == spec_fmax_state(ids, i as int).2,
        decreases n - i,
    {
        proof {
            lemma_fmax_bounds(ids, i as int);
            lemma_fmax_bounds(ids, i as int + 1);
        }
        let l = match nodes[i].layer_id {
            Option::Some(v) => v,
            Option::None => 0,
        };
        if l != current_layer_id {
            current_layer_id = l;
            if cur_max > max {
                max = cur_max;
            }
            cur_max = 1;
        } else {
            cur_max = cur_max + 1;
        }
        i += 1;
    }
    // the final run counts too
    if cur_max > max {
        max = cur_max;
    }
    max
}

/// The width a non-empty lane asks for, from its last node's layer.
pub fn get_lane_width(lane: &Lane) -> (w: usize)
    requires
        lane.layers@.len() >= 1,
        match lane.layers@.last().layer_id {
            Option::Some(l) => l <= 10000,
            Option::None => true,
        },
    ensures
        w == spec_lane_width_of(*lane),
{
    let n = lane.layers.len();
    let last_layer = match lane.layers[n - 1].layer_id {
        Option::Some(v) => v,
        Option::None => 0,
    };
    if last_layer == 0 || last_layer == 1 {
        350
    } else {
        last_layer * 200
    }
}


/// Relates one pool across the stage: every lane sorted, positioned and
/// boxed, the pool's own box set from its block and the running offsets,
/// and every lane given the pool's settled width.
pub open spec fn spec_pool_placed(pre: Pool, post: Pool, posts: Seq<Pool>, pi: int) -> bool {
    let pb = spec_pools_block_upto(posts, pi);
    let lw = spec_pool_lane_width(post);
    &&& post.pool_name@ == pre.pool_name@
    &&& post.lanes@.len() == pre.lanes@.len()
    &&& post.height == Some((spec_pool_block(post)) as usize)
    &&& post.x == Some(100usize)
    &&& post.y == Some((100 + pb) as usize)
    &&& post.width == (if lw > (match pre.width {
        Option::Some(w) => w as int,
        Option::None => 0,
    }) {
        Some((lw + 30) as usize)
    } else {
        pre.width
    })
    &&& forall|li: int| 0 <= li < post.lanes@.len() ==> (#[trigger] post.lanes@[li]).width == Some(
        lw as usize,
    )
    &&& forall|li: int| 0 <= li < pre.lanes@.len() ==> spec_lane_placed(
        pre.lanes@[li],
        #[trigger] post.lanes@[li],
        150 + pb + spec_pool_block_upto(post, li),
        100 + pb + spec_pool_block_upto(post, li),
    )
}

/// Node bounds carried through a permutation: every node of `b` is a node
/// of `a`, so the per-node limits survive sorting.
proof fn lemma_multiset_node_bounds(a: Seq<Node>, b: Seq<Node>)
    requires
        a.to_multiset() == b.to_multiset(),
        forall|i: int| 0 <= i < a.len() ==> (match (#[trigger] a[i]).layer_id {
            Option::Some(l) => l <= 10000,
            Option::None => true,
        } && (match a[i].y {
            Option::Some(v) => v <= 100000000,
            Option::None => true,
        })),
    ensures
        forall|i: int| 0 <= i < b.len() ==> (match (#[trigger] b[i]).layer_id {
            Option::Some(l) => l <= 10000,
            Option::None => true,
        } && (match b[i].y {
            Option::Some(v) => v <= 100000000,
            Option::None => true,
        })),
{
    a.to_multiset_ensures();
    b.to_multiset_ensures();
    assert forall|i: int| 0 <= i < b.len() implies (match (#[trigger] b[i]).layer_id {
        Option::Some(l) => l <= 10000,
        Option::None => true,
    } && (match b[i].y {
        Option::Some(v) => v <= 100000000,
        Option::None => true,
    })) by {
        assert(b.contains(b[i]));
        assert(a.to_multiset().contains(b[i]));
        assert(a.contains(b[i]));
        let j = choose|j: int| 0 <= j < a.len() && a[j] == b[i];
        assert(a[j] == b[i]);
    }
}


/// Equal pool prefixes give equal running offsets.
proof fn lemma_pools_block_prefix_eq(a: Seq<Pool>, b: Seq<Pool>, q: int)
    requires
        0 <= q <= a.len(),
        q <= b.len(),
        forall|w: int| 0 <= w < q ==> a[w] == b[w],
    ensures
        spec_pools_block_upto(a, q) == spec_pools_block_upto(b, q),
    decreases q,
{
    if q > 0 {
        lemma_pools_block_prefix_eq(a, b, q - 1);
    }
}

/// Two pools whose first `li` lanes carry the same nodes have the same
/// running block and width prefixes: boxes do not influence them.
proof fn lemma_pool_prefix_eq(a: Pool, b: Pool, li: int)
    requires
        0 <= li <= a.lanes@.len(),
        li <= b.lanes@.len(),
        forall|w: int| 0 <= w < li ==> (#[trigger] a.lanes@[w]).layers == b.lanes@[w].layers,
    ensures
        spec_pool_block_upto(a, li) == spec_pool_block_upto(b, li),
        spec_pool_lane_width_upto(a, li) == spec_pool_lane_width_upto(b, li),
    decreases li,
{
    if li > 0 {
        lemma_pool_prefix_eq(a, b, li - 1);
        assert(spec_layer_ids(a.lanes@[li - 1].layers@) == spec_layer_ids(b.lanes@[li - 1].layers@));
    }
}

/// Converts (pool, lane, layer, in-layer rank) into absolute pixel
/// coordinates: lanes stack vertically within a pool, pools stack
/// vertically in the document, layers stack horizontally at a fixed
/// pitch, and nodes of one layer stack vertically at the node pitch, each
/// undersized node centred by a sub-offset. Lane and pool bounding boxes
/// are computed alongside.
#[verifier::rlimit(100)]
pub fn assign_xy_to_nodes(graph: &mut Graph)
    requires
        spec_positioning_limits(*old(graph)),
    ensures
        final(graph).edges == old(graph).edges,
        final(graph).last_node_id == old(graph).last_node_id,
        final(graph).pools@.len() == old(graph).pools@.len(),
        forall|pi: int| 0 <= pi < old(graph).pools@.len() ==> spec_pool_placed(
            old(graph).pools@[pi],
            #[trigger] final(graph).pools@[pi],
            final(graph).pools@,
            pi,
        ),
{
    let np = graph.pools.len();
    let mut node_position_y: usize = 150;
    let mut lane_position_y: usize = 100;
    let mut pool_position_y: usize = 100;
    let mut pi: usize = 0;
    while pi < np
        invariant
            spec_positioning_limits(*old(graph)),
            np == graph.pools@.len(),
            np == old(graph).pools@.len(),
            np <= 100,
            0 <= pi <= np,
            graph.edges == old(graph).edges,
            graph.last_node_id == old(graph).last_node_id,
            forall|q: int| pi <= q < np ==> #[trigger] graph.pools@[q] == old(graph).pools@[q],
            forall|q: int| 0 <= q < pi ==> spec_pool_placed(
                old(graph).pools@[q],
                #[trigger] graph.pools@[q],
                graph.pools@,
                q,
            ),
            node_position_y == 150 + spec_pools_block_upto(graph.pools@, pi as int),
            lane_position_y == 100 + spec_pools_block_upto(graph.pools@, pi as int),
            pool_position_y == 100 + spec_pools_block_upto(graph.pools@, pi as int),
            spec_pools_block_upto(graph.pools@, pi as int) <= pi * 10008000,
        decreases np - pi,
    {
        let ghost pools0 = graph.pools@;
        let ghost pre_pool = graph.pools@[pi as int];
        let ghost pb = spec_pools_block_upto(graph.pools@, pi as int);
        let nl = graph.pools[pi].lanes.len();
        let mut pool_height: usize = 0;
        let mut lane_width: usize = 0;
        let mut li: usize = 0;
        while li < nl
            invariant
                np == graph.pools@.len(),
                np <= 100,
                0 <= pi < np,
                graph.edges == old(graph).edges,
                graph.last_node_id == old(graph).last_node_id,
                pools0.len() == np,
                pre_pool == pools0[pi as int],
                nl == pre_pool.lanes@.len(),
                nl <= 100,
                0 <= li <= nl,
                forall|a: int, b: int|
                    0 <= a < nl && 0 <= b < (#[trigger] pre_pool.lanes@[a]).layers@.len()
                        ==> (match (#[trigger] pre_pool.lanes@[a].layers@[b]).layer_id {
                        Option::Some(l) => l <= 10000,
                        Option::None => true,
                    } && (match pre_pool.lanes@[a].layers@[b].y {
                        Option::Some(v) => v <= 100000000,
                        Option::None => true,
                    })),
                forall|a: int| 0 <= a < nl ==> (#[trigger] pre_pool.lanes@[a]).layers@.len() <= 1000,
                forall|q: int| 0 <= q < np && q != pi ==> #[trigger] graph.pools@[q] == pools0[q],
                graph.pools@[pi as int].pool_name@ == pre_pool.pool_name@,
                graph.pools@[pi as int].x == pre_pool.x,
                graph.pools@[pi as int].y == pre_pool.y,
                graph.pools@[pi as int].width == pre_pool.width,
                graph.pools@[pi as int].height == pre_pool.height,
                graph.pools@[pi as int].lanes@.len() == nl,
                forall|a: int| li <= a < nl ==> #[trigger] graph.pools@[pi as int].lanes@[a]
                    == pre_pool.lanes@[a],
                forall|a: int| 0 <= a < li ==> spec_lane_placed(
                    pre_pool.lanes@[a],
                    #[trigger] graph.pools@[pi as int].lanes@[a],
                    150 + pb + spec_pool_block_upto(graph.pools@[pi as int], a),
                    100 + pb + spec_pool_block_upto(graph.pools@[pi as int], a),
                ),
                pool_height == spec_pool_block_upto(graph.pools@[pi as int], li as int),
                pool_height <= li * 100080,
                lane_width == spec_pool_lane_width_upto(graph.pools@[pi as int], li as int),
                lane_width <= 2000350,
                pb <= pi * 10008000,
                node_position_y == 150 + pb + pool_height,
                lane_position_y == 100 + pb + pool_height,
            decreases nl - li,
        {
            let ghost pool_a = graph.pools@[pi as int];
            {
                let pool_ref = &mut graph.pools[pi];
                let lane_ref = &mut pool_ref.lanes[li];
                lane_ref.sort_nodes_by_layer_id();
            }
            let ghost mid = graph.pools@[pi as int].lanes@[li as int].layers@;
            proof {
                pre_pool.lanes@[li as int].layers@.to_multiset_ensures();
                mid.to_multiset_ensures();
                assert(mid.len() == pre_pool.lanes@[li as int].layers@.len());
                lemma_multiset_node_bounds(pre_pool.lanes@[li as int].layers@, mid);
            }
            let max_nodes = find_max_nodes_in_layer(graph.pools[pi].lanes[li].get_layers());
            proof {
                lemma_fmax_bounds(spec_layer_ids(mid), mid.len() as int);
            }
            let max_h: usize = max_nodes * 100 + 80;
            pool_height = pool_height + max_h;
            {
                let pool_ref = &mut graph.pools[pi];
                let lane_ref = &mut pool_ref.lanes[li];
                lane_ref.set_height(max_h);
            }
            if graph.pools[pi].lanes[li].layers.len() > 0 {
                let nlw = get_lane_width(&graph.pools[pi].lanes[li]);
                if nlw > lane_width {
                    lane_width = nlw;
                }
            }
            let base = node_position_y;
            let n = graph.pools[pi].lanes[li].layers.len();
            let ghost pool_b = graph.pools@[pi as int];
            let mut counts: Vec<usize> = vec![0; n];
            let mut ni: usize = 0;
            while ni < n
                invariant
                    np == graph.pools@.len(),
                    0 <= pi < np,
                    0 <= li < nl,
                    graph.edges == old(graph).edges,
                    graph.last_node_id == old(graph).last_node_id,
                    graph.pools@[pi as int].lanes@.len() == nl,
                    n == mid.len(),
                    n <= 1000,
                    graph.pools@[pi as int].lanes@[li as int].layers@.len() == n,
                    0 <= ni <= n,
                    base <= 1200000000,
                    counts@.len() == n,
                    forall|l: int| 0 <= l < n ==> #[trigger] counts@[l] == spec_offset_before(
                        mid,
                        l as usize,
                        ni as int,
                    ),
                    forall|j: int| ni <= j < n ==> #[trigger] graph.pools@[pi as int].lanes@[li as int].layers@[j]
                        == mid[j],
                    forall|j: int| 0 <= j < ni ==> #[trigger] spec_node_positioned(
                        mid,
                        graph.pools@[pi as int].lanes@[li as int].layers@,
                        j,
                        base as int,
                    ),
                    forall|j: int| 0 <= j < n ==> (match (#[trigger] mid[j]).y {
                        Option::Some(v) => v <= 100000000,
                        Option::None => true,
                    }),
                    forall|q: int| 0 <= q < np && q != pi ==> #[trigger] graph.pools@[q] == pools0[q],
                    graph.pools@[pi as int].pool_name@ == pool_b.pool_name@,
                    graph.pools@[pi as int].x == pool_b.x,
                    graph.pools@[pi as int].y == pool_b.y,
                    graph.pools@[pi as int].width == pool_b.width,
                    graph.pools@[pi as int].height == pool_b.height,
                    forall|a: int| 0 <= a < nl && a != li ==> #[trigger] graph.pools@[pi as int].lanes@[a]
                        == pool_b.lanes@[a],
                    graph.pools@[pi as int].lanes@[li as int].lane@ == pool_b.lanes@[li as int].lane@,
                    graph.pools@[pi as int].lanes@[li as int].x == pool_b.lanes@[li as int].x,
                    graph.pools@[pi as int].lanes@[li as int].y == pool_b.lanes@[li as int].y,
                    graph.pools@[pi as int].lanes@[li as int].width == pool_b.lanes@[li as int].width,
                    graph.pools@[pi as int].lanes@[li as int].height == pool_b.lanes@[li as int].height,
                decreases n - ni,
            {
                let ghost layers_pre = graph.pools@[pi as int].lanes@[li as int].layers@;
                proof {
                    lemma_offset_before_bounds(mid, spec_effective_layer(mid[ni as int]), ni as int);
                    assert(layers_pre[ni as int] == mid[ni as int]);
                }
                let node_eff: usize = match graph.pools[pi].lanes[li].layers[ni].layer_id {
                    Option::Some(l) => l,
                    Option::None => 0,
                };
                proof {
                    assert(node_eff == spec_effective_layer(mid[ni as int]));
                }
                if node_eff < n {
                    let dims: (usize, usize) = match &graph.pools[pi].lanes[li].layers[ni].event {
                        Option::Some(e) => crate::common::bpmn_event::get_node_size(e),
                        Option::None => (100, 80),
                    };
                    let y_off: usize = if dims.1 < 80 {
                        (80 - dims.1) / 2
                    } else {
                        0
                    };
                    let x_off: usize = if dims.0 < 100 {
                        (100 - dims.0) / 2
                    } else {
                        0
                    };
                    let pitch: usize = if dims.1 + 20 > 100 {
                        dims.1 + 20
                    } else {
                        100
                    };
                    proof {
                        assert(pitch == spec_node_pitch(mid[ni as int]));
                    }
                    let cnt = counts[node_eff];
                    let y: usize = match graph.pools[pi].lanes[li].layers[ni].y {
                        Option::Some(v) => v,
                        Option::None => base + cnt,
                    };
                    let x: usize = 180 + node_eff * 150;
                    {
                        let pool_ref = &mut graph.pools[pi];
                        let lane_ref = &mut pool_ref.lanes[li];
                        let node_ref = &mut lane_ref.layers[ni];
                        node_ref.set_position(x, y, x_off, y_off);
                    }
                    counts[node_eff] = cnt + pitch;
                    proof {
                        assert(graph.pools@[pi as int].lanes@[li as int].layers@ == layers_pre.update(
                            ni as int,
                            graph.pools@[pi as int].lanes@[li as int].layers@[ni as int],
                        ));
                    }
                }
                proof {
                    assert forall|l: int| 0 <= l < n implies #[trigger] counts@[l]
                        == spec_offset_before(mid, l as usize, ni as int + 1) by {
                    }
                    assert(spec_node_positioned(
                        mid,
                        graph.pools@[pi as int].lanes@[li as int].layers@,
                        ni as int,
                        base as int,
                    ));
                    assert forall|j: int| 0 <= j < ni implies #[trigger] spec_node_positioned(
                        mid,
                        graph.pools@[pi as int].lanes@[li as int].layers@,
                        j,
                        base as int,
                    ) by {
                        assert(graph.pools@[pi as int].lanes@[li as int].layers@[j] == layers_pre[j]);
                        assert(spec_node_positioned(mid, layers_pre, j, base as int));
                    }
                }
                ni += 1;
            }
            node_position_y = node_position_y + max_h;
            {
                let lp = lane_position_y;
                let pool_ref = &mut graph.pools[pi];
                let lane_ref = &mut pool_ref.lanes[li];
                lane_ref.set_position(130, lp);
            }
            lane_position_y = lane_position_y + max_h;
            proof {
                let pool_c = graph.pools@[pi as int];
                let post_lane = pool_c.lanes@[li as int];
                assert forall|j: int| 0 <= j < mid.len() implies #[trigger] post_lane.layers@[j].layer_id
                    == mid[j].layer_id by {
                    assert(spec_node_positioned(mid, post_lane.layers@, j, base as int));
                }
                assert(spec_layer_ids(post_lane.layers@) =~= spec_layer_ids(mid));
                assert(spec_lane_block(post_lane) == spec_find_max_nodes(spec_layer_ids(mid)) * 100
                    + 80);
                // running prefixes carry over from the pool at iteration
                // entry, whose lanes below li are untouched
                lemma_pool_prefix_eq(pool_c, pool_a, li as int);
                assert(spec_pool_block_upto(pool_c, li as int + 1) == spec_pool_block_upto(
                    pool_c,
                    li as int,
                ) + spec_lane_block(post_lane));
                assert(mid.to_multiset() == pre_pool.lanes@[li as int].layers@.to_multiset()
                    && spec_sorted_by_layer(mid) && spec_lane_positioned(
                    mid,
                    post_lane.layers@,
                    (base as int),
                ));
                assert(spec_lane_placed(
                    pre_pool.lanes@[li as int],
                    post_lane,
                    150 + pb + spec_pool_block_upto(pool_c, li as int),
                    100 + pb + spec_pool_block_upto(pool_c, li as int),
                ));
                assert forall|a: int| 0 <= a < li implies spec_lane_placed(
                    pre_pool.lanes@[a],
                    #[trigger] pool_c.lanes@[a],
                    150 + pb + spec_pool_block_upto(pool_c, a),
                    100 + pb + spec_pool_block_upto(pool_c, a),
                ) by {
                    lemma_pool_prefix_eq(pool_c, pool_a, a);
                    assert(pool_c.lanes@[a] == pool_a.lanes@[a]);
                }
                // width prefix
                if post_lane.layers@.len() > 0 {
                    assert(spec_lane_width_of(post_lane) == spec_lane_width_of(
                        pool_c.lanes@[li as int],
                    ));
                }
            }
            li += 1;
        }
        let pw: usize = match graph.pools[pi].width {
            Option::Some(w) => w,
            Option::None => 0,
        };
        let ghost pool_end = graph.pools@[pi as int];
        if lane_width > pw {
            let w2 = lane_width + 30;
            let pool_ref = &mut graph.pools[pi];
            pool_ref.set_width(w2);
        }
        {
            let ph = pool_height;
            let pool_ref = &mut graph.pools[pi];
            pool_ref.set_height(ph);
        }
        {
            let py = pool_position_y;
            let pool_ref = &mut graph.pools[pi];
            pool_ref.set_position(100, py);
        }
        pool_position_y = pool_position_y + pool_height;
        {
            let lw = lane_width;
            let pool_ref = &mut graph.pools[pi];
            pool_ref.set_lane_width(lw);
        }
        proof {
            let post_pool = graph.pools@[pi as int];
            assert(post_pool.lanes@.len() == nl);
            assert forall|a: int| 0 <= a < nl implies (#[trigger] post_pool.lanes@[a]).layers
                == pool_end.lanes@[a].layers by {
            }
            lemma_pool_prefix_eq(post_pool, pool_end, nl as int);
            assert(spec_pool_block(post_pool) == pool_height);
            assert(spec_pool_lane_width(post_pool) == lane_width);
            assert forall|a: int| 0 <= a < nl implies spec_lane_placed(
                pre_pool.lanes@[a],
                #[trigger] post_pool.lanes@[a],
                150 + pb + spec_pool_block_upto(post_pool, a),
                100 + pb + spec_pool_block_upto(post_pool, a),
            ) by {
                lemma_pool_prefix_eq(post_pool, pool_end, a);
                assert(spec_lane_placed(
                    pre_pool.lanes@[a],
                    pool_end.lanes@[a],
                    150 + pb + spec_pool_block_upto(pool_end, a),
                    100 + pb + spec_pool_block_upto(pool_end, a),
                ));
                assert(post_pool.lanes@[a] == (crate::common::lane::Lane {
                    width: Some(lane_width),
                    ..pool_end.lanes@[a]
                }));
            }
            lemma_pools_block_prefix_eq(graph.pools@, pools0, pi as int);
            assert(spec_pools_block_upto(graph.pools@, pi as int) == pb);
            assert(spec_pool_placed(
                old(graph).pools@[pi as int],
                post_pool,
                graph.pools@,
                pi as int,
            ));
            // earlier pools and the running offsets are untouched by this
            // pool's pass
            assert forall|q: int| 0 <= q < pi implies spec_pool_placed(
                old(graph).pools@[q],
                #[trigger] graph.pools@[q],
                graph.pools@,
                q,
            ) by {
                assert(graph.pools@[q] == pools0[q]);
                lemma_pools_block_prefix_eq(graph.pools@, pools0, q);
                assert(spec_pool_placed(old(graph).pools@[q], pools0[q], pools0, q));
            }
            lemma_pools_block_prefix_eq(graph.pools@, pools0, pi as int);
            assert(spec_pools_block_upto(graph.pools@, pi as int + 1) == pb + pool_height);
        }
        pi += 1;
    }
}
} // verus!
