pub mod common;
pub mod layout;
pub mod lexer;
pub mod parser;
pub mod to_xml;

use vstd::prelude::*;
use crate::common::edge::Edge;
use crate::common::graph::Graph;
use crate::common::lane::{Lane, spec_effective_layer};
use crate::common::node::Node;
use crate::common::pool::Pool;
use crate::layout::LayoutError;
use crate::layout::assign_bend_points::{
    assign_bend_points,
    spec_diag_witnessed,
    spec_edge_routed,
    spec_edge_unroutable,
    spec_has_placed,
    spec_placed,
    spec_routing_limits,
};
use crate::layout::crossing_minimization::{reduce_crossings, spec_lane_aligned, spec_pool_aligned};
use crate::layout::node_positioning::{
    assign_xy_to_nodes,
    spec_lane_placed,
    lemma_offset_before_bounds,
    lemma_multiset_fresh_nodes,
    lemma_node_dims_bounds,
    lemma_pool_block_upto_bounds,
    lemma_pools_block_upto_bounds,
    spec_node_positioned,
    spec_pool_block_upto,
    spec_pool_placed,
    spec_pools_block_upto,
    spec_positioning_limits,
    spec_x_offset_of,
    spec_y_offset_of,
};
use crate::layout::solve_layer_assignment::{
    solve_layer_assignment,
    spec_ids_of,
    spec_lane_assigned,
    spec_lane_feasible,
    spec_layer_error_named,
    spec_marked_nodes,
    spec_lane_layer_vals,
    spec_pool_assigned,
    spec_with_layers,
};

verus! {

/// What a full layout pass reports: the lanes whose layer program was
/// infeasible (those lanes stay unassigned) and the edges that admitted no
/// route (those edges stay unrouted). Everything else in the graph carries
/// final coordinates and waypoints.
pub struct LayoutReport {
    pub infeasible_lanes: Vec<LayoutError>,
    pub unrouted_edges: Vec<(usize, usize)>,
}

/// The input the pipeline asks for: a freshly parsed graph — bounded
/// pool, lane and node counts, and no layer ids or y positions assigned
/// yet (the parser never sets them; the pipeline does).
pub open spec fn spec_pipeline_limits(graph: Graph) -> bool {
    &&& graph.pools@.len() <= 100
    &&& forall|pi: int| 0 <= pi < graph.pools@.len() ==> (#[trigger] graph.pools@[pi]).lanes@.len()
        <= 100
    &&& forall|pi: int, li: int|
        0 <= pi < graph.pools@.len() && 0 <= li < (#[trigger] graph.pools@[pi]).lanes@.len() ==> (
        #[trigger] graph.pools@[pi].lanes@[li]).layers@.len() <= 1000
    &&& forall|pi: int, li: int, ni: int|
        0 <= pi < graph.pools@.len() && 0 <= li < (#[trigger] graph.pools@[pi]).lanes@.len() && 0
            <= ni < (#[trigger] graph.pools@[pi].lanes@[li]).layers@.len() ==> (
        #[trigger] graph.pools@[pi].lanes@[li].layers@[ni]).layer_id is None
            && graph.pools@[pi].lanes@[li].layers@[ni].y is None
}

/// A node whose layer is unset or bounded and whose y is still unset:
/// what each stage up to coordinate assignment hands onward.
pub open spec fn spec_node_fresh(n: Node, bound: int) -> bool {
    &&& (match n.layer_id {
        Option::Some(l) => l <= bound,
        Option::None => true,
    })
    &&& n.y is None
}

/// One node within the routing limits; mirrors the per-node clause of the
/// routing stage's limits.
pub open spec fn spec_node_within_routing(n: Node) -> bool {
    spec_placed(n) ==> {
        &&& n.x->0 <= 0x4000_0000
        &&& n.y->0 <= 0x4000_0000
        &&& n.x_offset->0 <= 0x10_0000
        &&& n.y_offset->0 <= 0x10_0000
        &&& n.x->0 + n.x_offset->0 >= 20
        &&& n.y->0 + n.y_offset->0 >= 20
    }
}

/// The three in-place stages the pipeline chains before routing: layer
/// assignment took the parsed pools to `mid1`, crossing minimization took
/// them to `mid2`, and coordinate assignment took them to `post` (which
/// routing then leaves untouched).
pub open spec fn spec_pipeline_stages(
    pre: Seq<Pool>,
    mid1: Seq<Pool>,
    mid2: Seq<Pool>,
    post: Seq<Pool>,
    edges: Seq<Edge>,
) -> bool {
    &&& mid1.len() == pre.len()
    &&& mid2.len() == pre.len()
    &&& post.len() == pre.len()
    &&& forall|pi: int| 0 <= pi < pre.len() ==> spec_pool_assigned(
        pre[pi],
        #[trigger] mid1[pi],
        edges,
    )
    &&& forall|pi: int| 0 <= pi < pre.len() ==> spec_pool_aligned(mid1[pi], #[trigger] mid2[pi], edges)
    &&& forall|pi: int| 0 <= pi < pre.len() ==> spec_pool_placed(mid2[pi], #[trigger] post[pi], post, pi)
}

/// Layer assignment keeps the lane shapes and hands on fresh nodes whose
/// layers stay within the lane's node count.
proof fn lemma_assigned_pool_fresh(pre: Pool, post: Pool, edges: Seq<Edge>)
    requires
        spec_pool_assigned(pre, post, edges),
        pre.lanes@.len() <= 100,
        forall|li: int| 0 <= li < pre.lanes@.len() ==> (#[trigger] pre.lanes@[li]).layers@.len()
            <= 1000,
        forall|li: int, ni: int|
            0 <= li < pre.lanes@.len() && 0 <= ni < (#[trigger] pre.lanes@[li]).layers@.len() ==> (
            #[trigger] pre.lanes@[li].layers@[ni]).layer_id is None && pre.lanes@[li].layers@[ni].y
                is None,
    ensures
        post.lanes@.len() == pre.lanes@.len(),
        forall|li: int| 0 <= li < post.lanes@.len() ==> (#[trigger] post.lanes@[li]).layers@.len()
            == pre.lanes@[li].layers@.len(),
        forall|li: int, ni: int|
            0 <= li < post.lanes@.len() && 0 <= ni < (#[trigger] post.lanes@[li]).layers@.len()
                ==> spec_node_fresh(#[trigger] post.lanes@[li].layers@[ni], 1000),
{
    assert forall|li: int| 0 <= li < post.lanes@.len() implies (#[trigger] post.lanes@[li]).layers@.len()
        == pre.lanes@[li].layers@.len() && (forall|ni: int|
        0 <= ni < post.lanes@[li].layers@.len() ==> spec_node_fresh(
            #[trigger] post.lanes@[li].layers@[ni],
            1000,
        )) by {
        let marked = spec_marked_nodes(pre, li, edges);
        assert(marked.len() == pre.lanes@[li].layers@.len());
        assert forall|ni: int| 0 <= ni < marked.len() implies spec_node_fresh(
            #[trigger] marked[ni],
            1000,
        ) by {
            assert(pre.lanes@[li].layers@[ni].layer_id is None);
        }
        let ids = spec_ids_of(marked);
        if spec_lane_layer_vals(ids, edges) is Some {
            let vals = spec_lane_layer_vals(ids, edges)->0;
            let withl = spec_with_layers(marked, vals);
            assert forall|ni: int| 0 <= ni < withl.len() implies spec_node_fresh(
                #[trigger] withl[ni],
                1000,
            ) by {
                assert(vals[ni] <= marked.len());
            }
            assert forall|ni: int| 0 <= ni < withl.len() implies (match (
            #[trigger] withl[ni]).layer_id {
                Option::Some(l) => l <= 1000,
                Option::None => true,
            } && withl[ni].y is None) by {
                assert(spec_node_fresh(withl[ni], 1000));
            }
            lemma_multiset_fresh_nodes(withl, post.lanes@[li].layers@, 1000);
            assert forall|ni: int| 0 <= ni < post.lanes@[li].layers@.len() implies spec_node_fresh(
                #[trigger] post.lanes@[li].layers@[ni],
                1000,
            ) by {
            }
        } else {
            assert(post.lanes@[li].layers@ == marked);
        }
    }
}

/// Crossing minimization changes nothing the later stages' limits read.
proof fn lemma_aligned_pool_fresh(pre: Pool, post: Pool, edges: Seq<Edge>)
    requires
        spec_pool_aligned(pre, post, edges),
        forall|li: int, ni: int|
            0 <= li < pre.lanes@.len() && 0 <= ni < (#[trigger] pre.lanes@[li]).layers@.len()
                ==> spec_node_fresh(#[trigger] pre.lanes@[li].layers@[ni], 1000),
    ensures
        post.lanes@.len() == pre.lanes@.len(),
        forall|li: int| 0 <= li < post.lanes@.len() ==> (#[trigger] post.lanes@[li]).layers@.len()
            == pre.lanes@[li].layers@.len(),
        forall|li: int, ni: int|
            0 <= li < post.lanes@.len() && 0 <= ni < (#[trigger] post.lanes@[li]).layers@.len()
                ==> spec_node_fresh(#[trigger] post.lanes@[li].layers@[ni], 1000),
{
    assert forall|li: int, ni: int|
        0 <= li < post.lanes@.len() && 0 <= ni < (#[trigger] post.lanes@[li]).layers@.len()
            implies spec_node_fresh(#[trigger] post.lanes@[li].layers@[ni], 1000) by {
        assert(spec_node_fresh(pre.lanes@[li].layers@[ni], 1000));
    }
}

/// Coordinate assignment keeps the lane shapes.
proof fn lemma_placed_pool_lens(pre: Pool, post: Pool, posts: Seq<Pool>, pi: int)
    requires
        spec_pool_placed(pre, post, posts, pi),
    ensures
        post.lanes@.len() == pre.lanes@.len(),
        forall|li: int| 0 <= li < post.lanes@.len() ==> (#[trigger] post.lanes@[li]).layers@.len()
            == pre.lanes@[li].layers@.len(),
{
    assert forall|li: int| 0 <= li < post.lanes@.len() implies (#[trigger] post.lanes@[li]).layers@.len()
        == pre.lanes@[li].layers@.len() by {
        let base = 150 + spec_pools_block_upto(posts, pi) + spec_pool_block_upto(post, li);
        let mid = choose|mid: Seq<Node>|
            {
                &&& #[trigger] mid.to_multiset() == pre.lanes@[li].layers@.to_multiset()
                &&& crate::common::lane::spec_sorted_by_layer(mid)
                &&& crate::layout::node_positioning::spec_lane_positioned(
                    mid,
                    post.lanes@[li].layers@,
                    base,
                )
            };
        mid.to_multiset_ensures();
        pre.lanes@[li].layers@.to_multiset_ensures();
    }
}

/// Coordinate assignment on fresh, bounded input places every node within
/// the routing limits.
proof fn lemma_placed_pool_routing(pre: Pool, posts: Seq<Pool>, pi: int)
    requires
        0 <= pi < posts.len(),
        posts.len() <= 100,
        forall|q: int| 0 <= q < posts.len() ==> (#[trigger] posts[q]).lanes@.len() <= 100,
        forall|q: int, a: int|
            0 <= q < posts.len() && 0 <= a < (#[trigger] posts[q]).lanes@.len() ==> (
            #[trigger] posts[q].lanes@[a]).layers@.len() <= 1000,
        spec_pool_placed(pre, posts[pi], posts, pi),
        forall|li: int, ni: int|
            0 <= li < pre.lanes@.len() && 0 <= ni < (#[trigger] pre.lanes@[li]).layers@.len()
                ==> spec_node_fresh(#[trigger] pre.lanes@[li].layers@[ni], 1000),
    ensures
        forall|li: int, ni: int|
            0 <= li < posts[pi].lanes@.len() && 0 <= ni < (#[trigger] posts[pi].lanes@[li]).layers@.len()
                ==> spec_node_within_routing(#[trigger] posts[pi].lanes@[li].layers@[ni]),
{
    let post = posts[pi];
    lemma_placed_pool_lens(pre, post, posts, pi);
    assert forall|li: int, ni: int|
        0 <= li < post.lanes@.len() && 0 <= ni < (#[trigger] post.lanes@[li]).layers@.len()
            implies spec_node_within_routing(#[trigger] post.lanes@[li].layers@[ni]) by {
        let base = 150 + spec_pools_block_upto(posts, pi) + spec_pool_block_upto(post, li);
        let mid = choose|mid: Seq<Node>|
            {
                &&& #[trigger] mid.to_multiset() == pre.lanes@[li].layers@.to_multiset()
                &&& crate::common::lane::spec_sorted_by_layer(mid)
                &&& crate::layout::node_positioning::spec_lane_positioned(
                    mid,
                    post.lanes@[li].layers@,
                    base,
                )
            };
        mid.to_multiset_ensures();
        pre.lanes@[li].layers@.to_multiset_ensures();
        assert(mid.len() == pre.lanes@[li].layers@.len());
        assert forall|j: int| 0 <= j < pre.lanes@[li].layers@.len() implies (match (
        #[trigger] pre.lanes@[li].layers@[j]).layer_id {
            Option::Some(l) => l <= 1000,
            Option::None => true,
        } && pre.lanes@[li].layers@[j].y is None) by {
            assert(spec_node_fresh(pre.lanes@[li].layers@[j], 1000));
        }
        lemma_multiset_fresh_nodes(pre.lanes@[li].layers@, mid, 1000);
        assert(spec_node_positioned(mid, post.lanes@[li].layers@, ni, base));
        lemma_pools_block_upto_bounds(posts, pi);
        lemma_pool_block_upto_bounds(post, li);
        let l = spec_effective_layer(mid[ni]);
        if l < mid.len() {
            assert(mid[ni].y is None) by {
                assert((match mid[ni].layer_id {
                    Option::Some(v) => v <= 1000,
                    Option::None => true,
                }) && mid[ni].y is None);
            }
            lemma_offset_before_bounds(mid, l, ni);
            lemma_node_dims_bounds(mid[ni]);
            let n = post.lanes@[li].layers@[ni];
            assert(l <= 1000) by {
                assert((match mid[ni].layer_id {
                    Option::Some(v) => v <= 1000,
                    Option::None => true,
                }) && mid[ni].y is None);
            }
            assert(n.x->0 == 180 + l * 150);
            assert(n.x->0 <= 150180);
            assert(base <= 150 + 99 * 10008000 + 100 * 100080);
            assert(n.y->0 <= base + 220 * 1000);
            assert(n.y->0 <= 0x4000_0000);
            assert(n.x_offset->0 == spec_x_offset_of(mid[ni]));
            assert(n.y_offset->0 == spec_y_offset_of(mid[ni]));
            assert(n.x_offset->0 <= 50);
            assert(n.y_offset->0 <= 40);
            assert(n.y->0 >= 150);
            assert(spec_node_within_routing(n));
        } else {
            assert(post.lanes@[li].layers@[ni] == mid[ni]);
            assert(mid[ni].y is None) by {
                assert((match mid[ni].layer_id {
                    Option::Some(v) => v <= 1000,
                    Option::None => true,
                }) && mid[ni].y is None);
            }
            assert(!spec_placed(mid[ni]));
        }
    }
}

/// Layer ids set and bounded, carried through a permutation: every node
/// of `b` is a node of `a`.
proof fn lemma_multiset_layers_set(a: Seq<Node>, b: Seq<Node>, n: int)
    requires
        a.to_multiset() == b.to_multiset(),
        forall|i: int|
            0 <= i < a.len() ==> (#[trigger] a[i]).layer_id is Some && a[i].layer_id->0 < n,
    ensures
        forall|i: int|
            0 <= i < b.len() ==> (#[trigger] b[i]).layer_id is Some && b[i].layer_id->0 < n,
{
    a.to_multiset_ensures();
    b.to_multiset_ensures();
    assert forall|i: int|
        0 <= i < b.len() implies (#[trigger] b[i]).layer_id is Some && b[i].layer_id->0 < n by {
        assert(b.contains(b[i]));
        assert(a.to_multiset().contains(b[i]));
        assert(a.contains(b[i]));
        let j = choose|j: int| 0 <= j < a.len() && a[j] == b[i];
        assert(a[j] == b[i]);
    }
}

/// On a feasible lane, layer assignment gives every node a layer id
/// strictly below the lane's node count.
proof fn lemma_feasible_lane_layers(old_pool: Pool, post: Lane, li: int, edges: Seq<Edge>)
    requires
        0 <= li < old_pool.lanes@.len(),
        spec_lane_assigned(old_pool, post, li, edges),
        spec_lane_feasible(old_pool, li, edges),
    ensures
        post.layers@.len() == old_pool.lanes@[li].layers@.len(),
        forall|i: int|
            0 <= i < post.layers@.len() ==> (#[trigger] post.layers@[i]).layer_id is Some
                && post.layers@[i].layer_id->0 < post.layers@.len(),
{
    let marked = spec_marked_nodes(old_pool, li, edges);
    let ids = spec_ids_of(marked);
    let vals = spec_lane_layer_vals(ids, edges)->0;
    let with = spec_with_layers(marked, vals);
    assert(ids.len() == marked.len());
    assert(vals.len() == marked.len());
    assert forall|i: int|
        0 <= i < with.len() implies (#[trigger] with[i]).layer_id is Some && with[i].layer_id->0
            < post.layers@.len() by {
        assert(with[i].layer_id == Some(vals[i]));
        assert(vals[i] < marked.len());
    }
    lemma_multiset_layers_set(with, post.layers@, post.layers@.len() as int);
}

/// Runs the whole layout pipeline on a freshly parsed graph: layer
/// assignment, crossing minimization, coordinate assignment and edge
/// routing, each stage mutating the shared graph before the next begins.
/// Per-lane and per-edge failures are collected in the report while the
/// rest of the graph still completes; only an edge endpoint that resolves
/// to no placed node aborts.
pub fn perform_layout(graph: &mut Graph) -> (r: Result<LayoutReport, LayoutError>)
    requires
        spec_pipeline_limits(*old(graph)),
    ensures
        match r {
            Ok(report) => {
                &&& final(graph).edges@.len() == old(graph).edges@.len()
                &&& final(graph).last_node_id == old(graph).last_node_id
                &&& exists|mid1: Seq<Pool>, mid2: Seq<Pool>| spec_pipeline_stages(
                    old(graph).pools@,
                    mid1,
                    mid2,
                    final(graph).pools@,
                    old(graph).edges@,
                )
                &&& ((report.infeasible_lanes@.len() == 0) <==> (forall|pi: int, li: int|
                    0 <= pi < old(graph).pools@.len() && 0 <= li < old(graph).pools@[pi].lanes@.len()
                        ==> #[trigger] spec_lane_feasible(
                        old(graph).pools@[pi],
                        li,
                        old(graph).edges@,
                    )))
                &&& forall|j: int|
                    0 <= j < report.infeasible_lanes@.len() ==> spec_layer_error_named(
                        old(graph).pools@,
                        old(graph).edges@,
                        #[trigger] report.infeasible_lanes@[j],
                    )
                &&& report.infeasible_lanes@.len() == 0 ==> forall|pi: int, li: int, ni: int|
                    0 <= pi < final(graph).pools@.len() && 0 <= li
                        < (#[trigger] final(graph).pools@[pi]).lanes@.len() && 0 <= ni
                        < (#[trigger] final(graph).pools@[pi].lanes@[li]).layers@.len()
                        ==> spec_placed(#[trigger] final(graph).pools@[pi].lanes@[li].layers@[ni])
                &&& forall|k: int|
                    0 <= k < old(graph).edges@.len()
                        ==> ((#[trigger] final(graph).edges@[k]).adjusted_points matches Some(pts)
                        && spec_edge_routed(
                        final(graph).pools@,
                        old(graph).edges@[k].from,
                        old(graph).edges@[k].to,
                        pts@,
                    )) || report.unrouted_edges@.contains(
                        (old(graph).edges@[k].from, old(graph).edges@[k].to),
                    )
                &&& forall|j: int|
                    0 <= j < report.unrouted_edges@.len() ==> spec_diag_witnessed(
                        old(graph).edges@,
                        final(graph).edges@,
                        #[trigger] report.unrouted_edges@[j],
                    )
                &&& forall|j: int|
                    0 <= j < report.unrouted_edges@.len() ==> spec_edge_unroutable(
                        final(graph).pools@,
                        (#[trigger] report.unrouted_edges@[j]).0,
                        report.unrouted_edges@[j].1,
                    )
            },
            Err(e) => (e matches LayoutError::MissingNode(_)) || (e
                matches LayoutError::UnplacedNode(_)),
        },
        (r is Ok) <==> (forall|k: int|
            0 <= k < old(graph).edges@.len() ==> spec_has_placed(
                final(graph).pools@,
                (#[trigger] old(graph).edges@[k]).from,
            ) && spec_has_placed(final(graph).pools@, old(graph).edges@[k].to)),
{
    let ghost p0 = old(graph).pools@;
    // layer assignment, lane by lane; infeasible lanes are collected
    proof {
        assert forall|pi: int, li: int|
            0 <= pi < graph.pools@.len() && 0 <= li < (#[trigger] graph.pools@[pi]).lanes@.len()
                implies (#[trigger] graph.pools@[pi].lanes@[li]).layers@.len() <= 0x7fff_ffff by {
        }
    }
    let infeasible_lanes = solve_layer_assignment(graph);
    let ghost p1 = graph.pools@;
    proof {
        assert forall|pi: int| 0 <= pi < p1.len() implies (#[trigger] p1[pi]).lanes@.len()
            == p0[pi].lanes@.len() && (forall|li: int|
            0 <= li < p1[pi].lanes@.len() ==> (#[trigger] p1[pi].lanes@[li]).layers@.len()
                == p0[pi].lanes@[li].layers@.len()) && (forall|li: int, ni: int|
            0 <= li < p1[pi].lanes@.len() && 0 <= ni < p1[pi].lanes@[li].layers@.len()
                ==> spec_node_fresh(#[trigger] p1[pi].lanes@[li].layers@[ni], 1000)) by {
            lemma_assigned_pool_fresh(p0[pi], p1[pi], old(graph).edges@);
        }
    }
    // crossing minimization within each lane
    {
        let pools_ref = &mut graph.pools;
        reduce_crossings(pools_ref, &graph.edges);
    }
    let ghost p2 = graph.pools@;
    proof {
        assert forall|pi: int| 0 <= pi < p2.len() implies (#[trigger] p2[pi]).lanes@.len()
            == p1[pi].lanes@.len() && (forall|li: int|
            0 <= li < p2[pi].lanes@.len() ==> (#[trigger] p2[pi].lanes@[li]).layers@.len()
                == p1[pi].lanes@[li].layers@.len()) && (forall|li: int, ni: int|
            0 <= li < p2[pi].lanes@.len() && 0 <= ni < p2[pi].lanes@[li].layers@.len()
                ==> spec_node_fresh(#[trigger] p2[pi].lanes@[li].layers@[ni], 1000)) by {
            lemma_aligned_pool_fresh(p1[pi], p2[pi], old(graph).edges@);
        }
        assert(spec_positioning_limits(*graph));
    }
    // coordinate assignment
    assign_xy_to_nodes(graph);
    let ghost p3 = graph.pools@;
    proof {
        assert forall|pi: int| 0 <= pi < p3.len() implies (#[trigger] p3[pi]).lanes@.len() <= 100
            && (forall|li: int|
            0 <= li < p3[pi].lanes@.len() ==> (#[trigger] p3[pi].lanes@[li]).layers@.len()
                <= 1000) by {
            lemma_placed_pool_lens(p2[pi], p3[pi], p3, pi);
        }
        assert forall|pi: int, li: int, ni: int|
            0 <= pi < p3.len() && 0 <= li < (#[trigger] p3[pi]).lanes@.len() && 0 <= ni
                < (#[trigger] p3[pi].lanes@[li]).layers@.len() implies spec_node_within_routing(
            #[trigger] p3[pi].lanes@[li].layers@[ni],
        ) by {
            lemma_placed_pool_routing(p2[pi], p3, pi);
        }
        assert(spec_routing_limits(graph.pools@));
    }
    // edge routing
    let ghost edges_before_routing = graph.edges@;
    let routed = assign_bend_points(graph);
    proof {
        assert(edges_before_routing == old(graph).edges@);
        assert(spec_pipeline_stages(p0, p1, p2, p3, old(graph).edges@));
    }
    match routed {
        Ok(unrouted_edges) => {
            proof {
                assert(graph.pools@ == p3);
                if infeasible_lanes@.len() == 0 {
                    assert forall|pi: int, li: int, ni: int|
                        0 <= pi < p3.len() && 0 <= li < (#[trigger] p3[pi]).lanes@.len() && 0 <= ni
                            < (#[trigger] p3[pi].lanes@[li]).layers@.len() implies spec_placed(
                        #[trigger] p3[pi].lanes@[li].layers@[ni],
                    ) by {
                        assert(spec_pool_assigned(p0[pi], p1[pi], old(graph).edges@));
                        assert(spec_lane_feasible(p0[pi], li, old(graph).edges@));
                        assert(spec_lane_assigned(p0[pi], p1[pi].lanes@[li], li, old(graph).edges@));
                        lemma_feasible_lane_layers(p0[pi], p1[pi].lanes@[li], li, old(graph).edges@);
                        let n = p1[pi].lanes@[li].layers@.len() as int;
                        assert(spec_pool_aligned(p1[pi], p2[pi], old(graph).edges@));
                        assert(spec_lane_aligned(
                            p1[pi].lanes@[li],
                            p2[pi].lanes@[li],
                            old(graph).edges@,
                        ));
                        assert(p2[pi].lanes@[li].layers@.len() == n);
                        assert forall|q: int|
                            0 <= q < n implies (#[trigger] p2[pi].lanes@[li].layers@[q]).layer_id
                                is Some && p2[pi].lanes@[li].layers@[q].layer_id->0 < n by {
                            assert(p1[pi].lanes@[li].layers@[q].layer_id is Some
                                && p1[pi].lanes@[li].layers@[q].layer_id->0 < n);
                        }
                        assert(spec_pool_placed(p2[pi], p3[pi], p3, pi));
                        let base = 150 + spec_pools_block_upto(p3, pi) + spec_pool_block_upto(
                            p3[pi],
                            li,
                        );
                        assert(spec_lane_placed(
                            p2[pi].lanes@[li],
                            p3[pi].lanes@[li],
                            base,
                            100 + spec_pools_block_upto(p3, pi) + spec_pool_block_upto(p3[pi], li),
                        ));
                        let mid = choose|mid: Seq<Node>|
                            {
                                &&& #[trigger] mid.to_multiset()
                                    == p2[pi].lanes@[li].layers@.to_multiset()
                                &&& crate::common::lane::spec_sorted_by_layer(mid)
                                &&& crate::layout::node_positioning::spec_lane_positioned(
                                    mid,
                                    p3[pi].lanes@[li].layers@,
                                    base,
                                )
                            };
                        mid.to_multiset_ensures();
                        p2[pi].lanes@[li].layers@.to_multiset_ensures();
                        assert(mid.len() == n);
                        lemma_multiset_layers_set(p2[pi].lanes@[li].layers@, mid, n);
                        assert(spec_node_positioned(mid, p3[pi].lanes@[li].layers@, ni, base));
                        assert(spec_effective_layer(mid[ni]) < mid.len());
                    }
                }
            }
            Ok(LayoutReport { infeasible_lanes, unrouted_edges })
        },
        Err(e) => {
            proof {
                assert(graph.pools@ == p3);
            }
            Err(e)
        },
    }
}

} // verus!
