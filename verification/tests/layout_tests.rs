use bpmn_layout::common::bpmn_event::BpmnEvent;
use bpmn_layout::common::edge::Edge;
use bpmn_layout::common::graph::Graph;
use bpmn_layout::layout::assign_bend_points::assign_bend_points;
use bpmn_layout::layout::crossing_minimization::reduce_crossings;
use bpmn_layout::layout::solve_layer_assignment::solve_layer_assignment;
use bpmn_layout::layout::LayoutError;
use bpmn_layout::perform_layout;

fn chain_graph() -> Graph {
    let mut graph = Graph::new();
    graph.add_node(BpmnEvent::Start("Start Event".to_string()), Some(1), None, None);
    graph.add_node(BpmnEvent::ActivityTask("Task".to_string()), Some(2), None, None);
    graph.add_node(BpmnEvent::End("End Event".to_string()), Some(3), None, None);
    graph.add_edge(Edge::new(1, 2, None, None, None));
    graph.add_edge(Edge::new(2, 3, None, None, None));
    graph
}

fn branching_graph() -> Graph {
    let mut graph = Graph::new();
    graph.add_node(BpmnEvent::Start("A".to_string()), Some(1), None, None);
    graph.add_node(BpmnEvent::GatewayExclusive, Some(2), None, None);
    graph.add_node(BpmnEvent::ActivityTask("B".to_string()), Some(3), None, None);
    graph.add_node(BpmnEvent::ActivityTask("C".to_string()), Some(4), None, None);
    graph.add_node(BpmnEvent::GatewayJoin("J".to_string()), Some(5), None, None);
    graph.add_node(BpmnEvent::End("D".to_string()), Some(6), None, None);
    graph.add_edge(Edge::new(1, 2, None, None, None));
    graph.add_edge(Edge::new(2, 3, None, None, None));
    graph.add_edge(Edge::new(2, 4, None, None, None));
    graph.add_edge(Edge::new(3, 5, None, None, None));
    graph.add_edge(Edge::new(4, 5, None, None, None));
    graph.add_edge(Edge::new(5, 6, None, None, None));
    graph
}

fn layer_of(graph: &Graph, id: usize) -> usize {
    graph.get_node_by_id(id).expect("node").layer_id.expect("layer")
}

#[test]
fn round_trip_chain_layers_and_routes() {
    // a start, a task and an end in one implicit pool and lane
    let mut graph = chain_graph();
    let report = perform_layout(&mut graph).expect("layout should succeed");
    assert!(report.infeasible_lanes.is_empty());
    assert!(report.unrouted_edges.is_empty());
    assert_eq!(layer_of(&graph, 1), 0);
    assert_eq!(layer_of(&graph, 2), 1);
    assert_eq!(layer_of(&graph, 3), 2);
    // layers stack horizontally at a 150 pitch from x = 180
    assert_eq!(graph.get_node_by_id(1).unwrap().x, Some(180));
    assert_eq!(graph.get_node_by_id(2).unwrap().x, Some(330));
    assert_eq!(graph.get_node_by_id(3).unwrap().x, Some(480));
    for edge in &graph.edges {
        let pts = edge.adjusted_points.as_ref().expect("edge should be routed");
        assert!(pts.len() >= 2);
    }
}

#[test]
fn round_trip_chain_is_deterministic() {
    let mut g1 = chain_graph();
    let mut g2 = chain_graph();
    perform_layout(&mut g1).expect("layout should succeed");
    perform_layout(&mut g2).expect("layout should succeed");
    for id in 1..=3usize {
        assert_eq!(layer_of(&g1, id), layer_of(&g2, id));
        assert_eq!(graph_xy(&g1, id), graph_xy(&g2, id));
    }
}

fn graph_xy(graph: &Graph, id: usize) -> (usize, usize) {
    let n = graph.get_node_by_id(id).unwrap();
    (n.x.unwrap(), n.y.unwrap())
}

#[test]
fn branching_layers_order_gateway_before_branches() {
    let mut graph = branching_graph();
    let errors = solve_layer_assignment(&mut graph);
    assert!(errors.is_empty());
    assert!(layer_of(&graph, 2) < layer_of(&graph, 3));
    assert!(layer_of(&graph, 2) < layer_of(&graph, 4));
    assert!(layer_of(&graph, 3) < layer_of(&graph, 5));
    assert!(layer_of(&graph, 4) < layer_of(&graph, 5));
    // the minimal-span solution is fully forced here
    assert_eq!(layer_of(&graph, 1), 0);
    assert_eq!(layer_of(&graph, 2), 1);
    assert_eq!(layer_of(&graph, 3), 2);
    assert_eq!(layer_of(&graph, 4), 2);
    assert_eq!(layer_of(&graph, 5), 3);
    assert_eq!(layer_of(&graph, 6), 4);
}

#[test]
fn branching_unconnected_siblings_get_distinct_slots() {
    let mut graph = branching_graph();
    let errors = solve_layer_assignment(&mut graph);
    assert!(errors.is_empty());
    let edges_copy: Vec<Edge> = graph
        .edges
        .iter()
        .map(|e| Edge::new(e.from, e.to, None, None, None))
        .collect();
    reduce_crossings(&mut graph.pools, &edges_copy);
    let bx = graph.get_node_by_id(3).unwrap().x.expect("slot for B");
    let cx = graph.get_node_by_id(4).unwrap().x.expect("slot for C");
    assert_ne!(bx, cx);
}

#[test]
fn crossing_minimization_keeps_layer_ids() {
    let mut graph = branching_graph();
    let errors = solve_layer_assignment(&mut graph);
    assert!(errors.is_empty());
    let before: Vec<(usize, Option<usize>)> = graph.pools[0].lanes[0]
        .layers
        .iter()
        .map(|n| (n.id, n.layer_id))
        .collect();
    let edges_copy: Vec<Edge> = graph
        .edges
        .iter()
        .map(|e| Edge::new(e.from, e.to, None, None, None))
        .collect();
    reduce_crossings(&mut graph.pools, &edges_copy);
    let after: Vec<(usize, Option<usize>)> = graph.pools[0].lanes[0]
        .layers
        .iter()
        .map(|n| (n.id, n.layer_id))
        .collect();
    assert_eq!(before, after);
}

#[test]
fn same_layer_nodes_do_not_overlap_vertically() {
    let mut graph = branching_graph();
    perform_layout(&mut graph).expect("layout should succeed");
    let b = graph.get_node_by_id(3).unwrap().clone();
    let c = graph.get_node_by_id(4).unwrap().clone();
    assert_eq!(b.layer_id, c.layer_id);
    let b_top = b.y.unwrap() + b.y_offset.unwrap();
    let b_bottom = b_top + 80;
    let c_top = c.y.unwrap() + c.y_offset.unwrap();
    let c_bottom = c_top + 80;
    assert!(b_bottom < c_top || c_bottom < b_top);
}

#[test]
fn tall_nodes_in_one_layer_stack_at_their_height_plus_spacing() {
    let mut graph = Graph::new();
    graph.add_node(BpmnEvent::Start("A".to_string()), Some(1), None, None);
    graph.add_node(BpmnEvent::ActivitySubprocess("S1".to_string()), Some(2), None, None);
    graph.add_node(BpmnEvent::ActivitySubprocess("S2".to_string()), Some(3), None, None);
    graph.add_node(BpmnEvent::End("B".to_string()), Some(4), None, None);
    graph.add_edge(Edge::new(1, 2, None, None, None));
    graph.add_edge(Edge::new(1, 3, None, None, None));
    graph.add_edge(Edge::new(2, 4, None, None, None));
    graph.add_edge(Edge::new(3, 4, None, None, None));
    perform_layout(&mut graph).expect("layout should succeed");
    let s1 = graph.get_node_by_id(2).unwrap().clone();
    let s2 = graph.get_node_by_id(3).unwrap().clone();
    assert_eq!(s1.layer_id, s2.layer_id);
    // a 200px-tall subprocess claims 220px of the stack, not the 100px floor
    assert_eq!(s1.y.unwrap().abs_diff(s2.y.unwrap()), 220);
    let first = if s1.y.unwrap() < s2.y.unwrap() { &s1 } else { &s2 };
    let second = if s1.y.unwrap() < s2.y.unwrap() { &s2 } else { &s1 };
    let first_bottom = first.y.unwrap() + first.y_offset.unwrap() + 200;
    let second_top = second.y.unwrap() + second.y_offset.unwrap();
    assert!(first_bottom < second_top);
}

#[test]
fn obstacle_is_avoided_by_the_routed_path() {
    // three tasks in a row; the straight line from the first to the third
    // would cross the middle one
    let mut graph = Graph::new();
    graph.add_node(BpmnEvent::ActivityTask("A".to_string()), Some(1), None, None);
    graph.add_node(BpmnEvent::ActivityTask("B".to_string()), Some(2), None, None);
    graph.add_node(BpmnEvent::ActivityTask("C".to_string()), Some(3), None, None);
    graph.add_edge(Edge::new(1, 3, None, None, None));
    for node in graph.pools[0].lanes[0].layers.iter_mut() {
        match node.id {
            1 => node.set_position(100, 100, 0, 0),
            2 => node.set_position(300, 100, 0, 0),
            _ => node.set_position(500, 100, 0, 0),
        }
    }
    let diags = assign_bend_points(&mut graph).expect("routing should run");
    assert!(diags.is_empty());
    let pts = graph.edges[0].adjusted_points.as_ref().expect("routed");
    assert!(pts.len() >= 3);
    // the expanded rectangle of the middle task
    let (bx1, by1, bx2, by2) = (280usize, 80usize, 420usize, 200usize);
    let mut some_outside = false;
    for (i, &(x, y)) in pts.iter().enumerate() {
        let inside = bx1 <= x && x <= bx2 && by1 <= y && y <= by2;
        if !inside {
            some_outside = true;
        }
        // every interior grid waypoint stays clear of the obstacle
        if i >= 2 && i + 1 < pts.len() {
            assert!(!inside, "waypoint {:?} crosses the obstacle", (x, y));
        }
    }
    assert!(some_outside);
}

#[test]
fn waypoints_leave_and_enter_through_the_boundary_offsets() {
    let mut graph = chain_graph();
    let report = perform_layout(&mut graph).expect("layout should succeed");
    assert!(report.unrouted_edges.is_empty());
    for edge in &graph.edges {
        let pts = edge.adjusted_points.as_ref().expect("routed");
        assert!(pts.len() >= 3);
        // the second waypoint is the exit search cell, one margin out of
        // the boundary point
        let (dx, dy) = (pts[0].0.abs_diff(pts[1].0), pts[0].1.abs_diff(pts[1].1));
        assert!((dx == 0 && dy == 20) || (dy == 0 && dx == 20));
        // the second-to-last waypoint sits within a grid step of the
        // entry search cell, one margin out of the final boundary point
        let last = pts[pts.len() - 1];
        let prev = pts[pts.len() - 2];
        let (ex, ey) = (last.0.abs_diff(prev.0), last.1.abs_diff(prev.1));
        assert!((ex <= 1 && (19..=21).contains(&ey)) || (ey <= 1 && (19..=21).contains(&ex)));
    }
}

#[test]
fn fully_obstructed_edge_is_reported_not_routed() {
    // the source sits inside a much larger node's expanded rectangle, so
    // no exit cell is free
    let mut graph = Graph::new();
    graph.add_node(BpmnEvent::ActivityTask("A".to_string()), Some(1), None, None);
    graph.add_node(BpmnEvent::ActivitySubprocess("Wall".to_string()), Some(2), None, None);
    graph.add_node(BpmnEvent::ActivityTask("B".to_string()), Some(3), None, None);
    graph.add_edge(Edge::new(1, 3, None, None, None));
    for node in graph.pools[0].lanes[0].layers.iter_mut() {
        match node.id {
            1 => node.set_position(300, 300, 0, 0),
            2 => node.set_position(250, 250, 0, 0),
            _ => node.set_position(700, 50, 0, 0),
        }
    }
    let diags = assign_bend_points(&mut graph).expect("routing should still run");
    assert_eq!(diags, vec![(1, 3)]);
    assert!(graph.edges[0].adjusted_points.is_none());
}

#[test]
fn intra_lane_cycle_is_reported_as_infeasible() {
    let mut graph = Graph::new();
    graph.add_node(BpmnEvent::ActivityTask("A".to_string()), Some(1), None, None);
    graph.add_node(BpmnEvent::ActivityTask("B".to_string()), Some(2), None, None);
    graph.add_edge(Edge::new(1, 2, None, None, None));
    graph.add_edge(Edge::new(2, 1, None, None, None));
    let errors = solve_layer_assignment(&mut graph);
    assert_eq!(errors.len(), 1);
    match &errors[0] {
        LayoutError::InfeasibleLane(name) => assert_eq!(name, "default_lane"),
        other => panic!("expected an infeasible lane, got {:?}", other),
    }
    // the lane keeps its nodes unassigned
    assert!(graph.get_node_by_id(1).unwrap().layer_id.is_none());
    assert!(graph.get_node_by_id(2).unwrap().layer_id.is_none());
}

#[test]
fn missing_edge_endpoint_aborts_routing() {
    let mut graph = Graph::new();
    graph.add_node(BpmnEvent::ActivityTask("A".to_string()), Some(1), None, None);
    graph.add_edge(Edge::new(1, 99, None, None, None));
    for node in graph.pools[0].lanes[0].layers.iter_mut() {
        node.set_position(100, 100, 0, 0);
    }
    match assign_bend_points(&mut graph) {
        Err(LayoutError::MissingNode(id)) => assert_eq!(id, 99),
        other => panic!("expected a missing-node error, got {:?}", other),
    }
    assert!(graph.edges[0].adjusted_points.is_none());
}

#[test]
fn unplaced_edge_endpoint_aborts_routing() {
    let mut graph = Graph::new();
    graph.add_node(BpmnEvent::ActivityTask("A".to_string()), Some(1), None, None);
    graph.add_node(BpmnEvent::ActivityTask("B".to_string()), Some(2), None, None);
    graph.add_edge(Edge::new(1, 2, None, None, None));
    for node in graph.pools[0].lanes[0].layers.iter_mut() {
        if node.id == 1 {
            node.set_position(100, 100, 0, 0);
        }
    }
    match assign_bend_points(&mut graph) {
        Err(LayoutError::UnplacedNode(id)) => assert_eq!(id, 2),
        other => panic!("expected an unplaced-node error, got {:?}", other),
    }
}

#[test]
fn layer_assignment_is_deterministic_per_lane() {
    let mut g1 = branching_graph();
    let mut g2 = branching_graph();
    let e1 = solve_layer_assignment(&mut g1);
    let e2 = solve_layer_assignment(&mut g2);
    assert!(e1.is_empty() && e2.is_empty());
    for id in 1..=6usize {
        assert_eq!(layer_of(&g1, id), layer_of(&g2, id));
    }
}

#[test]
fn layout_error_messages_name_the_failure() {
    let e = LayoutError::MissingNode(5);
    assert_eq!(e.message(), "edge references a node id absent from the graph");
    let e2 = LayoutError::InfeasibleLane("lane one".to_string());
    assert_eq!(e2.message(), "layer assignment infeasible in lane lane one");
    let e3 = LayoutError::UnplacedNode(2);
    assert_eq!(e3.message(), "edge endpoint has no coordinates");
}

#[test]
fn routed_waypoints_start_and_end_at_the_node_boundaries() {
    let mut graph = chain_graph();
    perform_layout(&mut graph).expect("layout should succeed");
    for edge in &graph.edges {
        let pts = edge.adjusted_points.as_ref().expect("routed");
        let from = graph.get_node_by_id(edge.from).unwrap();
        let (fx, fy) = (from.x.unwrap() + from.x_offset.unwrap(), from.y.unwrap() + from.y_offset.unwrap());
        // the first waypoint lies within the source's expanded rectangle
        let first = pts[0];
        assert!(fx - 20 <= first.0 && first.0 <= fx + 120 + 20);
        assert!(fy - 20 <= first.1 && first.1 <= fy + 100 + 20);
    }
}
