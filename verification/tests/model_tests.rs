use bpmn_layout::common::bpmn_event::{get_node_size, BpmnEvent};
use bpmn_layout::layout::edge::Edge as FlatEdge;
use bpmn_layout::layout::graph::Graph as FlatGraph;
use bpmn_layout::layout::node::Node as FlatNode;
use bpmn_layout::layout::solve_layer_assignment::find_crossings;
use bpmn_layout::to_xml;
use bpmn_layout::common::edge::Edge;
use bpmn_layout::common::graph::Graph;
use bpmn_layout::common::lane::Lane;
use bpmn_layout::common::layer::Layer;
use bpmn_layout::common::node::Node;
use bpmn_layout::common::pool::Pool;

#[test]
fn node_sizes_follow_the_fixed_table() {
    assert_eq!(get_node_size(&BpmnEvent::Start("s".to_string())), (36, 36));
    assert_eq!(get_node_size(&BpmnEvent::End("e".to_string())), (36, 36));
    assert_eq!(get_node_size(&BpmnEvent::GatewayExclusive), (50, 50));
    assert_eq!(get_node_size(&BpmnEvent::GatewayParallel), (50, 50));
    assert_eq!(get_node_size(&BpmnEvent::ActivityTask("t".to_string())), (100, 80));
    assert_eq!(get_node_size(&BpmnEvent::ActivitySubprocess("p".to_string())), (350, 200));
    assert_eq!(get_node_size(&BpmnEvent::DataObjectReference("d".to_string())), (36, 50));
    assert_eq!(get_node_size(&BpmnEvent::BoundaryTimerEvent("b".to_string(), 1, true)), (36, 36));
}

#[test]
fn serializer_node_sizes_match_the_layout_table() {
    assert_eq!(to_xml::get_node_size(&BpmnEvent::GatewayExclusive), (50, 50));
    assert_eq!(to_xml::get_node_size(&BpmnEvent::GatewayParallel), (50, 50));
    assert_eq!(to_xml::get_node_size(&BpmnEvent::GatewayEvent), (50, 50));
    assert_eq!(to_xml::get_node_size(&BpmnEvent::ActivityTask("t".to_string())), (100, 80));
    assert_eq!(
        to_xml::get_node_size(&BpmnEvent::BoundaryTimerEvent("b".to_string(), 1, true)),
        (36, 36)
    );
    assert_eq!(to_xml::get_node_size(&BpmnEvent::Start("s".to_string())), (36, 36));
}

#[test]
fn add_node_files_nodes_into_pools_and_lanes() {
    let mut graph = Graph::new();
    let id1 = graph.add_node(
        BpmnEvent::Start("a".to_string()),
        None,
        Some("P1".to_string()),
        Some("L1".to_string()),
    );
    let id2 = graph.add_node(
        BpmnEvent::ActivityTask("b".to_string()),
        None,
        Some("P1".to_string()),
        Some("L2".to_string()),
    );
    let id3 = graph.add_node(
        BpmnEvent::End("c".to_string()),
        None,
        Some("P2".to_string()),
        None,
    );
    assert_eq!((id1, id2, id3), (1, 2, 3));
    assert_eq!(graph.pools.len(), 2);
    assert_eq!(graph.pools[0].get_pool_name(), "P1");
    assert_eq!(graph.pools[0].lanes.len(), 2);
    assert_eq!(graph.pools[0].lanes[0].get_lane().as_str(), "L1");
    assert_eq!(graph.pools[0].lanes[1].get_lane().as_str(), "L2");
    assert_eq!(graph.pools[1].lanes[0].get_lane().as_str(), "default_lane");
    assert!(graph.get_node_by_id(2).is_some());
    assert!(graph.get_node_by_id(9).is_none());
}

#[test]
fn lane_sort_orders_nodes_by_layer_id() {
    let mut lane = Lane::new("l".to_string());
    let mut n1 = Node::new(1, None, None, None, None, None);
    n1.layer_id = Some(2);
    let mut n2 = Node::new(2, None, None, None, None, None);
    n2.layer_id = Some(0);
    let n3 = Node::new(3, None, None, None, None, None);
    let mut n4 = Node::new(4, None, None, None, None, None);
    n4.layer_id = Some(1);
    lane.add_node(n1);
    lane.add_node(n2);
    lane.add_node(n3);
    lane.add_node(n4);
    lane.sort_nodes_by_layer_id();
    let order: Vec<usize> = lane.get_layers().iter().map(|n| n.id).collect();
    // an unassigned layer sorts first, then ascending layer ids
    assert_eq!(order, vec![3, 2, 4, 1]);
}

#[test]
fn pool_collects_nodes_by_id() {
    let mut pool = Pool::new("p".to_string());
    pool.add_node(Node::new(7, None, None, None, None, Some("a".to_string())));
    pool.add_node(Node::new(9, None, None, None, None, Some("b".to_string())));
    let by_id = pool.get_nodes_by_id();
    assert!(by_id.contains_key(&7));
    assert!(by_id.contains_key(&9));
    assert!(!by_id.contains_key(&8));
}

#[test]
fn graph_edges_can_be_taken_and_restored() {
    let mut graph = Graph::new();
    graph.add_edge(Edge::new(1, 2, Some("t".to_string()), None, None));
    let edges = graph.take_edges();
    assert_eq!(edges.len(), 1);
    assert_eq!(graph.edges.len(), 0);
    graph.set_edges(edges);
    assert_eq!(graph.edges.len(), 1);
    assert_eq!(graph.edges[0].from, 1);
    assert_eq!(graph.edges[0].to, 2);
}

#[test]
fn layer_groups_nodes_under_a_rank() {
    let mut layer = Layer::new(3, Vec::new());
    layer.add_node(Node::new(1, None, None, None, None, None));
    assert_eq!(layer.get_layer(), 3);
    assert_eq!(layer.get_nodes().len(), 1);
}

#[test]
fn crossing_marks_point_at_the_other_lane() {
    let mut graph = Graph::new();
    graph.add_node(
        BpmnEvent::Start("a".to_string()),
        Some(1),
        Some("P".to_string()),
        Some("L1".to_string()),
    );
    graph.add_node(
        BpmnEvent::ActivityTask("b".to_string()),
        Some(2),
        Some("P".to_string()),
        Some("L2".to_string()),
    );
    graph.add_node(
        BpmnEvent::End("c".to_string()),
        Some(3),
        Some("P".to_string()),
        Some("L1".to_string()),
    );
    graph.add_edge(Edge::new(1, 2, None, None, None));
    graph.add_edge(Edge::new(2, 3, None, None, None));
    let edges = graph.take_edges();
    find_crossings(&edges, &mut graph.pools);
    graph.set_edges(edges);
    let a = graph.get_node_by_id(1).unwrap();
    assert!(a.crosses_lanes);
    assert_eq!(a.to_node_id, Some(2));
    let c = graph.get_node_by_id(3).unwrap();
    assert!(!c.crosses_lanes);
    assert_eq!(c.to_node_id, None);
}

#[test]
fn back_edge_elimination_breaks_cycles_and_keeps_connections() {
    let mut graph = FlatGraph::new(Vec::new(), Vec::new());
    for id in 1..=6usize {
        graph.add_node(FlatNode::new(id, None));
    }
    // two cycles, 1-2-3-4-1 and 3-5-6-3, plus a chord 5-2
    let original: Vec<(usize, usize)> =
        vec![(1, 2), (2, 3), (3, 4), (4, 1), (3, 5), (5, 6), (6, 3), (5, 2)];
    for &(a, b) in &original {
        graph.add_edge(FlatEdge::new(a, b));
    }
    graph.eliminate_back_edges();
    // every connection survives in one direction or the other
    for &(a, b) in &original {
        let kept = graph.edges.iter().any(|e| (e.from, e.to) == (a, b) || (e.from, e.to) == (b, a));
        assert!(kept, "connection {}-{} was lost", a, b);
    }
    // and nothing unrelated appeared
    for e in &graph.edges {
        let known = original
            .iter()
            .any(|&(a, b)| (e.from, e.to) == (a, b) || (e.from, e.to) == (b, a));
        assert!(known, "edge {}-{} appeared from nowhere", e.from, e.to);
    }
    // the result admits a complete topological order, so it is acyclic
    let ids: Vec<usize> = graph.nodes.iter().map(|n| n.id).collect();
    let mut remaining: Vec<(usize, usize)> = graph.edges.iter().map(|e| (e.from, e.to)).collect();
    let mut placed: Vec<usize> = Vec::new();
    let mut left: Vec<usize> = ids.clone();
    while !left.is_empty() {
        let pick = left
            .iter()
            .position(|&n| remaining.iter().all(|&(_, to)| to != n));
        match pick {
            Some(pos) => {
                let n = left.remove(pos);
                remaining.retain(|&(from, _)| from != n);
                placed.push(n);
            }
            None => panic!("the edge set still has a cycle"),
        }
    }
    assert_eq!(placed.len(), ids.len());
}

#[test]
fn lane_indices_group_nodes_by_layer() {
    let mut lane = Lane::new("l".to_string());
    let mut a = Node::new(1, None, None, None, None, None);
    a.layer_id = Some(0);
    let mut b = Node::new(2, None, None, None, None, None);
    b.layer_id = Some(1);
    let mut c = Node::new(3, None, None, None, None, None);
    c.layer_id = Some(0);
    lane.add_node(a);
    lane.add_node(b);
    lane.add_node(c);
    assert_eq!(lane.get_nodes_by_layer_id(0), vec![0, 2]);
    assert_eq!(lane.get_nodes_by_layer_id(1), vec![1]);
    assert_eq!(lane.get_nodes_by_layer_id(7), Vec::<usize>::new());
}

#[test]
fn nodes_are_found_by_their_pool_name() {
    let mut graph = Graph::new();
    graph.add_node(BpmnEvent::Start("a".to_string()), Some(1), Some("P1".to_string()), None);
    graph.add_node(BpmnEvent::End("b".to_string()), Some(2), Some("P2".to_string()), None);
    graph.add_node(BpmnEvent::ActivityTask("c".to_string()), Some(3), Some("P1".to_string()), None);
    let found = graph.get_nodes_by_pool_name("P1");
    let mut ids: Vec<usize> = found.iter().map(|n| n.id).collect();
    ids.sort();
    assert_eq!(ids, vec![1, 3]);
    assert!(graph.get_nodes_by_pool_name("P9").is_empty());
}
