use vstd::prelude::*;
use crate::common::bpmn_event::BpmnEvent;

verus! {

/// A process node. The parser creates it with an id, an element kind and an
/// optional pool/lane assignment; the layout engine fills in the layer id,
/// the position and the lane-crossing marks.
#[derive(Debug, Clone)]
pub struct Node {
    pub id: usize,
    pub event: Option<BpmnEvent>,
    pub x: Option<usize>,
    pub x_offset: Option<usize>,
    pub y: Option<usize>,
    pub y_offset: Option<usize>,
    pub pool: Option<String>,
    pub lane: Option<String>,
    pub layer_id: Option<usize>,
    pub crosses_lanes: bool,
    pub to_node_id: Option<usize>,
}

impl Node {
    /// Creates a node with no layer id, zero sub-offsets and no
    /// lane-crossing marks.
    pub fn new(
        id: usize,
        x: Option<usize>,
        y: Option<usize>,
        event: Option<BpmnEvent>,
        pool: Option<String>,
        lane: Option<String>,
    ) -> (node: Node)
        ensures
            node.id == id,
            node.x == x,
            node.y == y,
            node.event == event,
            node.pool == pool,
            node.lane == lane,
            node.x_offset == Some(0usize),
            node.y_offset == Some(0usize),
            node.layer_id is None,
            node.crosses_lanes == false,
            node.to_node_id is None,
    {
        Node {
            id,
            x,
            x_offset: Some(0),
            y,
            y_offset: Some(0),
            event,
            pool,
            lane,
            layer_id: None,
            crosses_lanes: false,
            to_node_id: None,
        }
    }

    /// Overwrites the position and the centering sub-offsets; every other
    /// field is kept.
    pub fn set_position(&mut self, x: usize, y: usize, x_offset: usize, y_offset: usize)
        ensures
            *final(self) == (Node {
                x: Some(x),
                y: Some(y),
                x_offset: Some(x_offset),
                y_offset: Some(y_offset),
                ..*old(self)
            }),
    {
        self.x = Some(x);
        self.y = Some(y);
        self.x_offset = Some(x_offset);
        self.y_offset = Some(y_offset);
    }
}


/// Two nodes carrying the same content: equal plain fields, equally
/// worded names, and alike element kinds.
pub open spec fn spec_node_like(a: Node, b: Node) -> bool {
    &&& a.id == b.id
    &&& a.x == b.x
    &&& a.y == b.y
    &&& a.x_offset == b.x_offset
    &&& a.y_offset == b.y_offset
    &&& a.layer_id == b.layer_id
    &&& a.crosses_lanes == b.crosses_lanes
    &&& a.to_node_id == b.to_node_id
    &&& (match (a.event, b.event) {
        (Option::None, Option::None) => true,
        (Option::Some(e1), Option::Some(e2)) => crate::common::bpmn_event::spec_event_like(e1, e2),
        _ => false,
    })
    &&& (match (a.pool, b.pool) {
        (Option::None, Option::None) => true,
        (Option::Some(p1), Option::Some(p2)) => p1@ == p2@,
        _ => false,
    })
    &&& (match (a.lane, b.lane) {
        (Option::None, Option::None) => true,
        (Option::Some(l1), Option::Some(l2)) => l1@ == l2@,
        _ => false,
    })
}

/// Copies a node field by field.
pub fn clone_node(node: &Node) -> (copy: Node)
    ensures
        spec_node_like(*node, copy),
{
    Node {
        id: node.id,
        event: match &node.event {
            Option::Some(e) => Some(crate::common::bpmn_event::clone_event(e)),
            Option::None => None,
        },
        x: node.x,
        x_offset: node.x_offset,
        y: node.y,
        y_offset: node.y_offset,
        pool: match &node.pool {
            Option::Some(p) => Some(p.clone()),
            Option::None => None,
        },
        lane: match &node.lane {
            Option::Some(l) => Some(l.clone()),
            Option::None => None,
        },
        layer_id: node.layer_id,
        crosses_lanes: node.crosses_lanes,
        to_node_id: node.to_node_id,
    }
}

} // verus!
