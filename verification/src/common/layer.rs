use vstd::prelude::*;
use crate::common::node::Node;

verus! {

/// A group of nodes sharing one discrete rank.
pub struct Layer {
    pub layer_id: i32,
    pub nodes: Vec<Node>,
}

impl Layer {
    /// Creates a layer from a rank and its nodes.
    pub fn new(layer_id: i32, nodes: Vec<Node>) -> (layer: Layer)
        ensures
            layer.layer_id == layer_id,
            layer.nodes == nodes,
    {
        Layer { layer_id, nodes }
    }

    /// Appends a node to the layer.
    pub fn add_node(&mut self, node: Node)
        ensures
            final(self).nodes@ == old(self).nodes@.push(node),
            final(self).layer_id == old(self).layer_id,
    {
        self.nodes.push(node);
    }

    /// The nodes of the layer.
    pub fn get_nodes(&self) -> (nodes: &Vec<Node>)
        ensures
            nodes == &self.nodes,
    {
        &self.nodes
    }

    /// Mutable access to the nodes of the layer.
    pub fn get_nodes_mut(&mut self) -> (nodes: &mut Vec<Node>)
        ensures
            *nodes == old(self).nodes,
            final(self).nodes == *final(nodes),
            final(self).layer_id == old(self).layer_id,
    {
        &mut self.nodes
    }

    /// The layer's rank.
    pub fn get_layer(&self) -> (id: i32)
        ensures
            id == self.layer_id,
    {
        self.layer_id
    }
}

} // verus!
