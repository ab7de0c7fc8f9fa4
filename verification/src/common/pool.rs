use vstd::prelude::*;
use std::collections::HashMap;
use crate::common::lane::Lane;
use crate::common::node::{clone_node, spec_node_like, Node};

verus! {

/// The lane name a node is filed under: its lane, or "default_lane" when it
/// has none.
pub open spec fn spec_lane_name_of(node: Node) -> Seq<char> {
    match node.lane {
        Option::Some(s) => s@,
        Option::None => "default_lane"@,
    }
}

/// Relates a lane before and after one node was appended to it.
pub open spec fn spec_lane_got_node(pre: Lane, post: Lane, node: Node) -> bool {
    &&& post.layers@ == pre.layers@.push(node)
    &&& post.lane@ == pre.lane@
    &&& post.x == pre.x
    &&& post.y == pre.y
    &&& post.width == pre.width
    &&& post.height == pre.height
}

/// Relates a pool before and after a node was added to it: the node goes to
/// the first lane carrying its lane name, or to a fresh lane appended at the
/// end; nothing else changes.
pub open spec fn spec_pool_add_node_rel(pre: Pool, post: Pool, node: Node) -> bool {
    let name = spec_lane_name_of(node);
    &&& post.pool_name@ == pre.pool_name@
    &&& post.x == pre.x
    &&& post.y == pre.y
    &&& post.width == pre.width
    &&& post.height == pre.height
    &&& if exists|i: int| 0 <= i < pre.lanes@.len() && (#[trigger] pre.lanes@[i]).lane@ == name {
        exists|i: int|
            {
                &&& 0 <= i < pre.lanes@.len()
                &&& (#[trigger] pre.lanes@[i]).lane@ == name
                &&& forall|k: int| 0 <= k < i ==> (#[trigger] pre.lanes@[k]).lane@ != name
                &&& post.lanes@.len() == pre.lanes@.len()
                &&& spec_lane_got_node(pre.lanes@[i], post.lanes@[i], node)
                &&& forall|k: int| 0 <= k < pre.lanes@.len() && k != i
                    ==> post.lanes@[k] == pre.lanes@[k]
            }
    } else {
        &&& post.lanes@.len() == pre.lanes@.len() + 1
        &&& post.lanes@.take(pre.lanes@.len() as int) == pre.lanes@
        &&& post.lanes@.last().lane@ == name
        &&& post.lanes@.last().layers@ == seq![node]
        &&& post.lanes@.last().x is None
        &&& post.lanes@.last().y is None
        &&& post.lanes@.last().width is None
        &&& post.lanes@.last().height is None
    }
}

/// A top-level grouping (an independent actor or system) holding an ordered
/// list of lanes. A pool is the unit of independent layer assignment.
#[derive(Debug, Clone)]
pub struct Pool {
    pub pool_name: String,
    pub lanes: Vec<Lane>,
    pub x: Option<usize>,
    pub y: Option<usize>,
    pub width: Option<usize>,
    pub height: Option<usize>,
}

impl Pool {
    /// Creates an empty, unpositioned pool with the given name.
    pub fn new(pool_name: String) -> (pool: Pool)
        ensures
            pool.pool_name@ == pool_name@,
            pool.lanes@.len() == 0,
            pool.x is None,
            pool.y is None,
            pool.width is None,
            pool.height is None,
    {
        Pool { pool_name, lanes: Vec::new(), x: None, y: None, width: None, height: None }
    }

    /// Files a node into the first lane carrying the node's lane name
    /// ("default_lane" when it has none), creating the lane at the end of
    /// the pool if no lane carries that name yet.
    pub fn add_node(&mut self, node: Node)
        ensures
            spec_pool_add_node_rel(*old(self), *final(self), node),
    {
        let node_lane: String = match &node.lane {
            Option::Some(s) => s.clone(),
            Option::None => String::from_str("default_lane"),
        };
        proof {
            assert(node_lane@ == spec_lane_name_of(node));
        }
        let n = self.lanes.len();
        let mut i: usize = 0;
        while i < n
            invariant
                n == self.lanes@.len(),
                0 <= i <= n,
                node_lane@ == spec_lane_name_of(node),
                forall|k: int| 0 <= k < i ==> (#[trigger] self.lanes@[k]).lane@ != node_lane@,
                *self == *old(self),
            decreases n - i,
        {
            if self.lanes[i].get_lane().eq(&node_lane) {
                let ghost pre = self.lanes@;
                let lane_ref = &mut self.lanes[i];
                lane_ref.add_node(node);
                proof {
                    assert(spec_lane_got_node(pre[i as int], self.lanes@[i as int], node));
                }
                return;
            }
            i += 1;
        }
        let mut new_lane = Lane::new(node_lane);
        new_lane.add_node(node);
        let ghost pre = self.lanes@;
        self.lanes.push(new_lane);
        proof {
            assert(self.lanes@.take(pre.len() as int) =~= pre);
            assert(self.lanes@.last().layers@ =~= seq![node]);
        }
    }

    /// The lanes of the pool, in order.
    pub fn get_lanes(&self) -> (lanes: &Vec<Lane>)
        ensures
            lanes == &self.lanes,
    {
        &self.lanes
    }

    /// Mutable access to the lanes of the pool.
    pub fn get_lanes_mut(&mut self) -> (lanes: &mut Vec<Lane>)
        ensures
            *lanes == old(self).lanes,
            *final(self) == (Pool { lanes: *final(lanes), ..*old(self) }),
    {
        &mut self.lanes
    }

    /// The pool's name, as a fresh string.
    pub fn get_pool_name(&self) -> (name: String)
        ensures
            name@ == self.pool_name@,
    {
        self.pool_name.clone()
    }

    /// Collects every node of the pool into a map keyed by node id. A node
    /// id occurs in the map if and only if some lane of the pool holds a
    /// node with that id, and the stored node carries the content of such
    /// a node.
    pub fn get_nodes_by_id(&self) -> (nodes_by_id: HashMap<usize, Node>)
        ensures
            forall|id: usize|
                nodes_by_id@.dom().contains(id) <==> exists|li: int, ni: int|
                    0 <= li < self.lanes@.len() && 0 <= ni < (#[trigger] self.lanes@[li]).layers@.len()
                        && (#[trigger] self.lanes@[li].layers@[ni]).id == id,
            forall|id: usize|
                #[trigger] nodes_by_id@.dom().contains(id) ==> exists|li: int, ni: int|
                    0 <= li < self.lanes@.len() && 0 <= ni < (#[trigger] self.lanes@[li]).layers@.len()
                        && (#[trigger] self.lanes@[li].layers@[ni]).id == id && spec_node_like(
                        self.lanes@[li].layers@[ni],
                        nodes_by_id@[id],
                    ),
    {
        let mut nodes_by_id: HashMap<usize, Node> = HashMap::new();
        let nl = self.lanes.len();
        let mut li: usize = 0;
        while li < nl
            invariant
                nl == self.lanes@.len(),
                0 <= li <= nl,
                forall|id: usize|
                    nodes_by_id@.dom().contains(id) <==> exists|a: int, b: int|
                        0 <= a < li && 0 <= b < (#[trigger] self.lanes@[a]).layers@.len()
                            && (#[trigger] self.lanes@[a].layers@[b]).id == id,
                forall|id: usize|
                    #[trigger] nodes_by_id@.dom().contains(id) ==> exists|a: int, b: int|
                        0 <= a < self.lanes@.len() && 0 <= b < (#[trigger] self.lanes@[a]).layers@.len()
                            && (#[trigger] self.lanes@[a].layers@[b]).id == id && spec_node_like(
                            self.lanes@[a].layers@[b],
                            nodes_by_id@[id],
                        ),
            decreases nl - li,
        {
            let nn = self.lanes[li].layers.len();
            let mut ni: usize = 0;
            while ni < nn
                invariant
                    nl == self.lanes@.len(),
                    0 <= li < nl,
                    nn == self.lanes@[li as int].layers@.len(),
                    0 <= ni <= nn,
                    forall|id: usize|
                        nodes_by_id@.dom().contains(id) <==> (exists|a: int, b: int|
                            0 <= a < li && 0 <= b < (#[trigger] self.lanes@[a]).layers@.len()
                                && (#[trigger] self.lanes@[a].layers@[b]).id == id) || (exists|b: int|
                            0 <= b < ni && (#[trigger] self.lanes@[li as int].layers@[b]).id == id),
                    forall|id: usize|
                        #[trigger] nodes_by_id@.dom().contains(id) ==> exists|a: int, b: int|
                            0 <= a < self.lanes@.len() && 0 <= b
                                < (#[trigger] self.lanes@[a]).layers@.len()
                                && (#[trigger] self.lanes@[a].layers@[b]).id == id && spec_node_like(
                                self.lanes@[a].layers@[b],
                                nodes_by_id@[id],
                            ),
                decreases nn - ni,
            {
                let node_ref = &self.lanes[li].layers[ni];
                let copy = clone_node(node_ref);
                nodes_by_id.insert(node_ref.id, copy);
                ni += 1;
            }
            li += 1;
        }
        nodes_by_id
    }

    /// Sets the computed height.
    pub fn set_height(&mut self, height: usize)
        ensures
            *final(self) == (Pool { height: Some(height), ..*old(self) }),
    {
        self.height = Some(height);
    }

    /// Sets the computed width.
    pub fn set_width(&mut self, width: usize)
        ensures
            *final(self) == (Pool { width: Some(width), ..*old(self) }),
    {
        self.width = Some(width);
    }

    /// Sets the computed position.
    pub fn set_position(&mut self, x: usize, y: usize)
        ensures
            *final(self) == (Pool { x: Some(x), y: Some(y), ..*old(self) }),
    {
        self.x = Some(x);
        self.y = Some(y);
    }

    /// Gives every lane of the pool the same computed width.
    pub fn set_lane_width(&mut self, width: usize)
        ensures
            final(self).lanes@.len() == old(self).lanes@.len(),
            forall|i: int| 0 <= i < old(self).lanes@.len()
                ==> final(self).lanes@[i] == (Lane { width: Some(width), ..old(self).lanes@[i] }),
            *final(self) == (Pool { lanes: final(self).lanes, ..*old(self) }),
    {
        let n = self.lanes.len();
        let mut i: usize = 0;
        while i < n
            invariant
                n == self.lanes@.len(),
                0 <= i <= n,
                forall|k: int| 0 <= k < i
                    ==> self.lanes@[k] == (Lane { width: Some(width), ..old(self).lanes@[k] }),
                forall|k: int| i <= k < n ==> self.lanes@[k] == old(self).lanes@[k],
                *self == (Pool { lanes: self.lanes, ..*old(self) }),
            decreases n - i,
        {
            let lane_ref = &mut self.lanes[i];
            lane_ref.set_width(width);
            i += 1;
        }
    }
}

} // verus!
