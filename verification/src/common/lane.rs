use vstd::prelude::*;
use crate::common::node::Node;

verus! {

/// Orders two optional layer ids: an unassigned layer sorts before every
/// assigned one, assigned layers sort by their value.
pub open spec fn spec_layer_le(a: Option<usize>, b: Option<usize>) -> bool {
    match (a, b) {
        (Option::None, _) => true,
        (Option::Some(x), Option::Some(y)) => x <= y,
        (Option::Some(_), Option::None) => false,
    }
}

/// A node sequence sorted by layer id.
pub open spec fn spec_sorted_by_layer(nodes: Seq<Node>) -> bool {
    forall|i: int, j: int|
        0 <= i < j < nodes.len() ==> spec_layer_le(#[trigger] nodes[i].layer_id, #[trigger] nodes[j].layer_id)
}

/// `post` is `pre` reordered by the permutation `perm`, sorted without
/// disturbing the relative order of nodes whose layer ids tie.
pub open spec fn spec_stable_perm(pre: Seq<Node>, post: Seq<Node>, perm: Seq<int>) -> bool {
    &&& perm.len() == pre.len()
    &&& post.len() == pre.len()
    &&& forall|k: int| 0 <= k < perm.len() ==> 0 <= #[trigger] perm[k] < perm.len()
    &&& forall|k1: int, k2: int| 0 <= k1 < k2 < perm.len() ==> #[trigger] perm[k1] != #[trigger] perm[k2]
    &&& forall|k: int| 0 <= k < perm.len() ==> post[k] == pre[#[trigger] perm[k]]
    &&& forall|a: int, b: int|
        0 <= a < b < perm.len() && spec_layer_le(post[a].layer_id, post[b].layer_id)
            && spec_layer_le(post[b].layer_id, post[a].layer_id) ==> #[trigger] perm[a]
            < #[trigger] perm[b]
}

/// A named sub-partition of a pool; the scope within which layers are
/// assigned and nodes are ordered. The node sequence has no meaningful
/// order until it is sorted by layer id.
#[derive(Debug, Clone)]
pub struct Lane {
    pub lane: String,
    pub layers: Vec<Node>,
    pub x: Option<usize>,
    pub y: Option<usize>,
    pub width: Option<usize>,
    pub height: Option<usize>,
}

impl Lane {
    /// Creates an empty, unpositioned lane with the given name.
    pub fn new(lane: String) -> (result: Lane)
        ensures
            result.lane@ == lane@,
            result.layers@.len() == 0,
            result.x is None,
            result.y is None,
            result.width is None,
            result.height is None,
    {
        Lane { lane, layers: Vec::new(), x: None, y: None, width: None, height: None }
    }

    /// Appends a node to the lane.
    pub fn add_node(&mut self, node: Node)
        ensures
            final(self).layers@ == old(self).layers@.push(node),
            final(self).lane@ == old(self).lane@,
            final(self).x == old(self).x,
            final(self).y == old(self).y,
            final(self).width == old(self).width,
            final(self).height == old(self).height,
    {
        self.layers.push(node);
    }

    /// The nodes of the lane, in their current order.
    pub fn get_layers(&self) -> (nodes: &Vec<Node>)
        ensures
            nodes == &self.layers,
    {
        &self.layers
    }

    /// Mutable access to the nodes of the lane.
    pub fn get_layers_mut(&mut self) -> (nodes: &mut Vec<Node>)
        ensures
            *nodes == old(self).layers,
            *final(self) == (Lane { layers: *final(nodes), ..*old(self) }),
    {
        &mut self.layers
    }

    /// The lane's name.
    pub fn get_lane(&self) -> (name: &String)
        ensures
            name == &self.lane,
    {
        &self.lane
    }

    /// Sorts the nodes by layer id (unassigned first, then ascending),
    /// keeping the original order of nodes with equal layer ids. Only the
    /// node order changes; the set of nodes and every other field is kept.
    pub fn sort_nodes_by_layer_id(&mut self)
        ensures
            final(self).layers@.to_multiset() == old(self).layers@.to_multiset(),
            final(self).layers@.len() == old(self).layers@.len(),
            spec_sorted_by_layer(final(self).layers@),
            exists|perm: Seq<int>| spec_stable_perm(old(self).layers@, final(self).layers@, perm),
            final(self).lane@ == old(self).lane@,
            final(self).x == old(self).x,
            final(self).y == old(self).y,
            final(self).width == old(self).width,
            final(self).height == old(self).height,
    {
        let n = self.layers.len();
        if n == 0 {
            proof {
                let perm0 = Seq::<int>::empty();
                assert(spec_stable_perm(old(self).layers@, self.layers@, perm0));
            }
            return;
        }
        let ghost mut perm: Seq<int> = Seq::new(n as nat, |k: int| k);
        let mut i: usize = 1;
        while i < n
            invariant
                n == self.layers@.len(),
                1 <= i <= n,
                forall|a: int, b: int| 0 <= a < b < i
                    ==> spec_layer_le(#[trigger] self.layers@[a].layer_id, #[trigger] self.layers@[b].layer_id),
                self.layers@.to_multiset() == old(self).layers@.to_multiset(),
                perm.len() == n,
                old(self).layers@.len() == n,
                forall|k: int| 0 <= k < n ==> 0 <= #[trigger] perm[k] < n,
                forall|k1: int, k2: int| 0 <= k1 < k2 < n ==> #[trigger] perm[k1] != #[trigger] perm[k2],
                forall|k: int| 0 <= k < n ==> self.layers@[k] == old(self).layers@[#[trigger] perm[k]],
                forall|k: int| i <= k < n ==> #[trigger] perm[k] == k,
                forall|a: int, b: int|
                    0 <= a < b < i && spec_layer_le(self.layers@[a].layer_id, self.layers@[b].layer_id)
                        && spec_layer_le(self.layers@[b].layer_id, self.layers@[a].layer_id)
                        ==> #[trigger] perm[a] < #[trigger] perm[b],
                self.lane@ == old(self).lane@,
                self.x == old(self).x,
                self.y == old(self).y,
                self.width == old(self).width,
                self.height == old(self).height,
            decreases n - i,
        {
            // find the first position j <= i whose key sorts strictly after
            // the element at i
            let key = self.layers[i].layer_id;
            let mut j: usize = 0;
            let mut found: bool = false;
            while j < i && !found
                invariant
                    0 <= j <= i < n,
                    n == self.layers@.len(),
                    key == self.layers@[i as int].layer_id,
                    forall|k: int| 0 <= k < j ==> spec_layer_le(#[trigger] self.layers@[k].layer_id, key),
                    found ==> j < i && !spec_layer_le(self.layers@[j as int].layer_id, key),
                decreases i - j + (if found { 0int } else { 1int }),
            {
                let jk = self.layers[j].layer_id;
                let le = match (jk, key) {
                    (Option::None, _) => true,
                    (Option::Some(x), Option::Some(y)) => x <= y,
                    (Option::Some(_), Option::None) => false,
                };
                if !le {
                    found = true;
                } else {
                    j += 1;
                }
            }
            if j < i {
                let ghost pre = self.layers@;
                let ghost perm_pre = perm;
                let moved = self.layers.remove(i);
                self.layers.insert(j, moved);
                proof {
                    perm = perm.remove(i as int).insert(j as int, perm_pre[i as int]);
                    let mid = pre.remove(i as int);
                    let post = self.layers@;
                    assert(post == mid.insert(j as int, moved));
                    pre.to_multiset_ensures();
                    lemma_insert_to_multiset(mid, j as int, moved);
                    assert(pre[i as int] == moved);
                    assert(pre.to_multiset().contains(moved));
                    assert(post.to_multiset() =~= pre.to_multiset());
                    // the ghost permutation mirrors the move
                    pre.remove_ensures(i as int);
                    perm_pre.remove_ensures(i as int);
                    assert forall|k: int| 0 <= k < n implies #[trigger] perm[k] == (
                    if k < j {
                        perm_pre[k]
                    } else if k == j {
                        perm_pre[i as int]
                    } else if k <= i {
                        perm_pre[k - 1]
                    } else {
                        perm_pre[k]
                    }) by {
                        if k < j {
                            assert(perm.remove(0).len() >= 0);
                        }
                    }
                    assert forall|k: int| 0 <= k < n implies post[k] == old(self).layers@[
                        #[trigger] perm[k]
                    ] by {
                        if k < j {
                            assert(post[k] == pre[k]);
                        } else if k == j {
                            assert(post[k] == moved && perm[k] == perm_pre[i as int]);
                        } else if k <= i {
                            assert(post[k] == pre[k - 1]);
                        } else {
                            assert(post[k] == pre[k]);
                        }
                    }
                    assert forall|k1: int, k2: int| 0 <= k1 < k2 < n implies #[trigger] perm[k1]
                        != #[trigger] perm[k2] by {
                    }
                    // the inserted node's earlier neighbours all came from
                    // lower original positions, and every displaced node
                    // sorts strictly after it, so ties keep their order
                    assert forall|k: int| 0 <= k < i + 1 && k != j implies #[trigger] perm[k]
                        < perm_pre[i as int] by {
                        let pv = perm[k];
                        if pv >= i {
                            if pv > i {
                                assert(perm_pre[pv] == pv);
                            }
                            assert(false);
                        }
                    }
                    lemma_layer_le_total();
                    assert forall|a: int, b: int|
                        0 <= a < b < i + 1 && spec_layer_le(post[a].layer_id, post[b].layer_id)
                            && spec_layer_le(post[b].layer_id, post[a].layer_id)
                            implies #[trigger] perm[a] < #[trigger] perm[b] by {
                        if b < j {
                        } else if b == j {
                            // impossible: everything before j sorts weakly
                            // before the inserted key, which sorts
                            // strictly before position j's old key
                            assert(perm[a] < perm_pre[i as int]);
                        } else if a == j {
                            assert(!spec_layer_le(pre[j as int].layer_id, key));
                            assert(spec_layer_le(key, pre[b - 1].layer_id));
                            if spec_layer_le(pre[b - 1].layer_id, key) {
                                assert(spec_layer_le(pre[j as int].layer_id, pre[b - 1].layer_id));
                                assert(false);
                            }
                        } else if a < j {
                            assert(post[a] == pre[a] && post[b] == pre[b - 1]);
                            assert(perm[a] == perm_pre[a] && perm[b] == perm_pre[b - 1]);
                        } else {
                            assert(post[a] == pre[a - 1] && post[b] == pre[b - 1]);
                            assert(perm[a] == perm_pre[a - 1] && perm[b] == perm_pre[b - 1]);
                        }
                    }
                    // sortedness of the new prefix of length i + 1
                    assert forall|a: int, b: int| 0 <= a < b < i + 1 implies
                        spec_layer_le(#[trigger] post[a].layer_id, #[trigger] post[b].layer_id) by {
                        lemma_layer_le_total();
                        assert(!spec_layer_le(pre[j as int].layer_id, key));
                        assert(spec_layer_le(key, pre[j as int].layer_id));
                        if b < j {
                            assert(post[a] == pre[a] && post[b] == pre[b]);
                        } else if b == j {
                            assert(post[a] == pre[a] && post[b] == moved);
                        } else if a < j {
                            assert(post[a] == pre[a] && post[b] == pre[b - 1]);
                        } else if a == j {
                            assert(post[a] == moved && post[b] == pre[b - 1]);
                        } else {
                            assert(post[a] == pre[a - 1] && post[b] == pre[b - 1]);
                        }
                    }
                }
            } else {
                proof {
                    assert forall|a: int, b: int| 0 <= a < b < i + 1 implies
                        spec_layer_le(#[trigger] self.layers@[a].layer_id, #[trigger] self.layers@[b].layer_id) by {
                    }
                    assert forall|a: int| 0 <= a < i implies #[trigger] perm[a] < perm[i as int] by {
                        if perm[a] >= i {
                            if perm[a] > i {
                                assert(perm[perm[a]] == perm[a]);
                            }
                            assert(false);
                        }
                        assert(perm[i as int] == i);
                    }
                }
            }
            i += 1;
        }
        proof {
            assert(spec_stable_perm(old(self).layers@, self.layers@, perm));
        }
    }

    /// The indices (in lane order) of the nodes whose layer id is the given
    /// one, an unassigned layer counting as layer zero.
    pub fn get_nodes_by_layer_id(&self, layer_id: usize) -> (idxs: Vec<usize>)
        ensures
            forall|k: int| 0 <= k < idxs@.len() ==> 0 <= #[trigger] idxs@[k] < self.layers@.len(),
            forall|k: int| 0 <= k < idxs@.len()
                ==> spec_effective_layer(self.layers@[#[trigger] idxs@[k] as int]) == layer_id,
            forall|i: int| 0 <= i < self.layers@.len()
                && spec_effective_layer(#[trigger] self.layers@[i]) == layer_id ==> idxs@.contains(i as usize),
            forall|k1: int, k2: int| 0 <= k1 < k2 < idxs@.len() ==> #[trigger] idxs@[k1] < #[trigger] idxs@[k2],
    {
        let mut idxs: Vec<usize> = Vec::new();
        let n = self.layers.len();
        let mut i: usize = 0;
        while i < n
            invariant
                n == self.layers@.len(),
                0 <= i <= n,
                forall|k: int| 0 <= k < idxs@.len() ==> 0 <= #[trigger] idxs@[k] < i,
                forall|k: int| 0 <= k < idxs@.len()
                    ==> spec_effective_layer(self.layers@[#[trigger] idxs@[k] as int]) == layer_id,
                forall|q: int| 0 <= q < i
                    && spec_effective_layer(#[trigger] self.layers@[q]) == layer_id ==> idxs@.contains(q as usize),
                forall|k1: int, k2: int| 0 <= k1 < k2 < idxs@.len() ==> #[trigger] idxs@[k1] < #[trigger] idxs@[k2],
            decreases n - i,
        {
            let eff = match self.layers[i].layer_id {
                Option::Some(l) => l,
                Option::None => 0,
            };
            if eff == layer_id {
                let ghost old_idxs = idxs@;
                idxs.push(i);
                proof {
                    assert forall|q: int| 0 <= q < i + 1
                        && spec_effective_layer(#[trigger] self.layers@[q]) == layer_id implies idxs@.contains(
                        q as usize,
                    ) by {
                        if q < i {
                            let j = choose|j: int| 0 <= j < old_idxs.len() && old_idxs[j] == q as usize;
                            assert(idxs@[j] == q as usize);
                        } else {
                            assert(idxs@[idxs@.len() - 1] == i);
                        }
                    }
                }
            }
            i += 1;
        }
        idxs
    }

    /// Looks up a node by id; returns the first match in lane order.
    pub fn get_node_by_id(&self, id: usize) -> (found: Option<&Node>)
        ensures
            match found {
                Option::Some(node) => node.id == id && self.layers@.contains(*node),
                Option::None => forall|i: int| 0 <= i < self.layers@.len() ==> (#[trigger] self.layers@[i]).id != id,
            },
    {
        let n = self.layers.len();
        let mut i: usize = 0;
        while i < n
            invariant
                n == self.layers@.len(),
                0 <= i <= n,
                forall|k: int| 0 <= k < i ==> (#[trigger] self.layers@[k]).id != id,
            decreases n - i,
        {
            if self.layers[i].id == id {
                return Some(&self.layers[i]);
            }
            i += 1;
        }
        None
    }

    /// Sets the computed width.
    pub fn set_width(&mut self, width: usize)
        ensures
            *final(self) == (Lane { width: Some(width), ..*old(self) }),
    {
        self.width = Some(width);
    }

    /// Sets the computed height.
    pub fn set_height(&mut self, height: usize)
        ensures
            *final(self) == (Lane { height: Some(height), ..*old(self) }),
    {
        self.height = Some(height);
    }

    /// Sets the computed position.
    pub fn set_position(&mut self, x: usize, y: usize)
        ensures
            *final(self) == (Lane { x: Some(x), y: Some(y), ..*old(self) }),
    {
        self.x = Some(x);
        self.y = Some(y);
    }
}

/// The layer a node is treated as belonging to: its layer id, or zero when
/// none has been assigned.
pub open spec fn spec_effective_layer(node: Node) -> usize {
    match node.layer_id {
        Option::Some(l) => l,
        Option::None => 0,
    }
}

/// Inserting an element anywhere in a sequence adds it once to the
/// sequence's multiset.
pub proof fn lemma_insert_to_multiset(s: Seq<Node>, j: int, x: Node)
    requires
        0 <= j <= s.len(),
    ensures
        s.insert(j, x).to_multiset() =~= s.to_multiset().insert(x),
{
    let left = s.take(j);
    let right = s.skip(j);
    assert(s.insert(j, x) =~= left.push(x) + right);
    assert(s =~= left + right);
    vstd::seq_lib::lemma_multiset_commutative(left.push(x), right);
    vstd::seq_lib::lemma_multiset_commutative(left, right);
    left.to_multiset_ensures();
    assert(left.push(x).to_multiset() =~= left.to_multiset().insert(x));
}

/// The layer-id order is total and transitive.
pub proof fn lemma_layer_le_total()
    ensures
        forall|a: Option<usize>, b: Option<usize>|
            #[trigger] spec_layer_le(a, b) || #[trigger] spec_layer_le(b, a),
        forall|a: Option<usize>, b: Option<usize>, c: Option<usize>|
            #[trigger] spec_layer_le(a, b) && #[trigger] spec_layer_le(b, c) ==> spec_layer_le(a, c),
{
}

} // verus!
