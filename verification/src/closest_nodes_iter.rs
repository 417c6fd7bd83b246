//! The frontier of a lookup: the peers heard of so far, nearest to the
//! target first, and which of them were already asked.

use vstd::prelude::*;
use crate::id::NodeId;
use crate::nearest::{
    insert_all_by_distance, insert_sorted, sort_by_distance, sorted_by_distance, take_upto,
};
use crate::node::Node;

verus! {

/// Position of the first peer of `nodes` that is not in `visited`, or the
/// length of `nodes` when all are.
pub open spec fn first_unvisited(nodes: Seq<Node>, visited: Seq<NodeId>) -> int
    decreases nodes.len(),
{
    if nodes.len() == 0 {
        0
    } else if !visited.contains(nodes[0].node_id) {
        0
    } else {
        1 + first_unvisited(nodes.skip(1), visited)
    }
}

/// `first_unvisited` names a peer that was not asked, unless all were, and
/// every peer before it was asked.
pub proof fn lemma_first_unvisited(nodes: Seq<Node>, visited: Seq<NodeId>)
    ensures
        0 <= first_unvisited(nodes, visited) <= nodes.len(),
        first_unvisited(nodes, visited) < nodes.len() ==> !visited.contains(
            nodes[first_unvisited(nodes, visited)].node_id,
        ),
        forall|j: int|
            0 <= j < first_unvisited(nodes, visited) ==> visited.contains(
                (#[trigger] nodes[j]).node_id,
            ),
    decreases nodes.len(),
{
    if nodes.len() > 0 && visited.contains(nodes[0].node_id) {
        let t = nodes.skip(1);
        lemma_first_unvisited(t, visited);
        assert forall|j: int| 0 <= j < first_unvisited(nodes, visited) implies visited.contains(
            (#[trigger] nodes[j]).node_id,
        ) by {
            if j > 0 {
                assert(t[j - 1] == nodes[j]);
            }
        }
    }
}

/// What a frontier holds: the target, how many nearest peers the lookup
/// converges on, the peers heard of, nearest first, and the identifiers of
/// those that were handed out to be asked.
pub struct FrontierView {
    pub key: NodeId,
    pub count: usize,
    pub nodes: Seq<Node>,
    pub visited: Seq<NodeId>,
}

impl FrontierView {
    /// The peers are in order of distance, each once.
    pub open spec fn valid(self) -> bool {
        sorted_by_distance(self.key, self.nodes)
    }

    /// How many of the nearest peers are worth asking.
    pub open spec fn limit(self) -> int {
        if self.count < self.nodes.len() {
            self.count as int
        } else {
            self.nodes.len() as int
        }
    }

    /// Position of the nearest peer worth asking that was not asked yet;
    /// `limit()` when there is none.
    pub open spec fn next_index(self) -> int {
        first_unvisited(self.nodes.take(self.limit()), self.visited)
    }

    /// Whether a peer is left to ask.
    pub open spec fn has_next(self) -> bool {
        self.next_index() < self.limit()
    }
}

/// Whether `v` holds `id`.
pub fn contains_id(v: &Vec<NodeId>, id: &NodeId) -> (r: bool)
    ensures
        r == v@.contains(*id),
{
    let mut i: usize = 0;
    while i < v.len()
        invariant
            i <= v.len(),
            forall|j: int| 0 <= j < i ==> v[j] != *id,
        decreases v.len() - i,
    {
        if v[i] == *id {
            return true;
        }
        i += 1;
    }
    false
}

/// The frontier of one lookup.
pub struct ClosestNodesIter {
    key: NodeId,
    count: usize,
    nodes: Vec<Node>,
    visited: Vec<NodeId>,
}

impl View for ClosestNodesIter {
    type V = FrontierView;

    closed spec fn view(&self) -> FrontierView {
        FrontierView {
            key: self.key,
            count: self.count,
            nodes: self.nodes@,
            visited: self.visited@,
        }
    }
}

impl ClosestNodesIter {
    /// Whether the frontier keeps its order.
    pub open spec fn wf(&self) -> bool {
        self@.valid()
    }

    /// A frontier towards `key` that converges on `count` peers and starts
    /// from `seed`; nobody was asked yet.
    pub fn new(key: NodeId, count: usize, seed: &Vec<Node>) -> (it: ClosestNodesIter)
        ensures
            it.wf(),
            it@ == (FrontierView {
                key,
                count,
                nodes: sort_by_distance(key, seed@),
                visited: Seq::empty(),
            }),
    {
        let mut it = ClosestNodesIter { key, count, nodes: Vec::new(), visited: Vec::new() };
        it.add_nodes(seed);
        it
    }

    /// Merges `peers` into the frontier: a peer heard of before, asked or
    /// not, is dropped; the others take their place by distance.
    pub fn add_nodes(&mut self, peers: &Vec<Node>)
        requires
            old(self).wf(),
        ensures
            final(self).wf(),
            final(self)@ == (FrontierView {
                nodes: insert_all_by_distance(old(self)@.key, old(self)@.nodes, peers@),
                ..old(self)@
            }),
    {
        let mut i: usize = 0;
        while i < peers.len()
            invariant
                i <= peers.len(),
                self.key == old(self).key,
                self.count == old(self).count,
                self.visited == old(self).visited,
                sorted_by_distance(self.key, self.nodes@),
                self.nodes@ == insert_all_by_distance(
                    self.key,
                    old(self).nodes@,
                    peers@.take(i as int),
                ),
            decreases peers.len() - i,
        {
            proof {
                assert(peers@.take(i + 1).drop_last() =~= peers@.take(i as int));
            }
            let _ = insert_sorted(&mut self.nodes, &self.key, peers[i]);
            i += 1;
        }
        proof {
            assert(peers@.take(peers.len() as int) =~= peers@);
        }
    }

    /// Hands out the nearest peer worth asking that was not handed out
    /// before, and marks it; none when the `count` nearest peers known were
    /// all handed out.
    pub fn next(&mut self) -> (r: Option<Node>)
        requires
            old(self).wf(),
        ensures
            final(self).wf(),
            r is Some <==> old(self)@.has_next(),
            r matches Some(n) ==> n == old(self)@.nodes[old(self)@.next_index()]
                && !old(self)@.visited.contains(n.node_id) && final(self)@ == (FrontierView {
                visited: old(self)@.visited.push(n.node_id),
                ..old(self)@
            }),
            r is None ==> final(self)@ == old(self)@,
    {
        let limit = if self.count < self.nodes.len() {
            self.count
        } else {
            self.nodes.len()
        };
        let ghost top = self@.nodes.take(limit as int);
        let mut i: usize = 0;
        while i < limit
            invariant
                i <= limit,
                limit <= self.nodes.len(),
                *self == *old(self),
                self.wf(),
                limit == self@.limit(),
                top == self.nodes@.take(limit as int),
                forall|j: int| 0 <= j < i ==> self.visited@.contains((#[trigger] top[j]).node_id),
            decreases limit - i,
        {
            if !contains_id(&self.visited, &self.nodes[i].node_id) {
                proof {
                    lemma_first_unvisited(top, self.visited@);
                    assert(top[i as int] == self.nodes@[i as int]);
                }
                let n = self.nodes[i];
                self.visited.push(n.node_id);
                return Some(n);
            }
            proof {
                assert(top[i as int] == self.nodes@[i as int]);
            }
            i += 1;
        }
        proof {
            lemma_first_unvisited(top, self.visited@);
        }
        None
    }

    /// The `n` nearest peers among all that the frontier ever heard of,
    /// nearest first.
    pub fn get_closest_nodes(&self, n: usize) -> (r: Vec<Node>)
        ensures
            r@ == take_upto(self@.nodes, n as int),
    {
        let mut out: Vec<Node> = Vec::new();
        let mut i: usize = 0;
        while i < self.nodes.len() && i < n
            invariant
                i <= self.nodes.len(),
                i <= n,
                out@ == self.nodes@.take(i as int),
            decreases self.nodes.len() - i,
        {
            out.push(self.nodes[i]);
            proof {
                assert(self.nodes@.take(i + 1) =~= self.nodes@.take(i as int).push(
                    self.nodes@[i as int],
                ));
            }
            i += 1;
        }
        proof {
            if i == self.nodes.len() {
                assert(self.nodes@.take(i as int) =~= self.nodes@);
            }
        }
        out
    }

    /// The target of the lookup.
    pub fn key(&self) -> (key: NodeId)
        ensures
            key == self@.key,
    {
        self.key
    }

    /// Whether a peer is left to hand out.
    pub fn has_next(&self) -> (r: bool)
        requires
            self.wf(),
        ensures
            r == self@.has_next(),
    {
        let limit = if self.count < self.nodes.len() {
            self.count
        } else {
            self.nodes.len()
        };
        let ghost top = self@.nodes.take(limit as int);
        let mut i: usize = 0;
        while i < limit
            invariant
                i <= limit,
                limit <= self.nodes.len(),
                limit == self@.limit(),
                top == self.nodes@.take(limit as int),
                forall|j: int| 0 <= j < i ==> self.visited@.contains((#[trigger] top[j]).node_id),
            decreases limit - i,
        {
            proof {
                assert(top[i as int] == self.nodes@[i as int]);
            }
            if !contains_id(&self.visited, &self.nodes[i].node_id) {
                proof {
                    lemma_first_unvisited(top, self.visited@);
                }
                return true;
            }
            i += 1;
        }
        proof {
            lemma_first_unvisited(top, self.visited@);
        }
        false
    }

    /// How many peers the frontier has heard of.
    pub fn len(&self) -> (n: usize)
        ensures
            n == self@.nodes.len(),
    {
        self.nodes.len()
    }
}

} // verus!
