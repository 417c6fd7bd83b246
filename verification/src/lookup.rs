//! The iterative lookup: which peer to ask next, what to make of each
//! answer, and when the lookup is over.

use vstd::prelude::*;
use crate::closest_nodes_iter::{lemma_first_unvisited, ClosestNodesIter, FrontierView};
use crate::id::{Cookie, NodeId};
use crate::kademlia::{FindJob, ALPHA_PARAM, K_PARAM};
use crate::message::{FindNode, FindValue, Message, MessageView};
use crate::nearest::{insert_all_by_distance, sort_by_distance, take_upto};
use crate::node::Node;
use crate::seqs::{lemma_without_push, without};
use crate::values::{add_values, copy_values, values_view, with_values};

verus! {

/// What the driver of a lookup or a probe is to do next.
pub enum Step {
    /// Send `msg` to `to`, and come back for more.
    Send { to: Node, msg: Message },
    /// Wait for an answer or a timeout; nothing can be sent now.
    Wait,
    /// Nothing is left to send or to wait for.
    Done,
}

/// The records of the peer `id`.
pub open spec fn is_peer(id: NodeId) -> spec_fn(Node) -> bool {
    |n: Node| n.node_id == id
}

/// One less, but not below zero.
pub open spec fn one_less(n: usize) -> usize {
    if n > 0 {
        (n - 1) as usize
    } else {
        0
    }
}

/// What a lookup holds.
pub struct LookupView {
    pub job: FindJob,
    pub own_id: NodeId,
    pub frontier: FrontierView,
    pub values: Seq<Seq<u8>>,
    pub value_nodes: usize,
    pub in_flight: usize,
    pub finished: bool,
}

impl LookupView {
    /// The invariants of a lookup: a frontier in order, and no more than
    /// `ALPHA_PARAM` requests in flight.
    pub open spec fn valid(self) -> bool {
        &&& self.frontier.valid()
        &&& self.in_flight <= ALPHA_PARAM
    }

    /// A lookup of `key` by the node `own_id` that starts from the peers
    /// `seed`. It asks nobody twice, converges on `K_PARAM` peers, and, if
    /// it is after values, ends once `K_PARAM` peers have brought some.
    pub open spec fn start(job: FindJob, own_id: NodeId, key: NodeId, seed: Seq<Node>) -> LookupView {
        LookupView {
            job,
            own_id,
            frontier: FrontierView {
                key,
                count: K_PARAM,
                nodes: sort_by_distance(key, seed),
                visited: Seq::empty(),
            },
            values: Seq::empty(),
            value_nodes: K_PARAM,
            in_flight: 0,
            finished: false,
        }
    }

    /// The request that the lookup sends under `cookie`.
    pub open spec fn request(self, cookie: Cookie) -> MessageView {
        match self.job {
            FindJob::Node => MessageView::FindNode {
                sender_id: Some(self.own_id),
                cookie,
                key: self.frontier.key,
            },
            FindJob::Value => MessageView::FindValue {
                sender_id: Some(self.own_id),
                cookie,
                key: self.frontier.key,
            },
        }
    }

    /// Whether a request can go out now.
    pub open spec fn can_send(self) -> bool {
        !self.finished && self.in_flight < ALPHA_PARAM && self.frontier.has_next()
    }

    /// Whether the lookup is over: enough values were found, or nobody is
    /// left to ask and no answer is awaited.
    pub open spec fn is_done(self) -> bool {
        self.finished || (self.in_flight == 0 && !self.frontier.has_next())
    }

    /// The peer that the next request goes to.
    pub open spec fn next_peer(self) -> Node {
        self.frontier.nodes[self.frontier.next_index()]
    }

    /// The lookup after a request went out to the next peer.
    pub open spec fn sent(self) -> LookupView {
        LookupView {
            frontier: FrontierView {
                visited: self.frontier.visited.push(self.next_peer().node_id),
                ..self.frontier
            },
            in_flight: (self.in_flight + 1) as usize,
            ..self
        }
    }

    /// The lookup after one request was answered by `resp`, which may be
    /// `Timeout`. A `FoundNode` brings peers to the frontier, the node
    /// itself left out. A `FoundValue`, if values are what the lookup is
    /// after, brings values; one that is not empty counts, and with the
    /// last that counts the lookup is over. A lookup that is over takes
    /// nothing more.
    pub open spec fn heard(self, resp: MessageView) -> LookupView {
        let base = LookupView { in_flight: one_less(self.in_flight), ..self };
        if self.finished {
            self
        } else {
            match resp {
                MessageView::FoundNode { nodes, .. } => LookupView {
                    frontier: FrontierView {
                        nodes: insert_all_by_distance(
                            self.frontier.key,
                            self.frontier.nodes,
                            without(nodes, is_peer(self.own_id)),
                        ),
                        ..self.frontier
                    },
                    ..base
                },
                MessageView::FoundValue { values, .. } => if self.job == FindJob::Value {
                    let left = if values.len() > 0 {
                        one_less(self.value_nodes)
                    } else {
                        self.value_nodes
                    };
                    LookupView {
                        values: with_values(self.values, values),
                        value_nodes: left,
                        finished: left == 0,
                        ..base
                    }
                } else {
                    base
                },
                _ => base,
            }
        }
    }

    /// What the lookup has to show: the values found, each once, or, where
    /// there are none, the `K_PARAM` nearest peers that it heard of.
    pub open spec fn outcome(self) -> Result<Seq<Seq<u8>>, Seq<Node>> {
        if self.values.len() > 0 {
            Ok(self.values)
        } else {
            Err(take_upto(self.frontier.nodes, K_PARAM as int))
        }
    }
}

/// Convergence: a lookup that is over without having found enough values
/// awaits no answer and has asked every one of the `count` nearest peers
/// that it heard of.
pub proof fn lemma_lookup_converged(l: LookupView)
    requires
        l.is_done(),
        !l.finished,
    ensures
        l.in_flight == 0,
        forall|j: int|
            0 <= j < l.frontier.limit() ==> l.frontier.visited.contains(
                (#[trigger] l.frontier.nodes[j]).node_id,
            ),
{
    let top = l.frontier.nodes.take(l.frontier.limit());
    lemma_first_unvisited(top, l.frontier.visited);
    assert forall|j: int| 0 <= j < l.frontier.limit() implies l.frontier.visited.contains(
        (#[trigger] l.frontier.nodes[j]).node_id,
    ) by {
        assert(top[j] == l.frontier.nodes[j]);
    }
}

/// What the outcome of a lookup holds.
pub open spec fn outcome_view(r: Result<Vec<Vec<u8>>, Vec<Node>>) -> Result<Seq<Seq<u8>>, Seq<Node>> {
    match r {
        Ok(v) => Ok(values_view(v@)),
        Err(n) => Err(n@),
    }
}

/// The peers of `nodes` other than `id`.
pub fn without_peer(nodes: &Vec<Node>, id: &NodeId) -> (r: Vec<Node>)
    ensures
        r@ == without(nodes@, is_peer(*id)),
{
    let mut out: Vec<Node> = Vec::new();
    let mut i: usize = 0;
    proof {
        assert(nodes@.take(0) =~= Seq::<Node>::empty());
    }
    while i < nodes.len()
        invariant
            i <= nodes.len(),
            out@ == without(nodes@.take(i as int), is_peer(*id)),
        decreases nodes.len() - i,
    {
        proof {
            lemma_without_push(nodes@.take(i as int), nodes@[i as int], is_peer(*id));
            assert(nodes@.take(i as int).push(nodes@[i as int]) =~= nodes@.take(i + 1));
        }
        if nodes[i].node_id != *id {
            out.push(nodes[i]);
        }
        i += 1;
    }
    proof {
        assert(nodes@.take(nodes.len() as int) =~= nodes@);
    }
    out
}

/// One iterative lookup.
pub struct Lookup {
    job: FindJob,
    own_id: NodeId,
    iter: ClosestNodesIter,
    values: Vec<Vec<u8>>,
    value_nodes: usize,
    in_flight: usize,
    finished: bool,
}

impl View for Lookup {
    type V = LookupView;

    closed spec fn view(&self) -> LookupView {
        LookupView {
            job: self.job,
            own_id: self.own_id,
            frontier: self.iter@,
            values: values_view(self.values@),
            value_nodes: self.value_nodes,
            in_flight: self.in_flight,
            finished: self.finished,
        }
    }
}

impl Lookup {
    /// Whether the lookup keeps its invariants.
    pub open spec fn wf(&self) -> bool {
        self@.valid()
    }

    /// A lookup of `key` by the node `own_id` that starts from `seed`.
    pub fn new(job: FindJob, own_id: NodeId, key: NodeId, seed: &Vec<Node>) -> (l: Lookup)
        ensures
            l.wf(),
            l@ == LookupView::start(job, own_id, key, seed@),
    {
        let l = Lookup {
            job,
            own_id,
            iter: ClosestNodesIter::new(key, K_PARAM, seed),
            values: Vec::new(),
            value_nodes: K_PARAM,
            in_flight: 0,
            finished: false,
        };
        proof {
            assert(values_view(l.values@) =~= Seq::<Seq<u8>>::empty());
        }
        l
    }

    /// Whether the lookup is over.
    pub fn is_done(&self) -> (r: bool)
        requires
            self.wf(),
        ensures
            r == self@.is_done(),
    {
        self.finished || (self.in_flight == 0 && !self.iter.has_next())
    }

    /// Says what to do next. While fewer than `ALPHA_PARAM` requests are in
    /// flight and a peer is left to ask, the next request goes to the
    /// nearest such peer, under `cookie`. Else the driver waits while
    /// answers are awaited, and is done when none is.
    pub fn next_request(&mut self, cookie: Cookie) -> (r: Step)
        requires
            old(self).wf(),
        ensures
            final(self).wf(),
            old(self)@.can_send() ==> final(self)@ == old(self)@.sent() && (r matches Step::Send {
                to,
                msg,
            } && to == old(self)@.next_peer() && !old(self)@.frontier.visited.contains(to.node_id)
                && msg@ == old(self)@.request(cookie)),
            !old(self)@.can_send() ==> final(self)@ == old(self)@ && if old(self)@.is_done() {
                r is Done
            } else {
                r is Wait
            },
    {
        if self.finished {
            return Step::Done;
        }
        if self.in_flight < ALPHA_PARAM {
            match self.iter.next() {
                Some(to) => {
                    self.in_flight += 1;
                    let key = self.iter.key();
                    let msg = match self.job {
                        FindJob::Node => Message::FindNode(
                            FindNode { sender_id: Some(self.own_id), cookie, key },
                        ),
                        FindJob::Value => Message::FindValue(
                            FindValue { sender_id: Some(self.own_id), cookie, key },
                        ),
                    };
                    return Step::Send { to, msg };
                },
                None => {},
            }
        }
        if self.in_flight > 0 {
            Step::Wait
        } else {
            Step::Done
        }
    }

    /// Takes the answer `resp` to one of the requests in flight; a request
    /// that timed out is answered by `Timeout`.
    pub fn on_reply(&mut self, resp: &Message)
        requires
            old(self).wf(),
        ensures
            final(self).wf(),
            final(self)@ == old(self)@.heard(resp@),
    {
        if self.finished {
            return ;
        }
        if self.in_flight > 0 {
            self.in_flight -= 1;
        }
        match resp {
            Message::FoundNode(found_node) => {
                let nodes = without_peer(&found_node.nodes, &self.own_id);
                self.iter.add_nodes(&nodes);
            },
            Message::FoundValue(found_value) => {
                if self.job == FindJob::Value {
                    if found_value.values.len() > 0 && self.value_nodes > 0 {
                        self.value_nodes -= 1;
                    }
                    add_values(&mut self.values, &found_value.values);
                    if self.value_nodes == 0 {
                        self.finished = true;
                    }
                }
            },
            _ => {},
        }
    }

    /// What the lookup has to show: the values found, or, where there are
    /// none, the `K_PARAM` nearest peers that it heard of.
    pub fn outcome(&self) -> (r: Result<Vec<Vec<u8>>, Vec<Node>>)
        ensures
            outcome_view(r) == self@.outcome(),
    {
        if self.values.len() > 0 {
            Ok(copy_values(&self.values))
        } else {
            Err(self.iter.get_closest_nodes(K_PARAM))
        }
    }
}

} // verus!
