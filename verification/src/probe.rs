//! The eviction probe: a peer that found its bucket full is tried against
//! the peers of that bucket, stalest first.

use vstd::prelude::*;
use crate::id::{Cookie, NodeId};
use crate::kademlia::ALPHA_PARAM;
use crate::lookup::{one_less, Step};
use crate::message::{Message, MessageView, Ping};
use crate::node::Node;

verus! {

/// What a probe holds.
pub struct ProbeView {
    /// The peer that waits for a place.
    pub replacement: Node,
    /// The peers to ping, in the order in which they are pinged.
    pub order: Seq<Node>,
    /// How many of them were pinged.
    pub next: usize,
    pub in_flight: usize,
    pub done: bool,
}

impl ProbeView {
    /// The invariants of a probe: it has pinged no more peers than there
    /// are, and has no more than `ALPHA_PARAM` pings in flight.
    pub open spec fn valid(self) -> bool {
        &&& self.next <= self.order.len()
        &&& self.in_flight <= ALPHA_PARAM
    }

    /// A probe for `replacement` that is to ping `order`.
    pub open spec fn start(replacement: Node, order: Seq<Node>) -> ProbeView {
        ProbeView { replacement, order, next: 0, in_flight: 0, done: false }
    }

    /// Whether a ping can go out now.
    pub open spec fn can_send(self) -> bool {
        !self.done && self.in_flight < ALPHA_PARAM && self.next < self.order.len()
    }

    /// Whether the probe is over: the replacement has its place, or
    /// everybody was pinged and no answer is awaited.
    pub open spec fn is_done(self) -> bool {
        self.done || (self.in_flight == 0 && self.next >= self.order.len())
    }

    /// The probe after a ping went out.
    pub open spec fn sent(self) -> ProbeView {
        ProbeView {
            next: (self.next + 1) as usize,
            in_flight: (self.in_flight + 1) as usize,
            ..self
        }
    }

    /// The probe after one ping was answered, and the probe is over if
    /// `over` says so.
    pub open spec fn answered(self, over: bool) -> ProbeView {
        if self.done {
            self
        } else {
            ProbeView { in_flight: one_less(self.in_flight), done: over, ..self }
        }
    }
}

/// One eviction probe.
pub struct Probe {
    replacement: Node,
    order: Vec<Node>,
    next: usize,
    in_flight: usize,
    done: bool,
}

impl View for Probe {
    type V = ProbeView;

    closed spec fn view(&self) -> ProbeView {
        ProbeView {
            replacement: self.replacement,
            order: self.order@,
            next: self.next,
            in_flight: self.in_flight,
            done: self.done,
        }
    }
}

impl Probe {
    /// Whether the probe keeps its invariants.
    pub open spec fn wf(&self) -> bool {
        self@.valid()
    }

    /// A probe for `replacement` that is to ping `order`.
    pub fn new(replacement: Node, order: Vec<Node>) -> (p: Probe)
        ensures
            p.wf(),
            p@ == ProbeView::start(replacement, order@),
    {
        Probe { replacement, order, next: 0, in_flight: 0, done: false }
    }

    /// The peer that waits for a place.
    pub fn replacement(&self) -> (n: Node)
        ensures
            n == self@.replacement,
    {
        self.replacement
    }

    /// Whether the replacement has its place.
    pub fn is_finished(&self) -> (r: bool)
        ensures
            r == self@.done,
    {
        self.done
    }

    /// Whether the probe is over.
    pub fn is_done(&self) -> (r: bool)
        ensures
            r == self@.is_done(),
    {
        self.done || (self.in_flight == 0 && self.next >= self.order.len())
    }

    /// Says what to do next. While fewer than `ALPHA_PARAM` pings are in
    /// flight and a peer is left to ping, the next `Ping` goes out in the
    /// name of `own_id` and under `cookie`. Else the driver waits while
    /// answers are awaited, and is done when none is.
    pub fn next_request(&mut self, own_id: NodeId, cookie: Cookie) -> (r: Step)
        requires
            old(self).wf(),
        ensures
            final(self).wf(),
            old(self)@.can_send() ==> final(self)@ == old(self)@.sent() && (r matches Step::Send {
                to,
                msg,
            } && to == old(self)@.order[old(self)@.next as int] && msg@ == (MessageView::Ping {
                sender_id: Some(own_id),
                cookie,
            })),
            !old(self)@.can_send() ==> final(self)@ == old(self)@ && if old(self)@.is_done() {
                r is Done
            } else {
                r is Wait
            },
    {
        if self.done {
            return Step::Done;
        }
        if self.in_flight < ALPHA_PARAM && self.next < self.order.len() {
            let to = self.order[self.next];
            self.next += 1;
            self.in_flight += 1;
            return Step::Send { to, msg: Message::Ping(Ping { sender_id: Some(own_id), cookie }) };
        }
        if self.in_flight > 0 {
            Step::Wait
        } else {
            Step::Done
        }
    }

    /// Notes that one ping was answered, and that the probe is over if
    /// `over` says so. A probe that is over takes nothing more.
    pub fn answered(&mut self, over: bool)
        requires
            old(self).wf(),
        ensures
            final(self).wf(),
            final(self)@ == old(self)@.answered(over),
    {
        if !self.done {
            if self.in_flight > 0 {
                self.in_flight -= 1;
            }
            self.done = over;
        }
    }
}

} // verus!
