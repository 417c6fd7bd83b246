//! The node itself: its parameters, its state, and its transitions.
//!
//! A node owns a routing table and the two tiers of the value store. Each
//! function here is one step of the node: it takes the state and what
//! happened, and gives the next state and what is to be sent.

use vstd::prelude::*;
use crate::clock::expiry_at;
use crate::id::{Cookie, NodeId};
use crate::kbuckets::{lemma_add_all_keeps, lemma_add_all_valid, KBuckets, TableView};
use crate::lookup::{Lookup, LookupView};
use crate::message::{optional_view, FoundNode, FoundValue, Message, MessageView, Pong, Store};
use crate::nearest::nearest_of;
use crate::node::{sort_by_last_seen, stalest_first, Address, Node};
use crate::probe::{Probe, ProbeView};
use crate::seqs::{lemma_without, without};
use crate::storage::{
    bindings_within, lemma_swept, lemma_timed_stored, lemma_values_for, lemma_without_bindings,
    live_values, matching, stored, swept, timed_stored, timed_unique, timed_within, values_for,
    Binding, ExternalStorage, InternalStorage, TimedBinding,
};
use crate::values::{add_values, lemma_with_values, values_view, with_values};

verus! {

/// Capacity of one bucket, and the number of peers a lookup converges on.
pub const K_PARAM: usize = 20;

/// How many requests one lookup keeps in flight.
pub const ALPHA_PARAM: usize = 3;

/// How long a request waits for its reply, in milliseconds.
pub const TIMEOUT_MS: u32 = 2000;

/// Longest value that is stored or published, in bytes.
pub const MAX_VALUE_LEN: usize = 2048;

/// How long a value stored by another node is kept, in minutes.
pub const TTL_MINUTES: i64 = 15;

/// How long a value stored by another node is kept, in milliseconds.
pub const TTL_MS: u64 = 900_000;

/// How long the node waits between two lookups of a random identifier, in
/// milliseconds.
pub const REFRESH_PERIOD_MS: u32 = 60_000;

/// `time::Duration::minutes`, read back with `Duration::num_milliseconds`:
/// a duration of whole minutes counts sixty thousand milliseconds to the
/// minute. `Duration::minutes` panics beyond `i64::MAX` milliseconds, which
/// the bound on `minutes` keeps away from.
#[verifier::external_body]
fn minutes_in_millis(minutes: i64) -> (ms: i64)
    requires
        0 <= minutes <= 153_722_867_280_912,
    ensures
        ms == minutes * 60_000,
{
    time::Duration::minutes(minutes).num_milliseconds()
}

/// How long a value stored by another node is kept, in milliseconds.
pub fn value_ttl() -> (ms: u64)
    ensures
        ms == TTL_MS,
{
    minutes_in_millis(TTL_MINUTES) as u64
}

/// What a lookup is after.
#[derive(Clone, Copy, Debug, PartialEq, Eq, Structural)]
pub enum FindJob {
    Node,
    Value,
}

/// Why a message is turned away.
#[derive(Clone, Copy, Debug, PartialEq, Eq, Structural)]
pub enum HandleError {
    /// The message names no sender.
    MissingSenderId,
    /// The message claims the local identifier as its sender's.
    SelfIdClaim,
}

impl HandleError {
    /// The complaint in words.
    pub fn describe(&self) -> (s: &'static str)
        ensures
            s@ == match *self {
                HandleError::MissingSenderId => "You don't have a NodeId!"@,
                HandleError::SelfIdClaim => "Hey, you stole my NodeId!"@,
            },
    {
        match self {
            HandleError::MissingSenderId => "You don't have a NodeId!",
            HandleError::SelfIdClaim => "Hey, you stole my NodeId!",
        }
    }
}

/// What a node holds.
pub struct NodeView {
    pub table: TableView,
    pub internal: Seq<Binding>,
    pub external: Seq<TimedBinding>,
    pub ttl: u64,
}

/// What the node does about a message that it took.
pub struct Reaction {
    /// The answer to send back to where the message came from.
    pub reply: Option<Message>,
    /// A peer that found its bucket full: the stalest peers of that bucket
    /// are to be probed, and the first that is dead gives way to this one.
    pub probe: Option<Node>,
}

/// The records of peers heard from one of `addrs` at `now`.
pub open spec fn heard_at(addrs: Seq<Address>, now: u64) -> spec_fn(Node) -> bool {
    |n: Node| addrs.contains(n.addr) && n.last_seen == now
}

/// The records of peers at the addresses `addrs` that go by the
/// identifiers `ids`, as seen at `now`.
pub open spec fn seeds_of(addrs: Seq<Address>, ids: Seq<NodeId>, now: u64) -> Seq<Node> {
    Seq::new(addrs.len(), |i: int| Node { addr: addrs[i], node_id: ids[i], last_seen: now })
}

/// Whether a lookup of the local identifier shows it to be taken: `found`
/// has a peer under `own_id` at an address other than `local_addr`.
pub open spec fn collides(found: Seq<Node>, own_id: NodeId, local_addr: Address) -> bool {
    exists|i: int|
        0 <= i < found.len() && (#[trigger] found[i]).node_id == own_id && found[i].addr
            != local_addr
}

/// The values that a lookup brought back.
pub open spec fn found_values(found: Result<Vec<Vec<u8>>, Vec<Node>>) -> Seq<Seq<u8>> {
    match found {
        Ok(v) => values_view(v@),
        Err(_) => Seq::empty(),
    }
}

impl NodeView {
    /// The local identifier.
    pub open spec fn own_id(self) -> NodeId {
        self.table.own_id
    }

    /// A node under `own_id` that holds nothing and was offered `seeds`.
    pub open spec fn seeded(own_id: NodeId, seeds: Seq<Node>) -> NodeView {
        NodeView { table: TableView::empty(own_id).add_all(seeds), ..Self::fresh(own_id) }
    }

    /// The node after the peers `found` were offered to its routing table.
    pub open spec fn joined(self, found: Seq<Node>) -> NodeView {
        NodeView { table: self.table.add_all(found), ..self }
    }

    /// The node under the new identifier `id`, its peers filed afresh.
    pub open spec fn renamed(self, id: NodeId) -> NodeView {
        NodeView { table: TableView::empty(id).add_all(self.table.nodes()), ..self }
    }

    /// The invariants of a node: a valid routing table, no value twice
    /// under one key in either tier, and no value longer than
    /// `MAX_VALUE_LEN` anywhere.
    pub open spec fn valid(self) -> bool {
        &&& self.table.valid()
        &&& self.internal.no_duplicates()
        &&& timed_unique(self.external)
        &&& bindings_within(self.internal, MAX_VALUE_LEN as int)
        &&& timed_within(self.external, MAX_VALUE_LEN as int)
    }

    /// A node that knows nobody and holds nothing.
    pub open spec fn fresh(own_id: NodeId) -> NodeView {
        NodeView {
            table: TableView::empty(own_id),
            internal: Seq::empty(),
            external: Seq::empty(),
            ttl: TTL_MS,
        }
    }

    /// The values that the node itself holds under `key` at `now`: its own,
    /// then those that others have stored and that have not lapsed.
    pub open spec fn local_values(self, key: NodeId, now: u64) -> Seq<Seq<u8>> {
        values_for(self.internal, key) + live_values(self.external, key, now)
    }

    /// The node after a local `put` of a value of admissible length.
    pub open spec fn put(self, key: NodeId, value: Seq<u8>) -> NodeView {
        NodeView { internal: stored(self.internal, Binding { key, value }), ..self }
    }

    /// Why `msg` is turned away, if it is.
    pub open spec fn rejection(self, msg: MessageView) -> Option<HandleError> {
        if msg is Timeout {
            None
        } else {
            match msg.sender() {
                None => Some(HandleError::MissingSenderId),
                Some(id) => if id == self.own_id() {
                    Some(HandleError::SelfIdClaim)
                } else {
                    None
                },
            }
        }
    }

    /// Whether `msg` makes its sender known to the routing table.
    pub open spec fn notes_sender(self, msg: MessageView) -> bool {
        !(msg is Timeout) && self.rejection(msg) is None
    }

    /// The record of the sender of `msg`, heard from `src` at `now`.
    pub open spec fn sender_record(src: Address, msg: MessageView, now: u64) -> Node {
        Node { addr: src, node_id: msg.sender()->Some_0, last_seen: now }
    }

    /// The node after the sender of `msg` was offered to the routing table.
    pub open spec fn noted(self, src: Address, msg: MessageView, now: u64) -> NodeView {
        if self.notes_sender(msg) {
            NodeView { table: self.table.add(Self::sender_record(src, msg, now)), ..self }
        } else {
            self
        }
    }

    /// The sender of `msg`, where the routing table had no room for it.
    pub open spec fn overflow(self, src: Address, msg: MessageView, now: u64) -> Option<Node> {
        if self.notes_sender(msg) && !self.table.accepts(Self::sender_record(src, msg, now)) {
            Some(Self::sender_record(src, msg, now))
        } else {
            None
        }
    }

    /// The node after it held what `msg` asks it to hold: the value of a
    /// `Store` of admissible length, to lapse one time to live after `now`.
    pub open spec fn kept(self, msg: MessageView, now: u64) -> NodeView {
        match msg {
            MessageView::Store { key, value, .. } => if value.len() <= MAX_VALUE_LEN {
                NodeView {
                    external: timed_stored(self.external, key, value, expiry_at(now, self.ttl)),
                    ..self
                }
            } else {
                self
            },
            _ => self,
        }
    }

    /// Whether the peer `stale` gives way to `replacement` on the answer
    /// `resp` to a ping: the answer is no `Pong`, and `stale` is in the
    /// bucket of `replacement`.
    pub open spec fn gives_way(self, replacement: Node, stale: NodeId, resp: MessageView) -> bool {
        !(resp is Pong) && self.table.can_evict(stale, replacement)
    }

    /// The `K_PARAM` known peers nearest to `key`, as an answer in the
    /// exchange `cookie`.
    pub open spec fn found_node(self, cookie: Cookie, key: NodeId) -> MessageView {
        MessageView::FoundNode {
            sender_id: Some(self.own_id()),
            cookie,
            nodes: nearest_of(key, self.table.nodes(), K_PARAM as int),
        }
    }

    /// The answer that `msg` gets at `now`, if it gets one.
    pub open spec fn reply_to(self, msg: MessageView, now: u64) -> Option<MessageView> {
        match msg {
            MessageView::Ping { cookie, .. } => Some(
                MessageView::Pong { sender_id: Some(self.own_id()), cookie },
            ),
            MessageView::FindNode { cookie, key, .. } => Some(self.found_node(cookie, key)),
            MessageView::FindValue { cookie, key, .. } => if self.local_values(key, now).len()
                > 0 {
                Some(
                    MessageView::FoundValue {
                        sender_id: Some(self.own_id()),
                        cookie,
                        values: self.local_values(key, now),
                    },
                )
            } else {
                Some(self.found_node(cookie, key))
            },
            _ => None,
        }
    }

    /// What `get` hands out for `key` at `now`, when a lookup has brought
    /// back `remote`: the node's own values and then the remote ones, each
    /// value once.
    pub open spec fn get(self, key: NodeId, now: u64, remote: Seq<Seq<u8>>) -> Seq<Seq<u8>> {
        with_values(with_values(Seq::empty(), self.local_values(key, now)), remote)
    }
}

/// The state of one node.
pub struct Kademlia {
    kbuckets: KBuckets,
    internal_values: InternalStorage,
    external_values: ExternalStorage,
}

impl View for Kademlia {
    type V = NodeView;

    closed spec fn view(&self) -> NodeView {
        NodeView {
            table: self.kbuckets@,
            internal: self.internal_values@,
            external: self.external_values@,
            ttl: self.external_values.time_to_live(),
        }
    }
}

impl Kademlia {
    /// Whether the node keeps its invariants.
    pub open spec fn wf(&self) -> bool {
        self@.valid()
    }

    /// A node under the identifier `own_id` that knows nobody and holds
    /// nothing.
    pub fn with_id(own_id: NodeId) -> (kad: Kademlia)
        ensures
            kad.wf(),
            kad@ == NodeView::fresh(own_id),
    {
        Kademlia {
            kbuckets: KBuckets::new(own_id),
            internal_values: InternalStorage::new(),
            external_values: ExternalStorage::new(value_ttl()),
        }
    }

    /// A node that others can join: under `own_id`, or under an identifier
    /// drawn at random where none is given.
    pub fn new_supernode(own_id: Option<NodeId>) -> (kad: Kademlia)
        ensures
            kad.wf(),
            kad@ == NodeView::fresh(kad@.own_id()),
            own_id matches Some(id) ==> kad@.own_id() == id,
    {
        let id = match own_id {
            Some(id) => id,
            None => Node::generate_id(),
        };
        Self::create(Some(id))
    }

    /// A node under `own_id`, or under an identifier drawn at random where
    /// none is given.
    pub fn create(own_id: Option<NodeId>) -> (kad: Kademlia)
        ensures
            kad.wf(),
            kad@ == NodeView::fresh(kad@.own_id()),
            own_id matches Some(id) ==> kad@.own_id() == id,
    {
        let id = match own_id {
            Some(id) => id,
            None => Node::generate_id(),
        };
        Self::with_id(id)
    }

    /// A node under `own_id` that holds nothing and was offered `seeds`.
    pub fn seeded(own_id: NodeId, seeds: &Vec<Node>) -> (kad: Kademlia)
        ensures
            kad.wf(),
            kad@ == NodeView::seeded(own_id, seeds@),
    {
        let mut kad = Self::with_id(own_id);
        kad.kbuckets.add_all(seeds);
        kad
    }

    /// A node that is about to join the network through `supernodes`. Each
    /// of them is offered to the routing table as seen at `now`, under an
    /// identifier drawn at random, for want of its own. The node goes by
    /// `new_id`, or by an identifier drawn at random where none is given.
    /// Whatever was drawn, the node is the one that `seeded` makes of the
    /// supernodes under those identifiers. What follows is a lookup of the
    /// node's own identifier, whose outcome `join` takes.
    pub fn bootstrap(supernodes: &Vec<Address>, new_id: Option<NodeId>, now: u64) -> (kad:
        Kademlia)
        ensures
            kad.wf(),
            new_id matches Some(id) ==> kad@.own_id() == id,
            kad@.internal == Seq::<Binding>::empty(),
            kad@.external == Seq::<TimedBinding>::empty(),
            kad@.ttl == TTL_MS,
            kad@.table.all(heard_at(supernodes@, now)),
            exists|ids: Seq<NodeId>|
                ids.len() == supernodes.len() && kad@ == NodeView::seeded(
                    kad@.own_id(),
                    #[trigger] seeds_of(supernodes@, ids, now),
                ),
    {
        let mut seeds: Vec<Node> = Vec::new();
        let ghost mut ids: Seq<NodeId> = Seq::empty();
        let mut i: usize = 0;
        while i < supernodes.len()
            invariant
                i <= supernodes.len(),
                seeds.len() == i,
                ids.len() == i,
                forall|k: int|
                    0 <= k < i ==> #[trigger] seeds[k] == (Node {
                        addr: supernodes[k],
                        node_id: ids[k],
                        last_seen: now,
                    }),
            decreases supernodes.len() - i,
        {
            let node = Node::new(supernodes[i], Node::generate_id(), now);
            seeds.push(node);
            proof {
                ids = ids.push(node.node_id);
            }
            i += 1;
        }
        let own_id = match new_id {
            Some(id) => id,
            None => Node::generate_id(),
        };
        proof {
            assert(seeds@ =~= seeds_of(supernodes@, ids, now));
            assert forall|k: int| 0 <= k < seeds@.len() implies heard_at(supernodes@, now)(
                #[trigger] seeds@[k],
            ) by {
                assert(supernodes@[k] == seeds@[k].addr);
            }
            lemma_add_all_keeps(TableView::empty(own_id), seeds@, heard_at(supernodes@, now));
            lemma_add_all_valid(TableView::empty(own_id), seeds@);
        }
        Self::seeded(own_id, &seeds)
    }

    /// Takes the outcome `found` of the lookup of the node's own identifier,
    /// `local_addr` being where the node itself is heard from. If the
    /// identifier is free, the peers found are offered to the routing
    /// table and the node has joined. If another peer goes by it, the node
    /// takes the identifier `fresh` instead and has to look itself up again.
    pub fn resolve_join(&mut self, found: &Vec<Node>, local_addr: Address, fresh: NodeId) -> (joined:
        bool)
        requires
            old(self).wf(),
        ensures
            final(self).wf(),
            joined == !collides(found@, old(self)@.own_id(), local_addr),
            final(self)@ == if joined {
                old(self)@.joined(found@)
            } else {
                old(self)@.renamed(fresh)
            },
    {
        let own_id = self.get_own_id();
        let mut i: usize = 0;
        while i < found.len()
            invariant
                i <= found.len(),
                *self == *old(self),
                self.wf(),
                own_id == self@.own_id(),
                forall|j: int|
                    0 <= j < i ==> !((#[trigger] found[j]).node_id == own_id && found[j].addr
                        != local_addr),
            decreases found.len() - i,
        {
            if found[i].node_id == own_id && found[i].addr != local_addr {
                self.set_own_id(fresh);
                return false;
            }
            i += 1;
        }
        self.kbuckets.add_all(found);
        true
    }

    /// Takes the outcome `found` of the lookup of the node's own identifier
    /// as `resolve_join` does, with a fresh identifier drawn at random.
    pub fn join(&mut self, found: &Vec<Node>, local_addr: Address) -> (joined: bool)
        requires
            old(self).wf(),
        ensures
            final(self).wf(),
            joined == !collides(found@, old(self)@.own_id(), local_addr),
            final(self)@ == if joined {
                old(self)@.joined(found@)
            } else {
                old(self)@.renamed(final(self)@.own_id())
            },
    {
        let fresh = Node::generate_id();
        proof {
            lemma_add_all_valid(TableView::empty(fresh), self@.table.nodes());
        }
        self.resolve_join(found, local_addr, fresh)
    }

    /// Every peer that the node knows.
    pub fn get_nodes(&self) -> (r: Vec<Node>)
        requires
            self.wf(),
        ensures
            r@ == self@.table.nodes(),
    {
        self.kbuckets.get_nodes()
    }

    /// The local identifier.
    pub fn get_own_id(&self) -> (id: NodeId)
        ensures
            id == self@.own_id(),
    {
        self.kbuckets.own_id()
    }

    /// Takes `new_id` as the local identifier and files the known peers
    /// afresh around it.
    pub fn set_own_id(&mut self, new_id: NodeId)
        requires
            old(self).wf(),
        ensures
            final(self).wf(),
            final(self)@ == (NodeView {
                table: TableView::empty(new_id).add_all(old(self)@.table.nodes()),
                ..old(self)@
            }),
    {
        self.kbuckets.set_own_id(new_id);
    }

    /// Half a time to live: how long the owner of a value waits before it
    /// publishes the value again, in milliseconds.
    pub fn republish_period_ms(&self) -> (ms: u64)
        ensures
            ms == self@.ttl / 2,
    {
        self.external_values.ttl() / 2
    }

    /// A fresh cookie, drawn at random.
    pub fn generate_cookie() -> (cookie: Cookie)
        ensures
            cookie@.len() == crate::id::COOKIE_BYTELEN,
    {
        Node::generate_id()
    }

    /// The values that the node itself holds under `key` at `now`.
    pub fn local_values(&self, key: &NodeId, now: u64) -> (r: Vec<Vec<u8>>)
        ensures
            values_view(r@) == self@.local_values(*key, now),
    {
        let mut own = self.internal_values.get(key);
        let mut held = self.external_values.get(key, now);
        let ghost a = own@;
        let ghost b = held@;
        own.append(&mut held);
        proof {
            assert(values_view(a + b) =~= values_view(a) + values_view(b));
        }
        own
    }

    /// The values under `key` that the node can name at `now`, when a
    /// lookup of the key has ended in `found`: what the node itself holds,
    /// then what the lookup brought back, each value once. A key that
    /// nobody holds gives the empty list.
    pub fn get(&self, key: &NodeId, now: u64, found: &Result<Vec<Vec<u8>>, Vec<Node>>) -> (r: Vec<
        Vec<u8>,
    >)
        ensures
            values_view(r@) == self@.get(*key, now, found_values(*found)),
    {
        let local = self.local_values(key, now);
        let mut out: Vec<Vec<u8>> = Vec::new();
        proof {
            assert(values_view(out@) =~= Seq::<Seq<u8>>::empty());
        }
        add_values(&mut out, &local);
        match found {
            Ok(remote) => {
                add_values(&mut out, remote);
            },
            Err(_) => {},
        }
        out
    }

    /// Binds `value` to `key` in the node's own tier. A value of more than
    /// `MAX_VALUE_LEN` bytes is handed back and nothing changes.
    pub fn put(&mut self, key: NodeId, value: Vec<u8>) -> (r: Result<(), Vec<u8>>)
        requires
            old(self).wf(),
        ensures
            final(self).wf(),
            value@.len() > MAX_VALUE_LEN ==> r == Err::<(), Vec<u8>>(value) && final(self)@ == old(
                self,
            )@,
            value@.len() <= MAX_VALUE_LEN ==> r is Ok && final(self)@ == old(self)@.put(
                key,
                value@,
            ),
    {
        if value.len() > MAX_VALUE_LEN {
            return Err(value);
        }
        let ghost b = Binding { key, value: value@ };
        self.internal_values.put(key, value);
        proof {
            let s = old(self)@.internal;
            let r = stored(s, b);
            assert forall|i: int| 0 <= i < r.len() implies (#[trigger] r[i]).value.len()
                <= MAX_VALUE_LEN by {
                if i < s.len() {
                    assert(r[i] == s[i]);
                }
            }
        }
        Ok(())
    }

    /// Forgets the values of other nodes that have lapsed at `now`. No read
    /// at `now` shows a difference.
    pub fn sweep(&mut self, now: u64)
        requires
            old(self).wf(),
        ensures
            final(self).wf(),
            final(self)@ == (NodeView { external: swept(old(self)@.external, now), ..old(self)@ }),
            forall|key: NodeId|
                final(self)@.local_values(key, now) == old(self)@.local_values(key, now),
    {
        proof {
            lemma_swept(self@.external, now, MAX_VALUE_LEN as int);
        }
        self.external_values.sweep(now);
    }

    /// Whether the node owns `value` under `key`: whether the value is
    /// still to be published again.
    pub fn owns(&self, key: &NodeId, value: &Vec<u8>) -> (r: bool)
        ensures
            r == self@.internal.contains(Binding { key: *key, value: value@ }),
    {
        self.internal_values.contains(key, value)
    }

    /// Unbinds `value` from `key` in the node's own tier.
    pub fn remove(&mut self, key: &NodeId, value: &Vec<u8>)
        requires
            old(self).wf(),
        ensures
            final(self).wf(),
            final(self)@ == (NodeView {
                internal: without(old(self)@.internal, matching(*key, Some(value@))),
                ..old(self)@
            }),
    {
        proof {
            lemma_without_bindings(
                self@.internal,
                matching(*key, Some(value@)),
                MAX_VALUE_LEN as int,
            );
        }
        self.internal_values.remove(key, value);
    }

    /// Unbinds every value from `key` in the node's own tier.
    pub fn remove_key(&mut self, key: &NodeId)
        requires
            old(self).wf(),
        ensures
            final(self).wf(),
            final(self)@ == (NodeView {
                internal: without(old(self)@.internal, matching(*key, None)),
                ..old(self)@
            }),
    {
        proof {
            lemma_without_bindings(self@.internal, matching(*key, None), MAX_VALUE_LEN as int);
        }
        self.internal_values.remove_key(key);
    }

    /// The `Store` messages that publish `value` under `key` to `targets`,
    /// each with the address it goes to; all share the cookie `cookie`.
    pub fn publish(&self, key: NodeId, value: &Vec<u8>, cookie: Cookie, targets: &Vec<Node>) -> (r:
        Vec<(Address, Message)>)
        ensures
            r.len() == targets.len(),
            forall|i: int|
                0 <= i < r.len() ==> (#[trigger] r[i]).0 == targets[i].addr && r[i].1@ == (
                MessageView::Store {
                    sender_id: Some(self@.own_id()),
                    cookie,
                    key,
                    value: value@,
                }),
    {
        let own_id = self.get_own_id();
        let mut out: Vec<(Address, Message)> = Vec::new();
        let mut i: usize = 0;
        while i < targets.len()
            invariant
                i <= targets.len(),
                out.len() == i,
                own_id == self@.own_id(),
                forall|j: int|
                    0 <= j < i ==> (#[trigger] out[j]).0 == targets[j].addr && out[j].1@ == (
                    MessageView::Store { sender_id: Some(own_id), cookie, key, value: value@ }),
            decreases targets.len() - i,
        {
            let msg = Message::Store(
                Store {
                    sender_id: Some(own_id),
                    cookie,
                    key,
                    value: crate::values::copy_bytes(value),
                },
            );
            out.push((targets[i].addr, msg));
            i += 1;
        }
        out
    }

    /// Starts a lookup of `key` from the `K_PARAM` nearest peers that the
    /// node knows: for the peers nearest to the key, or for the values
    /// under it.
    pub fn find(&self, job: FindJob, key: NodeId) -> (l: Lookup)
        requires
            self.wf(),
        ensures
            l.wf(),
            l@ == LookupView::start(
                job,
                self@.own_id(),
                key,
                nearest_of(key, self@.table.nodes(), K_PARAM as int),
            ),
    {
        let closest = self.kbuckets.get_closest_nodes(&key, K_PARAM);
        Lookup::new(job, self.get_own_id(), key, &closest)
    }

    /// Starts a lookup of the peers nearest to `key`.
    pub fn find_node(&self, key: NodeId) -> (l: Lookup)
        requires
            self.wf(),
        ensures
            l.wf(),
            l@ == LookupView::start(
                FindJob::Node,
                self@.own_id(),
                key,
                nearest_of(key, self@.table.nodes(), K_PARAM as int),
            ),
    {
        self.find(FindJob::Node, key)
    }

    /// Starts a lookup of the values under `key`.
    pub fn find_value(&self, key: NodeId) -> (l: Lookup)
        requires
            self.wf(),
        ensures
            l.wf(),
            l@ == LookupView::start(
                FindJob::Value,
                self@.own_id(),
                key,
                nearest_of(key, self@.table.nodes(), K_PARAM as int),
            ),
    {
        self.find(FindJob::Value, key)
    }

    /// Starts a lookup of the peers nearest to an identifier drawn at
    /// random: what the node does from time to time to hear of peers in
    /// distance classes that it seldom deals with.
    pub fn random_walk(&self) -> (l: Lookup)
        requires
            self.wf(),
        ensures
            l.wf(),
            l@ == LookupView::start(
                FindJob::Node,
                self@.own_id(),
                l@.frontier.key,
                nearest_of(l@.frontier.key, self@.table.nodes(), K_PARAM as int),
            ),
    {
        self.find_node(Node::generate_id())
    }

    /// Starts the probe for `replacement`, a peer that found its bucket
    /// full: the peers of that bucket are to be pinged, from the one seen
    /// longest ago.
    pub fn ping_or_replace_with(&self, replacement: Node) -> (p: Probe)
        requires
            self.wf(),
        ensures
            p.wf(),
            p@ == ProbeView::start(
                replacement,
                if replacement.node_id == self@.own_id() {
                    Seq::empty()
                } else {
                    stalest_first(self@.table.bucket_for(replacement.node_id))
                },
            ),
    {
        let node_list = match self.kbuckets.get_bucket(&replacement.node_id) {
            Some(bucket) => sort_by_last_seen(bucket),
            None => Vec::new(),
        };
        Probe::new(replacement, node_list)
    }

    /// Takes the answer `resp` to the ping that `probe` sent to `node`; a
    /// ping that timed out is answered by `Timeout`. A `Pong` leaves
    /// everything as it is. On anything else `node` gives way: if it is
    /// still in the bucket, it leaves, the replacement takes the tail, and
    /// the probe is over; if it is not, the probe goes on.
    pub fn probe_reply(&mut self, probe: &mut Probe, node: &Node, resp: &Message)
        requires
            old(self).wf(),
            old(probe).wf(),
        ensures
            final(self).wf(),
            final(probe).wf(),
            final(probe)@ == old(probe)@.answered(
                old(self)@.gives_way(old(probe)@.replacement, node.node_id, resp@),
            ),
            final(self)@ == if !old(probe)@.done && old(self)@.gives_way(
                old(probe)@.replacement,
                node.node_id,
                resp@,
            ) {
                NodeView {
                    table: old(self)@.table.evict(node.node_id, old(probe)@.replacement),
                    ..old(self)@
                }
            } else {
                old(self)@
            },
    {
        if probe.is_finished() {
            probe.answered(false);
            return ;
        }
        let over = match resp {
            Message::Pong(_) => false,
            _ => self.kbuckets.evict(&node.node_id, probe.replacement()),
        };
        probe.answered(over);
    }

    /// Makes the sender of `msg`, heard from `src` at `now`, known to the
    /// routing table. A message without a sender, or under the local
    /// identifier, is turned away; `Timeout` has no sender and changes
    /// nothing. A sender that is new and finds its bucket full is handed
    /// back, to be tried against the stalest peers of that bucket.
    pub fn update_buckets(&mut self, src: Address, msg: &Message, now: u64) -> (r: Result<
        Option<Node>,
        HandleError,
    >)
        requires
            old(self).wf(),
        ensures
            final(self).wf(),
            match old(self)@.rejection(msg@) {
                Some(e) => r == Err::<Option<Node>, HandleError>(e) && final(self)@ == old(self)@,
                None => r == Ok::<Option<Node>, HandleError>(old(self)@.overflow(src, msg@, now))
                    && final(self)@ == old(self)@.noted(src, msg@, now),
            },
    {
        match msg {
            Message::Timeout => Ok(None),
            _ => {
                let sender_id = match msg.sender_id() {
                    None => {
                        return Err(HandleError::MissingSenderId);
                    },
                    Some(id) => id,
                };
                let sender = match self.kbuckets.construct_node(src, sender_id, now) {
                    None => {
                        return Err(HandleError::SelfIdClaim);
                    },
                    Some(n) => n,
                };
                match self.kbuckets.add(sender) {
                    Ok(()) => Ok(None),
                    Err(candidate) => Ok(Some(candidate)),
                }
            },
        }
    }

    /// The `K_PARAM` known peers nearest to `key`, as an answer in the
    /// exchange `cookie`.
    fn found_node(&self, cookie: Cookie, key: &NodeId) -> (m: Message)
        requires
            self.wf(),
        ensures
            m@ == self@.found_node(cookie, *key),
    {
        Message::FoundNode(
            FoundNode {
                sender_id: Some(self.get_own_id()),
                cookie,
                nodes: self.kbuckets.get_closest_nodes(key, K_PARAM),
            },
        )
    }

    /// Takes the message `msg` that came from `src` at `now`, unasked for.
    /// The sender is made known to the routing table first; a message that
    /// fails there is turned away and changes nothing. Then a `Ping` is
    /// answered, a `FindNode` gets the nearest known peers, a `FindValue`
    /// gets the values held under its key or, where there are none, the
    /// nearest known peers, and the value of a `Store` is held if it is not
    /// too long. Anything else is an answer that nobody waits for.
    pub fn handle_message(&mut self, src: Address, msg: Message, now: u64) -> (r: Result<
        Reaction,
        HandleError,
    >)
        requires
            old(self).wf(),
        ensures
            final(self).wf(),
            match old(self)@.rejection(msg@) {
                Some(e) => r matches Err(err) && err == e && final(self)@ == old(self)@,
                None => r matches Ok(act) && final(self)@ == old(self)@.noted(src, msg@, now).kept(
                    msg@,
                    now,
                ) && optional_view(act.reply) == old(self)@.noted(src, msg@, now).reply_to(msg@, now)
                    && act.probe == old(self)@.overflow(src, msg@, now),
            },
    {
        let probe = match self.update_buckets(src, &msg, now) {
            Err(e) => {
                return Err(e);
            },
            Ok(p) => p,
        };
        let own_id = self.get_own_id();
        let reply = match msg {
            Message::Ping(ping) => Some(
                Message::Pong(Pong { sender_id: Some(own_id), cookie: ping.cookie }),
            ),
            Message::FindNode(find_node) => Some(self.found_node(find_node.cookie, &find_node.key)),
            Message::FindValue(find_value) => {
                let value_list = self.local_values(&find_value.key, now);
                if value_list.len() > 0 {
                    Some(
                        Message::FoundValue(
                            FoundValue {
                                sender_id: Some(own_id),
                                cookie: find_value.cookie,
                                values: value_list,
                            },
                        ),
                    )
                } else {
                    Some(self.found_node(find_value.cookie, &find_value.key))
                }
            },
            Message::Store(store) => {
                if store.value.len() <= MAX_VALUE_LEN {
                    proof {
                        let s = self@.external;
                        let e = expiry_at(now, self@.ttl);
                        lemma_timed_stored(s, store.key, store.value@, e);
                        let t = timed_stored(s, store.key, store.value@, e);
                        assert forall|i: int| 0 <= i < t.len() implies (#[trigger] t[i]).value.len()
                            <= MAX_VALUE_LEN by {
                            if !(t[i].key == store.key && t[i].value == store.value@) {
                                assert(s.contains(t[i]));
                            }
                        }
                    }
                    self.external_values.put(store.key, store.value, now);
                }
                None
            },
            Message::Timeout | Message::Pong(_) | Message::FoundNode(_) | Message::FoundValue(
                _,
            ) => None,
        };
        Ok(Reaction { reply, probe })
    }
}

/// Value size: a valid node holds no value of more than `MAX_VALUE_LEN`
/// bytes, in either tier.
pub proof fn lemma_value_size(s: NodeView)
    requires
        s.valid(),
    ensures
        forall|i: int| 0 <= i < s.internal.len() ==> (#[trigger] s.internal[i]).value.len() <= MAX_VALUE_LEN,
        forall|i: int| 0 <= i < s.external.len() ==> (#[trigger] s.external[i]).value.len() <= MAX_VALUE_LEN,
{
}

/// Put and get are local: right after a `put` of `value` under `key`, the
/// value being of admissible length, a `get` of `key` on the same node
/// names `value`, whatever the lookup brought back.
pub proof fn lemma_put_get(s: NodeView, key: NodeId, value: Seq<u8>, now: u64, remote: Seq<Seq<u8>>)
    requires
        s.valid(),
        value.len() <= MAX_VALUE_LEN,
    ensures
        s.put(key, value).valid(),
        s.put(key, value).get(key, now, remote).contains(value),
{
    let t = s.put(key, value);
    let b = Binding { key, value };
    assert(t.internal.contains(b)) by {
        if !s.internal.contains(b) {
            assert(t.internal[s.internal.len() as int] == b);
        }
    }
    assert forall|i: int| 0 <= i < t.internal.len() implies (#[trigger] t.internal[i]).value.len()
        <= MAX_VALUE_LEN by {
        if i < s.internal.len() {
            assert(t.internal[i] == s.internal[i]);
        }
    }
    assert forall|i: int, j: int| 0 <= i < j < t.internal.len() implies t.internal[i]
        != t.internal[j] by {
        assert(t.internal[i] == s.internal[i]);
        if j < s.internal.len() {
            assert(t.internal[j] == s.internal[j]);
        }
    }
    lemma_values_for(t.internal, key);
    let own = values_for(t.internal, key);
    assert(own.contains(value));
    let k = choose|k: int| 0 <= k < own.len() && own[k] == value;
    let local = t.local_values(key, now);
    assert(local[k] == value);
    assert(local.contains(value));
    lemma_with_values(Seq::empty(), local);
    lemma_with_values(with_values(Seq::empty(), local), remote);
}

/// Publishing reaches readers: a node that took a `Store` of `value` under
/// `key` at `t0`, the value being of admissible length, answers a
/// `FindValue` for `key` with a list that names `value`, as long as the
/// value has not lapsed.
pub proof fn lemma_stored_value_is_served(
    s: NodeView,
    store: MessageView,
    ask: MessageView,
    t0: u64,
    now: u64,
)
    requires
        s.valid(),
        store is Store,
        ask is FindValue,
        ask->FindValue_key == store->Store_key,
        store->Store_value.len() <= MAX_VALUE_LEN,
        now <= expiry_at(t0, s.ttl),
    ensures
        s.kept(store, t0).reply_to(ask, now) matches Some(MessageView::FoundValue { values, .. })
            && values.contains(store->Store_value),
{
    let key = store->Store_key;
    let value = store->Store_value;
    let t = s.kept(store, t0);
    crate::storage::lemma_ttl(s.external, key, value, t0, s.ttl, now);
    let live = live_values(t.external, key, now);
    assert(live.contains(value));
    let k = choose|k: int| 0 <= k < live.len() && live[k] == value;
    let own = values_for(t.internal, key);
    let local = t.local_values(key, now);
    assert(local[own.len() + k] == value);
}

/// Removing stops publishing: once `value` is unbound from `key`, the node
/// does not own it, so nothing publishes it again.
pub proof fn lemma_remove_stops_republish(s: NodeView, key: NodeId, value: Seq<u8>)
    ensures
        !without(s.internal, matching(key, Some(value))).contains(Binding { key, value }),
        !without(s.internal, matching(key, None)).contains(Binding { key, value }),
{
    let b = Binding { key, value };
    lemma_without(s.internal, matching(key, Some(value)));
    lemma_without(s.internal, matching(key, None));
    let r1 = without(s.internal, matching(key, Some(value)));
    if r1.contains(b) {
        let i = choose|i: int| 0 <= i < r1.len() && r1[i] == b;
        assert(!matching(key, Some(value))(r1[i]));
    }
    let r2 = without(s.internal, matching(key, None));
    if r2.contains(b) {
        let i = choose|i: int| 0 <= i < r2.len() && r2[i] == b;
        assert(!matching(key, None)(r2[i]));
    }
}

} // verus!
