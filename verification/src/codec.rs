//! The wire format: how a message is laid out in a datagram, and how a
//! datagram is read back.
//!
//! A datagram starts with the tag of the shape, the sender (a mark and
//! twenty bytes, all zero where there is none) and the cookie. A request
//! for a key carries the key; a list carries its count in two bytes and
//! then its items; a peer is its identifier and its address; a value is its
//! length in four bytes and then its bytes. Numbers are little-endian.

use vstd::prelude::*;
use vstd::bytes::{
    lemma_auto_spec_u128_to_from_le_bytes, lemma_auto_spec_u16_to_from_le_bytes,
    lemma_auto_spec_u32_to_from_le_bytes, spec_u128_from_le_bytes, spec_u128_to_le_bytes,
    spec_u16_from_le_bytes, spec_u16_to_le_bytes, spec_u32_from_le_bytes, spec_u32_to_le_bytes,
    u128_from_le_bytes, u128_to_le_bytes, u16_from_le_bytes, u16_to_le_bytes, u32_from_le_bytes,
    u32_to_le_bytes,
};
use vstd::slice::slice_subrange;
use vstd::slice::slice_to_vec;
use crate::id::{lemma_id_ext, Cookie, NodeId};
use crate::message::{
    optional_view, FindNode, FindValue, FoundNode, FoundValue, Message, MessageView, Ping, Pong,
    Store,
};
use crate::node::{Address, Node};
use crate::values::values_view;

verus! {

/// The identifier that twenty bytes spell.
pub open spec fn id_from(s: Seq<u8>) -> NodeId {
    NodeId {
        bytes: [
            s[0],
            s[1],
            s[2],
            s[3],
            s[4],
            s[5],
            s[6],
            s[7],
            s[8],
            s[9],
            s[10],
            s[11],
            s[12],
            s[13],
            s[14],
            s[15],
            s[16],
            s[17],
            s[18],
            s[19],
        ],
    }
}

/// An identifier is spelled by its own bytes, and by no others.
pub proof fn lemma_id_from(id: NodeId, s: Seq<u8>)
    ensures
        id_from(id@) == id,
        s.len() == 20 ==> id_from(s)@ == s,
{
    assert(id_from(id@)@ =~= id@);
    lemma_id_ext(id_from(id@), id);
    if s.len() == 20 {
        assert(id_from(s)@ =~= s);
    }
}

/// `n` zero bytes.
pub open spec fn zeros(n: nat) -> Seq<u8> {
    Seq::new(n, |i: int| 0u8)
}

/// The sender on the wire: a mark, then twenty bytes.
pub open spec fn enc_sender(sender: Option<NodeId>) -> Seq<u8> {
    match sender {
        Some(id) => seq![1u8] + id@,
        None => seq![0u8] + zeros(20),
    }
}

/// The sender that twenty-one bytes spell, if they spell one.
pub open spec fn dec_sender(s: Seq<u8>) -> Option<Option<NodeId>> {
    if s[0] == 1 {
        Some(Some(id_from(s.subrange(1, 21))))
    } else if s[0] == 0 && s.subrange(1, 21) == zeros(20) {
        Some(None)
    } else {
        None
    }
}

/// An address on the wire: the family, the host in sixteen bytes, the
/// port, and two numbers that only the newer family uses.
pub open spec fn enc_addr(a: Address) -> Seq<u8> {
    match a {
        Address::V4 { host, port } => seq![4u8] + spec_u128_to_le_bytes(host as u128)
            + spec_u16_to_le_bytes(port) + spec_u32_to_le_bytes(0) + spec_u32_to_le_bytes(0),
        Address::V6 { host6, port, flowinfo, scope_id } => seq![6u8] + spec_u128_to_le_bytes(host6)
            + spec_u16_to_le_bytes(port) + spec_u32_to_le_bytes(flowinfo) + spec_u32_to_le_bytes(
            scope_id,
        ),
    }
}

/// The address that twenty-seven bytes spell, if they spell one.
pub open spec fn dec_addr(s: Seq<u8>) -> Option<Address> {
    let host = spec_u128_from_le_bytes(s.subrange(1, 17));
    let port = spec_u16_from_le_bytes(s.subrange(17, 19));
    let flowinfo = spec_u32_from_le_bytes(s.subrange(19, 23));
    let scope_id = spec_u32_from_le_bytes(s.subrange(23, 27));
    if s[0] == 4 && host <= u32::MAX && flowinfo == 0 && scope_id == 0 {
        Some(Address::V4 { host: host as u32, port })
    } else if s[0] == 6 {
        Some(Address::V6 { host6: host, port, flowinfo, scope_id })
    } else {
        None
    }
}

/// A peer on the wire: its identifier, then its address. When it was last
/// seen is the receiver's to say.
pub open spec fn enc_node(n: Node) -> Seq<u8> {
    n.node_id@ + enc_addr(n.addr)
}

/// The peer that forty-seven bytes spell, if they spell one, as seen at
/// `now`.
pub open spec fn dec_node(s: Seq<u8>, now: u64) -> Option<Node> {
    match dec_addr(s.subrange(20, 47)) {
        Some(addr) => Some(Node { addr, node_id: id_from(s.subrange(0, 20)), last_seen: now }),
        None => None,
    }
}

/// A list of peers on the wire, one after the other.
pub open spec fn enc_nodes(nodes: Seq<Node>) -> Seq<u8>
    decreases nodes.len(),
{
    if nodes.len() == 0 {
        Seq::empty()
    } else {
        enc_node(nodes[0]) + enc_nodes(nodes.skip(1))
    }
}

/// The `count` peers that the bytes `s` spell, if they spell exactly that
/// many.
pub open spec fn dec_nodes(s: Seq<u8>, count: nat, now: u64) -> Option<Seq<Node>>
    decreases count,
{
    if count == 0 {
        if s.len() == 0 {
            Some(Seq::empty())
        } else {
            None
        }
    } else if s.len() < 47 {
        None
    } else {
        match (dec_node(s.take(47), now), dec_nodes(s.skip(47), (count - 1) as nat, now)) {
            (Some(n), Some(rest)) => Some(seq![n] + rest),
            _ => None,
        }
    }
}

/// A value on the wire: its length, then its bytes.
pub open spec fn enc_value(v: Seq<u8>) -> Seq<u8> {
    spec_u32_to_le_bytes(v.len() as u32) + v
}

/// A list of values on the wire, one after the other.
pub open spec fn enc_values(vs: Seq<Seq<u8>>) -> Seq<u8>
    decreases vs.len(),
{
    if vs.len() == 0 {
        Seq::empty()
    } else {
        enc_value(vs[0]) + enc_values(vs.skip(1))
    }
}

/// The `count` values that the bytes `s` spell, if they spell exactly that
/// many.
pub open spec fn dec_values(s: Seq<u8>, count: nat) -> Option<Seq<Seq<u8>>>
    decreases count,
{
    if count == 0 {
        if s.len() == 0 {
            Some(Seq::empty())
        } else {
            None
        }
    } else if s.len() < 4 {
        None
    } else {
        let len = spec_u32_from_le_bytes(s.take(4)) as int;
        if s.len() < 4 + len {
            None
        } else {
            match dec_values(s.skip(4 + len), (count - 1) as nat) {
                Some(rest) => Some(seq![s.subrange(4, 4 + len)] + rest),
                None => None,
            }
        }
    }
}

/// The peers `nodes` as a receiver sees them at `now`.
pub open spec fn seen_at(nodes: Seq<Node>, now: u64) -> Seq<Node> {
    nodes.map_values(|n: Node| Node { last_seen: now, ..n })
}

/// A sender is read back as it was written.
pub proof fn lemma_sender_round_trip(sender: Option<NodeId>)
    ensures
        enc_sender(sender).len() == 21,
        dec_sender(enc_sender(sender)) == Some(sender),
{
    let s = enc_sender(sender);
    match sender {
        Some(id) => {
            assert(s.subrange(1, 21) =~= id@);
            lemma_id_from(id, id@);
        },
        None => {
            assert(s.subrange(1, 21) =~= zeros(20));
        },
    }
}

/// An address is read back as it was written.
pub proof fn lemma_addr_round_trip(a: Address)
    ensures
        enc_addr(a).len() == 27,
        dec_addr(enc_addr(a)) == Some(a),
{
    lemma_auto_spec_u128_to_from_le_bytes();
    lemma_auto_spec_u16_to_from_le_bytes();
    lemma_auto_spec_u32_to_from_le_bytes();
    let s = enc_addr(a);
    match a {
        Address::V4 { host, port } => {
            assert(s.subrange(1, 17) =~= spec_u128_to_le_bytes(host as u128));
            assert(s.subrange(17, 19) =~= spec_u16_to_le_bytes(port));
            assert(s.subrange(19, 23) =~= spec_u32_to_le_bytes(0));
            assert(s.subrange(23, 27) =~= spec_u32_to_le_bytes(0));
        },
        Address::V6 { host6, port, flowinfo, scope_id } => {
            assert(s.subrange(1, 17) =~= spec_u128_to_le_bytes(host6));
            assert(s.subrange(17, 19) =~= spec_u16_to_le_bytes(port));
            assert(s.subrange(19, 23) =~= spec_u32_to_le_bytes(flowinfo));
            assert(s.subrange(23, 27) =~= spec_u32_to_le_bytes(scope_id));
        },
    }
}

/// A peer is read back as it was written, seen at the time of reading.
pub proof fn lemma_node_round_trip(n: Node, now: u64)
    ensures
        enc_node(n).len() == 47,
        dec_node(enc_node(n), now) == Some(Node { last_seen: now, ..n }),
{
    lemma_addr_round_trip(n.addr);
    let s = enc_node(n);
    assert(s.subrange(20, 47) =~= enc_addr(n.addr));
    assert(s.subrange(0, 20) =~= n.node_id@);
    lemma_id_from(n.node_id, n.node_id@);
}

/// A list of peers is read back as it was written, seen at the time of
/// reading.
pub proof fn lemma_nodes_round_trip(nodes: Seq<Node>, now: u64)
    ensures
        enc_nodes(nodes).len() == 47 * nodes.len(),
        dec_nodes(enc_nodes(nodes), nodes.len(), now) == Some(seen_at(nodes, now)),
    decreases nodes.len(),
{
    if nodes.len() == 0 {
        assert(seen_at(nodes, now) =~= Seq::<Node>::empty());
    } else {
        let s = enc_nodes(nodes);
        let rest = nodes.skip(1);
        lemma_node_round_trip(nodes[0], now);
        lemma_nodes_round_trip(rest, now);
        assert(s.take(47) =~= enc_node(nodes[0]));
        assert(s.skip(47) =~= enc_nodes(rest));
        assert(seq![Node { last_seen: now, ..nodes[0] }] + seen_at(rest, now) =~= seen_at(
            nodes,
            now,
        ));
    }
}

/// Whether each value of `vs` has a length that four bytes can hold.
pub open spec fn values_fit(vs: Seq<Seq<u8>>) -> bool {
    forall|i: int| 0 <= i < vs.len() ==> (#[trigger] vs[i]).len() <= u32::MAX
}

/// A list of values is read back as it was written.
pub proof fn lemma_values_round_trip(vs: Seq<Seq<u8>>)
    requires
        values_fit(vs),
    ensures
        dec_values(enc_values(vs), vs.len()) == Some(vs),
    decreases vs.len(),
{
    lemma_auto_spec_u32_to_from_le_bytes();
    if vs.len() > 0 {
        let s = enc_values(vs);
        let rest = vs.skip(1);
        let v = vs[0];
        assert forall|i: int| 0 <= i < rest.len() implies (#[trigger] rest[i]).len()
            <= u32::MAX by {
            assert(rest[i] == vs[i + 1]);
        }
        lemma_values_round_trip(rest);
        assert(s.take(4) =~= spec_u32_to_le_bytes(v.len() as u32));
        assert(s.subrange(4, 4 + v.len() as int) =~= v);
        assert(s.skip(4 + v.len() as int) =~= enc_values(rest));
        assert(seq![v] + rest =~= vs);
    }
}

/// Writing a list and then one more item is writing the longer list.
pub proof fn lemma_enc_nodes_push(nodes: Seq<Node>, n: Node)
    ensures
        enc_nodes(nodes.push(n)) == enc_nodes(nodes) + enc_node(n),
    decreases nodes.len(),
{
    let all = nodes.push(n);
    if nodes.len() == 0 {
        assert(all.skip(1) =~= nodes);
        assert(enc_nodes(all) =~= enc_nodes(nodes) + enc_node(n));
    } else {
        assert(all.skip(1) =~= nodes.skip(1).push(n));
        lemma_enc_nodes_push(nodes.skip(1), n);
        assert(enc_nodes(all) =~= enc_nodes(nodes) + enc_node(n));
    }
}

/// Writing a list and then one more item is writing the longer list.
pub proof fn lemma_enc_values_push(vs: Seq<Seq<u8>>, v: Seq<u8>)
    ensures
        enc_values(vs.push(v)) == enc_values(vs) + enc_value(v),
    decreases vs.len(),
{
    let all = vs.push(v);
    if vs.len() == 0 {
        assert(all.skip(1) =~= vs);
        assert(enc_values(all) =~= enc_values(vs) + enc_value(v));
    } else {
        assert(all.skip(1) =~= vs.skip(1).push(v));
        lemma_enc_values_push(vs.skip(1), v);
        assert(enc_values(all) =~= enc_values(vs) + enc_value(v));
    }
}

/// Appends the bytes `part`.
fn put_all(out: &mut Vec<u8>, part: &[u8])
    ensures
        final(out)@ == old(out)@ + part@,
{
    let mut i: usize = 0;
    while i < part.len()
        invariant
            i <= part.len(),
            out@ == old(out)@ + part@.take(i as int),
        decreases part.len() - i,
    {
        out.push(part[i]);
        proof {
            assert(part@.take(i + 1) =~= part@.take(i as int).push(part@[i as int]));
            assert(out@ =~= old(out)@ + part@.take(i + 1));
        }
        i += 1;
    }
    proof {
        assert(part@.take(part.len() as int) =~= part@);
    }
}

/// Appends the twenty bytes of `id`.
fn put_id(out: &mut Vec<u8>, id: &NodeId)
    ensures
        final(out)@ == old(out)@ + id@,
{
    let mut i: usize = 0;
    while i < 20
        invariant
            i <= 20,
            out@ == old(out)@ + id@.take(i as int),
        decreases 20 - i,
    {
        out.push(id.bytes[i]);
        proof {
            assert(id@.take(i + 1) =~= id@.take(i as int).push(id@[i as int]));
            assert(out@ =~= old(out)@ + id@.take(i + 1));
        }
        i += 1;
    }
    proof {
        assert(id@.take(20) =~= id@);
    }
}

/// Appends the sender.
fn put_sender(out: &mut Vec<u8>, sender: &Option<NodeId>)
    ensures
        final(out)@ == old(out)@ + enc_sender(*sender),
{
    match sender {
        Some(id) => {
            out.push(1u8);
            put_id(out, id);
            proof {
                assert(out@ =~= old(out)@ + enc_sender(*sender));
            }
        },
        None => {
            out.push(0u8);
            let mut i: usize = 0;
            while i < 20
                invariant
                    i <= 20,
                    out@ == old(out)@ + (seq![0u8] + zeros(i as nat)),
                decreases 20 - i,
            {
                out.push(0u8);
                proof {
                    assert(out@ =~= old(out)@ + (seq![0u8] + zeros((i + 1) as nat)));
                }
                i += 1;
            }
        },
    }
}

/// Appends the address `a`.
fn put_addr(out: &mut Vec<u8>, a: &Address)
    ensures
        final(out)@ == old(out)@ + enc_addr(*a),
{
    let (family, host, port, flowinfo, scope_id): (u8, u128, u16, u32, u32) = match a {
        Address::V4 { host, port } => (4u8, *host as u128, *port, 0u32, 0u32),
        Address::V6 { host6, port, flowinfo, scope_id } => (
            6u8,
            *host6,
            *port,
            *flowinfo,
            *scope_id,
        ),
    };
    out.push(family);
    let h = u128_to_le_bytes(host);
    put_all(out, h.as_slice());
    let p = u16_to_le_bytes(port);
    put_all(out, p.as_slice());
    let f = u32_to_le_bytes(flowinfo);
    put_all(out, f.as_slice());
    let s = u32_to_le_bytes(scope_id);
    put_all(out, s.as_slice());
    proof {
        assert(out@ =~= old(out)@ + enc_addr(*a));
    }
}

/// Appends the peer `n`.
fn put_node(out: &mut Vec<u8>, n: &Node)
    ensures
        final(out)@ == old(out)@ + enc_node(*n),
{
    put_id(out, &n.node_id);
    put_addr(out, &n.addr);
    proof {
        assert(out@ =~= old(out)@ + enc_node(*n));
    }
}

/// Appends the peers `nodes`.
fn put_nodes(out: &mut Vec<u8>, nodes: &Vec<Node>)
    ensures
        final(out)@ == old(out)@ + enc_nodes(nodes@),
{
    let mut i: usize = 0;
    proof {
        assert(nodes@.take(0) =~= Seq::<Node>::empty());
        assert(out@ =~= old(out)@ + enc_nodes(nodes@.take(0)));
    }
    while i < nodes.len()
        invariant
            i <= nodes.len(),
            out@ == old(out)@ + enc_nodes(nodes@.take(i as int)),
        decreases nodes.len() - i,
    {
        put_node(out, &nodes[i]);
        proof {
            lemma_enc_nodes_push(nodes@.take(i as int), nodes@[i as int]);
            assert(nodes@.take(i + 1) =~= nodes@.take(i as int).push(nodes@[i as int]));
            assert(out@ =~= old(out)@ + enc_nodes(nodes@.take(i + 1)));
        }
        i += 1;
    }
    proof {
        assert(nodes@.take(nodes.len() as int) =~= nodes@);
    }
}

/// Appends the value `v`, if four bytes can hold its length.
fn put_value(out: &mut Vec<u8>, v: &Vec<u8>) -> (done: bool)
    ensures
        done == (v@.len() <= u32::MAX),
        done ==> final(out)@ == old(out)@ + enc_value(v@),
{
    if v.len() > u32::MAX as usize {
        return false;
    }
    let l = u32_to_le_bytes(v.len() as u32);
    put_all(out, l.as_slice());
    put_all(out, v.as_slice());
    proof {
        assert(out@ =~= old(out)@ + enc_value(v@));
    }
    true
}

/// Appends the values `vs`, if four bytes can hold the length of each.
fn put_values(out: &mut Vec<u8>, vs: &Vec<Vec<u8>>) -> (done: bool)
    ensures
        done == values_fit(values_view(vs@)),
        done ==> final(out)@ == old(out)@ + enc_values(values_view(vs@)),
{
    let ghost all = values_view(vs@);
    let mut i: usize = 0;
    proof {
        assert(all.take(0) =~= Seq::<Seq<u8>>::empty());
        assert(out@ =~= old(out)@ + enc_values(all.take(0)));
    }
    while i < vs.len()
        invariant
            i <= vs.len(),
            all == values_view(vs@),
            out@ == old(out)@ + enc_values(all.take(i as int)),
            forall|j: int| 0 <= j < i ==> (#[trigger] all[j]).len() <= u32::MAX,
        decreases vs.len() - i,
    {
        if !put_value(out, &vs[i]) {
            proof {
                assert(all[i as int].len() > u32::MAX);
            }
            return false;
        }
        proof {
            lemma_enc_values_push(all.take(i as int), all[i as int]);
            assert(all.take(i + 1) =~= all.take(i as int).push(all[i as int]));
            assert(out@ =~= old(out)@ + enc_values(all.take(i + 1)));
        }
        i += 1;
    }
    proof {
        assert(all.take(vs.len() as int) =~= all);
    }
    true
}

/// The tag of a shape; `Timeout` is never on the wire and has none.
pub open spec fn tag_of(m: MessageView) -> u8 {
    match m {
        MessageView::Ping { .. } => 1,
        MessageView::Pong { .. } => 2,
        MessageView::FindNode { .. } => 3,
        MessageView::FoundNode { .. } => 4,
        MessageView::FindValue { .. } => 5,
        MessageView::FoundValue { .. } => 6,
        MessageView::Store { .. } => 7,
        MessageView::Timeout => 0,
    }
}

/// What follows the cookie.
pub open spec fn body(m: MessageView) -> Seq<u8> {
    match m {
        MessageView::FindNode { key, .. } => key@,
        MessageView::FindValue { key, .. } => key@,
        MessageView::FoundNode { nodes, .. } => spec_u16_to_le_bytes(nodes.len() as u16)
            + enc_nodes(nodes),
        MessageView::FoundValue { values, .. } => spec_u16_to_le_bytes(values.len() as u16)
            + enc_values(values),
        MessageView::Store { key, value, .. } => key@ + enc_value(value),
        _ => Seq::empty(),
    }
}

/// Whether a message can be written: it is no `Timeout`, its list has a
/// count that two bytes can hold, and each of its values a length that
/// four bytes can hold.
pub open spec fn encodable(m: MessageView) -> bool {
    match m {
        MessageView::Timeout => false,
        MessageView::FoundNode { nodes, .. } => nodes.len() <= u16::MAX,
        MessageView::FoundValue { values, .. } => values.len() <= u16::MAX && values_fit(values),
        MessageView::Store { value, .. } => value.len() <= u32::MAX,
        _ => true,
    }
}

/// The datagram that carries `m`.
pub open spec fn encoding(m: MessageView) -> Seq<u8> {
    seq![tag_of(m)] + enc_sender(m.sender()) + m.exchange()->Some_0@ + body(m)
}

/// The message that a datagram carries behind its cookie, if what is there
/// is the body of the shape `tag` and nothing more.
pub open spec fn dec_body(
    tag: u8,
    sender_id: Option<NodeId>,
    cookie: Cookie,
    rest: Seq<u8>,
    now: u64,
) -> Option<MessageView> {
    if tag == 1 {
        if rest.len() == 0 {
            Some(MessageView::Ping { sender_id, cookie })
        } else {
            None
        }
    } else if tag == 2 {
        if rest.len() == 0 {
            Some(MessageView::Pong { sender_id, cookie })
        } else {
            None
        }
    } else if tag == 3 {
        if rest.len() == 20 {
            Some(MessageView::FindNode { sender_id, cookie, key: id_from(rest) })
        } else {
            None
        }
    } else if tag == 4 {
        if rest.len() < 2 {
            None
        } else {
            match dec_nodes(rest.skip(2), spec_u16_from_le_bytes(rest.take(2)) as nat, now) {
                Some(nodes) => Some(MessageView::FoundNode { sender_id, cookie, nodes }),
                None => None,
            }
        }
    } else if tag == 5 {
        if rest.len() == 20 {
            Some(MessageView::FindValue { sender_id, cookie, key: id_from(rest) })
        } else {
            None
        }
    } else if tag == 6 {
        if rest.len() < 2 {
            None
        } else {
            match dec_values(rest.skip(2), spec_u16_from_le_bytes(rest.take(2)) as nat) {
                Some(values) => Some(MessageView::FoundValue { sender_id, cookie, values }),
                None => None,
            }
        }
    } else if tag == 7 {
        if rest.len() < 24 || rest.len() != 24 + spec_u32_from_le_bytes(rest.subrange(20, 24)) {
            None
        } else {
            Some(
                MessageView::Store {
                    sender_id,
                    cookie,
                    key: id_from(rest.take(20)),
                    value: rest.skip(24),
                },
            )
        }
    } else {
        None
    }
}

/// The message that the datagram `s` carries, if it carries one, as it is
/// received at `now`.
pub open spec fn decoding(s: Seq<u8>, now: u64) -> Option<MessageView> {
    if s.len() < 42 {
        None
    } else {
        match dec_sender(s.subrange(1, 22)) {
            Some(sender_id) => dec_body(s[0], sender_id, id_from(s.subrange(22, 42)), s.skip(42), now),
            None => None,
        }
    }
}

/// The message `m` as it is received at `now`: the peers that it lists
/// count as seen then.
pub open spec fn received_at(m: MessageView, now: u64) -> MessageView {
    match m {
        MessageView::FoundNode { sender_id, cookie, nodes } => MessageView::FoundNode {
            sender_id,
            cookie,
            nodes: seen_at(nodes, now),
        },
        _ => m,
    }
}

/// Round trip: a message that can be written is read back from its
/// datagram as it was written.
pub proof fn lemma_round_trip(m: MessageView, now: u64)
    requires
        encodable(m),
    ensures
        decoding(encoding(m), now) == Some(received_at(m, now)),
{
    lemma_auto_spec_u16_to_from_le_bytes();
    lemma_auto_spec_u32_to_from_le_bytes();
    let s = encoding(m);
    let cookie = m.exchange()->Some_0;
    lemma_sender_round_trip(m.sender());
    assert(s.subrange(1, 22) =~= enc_sender(m.sender()));
    assert(s.subrange(22, 42) =~= cookie@);
    lemma_id_from(cookie, cookie@);
    let rest = s.skip(42);
    assert(rest =~= body(m));
    assert(s[0] == tag_of(m));
    match m {
        MessageView::FindNode { key, .. } => {
            lemma_id_from(key, key@);
        },
        MessageView::FindValue { key, .. } => {
            lemma_id_from(key, key@);
        },
        MessageView::FoundNode { nodes, .. } => {
            lemma_nodes_round_trip(nodes, now);
            assert(rest.take(2) =~= spec_u16_to_le_bytes(nodes.len() as u16));
            assert(rest.skip(2) =~= enc_nodes(nodes));
        },
        MessageView::FoundValue { values, .. } => {
            lemma_values_round_trip(values);
            assert(rest.take(2) =~= spec_u16_to_le_bytes(values.len() as u16));
            assert(rest.skip(2) =~= enc_values(values));
        },
        MessageView::Store { key, value, .. } => {
            lemma_id_from(key, key@);
            assert(rest.take(20) =~= key@);
            assert(rest.subrange(20, 24) =~= spec_u32_to_le_bytes(value.len() as u32));
            assert(rest.skip(24) =~= value);
        },
        _ => {},
    }
}

/// Writes `msg` as a datagram, from which `decode` reads it back; a
/// message that cannot be written gives none.
pub fn encode(msg: &Message) -> (r: Option<Vec<u8>>)
    ensures
        r is Some <==> encodable(msg@),
        r matches Some(b) ==> b@ == encoding(msg@) && forall|now: u64|
            #[trigger] decoding(b@, now) == Some(received_at(msg@, now)),
{
    proof {
        if encodable(msg@) {
            assert forall|now: u64| #[trigger]
                decoding(encoding(msg@), now) == Some(received_at(msg@, now)) by {
                lemma_round_trip(msg@, now);
            }
        }
    }
    let mut out: Vec<u8> = Vec::new();
    match msg {
        Message::Ping(m) => {
            out.push(1u8);
            put_sender(&mut out, &m.sender_id);
            put_id(&mut out, &m.cookie);
            proof {
                assert(out@ =~= encoding(msg@));
            }
        },
        Message::Pong(m) => {
            out.push(2u8);
            put_sender(&mut out, &m.sender_id);
            put_id(&mut out, &m.cookie);
            proof {
                assert(out@ =~= encoding(msg@));
            }
        },
        Message::FindNode(m) => {
            out.push(3u8);
            put_sender(&mut out, &m.sender_id);
            put_id(&mut out, &m.cookie);
            put_id(&mut out, &m.key);
            proof {
                assert(out@ =~= encoding(msg@));
            }
        },
        Message::FoundNode(m) => {
            if m.nodes.len() > u16::MAX as usize {
                return None;
            }
            out.push(4u8);
            put_sender(&mut out, &m.sender_id);
            put_id(&mut out, &m.cookie);
            let count = u16_to_le_bytes(m.nodes.len() as u16);
            put_all(&mut out, count.as_slice());
            put_nodes(&mut out, &m.nodes);
            proof {
                assert(out@ =~= encoding(msg@));
            }
        },
        Message::FindValue(m) => {
            out.push(5u8);
            put_sender(&mut out, &m.sender_id);
            put_id(&mut out, &m.cookie);
            put_id(&mut out, &m.key);
            proof {
                assert(out@ =~= encoding(msg@));
            }
        },
        Message::FoundValue(m) => {
            if m.values.len() > u16::MAX as usize {
                return None;
            }
            out.push(6u8);
            put_sender(&mut out, &m.sender_id);
            put_id(&mut out, &m.cookie);
            let count = u16_to_le_bytes(m.values.len() as u16);
            put_all(&mut out, count.as_slice());
            if !put_values(&mut out, &m.values) {
                return None;
            }
            proof {
                assert(out@ =~= encoding(msg@));
            }
        },
        Message::Store(m) => {
            out.push(7u8);
            put_sender(&mut out, &m.sender_id);
            put_id(&mut out, &m.cookie);
            put_id(&mut out, &m.key);
            if !put_value(&mut out, &m.value) {
                return None;
            }
            proof {
                assert(out@ =~= encoding(msg@));
            }
        },
        Message::Timeout => {
            return None;
        },
    }
    Some(out)
}

/// Reads the identifier at `pos`.
fn read_id(bytes: &[u8], pos: usize) -> (id: NodeId)
    requires
        pos + 20 <= bytes@.len() <= usize::MAX,
    ensures
        id == id_from(bytes@.subrange(pos as int, pos + 20)),
{
    let mut out: [u8; 20] = [0u8; 20];
    let mut i: usize = 0;
    while i < 20
        invariant
            i <= 20,
            pos + 20 <= bytes@.len() <= usize::MAX,
            forall|j: int| 0 <= j < i ==> out[j] == bytes@[pos + j],
        decreases 20 - i,
    {
        out[i] = bytes[pos + i];
        i += 1;
    }
    let id = NodeId { bytes: out };
    proof {
        let s = bytes@.subrange(pos as int, pos + 20);
        assert(id@ =~= s);
        lemma_id_from(id, s);
        lemma_id_ext(id, id_from(s));
    }
    id
}

/// Reads the sender at `pos`.
fn read_sender(bytes: &[u8], pos: usize) -> (r: Option<Option<NodeId>>)
    requires
        pos + 21 <= bytes@.len() <= usize::MAX,
    ensures
        r == dec_sender(bytes@.subrange(pos as int, pos + 21)),
{
    let ghost s = bytes@.subrange(pos as int, pos + 21);
    proof {
        assert(s.subrange(1, 21) =~= bytes@.subrange(pos + 1, pos + 21));
        assert(s[0] == bytes@[pos as int]);
    }
    if bytes[pos] == 1 {
        Some(Some(read_id(bytes, pos + 1)))
    } else if bytes[pos] == 0 {
        let mut i: usize = 0;
        while i < 20
            invariant
                i <= 20,
                pos + 21 <= bytes@.len() <= usize::MAX,
                s == bytes@.subrange(pos as int, pos + 21),
                s[0] == 0,
                forall|j: int| 0 <= j < i ==> s.subrange(1, 21)[j] == 0,
            decreases 20 - i,
        {
            if bytes[pos + 1 + i] != 0 {
                proof {
                    assert(s.subrange(1, 21)[i as int] != zeros(20)[i as int]);
                }
                return None;
            }
            i += 1;
        }
        proof {
            assert(s.subrange(1, 21) =~= zeros(20));
        }
        Some(None)
    } else {
        None
    }
}

/// Reads the address at `pos`.
fn read_addr(bytes: &[u8], pos: usize) -> (r: Option<Address>)
    requires
        pos + 27 <= bytes@.len() <= usize::MAX,
    ensures
        r == dec_addr(bytes@.subrange(pos as int, pos + 27)),
{
    let ghost s = bytes@.subrange(pos as int, pos + 27);
    proof {
        assert(s.subrange(1, 17) =~= bytes@.subrange(pos + 1, pos + 17));
        assert(s.subrange(17, 19) =~= bytes@.subrange(pos + 17, pos + 19));
        assert(s.subrange(19, 23) =~= bytes@.subrange(pos + 19, pos + 23));
        assert(s.subrange(23, 27) =~= bytes@.subrange(pos + 23, pos + 27));
        assert(s[0] == bytes@[pos as int]);
    }
    let family = bytes[pos];
    let host = u128_from_le_bytes(slice_subrange(bytes, pos + 1, pos + 17));
    let port = u16_from_le_bytes(slice_subrange(bytes, pos + 17, pos + 19));
    let flowinfo = u32_from_le_bytes(slice_subrange(bytes, pos + 19, pos + 23));
    let scope_id = u32_from_le_bytes(slice_subrange(bytes, pos + 23, pos + 27));
    if family == 4 && host <= u32::MAX as u128 && flowinfo == 0 && scope_id == 0 {
        Some(Address::V4 { host: host as u32, port })
    } else if family == 6 {
        Some(Address::V6 { host6: host, port, flowinfo, scope_id })
    } else {
        None
    }
}

/// Reads the peer at `pos`, as seen at `now`.
fn read_node(bytes: &[u8], pos: usize, now: u64) -> (r: Option<Node>)
    requires
        pos + 47 <= bytes@.len() <= usize::MAX,
    ensures
        r == dec_node(bytes@.subrange(pos as int, pos + 47), now),
{
    let ghost s = bytes@.subrange(pos as int, pos + 47);
    proof {
        assert(s.subrange(0, 20) =~= bytes@.subrange(pos as int, pos + 20));
        assert(s.subrange(20, 47) =~= bytes@.subrange(pos + 20, pos + 47));
    }
    let node_id = read_id(bytes, pos);
    match read_addr(bytes, pos + 20) {
        Some(addr) => Some(Node { addr, node_id, last_seen: now }),
        None => None,
    }
}

/// What an optional list of values holds.
pub open spec fn values_read(r: Option<Vec<Vec<u8>>>) -> Option<Seq<Seq<u8>>> {
    match r {
        Some(v) => Some(values_view(v@)),
        None => None,
    }
}

/// What an optional list of peers holds.
pub open spec fn nodes_read(r: Option<Vec<Node>>) -> Option<Seq<Node>> {
    match r {
        Some(v) => Some(v@),
        None => None,
    }
}

/// Reads `count` peers from `pos` to the end.
fn read_nodes(bytes: &[u8], pos: usize, count: u16, now: u64) -> (r: Option<Vec<Node>>)
    requires
        pos <= bytes@.len() <= usize::MAX,
    ensures
        nodes_read(r) == dec_nodes(bytes@.skip(pos as int), count as nat, now),
{
    let ghost whole = dec_nodes(bytes@.skip(pos as int), count as nat, now);
    let mut out: Vec<Node> = Vec::new();
    let mut p: usize = pos;
    let mut i: u16 = 0;
    while i < count
        invariant
            pos <= p <= bytes@.len() <= usize::MAX,
            i <= count,
            whole == dec_nodes(bytes@.skip(pos as int), count as nat, now),
            whole == match dec_nodes(bytes@.skip(p as int), (count - i) as nat, now) {
                Some(rest) => Some(out@ + rest),
                None => None,
            },
        decreases count - i,
    {
        if bytes.len() - p < 47 {
            return None;
        }
        let ghost tail = bytes@.skip(p as int);
        proof {
            assert(tail.take(47) =~= bytes@.subrange(p as int, p + 47));
            assert(tail.skip(47) =~= bytes@.skip(p + 47));
        }
        match read_node(bytes, p, now) {
            None => {
                return None;
            },
            Some(n) => {
                proof {
                    match dec_nodes(bytes@.skip(p + 47), (count - i - 1) as nat, now) {
                        Some(rest) => {
                            assert(out@.push(n) + rest =~= out@ + (seq![n] + rest));
                        },
                        None => {},
                    }
                }
                out.push(n);
            },
        }
        p += 47;
        i += 1;
    }
    if p != bytes.len() {
        return None;
    }
    proof {
        assert(out@ + Seq::<Node>::empty() =~= out@);
    }
    Some(out)
}

/// Reads `count` values from `pos` to the end.
fn read_values(bytes: &[u8], pos: usize, count: u16) -> (r: Option<Vec<Vec<u8>>>)
    requires
        pos <= bytes@.len() <= usize::MAX,
    ensures
        values_read(r) == dec_values(bytes@.skip(pos as int), count as nat),
{
    let ghost whole = dec_values(bytes@.skip(pos as int), count as nat);
    let mut out: Vec<Vec<u8>> = Vec::new();
    let mut p: usize = pos;
    let mut i: u16 = 0;
    while i < count
        invariant
            pos <= p <= bytes@.len() <= usize::MAX,
            i <= count,
            whole == dec_values(bytes@.skip(pos as int), count as nat),
            whole == match dec_values(bytes@.skip(p as int), (count - i) as nat) {
                Some(rest) => Some(values_view(out@) + rest),
                None => None,
            },
        decreases count - i,
    {
        if bytes.len() - p < 4 {
            return None;
        }
        let ghost tail = bytes@.skip(p as int);
        proof {
            assert(tail.take(4) =~= bytes@.subrange(p as int, p + 4));
        }
        let len = u32_from_le_bytes(slice_subrange(bytes, p, p + 4)) as usize;
        if bytes.len() - p - 4 < len {
            return None;
        }
        let v = slice_to_vec(slice_subrange(bytes, p + 4, p + 4 + len));
        proof {
            assert(tail.subrange(4, 4 + len) =~= v@);
            assert(tail.skip(4 + len) =~= bytes@.skip(p + 4 + len));
            let before = values_view(out@);
            match dec_values(bytes@.skip(p + 4 + len), (count - i - 1) as nat) {
                Some(rest) => {
                    assert(before.push(v@) + rest =~= before + (seq![v@] + rest));
                },
                None => {},
            }
        }
        let ghost before = values_view(out@);
        out.push(v);
        proof {
            assert(values_view(out@) =~= before.push(v@));
        }
        p = p + 4 + len;
        i += 1;
    }
    if p != bytes.len() {
        return None;
    }
    proof {
        assert(values_view(out@) + Seq::<Seq<u8>>::empty() =~= values_view(out@));
    }
    Some(out)
}

/// Reads the message that the datagram `bytes` carries, as received at
/// `now`. A datagram that is no message, or is one and then more, gives
/// none.
pub fn decode(bytes: &[u8], now: u64) -> (r: Option<Message>)
    ensures
        optional_view(r) == decoding(bytes@, now),
{
    if bytes.len() < 42 {
        return None;
    }
    let tag = bytes[0];
    let sender_id = match read_sender(bytes, 1) {
        Some(s) => s,
        None => {
            return None;
        },
    };
    let cookie = read_id(bytes, 22);
    let ghost rest = bytes@.skip(42);
    let left = bytes.len() - 42;
    if tag == 1 {
        if left == 0 {
            Some(Message::Ping(Ping { sender_id, cookie }))
        } else {
            None
        }
    } else if tag == 2 {
        if left == 0 {
            Some(Message::Pong(Pong { sender_id, cookie }))
        } else {
            None
        }
    } else if tag == 3 || tag == 5 {
        if left == 20 {
            let key = read_id(bytes, 42);
            proof {
                assert(rest =~= bytes@.subrange(42, 62));
            }
            if tag == 3 {
                Some(Message::FindNode(FindNode { sender_id, cookie, key }))
            } else {
                Some(Message::FindValue(FindValue { sender_id, cookie, key }))
            }
        } else {
            None
        }
    } else if tag == 4 || tag == 6 {
        if left < 2 {
            return None;
        }
        let count = u16_from_le_bytes(slice_subrange(bytes, 42, 44));
        proof {
            assert(rest.take(2) =~= bytes@.subrange(42, 44));
            assert(rest.skip(2) =~= bytes@.skip(44));
        }
        if tag == 4 {
            match read_nodes(bytes, 44, count, now) {
                Some(nodes) => Some(Message::FoundNode(FoundNode { sender_id, cookie, nodes })),
                None => None,
            }
        } else {
            match read_values(bytes, 44, count) {
                Some(values) => Some(
                    Message::FoundValue(FoundValue { sender_id, cookie, values }),
                ),
                None => None,
            }
        }
    } else if tag == 7 {
        if left < 24 {
            return None;
        }
        let len = u32_from_le_bytes(slice_subrange(bytes, 62, 66)) as usize;
        proof {
            assert(rest.subrange(20, 24) =~= bytes@.subrange(62, 66));
            assert(rest.take(20) =~= bytes@.subrange(42, 62));
            assert(rest.skip(24) =~= bytes@.subrange(66, bytes@.len() as int));
        }
        if left - 24 != len {
            return None;
        }
        let key = read_id(bytes, 42);
        let value = slice_to_vec(slice_subrange(bytes, 66, bytes.len()));
        Some(Message::Store(Store { sender_id, cookie, key, value }))
    } else {
        None
    }
}

} // verus!
