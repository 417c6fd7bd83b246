use kademlia::id::NodeId;
use kademlia::kademlia::{
    HandleError, Kademlia, K_PARAM, MAX_VALUE_LEN, REFRESH_PERIOD_MS, TIMEOUT_MS, TTL_MINUTES, TTL_MS,
};
use kademlia::lookup::{Lookup, Step};
use kademlia::message::{FindNode, FindValue, FoundNode, Message, Ping, Pong, Store};
use kademlia::node::{Address, Node};

fn kd_id(first: u8, last: u8) -> NodeId {
    let mut bytes = [0u8; 20];
    bytes[0] = first;
    bytes[19] = last;
    NodeId::new(bytes)
}

fn kd_key() -> NodeId {
    let mut bytes = [0xabu8; 20];
    bytes[19] = 0xcd;
    NodeId::new(bytes)
}

fn kd_addr(port: u16) -> Address {
    Address::V4 { host: 0x7f000001, port }
}

fn kd_ping(from: NodeId, cookie: u8) -> Message {
    Message::Ping(Ping { sender_id: Some(from), cookie: kd_id(0xcc, cookie) })
}

struct KdNet {
    nodes: Vec<Kademlia>,
    addrs: Vec<Address>,
}

fn kd_deliver(net: &mut KdNet, from: usize, to: Address, msg: Message, now: u64) -> Option<Message> {
    let src = net.addrs[from];
    let i = net.addrs.iter().position(|a| *a == to)?;
    match net.nodes[i].handle_message(src, msg, now) {
        Ok(reaction) => reaction.reply,
        Err(_) => None,
    }
}

fn kd_run(net: &mut KdNet, who: usize, mut lookup: Lookup, now: u64) -> Result<Vec<Vec<u8>>, Vec<Node>> {
    loop {
        match lookup.next_request(Kademlia::generate_cookie()) {
            Step::Send { to, msg } => match kd_deliver(net, who, to.addr, msg, now) {
                Some(reply) => {
                    let _ = net.nodes[who].update_buckets(to.addr, &reply, now);
                    lookup.on_reply(&reply);
                }
                None => lookup.on_reply(&Message::Timeout),
            },
            Step::Wait => panic!("every request is answered at once"),
            Step::Done => break,
        }
    }
    lookup.outcome()
}

fn kd_join(net: &mut KdNet, who: usize, now: u64) {
    loop {
        let own = net.nodes[who].get_own_id();
        let lookup = net.nodes[who].find_node(own);
        let found = kd_run(net, who, lookup, now).unwrap_err();
        let addr = net.addrs[who];
        if net.nodes[who].join(&found, addr) {
            break;
        }
    }
}

fn kd_publish(net: &mut KdNet, who: usize, key: NodeId, value: &Vec<u8>, now: u64) {
    let lookup = net.nodes[who].find_node(key);
    let targets = kd_run(net, who, lookup, now).unwrap_err();
    let out = net.nodes[who].publish(key, value, Kademlia::generate_cookie(), &targets);
    for (to, msg) in out {
        let _ = kd_deliver(net, who, to, msg, now);
    }
}

fn kd_get(net: &mut KdNet, who: usize, key: NodeId, now: u64) -> Vec<Vec<u8>> {
    let lookup = net.nodes[who].find_value(key);
    let found = kd_run(net, who, lookup, now);
    net.nodes[who].get(&key, now, &found)
}

fn kd_triangle() -> KdNet {
    let a = Kademlia::new_supernode(Some(kd_id(0, 1)));
    let mut net = KdNet { nodes: vec![a], addrs: vec![kd_addr(7000)] };
    let b = Kademlia::bootstrap(&vec![kd_addr(7000)], Some(kd_id(0x80, 2)), 10);
    net.nodes.push(b);
    net.addrs.push(kd_addr(7001));
    kd_join(&mut net, 1, 10);
    let c = Kademlia::bootstrap(&vec![kd_addr(7000), kd_addr(7001)], Some(kd_id(0x40, 3)), 20);
    net.nodes.push(c);
    net.addrs.push(kd_addr(7002));
    kd_join(&mut net, 2, 20);
    net
}

#[test]
fn constants_are_the_protocol_s() {
    assert_eq!(K_PARAM, 20);
    assert_eq!(TIMEOUT_MS, 2000);
    assert_eq!(MAX_VALUE_LEN, 2048);
    assert_eq!(TTL_MINUTES, 15);
    assert_eq!(TTL_MS, 900_000);
    assert_eq!(REFRESH_PERIOD_MS, 60_000);
}

#[test]
fn new_node_knows_nobody() {
    let kad = Kademlia::new_supernode(Some(kd_id(0, 1)));
    assert_eq!(kad.get_own_id(), kd_id(0, 1));
    assert!(kad.get_nodes().is_empty());
    assert_eq!(kad.republish_period_ms(), 450_000);
    let other = Kademlia::create(Some(kd_id(0, 2)));
    assert_eq!(other.get_own_id(), kd_id(0, 2));
    let anon = Kademlia::create(None);
    assert!(anon.get_nodes().is_empty());
    let with = Kademlia::with_id(kd_id(0, 3));
    assert_eq!(with.get_own_id(), kd_id(0, 3));
}

#[test]
fn two_node_ping() {
    let a = Kademlia::new_supernode(Some(kd_id(0, 1)));
    let mut net = KdNet { nodes: vec![a], addrs: vec![kd_addr(7000)] };
    let b = Kademlia::bootstrap(&vec![kd_addr(7000)], None, 10);
    net.nodes.push(b);
    net.addrs.push(kd_addr(7001));
    kd_join(&mut net, 1, 10);
    let b_id = net.nodes[1].get_own_id();
    let a_nodes = net.nodes[0].get_nodes();
    assert!(a_nodes.iter().any(|n| n.node_id == b_id && n.addr == kd_addr(7001)));
    let b_nodes = net.nodes[1].get_nodes();
    assert!(b_nodes.iter().any(|n| n.node_id == kd_id(0, 1) && n.addr == kd_addr(7000)));
    assert!(b_nodes.iter().all(|n| n.addr == kd_addr(7000)));
}

#[test]
fn put_get_same_node() {
    let mut a = Kademlia::new_supernode(Some(kd_id(0, 1)));
    assert_eq!(a.put(kd_key(), b"hello".to_vec()), Ok(()));
    let lookup = a.find_value(kd_key());
    assert!(lookup.is_done());
    let found = lookup.outcome();
    assert_eq!(a.get(&kd_key(), 0, &found), vec![b"hello".to_vec()]);
    assert!(a.owns(&kd_key(), &b"hello".to_vec()));
}

#[test]
fn put_get_across_three_nodes() {
    let mut net = kd_triangle();
    let key = kd_key();
    let value = b"v".to_vec();
    assert_eq!(net.nodes[1].put(key, value.clone()), Ok(()));
    kd_publish(&mut net, 1, key, &value, 30);
    assert_eq!(kd_get(&mut net, 0, key, 40), vec![b"v".to_vec()]);
    assert_eq!(kd_get(&mut net, 2, key, 40), vec![b"v".to_vec()]);
    assert_eq!(kd_get(&mut net, 1, key, 40), vec![b"v".to_vec()]);
    // what others hold lapses; what the owner holds stays
    let later = 30 + TTL_MS + 1;
    assert_eq!(net.nodes[0].local_values(&key, later), Vec::<Vec<u8>>::new());
    assert_eq!(net.nodes[1].local_values(&key, later), vec![b"v".to_vec()]);
}

#[test]
fn oversize_rejection() {
    let mut a = Kademlia::new_supernode(Some(kd_id(0, 1)));
    let big = vec![7u8; 2049];
    assert_eq!(a.put(kd_key(), big.clone()), Err(big.clone()));
    assert!(!a.owns(&kd_key(), &big));
    let found = a.find_value(kd_key()).outcome();
    assert!(a.get(&kd_key(), 0, &found).is_empty());
    let fits = vec![7u8; 2048];
    assert_eq!(a.put(kd_key(), fits.clone()), Ok(()));
    assert_eq!(a.get(&kd_key(), 0, &found), vec![fits]);
}

#[test]
fn remove_stops_republish() {
    let mut a = Kademlia::new_supernode(Some(kd_id(0, 1)));
    a.put(kd_key(), b"v".to_vec()).unwrap();
    a.put(kd_key(), b"w".to_vec()).unwrap();
    assert!(a.owns(&kd_key(), &b"v".to_vec()));
    a.remove(&kd_key(), &b"v".to_vec());
    assert!(!a.owns(&kd_key(), &b"v".to_vec()));
    assert!(a.owns(&kd_key(), &b"w".to_vec()));
    a.put(kd_key(), b"x".to_vec()).unwrap();
    a.remove_key(&kd_key());
    assert!(!a.owns(&kd_key(), &b"w".to_vec()));
    assert!(!a.owns(&kd_key(), &b"x".to_vec()));
    assert!(a.local_values(&kd_key(), 0).is_empty());
}

#[test]
fn bucket_full_probe() {
    let mut a = Kademlia::new_supernode(Some(kd_id(0, 0)));
    for i in 0..K_PARAM as u8 {
        let r = a.handle_message(kd_addr(8000 + i as u16), kd_ping(kd_id(0x80, i), i), 100 + i as u64);
        assert!(r.unwrap().probe.is_none());
    }
    // the peer seen first is heard from again: it is no longer the stalest
    let r = a.handle_message(kd_addr(8000), kd_ping(kd_id(0x80, 0), 0), 500);
    assert!(r.unwrap().probe.is_none());
    let r = a.handle_message(kd_addr(9000), kd_ping(kd_id(0x80, 200), 1), 600).unwrap();
    let candidate = r.probe.expect("the bucket is full");
    assert_eq!(candidate.node_id, kd_id(0x80, 200));
    assert_eq!(candidate.addr, kd_addr(9000));
    assert_eq!(candidate.last_seen, 600);
    assert!(a.get_nodes().iter().all(|n| n.node_id != candidate.node_id));

    let mut probe = a.ping_or_replace_with(candidate);
    let mut sent = Vec::new();
    loop {
        match probe.next_request(a.get_own_id(), Kademlia::generate_cookie()) {
            Step::Send { to, msg } => {
                assert!(matches!(msg, Message::Ping(_)));
                sent.push(to);
            }
            Step::Wait => break,
            Step::Done => panic!("peers are left to ping"),
        }
    }
    let ids: Vec<NodeId> = sent.iter().map(|n| n.node_id).collect();
    assert_eq!(ids, vec![kd_id(0x80, 1), kd_id(0x80, 2), kd_id(0x80, 3)]);
    // the stalest pongs and stays; the next is unreachable and gives way
    let pong = Message::Pong(Pong { sender_id: Some(kd_id(0x80, 1)), cookie: kd_id(0, 0) });
    a.probe_reply(&mut probe, &sent[0], &pong);
    assert!(!probe.is_done());
    a.probe_reply(&mut probe, &sent[1], &Message::Timeout);
    assert!(probe.is_done());
    let nodes = a.get_nodes();
    assert_eq!(nodes.len(), K_PARAM);
    assert!(nodes.iter().all(|n| n.node_id != kd_id(0x80, 2)));
    assert!(nodes.iter().any(|n| n.node_id == kd_id(0x80, 1)));
    assert_eq!(nodes[K_PARAM - 1].node_id, kd_id(0x80, 200));
    // later answers change nothing
    a.probe_reply(&mut probe, &sent[2], &Message::Timeout);
    assert!(a.get_nodes().iter().any(|n| n.node_id == kd_id(0x80, 3)));
}

#[test]
fn probe_discards_candidate_when_everybody_pongs() {
    let mut a = Kademlia::new_supernode(Some(kd_id(0, 0)));
    for i in 0..K_PARAM as u8 {
        let _ = a.handle_message(kd_addr(8000 + i as u16), kd_ping(kd_id(0x80, i), i), 100);
    }
    let candidate = Node::new(kd_addr(9000), kd_id(0x80, 200), 600);
    let mut probe = a.ping_or_replace_with(candidate);
    let mut pinged = 0;
    loop {
        match probe.next_request(a.get_own_id(), Kademlia::generate_cookie()) {
            Step::Send { to, .. } => {
                let pong = Message::Pong(Pong { sender_id: Some(to.node_id), cookie: kd_id(0, 0) });
                a.probe_reply(&mut probe, &to, &pong);
                pinged += 1;
            }
            Step::Wait => panic!("every ping is answered at once"),
            Step::Done => break,
        }
    }
    assert_eq!(pinged, K_PARAM);
    assert!(a.get_nodes().iter().all(|n| n.node_id != candidate.node_id));
}

#[test]
fn ping_is_answered_with_pong() {
    let mut a = Kademlia::new_supernode(Some(kd_id(0, 1)));
    let r = a.handle_message(kd_addr(1), kd_ping(kd_id(0, 2), 9), 5).unwrap();
    assert_eq!(
        r.reply,
        Some(Message::Pong(Pong { sender_id: Some(kd_id(0, 1)), cookie: kd_id(0xcc, 9) }))
    );
    assert!(r.probe.is_none());
    let nodes = a.get_nodes();
    assert_eq!(nodes.len(), 1);
    assert_eq!(nodes[0].node_id, kd_id(0, 2));
    assert_eq!(nodes[0].addr, kd_addr(1));
    assert_eq!(nodes[0].last_seen, 5);
}

#[test]
fn message_without_sender_is_turned_away() {
    let mut a = Kademlia::new_supernode(Some(kd_id(0, 1)));
    let msg = Message::Ping(Ping { sender_id: None, cookie: kd_id(0, 9) });
    let r = a.handle_message(kd_addr(1), msg, 5);
    assert_eq!(r.err(), Some(HandleError::MissingSenderId));
    assert!(a.get_nodes().is_empty());
    assert_eq!(HandleError::MissingSenderId.describe(), "You don't have a NodeId!");
}

#[test]
fn message_under_local_id_is_turned_away() {
    let mut a = Kademlia::new_supernode(Some(kd_id(0, 1)));
    let store = Message::Store(Store {
        sender_id: Some(kd_id(0, 1)),
        cookie: kd_id(0, 9),
        key: kd_key(),
        value: b"v".to_vec(),
    });
    let r = a.handle_message(kd_addr(1), store, 5);
    assert_eq!(r.err(), Some(HandleError::SelfIdClaim));
    assert!(a.get_nodes().is_empty());
    assert!(a.local_values(&kd_key(), 5).is_empty());
    assert_eq!(HandleError::SelfIdClaim.describe(), "Hey, you stole my NodeId!");
}

#[test]
fn timeout_changes_nothing() {
    let mut a = Kademlia::new_supernode(Some(kd_id(0, 1)));
    let r = a.handle_message(kd_addr(1), Message::Timeout, 5).unwrap();
    assert!(r.reply.is_none());
    assert!(r.probe.is_none());
    assert!(a.get_nodes().is_empty());
    assert_eq!(a.update_buckets(kd_addr(1), &Message::Timeout, 5), Ok(None));
}

#[test]
fn answers_nobody_waits_for_only_note_the_sender() {
    let mut a = Kademlia::new_supernode(Some(kd_id(0, 1)));
    let pong = Message::Pong(Pong { sender_id: Some(kd_id(0, 2)), cookie: kd_id(0, 9) });
    let r = a.handle_message(kd_addr(1), pong, 5).unwrap();
    assert!(r.reply.is_none());
    let found = Message::FoundNode(FoundNode {
        sender_id: Some(kd_id(0, 3)),
        cookie: kd_id(0, 9),
        nodes: vec![Node::new(kd_addr(4), kd_id(0, 4), 0)],
    });
    let r = a.handle_message(kd_addr(2), found, 6).unwrap();
    assert!(r.reply.is_none());
    let ids: Vec<NodeId> = a.get_nodes().iter().map(|n| n.node_id).collect();
    assert_eq!(ids.len(), 2);
    assert!(ids.contains(&kd_id(0, 2)));
    assert!(ids.contains(&kd_id(0, 3)));
}

#[test]
fn find_node_is_answered_with_k_closest() {
    let mut a = Kademlia::new_supernode(Some(kd_id(0, 0)));
    for last in 1..=30u8 {
        let _ = a.handle_message(kd_addr(last as u16), kd_ping(kd_id(0, last), last), 1);
    }
    let ask = Message::FindNode(FindNode {
        sender_id: Some(kd_id(0, 100)),
        cookie: kd_id(0xcc, 1),
        key: kd_id(0, 3),
    });
    let r = a.handle_message(kd_addr(100), ask, 2).unwrap();
    match r.reply {
        Some(Message::FoundNode(m)) => {
            assert_eq!(m.sender_id, Some(kd_id(0, 0)));
            assert_eq!(m.cookie, kd_id(0xcc, 1));
            assert_eq!(m.nodes.len(), K_PARAM);
            assert_eq!(m.nodes[0].node_id, kd_id(0, 3));
            assert_eq!(m.nodes[1].node_id, kd_id(0, 2));
            let key = kd_id(0, 3);
            for w in m.nodes.windows(2) {
                assert!(key.closer(&w[0].node_id, &w[1].node_id));
            }
        }
        _ => panic!("expected FoundNode"),
    }
}

#[test]
fn find_value_is_answered_with_values_or_nodes() {
    let mut a = Kademlia::new_supernode(Some(kd_id(0, 0)));
    let ask = |cookie: u8| {
        Message::FindValue(FindValue {
            sender_id: Some(kd_id(0, 100)),
            cookie: kd_id(0xcc, cookie),
            key: kd_key(),
        })
    };
    let r = a.handle_message(kd_addr(100), ask(1), 2).unwrap();
    match r.reply {
        Some(Message::FoundNode(m)) => {
            assert_eq!(m.cookie, kd_id(0xcc, 1));
            assert_eq!(m.nodes.len(), 1);
            assert_eq!(m.nodes[0].node_id, kd_id(0, 100));
        }
        _ => panic!("expected FoundNode"),
    }
    a.put(kd_key(), b"mine".to_vec()).unwrap();
    let store = Message::Store(Store {
        sender_id: Some(kd_id(0, 101)),
        cookie: kd_id(0xcc, 2),
        key: kd_key(),
        value: b"theirs".to_vec(),
    });
    assert!(a.handle_message(kd_addr(101), store, 10).unwrap().reply.is_none());
    let r = a.handle_message(kd_addr(100), ask(3), 11).unwrap();
    match r.reply {
        Some(Message::FoundValue(m)) => {
            assert_eq!(m.sender_id, Some(kd_id(0, 0)));
            assert_eq!(m.cookie, kd_id(0xcc, 3));
            assert_eq!(m.values, vec![b"mine".to_vec(), b"theirs".to_vec()]);
        }
        _ => panic!("expected FoundValue"),
    }
    let r = a.handle_message(kd_addr(100), ask(4), 10 + TTL_MS + 1).unwrap();
    match r.reply {
        Some(Message::FoundValue(m)) => assert_eq!(m.values, vec![b"mine".to_vec()]),
        _ => panic!("expected FoundValue"),
    }
}

#[test]
fn oversize_store_is_dropped_silently() {
    let mut a = Kademlia::new_supernode(Some(kd_id(0, 0)));
    let store = |len: usize| {
        Message::Store(Store {
            sender_id: Some(kd_id(0, 101)),
            cookie: kd_id(0xcc, 2),
            key: kd_key(),
            value: vec![1u8; len],
        })
    };
    let r = a.handle_message(kd_addr(101), store(2049), 10).unwrap();
    assert!(r.reply.is_none());
    assert!(a.local_values(&kd_key(), 10).is_empty());
    assert_eq!(a.get_nodes().len(), 1);
    let r = a.handle_message(kd_addr(101), store(2048), 10).unwrap();
    assert!(r.reply.is_none());
    assert_eq!(a.local_values(&kd_key(), 10), vec![vec![1u8; 2048]]);
}

#[test]
fn publish_addresses_a_store_to_each_target() {
    let a = Kademlia::new_supernode(Some(kd_id(0, 1)));
    let targets = vec![Node::new(kd_addr(5), kd_id(0, 5), 0), Node::new(kd_addr(6), kd_id(0, 6), 0)];
    let out = a.publish(kd_key(), &b"v".to_vec(), kd_id(0xcc, 1), &targets);
    assert_eq!(out.len(), 2);
    let expected = Message::Store(Store {
        sender_id: Some(kd_id(0, 1)),
        cookie: kd_id(0xcc, 1),
        key: kd_key(),
        value: b"v".to_vec(),
    });
    assert_eq!(out[0], (kd_addr(5), expected.clone()));
    assert_eq!(out[1], (kd_addr(6), expected));
}

#[test]
fn get_merges_local_and_remote_values_once_each() {
    let mut a = Kademlia::new_supernode(Some(kd_id(0, 1)));
    a.put(kd_key(), b"a".to_vec()).unwrap();
    let found = Ok(vec![b"b".to_vec(), b"a".to_vec(), b"b".to_vec()]);
    assert_eq!(a.get(&kd_key(), 0, &found), vec![b"a".to_vec(), b"b".to_vec()]);
    let nothing = Err(Vec::new());
    assert!(a.get(&kd_id(0, 9), 0, &nothing).is_empty());
}

#[test]
fn colliding_identifier_is_given_up() {
    let mut b = Kademlia::bootstrap(&vec![kd_addr(7000)], Some(kd_id(0, 5)), 1);
    assert_eq!(b.get_own_id(), kd_id(0, 5));
    assert_eq!(b.get_nodes().len(), 1);
    assert_eq!(b.get_nodes()[0].addr, kd_addr(7000));
    assert_eq!(b.get_nodes()[0].last_seen, 1);
    let twin = Node::new(kd_addr(7777), kd_id(0, 5), 1);
    let peer = Node::new(kd_addr(7002), kd_id(0, 6), 1);
    assert!(!b.resolve_join(&vec![peer, twin], kd_addr(7001), kd_id(0, 8)));
    assert_eq!(b.get_own_id(), kd_id(0, 8));
    assert_eq!(b.get_nodes().len(), 1);
    // the node's own record, heard from its own address, is no collision
    let me = Node::new(kd_addr(7001), kd_id(0, 8), 1);
    assert!(b.resolve_join(&vec![peer, me], kd_addr(7001), kd_id(0, 9)));
    assert_eq!(b.get_own_id(), kd_id(0, 8));
    let ids: Vec<NodeId> = b.get_nodes().iter().map(|n| n.node_id).collect();
    assert_eq!(ids.len(), 2);
    assert!(ids.contains(&kd_id(0, 6)));
    assert!(!ids.contains(&kd_id(0, 8)));
}

#[test]
fn random_walk_looks_for_nodes() {
    let mut a = Kademlia::new_supernode(Some(kd_id(0, 1)));
    let _ = a.handle_message(kd_addr(2), kd_ping(kd_id(0, 2), 1), 1);
    let mut walk = a.random_walk();
    match walk.next_request(kd_id(0xcc, 1)) {
        Step::Send { to, msg } => {
            assert_eq!(to.node_id, kd_id(0, 2));
            assert!(matches!(msg, Message::FindNode(_)));
        }
        _ => panic!("expected a send"),
    }
}

#[test]
fn set_own_id_keeps_the_stores() {
    let mut a = Kademlia::new_supernode(Some(kd_id(0, 1)));
    a.put(kd_key(), b"v".to_vec()).unwrap();
    let _ = a.handle_message(kd_addr(2), kd_ping(kd_id(0, 2), 1), 1);
    a.set_own_id(kd_id(0, 2));
    assert_eq!(a.get_own_id(), kd_id(0, 2));
    assert!(a.get_nodes().is_empty());
    assert!(a.owns(&kd_key(), &b"v".to_vec()));
}

#[test]
fn sweep_forgets_only_what_has_lapsed() {
    let mut a = Kademlia::new_supernode(Some(kd_id(0, 0)));
    let store = |value: &[u8], cookie: u8| {
        Message::Store(Store {
            sender_id: Some(kd_id(0, 101)),
            cookie: kd_id(0xcc, cookie),
            key: kd_key(),
            value: value.to_vec(),
        })
    };
    a.put(kd_key(), b"mine".to_vec()).unwrap();
    let _ = a.handle_message(kd_addr(101), store(b"old", 1), 0);
    let _ = a.handle_message(kd_addr(101), store(b"new", 2), 1000);
    a.sweep(TTL_MS + 1);
    assert_eq!(a.local_values(&kd_key(), 0), vec![b"mine".to_vec(), b"new".to_vec()]);
    a.sweep(TTL_MS + 1001);
    assert_eq!(a.local_values(&kd_key(), 0), vec![b"mine".to_vec()]);
}
