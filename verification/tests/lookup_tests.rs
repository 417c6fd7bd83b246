use kademlia::id::NodeId;
use kademlia::kademlia::{FindJob, ALPHA_PARAM, K_PARAM};
use kademlia::lookup::{without_peer, Lookup, Step};
use kademlia::message::{FoundNode, FoundValue, Message, Pong};
use kademlia::node::{Address, Node};
use kademlia::probe::Probe;

fn lk_id(last: u8) -> NodeId {
    let mut bytes = [0u8; 20];
    bytes[19] = last;
    NodeId::new(bytes)
}

fn lk_node(last: u8) -> Node {
    Node::new(Address::V4 { host: 1, port: last as u16 }, lk_id(last), 0)
}

fn lk_nodes(ids: &[u8]) -> Vec<Node> {
    ids.iter().map(|i| lk_node(*i)).collect()
}

fn lk_send(step: Step) -> (Node, Message) {
    match step {
        Step::Send { to, msg } => (to, msg),
        Step::Wait => panic!("expected a send, got a wait"),
        Step::Done => panic!("expected a send, got the end"),
    }
}

fn lk_found_node(ids: &[u8]) -> Message {
    Message::FoundNode(FoundNode { sender_id: Some(lk_id(99)), cookie: lk_id(0), nodes: lk_nodes(ids) })
}

fn lk_found_value(values: &[&[u8]]) -> Message {
    Message::FoundValue(FoundValue {
        sender_id: Some(lk_id(99)),
        cookie: lk_id(0),
        values: values.iter().map(|v| v.to_vec()).collect(),
    })
}

#[test]
fn parameters_are_fixed() {
    assert_eq!(K_PARAM, 20);
    assert_eq!(ALPHA_PARAM, 3);
}

#[test]
fn without_peer_filters_one_identifier() {
    let r = without_peer(&lk_nodes(&[1, 2, 3, 2]), &lk_id(2));
    let ids: Vec<NodeId> = r.iter().map(|n| n.node_id).collect();
    assert_eq!(ids, vec![lk_id(1), lk_id(3)]);
}

#[test]
fn lookup_without_peers_is_done_at_once() {
    let mut l = Lookup::new(FindJob::Node, lk_id(100), lk_id(0), &Vec::new());
    assert!(l.is_done());
    assert!(matches!(l.next_request(lk_id(1)), Step::Done));
    assert_eq!(l.outcome(), Err(Vec::new()));
}

#[test]
fn lookup_sends_find_node_to_nearest_first() {
    let mut l = Lookup::new(FindJob::Node, lk_id(100), lk_id(0), &lk_nodes(&[9, 3, 5]));
    let (to, msg) = lk_send(l.next_request(lk_id(41)));
    assert_eq!(to.node_id, lk_id(3));
    match msg {
        Message::FindNode(m) => {
            assert_eq!(m.sender_id, Some(lk_id(100)));
            assert_eq!(m.cookie, lk_id(41));
            assert_eq!(m.key, lk_id(0));
        }
        _ => panic!("expected FindNode"),
    }
}

#[test]
fn lookup_for_values_sends_find_value() {
    let mut l = Lookup::new(FindJob::Value, lk_id(100), lk_id(7), &lk_nodes(&[9]));
    let (_, msg) = lk_send(l.next_request(lk_id(41)));
    match msg {
        Message::FindValue(m) => {
            assert_eq!(m.sender_id, Some(lk_id(100)));
            assert_eq!(m.cookie, lk_id(41));
            assert_eq!(m.key, lk_id(7));
        }
        _ => panic!("expected FindValue"),
    }
}

#[test]
fn at_most_alpha_requests_are_in_flight() {
    let mut l = Lookup::new(FindJob::Node, lk_id(100), lk_id(0), &lk_nodes(&[1, 2, 3, 4, 5]));
    assert_eq!(lk_send(l.next_request(lk_id(1))).0.node_id, lk_id(1));
    assert_eq!(lk_send(l.next_request(lk_id(2))).0.node_id, lk_id(2));
    assert_eq!(lk_send(l.next_request(lk_id(3))).0.node_id, lk_id(3));
    assert!(matches!(l.next_request(lk_id(4)), Step::Wait));
    assert!(!l.is_done());
    l.on_reply(&Message::Timeout);
    assert_eq!(lk_send(l.next_request(lk_id(4))).0.node_id, lk_id(4));
    assert!(matches!(l.next_request(lk_id(5)), Step::Wait));
    l.on_reply(&Message::Timeout);
    l.on_reply(&Message::Timeout);
    l.on_reply(&Message::Timeout);
    assert_eq!(lk_send(l.next_request(lk_id(5))).0.node_id, lk_id(5));
    assert!(matches!(l.next_request(lk_id(6)), Step::Wait));
    l.on_reply(&Message::Timeout);
    assert!(l.is_done());
    assert!(matches!(l.next_request(lk_id(6)), Step::Done));
}

#[test]
fn found_nodes_join_the_frontier_without_the_local_node() {
    let mut l = Lookup::new(FindJob::Node, lk_id(2), lk_id(0), &lk_nodes(&[8]));
    assert_eq!(lk_send(l.next_request(lk_id(1))).0.node_id, lk_id(8));
    l.on_reply(&lk_found_node(&[4, 2, 8, 1]));
    assert_eq!(lk_send(l.next_request(lk_id(1))).0.node_id, lk_id(1));
    assert_eq!(lk_send(l.next_request(lk_id(1))).0.node_id, lk_id(4));
    assert!(matches!(l.next_request(lk_id(1)), Step::Wait));
    l.on_reply(&Message::Timeout);
    l.on_reply(&Message::Pong(Pong { sender_id: Some(lk_id(4)), cookie: lk_id(1) }));
    assert!(matches!(l.next_request(lk_id(1)), Step::Done));
    let out = l.outcome().unwrap_err();
    let ids: Vec<NodeId> = out.iter().map(|n| n.node_id).collect();
    assert_eq!(ids, vec![lk_id(1), lk_id(4), lk_id(8)]);
}

#[test]
fn find_node_ignores_values() {
    let mut l = Lookup::new(FindJob::Node, lk_id(100), lk_id(0), &lk_nodes(&[8]));
    let _ = l.next_request(lk_id(1));
    l.on_reply(&lk_found_value(&[b"v"]));
    assert!(l.is_done());
    let out = l.outcome().unwrap_err();
    assert_eq!(out.len(), 1);
}

#[test]
fn values_are_collected_once_each() {
    let mut l = Lookup::new(FindJob::Value, lk_id(100), lk_id(0), &lk_nodes(&[1, 2, 3]));
    let _ = l.next_request(lk_id(1));
    let _ = l.next_request(lk_id(2));
    let _ = l.next_request(lk_id(3));
    l.on_reply(&lk_found_value(&[b"a", b"b"]));
    l.on_reply(&lk_found_value(&[b"b", b"a", b"c"]));
    l.on_reply(&lk_found_value(&[]));
    assert!(l.is_done());
    assert_eq!(l.outcome(), Ok(vec![b"a".to_vec(), b"b".to_vec(), b"c".to_vec()]));
}

#[test]
fn lookup_ends_after_k_peers_brought_values() {
    let seeds: Vec<u8> = (1..=25).collect();
    let mut l = Lookup::new(FindJob::Value, lk_id(100), lk_id(0), &lk_nodes(&seeds));
    let mut with_value = 0;
    let mut empty_sent = false;
    loop {
        match l.next_request(lk_id(50)) {
            Step::Send { .. } => {
                if !empty_sent {
                    // an empty answer does not count
                    l.on_reply(&lk_found_value(&[]));
                    empty_sent = true;
                } else {
                    l.on_reply(&lk_found_value(&[b"v"]));
                    with_value += 1;
                }
            }
            Step::Wait => panic!("nothing is in flight"),
            Step::Done => break,
        }
    }
    // the frontier converges on the 20 nearest peers; 19 of them brought a value
    assert_eq!(with_value, K_PARAM - 1);
    assert_eq!(l.outcome(), Ok(vec![b"v".to_vec()]));

    let mut l = Lookup::new(FindJob::Value, lk_id(100), lk_id(0), &lk_nodes(&seeds));
    let mut answers = 0;
    loop {
        match l.next_request(lk_id(50)) {
            Step::Send { .. } => {
                l.on_reply(&lk_found_value(&[b"v"]));
                answers += 1;
                if answers == K_PARAM {
                    assert!(l.is_done());
                }
            }
            Step::Wait => panic!("nothing is in flight"),
            Step::Done => break,
        }
    }
    assert_eq!(answers, K_PARAM);
    // a lookup that is over takes nothing more
    l.on_reply(&lk_found_value(&[b"late"]));
    assert_eq!(l.outcome(), Ok(vec![b"v".to_vec()]));
}

#[test]
fn probe_pings_in_order_within_the_window() {
    let mut p = Probe::new(lk_node(50), lk_nodes(&[4, 3, 2, 1]));
    assert_eq!(p.replacement().node_id, lk_id(50));
    let (to, msg) = lk_send(p.next_request(lk_id(100), lk_id(77)));
    assert_eq!(to.node_id, lk_id(4));
    match msg {
        Message::Ping(m) => {
            assert_eq!(m.sender_id, Some(lk_id(100)));
            assert_eq!(m.cookie, lk_id(77));
        }
        _ => panic!("expected Ping"),
    }
    assert_eq!(lk_send(p.next_request(lk_id(100), lk_id(78))).0.node_id, lk_id(3));
    assert_eq!(lk_send(p.next_request(lk_id(100), lk_id(79))).0.node_id, lk_id(2));
    assert!(matches!(p.next_request(lk_id(100), lk_id(80)), Step::Wait));
    p.answered(false);
    assert_eq!(lk_send(p.next_request(lk_id(100), lk_id(80))).0.node_id, lk_id(1));
    p.answered(false);
    p.answered(false);
    assert!(!p.is_done());
    p.answered(false);
    assert!(p.is_done());
    assert!(!p.is_finished());
    assert!(matches!(p.next_request(lk_id(100), lk_id(81)), Step::Done));
}

#[test]
fn probe_stops_once_over() {
    let mut p = Probe::new(lk_node(50), lk_nodes(&[4, 3, 2, 1]));
    let _ = p.next_request(lk_id(100), lk_id(1));
    p.answered(true);
    assert!(p.is_finished());
    assert!(p.is_done());
    assert!(matches!(p.next_request(lk_id(100), lk_id(2)), Step::Done));
    p.answered(false);
    assert!(p.is_finished());
}
