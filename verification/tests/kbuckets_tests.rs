use kademlia::id::NodeId;
use kademlia::kademlia::K_PARAM;
use kademlia::kbuckets::KBuckets;
use kademlia::node::{Address, Node};

fn kb_id(first: u8, last: u8) -> NodeId {
    let mut bytes = [0u8; 20];
    bytes[0] = first;
    bytes[19] = last;
    NodeId::new(bytes)
}

fn kb_addr(port: u16) -> Address {
    Address::V4 { host: 0x7f000001, port }
}

fn kb_node(first: u8, last: u8, seen: u64) -> Node {
    Node::new(kb_addr(7000 + last as u16), kb_id(first, last), seen)
}

fn full_far_bucket() -> KBuckets {
    let mut t = KBuckets::new(kb_id(0, 0));
    for i in 0..K_PARAM as u8 {
        assert!(t.add(kb_node(0x80, i, 100 + i as u64)).is_ok());
    }
    t
}

#[test]
fn new_table_is_empty() {
    let t = KBuckets::new(kb_id(0, 0));
    assert!(t.get_nodes().is_empty());
    assert_eq!(t.own_id(), kb_id(0, 0));
    assert_eq!(t.get_bucket(&kb_id(0, 1)).map(|b| b.len()), Some(0));
}

#[test]
fn add_appends_at_tail() {
    let mut t = KBuckets::new(kb_id(0, 0));
    assert_eq!(t.add(kb_node(0x80, 1, 10)), Ok(()));
    assert_eq!(t.add(kb_node(0x80, 2, 11)), Ok(()));
    let b = t.get_bucket(&kb_id(0x80, 9)).unwrap();
    assert_eq!(b.len(), 2);
    assert_eq!(b[0].node_id, kb_id(0x80, 1));
    assert_eq!(b[1].node_id, kb_id(0x80, 2));
}

#[test]
fn add_known_peer_moves_it_to_tail_and_refreshes() {
    let mut t = KBuckets::new(kb_id(0, 0));
    t.add(kb_node(0x80, 1, 10)).unwrap();
    t.add(kb_node(0x80, 2, 11)).unwrap();
    t.add(kb_node(0x80, 3, 12)).unwrap();
    let again = Node::new(kb_addr(9999), kb_id(0x80, 1), 50);
    assert_eq!(t.add(again), Ok(()));
    let b = t.get_bucket(&kb_id(0x80, 1)).unwrap();
    assert_eq!(b.len(), 3);
    assert_eq!(b[0].node_id, kb_id(0x80, 2));
    assert_eq!(b[1].node_id, kb_id(0x80, 3));
    assert_eq!(b[2].node_id, kb_id(0x80, 1));
    assert_eq!(b[2].last_seen, 50);
    assert_eq!(b[2].addr, kb_addr(9999));
}

#[test]
fn add_to_full_bucket_hands_candidate_back() {
    let mut t = full_far_bucket();
    let candidate = kb_node(0x80, 200, 500);
    let r = t.add(candidate);
    assert!(r.is_err());
    let back = r.unwrap_err();
    assert_eq!(back.node_id, candidate.node_id);
    assert_eq!(back.addr, candidate.addr);
    assert_eq!(back.last_seen, 500);
    assert_eq!(t.get_bucket(&candidate.node_id).unwrap().len(), K_PARAM);
    assert!(t.get_nodes().iter().all(|n| n.node_id != candidate.node_id));
}

#[test]
fn known_peer_is_refreshed_in_full_bucket() {
    let mut t = full_far_bucket();
    assert_eq!(t.add(kb_node(0x80, 0, 900)), Ok(()));
    let b = t.get_bucket(&kb_id(0x80, 0)).unwrap();
    assert_eq!(b.len(), K_PARAM);
    assert_eq!(b[K_PARAM - 1].node_id, kb_id(0x80, 0));
    assert_eq!(b[K_PARAM - 1].last_seen, 900);
}

#[test]
fn buckets_never_exceed_k() {
    let mut t = KBuckets::new(kb_id(0, 0));
    for first in [0x80u8, 0x40, 0x20] {
        for last in 0..40u8 {
            let _ = t.add(kb_node(first, last, last as u64));
        }
    }
    for first in [0x80u8, 0x40, 0x20] {
        assert_eq!(t.get_bucket(&kb_id(first, 0)).unwrap().len(), K_PARAM);
    }
    assert_eq!(t.get_nodes().len(), 3 * K_PARAM);
}

#[test]
fn local_id_is_never_stored() {
    let mut t = KBuckets::new(kb_id(0, 7));
    let me = kb_node(0, 7, 1);
    let r = t.add(me);
    assert!(r.is_err());
    assert!(t.get_nodes().is_empty());
    assert!(t.get_bucket(&kb_id(0, 7)).is_none());
    assert!(t.construct_node(kb_addr(1), kb_id(0, 7), 3).is_none());
}

#[test]
fn construct_node_builds_record() {
    let t = KBuckets::new(kb_id(0, 7));
    let n = t.construct_node(kb_addr(1234), kb_id(0, 8), 33).unwrap();
    assert_eq!(n.addr, kb_addr(1234));
    assert_eq!(n.node_id, kb_id(0, 8));
    assert_eq!(n.last_seen, 33);
}

#[test]
fn peers_sit_in_the_bucket_of_their_distance() {
    let local = kb_id(0, 0);
    let mut t = KBuckets::new(local);
    for last in 1..=255u8 {
        let _ = t.add(kb_node(0, last, 1));
    }
    for n in t.get_nodes() {
        let d = local.xor(&n.node_id);
        let i = 160 - 1 - d.leading_zero_bits();
        assert_eq!(local.bucket_index(&n.node_id), Some(i));
        let b = t.get_bucket(&n.node_id).unwrap();
        assert!(b.iter().any(|m| m.node_id == n.node_id));
        assert!(b.len() <= K_PARAM);
    }
}

#[test]
fn no_identifier_occurs_twice() {
    let mut t = KBuckets::new(kb_id(0, 0));
    for round in 0..3u64 {
        for last in 1..=60u8 {
            let _ = t.add(kb_node(0, last, round));
        }
    }
    let nodes = t.get_nodes();
    for i in 0..nodes.len() {
        for j in (i + 1)..nodes.len() {
            assert_ne!(nodes[i].node_id, nodes[j].node_id);
        }
    }
}

#[test]
fn closest_nodes_come_in_order_of_distance() {
    let mut t = KBuckets::new(kb_id(0, 0));
    for last in [1u8, 2, 3, 4, 5, 8, 16, 32] {
        t.add(kb_node(0, last, 1)).unwrap();
    }
    t.add(kb_node(0x80, 1, 1)).unwrap();
    let key = kb_id(0, 4);
    let r = t.get_closest_nodes(&key, 4);
    let ids: Vec<NodeId> = r.iter().map(|n| n.node_id).collect();
    // distances to 4: 4->0, 5->1, 1->5, 2->6, 3->7, 8->12, 16->20, 32->36
    assert_eq!(ids, vec![kb_id(0, 4), kb_id(0, 5), kb_id(0, 1), kb_id(0, 2)]);
}

#[test]
fn closest_nodes_returns_all_when_fewer_than_n() {
    let mut t = KBuckets::new(kb_id(0, 0));
    t.add(kb_node(0x80, 1, 1)).unwrap();
    t.add(kb_node(0, 1, 1)).unwrap();
    let r = t.get_closest_nodes(&kb_id(0, 0), K_PARAM);
    let ids: Vec<NodeId> = r.iter().map(|n| n.node_id).collect();
    assert_eq!(ids, vec![kb_id(0, 1), kb_id(0x80, 1)]);
    assert!(t.get_closest_nodes(&kb_id(0, 0), 0).is_empty());
}

#[test]
fn evict_replaces_stale_peer_at_tail() {
    let mut t = full_far_bucket();
    let candidate = kb_node(0x80, 200, 500);
    assert!(t.evict(&kb_id(0x80, 3), candidate));
    let b = t.get_bucket(&candidate.node_id).unwrap();
    assert_eq!(b.len(), K_PARAM);
    assert!(b.iter().all(|n| n.node_id != kb_id(0x80, 3)));
    assert_eq!(b[K_PARAM - 1].node_id, candidate.node_id);
    assert_eq!(b[0].node_id, kb_id(0x80, 0));
}

#[test]
fn evict_of_absent_peer_changes_nothing() {
    let mut t = full_far_bucket();
    let before = t.get_nodes();
    let candidate = kb_node(0x80, 200, 500);
    assert!(!t.evict(&kb_id(0x80, 201), candidate));
    // a peer of another bucket is not in the bucket of the candidate
    assert!(!t.evict(&kb_id(0x40, 1), candidate));
    // the local node cannot take a place
    assert!(!t.evict(&kb_id(0x80, 3), kb_node(0, 0, 1)));
    // a candidate that is in the bucket under another record does not enter twice
    assert!(!t.evict(&kb_id(0x80, 3), kb_node(0x80, 4, 1)));
    let after = t.get_nodes();
    assert_eq!(before.len(), after.len());
    for (a, b) in before.iter().zip(after.iter()) {
        assert_eq!(a.node_id, b.node_id);
        assert_eq!(a.last_seen, b.last_seen);
    }
}

#[test]
fn set_own_id_files_peers_afresh() {
    let mut t = KBuckets::new(kb_id(0, 0));
    t.add(kb_node(0, 1, 1)).unwrap();
    t.add(kb_node(0, 2, 1)).unwrap();
    t.add(kb_node(0x80, 1, 1)).unwrap();
    t.set_own_id(kb_id(0, 2));
    assert_eq!(t.own_id(), kb_id(0, 2));
    let ids: Vec<NodeId> = t.get_nodes().iter().map(|n| n.node_id).collect();
    assert_eq!(ids.len(), 2);
    assert!(ids.contains(&kb_id(0, 1)));
    assert!(ids.contains(&kb_id(0x80, 1)));
    let local = kb_id(0, 2);
    // 1 xor 2 = 3: class 1
    assert_eq!(local.bucket_index(&kb_id(0, 1)), Some(1));
    assert_eq!(t.get_bucket(&kb_id(0, 1)).unwrap().len(), 1);
}

#[test]
fn add_all_offers_each_in_turn() {
    let mut t = KBuckets::new(kb_id(0, 0));
    let list = vec![kb_node(0, 1, 1), kb_node(0, 0, 1), kb_node(0, 1, 9), kb_node(0, 3, 2)];
    t.add_all(&list);
    let nodes = t.get_nodes();
    assert_eq!(nodes.len(), 2);
    assert_eq!(nodes[0].node_id, kb_id(0, 1));
    assert_eq!(nodes[0].last_seen, 9);
    assert_eq!(nodes[1].node_id, kb_id(0, 3));
}
