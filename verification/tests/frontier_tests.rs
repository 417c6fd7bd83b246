use kademlia::closest_nodes_iter::{contains_id, ClosestNodesIter};
use kademlia::id::NodeId;
use kademlia::nearest::{insert_sorted, insertion_point, nearest};
use kademlia::node::{position_of, sort_by_last_seen, Address, Node};

fn fr_id(last: u8) -> NodeId {
    let mut bytes = [0u8; 20];
    bytes[19] = last;
    NodeId::new(bytes)
}

fn fr_node(last: u8) -> Node {
    Node::new(Address::V4 { host: 1, port: last as u16 }, fr_id(last), 0)
}

fn fr_ids(v: &[Node]) -> Vec<u8> {
    v.iter().map(|n| n.node_id.bytes[19]).collect()
}

#[test]
fn nearest_sorts_and_cuts() {
    let nodes = vec![fr_node(8), fr_node(1), fr_node(5), fr_node(4), fr_node(2)];
    // distances to 4: 8->12, 1->5, 5->1, 4->0, 2->6
    assert_eq!(fr_ids(&nearest(&nodes, &fr_id(4), 3)), vec![4, 5, 1]);
    assert_eq!(fr_ids(&nearest(&nodes, &fr_id(4), 10)), vec![4, 5, 1, 2, 8]);
    assert!(nearest(&nodes, &fr_id(4), 0).is_empty());
}

#[test]
fn nearest_keeps_first_record_of_a_peer() {
    let mut again = fr_node(5);
    again.last_seen = 77;
    let nodes = vec![fr_node(5), fr_node(1), again];
    let r = nearest(&nodes, &fr_id(0), 5);
    assert_eq!(fr_ids(&r), vec![1, 5]);
    assert_eq!(r[1].last_seen, 0);
}

#[test]
fn insert_sorted_reports_position() {
    let key = fr_id(0);
    let mut v: Vec<Node> = Vec::new();
    assert_eq!(insert_sorted(&mut v, &key, fr_node(4)), Some(0));
    assert_eq!(insert_sorted(&mut v, &key, fr_node(9)), Some(1));
    assert_eq!(insert_sorted(&mut v, &key, fr_node(6)), Some(1));
    assert_eq!(insert_sorted(&mut v, &key, fr_node(6)), None);
    assert_eq!(fr_ids(&v), vec![4, 6, 9]);
    assert_eq!(insertion_point(&v, &key, &fr_id(5)), 1);
    assert_eq!(insertion_point(&v, &key, &fr_id(6)), 1);
    assert_eq!(insertion_point(&v, &key, &fr_id(200)), 3);
}

#[test]
fn position_of_finds_first_record() {
    let v = vec![fr_node(3), fr_node(7), fr_node(3)];
    assert_eq!(position_of(&v, &fr_id(3)), Some(0));
    assert_eq!(position_of(&v, &fr_id(7)), Some(1));
    assert_eq!(position_of(&v, &fr_id(8)), None);
    assert!(contains_id(&vec![fr_id(1), fr_id(2)], &fr_id(2)));
    assert!(!contains_id(&vec![fr_id(1), fr_id(2)], &fr_id(3)));
}

#[test]
fn sort_by_last_seen_is_stable() {
    let mut a = fr_node(1);
    a.last_seen = 30;
    let mut b = fr_node(2);
    b.last_seen = 10;
    let mut c = fr_node(3);
    c.last_seen = 30;
    let mut d = fr_node(4);
    d.last_seen = 5;
    let r = sort_by_last_seen(&vec![a, b, c, d]);
    assert_eq!(fr_ids(&r), vec![4, 2, 1, 3]);
}

#[test]
fn frontier_starts_sorted_and_unvisited() {
    let it = ClosestNodesIter::new(fr_id(0), 3, &vec![fr_node(9), fr_node(2), fr_node(5), fr_node(2)]);
    assert_eq!(it.len(), 3);
    assert_eq!(it.key(), fr_id(0));
    assert!(it.has_next());
    assert_eq!(fr_ids(&it.get_closest_nodes(2)), vec![2, 5]);
    assert_eq!(fr_ids(&it.get_closest_nodes(20)), vec![2, 5, 9]);
}

#[test]
fn frontier_yields_nearest_unvisited_once() {
    let mut it = ClosestNodesIter::new(fr_id(0), 3, &vec![fr_node(9), fr_node(2), fr_node(5)]);
    assert_eq!(it.next().map(|n| n.node_id), Some(fr_id(2)));
    assert_eq!(it.next().map(|n| n.node_id), Some(fr_id(5)));
    it.add_nodes(&vec![fr_node(1), fr_node(2), fr_node(5)]);
    assert_eq!(fr_ids(&it.get_closest_nodes(20)), vec![1, 2, 5, 9]);
    // 1 is new and nearest; 2 and 5 were asked; 9 is no longer among the three nearest
    assert_eq!(it.next().map(|n| n.node_id), Some(fr_id(1)));
    assert!(!it.has_next());
    assert_eq!(it.next(), None);
    assert_eq!(it.next(), None);
}

#[test]
fn frontier_with_few_peers_asks_them_all() {
    let mut it = ClosestNodesIter::new(fr_id(0), 20, &vec![fr_node(9), fr_node(2)]);
    assert_eq!(it.next().map(|n| n.node_id), Some(fr_id(2)));
    assert_eq!(it.next().map(|n| n.node_id), Some(fr_id(9)));
    assert_eq!(it.next(), None);
}

#[test]
fn empty_frontier_is_exhausted() {
    let mut it = ClosestNodesIter::new(fr_id(0), 20, &Vec::new());
    assert!(!it.has_next());
    assert_eq!(it.next(), None);
    assert!(it.get_closest_nodes(20).is_empty());
}
