use kademlia::id::NodeId;
use kademlia::message::{FindNode, Message, Ping};
use kademlia::node::{Address, Node};

fn ms_id(last: u8) -> NodeId {
    let mut bytes = [0u8; 20];
    bytes[19] = last;
    NodeId::new(bytes)
}

#[test]
fn sender_and_cookie_of_each_shape() {
    let ping = Message::Ping(Ping { sender_id: Some(ms_id(1)), cookie: ms_id(2) });
    assert_eq!(ping.sender_id(), Some(ms_id(1)));
    assert_eq!(ping.cookie(), Some(ms_id(2)));
    let anon = Message::FindNode(FindNode { sender_id: None, cookie: ms_id(3), key: ms_id(4) });
    assert_eq!(anon.sender_id(), None);
    assert_eq!(anon.cookie(), Some(ms_id(3)));
    assert_eq!(Message::Timeout.sender_id(), None);
    assert_eq!(Message::Timeout.cookie(), None);
}

#[test]
fn peers_are_equal_by_identifier() {
    let a = Node::new(Address::V4 { host: 1, port: 2 }, ms_id(5), 7);
    let mut b = Node::new(Address::V6 { host6: 1, port: 2, flowinfo: 0, scope_id: 0 }, ms_id(5), 9);
    assert_eq!(a, b);
    b.update_last_seen(11);
    assert_eq!(b.last_seen, 11);
    assert_ne!(a, Node::new(a.addr, ms_id(6), 7));
}
