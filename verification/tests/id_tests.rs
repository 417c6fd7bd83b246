use kademlia::id::{byte_bit_length, NodeId, COOKIE_BYTELEN};
use kademlia::node::Node;

fn id_with(first: u8, last: u8) -> NodeId {
    let mut bytes = [0u8; 20];
    bytes[0] = first;
    bytes[19] = last;
    NodeId::new(bytes)
}

#[test]
fn widths_are_160_bits() {
    assert_eq!(COOKIE_BYTELEN, 20);
    assert_eq!(Node::generate_id().bytes.len(), COOKIE_BYTELEN);
}

#[test]
fn identifiers_compare_bitwise() {
    assert_eq!(id_with(1, 2), id_with(1, 2));
    assert_ne!(id_with(1, 2), id_with(1, 3));
    assert_ne!(id_with(1, 2), id_with(2, 2));
}

#[test]
fn xor_is_bytewise() {
    let d = id_with(0x0f, 0xaa).xor(&id_with(0xff, 0x55));
    assert_eq!(d, id_with(0xf0, 0xff));
}

#[test]
fn xor_with_itself_is_zero() {
    let a = id_with(0x5a, 0xc3);
    assert_eq!(a.xor(&a), id_with(0, 0));
}

#[test]
fn xor_is_symmetric() {
    let a = id_with(0x12, 0x34);
    let b = id_with(0xfe, 0xdc);
    assert_eq!(a.xor(&b), b.xor(&a));
}

#[test]
fn byte_bit_length_counts_digits() {
    assert_eq!(byte_bit_length(0), 0);
    assert_eq!(byte_bit_length(1), 1);
    assert_eq!(byte_bit_length(2), 2);
    assert_eq!(byte_bit_length(3), 2);
    assert_eq!(byte_bit_length(4), 3);
    assert_eq!(byte_bit_length(127), 7);
    assert_eq!(byte_bit_length(128), 8);
    assert_eq!(byte_bit_length(255), 8);
}

#[test]
fn bit_len_of_identifiers() {
    assert_eq!(id_with(0, 0).bit_len(), 0);
    assert_eq!(id_with(0, 1).bit_len(), 1);
    assert_eq!(id_with(0, 0x80).bit_len(), 8);
    assert_eq!(id_with(1, 0).bit_len(), 153);
    assert_eq!(id_with(0x80, 0).bit_len(), 160);
    let mut bytes = [0u8; 20];
    bytes[18] = 1;
    assert_eq!(NodeId::new(bytes).bit_len(), 9);
}

#[test]
fn leading_zero_bits_of_identifiers() {
    assert_eq!(id_with(0, 0).leading_zero_bits(), 160);
    assert_eq!(id_with(0, 1).leading_zero_bits(), 159);
    assert_eq!(id_with(0x80, 0).leading_zero_bits(), 0);
    assert_eq!(id_with(0x01, 0xff).leading_zero_bits(), 7);
}

#[test]
fn bucket_index_of_nearest_neighbour_is_zero() {
    let local = id_with(0, 0);
    assert_eq!(local.bucket_index(&id_with(0, 1)), Some(0));
}

#[test]
fn bucket_index_of_self_is_none() {
    let local = id_with(9, 7);
    assert_eq!(local.bucket_index(&id_with(9, 7)), None);
}

#[test]
fn bucket_index_is_159_minus_leading_zeros() {
    let local = id_with(0, 0);
    assert_eq!(local.bucket_index(&id_with(0x80, 0)), Some(159));
    assert_eq!(local.bucket_index(&id_with(0x40, 0)), Some(158));
    assert_eq!(local.bucket_index(&id_with(0, 3)), Some(1));
    assert_eq!(local.bucket_index(&id_with(0, 0x80)), Some(7));
    let other = id_with(0x80, 5);
    assert_eq!(other.bucket_index(&id_with(0x80, 4)), Some(0));
    for last in 1..=255u8 {
        let id = id_with(0, last);
        let d = local.xor(&id);
        assert_eq!(local.bucket_index(&id), Some(160 - 1 - d.leading_zero_bits()));
    }
}

#[test]
fn closer_orders_by_xor_distance() {
    let key = id_with(0, 0);
    let a = id_with(0, 1);
    let b = id_with(0, 2);
    assert!(key.closer(&a, &b));
    assert!(!key.closer(&b, &a));
    assert!(!key.closer(&a, &a));
    // seen from 0..02, the peer 0..03 (distance 1) is nearer than 0..01 (distance 3)
    let key2 = id_with(0, 2);
    assert!(key2.closer(&id_with(0, 3), &id_with(0, 1)));
    // the first byte weighs more than the last
    assert!(key.closer(&id_with(0, 0xff), &id_with(1, 0)));
}

#[test]
fn generated_identifiers_differ() {
    let a = Node::generate_id();
    let b = Node::generate_id();
    let c = Node::generate_id();
    assert!(a != b || b != c);
}
