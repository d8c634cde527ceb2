use btcore::node_id::NodeId;

fn nid(last: u8) -> NodeId {
    let mut bytes = [0u8; 20];
    bytes[19] = last;
    NodeId::from_bytes(bytes)
}

#[test]
fn test_distance_self_is_zero() {
    let zero = NodeId::from_bytes([0u8; 20]);
    let full = NodeId::from_bytes([0xFFu8; 20]);
    let mixed = NodeId::from_bytes([
        1, 2, 3, 4, 5, 6, 7, 8, 9, 10, 11, 12, 13, 14, 15, 16, 17, 18, 19, 20,
    ]);
    assert!(zero.distance(&zero).is_zero());
    assert!(full.distance(&full).is_zero());
    assert!(mixed.distance(&mixed).is_zero());
    assert!(!mixed.distance(&zero).is_zero());
}

#[test]
fn test_distance_symmetric() {
    let a = NodeId::from_bytes([
        0xDE, 0xAD, 0xBE, 0xEF, 0, 1, 2, 3, 4, 5, 6, 7, 8, 9, 10, 11, 12, 13, 14, 15,
    ]);
    let b = NodeId::from_bytes([
        7, 7, 7, 7, 7, 7, 7, 7, 7, 7, 0x10, 0x20, 0x30, 0x40, 0x50, 0x60, 0x70, 0x80, 0x90, 0xA0,
    ]);
    assert_eq!(a.distance(&b), b.distance(&a));
    let c = nid(9);
    assert_eq!(a.distance(&c), c.distance(&a));
}

#[test]
fn test_distance_exact_value() {
    let x = nid(0x0F);
    let y = nid(0x05);
    let mut expected = vec![0u8; 20];
    expected[19] = 0x0A;
    assert_eq!(x.distance(&y).to_bytes(), expected);
}

#[test]
fn test_closest_empty_returns_self() {
    let x = nid(42);
    assert_eq!(x.closest(&[]).to_bytes(), x.to_bytes());
}

#[test]
fn test_closest_picks_minimum_distance() {
    let x = NodeId::from_bytes([0u8; 20]);
    let a = nid(5);
    let b = nid(3);
    let c = nid(9);
    let got = x.closest(&[a, b, c]);
    assert_eq!(got.to_bytes(), nid(3).to_bytes());
}

#[test]
fn test_closest_prefers_earliest_on_ties() {
    let x = nid(1);
    let near = nid(3);
    let far = nid(200);
    let got = x.closest(&[far, near, near, far]);
    assert_eq!(got.to_bytes(), nid(3).to_bytes());
}

#[test]
fn test_closest_high_byte_outweighs_low_bytes() {
    let x = NodeId::from_bytes([0u8; 20]);
    let mut high = [0u8; 20];
    high[0] = 1;
    let mut low_bytes = [0xFFu8; 20];
    low_bytes[0] = 0;
    let low = NodeId::from_bytes(low_bytes);
    let got = x.closest(&[NodeId::from_bytes(high), low]);
    assert_eq!(got.to_bytes(), low_bytes);
}
