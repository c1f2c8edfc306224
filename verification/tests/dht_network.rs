use flmodules::dht_network::storage::{Kademlia, ID};
use flmodules::nodeid::U256;

/// An ID from hex digits, the first byte first, the missing bytes zero.
fn id_hex(s: &str) -> U256 {
    let mut b = [0u8; 32];
    for (i, ch) in s.as_bytes().chunks(2).enumerate() {
        b[i] = u8::from_str_radix(std::str::from_utf8(ch).unwrap(), 16).unwrap();
    }
    U256::from_bytes(b)
}

#[test]
fn test_id() {
    let rnd = U256::from_bytes([0x5a; 32]);
    assert_eq!(256, rnd.bits());
    let id1 = id_hex("10");
    assert!(id1.equals(&id1));
    let id2 = id_hex("20");
    assert!(!id1.equals(&id2));
    assert_eq!(2, id1.distance(&id2));
    assert_eq!(2, id2.distance(&id1));
}

#[test]
fn add_remove_nodes() {
    let mut ids: Vec<U256> = (0..8).map(|i| id_hex(&format!("0{i}"))).collect();
    let mut km = Kademlia::new(2, ids.remove(4));
    km.add_nodes(ids);
    for (_dist, bucket) in km.buckets() {
        assert!(bucket.len() <= 2);
    }
}

/// The distance counts the differing bits of all bytes.
#[test]
fn network_distance_all_bytes() {
    let a = U256::from_bytes([0xff; 32]);
    let b = U256::from_bytes([0; 32]);
    assert_eq!(256, a.distance(&b));
    assert_eq!(0, a.distance(&a));
    assert_eq!(0xff, a.uptime_sec());
    assert_eq!(vec![0xffu8; 32], a.get_bytes());
}

/// Beyond `k` nodes at one distance, those with the smallest uptime stay.
#[test]
fn network_keeps_smallest_uptime() {
    let base = id_hex("00");
    let mut km = Kademlia::new(2, base);
    // All at distance 1 from the base, with uptimes 0x80, 0x40, 0x20.
    km.add_nodes(vec![id_hex("80"), id_hex("40"), id_hex("20")]);
    let buckets = km.buckets();
    assert_eq!(1, buckets.len());
    assert_eq!(1, buckets[0].0);
    assert_eq!(vec![id_hex("20"), id_hex("40")], buckets[0].1);
    // Removing a node takes it out of its distance.
    km.remove_nodes(vec![id_hex("20")]);
    assert_eq!(vec![id_hex("40")], km.buckets()[0].1);
}

/// Closest nodes are taken out of the table, nearest distances first.
#[test]
fn network_closest_nodes() {
    let base = id_hex("00");
    let mut km = Kademlia::new(3, base);
    km.add_nodes(vec![id_hex("01"), id_hex("02"), id_hex("03"), id_hex("07")]);
    // Distances: 01 and 02 are at 1, 03 at 2, 07 at 3.
    let got = km.closest_nodes(&id_hex("04"), 2);
    assert_eq!(vec![id_hex("01"), id_hex("02")], got);
    let got = km.closest_nodes(&id_hex("04"), 5);
    assert_eq!(vec![id_hex("03"), id_hex("07")], got);
    assert!(km.closest_nodes(&id_hex("04"), 5).is_empty());
    assert!(km.closest_nodes(&id_hex("04"), 0).is_empty());
}
