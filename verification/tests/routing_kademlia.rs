use flmodules::dht_routing::kademlia::{Bit, Config, KNode, Kademlia};
use flmodules::nodeid::U256;

const CONFIG: Config = Config { k: 2, ping_interval: 2, ping_timeout: 4 };

/// An ID from hex digits, the first byte first, the missing bytes zero.
fn id_hex(s: &str) -> U256 {
    let mut b = [0u8; 32];
    for (i, ch) in s.as_bytes().chunks(2).enumerate() {
        b[i] = u8::from_str_radix(std::str::from_utf8(ch).unwrap(), 16).unwrap();
    }
    U256::from_bytes(b)
}

/// A small deterministic generator of random IDs.
struct Rng(u64);

impl Rng {
    fn next(&mut self) -> u64 {
        let mut x = self.0;
        x ^= x << 13;
        x ^= x >> 7;
        x ^= x << 17;
        self.0 = x;
        x
    }

    fn node(&mut self) -> U256 {
        let mut b = [0u8; 32];
        for i in 0..4 {
            b[i * 8..i * 8 + 8].copy_from_slice(&self.next().to_be_bytes());
        }
        U256::from_bytes(b)
    }

    fn node_depth(&mut self, root: &U256, depth: usize) -> U256 {
        loop {
            let node = self.node();
            if depth_of(root, node) == depth {
                return node;
            }
        }
    }
}

fn depth_of(root: &U256, node: U256) -> usize {
    KNode::get_depth(&KNode::distance(root, node))
}

fn distance_str(root: &U256, node_str: &str) -> usize {
    depth_of(root, id_hex(node_str))
}

fn add(rng: &mut Rng, kademlia: &mut Kademlia, depth: usize, nbr: usize) {
    for _ in 0..nbr {
        let node = rng.node_depth(&kademlia.root, depth);
        kademlia.add_node(node);
    }
}

/// Checks the number of buckets, the active and cached nodes of the root bucket,
/// and that every node lies in the bucket of its depth.
fn check(kademlia: &Kademlia, buckets: usize, root_active: usize, root_cache: usize) {
    let active = kademlia.bucket_nodes();
    let cache = kademlia.bucket_caches();
    assert_eq!(buckets, active.len() - 1, "Wrong number of buckets");
    assert_eq!(root_active, active[buckets].len(), "Active root nodes");
    assert_eq!(root_cache, cache[buckets].len(), "Cached root nodes");
    for depth in 0..buckets {
        for node in active[depth].iter().chain(cache[depth].iter()) {
            assert_eq!(depth, depth_of(&kademlia.root, *node));
        }
    }
    for node in active[buckets].iter().chain(cache[buckets].iter()) {
        assert!(depth_of(&kademlia.root, *node) >= buckets);
    }
}

#[test]
fn test_distance() {
    let root = id_hex("00");
    assert_eq!(256, KNode::get_depth(&KNode::distance(&root, root)));
    assert_eq!(0, distance_str(&root, "80"));
    assert_eq!(1, distance_str(&root, "40"));
    assert_eq!(2, distance_str(&root, "20"));
    assert_eq!(3, distance_str(&root, "10"));
    assert_eq!(4, distance_str(&root, "08"));
    assert_eq!(5, distance_str(&root, "04"));
    assert_eq!(6, distance_str(&root, "02"));
    assert_eq!(7, distance_str(&root, "01"));
    assert_eq!(8, distance_str(&root, "0080"));
}

/// The distance has one bit per bit of the IDs, set where they differ.
#[test]
fn routing_distance_bits() {
    let d = KNode::distance(&id_hex("0f"), id_hex("0a"));
    assert_eq!(256, d.len());
    let ones: Vec<usize> = (0..256).filter(|&i| d[i] == Bit::One).collect();
    assert_eq!(vec![5, 7], ones);
    assert_eq!(5, KNode::get_depth(&d));
    assert_eq!(5, KNode::new(&id_hex("0f"), id_hex("0a")).depth);
}

#[test]
fn routing_closest_nodes_simple() {
    let mut rng = Rng(1);
    let root = id_hex("00");
    let mut kademlia = Kademlia::new(root, CONFIG);
    assert_eq!(0, kademlia.nearest_nodes(&rng.node_depth(&root, 2)).len());
    add(&mut rng, &mut kademlia, 0, 1);
    assert_eq!(1, kademlia.nearest_nodes(&rng.node_depth(&root, 1)).len());
    add(&mut rng, &mut kademlia, 2, 3 * CONFIG.k);
    assert_eq!(1, kademlia.nearest_nodes(&rng.node_depth(&root, 1)).len());
    // The nodes returned are active nodes of the table.
    let active = kademlia.active_nodes();
    for depth in 0..6 {
        for n in kademlia.nearest_nodes(&rng.node_depth(&root, depth)) {
            assert!(active.contains(&n));
        }
    }
    // Nothing is returned for the root itself.
    assert!(kademlia.nearest_nodes(&root).is_empty());
}

/// The root bucket takes every node and splits off a bucket once it overflows;
/// nodes all at the same depth never make it split.
#[test]
fn routing_adding_nodes() {
    let mut rng = Rng(2);
    let root = id_hex("00");
    let mut kademlia = Kademlia::new(root, CONFIG);
    add(&mut rng, &mut kademlia, 0, CONFIG.k);
    check(&kademlia, 0, CONFIG.k, 0);
    add(&mut rng, &mut kademlia, 2, CONFIG.k);
    check(&kademlia, 1, CONFIG.k, 0);
    add(&mut rng, &mut kademlia, 3, CONFIG.k);
    check(&kademlia, 3, CONFIG.k, 0);
    // A known node or the root is not added again.
    let known = kademlia.active_nodes()[0];
    kademlia.add_node(known);
    kademlia.add_node(root);
    assert_eq!(6, kademlia.active_nodes().len());

    let mut kademlia = Kademlia::new(root, CONFIG);
    add(&mut rng, &mut kademlia, 2, 3 * CONFIG.k);
    check(&kademlia, 0, 3 * CONFIG.k, 0);
}

/// A bucket other than the root holds k active and k cached nodes, and drops
/// the others.
#[test]
fn routing_bucket_limits() {
    let mut rng = Rng(3);
    let root = id_hex("00");
    let mut kademlia = Kademlia::new(root, CONFIG);
    add(&mut rng, &mut kademlia, 0, CONFIG.k);
    add(&mut rng, &mut kademlia, 1, CONFIG.k);
    check(&kademlia, 1, CONFIG.k, 0);
    add(&mut rng, &mut kademlia, 0, 3);
    let active = kademlia.bucket_nodes();
    let cache = kademlia.bucket_caches();
    assert_eq!(CONFIG.k, active[0].len());
    assert_eq!(CONFIG.k, cache[0].len());
}

#[test]
fn routing_removing_nodes() {
    let mut rng = Rng(4);
    let root = id_hex("00");
    let mut kademlia = Kademlia::new(root, CONFIG);
    add(&mut rng, &mut kademlia, 0, CONFIG.k);
    add(&mut rng, &mut kademlia, 2, CONFIG.k);
    add(&mut rng, &mut kademlia, 0, 2);
    check(&kademlia, 1, CONFIG.k, 0);
    // Removing an active node of a bucket refills it from its cache.
    let bucket0 = kademlia.bucket_nodes()[0].clone();
    let cached = kademlia.bucket_caches()[0].clone();
    assert_eq!(2, cached.len());
    kademlia.remove_node(&bucket0[0]);
    assert_eq!(vec![bucket0[1], cached[1]], kademlia.bucket_nodes()[0]);
    assert_eq!(vec![cached[0]], kademlia.bucket_caches()[0]);
    // Removing a node of the root bucket merges the last bucket back.
    let id = kademlia.bucket_nodes()[1][0];
    kademlia.remove_node(&id);
    check(&kademlia, 0, 4, 0);
    assert!(!kademlia.active_nodes().contains(&id));
}

#[test]
fn routing_tick() {
    let mut rng = Rng(5);
    let root = id_hex("00");
    let mut kademlia = Kademlia::new(root, CONFIG);
    add(&mut rng, &mut kademlia, 2, 3);
    let ticks = kademlia.tick();
    assert_eq!([0, 0], [ticks.deleted.len(), ticks.ping.len()]);
    let ticks = kademlia.tick();
    assert_eq!([0, 3], [ticks.deleted.len(), ticks.ping.len()]);
    for ping in &ticks.ping[0..2] {
        kademlia.node_active(ping);
    }
    let ticks = kademlia.tick();
    assert_eq!([0, 0], [ticks.deleted.len(), ticks.ping.len()]);
    let ticks = kademlia.tick();
    assert_eq!([1, 2], [ticks.deleted.len(), ticks.ping.len()]);
    assert_eq!(2, kademlia.active_nodes().len());
}

/// Messages are routed: every node reaches every other in a few hops.
#[test]
fn routing_reach() {
    let mut rng = Rng(6);
    let config = Config { k: 3, ping_interval: 10, ping_timeout: 20 };
    let nodes: Vec<U256> = (0..200).map(|_| rng.node()).collect();
    let kademlias: Vec<Kademlia> = nodes
        .iter()
        .map(|root| {
            let mut kad = Kademlia::new(*root, config);
            kad.add_nodes(nodes.clone());
            kad
        })
        .collect();
    for node in &nodes[1..] {
        let mut hop = &kademlias[0];
        let mut found = false;
        for _ in 0..20 {
            let next = hop.nearest_nodes(node);
            match next.first() {
                Some(n) => hop = kademlias.iter().find(|k| k.root == *n).unwrap(),
                None => {
                    assert_eq!(*node, hop.root);
                    found = true;
                    break;
                }
            }
        }
        assert!(found, "no route found");
    }
}
