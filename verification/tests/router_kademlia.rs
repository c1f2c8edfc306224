use flmodules::dht_router::kademlia::{Config, KNode, Kademlia, TickIDs};
use flmodules::nodeid::U256;

const CONFIG: Config = Config { k: 2, ping_interval: 2, ping_timeout: 4 };

/// An ID from hex digits, the first byte first, the missing bytes zero.
fn id_hex(s: &str) -> U256 {
    let mut b = [0u8; 32];
    for (i, ch) in s.as_bytes().chunks(2).enumerate() {
        b[i] = u8::from_str_radix(std::str::from_utf8(ch).unwrap(), 16).unwrap();
    }
    U256::from_bytes(b)
}

/// A small deterministic generator of random IDs.
struct Rng(u64);

impl Rng {
    fn next(&mut self) -> u64 {
        let mut x = self.0;
        x ^= x << 13;
        x ^= x >> 7;
        x ^= x << 17;
        self.0 = x;
        x
    }

    fn node(&mut self) -> U256 {
        let mut b = [0u8; 32];
        for i in 0..4 {
            b[i * 8..i * 8 + 8].copy_from_slice(&self.next().to_be_bytes());
        }
        U256::from_bytes(b)
    }

    fn node_depth(&mut self, root: &U256, depth: usize) -> U256 {
        loop {
            let node = self.node();
            if KNode::get_depth(root, node) == depth {
                return node;
            }
        }
    }

    fn nodes_depth(&mut self, root: &U256, depth: usize, nbr: usize) -> Vec<U256> {
        (0..nbr).map(|_| self.node_depth(root, depth)).collect()
    }
}

fn distance_str(root: &U256, node_str: &str) -> usize {
    KNode::get_depth(root, id_hex(node_str))
}

fn kademlia_add_nodes(rng: &mut Rng, kademlia: &mut Kademlia, depth: usize, nbr: usize) {
    let nodes = rng.nodes_depth(&kademlia.root(), depth, nbr);
    kademlia.add_nodes_active(nodes);
}

fn kademlia_add_nodes_cache(rng: &mut Rng, kademlia: &mut Kademlia, depth: usize, nbr: usize) {
    let nodes = rng.nodes_depth(&kademlia.root(), depth, nbr);
    kademlia.add_nodes(nodes);
}

fn kademlia_test(kademlia: &Kademlia, buckets: usize, root_active: usize) {
    kademlia_test_cache(kademlia, buckets, root_active, 0);
}

fn kademlia_test_cache(kademlia: &Kademlia, buckets: usize, root_active: usize, root_cache: usize) {
    let active = kademlia.bucket_nodes();
    let cache = kademlia.bucket_caches();
    assert_eq!(buckets, active.len() - 1, "Wrong number of buckets");
    assert_eq!(root_active, active[buckets].len(), "Active KBucket number mismatch");
    assert_eq!(root_cache, cache[buckets].len(), "Cache KBucket number mismatch");
    let root = kademlia.root();
    for depth in 0..buckets {
        for node in active[depth].iter().chain(cache[depth].iter()) {
            assert_eq!(depth, KNode::get_depth(&root, *node), "Node in bucket {depth} has a wrong depth");
        }
    }
    for node in active[buckets].iter().chain(cache[buckets].iter()) {
        assert!(KNode::get_depth(&root, *node) >= buckets, "Node in root has a wrong depth");
    }
}

fn kademlia_bucket(kademlia: &Kademlia, depth: usize, active: usize, cache: usize) {
    let a = kademlia.bucket_nodes();
    let c = kademlia.bucket_caches();
    assert!(depth + 1 < a.len(), "Bucket with depth {depth} doesn't exist");
    assert_eq!(active, a[depth].len(), "{} active instead of {active}", a[depth].len());
    assert_eq!(cache, c[depth].len(), "{} cache instead of {cache}", c[depth].len());
}

fn tick_len(kademlia: &mut Kademlia, ping: usize, deleted: usize) -> TickIDs {
    let ticks = kademlia.tick();
    assert_eq!(ping, ticks.ping.len(), "Got ping for {} instead of {ping} nodes", ticks.ping.len());
    assert_eq!(
        deleted,
        ticks.deleted.len(),
        "Got deleted for {} instead of {deleted} nodes",
        ticks.deleted.len()
    );
    ticks
}

#[test]
fn test_get_depth() {
    let root = id_hex("00");
    assert_eq!(255, KNode::get_depth(&root, root));
    assert_eq!(0, distance_str(&root, "80"));
    assert_eq!(1, distance_str(&root, "40"));
    assert_eq!(2, distance_str(&root, "20"));
    assert_eq!(3, distance_str(&root, "10"));
    assert_eq!(4, distance_str(&root, "08"));
    assert_eq!(5, distance_str(&root, "04"));
    assert_eq!(6, distance_str(&root, "02"));
    assert_eq!(7, distance_str(&root, "01"));
    assert_eq!(8, distance_str(&root, "0080"));
}

#[test]
fn kademlia_test_rnd_node_depth() {
    let mut rng = Rng(0x1234_5678_9abc_def1);
    let node = id_hex("00");
    for i in 0..16 {
        let n = rng.node_depth(&node, i);
        assert_eq!(i, KNode::get_depth(&node, n));
    }
}

#[test]
fn kademlia_test_adding_nodes() {
    let mut rng = Rng(7);
    let root = id_hex("00");
    let mut kademlia = Kademlia::new(root, CONFIG);
    kademlia_add_nodes(&mut rng, &mut kademlia, 0, CONFIG.k);
    kademlia_test(&kademlia, 0, CONFIG.k);

    kademlia_add_nodes(&mut rng, &mut kademlia, 2, CONFIG.k);
    kademlia_test(&kademlia, 1, CONFIG.k);

    kademlia_add_nodes(&mut rng, &mut kademlia, 3, 1);
    kademlia_test(&kademlia, 1, CONFIG.k + 1);

    kademlia_add_nodes(&mut rng, &mut kademlia, 4, CONFIG.k);
    kademlia_test(&kademlia, 3, CONFIG.k + 1);

    let mut kademlia = Kademlia::new(root, CONFIG);
    kademlia_add_nodes(&mut rng, &mut kademlia, 2, 3 * CONFIG.k);
    kademlia_test(&kademlia, 0, 3 * CONFIG.k);
}

#[test]
fn kademlia_test_removing_nodes() {
    let mut rng = Rng(11);
    let root = id_hex("00");
    let mut kademlia = Kademlia::new(root, CONFIG);
    kademlia_add_nodes(&mut rng, &mut kademlia, 0, CONFIG.k);
    kademlia_add_nodes(&mut rng, &mut kademlia, 2, CONFIG.k);
    kademlia_add_nodes(&mut rng, &mut kademlia, 3, 1);
    kademlia_add_nodes(&mut rng, &mut kademlia, 4, CONFIG.k);

    kademlia_test(&kademlia, 3, CONFIG.k + 1);
    let id = *kademlia.bucket_nodes().last().unwrap().first().unwrap();
    kademlia.remove_node(&id);
    kademlia_test(&kademlia, 3, CONFIG.k);
    let id = *kademlia.bucket_nodes().last().unwrap().first().unwrap();
    kademlia.remove_node(&id);
    kademlia_test(&kademlia, 2, CONFIG.k + 1);
}

// Test the standard edge-cases: no nodes, only depth==0 nodes
#[test]
fn kademlia_test_closest_nodes_simple() {
    let mut rng = Rng(13);
    let root = id_hex("00");
    let mut kademlia = Kademlia::new(root, CONFIG);

    let dst_0 = rng.node_depth(&root, 0);
    let dst_1 = rng.node_depth(&root, 1);
    let dst_2 = rng.node_depth(&root, 2);

    let nodes = kademlia.route_closest(&dst_2, None);
    assert_eq!(0, nodes.len());

    kademlia_add_nodes(&mut rng, &mut kademlia, 0, 1);
    let nodes = kademlia.route_closest(&dst_0, None);
    assert_eq!(1, nodes.len());
    let nodes = kademlia.route_closest(&dst_1, None);
    assert_eq!(0, nodes.len());

    kademlia_add_nodes(&mut rng, &mut kademlia, 2, 1);
    let nodes = kademlia.route_closest(&dst_2, None);
    assert_eq!(1, nodes.len());

    kademlia_add_nodes(&mut rng, &mut kademlia, 2, 2 * CONFIG.k);
    let nodes = kademlia.route_closest(&dst_2, None);
    assert_eq!(2 * CONFIG.k + 1, nodes.len());
}

// Do some more complicated cases
#[test]
fn test_closest_nodes_last() {
    let mut rng = Rng(17);
    let root = id_hex("00");
    let mut kademlia = Kademlia::new(root, CONFIG);

    kademlia_add_nodes(&mut rng, &mut kademlia, 2, CONFIG.k);
    kademlia_add_nodes(&mut rng, &mut kademlia, 3, CONFIG.k);
    // As the depth==4 nodes are entered one-by-one, the first one
    // triggers the overflow, and the second one goes to the cache.
    // So the active KBucket of the root_bucket has a depth 3 and a
    // depth 4 inside.
    kademlia_add_nodes(&mut rng, &mut kademlia, 4, CONFIG.k + 1);

    let tests = vec![
        (0, 2, CONFIG.k),
        (1, 2, CONFIG.k),
        (2, 2, CONFIG.k),
        (3, 3, CONFIG.k),
        (4, 4, CONFIG.k + 1),
        (5, 4, 0),
    ];

    for (depth, returned, nbr) in tests {
        let dst = rng.node_depth(&root, depth);
        let nodes = kademlia.route_closest(&dst, Some(&dst));
        assert_eq!(nbr, nodes.len(), "{depth} - {returned} - {nbr}");
        for node in nodes {
            let d = KNode::get_depth(&root, node);
            assert_eq!(returned, d, "Node with depth {d} in {depth} - {returned} - {nbr}");
        }
    }
}

#[test]
fn kademlia_test_tick() {
    let mut rng = Rng(19);
    let root = id_hex("00");
    let mut kademlia = Kademlia::new(root, CONFIG);

    kademlia_add_nodes(&mut rng, &mut kademlia, 2, 10);
    kademlia_add_nodes(&mut rng, &mut kademlia, 3, 10);

    tick_len(&mut kademlia, 0, 0);
    let ticks = tick_len(&mut kademlia, 12, 0);
    for ping in &ticks.ping[0..3] {
        kademlia.node_active(ping);
    }
    tick_len(&mut kademlia, 0, 0);
    tick_len(&mut kademlia, 12, 9);
}

#[test]
fn kademlia_test_distribution() {
    let mut rng = Rng(23);
    let root = rng.node();
    let mut kademlia = Kademlia::new(root, Config { k: 2, ping_interval: 10, ping_timeout: 20 });

    kademlia.add_nodes_active((0..256).map(|_| rng.node()).collect());

    let active = kademlia.bucket_nodes();
    let cache = kademlia.bucket_caches();
    let total: usize = active.iter().chain(cache.iter()).map(|b| b.len()).sum();
    assert!(total <= 256);
    for b in &active[..active.len() - 1] {
        assert!(b.len() <= 2);
    }
}

fn reach_one(rng: &mut Rng, node_nbr: usize, node_visible: usize, max_hops: usize, k: usize) -> usize {
    let config = Config { k, ping_interval: 10, ping_timeout: 20 };
    let nodes: Vec<U256> = (0..node_nbr).map(|_| rng.node()).collect();
    let kademlias: Vec<Kademlia> = nodes
        .iter()
        .map(|root| {
            let mut kad = Kademlia::new(*root, config);
            let mut shuffled: Vec<U256> = nodes.iter().filter(|id| *id != root).cloned().collect();
            for i in (1..shuffled.len()).rev() {
                let j = (rng.next() % (i as u64 + 1)) as usize;
                shuffled.swap(i, j);
            }
            shuffled.truncate(node_visible);
            kad.add_nodes_active(shuffled);
            kad
        })
        .collect();

    let mut missing = 0;
    for node in nodes[1..node_nbr].iter() {
        let mut hop_kademlia = &kademlias[(rng.next() % node_nbr as u64) as usize];
        for hop in 0..max_hops {
            let root = hop_kademlia.root();
            let next_hops = hop_kademlia.route_closest(node, (hop > 0).then(|| &root));
            if next_hops.len() > 0 {
                let next_hop = next_hops[(rng.next() % next_hops.len() as u64) as usize];
                hop_kademlia = kademlias.iter().find(|k| k.root() == next_hop).unwrap();
            } else {
                if node != &hop_kademlia.root() {
                    missing += 1;
                }
                break;
            }
            if max_hops - 1 == hop {
                missing += 1;
            }
        }
    }
    missing
}

#[test]
fn kademlia_test_reach() {
    let mut rng = Rng(29);
    let mut res = vec![];
    let total = 100;
    (0..5).rev().for_each(|ki| {
        let k = (total / 50) * ki + 1;
        (0..=5).for_each(|missing| {
            let visible = total - missing * 50 / (1000 / total);
            let missed = reach_one(&mut rng, total, visible, 200, 2);
            assert!(missed < total);
            res.push([k, visible, missed]);
        });
    });
    assert_eq!(30, res.len());
}

#[test]
fn test_add_node_activate() {
    let mut rng = Rng(31);
    let root = rng.node();
    let mut kademlia = Kademlia::new(root, CONFIG);

    // Create some nodes
    kademlia_add_nodes_cache(&mut rng, &mut kademlia, 2, 2 * CONFIG.k);
    kademlia_add_nodes_cache(&mut rng, &mut kademlia, 3, 2 * CONFIG.k);
    kademlia_test_cache(&kademlia, 3, 0, 2 * CONFIG.k);
    let ticks = tick_len(&mut kademlia, 4 * CONFIG.k, 0);

    // Ping some of the nodes
    for id in &ticks.ping[0..2] {
        kademlia.node_active(id);
    }
    for id in &ticks.ping[6..8] {
        kademlia.node_active(id);
    }
    kademlia_test_cache(&kademlia, 3, CONFIG.k, CONFIG.k);
    kademlia_bucket(&kademlia, 2, CONFIG.k, CONFIG.k);

    // Ping rest of nodes
    for id in &ticks.ping[2..6] {
        kademlia.node_active(id);
    }
    kademlia_test_cache(&kademlia, 3, 2 * CONFIG.k, 0);
    kademlia_bucket(&kademlia, 2, CONFIG.k, CONFIG.k);

    tick_len(&mut kademlia, 0, 0);
    tick_len(&mut kademlia, 3 * CONFIG.k, 0);
}

/// Adding a node that is already known changes nothing.
#[test]
fn kademlia_add_known_node() {
    let mut rng = Rng(37);
    let root = id_hex("00");
    let mut kademlia = Kademlia::new(root, CONFIG);
    let n = rng.node_depth(&root, 3);
    kademlia.add_node(n);
    let before = (kademlia.bucket_nodes(), kademlia.bucket_caches());
    kademlia.add_node(n);
    assert_eq!(before, (kademlia.bucket_nodes(), kademlia.bucket_caches()));
    // The root itself is never added.
    kademlia.add_node(root);
    assert_eq!(before, (kademlia.bucket_nodes(), kademlia.bucket_caches()));
}

/// A removed node is not in the table anymore.
#[test]
fn kademlia_remove_node_removes() {
    let mut rng = Rng(41);
    let root = id_hex("00");
    let mut kademlia = Kademlia::new(root, CONFIG);
    let nodes = rng.nodes_depth(&root, 1, 3);
    kademlia.add_nodes_active(nodes.clone());
    assert!(kademlia.active_nodes().contains(&nodes[1]));
    kademlia.remove_node(&nodes[1]);
    assert!(!kademlia.active_nodes().contains(&nodes[1]));
    assert!(!kademlia.cache_nodes().contains(&nodes[1]));
}

/// Nodes that time out are removed in a tick and are not in the table anymore.
#[test]
fn kademlia_tick_removes_deleted() {
    let mut rng = Rng(43);
    let root = id_hex("00");
    let mut kademlia = Kademlia::new(root, CONFIG);
    kademlia.add_nodes_active(rng.nodes_depth(&root, 2, 3));
    let mut deleted = vec![];
    for _ in 0..10 {
        deleted.extend(kademlia.tick().deleted);
    }
    assert!(!deleted.is_empty());
    for d in deleted {
        assert!(!kademlia.active_nodes().contains(&d));
        assert!(!kademlia.cache_nodes().contains(&d));
    }
    assert_eq!(kademlia.total(), 0);
}
