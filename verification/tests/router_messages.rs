use flmodules::dht_router::kademlia::Config;
use flmodules::dht_router::messages::{
    DHTRouterIn, DHTRouterOut, Draw, InternIn, InternOut, Messages, ModuleMessage, NetworkWrapper,
    RouterOut,
};
use flmodules::nodeid::U256;

fn id_hex(s: &str) -> U256 {
    let mut b = [0u8; 32];
    for (i, ch) in s.as_bytes().chunks(2).enumerate() {
        b[i] = u8::from_str_radix(std::str::from_utf8(ch).unwrap(), 16).unwrap();
    }
    U256::from_bytes(b)
}

fn wrapper(msg: &str) -> NetworkWrapper {
    NetworkWrapper { module: "Test".into(), msg: msg.into() }
}

const NO_DRAW: Draw = Draw { whitelist: false, index: 0, choice: 0 };

#[test]
fn test_depth() {
    let root = id_hex("00");
    let node1 = id_hex("80");
    let node2 = id_hex("81");
    let node3 = id_hex("40");
    let node4 = id_hex("41");

    let mut msg = Messages::new(root, Config { k: 1, ping_interval: 2, ping_timeout: 4 });

    let out = msg.messages(vec![
        InternIn::Network(RouterOut::NodeInfoAvailable(vec![node1, node2, node3, node4])),
        InternIn::Tick,
    ]);
    assert_eq!(5, out.len());
}

/// A ping is answered with a pong, and the node becomes active.
#[test]
fn router_ping_pong() {
    let root = id_hex("00");
    let other = id_hex("80");
    let mut msg = Messages::new(root, Config { k: 2, ping_interval: 2, ping_timeout: 4 });
    let out = msg.step(InternIn::Network(RouterOut::NetworkWrapperFromNetwork(
        other,
        Some(ModuleMessage::Ping),
        None,
        NO_DRAW,
    )));
    match &out[0] {
        InternOut::Network(dst, ModuleMessage::Pong) => assert_eq!(*dst, other),
        _ => panic!("Expected a pong"),
    }
    // An unknown node is not made active by a message.
    assert_eq!(1, out.len());
    assert!(msg.table().active_nodes().is_empty());
}

/// A message for the closest node is delivered here when no closer node is known.
#[test]
fn router_closest_delivered_here() {
    let root = id_hex("00");
    let orig = id_hex("80");
    let mut msg = Messages::new(root, Config { k: 2, ping_interval: 2, ping_timeout: 4 });
    let out = msg.step(InternIn::Network(RouterOut::NetworkWrapperFromNetwork(
        orig,
        Some(ModuleMessage::Closest(orig, root, wrapper("x"))),
        None,
        NO_DRAW,
    )));
    match &out[0] {
        InternOut::DHTRouter(DHTRouterOut::MessageDest(o, last, w)) => {
            assert_eq!(*o, orig);
            assert_eq!(*last, orig);
            assert_eq!(w.msg, "x");
        }
        _ => panic!("Expected the message to be delivered here"),
    }
    let key = id_hex("40");
    let out = msg.step(InternIn::Network(RouterOut::NetworkWrapperFromNetwork(
        orig,
        Some(ModuleMessage::Closest(orig, key, wrapper("y"))),
        None,
        NO_DRAW,
    )));
    match &out[0] {
        InternOut::DHTRouter(DHTRouterOut::MessageClosest(_, _, k, _)) => assert_eq!(*k, key),
        _ => panic!("Expected the message to stop here as the closest node"),
    }
}

/// A message to a connected node goes to it directly.
#[test]
fn router_connected_first() {
    let root = id_hex("00");
    let peer = id_hex("0f");
    let mut msg = Messages::new(root, Config { k: 2, ping_interval: 2, ping_timeout: 4 });
    let out = msg.step(InternIn::Network(RouterOut::NodeIDsConnected(vec![peer])));
    assert_eq!(1, out.len());
    let out = msg.step(InternIn::DHTRouter(DHTRouterIn::MessageDirect(peer, wrapper("d"))));
    match &out[0] {
        InternOut::Network(dst, ModuleMessage::Direct(o, d, _)) => {
            assert_eq!(*dst, peer);
            assert_eq!(*o, root);
            assert_eq!(*d, peer);
        }
        _ => panic!("Expected a direct message"),
    }
    let out = msg.step(InternIn::DHTRouter(DHTRouterIn::MessageNeighbour(peer, wrapper("n"))));
    assert_eq!(1, out.len());
    let out = msg.step(InternIn::DHTRouter(DHTRouterIn::MessageNeighbour(id_hex("01"), wrapper("n"))));
    assert!(out.is_empty());
}

/// The system realm of the configuration is announced.
#[test]
fn router_system_realm() {
    let root = id_hex("00");
    let mut msg = Messages::new(root, Config { k: 2, ping_interval: 2, ping_timeout: 4 });
    let rid = id_hex("abcd");
    let out = msg.step(InternIn::Network(RouterOut::SystemConfig(Some(rid))));
    match &out[0] {
        InternOut::DHTRouter(DHTRouterOut::SystemRealm(r)) => assert_eq!(*r, rid),
        _ => panic!("Expected the system realm"),
    }
    assert!(msg.step(InternIn::Network(RouterOut::SystemConfig(None))).is_empty());
    assert!(msg.step(InternIn::Network(RouterOut::Other)).is_empty());
}

/// With local blacklists, a node that was sent more than ten requests still in
/// flight is blacklisted and removed from the routing table.
#[test]
fn router_blacklists() {
    let root = id_hex("00");
    let hop = id_hex("80");
    let orig = id_hex("40");
    let mut msg = Messages::new(root, Config { k: 2, ping_interval: 2, ping_timeout: 4 });
    msg.set_local_blacklists(true);
    msg.step(InternIn::Network(RouterOut::NodeIDsConnected(vec![hop])));
    for i in 0..12u8 {
        let key = hop;
        let mut req = [0u8; 32];
        req[0] = i;
        let out = msg.step(InternIn::Network(RouterOut::NetworkWrapperFromNetwork(
            orig,
            Some(ModuleMessage::Closest(orig, key, wrapper("r"))),
            Some(U256::from_bytes(req)),
            NO_DRAW,
        )));
        assert!(!out.is_empty());
    }
    // The hop answered none of the eleven first requests: it is gone from the table.
    assert!(!msg.table().active_nodes().contains(&hop));
    assert!(!msg.table().cache_nodes().contains(&hop));
}

/// The statistics list all nodes, the nodes per bucket, and the active ones.
#[test]
fn router_stats() {
    let root = id_hex("00");
    let mut msg = Messages::new(root, Config { k: 2, ping_interval: 2, ping_timeout: 4 });
    msg.step(InternIn::Network(RouterOut::NodeInfoAvailable(vec![id_hex("80"), id_hex("40")])));
    let stats = msg.stats();
    let table = msg.table();
    let mut all = table.active_nodes();
    all.extend(table.cache_nodes());
    assert_eq!(all, stats.all_nodes);
    assert_eq!(table.bucket_nodes(), stats.bucket_nodes);
    assert_eq!(table.active_nodes().len(), stats.active);
    assert_eq!(2, stats.all_nodes.len());
}
