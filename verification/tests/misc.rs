use flmodules::broker::Destination;
use flmodules::crypto::test::access::RequiredRules;
use flmodules::dht_routing::routing_core::{DHTRoutingConfig, DHTRoutingCore, DHTRoutingStorage};
use flmodules::ledger::messages::node_list;
use flmodules::nodeid::{first_differing_bit, U256};
use flmodules::Modules;

fn node(b: u8) -> U256 {
    let mut bytes = [0u8; 32];
    bytes[0] = b;
    U256::from_bytes(bytes)
}

#[test]
fn routing_core_increase() {
    let mut tc = DHTRoutingCore::new(DHTRoutingStorage::default(), DHTRoutingConfig::default());
    tc.increase(1);
    assert_eq!(1, tc.storage.counter);

    tc.increase(2);
    assert_eq!(3, tc.storage.counter);

    tc.config.multiplier = 2;
    tc.increase(1);
    assert_eq!(5, tc.storage.counter);
}

#[test]
fn modules_stable_without_ping() {
    let s = Modules::stable();
    assert_eq!(0xf7, s.bits);
    assert!(!s.contains(Modules { bits: flmodules::MODULE_PING }));
    assert!(s.contains(Modules { bits: flmodules::MODULE_GOSSIP }));
    assert_eq!(0xff, Modules::all().bits);
}

#[test]
fn required_rules() {
    assert!(RequiredRules::from_sig_up(true, true) == RequiredRules::SignerUpdater);
    assert!(RequiredRules::from_sig_up(true, false) == RequiredRules::Signer);
    assert!(RequiredRules::from_sig_up(false, true) == RequiredRules::Updater);
    assert!(RequiredRules::from_sig_up(false, false) == RequiredRules::NoRule);
    let sign = "sign".to_string();
    let update = "update".to_string();
    let other = "other".to_string();
    assert!(RequiredRules::from_keys(vec![&update, &sign]) == RequiredRules::SignerUpdater);
    assert!(RequiredRules::from_keys(vec![&other]) == RequiredRules::NoRule);
}

#[test]
fn destination_delivers() {
    assert!(Destination::All.delivers(1, 1, true));
    assert!(!Destination::Others.delivers(1, 1, false));
    assert!(Destination::Others.delivers(1, 2, false));
    assert!(Destination::This.delivers(2, 2, false));
    assert!(!Destination::NoTap.delivers(1, 2, true));
    let id = node(5);
    assert_eq!(Some(vec![id]), Destination::All.forward_trail(&id));
    assert_eq!(None, Destination::Forward(vec![node(1), id]).forward_trail(&id));
    assert_eq!(Some(vec![node(1), id]), Destination::Forward(vec![node(1)]).forward_trail(&id));
}

#[test]
fn ledger_node_list_drops_own_id() {
    let ours = node(1);
    assert_eq!(vec![node(2), node(3)], node_list(&vec![node(2), ours, node(3)], &ours));
}

#[test]
fn first_bit_difference() {
    assert_eq!(256, first_differing_bit(&node(0), &node(0)));
    assert_eq!(0, first_differing_bit(&node(0), &node(0x80)));
    assert_eq!(7, first_differing_bit(&node(0), &node(0x01)));
}
