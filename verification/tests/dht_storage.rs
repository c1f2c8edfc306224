use flmodules::dht_router::kademlia::KNode;
use flmodules::dht_storage::messages::{
    DHTStorageIn, DHTStorageOut, DsMetrics, GlobalID, InternIn, InternOut, MessageClosest,
    MessageDest, MessageNeighbour, Messages, RouterOut,
};
use flmodules::dht_storage::realm_core::{
    Cuckoo, DHTConfig, FloConfig, FloEntry, FloMeta, FloRecord, RealmConfig, RealmStorage,
};
use flmodules::nodeid::U256;

fn id_hex(s: &str) -> U256 {
    let mut b = [0u8; 32];
    for (i, ch) in s.as_bytes().chunks(2).enumerate() {
        b[i] = u8::from_str_radix(std::str::from_utf8(ch).unwrap(), 16).unwrap();
    }
    U256::from_bytes(b)
}

struct Rng(u64);

impl Rng {
    fn next(&mut self) -> u64 {
        let mut x = self.0;
        x ^= x << 13;
        x ^= x >> 7;
        x ^= x << 17;
        self.0 = x;
        x
    }

    fn node(&mut self) -> U256 {
        let mut b = [0u8; 32];
        for i in 0..4 {
            b[i * 8..i * 8 + 8].copy_from_slice(&self.next().to_be_bytes());
        }
        U256::from_bytes(b)
    }

    fn node_depth(&mut self, root: &U256, depth: usize) -> U256 {
        loop {
            let node = self.node();
            if KNode::get_depth(root, node) == depth {
                return node;
            }
        }
    }
}

fn flo(id: U256, realm_id: U256, version: u32, size: usize, cuckoo: Cuckoo) -> FloEntry {
    FloEntry {
        record: FloRecord { id, realm_id, version, config: FloConfig { cuckoo }, realm: None },
        bytes: vec![7u8; size],
    }
}

fn realm_flo(id: U256, max_space: u64) -> FloEntry {
    FloEntry {
        record: FloRecord {
            id,
            realm_id: id,
            version: 0,
            config: FloConfig::default(),
            realm: Some(RealmConfig { max_space, max_flo_size: 1000 }),
        },
        bytes: vec![1u8; 100],
    }
}

fn new_storage(root: U256, realm: &FloEntry, max_space: u64) -> RealmStorage {
    RealmStorage::new(
        DHTConfig::default(),
        root,
        RealmConfig { max_space, max_flo_size: 1000 },
        realm.record.realm_id,
        realm.clone(),
    )
    .unwrap()
}

fn count_depth(storage: &RealmStorage, root: &U256, depth: usize) -> usize {
    storage.get_flo_metas().iter().filter(|m| KNode::get_depth(root, m.id) == depth).count()
}

#[test]
fn test_cuckoo() {
    let mut rng = Rng(3);
    let root = id_hex("00");
    let fr = realm_flo(rng.node(), 1000000);
    let rid = fr.record.realm_id;
    let mut storage = new_storage(root, &fr, 1000000);

    let fp = flo(rng.node(), rid, 0, 10, Cuckoo::NoCuckoo);
    let fp_cuckoo = flo(rng.node(), rid, 0, 10, Cuckoo::Parent(fp.record.id));
    storage.put(fp.clone());
    storage.put(fp_cuckoo);
    assert!(storage.get_cuckoo_ids(&fp.record.id).is_some());
}

#[test]
fn test_furthest() {
    let mut rng = Rng(5);
    let root = id_hex("00");
    let realm = realm_flo(rng.node_depth(&root, 0), 1000000);
    let rid = realm.record.realm_id;
    let mut storage = new_storage(root, &realm, 1000000);
    for i in 1..=3 {
        storage.put(flo(rng.node_depth(&root, i), rid, 0, 10, Cuckoo::NoCuckoo));
    }
    assert_eq!(4, storage.flo_count());
    let size = storage.size();

    for i in 1..=3 {
        storage.put(flo(rng.node_depth(&root, i), rid, 0, 10, Cuckoo::NoCuckoo));
    }
    assert_eq!(1, count_depth(&storage, &root, 0));
    assert_eq!(2, count_depth(&storage, &root, 1));
    assert_eq!(2, count_depth(&storage, &root, 2));
    assert_eq!(2, count_depth(&storage, &root, 3));
    assert_eq!(7, storage.flo_count());
    assert!(storage.size() > size);
    let size = storage.size();

    assert!(storage.remove_furthest(&root));
    assert_eq!(0, count_depth(&storage, &root, 0));
    assert_eq!(2, count_depth(&storage, &root, 1));
    assert_eq!(2, count_depth(&storage, &root, 2));
    assert_eq!(2, count_depth(&storage, &root, 3));
    assert_eq!(6, storage.flo_count());
    assert!(storage.size() < size);
    let size = storage.size();

    assert!(storage.remove_furthest(&root));
    assert_eq!(0, count_depth(&storage, &root, 0));
    assert_eq!(1, count_depth(&storage, &root, 1));
    assert_eq!(2, count_depth(&storage, &root, 2));
    assert_eq!(2, count_depth(&storage, &root, 3));
    assert_eq!(5, storage.flo_count());
    assert!(storage.size() < size);

    assert!(storage.remove_furthest(&root));
    assert_eq!(0, count_depth(&storage, &root, 0));
    assert_eq!(0, count_depth(&storage, &root, 1));
    assert_eq!(2, count_depth(&storage, &root, 2));
    assert_eq!(2, count_depth(&storage, &root, 3));
    assert_eq!(4, storage.flo_count());
    assert!(storage.size() < size);
}

#[test]
fn core_test_update() {
    let mut rng = Rng(9);
    let root = id_hex("00");
    let realm = realm_flo(rng.node(), 1000000);
    let rid = realm.record.realm_id;
    let mut storage = new_storage(root, &realm, 1000000);

    let fid = rng.node();
    storage.put(flo(fid, rid, 0, 20, Cuckoo::NoCuckoo));
    assert_eq!(
        Some(vec![fid]),
        storage.sync_available(&vec![FloMeta { id: fid, version: 1, cuckoos: 0 }])
    );
    assert!(storage.upsert_flo(flo(fid, rid, 1, 25, Cuckoo::NoCuckoo)));
    assert_eq!(None, storage.sync_available(&vec![FloMeta { id: fid, version: 1, cuckoos: 0 }]));
}

/// A Flo larger than a third of the realm's space is refused.
#[test]
fn upsert_refuses_large_flo() {
    let mut rng = Rng(21);
    let root = id_hex("00");
    let realm = realm_flo(rng.node(), 300);
    let mut storage = new_storage(root, &realm, 300);
    let big = flo(rng.node(), realm.record.realm_id, 0, 101, Cuckoo::NoCuckoo);
    assert!(!storage.upsert_flo(big.clone()));
    assert!(storage.get_flo_cuckoo(&big.record.id).is_none());
    let small = flo(rng.node(), realm.record.realm_id, 0, 100, Cuckoo::NoCuckoo);
    assert!(storage.upsert_flo(small.clone()));
    // An older or equal version is not stored again.
    assert!(!storage.upsert_flo(small));
}

/// When the realm is full, the furthest Flos are evicted, never the new one, until
/// the stored Flos fit.
#[test]
fn upsert_evicts_furthest() {
    let mut rng = Rng(25);
    let root = id_hex("00");
    let realm = realm_flo(rng.node_depth(&root, 0), 300);
    let rid = realm.record.realm_id;
    let mut storage = new_storage(root, &realm, 300);
    let deep = flo(rng.node_depth(&root, 5), rid, 0, 100, Cuckoo::NoCuckoo);
    assert!(storage.upsert_flo(deep.clone()));
    assert_eq!(200, storage.size());
    let shallow = flo(rng.node_depth(&root, 0), rid, 0, 100, Cuckoo::NoCuckoo);
    assert!(storage.upsert_flo(shallow.clone()));
    assert_eq!(300, storage.size());
    let new = flo(rng.node_depth(&root, 0), rid, 0, 100, Cuckoo::NoCuckoo);
    assert!(storage.upsert_flo(new.clone()));
    assert!(storage.size() <= 300);
    // The realm Flo came first at the smallest depth, and was evicted.
    assert!(storage.get_flo_cuckoo(&realm.record.id).is_none());
    assert!(storage.get_flo_cuckoo(&new.record.id).is_some());
    assert!(storage.get_flo_cuckoo(&deep.record.id).is_some());
}

#[test]
fn store_cuckoo_id_once() {
    let mut rng = Rng(27);
    let root = id_hex("00");
    let realm = realm_flo(rng.node(), 10000);
    let mut storage = new_storage(root, &realm, 10000);
    let c = rng.node();
    storage.store_cuckoo_id(&realm.record.id, c);
    storage.store_cuckoo_id(&realm.record.id, c);
    assert_eq!(Some(vec![c]), storage.get_cuckoo_ids(&realm.record.id));
    // An unknown parent is ignored.
    storage.store_cuckoo_id(&rng.node(), c);
    assert_eq!(1, storage.flo_count());
}

#[test]
fn realm_config_accepts() {
    let mut config = DHTConfig::default();
    let a = id_hex("01");
    let b = id_hex("02");
    assert!(config.accepts_realm(&a));
    config.realms.push(a);
    assert!(config.accepts_realm(&a));
    assert!(!config.accepts_realm(&b));
    assert!(FloConfig { cuckoo: Cuckoo::Duration(10) }.allows_cuckoo(9));
    assert!(!FloConfig { cuckoo: Cuckoo::Duration(10) }.allows_cuckoo(10));
    assert!(FloConfig { cuckoo: Cuckoo::Parent(a) }.is_cuckoo_of(&a));
    assert!(!FloConfig { cuckoo: Cuckoo::Parent(a) }.is_cuckoo_of(&b));
    assert_eq!(None, FloConfig::default().cuckoo_parent());
}

#[test]
fn test_choice() {
    let mut rng = Rng(33);
    let our_id = rng.node();
    let mut dht = Messages::new(DHTConfig::default(), our_id);
    let realm = realm_flo(rng.node(), 100000);
    let gid = GlobalID::new(realm.record.realm_id, realm.record.id);
    dht.msg_dht_storage(DHTStorageIn::StoreFlo(realm.clone()));
    let out = dht.msg_dht_storage(DHTStorageIn::ReadFlo(gid));
    assert_eq!(1, out.len());
    match &out[0] {
        InternOut::Storage(DHTStorageOut::FloValue((f, cuckoos))) => {
            assert_eq!(f.record, realm.record);
            assert_eq!(f.bytes, realm.bytes);
            assert!(cuckoos.is_empty());
        }
        _ => panic!("Answer should be FloValue"),
    }
}

#[test]
fn store_cuckoos() {
    let mut rng = Rng(35);
    let mut msg = Messages::new(DHTConfig::default(), rng.node());
    let fr = realm_flo(rng.node(), 10000);
    let rid = fr.record.realm_id;
    msg.msg_dht_storage(DHTStorageIn::StoreFlo(fr.clone()));

    let fb_root = flo(rng.node(), rid, 0, 50, Cuckoo::Duration(100000));
    msg.msg_dht_storage(DHTStorageIn::StoreFlo(fb_root.clone()));
    let fb_cu = flo(rng.node(), rid, 0, 60, Cuckoo::Parent(fb_root.record.id));
    let ans = msg.msg_dht_storage(DHTStorageIn::StoreFlo(fb_cu.clone()));
    // The Flo is sent on, and its parent told about it.
    assert_eq!(2, ans.len());
    match &ans[1] {
        InternOut::MessageClosest(key, MessageClosest::StoreCuckooID(gid)) => {
            assert_eq!(*key, fb_root.record.id);
            assert_eq!(gid.flo_id(), fb_cu.record.id);
        }
        _ => panic!("Answer should be StoreCuckooID"),
    }

    let ans = msg.msg_dht_storage(DHTStorageIn::ReadCuckooIDs(GlobalID::new(rid, fb_root.record.id)));
    if let Some(InternOut::Storage(DHTStorageOut::CuckooIDs(_, cs))) = ans.get(0) {
        assert_eq!(Some(&fb_cu.record.id), cs.get(0));
    } else {
        panic!("Answer should be CuckooIDs");
    }
}

/// A Flo of a realm that is not stored, and that does not define a realm, is not
/// stored; a read then goes to the closest node.
#[test]
fn messages_unknown_realm() {
    let mut rng = Rng(39);
    let mut msg = Messages::new(DHTConfig::default(), rng.node());
    let f = flo(rng.node(), rng.node(), 0, 10, Cuckoo::NoCuckoo);
    let out = msg.msg_dht_storage(DHTStorageIn::StoreFlo(f.clone()));
    assert!(out.is_empty());
    assert!(!msg.take_modified());
    let out = msg.msg_dht_storage(DHTStorageIn::ReadFlo(GlobalID::new(f.record.realm_id, f.record.id)));
    match &out[0] {
        InternOut::MessageClosest(key, MessageClosest::ReadFlo(rid)) => {
            assert_eq!(*key, f.record.id);
            assert_eq!(*rid, f.record.realm_id);
        }
        _ => panic!("Expected a read from the closest node"),
    }
    assert_eq!(1, msg.stats().store_flo_total);
}

/// A realm that the configuration does not accept is not created.
#[test]
fn messages_realm_not_accepted() {
    let mut rng = Rng(45);
    let mut config = DHTConfig::default();
    config.realms.push(rng.node());
    let mut msg = Messages::new(config, rng.node());
    let fr = realm_flo(rng.node(), 10000);
    msg.msg_dht_storage(DHTStorageIn::StoreFlo(fr));
    assert!(msg.realms().is_empty());
}

/// Neighbours synchronize: realm IDs are announced, and the Flos of unknown realms
/// requested.
#[test]
fn messages_neighbour_sync() {
    let mut rng = Rng(47);
    let a_id = rng.node();
    let b_id = rng.node();
    let mut a = Messages::new(DHTConfig::default(), a_id);
    let mut b = Messages::new(DHTConfig::default(), b_id);
    let fr = realm_flo(rng.node(), 10000);
    let rid = fr.record.realm_id;
    a.msg_dht_storage(DHTStorageIn::StoreFlo(fr.clone()));

    let out = a.msg_neighbour(b_id, MessageNeighbour::RequestRealmIDs);
    let ids = match &out[0] {
        InternOut::MessageNeighbour(dst, MessageNeighbour::AvailableRealmIDs(ids)) => {
            assert_eq!(*dst, b_id);
            ids.clone()
        }
        _ => panic!("Expected the realm IDs"),
    };
    assert_eq!(vec![rid], ids);

    let out = b.msg_neighbour(a_id, MessageNeighbour::AvailableRealmIDs(ids));
    assert_eq!(2, out.len());
    let req = match &out[0] {
        InternOut::MessageNeighbour(_, MessageNeighbour::RequestFlos(r, ids)) => {
            assert_eq!(*r, rid);
            ids.clone()
        }
        _ => panic!("Expected a request for the realm's Flo"),
    };
    let out = a.msg_neighbour(b_id, MessageNeighbour::RequestFlos(rid, req));
    let flos = match out.into_iter().next() {
        Some(InternOut::MessageNeighbour(_, MessageNeighbour::Flos(flos))) => flos,
        _ => panic!("Expected the Flos"),
    };
    assert_eq!(1, flos.len());
    b.msg_neighbour(a_id, MessageNeighbour::Flos(flos));
    assert_eq!(1, b.realms().len());
    assert!(b.take_modified());

    // Nothing is missing anymore.
    let metas = b.realms()[0].get_flo_metas();
    let out = b.msg_neighbour(a_id, MessageNeighbour::AvailableFlos(rid, metas));
    assert!(out.is_empty());
}

/// A node that does not forward answers no request for metas, and counts it.
#[test]
fn messages_no_forward() {
    let mut rng = Rng(49);
    let mut a = Messages::new(DHTConfig::default(), rng.node());
    let fr = realm_flo(rng.node(), 10000);
    a.msg_dht_storage(DHTStorageIn::StoreFlo(fr.clone()));
    a.set_no_forward(true);
    let out = a.msg_neighbour(rng.node(), MessageNeighbour::RequestFloMetas(fr.record.realm_id));
    assert!(out.is_empty());
    assert_eq!(1, a.stats().available_flos_sent_blocked_total);
    assert_eq!(DsMetrics { available_flos_sent_blocked_total: 1, store_flo_total: 1, ..DsMetrics::new() }, a.stats());
}

/// The system realm is added to the accepted realms once, and all messages are
/// handled in turn.
#[test]
fn messages_in_turn() {
    let mut rng = Rng(51);
    let mut a = Messages::new(DHTConfig::default(), rng.node());
    let fr = realm_flo(rng.node(), 10000);
    let out = a.messages(vec![
        InternIn::Routing(RouterOut::SystemRealm(fr.record.realm_id)),
        InternIn::Storage(DHTStorageIn::StoreFlo(fr.clone())),
        InternIn::Storage(DHTStorageIn::GetRealms),
        InternIn::PropagateFlos,
    ]);
    // The stored Flo is sent on, the realms listed, and announced.
    assert_eq!(3, out.len());
    match &out[1] {
        InternOut::Storage(DHTStorageOut::RealmIDs(ids)) => assert_eq!(vec![fr.record.realm_id], *ids),
        _ => panic!("Expected the realm IDs"),
    }
    match &out[2] {
        InternOut::MessageBroadcast(MessageNeighbour::AvailableRealmIDs(ids)) => {
            assert_eq!(vec![fr.record.realm_id], *ids)
        }
        _ => panic!("Expected a broadcast"),
    }
}

/// The closest node answers a read of a Flo it does not store with `UnknownFlo`,
/// which the requester reports as missing; a node on the route stays silent.
#[test]
fn messages_closest_unknown_flo() {
    let mut rng = Rng(51);
    let origin = rng.node();
    let mut msg = Messages::new(DHTConfig::default(), rng.node());
    let rid = rng.node();
    let key = rng.node();
    let out = msg.msg_dht_router(RouterOut::MessageRouting(origin, key, MessageClosest::ReadFlo(rid)));
    assert!(out.is_empty());
    let out = msg.msg_dht_router(RouterOut::MessageClosest(origin, key, MessageClosest::ReadFlo(rid)));
    assert_eq!(1, out.len());
    match &out[0] {
        InternOut::MessageDirect(dst, MessageDest::UnknownFlo(gid)) => {
            assert_eq!(*dst, origin);
            assert_eq!(gid.realm_id(), rid);
            assert_eq!(gid.flo_id(), key);
        }
        _ => panic!("Expected an UnknownFlo answer"),
    }
    let mut requester = Messages::new(DHTConfig::default(), origin);
    let gid = GlobalID::new(rid, key);
    let ans = requester.msg_dht_router(RouterOut::MessageDest(MessageDest::UnknownFlo(gid)));
    match &ans[0] {
        InternOut::Storage(DHTStorageOut::ValueMissing(g)) => {
            assert_eq!(g.realm_id(), rid);
            assert_eq!(g.flo_id(), key);
        }
        _ => panic!("Expected ValueMissing"),
    }
}
