use flmodules::gossip_events::events::{Category, CategoryConfig, Event, Events, EventsStorage};
use flmodules::gossip_events::intern::{
    GossipIn, GossipOut, Intern, InternIn, InternOut, ModuleMessage, RandomOut,
};
use flmodules::gossip_events::messages::{GossipIn as MIn, GossipOut as MOut, Messages};
use flmodules::gossip_events::{Config, MessageIn, MessageNode, MessageOut, Module};
use flmodules::nodeid::U256;
use sha2::{Digest, Sha256};

fn node(b: u8) -> U256 {
    let mut bytes = [0u8; 32];
    bytes[0] = b;
    bytes[31] = b.wrapping_mul(7);
    U256::from_bytes(bytes)
}

fn event(cat: Category, src: U256, created: i64, msg: &str) -> Event {
    Event { category: cat, src, created, msg: msg.into() }
}

#[test]
fn test_double_unique() {
    let mut evs = Events::new(CategoryConfig::new(true, 10));

    let e1 = event(Category::NodeInfo, node(1), 1, "foo");
    let e2 = event(Category::NodeInfo, e1.src, 2, "bar");

    assert_eq!(0, evs.events().len());
    assert!(evs.insert(e1.clone()));
    assert_eq!(1, evs.events().len());
    assert!(!evs.insert(e1));
    assert_eq!(1, evs.events().len());
    assert!(evs.insert(e2.clone()));
    assert_eq!(1, evs.events().len());
    assert!(evs.get_event(&e2.get_id()).is_some());
}

#[test]
fn test_double_normal() {
    let mut evs = Events::new(CategoryConfig::new(false, 10));

    let e1 = event(Category::NodeInfo, node(2), 1, "foo");
    let e2 = event(Category::NodeInfo, e1.src, 2, "bar");

    assert_eq!(0, evs.events().len());
    assert!(evs.insert(e1.clone()));
    assert_eq!(1, evs.events().len());
    assert!(!evs.insert(e1.clone()));
    assert_eq!(1, evs.events().len());
    assert!(evs.insert(e2.clone()));
    assert_eq!(2, evs.events().len());
    assert!(evs.get_event(&e1.get_id()).is_some());
    assert!(evs.get_event(&e2.get_id()).is_some());
}

/// The ID of an event is the SHA-256 digest of its category's name, its source,
/// its creation time and its message.
#[test]
fn event_id_is_digest() {
    let e = event(Category::TextMessage, node(3), 1234, "hello");
    let mut data = Vec::new();
    data.extend_from_slice(b"TextMessage");
    data.extend_from_slice(&e.src.bytes);
    data.extend_from_slice(&1234i64.to_le_bytes());
    data.extend_from_slice(b"hello");
    let expected: [u8; 32] = Sha256::digest(&data).into();
    assert_eq!(expected, e.get_id().bytes);
    // Another message has another ID.
    let e2 = event(Category::TextMessage, node(3), 1234, "hellp");
    assert_ne!(e.get_id().bytes, e2.get_id().bytes);
}

/// At most `max_events` events are kept, the oldest ones are dropped.
#[test]
fn events_limited() {
    let mut evs = Events::new(CategoryConfig::new(false, 3));
    for i in 0..5 {
        assert!(evs.insert(event(Category::TextMessage, node(4), i, &format!("m{i}"))));
    }
    let kept = evs.events();
    assert_eq!(3, kept.len());
    let mut created: Vec<i64> = kept.iter().map(|e| e.created).collect();
    created.sort();
    assert_eq!(vec![2, 3, 4], created);
    // An event older than all kept ones is taken, and dropped at once.
    let old = event(Category::TextMessage, node(4), 0, "old");
    assert!(evs.insert(old.clone()));
    assert_eq!(3, evs.events().len());
    assert!(evs.get_event(&old.get_id()).is_none());
}

/// In a unique category, an older event of the same source does not replace a
/// newer one.
#[test]
fn events_unique_keeps_newest() {
    let mut evs = Events::new(CategoryConfig::new(true, 10));
    assert!(evs.insert(event(Category::NodeInfo, node(5), 10, "new")));
    assert!(!evs.insert(event(Category::NodeInfo, node(5), 5, "old")));
    assert_eq!("new", evs.events()[0].msg);
}

#[test]
fn storage_adds_events_by_category() {
    let mut es = EventsStorage::new();
    let e = event(Category::TextMessage, node(6), 1, "chat");
    assert!(es.add_event(e.clone()));
    assert!(!es.add_event(e.clone()));
    assert_eq!(1, es.events(Category::TextMessage).len());
    assert_eq!(0, es.events(Category::NodeInfo).len());
    assert!(es.event(&e.get_id()).is_some());
    assert_eq!(vec![e.get_id()], es.event_ids());
}

#[test]
fn module_spreads_new_events() {
    let our = node(7);
    let other = node(8);
    let mut m = Module::new(Config::new(our));
    let out = m.process_message(MessageIn::NodeList(vec![our, other])).unwrap();
    // The new node is asked for its events.
    assert_eq!(1, out.len());
    match &out[0] {
        MessageOut::Node(dst, MessageNode::RequestMsgIDs) => assert_eq!(*dst, other),
        _ => panic!("Expected a request for the message IDs"),
    }
    let e = event(Category::TextMessage, our, 1, "hi");
    let out = m.process_message(MessageIn::AddEvent(e.clone())).unwrap();
    assert!(out.iter().any(|o| matches!(o, MessageOut::Node(dst, MessageNode::Events(evs)) if *dst == other && evs.len() == 1)));
    assert!(out.iter().any(|o| matches!(o, MessageOut::Updated)));
    // A known event is not spread again.
    let out = m.process_message(MessageIn::AddEvent(e)).unwrap();
    assert!(out.is_empty());
    // Tick asks every node for its message IDs.
    let out = m.process_message(MessageIn::Tick).unwrap();
    assert_eq!(2, out.len());
    // Storage requests are left to the caller.
    assert!(m.process_message(MessageIn::GetStorage).is_none());
}

#[test]
fn module_answers_requests() {
    let our = node(9);
    let other = node(10);
    let mut m = Module::new(Config::new(our));
    m.process_message(MessageIn::NodeList(vec![other]));
    let e = event(Category::TextMessage, our, 1, "hi");
    m.process_message(MessageIn::AddEvent(e.clone()));
    let out = m.process_node_message(other, MessageNode::RequestEvents(vec![e.get_id()]));
    match &out[0] {
        MessageOut::Node(dst, MessageNode::Events(evs)) => {
            assert_eq!(*dst, other);
            assert_eq!(evs[0], e);
        }
        _ => panic!("Expected the events"),
    }
    // Unknown IDs are requested, known ones not.
    let unknown = node(11);
    let out = m.process_node_message(other, MessageNode::KnownMsgIDs(vec![e.get_id(), unknown]));
    match &out[0] {
        MessageOut::Node(_, MessageNode::RequestEvents(ids)) => assert_eq!(vec![unknown], *ids),
        _ => panic!("Expected a request for the unknown events"),
    }
}

fn request_ids_to(out: &[InternOut]) -> Vec<U256> {
    out.iter()
        .filter_map(|o| match o {
            InternOut::Network(dst, ModuleMessage::RequestEventIDs) => Some(*dst),
            _ => None,
        })
        .collect()
}

#[test]
fn intern_asks_new_nodes_for_ids() {
    let our = node(20);
    let (a, b) = (node(21), node(22));
    let mut i = Intern::new(our, EventsStorage::new());
    let out = i.step(InternIn::Network(RandomOut::NodeIDsConnected(vec![a, our])));
    assert_eq!(vec![a], request_ids_to(&out));
    assert_eq!(1, out.len());
    // Only the nodes not connected before are asked.
    let out = i.step(InternIn::Network(RandomOut::NodeIDsConnected(vec![a, b])));
    assert_eq!(vec![b], request_ids_to(&out));
    assert_eq!(1, out.len());
}

#[test]
fn intern_spreads_new_events() {
    let our = node(23);
    let (a, b) = (node(24), node(25));
    let mut i = Intern::new(our, EventsStorage::new());
    i.step(InternIn::Network(RandomOut::NodeIDsConnected(vec![a, b])));
    // An event created by `a` is announced to `b` only, but to both nodes.
    let e = event(Category::TextMessage, a, 1, "hi");
    let out = i.step(InternIn::Gossip(GossipIn::AddEvent(e.clone())));
    assert_eq!(3, out.len());
    match &out[0] {
        InternOut::Network(dst, ModuleMessage::KnownEventIDs(ids)) => {
            assert_eq!(*dst, a);
            assert!(ids.is_empty());
        }
        _ => panic!("Expected the IDs for a"),
    }
    match &out[1] {
        InternOut::Network(dst, ModuleMessage::KnownEventIDs(ids)) => {
            assert_eq!(*dst, b);
            assert_eq!(vec![e.get_id()], *ids);
        }
        _ => panic!("Expected the IDs for b"),
    }
    match &out[2] {
        InternOut::Gossip(GossipOut::NewEvent(n)) => assert_eq!(*n, e),
        _ => panic!("Expected the new event"),
    }
    assert!(i.take_modified());
    assert!(!i.take_modified());
    // A known event is not spread again.
    let out = i.step(InternIn::Gossip(GossipIn::AddEvent(e)));
    assert!(out.is_empty());
    assert!(!i.take_modified());
}

#[test]
fn intern_requests_unknown_events_once() {
    let our = node(26);
    let a = node(27);
    let mut i = Intern::new(our, EventsStorage::new());
    let known = event(Category::TextMessage, our, 1, "mine");
    i.step(InternIn::Gossip(GossipIn::AddEvent(known.clone())));
    let theirs = event(Category::TextMessage, a, 2, "theirs");
    let ids = vec![known.get_id(), theirs.get_id()];
    let msg = |ids: &Vec<U256>| {
        InternIn::Network(RandomOut::NetworkWrapperFromNetwork(
            a,
            Some(ModuleMessage::KnownEventIDs(ids.clone())),
        ))
    };
    let out = i.step(msg(&ids));
    assert_eq!(1, out.len());
    match &out[0] {
        InternOut::Network(dst, ModuleMessage::RequestEvents(req)) => {
            assert_eq!(*dst, a);
            assert_eq!(vec![theirs.get_id()], *req);
        }
        _ => panic!("Expected a request for the unknown event"),
    }
    // The same announcement asks for nothing more.
    assert!(i.step(msg(&ids)).is_empty());
    // Receiving the event stores it and hands it to the users.
    let out = i.step(InternIn::Network(RandomOut::NetworkWrapperFromNetwork(
        a,
        Some(ModuleMessage::Events(vec![theirs.clone()])),
    )));
    assert_eq!(1, out.len());
    assert!(matches!(&out[0], InternOut::Gossip(GossipOut::NewEvent(n)) if *n == theirs));
    assert!(i.storage().event(&theirs.get_id()).is_some());
}

#[test]
fn intern_answers_requests() {
    let our = node(28);
    let a = node(29);
    let mut i = Intern::new(our, EventsStorage::new());
    let e = event(Category::TextMessage, our, 1, "hi");
    i.step(InternIn::Gossip(GossipIn::AddEvent(e.clone())));
    let from_a = |m: ModuleMessage| InternIn::Network(RandomOut::NetworkWrapperFromNetwork(a, Some(m)));
    let out = i.step(from_a(ModuleMessage::RequestEventIDs));
    match &out[..] {
        [InternOut::Network(dst, ModuleMessage::KnownEventIDs(ids))] => {
            assert_eq!(*dst, a);
            assert_eq!(vec![e.get_id()], *ids);
        }
        _ => panic!("Expected the known IDs"),
    }
    let out = i.step(from_a(ModuleMessage::RequestEvents(vec![e.get_id(), node(30)])));
    match &out[..] {
        [InternOut::Network(dst, ModuleMessage::Events(evs))] => {
            assert_eq!(*dst, a);
            assert_eq!(vec![e.clone()], *evs);
        }
        _ => panic!("Expected the event"),
    }
    // Nothing is sent when none of the requested events is known.
    assert!(i.step(from_a(ModuleMessage::RequestEvents(vec![node(31)]))).is_empty());
    // A message that could not be decoded is dropped.
    assert!(i.step(InternIn::Network(RandomOut::NetworkWrapperFromNetwork(a, None))).is_empty());
}

#[test]
fn intern_ticks_every_third_time() {
    let our = node(32);
    let (a, b) = (node(33), node(34));
    let mut i = Intern::new(our, EventsStorage::new());
    i.step(InternIn::Network(RandomOut::NodeIDsConnected(vec![a, b])));
    assert!(i.step(InternIn::Tick).is_empty());
    assert!(i.step(InternIn::Tick).is_empty());
    assert_eq!(vec![a, b], request_ids_to(&i.step(InternIn::Tick)));
    // From then on, every tick asks all nodes.
    let out = i.messages(vec![InternIn::Tick, InternIn::Tick]);
    assert_eq!(vec![a, b, a, b], request_ids_to(&out));
}

#[test]
fn messages_exchange_events() {
    let our = node(40);
    let (a, b) = (node(41), node(42));
    let mut m = Messages::new(our, EventsStorage::new());
    let out = m.process_message(MIn::UpdateNodeList(vec![a, our]));
    match &out[..] {
        [MOut::ToNetwork(dst, ModuleMessage::RequestEventIDs)] => assert_eq!(*dst, a),
        _ => panic!("Expected a request to the new node"),
    }
    m.node_list(vec![a, b]);
    // A new event is announced to the other nodes, and to no user.
    let e = event(Category::TextMessage, our, 1, "hi");
    let out = m.add_event(e.clone());
    assert_eq!(2, out.len());
    for (o, dst) in out.iter().zip([a, b]) {
        match o {
            MOut::ToNetwork(d, ModuleMessage::KnownEventIDs(ids)) => {
                assert_eq!(*d, dst);
                assert_eq!(vec![e.get_id()], *ids);
            }
            _ => panic!("Expected the known IDs"),
        }
    }
    assert!(m.take_modified());
    assert_eq!(1, m.storage().events(Category::TextMessage).len());
    // Unknown IDs are requested once.
    let unknown = node(43);
    assert_eq!(vec![unknown], m.filter_known_events(vec![e.get_id(), unknown]));
    assert_eq!(1, m.node_known_event_ids(a, vec![e.get_id(), unknown]).len());
    assert!(m.node_known_event_ids(a, vec![unknown]).is_empty());
    assert!(m.filter_known_events(vec![unknown]).is_empty());
    // A tick forgets the requests and asks every node at once.
    let out = m.process_messages(vec![MIn::Tick]).unwrap();
    assert_eq!(2, out.len());
    assert_eq!(vec![unknown], m.filter_known_events(vec![unknown]));
    // Events from a node are stored and announced to the others.
    let theirs = event(Category::TextMessage, a, 2, "theirs");
    let out = m.node_events(a, vec![theirs.clone()]);
    match &out[..] {
        [MOut::ToNetwork(d, ModuleMessage::KnownEventIDs(ids))] => {
            assert_eq!(*d, b);
            assert_eq!(vec![theirs.get_id()], *ids);
        }
        _ => panic!("Expected an announcement to b"),
    }
    match &m.node_request_events(b, vec![theirs.get_id()])[..] {
        [MOut::ToNetwork(d, ModuleMessage::Events(evs))] => {
            assert_eq!(*d, b);
            assert_eq!(vec![theirs.clone()], *evs);
        }
        _ => panic!("Expected the event"),
    }
    match &m.node_request_event_list(b)[..] {
        [MOut::ToNetwork(_, ModuleMessage::KnownEventIDs(ids))] => assert_eq!(2, ids.len()),
        _ => panic!("Expected the IDs"),
    }
    assert_eq!(Vec::<Event>::new(), m.add_events(vec![theirs]));
}
