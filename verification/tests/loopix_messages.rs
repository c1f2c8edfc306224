use flmodules::loopix::messages::{
    client_final_hop, create_route, mixnode_final_hop, payload_sent, payload_tick, LoopixMsg, MessageType,
    NetworkWrapper, PayloadAction,
};
use flmodules::loopix::provider::ProviderStorage;
use flmodules::nodeid::U256;

fn n(b: u8) -> U256 {
    U256::from_bytes([b; 32])
}

fn loopix(m: MessageType) -> Option<LoopixMsg> {
    Some(LoopixMsg { module: "Loopix".to_string(), message: Some(m) })
}

fn wrapper() -> NetworkWrapper {
    NetworkWrapper { module: "Gossip".to_string(), msg: "hello".to_string() }
}

#[test]
fn loopix_client_final_hop() {
    let (me, other, src) = (n(1), n(2), n(3));
    // Not for us: ignored.
    let r = client_final_hop(other, me, loopix(MessageType::Drop));
    assert_eq!(other, r.node);
    assert!(r.message.is_none());
    // Another module, or nothing decoded: ignored.
    let r = client_final_hop(me, me, Some(LoopixMsg { module: "Other".to_string(), message: Some(MessageType::Drop) }));
    assert!(r.message.is_none());
    assert!(client_final_hop(me, me, None).message.is_none());
    // A payload is handed on as from its source.
    let r = client_final_hop(me, me, loopix(MessageType::Payload(src, wrapper())));
    assert_eq!(src, r.node);
    assert_eq!("hello", r.payload.unwrap().msg);
    assert!(matches!(r.message, Some(MessageType::Payload(_, _))));
    // Requests name their client; other messages the destination.
    assert_eq!(src, client_final_hop(me, me, loopix(MessageType::PullRequest(src))).node);
    assert_eq!(src, client_final_hop(me, me, loopix(MessageType::SubscriptionRequest(src))).node);
    let r = client_final_hop(me, me, loopix(MessageType::Loop));
    assert_eq!(me, r.node);
    assert!(matches!(r.message, Some(MessageType::Loop)));
}

#[test]
fn loopix_mixnode_final_hop() {
    let (me, src) = (n(1), n(3));
    let r = mixnode_final_hop(me, me, loopix(MessageType::Payload(src, wrapper())));
    assert_eq!(me, r.node);
    assert!(r.payload.is_none());
    assert!(matches!(r.message, Some(MessageType::Payload(_, _))));
    assert!(mixnode_final_hop(n(2), me, loopix(MessageType::Dummy)).message.is_none());
}

#[test]
fn loopix_provider_final_hop() {
    let (me, client) = (n(1), n(5));
    let mut p = ProviderStorage::new();
    let r = p.provider_final_hop(me, me, loopix(MessageType::SubscriptionRequest(client)), 2);
    assert_eq!(client, r.node);
    p.provider_final_hop(me, me, loopix(MessageType::SubscriptionRequest(client)), 2);
    assert_eq!(&vec![client], p.get_subscribed_clients());
    for h in [10u64, 11, 12] {
        p.add_client_message(client, h);
    }
    // Pulls return at most two messages, padded with dummies, and move on.
    let r = p.provider_final_hop(me, me, loopix(MessageType::PullRequest(client)), 2);
    let reply = r.reply.unwrap();
    assert_eq!((client, vec![10, 11], 0), (reply.client, reply.messages, reply.dummies));
    let reply = p.create_pull_reply(client, 2);
    assert_eq!((vec![12], 1), (reply.messages, reply.dummies));
    let reply = p.create_pull_reply(client, 2);
    assert_eq!((vec![], 2), (reply.messages, reply.dummies));
    assert_eq!(3, p.get_client_message_index(client));
    // Another node's final hop does nothing.
    let r = p.provider_final_hop(n(9), me, loopix(MessageType::PullRequest(client)), 2);
    assert!(r.reply.is_none());
    assert_eq!(3, p.get_client_message_index(client));
}

#[test]
fn loopix_create_route() {
    let mixes = vec![vec![n(10), n(11)], vec![], vec![n(20), n(21)]];
    let keys = vec![n(1), n(10), n(11), n(21), n(30)];
    let route = create_route(&mixes, &keys, &vec![1, 0, 1], 3, Some(n(1)), Some(n(2)), Some(n(30)));
    // The destination provider has no key and is left out, as is the empty layer.
    assert_eq!(vec![n(1), n(11), n(21), n(30)], route);
    let route = create_route(&mixes, &keys, &vec![0, 0, 1], 1, None, None, None);
    assert_eq!(vec![n(10)], route);
}

#[test]
fn loopix_payload_tick() {
    let mut queue = vec![];
    assert!(matches!(payload_tick(&mut queue, vec![]), PayloadAction::SendDrop));
    let a = payload_tick(&mut queue, vec![(n(1), 7), (n(2), 8)]);
    assert!(matches!(a, PayloadAction::Send(id, 7) if id == n(1)));
    // Until it is sent, the same packet is first.
    assert!(matches!(payload_tick(&mut queue, vec![]), PayloadAction::Send(_, 7)));
    payload_sent(&mut queue);
    assert!(matches!(payload_tick(&mut queue, vec![]), PayloadAction::Send(_, 8)));
    payload_sent(&mut queue);
    payload_sent(&mut queue);
    assert!(queue.is_empty());
}
