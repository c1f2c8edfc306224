use flmodules::broker::{messages_for, untranslated, Destination};
use flmodules::nodeid::U256;

fn id(b: u8) -> U256 {
    U256::from_bytes([b; 32])
}

#[test]
fn broker_messages_for_subsystems() {
    let queues = vec![
        (0usize, vec![(Destination::All, 1u32), (Destination::Others, 2), (Destination::This, 3)]),
        (1usize, vec![]),
        (2usize, vec![(Destination::NoTap, 4u32), (Destination::Forward(vec![id(1)]), 5)]),
    ];
    // Subsystem 0 gets its own `This` message, not its own `Others` one.
    assert_eq!(vec![vec![1, 3], vec![4, 5]], messages_for(&queues, 0, false, false));
    // Subsystem 2 gets the `Others` message of 0, not its `This` one.
    assert_eq!(vec![vec![1, 2], vec![4, 5]], messages_for(&queues, 2, false, false));
    // A tap does not get `NoTap` messages.
    assert_eq!(vec![vec![1, 2], vec![5]], messages_for(&queues, 5, true, false));
    // Translators get nothing here.
    assert!(messages_for(&queues, 5, false, true).is_empty());
    // An empty queue gives no batch; a queue with nothing for `to` gives an empty one.
    let only_this = vec![(3usize, vec![(Destination::This, 9u32)])];
    assert_eq!(vec![Vec::<u32>::new()], messages_for(&only_this, 4, false, false));
}

#[test]
fn broker_untranslated_messages() {
    let me = id(7);
    let msgs = vec![
        (Destination::All, 1u32),
        (Destination::Forward(vec![id(1), me]), 2),
        (Destination::Forward(vec![id(1)]), 3),
        (Destination::Others, 4),
    ];
    let kept = untranslated(msgs, &me, &vec![true, true, true, false]);
    // The looping message stays even though marked, the untaken one stays.
    let values: Vec<u32> = kept.iter().map(|m| m.1).collect();
    assert_eq!(vec![2, 4], values);
    assert_eq!(Destination::Forward(vec![id(1), me]), kept[0].0);
    let trail = Destination::Forward(vec![id(1)]).forward_trail(&me).unwrap();
    assert_eq!(vec![id(1), me], trail);
    assert!(Destination::Forward(vec![me]).forward_trail(&me).is_none());
}
