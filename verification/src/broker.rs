use vstd::prelude::*;
use vstd::pervasive::cloned;

use crate::nodeid::{ids_contain, U256};

verus! {

pub type BrokerID = U256;

/// The Destination of the message
#[derive(Debug, Clone, PartialEq, Eq)]
pub enum Destination {
    All,
    Others,
    This,
    NoTap,
    Forward(Vec<BrokerID>),
}

/// Marker for the types that can be passed between threads.
pub trait Async: Sync + Send {}

impl<T: Sync + Send> Async for T {}

/// A message sent by subsystem `from` with this destination reaches subsystem
/// `to`: all messages reach everyone, `Others` all but the sender, `This` only the
/// sender, `NoTap` all but taps.
pub open spec fn spec_delivers(dst: Destination, from: usize, to: usize, to_is_tap: bool) -> bool {
    match dst {
        Destination::All | Destination::Forward(_) => true,
        Destination::Others => from != to,
        Destination::This => from == to,
        Destination::NoTap => !to_is_tap,
    }
}

impl Destination {
    /// Whether a message sent by subsystem `from` to this destination is handed to
    /// subsystem `to`.
    pub fn delivers(&self, from: usize, to: usize, to_is_tap: bool) -> (r: bool)
        ensures
            r == spec_delivers(*self, from, to, to_is_tap),
    {
        match self {
            Destination::All | Destination::Forward(_) => true,
            Destination::Others => from != to,
            Destination::This => from == to,
            Destination::NoTap => !to_is_tap,
        }
    }

    /// The trail of brokers for translating a message with this destination in the
    /// broker `id`: the brokers it was forwarded through, followed by `id`. `None`
    /// if it already passed through `id`, which would be an endless forward-loop.
    pub fn forward_trail(&self, id: &BrokerID) -> (r: Option<Vec<BrokerID>>)
        ensures
            match *self {
                Destination::Forward(t) => if t@.contains(*id) {
                    r is None
                } else {
                    r matches Some(v) && v@ == t@.push(*id)
                },
                _ => r matches Some(v) && v@ == seq![*id],
            },
    {
        let mut trail: Vec<BrokerID> = Vec::new();
        if let Destination::Forward(t) = self {
            let mut i: usize = 0;
            while i < t.len()
                invariant
                    0 <= i <= t.len(),
                    trail@ == t@.take(i as int),
                decreases t.len() - i,
            {
                proof {
                    assert(t@.take(i + 1) =~= t@.take(i as int).push(t@[i as int]));
                }
                trail.push(t[i]);
                i = i + 1;
            }
            proof {
                assert(t@.take(t.len() as int) =~= t@);
            }
        }
        if ids_contain(&trail, id) {
            return None;
        }
        trail.push(*id);
        proof {
            if !(*self is Forward) {
                assert(trail@ =~= seq![*id]);
            }
        }
        Some(trail)
    }
}


/// The trail of a message with destination `d` would pass through `id` a second time.
pub open spec fn loops(d: Destination, id: BrokerID) -> bool {
    match d {
        Destination::Forward(t) => t@.contains(id),
        _ => false,
    }
}

/// The messages of one queue, sent by subsystem `from`, that reach subsystem `to`, in
/// their order.
pub open spec fn delivered<T>(msgs: Seq<(Destination, T)>, from: usize, to: usize, to_is_tap: bool) -> Seq<T>
    decreases msgs.len(),
{
    if msgs.len() == 0 {
        Seq::empty()
    } else {
        let prev = delivered(msgs.drop_last(), from, to, to_is_tap);
        if spec_delivers(msgs.last().0, from, to, to_is_tap) {
            prev.push(msgs.last().1)
        } else {
            prev
        }
    }
}

/// The batches of messages for subsystem `to`: one for each queue that holds
/// messages, in the order of the queues, each with the messages that reach `to`.
pub open spec fn batches<T>(queues: Seq<(usize, Vec<(Destination, T)>)>, to: usize, to_is_tap: bool) -> Seq<Seq<T>>
    decreases queues.len(),
{
    if queues.len() == 0 {
        Seq::empty()
    } else {
        let prev = batches(queues.drop_last(), to, to_is_tap);
        let q = queues.last();
        if q.1@.len() == 0 {
            prev
        } else {
            prev.push(delivered(q.1@, q.0, to, to_is_tap))
        }
    }
}

/// The messages that stay in the queue after translation, in their order: those
/// whose trail would loop through `id`, and those that no translator took.
pub open spec fn kept<T>(msgs: Seq<(Destination, T)>, id: BrokerID, taken: Seq<bool>) -> Seq<(Destination, T)>
    decreases msgs.len(),
{
    if msgs.len() == 0 {
        Seq::empty()
    } else {
        let prev = kept(msgs.drop_last(), id, taken.take(msgs.len() - 1));
        if loops(msgs.last().0, id) || !taken[msgs.len() - 1] {
            prev.push(msgs.last())
        } else {
            prev
        }
    }
}

/// Each value of `b` is a clone of the value at the same place in `a`.
pub open spec fn clones_of<T: Clone>(a: Seq<T>, b: Seq<T>) -> bool {
    &&& a.len() == b.len()
    &&& forall|j: int| 0 <= j < a.len() ==> cloned(#[trigger] a[j], b[j])
}

/// The messages that the queues hand to subsystem `to`: nothing for a translator,
/// else one batch for each queue that holds messages, in the order of the queues,
/// with clones of the messages whose destination reaches `to`, in their order.
pub fn messages_for<T: Clone>(
    queues: &Vec<(usize, Vec<(Destination, T)>)>,
    to: usize,
    to_is_tap: bool,
    to_is_translator: bool,
) -> (r: Vec<Vec<T>>)
    ensures
        to_is_translator ==> r@.len() == 0,
        !to_is_translator ==> r@.len() == batches(queues@, to, to_is_tap).len(),
        !to_is_translator ==> forall|b: int|
            0 <= b < r@.len() ==> clones_of(batches(queues@, to, to_is_tap)[b], (#[trigger] r@[b])@),
{
    let mut r: Vec<Vec<T>> = Vec::new();
    if to_is_translator {
        return r;
    }
    let mut qi: usize = 0;
    while qi < queues.len()
        invariant
            0 <= qi <= queues@.len(),
            r@.len() == batches(queues@.take(qi as int), to, to_is_tap).len(),
            forall|b: int|
                0 <= b < r@.len() ==> clones_of(batches(queues@.take(qi as int), to, to_is_tap)[b], (#[trigger] r@[b])@),
        decreases queues.len() - qi,
    {
        proof {
            assert(queues@.take(qi + 1).drop_last() =~= queues@.take(qi as int));
        }
        let from = queues[qi].0;
        let msgs = &queues[qi].1;
        if msgs.len() > 0 {
            let mut batch: Vec<T> = Vec::new();
            let mut i: usize = 0;
            while i < msgs.len()
                invariant
                    0 <= i <= msgs@.len(),
                    clones_of(delivered(msgs@.take(i as int), from, to, to_is_tap), batch@),
                decreases msgs.len() - i,
            {
                proof {
                    assert(msgs@.take(i + 1).drop_last() =~= msgs@.take(i as int));
                }
                if msgs[i].0.delivers(from, to, to_is_tap) {
                    let m = msgs[i].1.clone();
                    batch.push(m);
                }
                i = i + 1;
            }
            proof {
                assert(msgs@.take(msgs@.len() as int) =~= msgs@);
            }
            r.push(batch);
        }
        qi = qi + 1;
    }
    proof {
        assert(queues@.take(queues@.len() as int) =~= queues@);
    }
    r
}

/// The messages of a queue that stay after translation in the broker `id`, in their
/// order: those whose trail would pass through `id` again, and those that no
/// translator took (`taken[i]` tells whether one took message `i`).
pub fn untranslated<T>(msgs: Vec<(Destination, T)>, id: &BrokerID, taken: &Vec<bool>) -> (r: Vec<(Destination, T)>)
    requires
        taken@.len() == msgs@.len(),
    ensures
        r@ == kept(msgs@, *id, taken@),
{
    let ghost m0 = msgs@;
    assert(m0.len() == msgs.len());
    let mut rest = msgs;
    let mut r: Vec<(Destination, T)> = Vec::new();
    let mut i: usize = 0;
    while rest.len() > 0
        invariant
            0 <= i <= m0.len(),
            m0.len() <= usize::MAX,
            taken@.len() == m0.len(),
            rest@ == m0.skip(i as int),
            r@ == kept(m0.take(i as int), *id, taken@.take(i as int)),
        decreases rest.len(),
    {
        proof {
            assert(m0.skip(i as int).len() == m0.len() - i);
            assert(i < m0.len());
            assert(m0.take(i + 1).drop_last() =~= m0.take(i as int));
            assert(taken@.take(i + 1).take(i as int) =~= taken@.take(i as int));
            assert(m0.skip(i as int)[0] == m0[i as int]);
        }
        let m = rest.remove(0);
        let looping = m.0.forward_trail(id).is_none();
        if looping || !taken[i] {
            r.push(m);
        }
        proof {
            assert(rest@ =~= m0.skip(i + 1));
        }
        i = i + 1;
    }
    proof {
        assert(m0.skip(i as int).len() == 0);
        assert(m0.take(i as int) =~= m0);
        assert(taken@.take(i as int) =~= taken@);
    }
    r
}

} // verus!
