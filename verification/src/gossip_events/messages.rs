use crate::gossip_events::events::{storage_event_ids, Event, EventsStorage};
use crate::gossip_events::intern::{
    add_event_model, add_events_model, node_message_model, nodes_model, outs_view, tick_model,
    unknown_model, Intern, InternModel, InternOut, InternOutView, ModuleMessageView,
};
pub use crate::gossip_events::intern::ModuleMessage;
use crate::nodeid::{NodeID, U256};
use vstd::prelude::*;

verus! {

/// The error type of the YAML encoding, which the message handling keeps in its
/// signature.
#[verifier::external_type_specification]
#[verifier::external_body]
pub struct ExYamlError(serde_yaml::Error);

/// The messages handled by the module.
#[derive(Debug, Clone)]
pub enum GossipIn {
    Tick,
    FromNetwork(NodeID, ModuleMessage),
    AddEvent(Event),
    UpdateNodeList(Vec<NodeID>),
}

pub enum GossipInView {
    Tick,
    FromNetwork(NodeID, ModuleMessageView),
    AddEvent(Event),
    UpdateNodeList(Seq<NodeID>),
}

impl GossipIn {
    pub open spec fn view(&self) -> GossipInView {
        match self {
            GossipIn::Tick => GossipInView::Tick,
            GossipIn::FromNetwork(src, m) => GossipInView::FromNetwork(*src, m@),
            GossipIn::AddEvent(e) => GossipInView::AddEvent(*e),
            GossipIn::UpdateNodeList(ids) => GossipInView::UpdateNodeList(ids@),
        }
    }
}

/// The messages sent by the module: each one to a node.
#[derive(Debug, Clone)]
pub enum GossipOut {
    ToNetwork(NodeID, ModuleMessage),
}

pub enum GossipOutView {
    ToNetwork(NodeID, ModuleMessageView),
}

impl GossipOut {
    pub open spec fn view(&self) -> GossipOutView {
        match self {
            GossipOut::ToNetwork(dst, m) => GossipOutView::ToNetwork(*dst, m@),
        }
    }
}

pub open spec fn gossip_outs_view(v: Seq<GossipOut>) -> Seq<GossipOutView> {
    v.map_values(|o: GossipOut| o@)
}

/// The messages to the other nodes among the outgoing ones, in their order.
pub open spec fn to_network(outs: Seq<InternOutView>) -> Seq<GossipOutView>
    decreases outs.len(),
{
    if outs.len() == 0 {
        Seq::empty()
    } else {
        let r = to_network(outs.drop_last());
        match outs.last() {
            InternOutView::Network(dst, m) => r.push(GossipOutView::ToNetwork(dst, m)),
            InternOutView::Gossip(_) => r,
        }
    }
}

/// Handles one message: as the gossip module does, but a tick asks the nodes at
/// once, and new events are only sent to the other nodes.
pub open spec fn process_model(m: InternModel, msg: GossipInView) -> (InternModel, Seq<GossipOutView>) {
    let (m1, o) = match msg {
        GossipInView::Tick => tick_model(m),
        GossipInView::FromNetwork(src, mm) => node_message_model(m, src, mm),
        GossipInView::AddEvent(e) => add_event_model(m, e),
        GossipInView::UpdateNodeList(ids) => nodes_model(m, ids),
    };
    (m1, to_network(o))
}

/// Handles the messages in turn, collecting the outgoing ones.
pub open spec fn process_all_model(m: InternModel, msgs: Seq<GossipInView>) -> (InternModel, Seq<GossipOutView>)
    decreases msgs.len(),
{
    if msgs.len() == 0 {
        (m, Seq::empty())
    } else {
        let (m1, o1) = process_all_model(m, msgs.drop_last());
        let (m2, o2) = process_model(m1, msgs.last());
        (m2, o1 + o2)
    }
}

/// Keeps the messages to the other nodes.
fn network_only(outs: Vec<InternOut>) -> (r: Vec<GossipOut>)
    ensures
        gossip_outs_view(r@) == to_network(outs_view(outs@)),
{
    let ghost orig = outs@;
    let ghost ov = outs_view(orig);
    let mut rest = outs;
    let mut r: Vec<GossipOut> = Vec::new();
    let n = rest.len();
    let mut k: usize = 0;
    while k < n
        invariant
            0 <= k <= n,
            n == orig.len(),
            ov == outs_view(orig),
            rest@.len() == n - k,
            forall|j: int| 0 <= j < n - k ==> #[trigger] rest@[j] == orig[k + j],
            gossip_outs_view(r@) == to_network(ov.take(k as int)),
        decreases n - k,
    {
        let o = rest.remove(0);
        proof {
            assert(o == orig[k as int]);
            assert(ov.take(k + 1).drop_last() =~= ov.take(k as int));
            assert(ov.take(k + 1).last() == o@);
        }
        let ghost r0 = gossip_outs_view(r@);
        match o {
            InternOut::Network(dst, m) => {
                r.push(GossipOut::ToNetwork(dst, m));
                proof {
                    assert(gossip_outs_view(r@) =~= r0.push(GossipOutView::ToNetwork(dst, m@)));
                }
            },
            InternOut::Gossip(_) => {},
        }
        k = k + 1;
    }
    proof {
        assert(ov.take(n as int) =~= ov);
    }
    r
}

/// The gossip module driven by the messages of its users: it holds the events,
/// and exchanges them with the nodes of the list it is given.
pub struct Messages {
    intern: Intern,
}

impl Messages {
    pub closed spec fn model(&self) -> InternModel {
        self.intern.model()
    }

    pub closed spec fn wf(&self) -> bool {
        self.intern.wf()
    }

    /// A module holding the given events, connected to no node yet.
    pub fn new(id: NodeID, events: EventsStorage) -> (r: Self)
        requires
            events.wf(),
        ensures
            r.wf(),
            r.model() == (InternModel {
                storage: events@,
                id,
                nodes: Seq::empty(),
                outstanding: Seq::empty(),
                ticks: 0,
                modified: false,
            }),
    {
        Messages { intern: Intern::new(id, events) }
    }

    /// Processes many messages at a time.
    pub fn process_messages(&mut self, msgs: Vec<GossipIn>) -> (r: Result<Vec<GossipOut>, serde_yaml::Error>)
        requires
            old(self).wf(),
        ensures
            final(self).wf(),
            r is Ok,
            (final(self).model(), gossip_outs_view(r->Ok_0@)) == process_all_model(
                old(self).model(),
                msgs@.map_values(|i: GossipIn| i@),
            ),
    {
        let ghost m0 = self.model();
        let ghost iv = msgs@.map_values(|i: GossipIn| i@);
        let ghost orig = msgs@;
        let mut inputs = msgs;
        let mut out: Vec<GossipOut> = Vec::new();
        let n = inputs.len();
        let mut k: usize = 0;
        while k < n
            invariant
                0 <= k <= n,
                n == iv.len(),
                n == orig.len(),
                iv == orig.map_values(|i: GossipIn| i@),
                inputs@.len() == n - k,
                forall|j: int| 0 <= j < n - k ==> #[trigger] inputs@[j] == orig[k + j],
                self.wf(),
                (self.model(), gossip_outs_view(out@)) == process_all_model(m0, iv.take(k as int)),
            decreases n - k,
        {
            let msg = inputs.remove(0);
            proof {
                assert(msg == orig[k as int]);
                assert(iv.take(k + 1).drop_last() =~= iv.take(k as int));
                assert(iv.take(k + 1).last() == iv[k as int]);
            }
            let ghost o0 = gossip_outs_view(out@);
            let mut o = self.process_message(msg);
            let ghost ov = gossip_outs_view(o@);
            out.append(&mut o);
            proof {
                assert(gossip_outs_view(out@) =~= o0 + ov);
            }
            k = k + 1;
        }
        proof {
            assert(iv.take(n as int) =~= iv);
        }
        Ok(out)
    }

    /// Processes one generic message and returns the result.
    pub fn process_message(&mut self, msg: GossipIn) -> (r: Vec<GossipOut>)
        requires
            old(self).wf(),
        ensures
            final(self).wf(),
            (final(self).model(), gossip_outs_view(r@)) == process_model(old(self).model(), msg@),
    {
        match msg {
            GossipIn::Tick => self.tick(),
            GossipIn::FromNetwork(src, node_msg) => self.process_node_message(src, node_msg),
            GossipIn::AddEvent(ev) => self.add_event(ev),
            GossipIn::UpdateNodeList(ids) => self.node_list(ids),
        }
    }

    /// Processes a node to node message and returns zero or more messages for the
    /// nodes.
    pub fn process_node_message(&mut self, src: NodeID, msg: ModuleMessage) -> (r: Vec<GossipOut>)
        requires
            old(self).wf(),
        ensures
            final(self).wf(),
            (final(self).model(), gossip_outs_view(r@)) == (
                node_message_model(old(self).model(), src, msg@).0,
                to_network(node_message_model(old(self).model(), src, msg@).1),
            ),
    {
        network_only(self.intern.node_message(src, msg))
    }

    /// Adds an event if it's not known yet or not too old, and announces it to all
    /// other nodes.
    pub fn add_event(&mut self, event: Event) -> (r: Vec<GossipOut>)
        requires
            old(self).wf(),
        ensures
            final(self).wf(),
            (final(self).model(), gossip_outs_view(r@)) == (
                add_event_model(old(self).model(), event).0,
                to_network(add_event_model(old(self).model(), event).1),
            ),
    {
        network_only(self.intern.add_event(event))
    }

    /// Stores the new events, each of them no longer requested, and returns them.
    pub fn add_events(&mut self, events: Vec<Event>) -> (r: Vec<Event>)
        requires
            old(self).wf(),
        ensures
            final(self).wf(),
            (final(self).model().storage, final(self).model().outstanding, r@) == add_events_model(
                old(self).model().storage,
                old(self).model().outstanding,
                events@,
            ),
            final(self).model() == (InternModel {
                storage: final(self).model().storage,
                outstanding: final(self).model().outstanding,
                ..old(self).model()
            }),
    {
        self.intern.add_events(events)
    }

    /// Takes the list of nodes, and asks the new ones for their event IDs.
    pub fn node_list(&mut self, ids: Vec<NodeID>) -> (r: Vec<GossipOut>)
        requires
            old(self).wf(),
        ensures
            final(self).wf(),
            (final(self).model(), gossip_outs_view(r@)) == (
                nodes_model(old(self).model(), ids@).0,
                to_network(nodes_model(old(self).model(), ids@).1),
            ),
    {
        network_only(self.intern.node_list(ids))
    }

    /// Asks `src` for the announced events this node doesn't know yet.
    pub fn node_known_event_ids(&mut self, src: NodeID, ids: Vec<U256>) -> (r: Vec<GossipOut>)
        requires
            old(self).wf(),
        ensures
            final(self).wf(),
            (final(self).model(), gossip_outs_view(r@)) == (
                node_message_model(old(self).model(), src, ModuleMessageView::KnownEventIDs(ids@)).0,
                to_network(node_message_model(old(self).model(), src, ModuleMessageView::KnownEventIDs(ids@)).1),
            ),
    {
        self.process_node_message(src, ModuleMessage::KnownEventIDs(ids))
    }

    /// Stores the new events and announces them to the other nodes.
    pub fn node_events(&mut self, src: NodeID, events: Vec<Event>) -> (r: Vec<GossipOut>)
        requires
            old(self).wf(),
        ensures
            final(self).wf(),
            (final(self).model(), gossip_outs_view(r@)) == (
                node_message_model(old(self).model(), src, ModuleMessageView::Events(events@)).0,
                to_network(node_message_model(old(self).model(), src, ModuleMessageView::Events(events@)).1),
            ),
    {
        self.process_node_message(src, ModuleMessage::Events(events))
    }

    /// Sends the requested events that are stored to `src`.
    pub fn node_request_events(&mut self, src: NodeID, ids: Vec<U256>) -> (r: Vec<GossipOut>)
        requires
            old(self).wf(),
        ensures
            final(self).wf(),
            (final(self).model(), gossip_outs_view(r@)) == (
                node_message_model(old(self).model(), src, ModuleMessageView::RequestEvents(ids@)).0,
                to_network(node_message_model(old(self).model(), src, ModuleMessageView::RequestEvents(ids@)).1),
            ),
    {
        self.process_node_message(src, ModuleMessage::RequestEvents(ids))
    }

    /// Sends the IDs of the stored events to `src`.
    pub fn node_request_event_list(&mut self, src: NodeID) -> (r: Vec<GossipOut>)
        requires
            old(self).wf(),
        ensures
            final(self).wf(),
            (final(self).model(), gossip_outs_view(r@)) == (
                node_message_model(old(self).model(), src, ModuleMessageView::RequestEventIDs).0,
                to_network(node_message_model(old(self).model(), src, ModuleMessageView::RequestEventIDs).1),
            ),
    {
        self.process_node_message(src, ModuleMessage::RequestEventIDs)
    }

    /// The IDs that are neither stored nor already requested.
    pub fn filter_known_events(&self, eventids: Vec<U256>) -> (r: Vec<U256>)
        requires
            self.wf(),
        ensures
            r@ == unknown_model(eventids@, storage_event_ids(self.model().storage), self.model().outstanding),
    {
        self.intern.unknown_ids(&eventids)
    }

    /// A copy of the stored events.
    pub fn storage(&self) -> (r: EventsStorage)
        requires
            self.wf(),
        ensures
            r.wf(),
            r@ == self.model().storage,
    {
        self.intern.storage().clone()
    }

    /// Tells whether the events changed since the last call, and forgets it.
    pub fn take_modified(&mut self) -> (r: bool)
        requires
            old(self).wf(),
        ensures
            final(self).wf(),
            r == old(self).model().modified,
            final(self).model() == (InternModel { modified: false, ..old(self).model() }),
    {
        self.intern.take_modified()
    }

    /// Forgets the requested events and asks every node for its event IDs.
    pub fn tick(&mut self) -> (r: Vec<GossipOut>)
        requires
            old(self).wf(),
        ensures
            final(self).wf(),
            (final(self).model(), gossip_outs_view(r@)) == (
                tick_model(old(self).model()).0,
                to_network(tick_model(old(self).model()).1),
            ),
    {
        network_only(self.intern.tick())
    }
}

} // verus!
