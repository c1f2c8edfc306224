pub mod events;
pub mod intern;
pub mod messages;

use vstd::prelude::*;

use crate::nodeid::{ids_contain, NodeID, U256};
use events::{
    find_category, storage_add_event, storage_event, storage_event_ids, storage_events_by_ids,
    Category, Event, EventsStorage, StorageView,
};

verus! {

broadcast use vstd::array::group_array_axioms;

/// Messages exchanged between the nodes.
#[derive(Debug, Clone, PartialEq)]
pub enum MessageNode {
    KnownMsgIDs(Vec<U256>),
    Events(Vec<Event>),
    RequestMsgIDs,
    RequestEvents(Vec<U256>),
}

/// Messages handled by the module.
#[derive(Debug, Clone, PartialEq)]
pub enum MessageIn {
    Tick,
    Node(NodeID, MessageNode),
    SetStorage(String),
    GetStorage,
    AddEvent(Event),
    NodeList(Vec<NodeID>),
}

/// Messages sent by the module.
#[derive(Debug, Clone, PartialEq)]
pub enum MessageOut {
    Node(NodeID, MessageNode),
    Storage(String),
    Updated,
}

pub enum MessageNodeView {
    KnownMsgIDs(Seq<U256>),
    Events(Seq<Event>),
    RequestMsgIDs,
    RequestEvents(Seq<U256>),
}

pub enum MessageOutView {
    Node(NodeID, MessageNodeView),
    Storage(Seq<char>),
    Updated,
}

impl View for MessageNode {
    type V = MessageNodeView;

    open spec fn view(&self) -> MessageNodeView {
        match self {
            MessageNode::KnownMsgIDs(ids) => MessageNodeView::KnownMsgIDs(ids@),
            MessageNode::Events(evs) => MessageNodeView::Events(evs@),
            MessageNode::RequestMsgIDs => MessageNodeView::RequestMsgIDs,
            MessageNode::RequestEvents(ids) => MessageNodeView::RequestEvents(ids@),
        }
    }
}

impl View for MessageOut {
    type V = MessageOutView;

    open spec fn view(&self) -> MessageOutView {
        match self {
            MessageOut::Node(id, m) => MessageOutView::Node(*id, m@),
            MessageOut::Storage(s) => MessageOutView::Storage(s@),
            MessageOut::Updated => MessageOutView::Updated,
        }
    }
}

pub open spec fn outs_view(v: Seq<MessageOut>) -> Seq<MessageOutView> {
    v.map_values(|m: MessageOut| m@)
}

/// The configuration of the module.
#[derive(Debug)]
pub struct Config {
    pub our_id: NodeID,
}

impl Config {
    pub fn new(our_id: NodeID) -> (r: Config)
        ensures
            r.our_id == our_id,
    {
        Self { our_id }
    }
}

/// The state of the module: its stored events, its own identifier and the
/// nodes it knows.
pub struct ModuleView {
    pub storage: StorageView,
    pub our_id: NodeID,
    pub nodes: Seq<NodeID>,
}

/// The messages forwarding `msg`, received from `src`, to every known node but
/// `src`, the event's source and this node.
pub open spec fn send_event_msgs(nodes: Seq<NodeID>, our_id: NodeID, src: NodeID, msg: Event) -> Seq<MessageOutView>
    decreases nodes.len(),
{
    if nodes.len() == 0 {
        Seq::empty()
    } else {
        let id = nodes.last();
        let prev = send_event_msgs(nodes.drop_last(), our_id, src, msg);
        if id != src && id != msg.src && id != our_id {
            prev.push(MessageOutView::Node(id, MessageNodeView::Events(seq![msg])))
        } else {
            prev
        }
    }
}

/// The forwarding messages for each event in turn.
pub open spec fn send_events_msgs(nodes: Seq<NodeID>, our_id: NodeID, src: NodeID, msgs: Seq<Event>) -> Seq<MessageOutView>
    decreases msgs.len(),
{
    if msgs.len() == 0 {
        Seq::empty()
    } else {
        send_events_msgs(nodes, our_id, src, msgs.drop_last()) + send_event_msgs(nodes, our_id, src, msgs.last())
    }
}

/// A request for the known events to every node of `ids` not known before, but this
/// node.
pub open spec fn node_list_msgs(ids: Seq<NodeID>, known: Seq<NodeID>, our_id: NodeID) -> Seq<MessageOutView>
    decreases ids.len(),
{
    if ids.len() == 0 {
        Seq::empty()
    } else {
        let id = ids.last();
        let prev = node_list_msgs(ids.drop_last(), known, our_id);
        if !known.contains(id) && id != our_id {
            prev.push(MessageOutView::Node(id, MessageNodeView::RequestMsgIDs))
        } else {
            prev
        }
    }
}

/// The identifiers of `ids` that are not among `known`, in order.
pub open spec fn unknown_ids(ids: Seq<U256>, known: Seq<Seq<u8>>) -> Seq<U256>
    decreases ids.len(),
{
    if ids.len() == 0 {
        Seq::empty()
    } else if known.contains(ids.last().bytes@) {
        unknown_ids(ids.drop_last(), known)
    } else {
        unknown_ids(ids.drop_last(), known).push(ids.last())
    }
}

/// A request for the known events to every known node.
pub open spec fn tick_msgs(nodes: Seq<NodeID>) -> Seq<MessageOutView> {
    nodes.map_values(|id: NodeID| MessageOutView::Node(id, MessageNodeView::RequestMsgIDs))
}

/// Adds the events in turn: the storage after them, and the events that were new.
pub open spec fn add_events_spec(s: StorageView, msgs: Seq<Event>) -> (StorageView, Seq<Event>)
    decreases msgs.len(),
{
    if msgs.len() == 0 {
        (s, Seq::empty())
    } else {
        let (s1, added) = add_events_spec(s, msgs.drop_last());
        let (s2, r) = storage_add_event(s1, msgs.last());
        (s2, if r {
            added.push(msgs.last())
        } else {
            added
        })
    }
}

impl ModuleView {
    /// Adding one event: the new state and the messages sent out.
    pub open spec fn add_event(self, msg: Event) -> (ModuleView, Seq<MessageOutView>) {
        let (s, r) = storage_add_event(self.storage, msg);
        if r {
            (
                ModuleView { storage: s, ..self },
                send_event_msgs(self.nodes, self.our_id, self.our_id, msg).push(MessageOutView::Updated),
            )
        } else {
            (ModuleView { storage: s, ..self }, Seq::empty())
        }
    }

    /// Receiving events from `src`: the new state and the messages sent out.
    pub open spec fn node_events(self, src: NodeID, msgs: Seq<Event>) -> (ModuleView, Seq<MessageOutView>) {
        let (s, added) = add_events_spec(self.storage, msgs);
        let out = send_events_msgs(self.nodes, self.our_id, src, added);
        (ModuleView { storage: s, ..self }, if added.len() > 0 {
            out.push(MessageOutView::Updated)
        } else {
            out
        })
    }

    pub open spec fn node_known_msg_ids(self, src: NodeID, ids: Seq<U256>) -> Seq<MessageOutView> {
        let unknown = unknown_ids(ids, storage_event_ids(self.storage));
        if unknown.len() > 0 {
            seq![MessageOutView::Node(src, MessageNodeView::RequestEvents(unknown))]
        } else {
            Seq::empty()
        }
    }

    pub open spec fn node_request_events(self, src: NodeID, ids: Seq<U256>) -> Seq<MessageOutView> {
        let msgs = storage_events_by_ids(self.storage, ids);
        if msgs.len() > 0 {
            seq![MessageOutView::Node(src, MessageNodeView::Events(msgs))]
        } else {
            Seq::empty()
        }
    }

}


/// Every message lists exactly the identifiers whose bytes are given, in order.
pub open spec fn lists_ids(ids: Seq<U256>, bytes: Seq<Seq<u8>>) -> bool {
    ids.map_values(|u: U256| u.bytes@) == bytes
}

/// The first known nodes of a list of events are forwarded to.
/// The first module to use the random_connections is a copy of the previous
/// chat.
/// Now it holds events of multiple categories and exchanges them between the
/// nodes.
#[derive(Debug)]
pub struct Module {
    storage: EventsStorage,
    cfg: Config,
    nodes: Vec<NodeID>,
}

impl View for Module {
    type V = ModuleView;

    closed spec fn view(&self) -> ModuleView {
        ModuleView { storage: self.storage@, our_id: self.cfg.our_id, nodes: self.nodes@ }
    }
}

impl Module {
    pub closed spec fn wf(&self) -> bool {
        self.storage.wf()
    }

    /// Returns a new chat module.
    pub fn new(cfg: Config) -> (r: Module)
        ensures
            r.wf(),
            r@.storage == EventsStorage::new_view(),
            r@.our_id == cfg.our_id,
            r@.nodes == Seq::<NodeID>::empty(),
    {
        Module { storage: EventsStorage::new(), cfg, nodes: Vec::new() }
    }

    /// Processes one message. The storage messages `GetStorage` and `SetStorage`
    /// are left to the caller, which serializes the storage: for them the result
    /// is `None` and nothing changes.
    pub fn process_message(&mut self, msg: MessageIn) -> (r: Option<Vec<MessageOut>>)
        requires
            old(self).wf(),
        ensures
            final(self).wf(),
            match msg {
                MessageIn::Tick => final(self)@ == old(self)@ && (r matches Some(out) && outs_view(out@) == tick_msgs(old(self)@.nodes)),
                MessageIn::Node(src, node_msg) => (r matches Some(out) && node_message_result(old(self)@, final(self)@, src, node_msg@, outs_view(out@))),
                MessageIn::AddEvent(e) => (r matches Some(out) && (final(self)@, outs_view(out@)) == old(self)@.add_event(e)),
                MessageIn::NodeList(ids) => (r matches Some(out) && outs_view(out@) == node_list_msgs(ids@, old(self)@.nodes, old(self)@.our_id)
                    && final(self)@ == (ModuleView { nodes: ids@, ..old(self)@ })),
                MessageIn::GetStorage => r is None && final(self)@ == old(self)@,
                MessageIn::SetStorage(_) => r is None && final(self)@ == old(self)@,
            },
    {
        match msg {
            MessageIn::Tick => Some(self.tick()),
            MessageIn::Node(src, node_msg) => Some(self.process_node_message(src, node_msg)),
            MessageIn::AddEvent(msg) => Some(self.add_event(msg)),
            MessageIn::NodeList(ids) => Some(self.node_list(ids)),
            MessageIn::GetStorage => None,
            MessageIn::SetStorage(_) => None,
        }
    }

    /// Processes a node to node message and returns zero or more
    /// MessageOut.
    pub fn process_node_message(&mut self, src: NodeID, msg: MessageNode) -> (r: Vec<MessageOut>)
        requires
            old(self).wf(),
        ensures
            final(self).wf(),
            node_message_result(old(self)@, final(self)@, src, msg@, outs_view(r@)),
    {
        match msg {
            MessageNode::KnownMsgIDs(ids) => self.node_known_msg_ids(src, ids),
            MessageNode::Events(msgs) => self.node_events(src, msgs),
            MessageNode::RequestEvents(ids) => self.node_request_events(src, ids),
            MessageNode::RequestMsgIDs => self.node_request_event_list(src),
        }
    }

    /// Adds an event if it's not known yet or not too old.
    /// This will send out the event to all other nodes.
    pub fn add_event(&mut self, msg: Event) -> (r: Vec<MessageOut>)
        requires
            old(self).wf(),
        ensures
            final(self).wf(),
            (final(self)@, outs_view(r@)) == old(self)@.add_event(msg),
    {
        if self.storage.add_event(msg.clone()) {
            let mut out = self.send_event(self.cfg.our_id, &msg);
            out.push(MessageOut::Updated);
            proof {
                assert(outs_view(out@) =~= send_event_msgs(old(self)@.nodes, old(self)@.our_id, old(self)@.our_id, msg).push(MessageOutView::Updated));
            }
            return out;
        }
        let r: Vec<MessageOut> = Vec::new();
        proof {
            assert(outs_view(r@) =~= Seq::<MessageOutView>::empty());
        }
        r
    }

    /// Takes a vector of events and stores the new events. It returns all
    /// events that are new to the system.
    pub fn add_events(&mut self, msgs: Vec<Event>) -> (r: Vec<Event>)
        requires
            old(self).wf(),
        ensures
            final(self).wf(),
            (final(self)@.storage, r@) == add_events_spec(old(self)@.storage, msgs@),
            final(self)@.nodes == old(self)@.nodes,
            final(self)@.our_id == old(self)@.our_id,
    {
        let mut r: Vec<Event> = Vec::new();
        let mut i: usize = 0;
        while i < msgs.len()
            invariant
                0 <= i <= msgs.len(),
                self.wf(),
                (self@.storage, r@) == add_events_spec(old(self)@.storage, msgs@.take(i as int)),
                self@.nodes == old(self)@.nodes,
                self@.our_id == old(self)@.our_id,
            decreases msgs.len() - i,
        {
            proof {
                assert(msgs@.take(i + 1).drop_last() =~= msgs@.take(i as int));
            }
            if self.storage.add_event(msgs[i].clone()) {
                r.push(msgs[i].clone());
            }
            i = i + 1;
        }
        proof {
            assert(msgs@.take(msgs.len() as int) =~= msgs@);
        }
        r
    }

    fn send_event(&self, src: NodeID, msg: &Event) -> (r: Vec<MessageOut>)
        ensures
            outs_view(r@) == send_event_msgs(self@.nodes, self@.our_id, src, *msg),
    {
        let mut r: Vec<MessageOut> = Vec::new();
        let mut i: usize = 0;
        while i < self.nodes.len()
            invariant
                0 <= i <= self.nodes.len(),
                outs_view(r@) == send_event_msgs(self@.nodes.take(i as int), self@.our_id, src, *msg),
            decreases self.nodes.len() - i,
        {
            proof {
                assert(self@.nodes.take(i + 1).drop_last() =~= self@.nodes.take(i as int));
            }
            let id = self.nodes[i];
            if !id.same(&src) && !id.same(&msg.src) && !id.same(&self.cfg.our_id) {
                let mut evs: Vec<Event> = Vec::new();
                evs.push(msg.clone());
                let ghost before = r@;
                r.push(MessageOut::Node(id, MessageNode::Events(evs)));
                proof {
                    assert(evs@ =~= seq![*msg]);
                    assert(outs_view(r@) =~= outs_view(before).push(MessageOutView::Node(id, MessageNodeView::Events(seq![*msg]))));
                }
            }
            i = i + 1;
        }
        proof {
            assert(self@.nodes.take(self@.nodes.len() as int) =~= self@.nodes);
        }
        r
    }

    /// If an updated list of nodes is available, send a `RequestMsgIDs` to
    /// all new nodes.
    pub fn node_list(&mut self, ids: Vec<NodeID>) -> (r: Vec<MessageOut>)
        ensures
            outs_view(r@) == node_list_msgs(ids@, old(self)@.nodes, old(self)@.our_id),
            final(self)@ == (ModuleView { nodes: ids@, ..old(self)@ }),
            final(self).wf() == old(self).wf(),
    {
        let mut r: Vec<MessageOut> = Vec::new();
        let mut i: usize = 0;
        while i < ids.len()
            invariant
                0 <= i <= ids.len(),
                outs_view(r@) == node_list_msgs(ids@.take(i as int), self@.nodes, self@.our_id),
                self@ == old(self)@,
            decreases ids.len() - i,
        {
            proof {
                assert(ids@.take(i + 1).drop_last() =~= ids@.take(i as int));
            }
            let id = ids[i];
            if !ids_contain(&self.nodes, &id) && !id.same(&self.cfg.our_id) {
                let ghost before = r@;
                r.push(MessageOut::Node(id, MessageNode::RequestMsgIDs));
                proof {
                    assert(outs_view(r@) =~= outs_view(before).push(MessageOutView::Node(id, MessageNodeView::RequestMsgIDs)));
                }
            }
            i = i + 1;
        }
        proof {
            assert(ids@.take(ids.len() as int) =~= ids@);
        }
        self.nodes = ids;
        r
    }

    /// Reply with a list of events this node doesn't know yet.
    /// We suppose that if there are too old events in here, they will be
    /// discarded over time.
    pub fn node_known_msg_ids(&mut self, src: NodeID, ids: Vec<U256>) -> (r: Vec<MessageOut>)
        requires
            old(self).wf(),
        ensures
            final(self)@ == old(self)@,
            final(self).wf(),
            outs_view(r@) == old(self)@.node_known_msg_ids(src, ids@),
    {
        let unknown_ids = self.filter_known_events(ids);
        let mut r: Vec<MessageOut> = Vec::new();
        if unknown_ids.len() > 0 {
            let ghost u = unknown_ids@;
            r.push(MessageOut::Node(src, MessageNode::RequestEvents(unknown_ids)));
            proof {
                assert(outs_view(r@) =~= seq![MessageOutView::Node(src, MessageNodeView::RequestEvents(u))]);
            }
            return r;
        }
        proof {
            assert(outs_view(r@) =~= Seq::<MessageOutView>::empty());
        }
        r
    }

    /// Store the new eventss and send them to the other nodes.
    pub fn node_events(&mut self, src: NodeID, msgs: Vec<Event>) -> (r: Vec<MessageOut>)
        requires
            old(self).wf(),
        ensures
            final(self).wf(),
            (final(self)@, outs_view(r@)) == old(self)@.node_events(src, msgs@),
    {
        // Attention: self.send_event can return an empty vec in case there are no
        // other nodes available yet. So it's not enough to check the 'output' variable
        // to know if the MessageOut::Updated needs to be sent or not.
        let msgs_out = self.add_events(msgs);
        let mut output: Vec<MessageOut> = Vec::new();
        let mut i: usize = 0;
        while i < msgs_out.len()
            invariant
                0 <= i <= msgs_out.len(),
                outs_view(output@) == send_events_msgs(self@.nodes, self@.our_id, src, msgs_out@.take(i as int)),
            decreases msgs_out.len() - i,
        {
            proof {
                assert(msgs_out@.take(i + 1).drop_last() =~= msgs_out@.take(i as int));
            }
            let ghost before = output@;
            let mut sent = self.send_event(src, &msgs_out[i]);
            output.append(&mut sent);
            proof {
                assert(outs_view(output@) =~= outs_view(before) + send_event_msgs(self@.nodes, self@.our_id, src, msgs_out@[i as int]));
            }
            i = i + 1;
        }
        proof {
            assert(msgs_out@.take(msgs_out.len() as int) =~= msgs_out@);
        }
        if msgs_out.len() > 0 {
            let ghost before = output@;
            output.push(MessageOut::Updated);
            proof {
                assert(outs_view(output@) =~= outs_view(before).push(MessageOutView::Updated));
            }
        }
        output
    }

    /// Send the events to the other node. One or more of the requested
    /// events might be missing.
    pub fn node_request_events(&mut self, src: NodeID, ids: Vec<U256>) -> (r: Vec<MessageOut>)
        requires
            old(self).wf(),
        ensures
            final(self)@ == old(self)@,
            final(self).wf(),
            outs_view(r@) == old(self)@.node_request_events(src, ids@),
    {
        let msgs: Vec<Event> = self.storage.get_events_by_ids(ids);
        let mut r: Vec<MessageOut> = Vec::new();
        if msgs.len() > 0 {
            let ghost m = msgs@;
            r.push(MessageOut::Node(src, MessageNode::Events(msgs)));
            proof {
                assert(outs_view(r@) =~= seq![MessageOutView::Node(src, MessageNodeView::Events(m))]);
            }
            return r;
        }
        proof {
            assert(outs_view(r@) =~= Seq::<MessageOutView>::empty());
        }
        r
    }

    /// Returns the list of known events.
    pub fn node_request_event_list(&mut self, src: NodeID) -> (r: Vec<MessageOut>)
        requires
            old(self).wf(),
        ensures
            final(self)@ == old(self)@,
            final(self).wf(),
            r@.len() == 1,
            (r@[0] matches MessageOut::Node(dst, MessageNode::KnownMsgIDs(ids)) && dst == src && lists_ids(
                ids@,
                storage_event_ids(old(self)@.storage),
            )),
    {
        let ids = self.storage.event_ids();
        let mut r: Vec<MessageOut> = Vec::new();
        r.push(MessageOut::Node(src, MessageNode::KnownMsgIDs(ids)));
        r
    }

    /// Returns all ids that are not in our storage
    pub fn filter_known_events(&self, msgids: Vec<U256>) -> (r: Vec<U256>)
        requires
            self.wf(),
        ensures
            r@ == unknown_ids(msgids@, storage_event_ids(self@.storage)),
    {
        let our_ids = self.storage.event_ids();
        let ghost known = storage_event_ids(self@.storage);
        let mut r: Vec<U256> = Vec::new();
        let mut i: usize = 0;
        while i < msgids.len()
            invariant
                0 <= i <= msgids.len(),
                our_ids@.map_values(|u: U256| u.bytes@) == known,
                r@ == unknown_ids(msgids@.take(i as int), known),
            decreases msgids.len() - i,
        {
            proof {
                assert(msgids@.take(i + 1).drop_last() =~= msgids@.take(i as int));
            }
            let id = msgids[i];
            let found = ids_contain(&our_ids, &id);
            proof {
                if found {
                    let j = choose|j: int| 0 <= j < our_ids@.len() && our_ids@[j] == id;
                    assert(known[j] == id.bytes@);
                }
                if known.contains(id.bytes@) {
                    let j = choose|j: int| 0 <= j < known.len() && known[j] == id.bytes@;
                    assert(our_ids@[j].bytes@ == id.bytes@);
                    assert(our_ids@[j].bytes =~= id.bytes);
                    assert(our_ids@.contains(id));
                }
            }
            if !found {
                r.push(id);
            }
            i = i + 1;
        }
        proof {
            assert(msgids@.take(msgids.len() as int) =~= msgids@);
        }
        r
    }

    /// Gets a copy of all events stored in the module.
    pub fn get_chat_events(&self, cat: Category) -> (r: Vec<Event>)
        requires
            find_category(self@.storage, cat) is Some,
        ensures
            r@ == self@.storage[find_category(self@.storage, cat)->0].1.events,
    {
        self.storage.events(cat)
    }

    /// Gets all event-ids that are stored in the module.
    pub fn get_event_ids(&self) -> (r: Vec<U256>)
        requires
            self.wf(),
        ensures
            lists_ids(r@, storage_event_ids(self@.storage)),
    {
        self.storage.event_ids()
    }

    /// Gets a single event of the module.
    pub fn get_event(&self, id: &U256) -> (r: Option<Event>)
        requires
            self.wf(),
        ensures
            r == storage_event(self@.storage, *id),
    {
        self.storage.event(id)
    }

    /// Returns all events from a given category
    pub fn get_events(&self, cat: Category) -> (r: Vec<Event>)
        requires
            find_category(self@.storage, cat) is Some,
        ensures
            r@ == self@.storage[find_category(self@.storage, cat)->0].1.events,
    {
        self.storage.events(cat)
    }

    /// Sends a request for the known events to every known node.
    pub fn tick(&self) -> (r: Vec<MessageOut>)
        ensures
            outs_view(r@) == tick_msgs(self@.nodes),
    {
        let mut r: Vec<MessageOut> = Vec::new();
        let mut i: usize = 0;
        while i < self.nodes.len()
            invariant
                0 <= i <= self.nodes.len(),
                outs_view(r@) == tick_msgs(self@.nodes.take(i as int)),
                r@.len() == i,
            decreases self.nodes.len() - i,
        {
            let ghost before = r@;
            r.push(MessageOut::Node(self.nodes[i], MessageNode::RequestMsgIDs));
            proof {
                assert(self.nodes@[i as int] == self@.nodes[i as int]);
                assert forall|j: int| 0 <= j < i + 1 implies outs_view(r@)[j] == tick_msgs(self@.nodes.take(i + 1))[j] by {
                    if j < i {
                        assert(outs_view(r@)[j] == outs_view(before)[j]);
                        assert(outs_view(before)[j] == tick_msgs(self@.nodes.take(i as int))[j]);
                    }
                }
                assert(outs_view(r@) =~= tick_msgs(self@.nodes.take(i + 1)));
            }
            i = i + 1;
        }
        proof {
            assert(self@.nodes.take(self@.nodes.len() as int) =~= self@.nodes);
        }
        r
    }

    /// The event storage, for serialization.
    pub fn storage(&self) -> (r: &EventsStorage)
        ensures
            r@ == self@.storage,
            r.wf() == self.wf(),
    {
        &self.storage
    }

    /// Replaces the event storage, after deserialization.
    pub fn set_storage(&mut self, storage: EventsStorage)
        requires
            storage.wf(),
        ensures
            final(self)@ == (ModuleView { storage: storage@, ..old(self)@ }),
            final(self).wf(),
    {
        self.storage = storage;
    }
}

/// What handling a message from another node does: a list of known identifiers
/// is answered with a request for the unknown ones; events are stored and the new
/// ones forwarded; requested events are sent back; a request for the known
/// identifiers is answered with them. Only received events change the state.
pub open spec fn node_message_result(
    old_v: ModuleView,
    new_v: ModuleView,
    src: NodeID,
    msg: MessageNodeView,
    out: Seq<MessageOutView>,
) -> bool {
    match msg {
        MessageNodeView::KnownMsgIDs(ids) => new_v == old_v && out == old_v.node_known_msg_ids(src, ids),
        MessageNodeView::Events(msgs) => (new_v, out) == old_v.node_events(src, msgs),
        MessageNodeView::RequestEvents(ids) => new_v == old_v && out == old_v.node_request_events(src, ids),
        MessageNodeView::RequestMsgIDs => new_v == old_v && out.len() == 1 && (out[0] matches MessageOutView::Node(
            dst,
            MessageNodeView::KnownMsgIDs(ids),
        ) && dst == src && lists_ids(ids, storage_event_ids(old_v.storage))),
    }
}

} // verus!
