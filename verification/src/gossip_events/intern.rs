use crate::gossip_events::events::{
    event_id, storage_add_event, storage_event_ids, storage_events_by_ids, Event, EventsStorage,
    StorageView,
};
use crate::nodeid::{ids_contain, NodeID, U256};
use vstd::prelude::*;

verus! {

/// The messages exchanged between the nodes.
#[derive(Debug, Clone)]
pub enum ModuleMessage {
    KnownEventIDs(Vec<U256>),
    Events(Vec<Event>),
    RequestEventIDs,
    RequestEvents(Vec<U256>),
}

pub enum ModuleMessageView {
    KnownEventIDs(Seq<U256>),
    Events(Seq<Event>),
    RequestEventIDs,
    RequestEvents(Seq<U256>),
}

impl ModuleMessage {
    pub open spec fn view(&self) -> ModuleMessageView {
        match self {
            ModuleMessage::KnownEventIDs(ids) => ModuleMessageView::KnownEventIDs(ids@),
            ModuleMessage::Events(evs) => ModuleMessageView::Events(evs@),
            ModuleMessage::RequestEventIDs => ModuleMessageView::RequestEventIDs,
            ModuleMessage::RequestEvents(ids) => ModuleMessageView::RequestEvents(ids@),
        }
    }
}

/// The ID whose bytes are `b`.
pub open spec fn id_from_bytes(b: Seq<u8>) -> U256 {
    choose|u: U256| u.bytes@ == b
}

/// The identifier of an event, as a value.
pub open spec fn id_of(e: Event) -> U256 {
    id_from_bytes(event_id(e))
}

/// The requests of the users of the module.
#[derive(Debug, Clone)]
pub enum GossipIn {
    AddEvent(Event),
}

/// What the module tells its users.
#[derive(Debug, Clone)]
pub enum GossipOut {
    NewEvent(Event),
}

/// What the network of random connections hands to the module, decoded.
#[derive(Debug)]
pub enum RandomOut {
    NodeIDsConnected(Vec<NodeID>),
    /// A message from a node, if it could be decoded.
    NetworkWrapperFromNetwork(NodeID, Option<ModuleMessage>),
    Other,
}

pub enum RandomOutView {
    NodeIDsConnected(Seq<NodeID>),
    NetworkWrapperFromNetwork(NodeID, Option<ModuleMessageView>),
    Other,
}

impl RandomOut {
    pub open spec fn view(&self) -> RandomOutView {
        match self {
            RandomOut::NodeIDsConnected(ids) => RandomOutView::NodeIDsConnected(ids@),
            RandomOut::NetworkWrapperFromNetwork(src, m) => RandomOutView::NetworkWrapperFromNetwork(
                *src,
                match m {
                    Some(mm) => Some(mm@),
                    None => None,
                },
            ),
            RandomOut::Other => RandomOutView::Other,
        }
    }
}

/// All messages coming into the module.
#[derive(Debug)]
pub enum InternIn {
    Tick,
    Network(RandomOut),
    Gossip(GossipIn),
}

pub enum InternInView {
    Tick,
    Network(RandomOutView),
    Gossip(GossipIn),
}

impl InternIn {
    pub open spec fn view(&self) -> InternInView {
        match self {
            InternIn::Tick => InternInView::Tick,
            InternIn::Network(r) => InternInView::Network(r@),
            InternIn::Gossip(g) => InternInView::Gossip(*g),
        }
    }
}

/// All messages going out of the module: to a node, to be encoded, or to its users.
#[derive(Debug)]
pub enum InternOut {
    Network(NodeID, ModuleMessage),
    Gossip(GossipOut),
}

pub enum InternOutView {
    Network(NodeID, ModuleMessageView),
    Gossip(GossipOut),
}

impl InternOut {
    pub open spec fn view(&self) -> InternOutView {
        match self {
            InternOut::Network(d, m) => InternOutView::Network(*d, m@),
            InternOut::Gossip(g) => InternOutView::Gossip(*g),
        }
    }
}

pub open spec fn outs_view(v: Seq<InternOut>) -> Seq<InternOutView> {
    v.map_values(|o: InternOut| o@)
}

/// What the module holds: the stored events, its own ID, the connected nodes, the
/// IDs of the events requested and not received yet, the ticks counted, and whether
/// the events changed since they were last saved.
pub struct InternModel {
    pub storage: StorageView,
    pub id: NodeID,
    pub nodes: Seq<NodeID>,
    pub outstanding: Seq<U256>,
    pub ticks: usize,
    pub modified: bool,
}

/// The IDs of the events that `node` did not create.
pub open spec fn ids_for(evs: Seq<Event>, node: NodeID) -> Seq<U256>
    decreases evs.len(),
{
    if evs.len() == 0 {
        Seq::empty()
    } else {
        let r = ids_for(evs.drop_last(), node);
        if node != evs.last().src {
            r.push(id_of(evs.last()))
        } else {
            r
        }
    }
}

/// Tells every connected node but `src` and this one which of the events it does
/// not know, then hands each event to the users.
pub open spec fn send_events_model(nodes: Seq<NodeID>, id: NodeID, src: NodeID, evs: Seq<Event>) -> Seq<InternOutView> {
    announce(nodes, id, src, evs) + evs.map_values(|e: Event| InternOutView::Gossip(GossipOut::NewEvent(e)))
}

pub open spec fn announce(nodes: Seq<NodeID>, id: NodeID, src: NodeID, evs: Seq<Event>) -> Seq<InternOutView>
    decreases nodes.len(),
{
    if nodes.len() == 0 {
        Seq::empty()
    } else {
        let r = announce(nodes.drop_last(), id, src, evs);
        let n = nodes.last();
        if n != src && n != id {
            r.push(InternOutView::Network(n, ModuleMessageView::KnownEventIDs(ids_for(evs, n))))
        } else {
            r
        }
    }
}

/// The IDs without `b`.
pub open spec fn drop_id(s: Seq<U256>, b: U256) -> Seq<U256>
    decreases s.len(),
{
    if s.len() == 0 {
        Seq::empty()
    } else {
        let r = drop_id(s.drop_last(), b);
        if s.last() == b {
            r
        } else {
            r.push(s.last())
        }
    }
}

/// Adds the events in turn, each one no longer outstanding: the storage, the
/// outstanding IDs, and the events that were new.
pub open spec fn add_events_model(s: StorageView, out: Seq<U256>, evs: Seq<Event>) -> (StorageView, Seq<U256>, Seq<Event>)
    decreases evs.len(),
{
    if evs.len() == 0 {
        (s, out, Seq::empty())
    } else {
        let (s1, o1, added) = add_events_model(s, out, evs.drop_last());
        let e = evs.last();
        let o2 = drop_id(o1, id_of(e));
        let (s2, r) = storage_add_event(s1, e);
        (s2, o2, if r {
            added.push(e)
        } else {
            added
        })
    }
}

/// The announced IDs that are neither stored nor already requested.
pub open spec fn unknown_model(ids: Seq<U256>, known: Seq<Seq<u8>>, out: Seq<U256>) -> Seq<U256>
    decreases ids.len(),
{
    if ids.len() == 0 {
        Seq::empty()
    } else {
        let r = unknown_model(ids.drop_last(), known, out);
        if !known.contains(ids.last().bytes@) && !out.contains(ids.last()) {
            r.push(ids.last())
        } else {
            r
        }
    }
}

/// A request for the event IDs to every node of `ids` not connected before, but
/// this one.
pub open spec fn node_list_model(ids: Seq<NodeID>, known: Seq<NodeID>, id: NodeID) -> Seq<InternOutView>
    decreases ids.len(),
{
    if ids.len() == 0 {
        Seq::empty()
    } else {
        let r = node_list_model(ids.drop_last(), known, id);
        let n = ids.last();
        if !known.contains(n) && n != id {
            r.push(InternOutView::Network(n, ModuleMessageView::RequestEventIDs))
        } else {
            r
        }
    }
}

pub open spec fn add_event_model(m: InternModel, e: Event) -> (InternModel, Seq<InternOutView>) {
    let (s, r) = storage_add_event(m.storage, e);
    if r {
        (
            InternModel { storage: s, modified: true, ..m },
            send_events_model(m.nodes, m.id, m.id, seq![e]),
        )
    } else {
        (InternModel { storage: s, ..m }, Seq::empty())
    }
}

/// The identifiers of the stored events, as values.
pub open spec fn stored_ids(s: StorageView) -> Seq<U256> {
    storage_event_ids(s).map_values(|b: Seq<u8>| id_from_bytes(b))
}

/// Handles a message from another node.
pub open spec fn node_message_model(m: InternModel, src: NodeID, msg: ModuleMessageView) -> (InternModel, Seq<InternOutView>) {
    match msg {
        ModuleMessageView::KnownEventIDs(ids) => {
            let unknown = unknown_model(ids, storage_event_ids(m.storage), m.outstanding);
            if unknown.len() > 0 {
                (
                    InternModel { outstanding: m.outstanding + unknown, ..m },
                    seq![InternOutView::Network(src, ModuleMessageView::RequestEvents(unknown))],
                )
            } else {
                (m, Seq::empty())
            }
        },
        ModuleMessageView::Events(evs) => {
            let (s, o, added) = add_events_model(m.storage, m.outstanding, evs);
            (
                InternModel {
                    storage: s,
                    outstanding: o,
                    modified: m.modified || added.len() > 0,
                    ..m
                },
                send_events_model(m.nodes, m.id, src, added),
            )
        },
        ModuleMessageView::RequestEvents(ids) => {
            let evs = storage_events_by_ids(m.storage, ids);
            (m, if evs.len() > 0 {
                seq![InternOutView::Network(src, ModuleMessageView::Events(evs))]
            } else {
                Seq::empty()
            })
        },
        ModuleMessageView::RequestEventIDs => (
            m,
            seq![
                InternOutView::Network(
                    src,
                    ModuleMessageView::KnownEventIDs(stored_ids(m.storage)),
                ),
            ],
        ),
    }
}

/// Forgets the requested events and asks every connected node for its event IDs.
pub open spec fn tick_model(m: InternModel) -> (InternModel, Seq<InternOutView>) {
    (
        InternModel { outstanding: Seq::empty(), ..m },
        m.nodes.map_values(|n: NodeID| InternOutView::Network(n, ModuleMessageView::RequestEventIDs)),
    )
}

/// Takes the connected nodes, asking the new ones for their event IDs.
pub open spec fn nodes_model(m: InternModel, ids: Seq<NodeID>) -> (InternModel, Seq<InternOutView>) {
    (InternModel { nodes: ids, ..m }, node_list_model(ids, m.nodes, m.id))
}

/// Handles one incoming message.
pub open spec fn step_model(m: InternModel, msg: InternInView) -> (InternModel, Seq<InternOutView>) {
    match msg {
        InternInView::Tick => {
            let t = if m.ticks == usize::MAX {
                m.ticks
            } else {
                (m.ticks + 1) as usize
            };
            if t >= 3 {
                tick_model(InternModel { ticks: t, ..m })
            } else {
                (InternModel { ticks: t, ..m }, Seq::empty())
            }
        },
        InternInView::Network(RandomOutView::NodeIDsConnected(ids)) => nodes_model(m, ids),
        InternInView::Network(RandomOutView::NetworkWrapperFromNetwork(src, Some(mm))) => node_message_model(
            m,
            src,
            mm,
        ),
        InternInView::Network(_) => (m, Seq::empty()),
        InternInView::Gossip(GossipIn::AddEvent(e)) => add_event_model(m, e),
    }
}

/// Handles the incoming messages in turn, collecting the outgoing ones.
pub open spec fn process_model(m: InternModel, msgs: Seq<InternInView>) -> (InternModel, Seq<InternOutView>)
    decreases msgs.len(),
{
    if msgs.len() == 0 {
        (m, Seq::empty())
    } else {
        let (m1, o1) = process_model(m, msgs.drop_last());
        let (m2, o2) = step_model(m1, msgs.last());
        (m2, o1 + o2)
    }
}

/// Each announced ID is stored, already requested, or requested now.
proof fn lemma_unknown_covers(ids: Seq<U256>, known: Seq<Seq<u8>>, out: Seq<U256>)
    ensures
        forall|k: int|
            0 <= k < ids.len() ==> known.contains(#[trigger] ids[k].bytes@) || out.contains(ids[k])
                || unknown_model(ids, known, out).contains(ids[k]),
    decreases ids.len(),
{
    if ids.len() > 0 {
        let p = ids.drop_last();
        lemma_unknown_covers(p, known, out);
        let r = unknown_model(p, known, out);
        assert forall|k: int| 0 <= k < ids.len() implies known.contains(#[trigger] ids[k].bytes@)
            || out.contains(ids[k]) || unknown_model(ids, known, out).contains(ids[k]) by {
            if k < ids.len() - 1 {
                assert(p[k] == ids[k]);
                if r.contains(ids[k]) {
                    let j = choose|j: int| 0 <= j < r.len() && r[j] == ids[k];
                    if !known.contains(ids.last().bytes@) && !out.contains(ids.last()) {
                        assert(r.push(ids.last())[j] == ids[k]);
                    }
                }
            } else {
                if !known.contains(ids.last().bytes@) && !out.contains(ids.last()) {
                    assert(r.push(ids.last())[r.len() as int] == ids.last());
                }
            }
        }
    }
}

/// No announced ID is asked for when each is stored or already requested.
proof fn lemma_unknown_empty(ids: Seq<U256>, known: Seq<Seq<u8>>, out: Seq<U256>)
    requires
        forall|k: int|
            0 <= k < ids.len() ==> known.contains(#[trigger] ids[k].bytes@) || out.contains(ids[k]),
    ensures
        unknown_model(ids, known, out).len() == 0,
    decreases ids.len(),
{
    if ids.len() > 0 {
        let p = ids.drop_last();
        assert forall|k: int| 0 <= k < p.len() implies known.contains(#[trigger] p[k].bytes@) || out.contains(p[k]) by {
            assert(p[k] == ids[k]);
        }
        lemma_unknown_empty(p, known, out);
        assert(known.contains(ids[ids.len() - 1].bytes@) || out.contains(ids[ids.len() - 1]));
    }
}

/// Once a node asked for the events of an announcement, the same announcement
/// makes it ask for nothing more, until a tick forgets the requests.
pub proof fn lemma_no_repeated_request(m: InternModel, src: NodeID, ids: Seq<U256>)
    ensures
        node_message_model(
            node_message_model(m, src, ModuleMessageView::KnownEventIDs(ids)).0,
            src,
            ModuleMessageView::KnownEventIDs(ids),
        ).1.len() == 0,
{
    let known = storage_event_ids(m.storage);
    let unknown = unknown_model(ids, known, m.outstanding);
    let m1 = node_message_model(m, src, ModuleMessageView::KnownEventIDs(ids)).0;
    lemma_unknown_covers(ids, known, m.outstanding);
    assert forall|k: int| 0 <= k < ids.len() implies known.contains(#[trigger] ids[k].bytes@)
        || m1.outstanding.contains(ids[k]) by {
        if m.outstanding.contains(ids[k]) {
            let j = choose|j: int| 0 <= j < m.outstanding.len() && m.outstanding[j] == ids[k];
            if unknown.len() > 0 {
                assert(m1.outstanding[j] == ids[k]);
            }
        } else if unknown.contains(ids[k]) {
            let j = choose|j: int| 0 <= j < unknown.len() && unknown[j] == ids[k];
            assert(m1.outstanding[m.outstanding.len() + j] == ids[k]);
        }
    }
    lemma_unknown_empty(ids, known, m1.outstanding);
}

/// An ID given by its bytes is that value.
proof fn lemma_id_from_bytes(x: U256, b: Seq<u8>)
    requires
        x.bytes@ == b,
    ensures
        id_from_bytes(b) == x,
{
    broadcast use vstd::array::group_array_axioms;

    let c = id_from_bytes(b);
    assert(c.bytes@ == x.bytes@);
    assert(c.bytes =~= x.bytes);
}

fn ids_for_exec(evs: &Vec<Event>, node: &NodeID) -> (r: Vec<U256>)
    ensures
        r@ == ids_for(evs@, *node),
{
    let mut r: Vec<U256> = Vec::new();
    let mut i: usize = 0;
    while i < evs.len()
        invariant
            0 <= i <= evs.len(),
            r@ == ids_for(evs@.take(i as int), *node),
        decreases evs.len() - i,
    {
        proof {
            assert(evs@.take(i + 1).drop_last() =~= evs@.take(i as int));
        }
        if !node.same(&evs[i].src) {
            let id = evs[i].get_id();
            proof {
                lemma_id_from_bytes(id, event_id(evs@[i as int]));
            }
            r.push(id);
        }
        i = i + 1;
    }
    proof {
        assert(evs@.take(evs.len() as int) =~= evs@);
    }
    r
}

/// The gossip module: the stored events and what it knows of the other nodes.
pub struct Intern {
    events: EventsStorage,
    id: NodeID,
    nodes: Vec<NodeID>,
    outstanding: Vec<U256>,
    ticks: usize,
    modified: bool,
}

impl Intern {
    pub closed spec fn model(&self) -> InternModel {
        InternModel {
            storage: self.events@,
            id: self.id,
            nodes: self.nodes@,
            outstanding: self.outstanding@,
            ticks: self.ticks,
            modified: self.modified,
        }
    }

    pub closed spec fn wf(&self) -> bool {
        self.events.wf()
    }

    /// A module holding the given events.
    pub fn new(id: NodeID, events: EventsStorage) -> (r: Self)
        requires
            events.wf(),
        ensures
            r.wf(),
            r.model() == (InternModel {
                storage: events@,
                id,
                nodes: Seq::empty(),
                outstanding: Seq::empty(),
                ticks: 0,
                modified: false,
            }),
    {
        Intern { events, id, nodes: Vec::new(), outstanding: Vec::new(), ticks: 0, modified: false }
    }

    /// The stored events.
    pub fn storage(&self) -> (r: &EventsStorage)
        ensures
            r@ == self.model().storage,
            self.wf() ==> r.wf(),
    {
        &self.events
    }

    /// Tells whether the events changed since the last call, and forgets it.
    pub fn take_modified(&mut self) -> (r: bool)
        requires
            old(self).wf(),
        ensures
            final(self).wf(),
            r == old(self).model().modified,
            final(self).model() == (InternModel { modified: false, ..old(self).model() }),
    {
        let r = self.modified;
        self.modified = false;
        r
    }

    fn send_events(&self, src: &NodeID, evs: &Vec<Event>) -> (r: Vec<InternOut>)
        ensures
            outs_view(r@) == send_events_model(self.model().nodes, self.id, *src, evs@),
    {
        let mut r: Vec<InternOut> = Vec::new();
        let mut i: usize = 0;
        while i < self.nodes.len()
            invariant
                0 <= i <= self.nodes.len(),
                outs_view(r@) == announce(self.nodes@.take(i as int), self.id, *src, evs@),
            decreases self.nodes.len() - i,
        {
            proof {
                assert(self.nodes@.take(i + 1).drop_last() =~= self.nodes@.take(i as int));
            }
            let n = self.nodes[i];
            if !n.same(src) && !n.same(&self.id) {
                let ghost r0 = outs_view(r@);
                r.push(InternOut::Network(n, ModuleMessage::KnownEventIDs(ids_for_exec(evs, &n))));
                proof {
                    assert(outs_view(r@) =~= r0.push(
                        InternOutView::Network(n, ModuleMessageView::KnownEventIDs(ids_for(evs@, n))),
                    ));
                }
            }
            i = i + 1;
        }
        proof {
            assert(self.nodes@.take(self.nodes.len() as int) =~= self.nodes@);
        }
        let ghost a = outs_view(r@);
        let mut k: usize = 0;
        while k < evs.len()
            invariant
                0 <= k <= evs.len(),
                outs_view(r@) == a + evs@.take(k as int).map_values(
                    |e: Event| InternOutView::Gossip(GossipOut::NewEvent(e)),
                ),
            decreases evs.len() - k,
        {
            let ghost r0 = outs_view(r@);
            r.push(InternOut::Gossip(GossipOut::NewEvent(evs[k].clone())));
            proof {
                assert(outs_view(r@) =~= r0.push(InternOutView::Gossip(GossipOut::NewEvent(evs@[k as int]))));
                assert(evs@.take(k + 1).map_values(|e: Event| InternOutView::Gossip(GossipOut::NewEvent(e)))
                    =~= evs@.take(k as int).map_values(|e: Event| InternOutView::Gossip(GossipOut::NewEvent(e))).push(
                    InternOutView::Gossip(GossipOut::NewEvent(evs@[k as int])),
                ));
            }
            k = k + 1;
        }
        proof {
            assert(evs@.take(evs.len() as int) =~= evs@);
        }
        r
    }

    /// Adds an event if it's not known yet or not too old, and announces it.
    pub(crate) fn add_event(&mut self, e: Event) -> (r: Vec<InternOut>)
        requires
            old(self).wf(),
        ensures
            final(self).wf(),
            (final(self).model(), outs_view(r@)) == add_event_model(old(self).model(), e),
    {
        let copy = e.clone();
        if self.events.add_event(e) {
            self.modified = true;
            let v = vec![copy];
            proof {
                assert(v@ =~= seq![copy]);
            }
            let id = self.id;
            self.send_events(&id, &v)
        } else {
            Vec::new()
        }
    }

    /// Forgets that the event `id` is outstanding.
    fn drop_outstanding(&mut self, id: &U256)
        requires
            old(self).wf(),
        ensures
            final(self).wf(),
            final(self).model() == (InternModel {
                outstanding: drop_id(old(self).model().outstanding, *id),
                ..old(self).model()
            }),
    {
        let mut kept: Vec<U256> = Vec::new();
        let mut i: usize = 0;
        while i < self.outstanding.len()
            invariant
                0 <= i <= self.outstanding.len(),
                kept@ == drop_id(self.outstanding@.take(i as int), *id),
            decreases self.outstanding.len() - i,
        {
            proof {
                assert(self.outstanding@.take(i + 1).drop_last() =~= self.outstanding@.take(i as int));
            }
            if !self.outstanding[i].same(id) {
                kept.push(self.outstanding[i]);
            }
            i = i + 1;
        }
        proof {
            assert(self.outstanding@.take(self.outstanding.len() as int) =~= self.outstanding@);
        }
        self.outstanding = kept;
    }

    /// Stores the events in turn, each no longer outstanding; returns the new ones.
    pub(crate) fn add_events(&mut self, evs: Vec<Event>) -> (r: Vec<Event>)
        requires
            old(self).wf(),
        ensures
            final(self).wf(),
            (final(self).model().storage, final(self).model().outstanding, r@) == add_events_model(
                old(self).model().storage,
                old(self).model().outstanding,
                evs@,
            ),
            final(self).model() == (InternModel {
                storage: final(self).model().storage,
                outstanding: final(self).model().outstanding,
                ..old(self).model()
            }),
    {
        let mut added: Vec<Event> = Vec::new();
        let mut i: usize = 0;
        while i < evs.len()
            invariant
                0 <= i <= evs.len(),
                self.wf(),
                (self.model().storage, self.model().outstanding, added@) == add_events_model(
                    old(self).model().storage,
                    old(self).model().outstanding,
                    evs@.take(i as int),
                ),
                self.model() == (InternModel {
                    storage: self.model().storage,
                    outstanding: self.model().outstanding,
                    ..old(self).model()
                }),
            decreases evs.len() - i,
        {
            proof {
                assert(evs@.take(i + 1).drop_last() =~= evs@.take(i as int));
            }
            let e = evs[i].clone();
            let id = e.get_id();
            proof {
                lemma_id_from_bytes(id, event_id(e));
            }
            self.drop_outstanding(&id);
            let copy = e.clone();
            if self.events.add_event(e) {
                added.push(copy);
            }
            i = i + 1;
        }
        proof {
            assert(evs@.take(evs.len() as int) =~= evs@);
        }
        added
    }

    /// The announced IDs that are neither stored nor already requested.
    pub(crate) fn unknown_ids(&self, ids: &Vec<U256>) -> (r: Vec<U256>)
        requires
            self.wf(),
        ensures
            r@ == unknown_model(ids@, storage_event_ids(self.model().storage), self.model().outstanding),
    {
        let our_ids = self.events.event_ids();
        let ghost known = storage_event_ids(self.model().storage);
        let mut r: Vec<U256> = Vec::new();
        let mut i: usize = 0;
        while i < ids.len()
            invariant
                0 <= i <= ids.len(),
                our_ids@.map_values(|u: U256| u.bytes@) == known,
                r@ == unknown_model(ids@.take(i as int), known, self.model().outstanding),
            decreases ids.len() - i,
        {
            proof {
                assert(ids@.take(i + 1).drop_last() =~= ids@.take(i as int));
            }
            let id = ids[i];
            let found = ids_contain(&our_ids, &id);
            proof {
                if found {
                    let j = choose|j: int| 0 <= j < our_ids@.len() && our_ids@[j] == id;
                    assert(known[j] == id.bytes@);
                }
                if known.contains(id.bytes@) {
                    let j = choose|j: int| 0 <= j < known.len() && known[j] == id.bytes@;
                    assert(our_ids@[j].bytes@ == id.bytes@);
                    lemma_id_from_bytes(our_ids@[j], id.bytes@);
                    lemma_id_from_bytes(id, id.bytes@);
                    assert(our_ids@.contains(id));
                }
            }
            if !found && !ids_contain(&self.outstanding, &id) {
                r.push(id);
            }
            i = i + 1;
        }
        proof {
            assert(ids@.take(ids.len() as int) =~= ids@);
        }
        r
    }

    /// The IDs of the stored events, as values.
    fn stored_ids_exec(&self) -> (r: Vec<U256>)
        requires
            self.wf(),
        ensures
            r@ == stored_ids(self.model().storage),
    {
        let r = self.events.event_ids();
        proof {
            let known = storage_event_ids(self.model().storage);
            let mapped = r@.map_values(|u: U256| u.bytes@);
            assert(mapped.len() == r@.len());
            assert(known.len() == r@.len());
            let ids = stored_ids(self.model().storage);
            assert(ids.len() == r@.len());
            assert forall|j: int| 0 <= j < r@.len() implies #[trigger] r@[j] == ids[j] by {
                assert(mapped[j] == r@[j].bytes@);
                assert(known[j] == r@[j].bytes@);
                assert(ids[j] == id_from_bytes(known[j]));
                lemma_id_from_bytes(r@[j], known[j]);
            }
            assert(r@ =~= ids);
        }
        r
    }

    /// Handles a message from another node.
    pub(crate) fn node_message(&mut self, src: NodeID, msg: ModuleMessage) -> (r: Vec<InternOut>)
        requires
            old(self).wf(),
        ensures
            final(self).wf(),
            (final(self).model(), outs_view(r@)) == node_message_model(old(self).model(), src, msg@),
    {
        let ghost m = self.model();
        match msg {
            ModuleMessage::KnownEventIDs(ids) => {
                let unknown = self.unknown_ids(&ids);
                if unknown.len() > 0 {
                    let mut i: usize = 0;
                    let ghost o0 = self.outstanding@;
                    while i < unknown.len()
                        invariant
                            0 <= i <= unknown.len(),
                            self.wf(),
                            self.outstanding@ == o0 + unknown@.take(i as int),
                            self.model() == (InternModel { outstanding: self.outstanding@, ..m }),
                        decreases unknown.len() - i,
                    {
                        self.outstanding.push(unknown[i]);
                        proof {
                            assert(o0 + unknown@.take(i + 1) =~= (o0 + unknown@.take(i as int)).push(unknown@[i as int]));
                        }
                        i = i + 1;
                    }
                    proof {
                        assert(unknown@.take(unknown.len() as int) =~= unknown@);
                    }
                    let r = vec![InternOut::Network(src, ModuleMessage::RequestEvents(unknown))];
                    proof {
                        assert(outs_view(r@) =~= node_message_model(m, src, msg@).1);
                    }
                    r
                } else {
                    let r: Vec<InternOut> = Vec::new();
                    proof {
                        assert(outs_view(r@) =~= Seq::<InternOutView>::empty());
                    }
                    r
                }
            },
            ModuleMessage::Events(evs) => {
                let added = self.add_events(evs);
                if added.len() > 0 {
                    self.modified = true;
                }
                self.send_events(&src, &added)
            },
            ModuleMessage::RequestEvents(ids) => {
                let evs = self.events.get_events_by_ids(ids);
                let r = if evs.len() > 0 {
                    vec![InternOut::Network(src, ModuleMessage::Events(evs))]
                } else {
                    Vec::new()
                };
                proof {
                    assert(outs_view(r@) =~= node_message_model(m, src, msg@).1);
                }
                r
            },
            ModuleMessage::RequestEventIDs => {
                let r = vec![InternOut::Network(src, ModuleMessage::KnownEventIDs(self.stored_ids_exec()))];
                proof {
                    assert(outs_view(r@) =~= node_message_model(m, src, msg@).1);
                }
                r
            },
        }
    }

    /// Forgets the requested events and asks every connected node for its event IDs.
    pub(crate) fn tick(&mut self) -> (r: Vec<InternOut>)
        requires
            old(self).wf(),
        ensures
            final(self).wf(),
            (final(self).model(), outs_view(r@)) == tick_model(old(self).model()),
    {
        self.outstanding = Vec::new();
        let ghost m1 = self.model();
        let mut r: Vec<InternOut> = Vec::new();
        let mut i: usize = 0;
        while i < self.nodes.len()
            invariant
                0 <= i <= self.nodes.len(),
                self.wf(),
                self.model() == m1,
                outs_view(r@) == self.nodes@.take(i as int).map_values(
                    |n: NodeID| InternOutView::Network(n, ModuleMessageView::RequestEventIDs),
                ),
            decreases self.nodes.len() - i,
        {
            let ghost r0 = outs_view(r@);
            r.push(InternOut::Network(self.nodes[i], ModuleMessage::RequestEventIDs));
            proof {
                assert(outs_view(r@) =~= r0.push(
                    InternOutView::Network(self.nodes@[i as int], ModuleMessageView::RequestEventIDs),
                ));
                assert(self.nodes@.take(i + 1).map_values(
                    |n: NodeID| InternOutView::Network(n, ModuleMessageView::RequestEventIDs),
                ) =~= self.nodes@.take(i as int).map_values(
                    |n: NodeID| InternOutView::Network(n, ModuleMessageView::RequestEventIDs),
                ).push(InternOutView::Network(self.nodes@[i as int], ModuleMessageView::RequestEventIDs)));
            }
            i = i + 1;
        }
        proof {
            assert(self.nodes@.take(self.nodes.len() as int) =~= self.nodes@);
            assert(self.outstanding@ =~= Seq::<U256>::empty());
        }
        r
    }

    /// Takes the connected nodes, asking the new ones for their event IDs.
    pub(crate) fn node_list(&mut self, ids: Vec<NodeID>) -> (r: Vec<InternOut>)
        requires
            old(self).wf(),
        ensures
            final(self).wf(),
            (final(self).model(), outs_view(r@)) == nodes_model(old(self).model(), ids@),
    {
        let ghost m = self.model();
        let mut r: Vec<InternOut> = Vec::new();
        let mut i: usize = 0;
        while i < ids.len()
            invariant
                0 <= i <= ids.len(),
                self.model() == m,
                outs_view(r@) == node_list_model(ids@.take(i as int), m.nodes, m.id),
            decreases ids.len() - i,
        {
            proof {
                assert(ids@.take(i + 1).drop_last() =~= ids@.take(i as int));
            }
            let n = ids[i];
            if !ids_contain(&self.nodes, &n) && !n.same(&self.id) {
                let ghost r0 = outs_view(r@);
                r.push(InternOut::Network(n, ModuleMessage::RequestEventIDs));
                proof {
                    assert(outs_view(r@) =~= r0.push(
                        InternOutView::Network(n, ModuleMessageView::RequestEventIDs),
                    ));
                }
            }
            i = i + 1;
        }
        proof {
            assert(ids@.take(ids.len() as int) =~= ids@);
        }
        self.nodes = ids;
        r
    }

    /// Handles one incoming message.
    pub fn step(&mut self, msg: InternIn) -> (r: Vec<InternOut>)
        requires
            old(self).wf(),
        ensures
            final(self).wf(),
            (final(self).model(), outs_view(r@)) == step_model(old(self).model(), msg@),
    {
        match msg {
            InternIn::Tick => {
                self.ticks = self.ticks.saturating_add(1);
                if self.ticks >= 3 {
                    self.tick()
                } else {
                    let r: Vec<InternOut> = Vec::new();
                    proof {
                        assert(outs_view(r@) =~= Seq::<InternOutView>::empty());
                    }
                    r
                }
            },
            InternIn::Network(RandomOut::NodeIDsConnected(ids)) => self.node_list(ids),
            InternIn::Network(RandomOut::NetworkWrapperFromNetwork(src, Some(mm))) => self.node_message(
                src,
                mm,
            ),
            InternIn::Network(_) => {
                let r: Vec<InternOut> = Vec::new();
                proof {
                    assert(outs_view(r@) =~= Seq::<InternOutView>::empty());
                }
                r
            },
            InternIn::Gossip(GossipIn::AddEvent(e)) => self.add_event(e),
        }
    }

    /// Handles the incoming messages in turn, and returns all outgoing messages.
    pub fn messages(&mut self, msgs: Vec<InternIn>) -> (r: Vec<InternOut>)
        requires
            old(self).wf(),
        ensures
            final(self).wf(),
            (final(self).model(), outs_view(r@)) == process_model(
                old(self).model(),
                msgs@.map_values(|i: InternIn| i@),
            ),
    {
        let ghost m0 = self.model();
        let ghost iv = msgs@.map_values(|i: InternIn| i@);
        let mut inputs = msgs;
        let ghost orig = inputs@;
        let mut out: Vec<InternOut> = Vec::new();
        let mut k: usize = 0;
        let n = inputs.len();
        while k < n
            invariant
                0 <= k <= n,
                n == iv.len(),
                n == orig.len(),
                iv == orig.map_values(|i: InternIn| i@),
                inputs@.len() == n - k,
                forall|j: int| 0 <= j < n - k ==> #[trigger] inputs@[j] == orig[k + j],
                self.wf(),
                (self.model(), outs_view(out@)) == process_model(m0, iv.take(k as int)),
            decreases n - k,
        {
            let msg = inputs.remove(0);
            proof {
                assert(msg == orig[k as int]);
                assert(msg@ == iv[k as int]);
                assert(iv.take(k + 1).drop_last() =~= iv.take(k as int));
                assert(iv.take(k + 1).last() == iv[k as int]);
            }
            let ghost o0 = outs_view(out@);
            let mut o = self.step(msg);
            let ghost ov = outs_view(o@);
            out.append(&mut o);
            proof {
                assert(outs_view(out@) =~= o0 + ov);
            }
            k = k + 1;
        }
        proof {
            assert(iv.take(n as int) =~= iv);
        }
        out
    }
}

} // verus!
