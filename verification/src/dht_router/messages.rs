use crate::dht_router::kademlia::{
    depth_of, lemma_add_node_kept, new_knode, BucketStatus, BucketView, Config, Kademlia, KademliaView,
};
use crate::nodeid::{ids_contain, NodeID, U256};
use vstd::prelude::*;

verus! {

/// A message of another module, encoded, as it travels through the network.
#[derive(Debug)]
pub struct NetworkWrapper {
    pub module: String,
    pub msg: String,
}

impl Clone for NetworkWrapper {
    fn clone(&self) -> (r: Self)
        ensures
            r == *self,
    {
        NetworkWrapper { module: self.module.clone(), msg: self.msg.clone() }
    }
}

/// These are the messages which will be exchanged between the nodes for this
/// module.
#[derive(Debug)]
pub enum ModuleMessage {
    /// Request if a node is alive or not
    Ping,
    /// Answer for a Ping
    Pong,
    /// Request the IDs of all connected nodes
    ConnectedIDsRequest,
    /// Returns all connected IDs,
    ConnectedIDsReply(Vec<NodeID>),
    /// A message going only to direct neighbours.
    Neighbour(NetworkWrapper),
    /// Sends the message to the closest node and emits messages
    /// on the path.
    Closest(NodeID, U256, NetworkWrapper),
    /// Sends the message to a specific node, using Kademlia routing.
    /// No messages are emitted during routing.
    Direct(NodeID, NodeID, NetworkWrapper),
}

pub enum ModuleMessageView {
    Ping,
    Pong,
    ConnectedIDsRequest,
    ConnectedIDsReply(Seq<NodeID>),
    Neighbour(NetworkWrapper),
    Closest(NodeID, U256, NetworkWrapper),
    Direct(NodeID, NodeID, NetworkWrapper),
}

impl ModuleMessage {
    pub open spec fn view(&self) -> ModuleMessageView {
        match self {
            ModuleMessage::Ping => ModuleMessageView::Ping,
            ModuleMessage::Pong => ModuleMessageView::Pong,
            ModuleMessage::ConnectedIDsRequest => ModuleMessageView::ConnectedIDsRequest,
            ModuleMessage::ConnectedIDsReply(ids) => ModuleMessageView::ConnectedIDsReply(ids@),
            ModuleMessage::Neighbour(w) => ModuleMessageView::Neighbour(*w),
            ModuleMessage::Closest(o, k, w) => ModuleMessageView::Closest(*o, *k, *w),
            ModuleMessage::Direct(o, d, w) => ModuleMessageView::Direct(*o, *d, *w),
        }
    }
}

/// The requests of the users of the router.
#[derive(Debug)]
pub enum DHTRouterIn {
    /// Sends a message to all nodes connected directly to this node.
    MessageBroadcast(NetworkWrapper),
    /// Routes the message to the closest node representing the ID.
    MessageClosest(U256, NetworkWrapper),
    /// Routes the message to a specific node. No guarantee can be given
    /// as to the delivery of the message.
    MessageDirect(NodeID, NetworkWrapper),
    /// Sends the message to this neighbour, if it is still connected.
    MessageNeighbour(NodeID, NetworkWrapper),
}

/// What the router hands to its users.
#[derive(Debug)]
pub enum DHTRouterOut {
    // MessageRouting(origin, last_hop, next_hop, key, msg)
    MessageRouting(NodeID, NodeID, NodeID, U256, NetworkWrapper),
    // MessageClosest(origin, last_hop, key, msg)
    MessageClosest(NodeID, NodeID, U256, NetworkWrapper),
    // MessageDest(origin, last_hop, msg)
    MessageDest(NodeID, NodeID, NetworkWrapper),
    NodeList(Vec<NodeID>),
    MessageNeighbour(NodeID, NetworkWrapper),
    SystemRealm(U256),
}

pub enum DHTRouterOutView {
    MessageRouting(NodeID, NodeID, NodeID, U256, NetworkWrapper),
    MessageClosest(NodeID, NodeID, U256, NetworkWrapper),
    MessageDest(NodeID, NodeID, NetworkWrapper),
    NodeList(Seq<NodeID>),
    MessageNeighbour(NodeID, NetworkWrapper),
    SystemRealm(U256),
}

impl DHTRouterOut {
    pub open spec fn view(&self) -> DHTRouterOutView {
        match self {
            DHTRouterOut::MessageRouting(o, l, n, k, w) => DHTRouterOutView::MessageRouting(
                *o,
                *l,
                *n,
                *k,
                *w,
            ),
            DHTRouterOut::MessageClosest(o, l, k, w) => DHTRouterOutView::MessageClosest(
                *o,
                *l,
                *k,
                *w,
            ),
            DHTRouterOut::MessageDest(o, l, w) => DHTRouterOutView::MessageDest(*o, *l, *w),
            DHTRouterOut::NodeList(ids) => DHTRouterOutView::NodeList(ids@),
            DHTRouterOut::MessageNeighbour(f, w) => DHTRouterOutView::MessageNeighbour(*f, *w),
            DHTRouterOut::SystemRealm(r) => DHTRouterOutView::SystemRealm(*r),
        }
    }
}

/// The random values drawn for handling one message from the network: whether to
/// give a blacklisted node another chance (drawn with a probability of one in
/// twenty), which one, and which of the possible next hops to take.
#[derive(Clone, Copy, Debug)]
pub struct Draw {
    pub whitelist: bool,
    pub index: usize,
    pub choice: usize,
}

/// What the network hands to the router, decoded.
#[derive(Debug)]
pub enum RouterOut {
    /// The IDs of the nodes whose information became available.
    NodeInfoAvailable(Vec<NodeID>),
    NodeIDsConnected(Vec<NodeID>),
    /// A message from a node: the message, if it could be decoded, and the request
    /// ID if it carries a request to read a Flo.
    NetworkWrapperFromNetwork(NodeID, Option<ModuleMessage>, Option<U256>, Draw),
    /// The system realm, if the system configuration names one.
    SystemConfig(Option<U256>),
    Disconnected(NodeID),
    Other,
}

pub enum RouterOutView {
    NodeInfoAvailable(Seq<NodeID>),
    NodeIDsConnected(Seq<NodeID>),
    NetworkWrapperFromNetwork(NodeID, Option<ModuleMessageView>, Option<U256>, Draw),
    SystemConfig(Option<U256>),
    Disconnected(NodeID),
    Other,
}

pub open spec fn opt_view(o: Option<ModuleMessage>) -> Option<ModuleMessageView> {
    match o {
        Some(mm) => Some(mm@),
        None => None,
    }
}

impl RouterOut {
    pub open spec fn view(&self) -> RouterOutView {
        match self {
            RouterOut::NodeInfoAvailable(ids) => RouterOutView::NodeInfoAvailable(ids@),
            RouterOut::NodeIDsConnected(ids) => RouterOutView::NodeIDsConnected(ids@),
            RouterOut::NetworkWrapperFromNetwork(f, m, r, d) => RouterOutView::NetworkWrapperFromNetwork(
                *f,
                opt_view(*m),
                *r,
                *d,
            ),
            RouterOut::SystemConfig(r) => RouterOutView::SystemConfig(*r),
            RouterOut::Disconnected(id) => RouterOutView::Disconnected(*id),
            RouterOut::Other => RouterOutView::Other,
        }
    }
}

/// All messages coming into the router.
#[derive(Debug)]
pub enum InternIn {
    DHTRouter(DHTRouterIn),
    Network(RouterOut),
    Tick,
}

pub enum InternInView {
    DHTRouter(DHTRouterIn),
    Network(RouterOutView),
    Tick,
}

impl InternIn {
    pub open spec fn view(&self) -> InternInView {
        match self {
            InternIn::DHTRouter(m) => InternInView::DHTRouter(*m),
            InternIn::Network(m) => InternInView::Network(m@),
            InternIn::Tick => InternInView::Tick,
        }
    }
}

/// All messages going out of the router: to its users, or to a node, to be
/// encoded and sent.
#[derive(Debug)]
pub enum InternOut {
    DHTRouter(DHTRouterOut),
    Network(NodeID, ModuleMessage),
}

pub enum InternOutView {
    DHTRouter(DHTRouterOutView),
    Network(NodeID, ModuleMessageView),
}

impl InternOut {
    pub open spec fn view(&self) -> InternOutView {
        match self {
            InternOut::DHTRouter(m) => InternOutView::DHTRouter(m@),
            InternOut::Network(d, m) => InternOutView::Network(*d, m@),
        }
    }
}

pub open spec fn outs_view(v: Seq<InternOut>) -> Seq<InternOutView> {
    v.map_values(|o: InternOut| o@)
}

/// What the router holds.
pub struct RouterModel {
    pub kad: KademliaView,
    /// The nodes connected to this one.
    pub connected: Seq<NodeID>,
    /// For each request to read a Flo, the node it was sent on to.
    pub in_flight: Seq<(U256, U256)>,
    pub blacklisted: Seq<U256>,
    /// Blacklist nodes that do not answer requests, for experiments.
    pub local_blacklists: bool,
}

pub open spec fn with_kad(m: RouterModel, kad: KademliaView) -> RouterModel {
    RouterModel { kad, ..m }
}

/// The first element, if any.
pub open spec fn first_of(s: Seq<NodeID>) -> Option<NodeID> {
    if s.len() > 0 {
        Some(s[0])
    } else {
        None
    }
}

/// The next hops towards `key`: `key` itself if it is connected, else the closest
/// nodes of the routing table.
pub open spec fn closest_or_connected(m: RouterModel, key: U256, last: Option<U256>) -> Seq<NodeID> {
    if m.connected.contains(key) {
        seq![key]
    } else {
        m.kad.route_closest(key, last)
    }
}

/// The routing table after adding the nodes, if it can count them.
pub open spec fn add_nodes_kad(kad: KademliaView, ids: Seq<NodeID>) -> KademliaView {
    if kad.total() + ids.len() <= usize::MAX {
        kad.add_nodes(ids)
    } else {
        kad
    }
}

pub open spec fn node_list(m: RouterModel) -> Seq<InternOutView> {
    seq![InternOutView::DHTRouter(DHTRouterOutView::NodeList(m.kad.active_nodes()))]
}

/// Adds the nodes and announces the active nodes.
pub open spec fn add_nodes_model(m: RouterModel, ids: Seq<NodeID>) -> (RouterModel, Seq<InternOutView>) {
    let m1 = with_kad(m, add_nodes_kad(m.kad, ids));
    (m1, node_list(m1))
}

/// The same message to each of the nodes.
pub open spec fn to_each(ids: Seq<NodeID>, msg: ModuleMessageView) -> Seq<InternOutView> {
    ids.map_values(|id: NodeID| InternOutView::Network(id, msg))
}

/// One tick: pings the nodes that need it and asks all active nodes for their
/// connections. A table whose counters would overflow is not ticked.
pub open spec fn tick_model(m: RouterModel) -> (RouterModel, Seq<InternOutView>) {
    if m.kad.tickable() {
        let (kad, _deleted, ping) = m.kad.tick();
        (
            with_kad(m, kad),
            to_each(ping, ModuleMessageView::Ping) + to_each(
                kad.active_nodes(),
                ModuleMessageView::ConnectedIDsRequest,
            ),
        )
    } else {
        (m, to_each(m.kad.active_nodes(), ModuleMessageView::ConnectedIDsRequest))
    }
}

/// How many requests in flight went to `node`.
pub open spec fn count_node(inf: Seq<(U256, U256)>, node: U256) -> nat
    decreases inf.len(),
{
    if inf.len() == 0 {
        0
    } else {
        count_node(inf.drop_last(), node) + if inf.last().1 == node {
            1nat
        } else {
            0nat
        }
    }
}

/// The nodes that were sent more than ten requests still in flight, in the order
/// they first appear.
pub open spec fn bad_nodes(inf: Seq<(U256, U256)>, all: Seq<(U256, U256)>) -> Seq<U256>
    decreases inf.len(),
{
    if inf.len() == 0 {
        Seq::empty()
    } else {
        let r = bad_nodes(inf.drop_last(), all);
        let n = inf.last().1;
        if count_node(all, n) > 10 && !r.contains(n) {
            r.push(n)
        } else {
            r
        }
    }
}

/// The requests in flight that were not sent to `node`.
pub open spec fn drop_node(inf: Seq<(U256, U256)>, node: U256) -> Seq<(U256, U256)>
    decreases inf.len(),
{
    if inf.len() == 0 {
        Seq::empty()
    } else {
        let r = drop_node(inf.drop_last(), node);
        if inf.last().1 == node {
            r
        } else {
            r.push(inf.last())
        }
    }
}

/// Adds `node` to the blacklist, if it is not there yet.
pub open spec fn insert_id(s: Seq<U256>, node: U256) -> Seq<U256> {
    if s.contains(node) {
        s
    } else {
        s.push(node)
    }
}

/// Forgets the requests sent to each of the nodes, removes them from the routing
/// table and blacklists them, in turn.
pub open spec fn blacklist_all(m: RouterModel, nodes: Seq<U256>) -> RouterModel
    decreases nodes.len(),
{
    if nodes.len() == 0 {
        m
    } else {
        let m1 = blacklist_all(m, nodes.drop_last());
        let n = nodes.last();
        RouterModel {
            in_flight: drop_node(m1.in_flight, n),
            kad: m1.kad.remove_node(n),
            blacklisted: insert_id(m1.blacklisted, n),
            ..m1
        }
    }
}

/// Blacklists the nodes that were sent more than ten requests still in flight.
pub open spec fn blacklist_model(m: RouterModel) -> RouterModel {
    if m.local_blacklists {
        blacklist_all(m, bad_nodes(m.in_flight, m.in_flight))
    } else {
        m
    }
}

/// Gives a blacklisted node another chance, if the draw says so.
pub open spec fn whitelist_model(m: RouterModel, d: Draw) -> RouterModel {
    if m.local_blacklists && m.blacklisted.len() > 0 && d.whitelist {
        let i = d.index as int % m.blacklisted.len() as int;
        let node = m.blacklisted[i];
        RouterModel {
            kad: if m.kad.total() < usize::MAX {
                m.kad.add_node(node)
            } else {
                m.kad
            },
            blacklisted: m.blacklisted.remove(i),
            ..m
        }
    } else {
        m
    }
}

/// Records that the request `id` went to `node`, replacing an earlier record.
pub open spec fn set_flight(inf: Seq<(U256, U256)>, id: U256, node: U256) -> Seq<(U256, U256)> {
    if exists|i: int| 0 <= i < inf.len() && #[trigger] inf[i].0 == id {
        inf.update(choose|i: int| 0 <= i < inf.len() && #[trigger] inf[i].0 == id, (id, node))
    } else {
        inf.push((id, node))
    }
}

/// Handles a message on its way to the node closest to `key`.
pub open spec fn message_closest_model(
    m: RouterModel,
    orig: NodeID,
    last_hop: NodeID,
    key: U256,
    msg: NetworkWrapper,
    readflo: Option<U256>,
    d: Draw,
) -> (RouterModel, Seq<InternOutView>) {
    let m1 = blacklist_model(m);
    let closest = first_of(closest_or_connected(m1, key, Some(last_hop)));
    let m2 = whitelist_model(m1, d);
    match closest {
        Some(next_hop) => (
            match readflo {
                Some(id) => RouterModel { in_flight: set_flight(m2.in_flight, id, next_hop), ..m2 },
                None => m2,
            },
            seq![
                InternOutView::Network(next_hop, ModuleMessageView::Closest(orig, key, msg)),
                InternOutView::DHTRouter(
                    DHTRouterOutView::MessageRouting(orig, last_hop, next_hop, key, msg),
                ),
            ],
        ),
        None => (
            m2,
            if key == m.kad.root {
                seq![InternOutView::DHTRouter(DHTRouterOutView::MessageDest(orig, last_hop, msg))]
            } else {
                seq![
                    InternOutView::DHTRouter(
                        DHTRouterOutView::MessageClosest(orig, last_hop, key, msg),
                    ),
                ]
            },
        ),
    }
}

/// Handles a message on its way to the node `dst`.
pub open spec fn message_direct_model(
    m: RouterModel,
    orig: NodeID,
    last: NodeID,
    dst: NodeID,
    msg: NetworkWrapper,
    d: Draw,
) -> Seq<InternOutView> {
    if dst == m.kad.root {
        seq![InternOutView::DHTRouter(DHTRouterOutView::MessageDest(orig, last, msg))]
    } else {
        let hops = closest_or_connected(m, dst, Some(last));
        if hops.len() == 0 {
            Seq::empty()
        } else {
            seq![
                InternOutView::Network(
                    hops[d.choice as int % hops.len() as int],
                    ModuleMessageView::Direct(orig, dst, msg),
                ),
            ]
        }
    }
}

/// Handles a message from another node; a node that sends a message is active.
pub open spec fn process_node_message_model(
    m: RouterModel,
    from: NodeID,
    msg: Option<ModuleMessageView>,
    readflo: Option<U256>,
    d: Draw,
) -> (RouterModel, Seq<InternOutView>) {
    let (m1, out) = match msg {
        Some(mm) => match mm {
            ModuleMessageView::Ping => (m, seq![InternOutView::Network(from, ModuleMessageView::Pong)]),
            ModuleMessageView::Pong => (m, Seq::empty()),
            ModuleMessageView::Closest(orig, key, w) => message_closest_model(
                m,
                orig,
                from,
                key,
                w,
                readflo,
                d,
            ),
            ModuleMessageView::Direct(orig, dst, w) => (
                m,
                message_direct_model(m, orig, from, dst, w, d),
            ),
            ModuleMessageView::Neighbour(w) => (
                m,
                seq![InternOutView::DHTRouter(DHTRouterOutView::MessageNeighbour(from, w))],
            ),
            ModuleMessageView::ConnectedIDsRequest => (
                m,
                seq![
                    InternOutView::Network(
                        from,
                        ModuleMessageView::ConnectedIDsReply(m.kad.active_nodes()),
                    ),
                ],
            ),
            ModuleMessageView::ConnectedIDsReply(nodes) => add_nodes_model(m, nodes),
        },
        None => (m, Seq::empty()),
    };
    let (kad, active) = m1.kad.node_active(from);
    let m2 = with_kad(m1, kad);
    (m2, if active {
        out + node_list(m2)
    } else {
        out
    })
}

/// Handles a request of a user of the router.
pub open spec fn msg_dht_model(m: RouterModel, msg: DHTRouterIn) -> Seq<InternOutView> {
    match msg {
        DHTRouterIn::MessageBroadcast(w) => to_each(
            m.kad.active_nodes(),
            ModuleMessageView::Neighbour(w),
        ),
        DHTRouterIn::MessageClosest(key, w) => match first_of(closest_or_connected(m, key, None)) {
            Some(h) => seq![InternOutView::Network(h, ModuleMessageView::Closest(m.kad.root, key, w))],
            None => Seq::empty(),
        },
        DHTRouterIn::MessageDirect(dst, w) => match first_of(closest_or_connected(m, dst, None)) {
            Some(h) => seq![InternOutView::Network(h, ModuleMessageView::Direct(m.kad.root, dst, w))],
            None => Seq::empty(),
        },
        DHTRouterIn::MessageNeighbour(dst, w) => if m.connected.contains(dst) {
            seq![InternOutView::Network(dst, ModuleMessageView::Neighbour(w))]
        } else {
            Seq::empty()
        },
    }
}

/// Handles a message from the network.
pub open spec fn msg_network_model(m: RouterModel, msg: RouterOutView) -> (RouterModel, Seq<InternOutView>) {
    match msg {
        RouterOutView::NodeInfoAvailable(ids) => add_nodes_model(m, ids),
        RouterOutView::NodeIDsConnected(ids) => add_nodes_model(
            RouterModel { connected: ids, ..m },
            ids,
        ),
        RouterOutView::NetworkWrapperFromNetwork(from, mm, readflo, d) => process_node_message_model(
            m,
            from,
            mm,
            readflo,
            d,
        ),
        RouterOutView::SystemConfig(r) => (
            m,
            match r {
                Some(rid) => seq![InternOutView::DHTRouter(DHTRouterOutView::SystemRealm(rid))],
                None => Seq::empty(),
            },
        ),
        RouterOutView::Disconnected(id) => (with_kad(m, m.kad.node_disconnected(id)), Seq::empty()),
        RouterOutView::Other => (m, Seq::empty()),
    }
}

/// Handles one incoming message.
pub open spec fn step_model(m: RouterModel, msg: InternInView) -> (RouterModel, Seq<InternOutView>) {
    match msg {
        InternInView::Tick => tick_model(m),
        InternInView::DHTRouter(d) => (m, msg_dht_model(m, d)),
        InternInView::Network(n) => msg_network_model(m, n),
    }
}

/// Handles the incoming messages in turn, collecting the outgoing ones.
pub open spec fn process_model(m: RouterModel, msgs: Seq<InternInView>) -> (RouterModel, Seq<InternOutView>)
    decreases msgs.len(),
{
    if msgs.len() == 0 {
        (m, Seq::empty())
    } else {
        let (m1, o1) = process_model(m, msgs.drop_last());
        let (m2, o2) = step_model(m1, msgs.last());
        (m2, o1 + o2)
    }
}

/// Each request ID is recorded at most once.
pub open spec fn unique_keys(inf: Seq<(U256, U256)>) -> bool {
    forall|i: int, j: int|
        0 <= i < inf.len() && 0 <= j < inf.len() && #[trigger] inf[i].0 == #[trigger] inf[j].0
            ==> i == j
}

proof fn lemma_drop_node(inf: Seq<(U256, U256)>, node: U256)
    requires
        unique_keys(inf),
    ensures
        unique_keys(drop_node(inf, node)),
        forall|i: int|
            0 <= i < drop_node(inf, node).len() ==> inf.contains(#[trigger] drop_node(inf, node)[i]),
    decreases inf.len(),
{
    if inf.len() > 0 {
        let p = inf.drop_last();
        assert forall|i: int, j: int|
            0 <= i < p.len() && 0 <= j < p.len() && #[trigger] p[i].0 == #[trigger] p[j].0
            implies i == j by {
            assert(p[i] == inf[i]);
            assert(p[j] == inf[j]);
        }
        lemma_drop_node(p, node);
        let r = drop_node(p, node);
        assert forall|i: int| 0 <= i < r.len() implies inf.contains(#[trigger] r[i]) by {
            let k = choose|k: int| 0 <= k < p.len() && p[k] == r[i];
            assert(inf[k] == p[k]);
        }
        if inf.last().1 != node {
            let r2 = r.push(inf.last());
            assert forall|i: int, j: int|
                0 <= i < r2.len() && 0 <= j < r2.len() && #[trigger] r2[i].0 == #[trigger] r2[j].0
                implies i == j by {
                if i < r.len() && j == r.len() {
                    let k = choose|k: int| 0 <= k < p.len() && p[k] == r[i];
                    assert(inf[k].0 == inf[inf.len() - 1].0);
                } else if j < r.len() && i == r.len() {
                    let k = choose|k: int| 0 <= k < p.len() && p[k] == r[j];
                    assert(inf[k].0 == inf[inf.len() - 1].0);
                }
            }
            assert forall|i: int| 0 <= i < r2.len() implies inf.contains(#[trigger] r2[i]) by {
                if i == r.len() {
                    assert(inf[inf.len() - 1] == r2[i]);
                }
            }
        }
    }
}

fn clone_msg(m: &ModuleMessage) -> (r: ModuleMessage)
    ensures
        r@ == m@,
{
    match m {
        ModuleMessage::Ping => ModuleMessage::Ping,
        ModuleMessage::Pong => ModuleMessage::Pong,
        ModuleMessage::ConnectedIDsRequest => ModuleMessage::ConnectedIDsRequest,
        ModuleMessage::ConnectedIDsReply(ids) => {
            let c = ids.clone();
            proof {
                assert(c@ =~= ids@);
            }
            ModuleMessage::ConnectedIDsReply(c)
        },
        ModuleMessage::Neighbour(w) => ModuleMessage::Neighbour(w.clone()),
        ModuleMessage::Closest(o, k, w) => ModuleMessage::Closest(*o, *k, w.clone()),
        ModuleMessage::Direct(o, d, w) => ModuleMessage::Direct(*o, *d, w.clone()),
    }
}

/// The same message to each of the nodes.
fn to_each_exec(ids: &Vec<NodeID>, msg: &ModuleMessage) -> (r: Vec<InternOut>)
    ensures
        outs_view(r@) == to_each(ids@, msg@),
{
    let mut r: Vec<InternOut> = Vec::new();
    let mut i: usize = 0;
    while i < ids.len()
        invariant
            0 <= i <= ids.len(),
            outs_view(r@) == to_each(ids@.take(i as int), msg@),
        decreases ids.len() - i,
    {
        let ghost r0 = r@;
        r.push(InternOut::Network(ids[i], clone_msg(msg)));
        proof {
            assert(outs_view(r@) =~= outs_view(r0).push(InternOutView::Network(ids@[i as int], msg@)));
            assert(to_each(ids@.take(i + 1), msg@) =~= to_each(ids@.take(i as int), msg@).push(
                InternOutView::Network(ids@[i as int], msg@),
            ));
        }
        i = i + 1;
    }
    proof {
        assert(ids@.take(ids.len() as int) =~= ids@);
    }
    r
}

fn count_node_exec(inf: &Vec<(U256, U256)>, node: &U256) -> (r: usize)
    ensures
        r == count_node(inf@, *node),
{
    let mut r: usize = 0;
    let mut i: usize = 0;
    while i < inf.len()
        invariant
            0 <= i <= inf.len(),
            r == count_node(inf@.take(i as int), *node),
            r <= i,
        decreases inf.len() - i,
    {
        proof {
            assert(inf@.take(i + 1).drop_last() =~= inf@.take(i as int));
        }
        if inf[i].1.same(node) {
            r = r + 1;
        }
        i = i + 1;
    }
    proof {
        assert(inf@.take(inf.len() as int) =~= inf@);
    }
    r
}

fn bad_nodes_exec(inf: &Vec<(U256, U256)>) -> (r: Vec<U256>)
    ensures
        r@ == bad_nodes(inf@, inf@),
{
    let mut r: Vec<U256> = Vec::new();
    let mut i: usize = 0;
    while i < inf.len()
        invariant
            0 <= i <= inf.len(),
            r@ == bad_nodes(inf@.take(i as int), inf@),
        decreases inf.len() - i,
    {
        proof {
            assert(inf@.take(i + 1).drop_last() =~= inf@.take(i as int));
        }
        let n = inf[i].1;
        if count_node_exec(inf, &n) > 10 && !ids_contain(&r, &n) {
            r.push(n);
        }
        i = i + 1;
    }
    proof {
        assert(inf@.take(inf.len() as int) =~= inf@);
    }
    r
}

fn drop_node_exec(inf: &Vec<(U256, U256)>, node: &U256) -> (r: Vec<(U256, U256)>)
    ensures
        r@ == drop_node(inf@, *node),
{
    let mut r: Vec<(U256, U256)> = Vec::new();
    let mut i: usize = 0;
    while i < inf.len()
        invariant
            0 <= i <= inf.len(),
            r@ == drop_node(inf@.take(i as int), *node),
        decreases inf.len() - i,
    {
        proof {
            assert(inf@.take(i + 1).drop_last() =~= inf@.take(i as int));
        }
        if !inf[i].1.same(node) {
            r.push(inf[i]);
        }
        i = i + 1;
    }
    proof {
        assert(inf@.take(inf.len() as int) =~= inf@);
    }
    r
}

/// Statistics of the routing table.
#[derive(Debug, Clone)]
pub struct Stats {
    pub all_nodes: Vec<NodeID>,
    pub bucket_nodes: Vec<Vec<NodeID>>,
    pub active: usize,
}

/// The message handling of the router.
pub struct Messages {
    table: Kademlia,
    // This is different than table.active, because there can be connections from other
    // modules, or connections from another node.
    connected: Vec<NodeID>,
    // readFlo id -> node id
    requests_in_flight: Vec<(U256, U256)>,
    blacklisted_nodes: Vec<U256>,
    local_blacklists: bool,
}

impl Messages {
    pub closed spec fn model(&self) -> RouterModel {
        RouterModel {
            kad: self.table@,
            connected: self.connected@,
            in_flight: self.requests_in_flight@,
            blacklisted: self.blacklisted_nodes@,
            local_blacklists: self.local_blacklists,
        }
    }

    /// The routing table is well formed, and each request is recorded once.
    pub closed spec fn wf(&self) -> bool {
        &&& self.table@.wf()
        &&& unique_keys(self.requests_in_flight@)
    }

    /// Returns a new routing module.
    pub fn new(root: NodeID, cfg: Config) -> (r: Self)
        requires
            cfg.valid(),
        ensures
            r.wf(),
            r.model().kad == (KademliaView {
                buckets: Seq::empty(),
                root_bucket: BucketView {
                    active: Seq::empty(),
                    cache: Seq::empty(),
                    config: cfg,
                    is_root: true,
                },
                root,
                config: cfg,
            }),
            r.model().connected == Seq::<NodeID>::empty(),
            r.model().in_flight == Seq::<(U256, U256)>::empty(),
            r.model().blacklisted == Seq::<U256>::empty(),
            !r.model().local_blacklists,
    {
        Self {
            table: Kademlia::new(root, cfg),
            connected: Vec::new(),
            requests_in_flight: Vec::new(),
            blacklisted_nodes: Vec::new(),
            local_blacklists: false,
        }
    }

    /// Blacklists nodes that do not answer requests, for experiments.
    pub fn set_local_blacklists(&mut self, on: bool)
        requires
            old(self).wf(),
        ensures
            final(self).wf(),
            final(self).model() == (RouterModel { local_blacklists: on, ..old(self).model() }),
    {
        self.local_blacklists = on;
    }

    /// The statistics of the routing table: all active and cached nodes, the
    /// active nodes of each bucket, and the number of active nodes.
    pub fn stats(&self) -> (r: Stats)
        ensures
            r.all_nodes@ == self.model().kad.active_nodes() + self.model().kad.cache_nodes(),
            r.bucket_nodes@.len() == self.model().kad.bucket_nodes().len(),
            forall|i: int|
                0 <= i < r.bucket_nodes@.len() ==> (#[trigger] r.bucket_nodes@[i])@
                    == self.model().kad.bucket_nodes()[i],
            r.active == self.model().kad.active_nodes().len(),
    {
        let active = self.table.active_nodes();
        let mut all_nodes: Vec<NodeID> = Vec::new();
        let mut i: usize = 0;
        while i < active.len()
            invariant
                0 <= i <= active.len(),
                all_nodes@ == active@.take(i as int),
            decreases active.len() - i,
        {
            proof {
                assert(active@.take(i + 1) =~= active@.take(i as int).push(active@[i as int]));
            }
            all_nodes.push(active[i]);
            i = i + 1;
        }
        let cache = self.table.cache_nodes();
        let mut j: usize = 0;
        while j < cache.len()
            invariant
                0 <= j <= cache.len(),
                i == active.len(),
                all_nodes@ == active@.take(i as int) + cache@.take(j as int),
            decreases cache.len() - j,
        {
            proof {
                assert(active@.take(i as int) + cache@.take(j + 1) =~= (active@.take(i as int)
                    + cache@.take(j as int)).push(cache@[j as int]));
            }
            all_nodes.push(cache[j]);
            j = j + 1;
        }
        proof {
            assert(active@.take(i as int) =~= active@);
            assert(cache@.take(j as int) =~= cache@);
        }
        Stats { all_nodes, bucket_nodes: self.table.bucket_nodes(), active: active.len() }
    }

    /// The routing table.
    pub fn table(&self) -> (r: &Kademlia)
        ensures
            r@ == self.model().kad,
    {
        &self.table
    }

    /// Adds the nodes and announces the active nodes.
    fn add_nodes(&mut self, nodes: Vec<NodeID>) -> (r: Vec<InternOut>)
        requires
            old(self).wf(),
        ensures
            final(self).wf(),
            (final(self).model(), outs_view(r@)) == add_nodes_model(old(self).model(), nodes@),
    {
        if self.table.total() <= usize::MAX - nodes.len() {
            self.table.add_nodes(nodes);
        }
        let r = vec![InternOut::DHTRouter(DHTRouterOut::NodeList(self.table.active_nodes()))];
        proof {
            assert(outs_view(r@) =~= node_list(self.model()));
        }
        r
    }

    /// One second passes: pings the nodes that need it and asks all active nodes for
    /// their connections.
    fn tick(&mut self) -> (r: Vec<InternOut>)
        requires
            old(self).wf(),
        ensures
            final(self).wf(),
            (final(self).model(), outs_view(r@)) == tick_model(old(self).model()),
    {
        if self.table.tickable() {
            let t = self.table.tick();
            let mut out = to_each_exec(&t.ping, &ModuleMessage::Ping);
            let mut o2 = to_each_exec(&self.table.active_nodes(), &ModuleMessage::ConnectedIDsRequest);
            let ghost o1v = outs_view(out@);
            let ghost o2v = outs_view(o2@);
            out.append(&mut o2);
            proof {
                assert(outs_view(out@) =~= o1v + o2v);
            }
            out
        } else {
            to_each_exec(&self.table.active_nodes(), &ModuleMessage::ConnectedIDsRequest)
        }
    }

    fn closest_or_connected(&self, key: &U256, last: Option<&U256>) -> (r: Vec<U256>)
        requires
            self.wf(),
        ensures
            r@ == closest_or_connected(
                self.model(),
                *key,
                match last {
                    Some(l) => Some(*l),
                    None => None,
                },
            ),
    {
        if ids_contain(&self.connected, key) {
            let r = vec![*key];
            proof {
                assert(r@ =~= seq![*key]);
            }
            r
        } else {
            self.table.route_closest(key, last)
        }
    }

    /// Handles a request of a user of the router.
    fn msg_dht(&self, msg: DHTRouterIn) -> (r: Vec<InternOut>)
        requires
            self.wf(),
        ensures
            outs_view(r@) == msg_dht_model(self.model(), msg),
    {
        let ghost mv = msg;
        let r = match msg {
            DHTRouterIn::MessageBroadcast(w) => {
                return to_each_exec(&self.table.active_nodes(), &ModuleMessage::Neighbour(w));
            },
            DHTRouterIn::MessageClosest(key, w) => {
                let hops = self.closest_or_connected(&key, None);
                if hops.len() > 0 {
                    vec![InternOut::Network(hops[0], ModuleMessage::Closest(self.table.root(), key, w))]
                } else {
                    Vec::new()
                }
            },
            DHTRouterIn::MessageDirect(dst, w) => {
                let hops = self.closest_or_connected(&dst, None);
                if hops.len() > 0 {
                    vec![InternOut::Network(hops[0], ModuleMessage::Direct(self.table.root(), dst, w))]
                } else {
                    Vec::new()
                }
            },
            DHTRouterIn::MessageNeighbour(dst, w) => {
                if ids_contain(&self.connected, &dst) {
                    vec![InternOut::Network(dst, ModuleMessage::Neighbour(w))]
                } else {
                    Vec::new()
                }
            },
        };
        proof {
            assert(outs_view(r@) =~= msg_dht_model(self.model(), mv));
        }
        r
    }

    /// Blacklists the nodes that were sent more than ten requests still in flight.
    fn blacklist_bad_nodes(&mut self)
        requires
            old(self).wf(),
        ensures
            final(self).wf(),
            final(self).model() == blacklist_model(old(self).model()),
    {
        if !self.local_blacklists {
            return;
        }
        let ghost m0 = self.model();
        let bad = bad_nodes_exec(&self.requests_in_flight);
        let mut k: usize = 0;
        while k < bad.len()
            invariant
                0 <= k <= bad.len(),
                self.wf(),
                self.model() == blacklist_all(m0, bad@.take(k as int)),
            decreases bad.len() - k,
        {
            proof {
                assert(bad@.take(k + 1).drop_last() =~= bad@.take(k as int));
                lemma_drop_node(self.requests_in_flight@, bad@[k as int]);
            }
            let n = bad[k];
            self.requests_in_flight = drop_node_exec(&self.requests_in_flight, &n);
            self.table.remove_node(&n);
            if !ids_contain(&self.blacklisted_nodes, &n) {
                self.blacklisted_nodes.push(n);
            }
            k = k + 1;
        }
        proof {
            assert(bad@.take(bad.len() as int) =~= bad@);
        }
    }

    /// Gives a blacklisted node another chance, if the draw says so.
    fn randomly_whitelist(&mut self, d: Draw)
        requires
            old(self).wf(),
        ensures
            final(self).wf(),
            final(self).model() == whitelist_model(old(self).model(), d),
    {
        if self.local_blacklists && self.blacklisted_nodes.len() > 0 && d.whitelist {
            let len = self.blacklisted_nodes.len();
            let i = d.index % len;
            let node = self.blacklisted_nodes[i];
            if self.table.total() < usize::MAX {
                self.table.add_node(node);
            }
            self.blacklisted_nodes.remove(i);
        }
    }

    /// Records that the request `id` went to `node`, replacing an earlier record.
    fn set_flight(&mut self, id: U256, node: U256)
        requires
            old(self).wf(),
        ensures
            final(self).wf(),
            final(self).model() == (RouterModel {
                in_flight: set_flight(old(self).model().in_flight, id, node),
                ..old(self).model()
            }),
    {
        let ghost inf = self.requests_in_flight@;
        let mut i: usize = 0;
        while i < self.requests_in_flight.len()
            invariant
                0 <= i <= self.requests_in_flight.len(),
                inf == self.requests_in_flight@,
                self.wf(),
                self.model() == old(self).model(),
                forall|j: int| 0 <= j < i ==> inf[j].0 != id,
            decreases self.requests_in_flight.len() - i,
        {
            if self.requests_in_flight[i].0.same(&id) {
                proof {
                    let c = choose|c: int| 0 <= c < inf.len() && #[trigger] inf[c].0 == id;
                    assert(inf[c].0 == inf[i as int].0);
                }
                self.requests_in_flight.set(i, (id, node));
                proof {
                    let r = self.requests_in_flight@;
                    assert forall|a: int, b: int|
                        0 <= a < r.len() && 0 <= b < r.len() && #[trigger] r[a].0 == #[trigger] r[b].0
                        implies a == b by {
                        if a != i && b != i {
                            assert(r[a] == inf[a]);
                            assert(r[b] == inf[b]);
                        } else if a == i && b != i {
                            assert(r[b] == inf[b]);
                            assert(inf[b].0 == inf[i as int].0);
                        } else if b == i && a != i {
                            assert(r[a] == inf[a]);
                            assert(inf[a].0 == inf[i as int].0);
                        }
                    }
                }
                return;
            }
            i = i + 1;
        }
        self.requests_in_flight.push((id, node));
        proof {
            let r = self.requests_in_flight@;
            assert forall|a: int, b: int|
                0 <= a < r.len() && 0 <= b < r.len() && #[trigger] r[a].0 == #[trigger] r[b].0
                implies a == b by {
                if a < inf.len() && b == inf.len() {
                    assert(r[a] == inf[a]);
                } else if b < inf.len() && a == inf.len() {
                    assert(r[b] == inf[b]);
                }
            }
        }
    }

    /// Handles a message on its way to the node closest to `key`.
    fn message_closest(
        &mut self,
        orig: NodeID,
        last_hop: NodeID,
        key: U256,
        msg: NetworkWrapper,
        readflo: Option<U256>,
        d: Draw,
    ) -> (r: Vec<InternOut>)
        requires
            old(self).wf(),
        ensures
            final(self).wf(),
            (final(self).model(), outs_view(r@)) == message_closest_model(
                old(self).model(),
                orig,
                last_hop,
                key,
                msg,
                readflo,
                d,
            ),
    {
        let root = self.table.root();
        self.blacklist_bad_nodes();
        let hops = self.closest_or_connected(&key, Some(&last_hop));
        let closest = if hops.len() > 0 {
            Some(hops[0])
        } else {
            None
        };
        self.randomly_whitelist(d);
        let r = match closest {
            Some(next_hop) => {
                match readflo {
                    Some(id) => self.set_flight(id, next_hop),
                    None => {},
                }
                let w2 = msg.clone();
                vec![
                    InternOut::Network(next_hop, ModuleMessage::Closest(orig, key, w2)),
                    InternOut::DHTRouter(DHTRouterOut::MessageRouting(orig, last_hop, next_hop, key, msg)),
                ]
            },
            None => {
                if key.same(&root) {
                    vec![InternOut::DHTRouter(DHTRouterOut::MessageDest(orig, last_hop, msg))]
                } else {
                    vec![InternOut::DHTRouter(DHTRouterOut::MessageClosest(orig, last_hop, key, msg))]
                }
            },
        };
        proof {
            assert(outs_view(r@) =~= message_closest_model(
                old(self).model(),
                orig,
                last_hop,
                key,
                msg,
                readflo,
                d,
            ).1);
        }
        r
    }

    /// Handles a message on its way to the node `dst`.
    fn message_direct(&self, orig: NodeID, last: NodeID, dst: NodeID, msg: NetworkWrapper, d: Draw) -> (r:
        Vec<InternOut>)
        requires
            self.wf(),
        ensures
            outs_view(r@) == message_direct_model(self.model(), orig, last, dst, msg, d),
    {
        let r = if dst.same(&self.table.root()) {
            vec![InternOut::DHTRouter(DHTRouterOut::MessageDest(orig, last, msg))]
        } else {
            let next_hops = self.closest_or_connected(&dst, Some(&last));
            if next_hops.len() == 0 {
                Vec::new()
            } else {
                let h = next_hops[d.choice % next_hops.len()];
                vec![InternOut::Network(h, ModuleMessage::Direct(orig, dst, msg))]
            }
        };
        proof {
            assert(outs_view(r@) =~= message_direct_model(self.model(), orig, last, dst, msg, d));
        }
        r
    }

    /// Handles a message from another node; a node that sends a message is active.
    fn process_node_message(
        &mut self,
        from: NodeID,
        msg: Option<ModuleMessage>,
        readflo: Option<U256>,
        d: Draw,
    ) -> (r: Vec<InternOut>)
        requires
            old(self).wf(),
        ensures
            final(self).wf(),
            (final(self).model(), outs_view(r@)) == process_node_message_model(
                old(self).model(),
                from,
                opt_view(msg),
                readflo,
                d,
            ),
    {
        let ghost m = self.model();
        let ghost mv = opt_view(msg);
        let mut out = match msg {
            Some(mm) => match mm {
                ModuleMessage::Ping => vec![InternOut::Network(from, ModuleMessage::Pong)],
                ModuleMessage::Pong => Vec::new(),
                ModuleMessage::Closest(orig, key, w) => self.message_closest(
                    orig,
                    from,
                    key,
                    w,
                    readflo,
                    d,
                ),
                ModuleMessage::Direct(orig, dst, w) => self.message_direct(orig, from, dst, w, d),
                ModuleMessage::Neighbour(w) => vec![
                    InternOut::DHTRouter(DHTRouterOut::MessageNeighbour(from, w)),
                ],
                ModuleMessage::ConnectedIDsRequest => vec![
                    InternOut::Network(
                        from,
                        ModuleMessage::ConnectedIDsReply(self.table.active_nodes()),
                    ),
                ],
                ModuleMessage::ConnectedIDsReply(nodes) => self.add_nodes(nodes),
            },
            None => Vec::new(),
        };
        let ghost m1 = self.model();
        let ghost o1 = outs_view(out@);
        proof {
            let (em1, eo1) = match mv {
                Some(mm) => match mm {
                    ModuleMessageView::Ping => (m, seq![InternOutView::Network(from, ModuleMessageView::Pong)]),
                    ModuleMessageView::Pong => (m, Seq::empty()),
                    ModuleMessageView::Closest(orig, key, w) => message_closest_model(
                        m,
                        orig,
                        from,
                        key,
                        w,
                        readflo,
                        d,
                    ),
                    ModuleMessageView::Direct(orig, dst, w) => (
                        m,
                        message_direct_model(m, orig, from, dst, w, d),
                    ),
                    ModuleMessageView::Neighbour(w) => (
                        m,
                        seq![InternOutView::DHTRouter(DHTRouterOutView::MessageNeighbour(from, w))],
                    ),
                    ModuleMessageView::ConnectedIDsRequest => (
                        m,
                        seq![
                            InternOutView::Network(
                                from,
                                ModuleMessageView::ConnectedIDsReply(m.kad.active_nodes()),
                            ),
                        ],
                    ),
                    ModuleMessageView::ConnectedIDsReply(nodes) => add_nodes_model(m, nodes),
                },
                None => (m, Seq::empty()),
            };
            assert(m1 == em1);
            assert(o1 =~= eo1);
        }
        let active = self.table.node_active(&from);
        if active {
            let ghost o0 = outs_view(out@);
            out.push(InternOut::DHTRouter(DHTRouterOut::NodeList(self.table.active_nodes())));
            proof {
                assert(outs_view(out@) =~= o0 + node_list(self.model()));
            }
        }
        out
    }

    /// Handles a message from the network.
    fn msg_network(&mut self, msg: RouterOut) -> (r: Vec<InternOut>)
        requires
            old(self).wf(),
        ensures
            final(self).wf(),
            (final(self).model(), outs_view(r@)) == msg_network_model(old(self).model(), msg@),
    {
        match msg {
            RouterOut::NodeInfoAvailable(ids) => self.add_nodes(ids),
            RouterOut::NodeIDsConnected(ids) => {
                let c = ids.clone();
                proof {
                    assert(c@ =~= ids@);
                }
                self.connected = c;
                self.add_nodes(ids)
            },
            RouterOut::NetworkWrapperFromNetwork(from, mm, readflo, d) => self.process_node_message(
                from,
                mm,
                readflo,
                d,
            ),
            RouterOut::SystemConfig(r) => {
                let out = match r {
                    Some(rid) => vec![InternOut::DHTRouter(DHTRouterOut::SystemRealm(rid))],
                    None => Vec::new(),
                };
                proof {
                    assert(outs_view(out@) =~= match r {
                        Some(rid) => seq![InternOutView::DHTRouter(DHTRouterOutView::SystemRealm(rid))],
                        None => Seq::<InternOutView>::empty(),
                    });
                }
                out
            },
            RouterOut::Disconnected(id) => {
                self.table.node_disconnected(id);
                let out: Vec<InternOut> = Vec::new();
                proof {
                    assert(outs_view(out@) =~= Seq::<InternOutView>::empty());
                }
                out
            },
            RouterOut::Other => {
                let out: Vec<InternOut> = Vec::new();
                proof {
                    assert(outs_view(out@) =~= Seq::<InternOutView>::empty());
                }
                out
            },
        }
    }

    /// Handles one incoming message.
    pub fn step(&mut self, msg: InternIn) -> (r: Vec<InternOut>)
        requires
            old(self).wf(),
        ensures
            final(self).wf(),
            (final(self).model(), outs_view(r@)) == step_model(old(self).model(), msg@),
    {
        match msg {
            InternIn::Tick => self.tick(),
            InternIn::DHTRouter(d) => self.msg_dht(d),
            InternIn::Network(n) => self.msg_network(n),
        }
    }

    /// Handles the incoming messages in turn, and returns all outgoing messages.
    pub fn messages(&mut self, msgs: Vec<InternIn>) -> (r: Vec<InternOut>)
        requires
            old(self).wf(),
        ensures
            final(self).wf(),
            (final(self).model(), outs_view(r@)) == process_model(
                old(self).model(),
                msgs@.map_values(|i: InternIn| i@),
            ),
    {
        let ghost m0 = self.model();
        let ghost iv = msgs@.map_values(|i: InternIn| i@);
        let mut inputs = msgs;
        let ghost orig = inputs@;
        let mut out: Vec<InternOut> = Vec::new();
        let mut k: usize = 0;
        let n = inputs.len();
        while k < n
            invariant
                0 <= k <= n,
                n == iv.len(),
                n == orig.len(),
                iv == orig.map_values(|i: InternIn| i@),
                inputs@.len() == n - k,
                forall|j: int| 0 <= j < n - k ==> #[trigger] inputs@[j] == orig[k + j],
                self.wf(),
                (self.model(), outs_view(out@)) == process_model(m0, iv.take(k as int)),
            decreases n - k,
        {
            let msg = inputs.remove(0);
            proof {
                assert(msg == orig[k as int]);
                assert(msg@ == iv[k as int]);
                assert(iv.take(k + 1).drop_last() =~= iv.take(k as int));
                assert(iv.take(k + 1).last() == iv[k as int]);
            }
            let ghost o0 = outs_view(out@);
            let mut o = self.step(msg);
            let ghost ov = outs_view(o@);
            out.append(&mut o);
            proof {
                assert(outs_view(out@) =~= o0 + ov);
            }
            k = k + 1;
        }
        proof {
            assert(iv.take(n as int) =~= iv);
        }
        out
    }
}

/// Without local blacklists, a message on its way to the node closest to `key` is
/// sent on to the first next hop (`key` itself if it is connected) and reported as
/// routed; without a next hop it is delivered here if `key` is this node, else
/// reported as arrived at the closest node.
pub proof fn lemma_message_closest_without_blacklists(
    m: RouterModel,
    orig: NodeID,
    last_hop: NodeID,
    key: U256,
    msg: NetworkWrapper,
    d: Draw,
)
    requires
        !m.local_blacklists,
    ensures
        ({
            let hops = closest_or_connected(m, key, Some(last_hop));
            let out = message_closest_model(m, orig, last_hop, key, msg, None, d);
            &&& out.0 == m
            &&& hops.len() > 0 ==> out.1 == seq![
                InternOutView::Network(hops[0], ModuleMessageView::Closest(orig, key, msg)),
                InternOutView::DHTRouter(DHTRouterOutView::MessageRouting(orig, last_hop, hops[0], key, msg)),
            ]
            &&& hops.len() == 0 && key == m.kad.root ==> out.1 == seq![
                InternOutView::DHTRouter(DHTRouterOutView::MessageDest(orig, last_hop, msg)),
            ]
            &&& hops.len() == 0 && key != m.kad.root ==> out.1 == seq![
                InternOutView::DHTRouter(DHTRouterOutView::MessageClosest(orig, last_hop, key, msg)),
            ]
        }),
{
}

proof fn lemma_count_pos(inf: Seq<(U256, U256)>, n: U256)
    ensures
        count_node(inf, n) > 0 ==> exists|i: int| 0 <= i < inf.len() && (#[trigger] inf[i]).1 == n,
        count_node(inf, n) <= inf.len(),
    decreases inf.len(),
{
    if inf.len() > 0 {
        lemma_count_pos(inf.drop_last(), n);
        if count_node(inf.drop_last(), n) > 0 {
            let i = choose|i: int| 0 <= i < inf.drop_last().len() && (#[trigger] inf.drop_last()[i]).1 == n;
            assert(inf[i] == inf.drop_last()[i]);
        }
    }
}

proof fn lemma_drop_counts(inf: Seq<(U256, U256)>, n: U256, x: U256)
    ensures
        count_node(drop_node(inf, n), x) == if x == n {
            0
        } else {
            count_node(inf, x)
        },
    decreases inf.len(),
{
    if inf.len() > 0 {
        lemma_drop_counts(inf.drop_last(), n, x);
        let r = drop_node(inf.drop_last(), n);
        if inf.last().1 != n {
            assert(r.push(inf.last()).drop_last() =~= r);
        }
    }
}

proof fn lemma_bad_nodes(inf: Seq<(U256, U256)>, all: Seq<(U256, U256)>, n: U256)
    ensures
        bad_nodes(inf, all).contains(n) ==> count_node(all, n) > 10,
        count_node(all, n) > 10 && (exists|i: int| 0 <= i < inf.len() && (#[trigger] inf[i]).1 == n) ==> bad_nodes(
            inf,
            all,
        ).contains(n),
    decreases inf.len(),
{
    if inf.len() > 0 {
        let p = inf.drop_last();
        lemma_bad_nodes(p, all, n);
        let r = bad_nodes(p, all);
        if count_node(all, n) > 10 && (exists|i: int| 0 <= i < inf.len() && (#[trigger] inf[i]).1 == n) {
            let i = choose|i: int| 0 <= i < inf.len() && (#[trigger] inf[i]).1 == n;
            if i < p.len() {
                assert(p[i] == inf[i]);
            } else if !r.contains(n) {
                assert(bad_nodes(inf, all) == r.push(n));
                assert(r.push(n)[r.len() as int] == n);
            }
        }
        if bad_nodes(inf, all).contains(n) && !r.contains(n) {
            let k = choose|k: int| 0 <= k < bad_nodes(inf, all).len() && bad_nodes(inf, all)[k] == n;
            assert(bad_nodes(inf, all) == r.push(inf.last().1));
        }
        if r.contains(n) {
            let k = choose|k: int| 0 <= k < r.len() && r[k] == n;
            assert(bad_nodes(inf, all)[k] == n);
        }
    }
}

proof fn lemma_blacklist_all(m: RouterModel, nodes: Seq<U256>, x: U256)
    ensures
        count_node(blacklist_all(m, nodes).in_flight, x) == if nodes.contains(x) {
            0
        } else {
            count_node(m.in_flight, x)
        },
        nodes.contains(x) || m.blacklisted.contains(x) ==> blacklist_all(m, nodes).blacklisted.contains(x),
    decreases nodes.len(),
{
    if nodes.len() > 0 {
        let p = nodes.drop_last();
        lemma_blacklist_all(m, p, x);
        let m1 = blacklist_all(m, p);
        lemma_drop_counts(m1.in_flight, nodes.last(), x);
        if nodes.contains(x) && !p.contains(x) {
            let k = choose|k: int| 0 <= k < nodes.len() && nodes[k] == x;
            if k < p.len() {
                assert(p[k] == x);
            }
        }
        if p.contains(x) {
            let k = choose|k: int| 0 <= k < p.len() && p[k] == x;
            assert(nodes[k] == x);
        }
        let b = insert_id(m1.blacklisted, nodes.last());
        if m1.blacklisted.contains(x) {
            let k = choose|k: int| 0 <= k < m1.blacklisted.len() && m1.blacklisted[k] == x;
            if !m1.blacklisted.contains(nodes.last()) {
                assert(b[k] == x);
            }
        }
        if x == nodes.last() && !m1.blacklisted.contains(x) {
            assert(b[m1.blacklisted.len() as int] == x);
        }
    }
}

/// With local blacklists, every node that was sent more than ten requests still in
/// flight loses all of them and is blacklisted, and the requests of the other
/// nodes stay: afterwards no node has more than ten requests in flight. Without
/// them, nothing changes.
pub proof fn lemma_blacklist_law(m: RouterModel, x: U256)
    ensures
        !m.local_blacklists ==> blacklist_model(m) == m,
        m.local_blacklists ==> count_node(blacklist_model(m).in_flight, x) == if count_node(m.in_flight, x) > 10 {
            0
        } else {
            count_node(m.in_flight, x)
        },
        m.local_blacklists && count_node(m.in_flight, x) > 10 ==> blacklist_model(m).blacklisted.contains(x),
        m.local_blacklists ==> count_node(blacklist_model(m).in_flight, x) <= 10,
{
    if m.local_blacklists {
        lemma_count_pos(m.in_flight, x);
        lemma_bad_nodes(m.in_flight, m.in_flight, x);
        lemma_blacklist_all(m, bad_nodes(m.in_flight, m.in_flight), x);
    }
}

/// A draw that whitelists takes the drawn node off the blacklist and puts it back
/// into the routing table, where it can be a next hop again: it is held
/// afterwards when it was held before, or when the table has room for it (the
/// bucket of its depth has room in its cache, or, for the root bucket, adding it
/// does not make it overflow). Without local blacklists, or without a draw that
/// whitelists, nothing changes.
pub proof fn lemma_whitelist_readds(m: RouterModel, d: Draw)
    requires
        m.kad.wf(),
    ensures
        !(m.local_blacklists && m.blacklisted.len() > 0 && d.whitelist) ==> whitelist_model(m, d) == m,
        m.local_blacklists && m.blacklisted.len() > 0 && d.whitelist ==> ({
            let i = d.index as int % m.blacklisted.len() as int;
            let node = m.blacklisted[i];
            let w = whitelist_model(m, d);
            &&& w.blacklisted == m.blacklisted.remove(i)
            &&& w.in_flight == m.in_flight
            &&& m.kad.total() < usize::MAX && node != m.kad.root && (m.kad.has_node(node) || (depth_of(
                m.kad.root,
                node,
            ) < m.kad.buckets.len() && m.kad.buckets[depth_of(m.kad.root, node)].cache.len() < 2
                * m.kad.config.k) || (depth_of(m.kad.root, node) >= m.kad.buckets.len()
                && m.kad.root_bucket.add_node(new_knode(m.kad.root, node)).status()
                != BucketStatus::Overflowing)) ==> w.kad.has_node(node)
        }),
{
    if m.local_blacklists && m.blacklisted.len() > 0 && d.whitelist {
        let i = d.index as int % m.blacklisted.len() as int;
        let node = m.blacklisted[i];
        if node != m.kad.root {
            lemma_add_node_kept(m.kad, node);
        }
    }
}

} // verus!
