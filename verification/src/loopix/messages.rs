use crate::nodeid::NodeID;
use vstd::prelude::*;

verus! {

/// A message of a module, as it travels in a Loopix payload: the module's name
/// and the message in its encoded form.
#[derive(Debug)]
pub struct NetworkWrapper {
    pub module: String,
    pub msg: String,
}

impl NetworkWrapper {
    /// A copy of the wrapper.
    pub fn copy(&self) -> (r: NetworkWrapper)
        ensures
            r == *self,
    {
        NetworkWrapper { module: self.module.clone(), msg: self.msg.clone() }
    }
}

/// What a Loopix payload holds.
#[derive(Debug)]
pub enum MessageType {
    /// A message of a module, from the given source.
    Payload(NodeID, NetworkWrapper),
    Drop,
    Loop,
    Dummy,
    /// A client asks its provider for its messages.
    PullRequest(NodeID),
    /// A client subscribes with its provider.
    SubscriptionRequest(NodeID),
}

impl MessageType {
    /// A copy of the message.
    pub fn copy(&self) -> (r: MessageType)
        ensures
            r == *self,
    {
        match self {
            MessageType::Payload(s, w) => MessageType::Payload(*s, w.copy()),
            MessageType::Drop => MessageType::Drop,
            MessageType::Loop => MessageType::Loop,
            MessageType::Dummy => MessageType::Dummy,
            MessageType::PullRequest(c) => MessageType::PullRequest(*c),
            MessageType::SubscriptionRequest(c) => MessageType::SubscriptionRequest(*c),
        }
    }
}

/// The decrypted payload of a final hop, once decoded: the module it is for, and
/// the Loopix message if it could be decoded.
#[derive(Debug)]
pub struct LoopixMsg {
    pub module: String,
    pub message: Option<MessageType>,
}

/// The reply to a pull request: the client, the handles of the messages sent to
/// it, and how many dummy messages pad the reply.
#[derive(Debug)]
pub struct PullReply {
    pub client: NodeID,
    pub messages: Vec<u64>,
    pub dummies: usize,
}

/// What a node does with a final hop: the node it concerns, the module message to
/// hand on, the pull reply to send, and the Loopix message it got.
#[derive(Debug)]
pub struct FinalHop {
    pub node: NodeID,
    pub payload: Option<NetworkWrapper>,
    pub reply: Option<PullReply>,
    pub message: Option<MessageType>,
}

/// The contents of a final hop, the pull reply taken by its view.
pub struct FinalHopView {
    pub node: NodeID,
    pub payload: Option<NetworkWrapper>,
    pub reply: Option<(NodeID, Seq<u64>, usize)>,
    pub message: Option<MessageType>,
}

impl FinalHop {
    pub open spec fn view(&self) -> FinalHopView {
        FinalHopView {
            node: self.node,
            payload: self.payload,
            reply: match self.reply {
                Some(p) => Some((p.client, p.messages@, p.dummies)),
                None => None,
            },
            message: self.message,
        }
    }
}

/// The name of the Loopix module.
pub open spec fn loopix_name() -> Seq<char> {
    "Loopix"@
}

/// A final hop that is ignored: only the node it concerns.
pub open spec fn ignored(node: NodeID) -> FinalHopView {
    FinalHopView { node, payload: None, reply: None, message: None }
}

/// The Loopix message of a final hop for this node, if there is one.
pub open spec fn loopix_message(destination: NodeID, our_id: NodeID, msg: Option<LoopixMsg>) -> Option<MessageType> {
    if destination != our_id {
        None
    } else {
        match msg {
            Some(m) => if m.module@ == loopix_name() {
                m.message
            } else {
                None
            },
            None => None,
        }
    }
}

/// What a client does with a final hop: a payload is handed on as from its source;
/// requests name their client; anything else concerns the destination.
pub open spec fn client_final_hop_spec(destination: NodeID, our_id: NodeID, msg: Option<LoopixMsg>) -> FinalHopView {
    match loopix_message(destination, our_id, msg) {
        None => ignored(destination),
        Some(m) => match m {
            MessageType::Payload(source, w) => FinalHopView {
                node: source,
                payload: Some(w),
                reply: None,
                message: Some(m),
            },
            MessageType::PullRequest(c) => FinalHopView { node: c, payload: None, reply: None, message: Some(m) },
            MessageType::SubscriptionRequest(c) => FinalHopView {
                node: c,
                payload: None,
                reply: None,
                message: Some(m),
            },
            _ => FinalHopView { node: destination, payload: None, reply: None, message: Some(m) },
        },
    }
}

/// What a mix node does with a final hop: it keeps the message it got, and the hop
/// concerns the destination.
pub open spec fn mixnode_final_hop_spec(destination: NodeID, our_id: NodeID, msg: Option<LoopixMsg>) -> FinalHopView {
    match loopix_message(destination, our_id, msg) {
        None => ignored(destination),
        Some(m) => FinalHopView { node: destination, payload: None, reply: None, message: Some(m) },
    }
}

/// Whether the module is Loopix.
fn is_loopix(module: &String) -> (r: bool)
    ensures
        r == (module@ == loopix_name()),
{
    let name = "Loopix".to_owned();
    *module == name
}

/// The Loopix message of a final hop for this node.
fn loopix_message_exec(destination: NodeID, our_id: NodeID, msg: Option<LoopixMsg>) -> (r: Option<MessageType>)
    ensures
        r == loopix_message(destination, our_id, msg),
{
    if !destination.same(&our_id) {
        return None;
    }
    match msg {
        Some(m) => if is_loopix(&m.module) {
            m.message
        } else {
            None
        },
        None => None,
    }
}

fn ignore(node: NodeID) -> (r: FinalHop)
    ensures
        r@ == ignored(node),
{
    FinalHop { node, payload: None, reply: None, message: None }
}

/// Handles a final hop at a client. `msg` is the decrypted and decoded payload,
/// `None` if that failed.
pub fn client_final_hop(destination: NodeID, our_id: NodeID, msg: Option<LoopixMsg>) -> (r: FinalHop)
    ensures
        r@ == client_final_hop_spec(destination, our_id, msg),
{
    match loopix_message_exec(destination, our_id, msg) {
        None => ignore(destination),
        Some(m) => {
            let copy = m.copy();
            match m {
                MessageType::Payload(source, w) => FinalHop {
                    node: source,
                    payload: Some(w),
                    reply: None,
                    message: Some(copy),
                },
                MessageType::PullRequest(c) => FinalHop { node: c, payload: None, reply: None, message: Some(copy) },
                MessageType::SubscriptionRequest(c) => FinalHop {
                    node: c,
                    payload: None,
                    reply: None,
                    message: Some(copy),
                },
                _ => FinalHop { node: destination, payload: None, reply: None, message: Some(copy) },
            }
        },
    }
}

/// Handles a final hop at a mix node. `msg` is the decrypted and decoded payload,
/// `None` if that failed.
pub fn mixnode_final_hop(destination: NodeID, our_id: NodeID, msg: Option<LoopixMsg>) -> (r: FinalHop)
    ensures
        r@ == mixnode_final_hop_spec(destination, our_id, msg),
{
    match loopix_message_exec(destination, our_id, msg) {
        None => ignore(destination),
        Some(m) => FinalHop { node: destination, payload: None, reply: None, message: Some(m) },
    }
}

// ---------------------------------------------------------------------------
// Routes
// ---------------------------------------------------------------------------

/// The route of a packet: the start provider if it has a key, then one mix node of
/// each of the first `path_length` layers, the one picked, for the layers that
/// are not empty, then the destination provider and the receiver if they have keys.
pub open spec fn route_spec(
    mixes: Seq<Seq<NodeID>>,
    keys: Seq<NodeID>,
    picks: Seq<usize>,
    path_length: int,
    start: Option<NodeID>,
    dest: Option<NodeID>,
    receiver: Option<NodeID>,
) -> Seq<NodeID> {
    keyed(start, keys) + mix_route(mixes, picks, path_length) + keyed(dest, keys) + keyed(receiver, keys)
}

/// The node, if it is given and has a key.
pub open spec fn keyed(n: Option<NodeID>, keys: Seq<NodeID>) -> Seq<NodeID> {
    match n {
        Some(id) => if keys.contains(id) {
            seq![id]
        } else {
            Seq::empty()
        },
        None => Seq::empty(),
    }
}

/// The mix nodes picked in the first `k` layers, skipping empty layers.
pub open spec fn mix_route(mixes: Seq<Seq<NodeID>>, picks: Seq<usize>, k: int) -> Seq<NodeID>
    decreases k,
{
    if k <= 0 {
        Seq::empty()
    } else {
        let prev = mix_route(mixes, picks, k - 1);
        if mixes[k - 1].len() > 0 {
            prev.push(mixes[k - 1][picks[k - 1] as int])
        } else {
            prev
        }
    }
}

fn keyed_exec(n: Option<NodeID>, keys: &Vec<NodeID>, route: &mut Vec<NodeID>)
    ensures
        final(route)@ == old(route)@ + keyed(n, keys@),
{
    if let Some(id) = n {
        if crate::nodeid::ids_contain(keys, &id) {
            route.push(id);
            return;
        }
    }
    proof {
        assert(route@ =~= old(route)@ + keyed(n, keys@));
    }
}

/// The route of a packet through the mix network. `picks[i]` is the mix node
/// picked at random in layer `i`, and `keys` the nodes whose public keys are
/// known; a picked mix node must have one.
pub fn create_route(
    mixes: &Vec<Vec<NodeID>>,
    keys: &Vec<NodeID>,
    picks: &Vec<usize>,
    path_length: usize,
    start: Option<NodeID>,
    dest: Option<NodeID>,
    receiver: Option<NodeID>,
) -> (r: Vec<NodeID>)
    requires
        path_length <= mixes@.len(),
        path_length <= picks@.len(),
        forall|i: int|
            0 <= i < path_length && (#[trigger] mixes@[i])@.len() > 0 ==> picks@[i] < mixes@[i]@.len()
                && keys@.contains(mixes@[i]@[picks@[i] as int]),
    ensures
        r@ == route_spec(
            mixes@.map_values(|v: Vec<NodeID>| v@),
            keys@,
            picks@,
            path_length as int,
            start,
            dest,
            receiver,
        ),
{
    let ghost ms = mixes@.map_values(|v: Vec<NodeID>| v@);
    let mut route: Vec<NodeID> = Vec::new();
    keyed_exec(start, keys, &mut route);
    let ghost base = route@;
    let mut i: usize = 0;
    while i < path_length
        invariant
            0 <= i <= path_length,
            path_length <= mixes@.len(),
            path_length <= picks@.len(),
            ms == mixes@.map_values(|v: Vec<NodeID>| v@),
            forall|j: int|
                0 <= j < path_length && (#[trigger] mixes@[j])@.len() > 0 ==> picks@[j] < mixes@[j]@.len()
                    && keys@.contains(mixes@[j]@[picks@[j] as int]),
            route@ == base + mix_route(ms, picks@, i as int),
        decreases path_length - i,
    {
        assert(ms[i as int] == mixes@[i as int]@);
        if mixes[i].len() > 0 {
            let m = mixes[i][picks[i]];
            route.push(m);
        }
        i = i + 1;
    }
    keyed_exec(dest, keys, &mut route);
    keyed_exec(receiver, keys, &mut route);
    proof {
        assert(route@ =~= route_spec(ms, keys@, picks@, path_length as int, start, dest, receiver));
    }
    route
}

// ---------------------------------------------------------------------------
// Sending payloads
// ---------------------------------------------------------------------------

/// What the client sends next: the first queued packet, or a drop packet.
#[derive(Debug, Clone, Copy)]
pub enum PayloadAction {
    Send(NodeID, u64),
    SendDrop,
}

/// One round of the client's sending: the packets received since the last round
/// join the queue, and the first queued packet is sent, or a drop packet if the
/// queue is empty. A packet leaves the queue once it was handed on (`payload_sent`).
pub fn payload_tick(queue: &mut Vec<(NodeID, u64)>, incoming: Vec<(NodeID, u64)>) -> (r: PayloadAction)
    ensures
        final(queue)@ == old(queue)@ + incoming@,
        final(queue)@.len() > 0 ==> r == PayloadAction::Send(final(queue)@[0].0, final(queue)@[0].1),
        final(queue)@.len() == 0 ==> r == PayloadAction::SendDrop,
{
    let mut i: usize = 0;
    let ghost q0 = queue@;
    while i < incoming.len()
        invariant
            0 <= i <= incoming@.len(),
            queue@ == q0 + incoming@.take(i as int),
        decreases incoming.len() - i,
    {
        proof {
            assert(incoming@.take(i + 1) =~= incoming@.take(i as int).push(incoming@[i as int]));
        }
        queue.push(incoming[i]);
        i = i + 1;
    }
    proof {
        assert(incoming@.take(incoming@.len() as int) =~= incoming@);
    }
    if queue.len() > 0 {
        PayloadAction::Send(queue[0].0, queue[0].1)
    } else {
        PayloadAction::SendDrop
    }
}

/// The first queued packet was handed on: it leaves the queue.
pub fn payload_sent(queue: &mut Vec<(NodeID, u64)>)
    ensures
        old(queue)@.len() > 0 ==> final(queue)@ == old(queue)@.drop_first(),
        old(queue)@.len() == 0 ==> final(queue)@ == old(queue)@,
{
    if queue.len() > 0 {
        queue.remove(0);
        proof {
            assert(queue@ =~= old(queue)@.drop_first());
        }
    }
}

} // verus!
