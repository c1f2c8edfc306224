use crate::loopix::messages::{
    ignored, loopix_message, FinalHop, FinalHopView, LoopixMsg, MessageType, PullReply,
};
use crate::nodeid::{ids_contain, NodeID};
use vstd::prelude::*;

verus! {

/// The storage of a provider: its subscribed clients, the messages kept for each
/// client, by handle, and how many of them each client already pulled.
#[derive(Debug)]
pub struct ProviderStorage {
    subscribed_clients: Vec<NodeID>,
    client_messages: Vec<(NodeID, Vec<u64>)>,
    client_message_index: Vec<(NodeID, usize)>,
}

/// The contents of a provider storage.
pub struct ProviderView {
    pub subscribed: Seq<NodeID>,
    pub messages: Seq<(NodeID, Seq<u64>)>,
    pub index: Seq<(NodeID, usize)>,
}

/// The position of the first entry for `k`.
pub open spec fn first_pos<V>(s: Seq<(NodeID, V)>, k: NodeID) -> Option<int>
    decreases s.len(),
{
    if s.len() == 0 {
        None
    } else if s[0].0 == k {
        Some(0)
    } else {
        match first_pos(s.drop_first(), k) {
            Some(i) => Some(i + 1),
            None => None,
        }
    }
}

/// The messages kept for client `c`.
pub open spec fn messages_of(m: Seq<(NodeID, Seq<u64>)>, c: NodeID) -> Seq<u64> {
    match first_pos(m, c) {
        Some(i) => m[i].1,
        None => Seq::empty(),
    }
}

/// How many messages client `c` already pulled.
pub open spec fn index_of(m: Seq<(NodeID, usize)>, c: NodeID) -> usize {
    match first_pos(m, c) {
        Some(i) => m[i].1,
        None => 0,
    }
}

/// The map with `k` mapped to `v`.
pub open spec fn set_entry<V>(m: Seq<(NodeID, V)>, k: NodeID, v: V) -> Seq<(NodeID, V)> {
    match first_pos(m, k) {
        Some(i) => m.update(i, (k, v)),
        None => m.push((k, v)),
    }
}

/// The messages a pull of client `c` gets: from those it did not pull yet, at
/// most `max`.
pub open spec fn pulled(p: ProviderView, c: NodeID, max: usize) -> Seq<u64> {
    let all = messages_of(p.messages, c);
    let idx = index_of(p.index, c);
    if idx >= all.len() {
        Seq::empty()
    } else if all.len() - idx <= max {
        all.skip(idx as int)
    } else {
        all.subrange(idx as int, idx + max)
    }
}

/// A pull of client `c`: the reply, with dummies padding it to `max` messages, and
/// the storage that counts the pulled messages.
pub open spec fn pull_spec(p: ProviderView, c: NodeID, max: usize) -> (ProviderView, (NodeID, Seq<u64>, usize)) {
    let sent = pulled(p, c, max);
    (
        ProviderView { index: set_entry(p.index, c, (index_of(p.index, c) + sent.len()) as usize), ..p },
        (c, sent, (max - sent.len()) as usize),
    )
}

/// What a provider does with a final hop: a pull request is answered from the
/// storage, a subscription is recorded; the requests concern their client, any
/// other message the destination.
pub open spec fn provider_final_hop_spec(
    p: ProviderView,
    destination: NodeID,
    our_id: NodeID,
    msg: Option<LoopixMsg>,
    max: usize,
) -> (ProviderView, FinalHopView) {
    match loopix_message(destination, our_id, msg) {
        None => (p, ignored(destination)),
        Some(m) => match m {
            MessageType::PullRequest(c) => {
                let (p2, reply) = pull_spec(p, c, max);
                (p2, FinalHopView { node: c, payload: None, reply: Some(reply), message: Some(m) })
            },
            MessageType::SubscriptionRequest(c) => (
                ProviderView {
                    subscribed: if p.subscribed.contains(c) {
                        p.subscribed
                    } else {
                        p.subscribed.push(c)
                    },
                    ..p
                },
                FinalHopView { node: c, payload: None, reply: None, message: Some(m) },
            ),
            _ => (p, FinalHopView { node: destination, payload: None, reply: None, message: Some(m) }),
        },
    }
}

fn find_pos<V>(s: &Vec<(NodeID, V)>, k: &NodeID) -> (r: Option<usize>)
    ensures
        r matches Some(i) ==> i < s@.len() && first_pos(s@, *k) == Some(i as int),
        r is None ==> first_pos(s@, *k) is None,
{
    let mut i: usize = 0;
    proof {
        assert(s@.skip(0) =~= s@);
    }
    while i < s.len()
        invariant
            0 <= i <= s@.len(),
            first_pos(s@, *k) == (match first_pos(s@.skip(i as int), *k) {
                Some(j) => Some(j + i),
                None => None,
            }),
        decreases s.len() - i,
    {
        let ghost rest = s@.skip(i as int);
        proof {
            assert(rest[0] == s@[i as int]);
            assert(rest.drop_first() =~= s@.skip(i + 1));
        }
        if s[i].0.same(k) {
            return Some(i);
        }
        i = i + 1;
    }
    proof {
        assert(s@.skip(i as int) =~= Seq::<(NodeID, V)>::empty());
    }
    None
}

impl ProviderStorage {
    pub closed spec fn view(&self) -> ProviderView {
        ProviderView {
            subscribed: self.subscribed_clients@,
            messages: self.client_messages@.map_values(|e: (NodeID, Vec<u64>)| (e.0, e.1@)),
            index: self.client_message_index@,
        }
    }

    /// An empty storage.
    pub fn new() -> (r: Self)
        ensures
            r.view().subscribed.len() == 0,
            r.view().messages.len() == 0,
            r.view().index.len() == 0,
    {
        ProviderStorage { subscribed_clients: Vec::new(), client_messages: Vec::new(), client_message_index: Vec::new() }
    }

    /// The subscribed clients.
    pub fn get_subscribed_clients(&self) -> (r: &Vec<NodeID>)
        ensures
            r@ == self.view().subscribed,
    {
        &self.subscribed_clients
    }

    /// Records a subscribed client, once.
    pub fn add_subscribed_client(&mut self, client: NodeID)
        ensures
            final(self).view() == (ProviderView {
                subscribed: if old(self).view().subscribed.contains(client) {
                    old(self).view().subscribed
                } else {
                    old(self).view().subscribed.push(client)
                },
                ..old(self).view()
            }),
    {
        if !ids_contain(&self.subscribed_clients, &client) {
            self.subscribed_clients.push(client);
        }
        proof {
            assert(self.view().messages =~= old(self).view().messages);
        }
    }

    /// Keeps the message `handle` for `client`, after those already kept.
    pub fn add_client_message(&mut self, client: NodeID, handle: u64)
        ensures
            final(self).view() == (ProviderView {
                messages: set_entry(
                    old(self).view().messages,
                    client,
                    messages_of(old(self).view().messages, client).push(handle),
                ),
                ..old(self).view()
            }),
    {
        let ghost m0 = self.view().messages;
        proof {
            lemma_first_pos_map(self.client_messages@, client);
        }
        proof {
            lemma_first_pos_some(self.client_messages@, client);
        }
        match find_pos(&self.client_messages, &client) {
            Some(i) => {
                let ghost c0 = self.client_messages@;
                let (k, mut v) = self.client_messages.remove(i);
                assert(k == client && v@ == messages_of(m0, client));
                v.push(handle);
                self.client_messages.insert(i, (k, v));
                proof {
                    assert(self.client_messages@ =~= c0.update(i as int, (k, v)));
                }
            },
            None => {
                let mut v: Vec<u64> = Vec::new();
                v.push(handle);
                self.client_messages.push((client, v));
            },
        }
        proof {
            assert(self.view().messages =~= set_entry(m0, client, messages_of(m0, client).push(handle)));
        }
    }

    /// The messages kept for `client`.
    pub fn get_client_messages(&self, client: NodeID) -> (r: Vec<u64>)
        ensures
            r@ == messages_of(self.view().messages, client),
    {
        proof {
            lemma_first_pos_map(self.client_messages@, client);
        }
        match find_pos(&self.client_messages, &client) {
            Some(i) => self.client_messages[i].1.clone(),
            None => Vec::new(),
        }
    }

    /// How many messages `client` already pulled.
    pub fn get_client_message_index(&self, client: NodeID) -> (r: usize)
        ensures
            r == index_of(self.view().index, client),
    {
        match find_pos(&self.client_message_index, &client) {
            Some(i) => self.client_message_index[i].1,
            None => 0,
        }
    }

    /// Sets how many messages `client` already pulled.
    pub fn update_client_message_index(&mut self, client: NodeID, index: usize)
        ensures
            final(self).view() == (ProviderView {
                index: set_entry(old(self).view().index, client, index),
                ..old(self).view()
            }),
    {
        match find_pos(&self.client_message_index, &client) {
            Some(i) => self.client_message_index.set(i, (client, index)),
            None => self.client_message_index.push((client, index)),
        }
        proof {
            assert(self.view().messages =~= old(self).view().messages);
        }
    }

    /// The reply to a pull request of `client`: the messages it did not pull yet,
    /// at most `max_retrieve`, counted as pulled, and as many dummies as it takes
    /// to make `max_retrieve` messages.
    pub fn create_pull_reply(&mut self, client: NodeID, max_retrieve: usize) -> (r: PullReply)
        ensures
            (final(self).view(), (r.client, r.messages@, r.dummies)) == pull_spec(old(self).view(), client, max_retrieve),
    {
        let idx = self.get_client_message_index(client);
        let all = self.get_client_messages(client);
        let mut sent: Vec<u64> = Vec::new();
        if idx < all.len() {
            let end = if all.len() - idx <= max_retrieve {
                all.len()
            } else {
                idx + max_retrieve
            };
            let mut j = idx;
            while j < end
                invariant
                    idx <= j <= end,
                    end <= all@.len(),
                    sent@ == all@.subrange(idx as int, j as int),
                decreases end - j,
            {
                proof {
                    assert(all@.subrange(idx as int, j + 1) =~= all@.subrange(idx as int, j as int).push(all@[j as int]));
                }
                sent.push(all[j]);
                j = j + 1;
            }
            proof {
                assert(all@.skip(idx as int) =~= all@.subrange(idx as int, all@.len() as int));
            }
        }
        let n = sent.len();
        self.update_client_message_index(client, idx + n);
        PullReply { client, messages: sent, dummies: max_retrieve - n }
    }

    /// Handles a final hop at a provider. `msg` is the decrypted and decoded
    /// payload, `None` if that failed; a pull reply holds `max_retrieve` messages.
    pub fn provider_final_hop(
        &mut self,
        destination: NodeID,
        our_id: NodeID,
        msg: Option<LoopixMsg>,
        max_retrieve: usize,
    ) -> (r: FinalHop)
        ensures
            (final(self).view(), r@) == provider_final_hop_spec(old(self).view(), destination, our_id, msg, max_retrieve),
    {
        let m = if destination.same(&our_id) {
            match msg {
                Some(lm) => {
                    let name = "Loopix".to_owned();
                    if lm.module == name {
                        lm.message
                    } else {
                        None
                    }
                },
                None => None,
            }
        } else {
            None
        };
        assert(m == loopix_message(destination, our_id, msg));
        match m {
            None => FinalHop { node: destination, payload: None, reply: None, message: None },
            Some(m) => match m {
                MessageType::PullRequest(c) => {
                    let reply = self.create_pull_reply(c, max_retrieve);
                    FinalHop { node: c, payload: None, reply: Some(reply), message: Some(m) }
                },
                MessageType::SubscriptionRequest(c) => {
                    self.add_subscribed_client(c);
                    FinalHop { node: c, payload: None, reply: None, message: Some(m) }
                },
                _ => FinalHop { node: destination, payload: None, reply: None, message: Some(m) },
            },
        }
    }
}

proof fn lemma_first_pos_some<V>(s: Seq<(NodeID, V)>, k: NodeID)
    ensures
        first_pos(s, k) matches Some(i) ==> 0 <= i < s.len() && s[i].0 == k,
        first_pos(s, k) is None ==> forall|j: int| 0 <= j < s.len() ==> (#[trigger] s[j]).0 != k,
    decreases s.len(),
{
    if s.len() > 0 {
        lemma_first_pos_some(s.drop_first(), k);
        if s[0].0 != k {
            assert forall|j: int| 1 <= j < s.len() implies s.drop_first()[j - 1] == #[trigger] s[j] by {}
        }
    }
}

proof fn lemma_first_pos_map(s: Seq<(NodeID, Vec<u64>)>, k: NodeID)
    ensures
        first_pos(s.map_values(|e: (NodeID, Vec<u64>)| (e.0, e.1@)), k) == first_pos(s, k),
    decreases s.len(),
{
    if s.len() > 0 {
        let t = s.map_values(|e: (NodeID, Vec<u64>)| (e.0, e.1@));
        assert(t.drop_first() =~= s.drop_first().map_values(|e: (NodeID, Vec<u64>)| (e.0, e.1@)));
        lemma_first_pos_map(s.drop_first(), k);
    }
}

} // verus!
