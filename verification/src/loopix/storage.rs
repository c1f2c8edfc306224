use crate::nodeid::{NodeID, U256};
use vstd::prelude::*;

verus! {

/// The position of the first pair with key `k`, or -1.
pub open spec fn key_pos(m: Seq<(NodeID, NodeID)>, k: NodeID) -> int
    decreases m.len(),
{
    if m.len() == 0 {
        -1
    } else {
        let p = key_pos(m.drop_last(), k);
        if p >= 0 {
            p
        } else if m.last().0 == k {
            m.len() - 1
        } else {
            -1
        }
    }
}

/// The map after `k` was mapped to `v`, replacing an earlier value.
pub open spec fn insert_pair(m: Seq<(NodeID, NodeID)>, k: NodeID, v: NodeID) -> Seq<(NodeID, NodeID)> {
    if key_pos(m, k) >= 0 {
        m.update(key_pos(m, k), (k, v))
    } else {
        m.push((k, v))
    }
}

/// The client storage built from the (client, provider) pairs, in turn: this node's
/// provider, the other clients, and the provider of each other client.
pub open spec fn client_storage_of(pairs: Seq<(NodeID, NodeID)>, our: NodeID) -> (
    Option<NodeID>,
    Seq<NodeID>,
    Seq<(NodeID, NodeID)>,
)
    decreases pairs.len(),
{
    if pairs.len() == 0 {
        (None, Seq::empty(), Seq::empty())
    } else {
        let (p, c, m) = client_storage_of(pairs.drop_last(), our);
        let (client, provider) = pairs.last();
        if client == our {
            (Some(provider), c, m)
        } else {
            (p, c.push(client), insert_pair(m, client, provider))
        }
    }
}

/// With a path length `pl`, client `i` is node `i` and its provider node `i + pl`,
/// for `i < pl`.
pub open spec fn pairs_path_length(all: Seq<NodeID>, pl: int) -> Seq<(NodeID, NodeID)> {
    Seq::new(pl as nat, |i: int| (all[i], all[i + pl]))
}

/// With `n` clients, client `i` is node `i` and its provider node `n + i % pl`, for
/// `i < n`.
pub open spec fn pairs_n_clients(all: Seq<NodeID>, pl: int, n: int) -> Seq<(NodeID, NodeID)> {
    Seq::new(n as nat, |i: int| (all[i], all[n + i % pl]))
}

/// The client side of the Loopix network: the provider of this node, the other
/// clients, and the provider of each of them.
#[derive(Clone, Debug, PartialEq)]
pub struct ClientStorage {
    pub our_provider: Option<NodeID>,
    pub clients: Vec<NodeID>,
    pub client_to_provider_map: Vec<(NodeID, NodeID)>,
}

impl ClientStorage {
    pub open spec fn view(&self) -> (Option<NodeID>, Seq<NodeID>, Seq<(NodeID, NodeID)>) {
        (self.our_provider, self.clients@, self.client_to_provider_map@)
    }

    pub fn new(
        our_provider: Option<NodeID>,
        clients: Vec<NodeID>,
        client_to_provider_map: Vec<(NodeID, NodeID)>,
    ) -> (r: Self)
        ensures
            r@ == (our_provider, clients@, client_to_provider_map@),
    {
        ClientStorage { clients, our_provider, client_to_provider_map }
    }

    fn insert(&mut self, client: NodeID, provider: NodeID)
        ensures
            final(self).our_provider == old(self).our_provider,
            final(self).clients@ == old(self).clients@,
            final(self).client_to_provider_map@ == insert_pair(
                old(self).client_to_provider_map@,
                client,
                provider,
            ),
    {
        let ghost m = self.client_to_provider_map@;
        let mut i: usize = 0;
        while i < self.client_to_provider_map.len()
            invariant
                0 <= i <= self.client_to_provider_map.len(),
                m == self.client_to_provider_map@,
                m == old(self).client_to_provider_map@,
                self.our_provider == old(self).our_provider,
                self.clients@ == old(self).clients@,
                key_pos(m.take(i as int), client) == -1,
            decreases self.client_to_provider_map.len() - i,
        {
            proof {
                assert(m.take(i + 1).drop_last() =~= m.take(i as int));
            }
            if self.client_to_provider_map[i].0.same(&client) {
                proof {
                    assert(m[i as int].0 == client);
                    lemma_key_pos_prefix(m, i as int + 1, client);
                    assert(key_pos(m, client) == i as int);
                }
                self.client_to_provider_map.set(i, (client, provider));
                proof {
                    assert(self.client_to_provider_map@ =~= m.update(i as int, (client, provider)));
                }
                return;
            }
            i = i + 1;
        }
        proof {
            assert(m.take(m.len() as int) =~= m);
        }
        self.client_to_provider_map.push((client, provider));
    }

    /// The client storage built from the (client, provider) pairs, in turn.
    fn from_pairs(our: NodeID, pairs: Vec<(NodeID, NodeID)>) -> (r: Self)
        ensures
            r@ == client_storage_of(pairs@, our),
    {
        let mut s = ClientStorage { our_provider: None, clients: Vec::new(), client_to_provider_map: Vec::new() };
        let mut i: usize = 0;
        proof {
            assert(s@ =~= client_storage_of(pairs@.take(0), our));
        }
        while i < pairs.len()
            invariant
                0 <= i <= pairs.len(),
                s@ == client_storage_of(pairs@.take(i as int), our),
            decreases pairs.len() - i,
        {
            proof {
                assert(pairs@.take(i + 1).drop_last() =~= pairs@.take(i as int));
            }
            let (client, provider) = pairs[i];
            if client.same(&our) {
                s.our_provider = Some(provider);
            } else {
                s.clients.push(client);
                s.insert(client, provider);
            }
            i = i + 1;
        }
        proof {
            assert(pairs@.take(pairs.len() as int) =~= pairs@);
        }
        s
    }

    /// With `n_clients` clients: client `i` is node `i`, and its provider node
    /// `n_clients + i % path_length`.
    pub fn default_with_path_length_and_n_clients(
        our_node_id: NodeID,
        all_nodes: &Vec<NodeID>,
        path_length: usize,
        n_clients: usize,
    ) -> (r: Self)
        requires
            n_clients > 0 ==> path_length > 0,
            n_clients > 0 ==> n_clients + (if path_length < n_clients {
                path_length as int
            } else {
                n_clients as int
            }) <= all_nodes@.len(),
        ensures
            r@ == client_storage_of(
                pairs_n_clients(all_nodes@, path_length as int, n_clients as int),
                our_node_id,
            ),
    {
        let mut pairs: Vec<(NodeID, NodeID)> = Vec::new();
        let mut i: usize = 0;
        while i < n_clients
            invariant
                0 <= i <= n_clients,
                n_clients > 0 ==> path_length > 0,
                n_clients > 0 ==> n_clients + (if path_length < n_clients {
                    path_length as int
                } else {
                    n_clients as int
                }) <= all_nodes@.len(),
                pairs@ =~= pairs_n_clients(all_nodes@, path_length as int, n_clients as int).take(
                    i as int,
                ),
            decreases n_clients - i,
        {
            let m = i % path_length;
            assert(m < path_length && m <= i) by (nonlinear_arith)
                requires
                    path_length > 0,
                    m == i % path_length,
            ;
            assert(all_nodes.len() == all_nodes@.len());
            let index_provider = n_clients + m;
            pairs.push((all_nodes[i], all_nodes[index_provider]));
            i = i + 1;
        }
        proof {
            assert(pairs_n_clients(all_nodes@, path_length as int, n_clients as int).take(
                n_clients as int,
            ) =~= pairs_n_clients(all_nodes@, path_length as int, n_clients as int));
        }
        Self::from_pairs(our_node_id, pairs)
    }

    /// With a path length: client `i` is node `i`, and its provider node
    /// `i + path_length`, for `i < path_length`.
    pub fn default_with_path_length(our_node_id: NodeID, all_nodes: &Vec<NodeID>, path_length: usize) -> (r:
        Self)
        requires
            2 * path_length <= all_nodes@.len(),
        ensures
            r@ == client_storage_of(pairs_path_length(all_nodes@, path_length as int), our_node_id),
    {
        let mut pairs: Vec<(NodeID, NodeID)> = Vec::new();
        let mut i: usize = 0;
        while i < path_length
            invariant
                0 <= i <= path_length,
                2 * path_length <= all_nodes@.len(),
                pairs@ =~= pairs_path_length(all_nodes@, path_length as int).take(i as int),
            decreases path_length - i,
        {
            assert(all_nodes.len() == all_nodes@.len());
            pairs.push((all_nodes[i], all_nodes[i + path_length]));
            i = i + 1;
        }
        proof {
            assert(pairs_path_length(all_nodes@, path_length as int).take(path_length as int)
                =~= pairs_path_length(all_nodes@, path_length as int));
        }
        Self::from_pairs(our_node_id, pairs)
    }
}

proof fn lemma_key_pos_prefix(m: Seq<(NodeID, NodeID)>, j: int, k: NodeID)
    requires
        0 < j <= m.len(),
        key_pos(m.take(j - 1), k) == -1,
        m[j - 1].0 == k,
    ensures
        key_pos(m, k) == j - 1,
    decreases m.len(),
{
    assert(m.take(j).drop_last() =~= m.take(j - 1));
    if j < m.len() {
        assert(m.drop_last().take(j) =~= m.take(j));
        assert(m.drop_last().take(j - 1) =~= m.take(j - 1));
        lemma_key_pos_prefix(m.drop_last(), j, k);
    } else {
        assert(m.take(j) =~= m);
        assert(m.drop_last() =~= m.take(j - 1));
    }
}

/// The nodes from position `a` on, at most `n` of them.
pub open spec fn slice(s: Seq<NodeID>, a: int, n: int) -> Seq<NodeID> {
    let lo = if a < s.len() {
        a
    } else {
        s.len() as int
    };
    let hi = if a + n < s.len() {
        a + n
    } else {
        s.len() as int
    };
    s.subrange(lo, hi)
}

/// The nodes, each once, in order, without `x`.
pub open spec fn distinct_without(s: Seq<NodeID>, x: NodeID) -> Seq<NodeID>
    decreases s.len(),
{
    if s.len() == 0 {
        Seq::empty()
    } else {
        let r = distinct_without(s.drop_last(), x);
        if s.last() == x || r.contains(s.last()) {
            r
        } else {
            r.push(s.last())
        }
    }
}

/// The position of the first occurrence of `x`, or -1.
pub open spec fn pos_of(s: Seq<NodeID>, x: NodeID) -> int
    decreases s.len(),
{
    if s.len() == 0 {
        -1
    } else {
        let p = pos_of(s.drop_last(), x);
        if p >= 0 {
            p
        } else if s.last() == x {
            s.len() - 1
        } else {
            -1
        }
    }
}

proof fn lemma_pos_of_prefix(s: Seq<NodeID>, j: int, x: NodeID)
    requires
        0 < j <= s.len(),
        pos_of(s.take(j - 1), x) == -1,
        s[j - 1] == x,
    ensures
        pos_of(s, x) == j - 1,
    decreases s.len(),
{
    assert(s.take(j).drop_last() =~= s.take(j - 1));
    if j < s.len() {
        assert(s.drop_last().take(j) =~= s.take(j));
        assert(s.drop_last().take(j - 1) =~= s.take(j - 1));
        lemma_pos_of_prefix(s.drop_last(), j, x);
    } else {
        assert(s.take(j) =~= s);
        assert(s.drop_last() =~= s.take(j - 1));
    }
}

/// The nodes without the first occurrence of `x`.
pub open spec fn remove_first(s: Seq<NodeID>, x: NodeID) -> Seq<NodeID> {
    if pos_of(s, x) >= 0 {
        s.remove(pos_of(s, x))
    } else {
        s
    }
}

/// The network of a Loopix node: the layers of mixes and the providers, without the
/// node itself.
#[derive(Clone, Debug, PartialEq)]
pub struct NetworkTopology {
    pub mixes: Vec<Vec<NodeID>>,
    pub providers: Vec<NodeID>,
}

fn slice_exec(s: &Vec<NodeID>, a: usize, n: usize) -> (r: Vec<NodeID>)
    requires
        a + n <= usize::MAX,
    ensures
        r@ == slice(s@, a as int, n as int),
{
    let lo = if a < s.len() {
        a
    } else {
        s.len()
    };
    let hi = if a + n < s.len() {
        a + n
    } else {
        s.len()
    };
    let mut r: Vec<NodeID> = Vec::new();
    let mut i = lo;
    while i < hi
        invariant
            lo <= i <= hi,
            hi <= s.len(),
            r@ =~= s@.subrange(lo as int, i as int),
        decreases hi - i,
    {
        r.push(s[i]);
        i = i + 1;
    }
    r
}

fn remove_first_exec(s: &mut Vec<NodeID>, x: &NodeID)
    ensures
        final(s)@ == remove_first(old(s)@, *x),
{
    let mut i: usize = 0;
    while i < s.len()
        invariant
            0 <= i <= s.len(),
            s@ == old(s)@,
            pos_of(s@.take(i as int), *x) == -1,
        decreases s.len() - i,
    {
        proof {
            assert(s@.take(i + 1).drop_last() =~= s@.take(i as int));
        }
        if s[i].same(x) {
            proof {
                lemma_pos_of_prefix(s@, i as int + 1, *x);
            }
            s.remove(i);
            return;
        }
        i = i + 1;
    }
    proof {
        assert(s@.take(s@.len() as int) =~= s@);
    }
}

impl NetworkTopology {
    /// Given the path length `pl`: the nodes `pl..2 pl` are the providers, and the
    /// `pl` layers of mixes follow, `pl` nodes each.
    pub fn default_with_path_length(node_id: NodeID, path_length: usize, all_nodes: &Vec<NodeID>) -> (r:
        Self)
        requires
            3 * path_length + path_length * path_length <= usize::MAX,
        ensures
            r.providers@ == distinct_without(
                slice(all_nodes@, path_length as int, path_length as int),
                node_id,
            ),
            r.mixes@.len() == path_length,
            forall|i: int|
                0 <= i < path_length ==> (#[trigger] r.mixes@[i])@ == remove_first(
                    slice(all_nodes@, 2 * path_length + i * path_length, path_length as int),
                    node_id,
                ),
    {
        Self::build(node_id, path_length, path_length, path_length, all_nodes)
    }

    /// Given the path length `pl` and `n` clients: the nodes `n..n + pl` are the
    /// providers, and the `pl` layers of mixes follow, `pl - 1` nodes each.
    pub fn default_with_path_length_and_n_clients(
        node_id: NodeID,
        path_length: usize,
        n_clients: usize,
        all_nodes: &Vec<NodeID>,
    ) -> (r: Self)
        requires
            n_clients + 2 * path_length + path_length * path_length <= usize::MAX,
        ensures
            r.providers@ == distinct_without(
                slice(all_nodes@, n_clients as int, path_length as int),
                node_id,
            ),
            r.mixes@.len() == path_length,
            forall|i: int|
                0 <= i < path_length ==> (#[trigger] r.mixes@[i])@ == remove_first(
                    slice(
                        all_nodes@,
                        n_clients + path_length + i * (path_length - 1),
                        path_length - 1,
                    ),
                    node_id,
                ),
    {
        let layer = if path_length > 0 {
            path_length - 1
        } else {
            0
        };
        Self::build(node_id, path_length, n_clients, layer, all_nodes)
    }

    /// Providers from position `first`, then `pl` layers of `layer` mixes each.
    fn build(node_id: NodeID, pl: usize, first: usize, layer: usize, all_nodes: &Vec<NodeID>) -> (r: Self)
        requires
            layer <= pl,
            first + 2 * pl + pl * pl <= usize::MAX,
        ensures
            r.providers@ == distinct_without(slice(all_nodes@, first as int, pl as int), node_id),
            r.mixes@.len() == pl,
            forall|i: int|
                0 <= i < pl ==> (#[trigger] r.mixes@[i])@ == remove_first(
                    slice(all_nodes@, first + pl + i * layer, layer as int),
                    node_id,
                ),
    {
        let candidates = slice_exec(all_nodes, first, pl);
        let mut providers: Vec<NodeID> = Vec::new();
        let mut k: usize = 0;
        while k < candidates.len()
            invariant
                0 <= k <= candidates.len(),
                providers@ == distinct_without(candidates@.take(k as int), node_id),
            decreases candidates.len() - k,
        {
            proof {
                assert(candidates@.take(k + 1).drop_last() =~= candidates@.take(k as int));
            }
            let c = candidates[k];
            if !c.same(&node_id) && !crate::nodeid::ids_contain(&providers, &c) {
                providers.push(c);
            }
            k = k + 1;
        }
        proof {
            assert(candidates@.take(candidates.len() as int) =~= candidates@);
        }
        let mut mixes: Vec<Vec<NodeID>> = Vec::new();
        let mut i: usize = 0;
        while i < pl
            invariant
                0 <= i <= pl,
                layer <= pl,
                first + 2 * pl + pl * pl <= usize::MAX,
                mixes@.len() == i,
                forall|j: int|
                    0 <= j < i ==> (#[trigger] mixes@[j])@ == remove_first(
                        slice(all_nodes@, first + pl + j * layer, layer as int),
                        node_id,
                    ),
            decreases pl - i,
        {
            assert(i * layer <= pl * pl) by (nonlinear_arith)
                requires
                    i < pl,
                    layer <= pl,
            ;
            let mut l = slice_exec(all_nodes, first + pl + i * layer, layer);
            remove_first_exec(&mut l, &node_id);
            mixes.push(l);
            i = i + 1;
        }
        NetworkTopology { mixes, providers }
    }
}

} // verus!
