use vstd::prelude::*;

use crate::nodeid::{ids_contain, NodeID, U256};

verus! {

broadcast use vstd::array::group_array_axioms;

/// Whatever hardcoded config you want to pass to your module.
/// It must have a default option.
#[derive(Debug, Clone, Copy, PartialEq, Eq, Structural)]
pub struct DHTRoutingConfig {
    pub multiplier: u32,
    pub ping_period: u32,
    pub ping_timeout: u32,
}

impl Default for DHTRoutingConfig {
    fn default() -> (r: Self)
        ensures
            r == (DHTRoutingConfig { multiplier: 1, ping_period: 60, ping_timeout: 90 }),
    {
        Self { multiplier: 1, ping_period: 60, ping_timeout: 90 }
    }
}

/// How long ago a node answered.
#[derive(Debug, Clone, Copy, PartialEq, Eq, Structural)]
pub struct NodeStats {
    pub last_ping: u32,
}

/// The storage will probably evolve over time, so it's a good idea to store the different
/// versions in an enum.
/// This allows to update to the latest version, supposing that new fields can be filled
/// with default values.
#[derive(Debug, Clone, Copy, PartialEq, Eq, Structural)]
pub enum DHTRoutingStorageSave {
    V1(DHTRoutingStorage),
}

impl DHTRoutingStorageSave {
    pub fn to_latest(self) -> (r: DHTRoutingStorage)
        ensures
            match self {
                DHTRoutingStorageSave::V1(es) => r == es,
            },
    {
        match self {
            DHTRoutingStorageSave::V1(es) => es,
        }
    }
}

/// The data of the routing module that persists over reloads of the node.
#[derive(Debug, Clone, Copy, PartialEq, Eq, Structural)]
pub struct DHTRoutingStorage {
    pub counter: u32,
}

impl Default for DHTRoutingStorage {
    fn default() -> (r: Self)
        ensures
            r.counter == 0,
    {
        Self { counter: 0 }
    }
}

impl DHTRoutingStorage {
    /// The storage as it is saved: in its latest version.
    pub fn to_save(&self) -> (r: DHTRoutingStorageSave)
        ensures
            r == DHTRoutingStorageSave::V1(*self),
    {
        DHTRoutingStorageSave::V1(*self)
    }
}

/// The index of the entry of `id`.
pub open spec fn find_node(s: Seq<(NodeID, NodeStats)>, id: NodeID) -> Option<int>
    decreases s.len(),
{
    if s.len() == 0 {
        None
    } else {
        match find_node(s.drop_last(), id) {
            Some(i) => Some(i),
            None => if s.last().0 == id {
                Some(s.len() - 1)
            } else {
                None
            },
        }
    }
}

/// The nodes after one tick: their counters advanced, and the nodes whose
/// counter reached the ping period or the timeout, in order.
pub open spec fn tick_nodes(s: Seq<(NodeID, NodeStats)>, period: u32, timeout: u32) -> (Seq<(NodeID, NodeStats)>, Seq<NodeID>, Seq<NodeID>)
    decreases s.len(),
{
    if s.len() == 0 {
        (Seq::empty(), Seq::empty(), Seq::empty())
    } else {
        let (t, ping, tout) = tick_nodes(s.drop_last(), period, timeout);
        let (id, ns) = s.last();
        let l = (ns.last_ping + 1) as u32;
        let t2 = t.push((id, NodeStats { last_ping: l }));
        if l == period {
            (t2, ping.push(id), tout)
        } else if l == timeout {
            (t2, ping, tout.push(id))
        } else {
            (t2, ping, tout)
        }
    }
}

/// The entries whose node is in `keep`, in order.
pub open spec fn retain_nodes(s: Seq<(NodeID, NodeStats)>, keep: Seq<NodeID>) -> Seq<(NodeID, NodeStats)>
    decreases s.len(),
{
    if s.len() == 0 {
        Seq::empty()
    } else if keep.contains(s.last().0) {
        retain_nodes(s.drop_last(), keep).push(s.last())
    } else {
        retain_nodes(s.drop_last(), keep)
    }
}

/// The DHTRoutingCore structure holds a configuration and the storage
/// needed to persist over reloads of the node.
#[derive(Debug, Clone, PartialEq)]
pub struct DHTRoutingCore {
    pub storage: DHTRoutingStorage,
    pub config: DHTRoutingConfig,
    pub nodes: Vec<(NodeID, NodeStats)>,
    pub nodes_timeout: Vec<NodeID>,
    pub nodes_ping: Vec<NodeID>,
}

/// The state of the routing core.
pub struct DHTRoutingCoreView {
    pub storage: DHTRoutingStorage,
    pub config: DHTRoutingConfig,
    pub nodes: Seq<(NodeID, NodeStats)>,
    pub nodes_timeout: Seq<NodeID>,
    pub nodes_ping: Seq<NodeID>,
}

impl View for DHTRoutingCore {
    type V = DHTRoutingCoreView;

    open spec fn view(&self) -> DHTRoutingCoreView {
        DHTRoutingCoreView {
            storage: self.storage,
            config: self.config,
            nodes: self.nodes@,
            nodes_timeout: self.nodes_timeout@,
            nodes_ping: self.nodes_ping@,
        }
    }
}

impl DHTRoutingCore {
    /// Initializes a new DHTRoutingCore.
    pub fn new(storage: DHTRoutingStorage, config: DHTRoutingConfig) -> (r: Self)
        ensures
            r@ == (DHTRoutingCoreView {
                storage,
                config,
                nodes: Seq::empty(),
                nodes_timeout: Seq::empty(),
                nodes_ping: Seq::empty(),
            }),
    {
        Self { storage, config, nodes: Vec::new(), nodes_timeout: Vec::new(), nodes_ping: Vec::new() }
    }

    /// Adds `i` times the multiplier to the counter.
    pub fn increase(&mut self, i: u32)
        requires
            old(self)@.storage.counter + i * old(self)@.config.multiplier <= u32::MAX,
        ensures
            final(self)@ == (DHTRoutingCoreView {
                storage: DHTRoutingStorage {
                    counter: (old(self)@.storage.counter + i * old(self)@.config.multiplier) as u32,
                },
                ..old(self)@
            }),
    {
        assert(i * self.config.multiplier <= u32::MAX) by (nonlinear_arith)
            requires
                self.storage.counter + i * self.config.multiplier <= u32::MAX,
                self.storage.counter >= 0,
        ;
        self.storage.counter = self.storage.counter + i * self.config.multiplier;
    }

    /// The node answered: its counter starts again from zero.
    pub fn ping(&mut self, id: U256)
        ensures
            final(self)@ == (DHTRoutingCoreView {
                nodes: match find_node(old(self)@.nodes, id) {
                    Some(i) => old(self)@.nodes.update(i, (id, NodeStats { last_ping: 0 })),
                    None => old(self)@.nodes.push((id, NodeStats { last_ping: 0 })),
                },
                ..old(self)@
            }),
    {
        let mut i: usize = 0;
        while i < self.nodes.len()
            invariant
                0 <= i <= self.nodes.len(),
                self@ == old(self)@,
                find_node(self@.nodes.take(i as int), id) is None,
            decreases self.nodes.len() - i,
        {
            proof {
                assert(self@.nodes.take(i + 1).drop_last() =~= self@.nodes.take(i as int));
            }
            if self.nodes[i].0.same(&id) {
                proof {
                    lemma_find_node_prefix(self@.nodes, id, i + 1);
                }
                self.nodes.set(i, (id, NodeStats { last_ping: 0 }));
                return;
            }
            i = i + 1;
        }
        proof {
            assert(self@.nodes.take(self@.nodes.len() as int) =~= self@.nodes);
        }
        self.nodes.push((id, NodeStats { last_ping: 0 }));
    }

    /// Advances the counters of all nodes by one tick; nodes whose counter reaches
    /// the ping period are to be pinged, those whose counter reaches the timeout
    /// time out. Then only the nodes that timed out are kept.
    pub fn tick(&mut self)
        requires
            forall|i: int| 0 <= i < old(self)@.nodes.len() ==> (#[trigger] old(self)@.nodes[i]).1.last_ping < u32::MAX,
        ensures
            ({
                let (t, ping, tout) = tick_nodes(old(self)@.nodes, old(self)@.config.ping_period, old(self)@.config.ping_timeout);
                final(self)@ == DHTRoutingCoreView {
                    nodes: retain_nodes(t, old(self)@.nodes_timeout + tout),
                    nodes_ping: old(self)@.nodes_ping + ping,
                    nodes_timeout: old(self)@.nodes_timeout + tout,
                    ..old(self)@
                }
            }),
    {
        let ghost old_nodes = self@.nodes;
        let mut i: usize = 0;
        while i < self.nodes.len()
            invariant
                0 <= i <= self.nodes.len(),
                self.nodes@.len() == old_nodes.len(),
                old_nodes == old(self)@.nodes,
                forall|j: int| 0 <= j < old_nodes.len() ==> (#[trigger] old_nodes[j]).1.last_ping < u32::MAX,
                forall|j: int| i <= j < old_nodes.len() ==> (#[trigger] self.nodes@[j]) == old_nodes[j],
                ({
                    let (t, ping, tout) = tick_nodes(old_nodes.take(i as int), self.config.ping_period, self.config.ping_timeout);
                    &&& self.nodes@.take(i as int) == t
                    &&& self.nodes_ping@ == old(self)@.nodes_ping + ping
                    &&& self.nodes_timeout@ == old(self)@.nodes_timeout + tout
                }),
                self.storage == old(self).storage,
                self.config == old(self).config,
            decreases self.nodes.len() - i,
        {
            proof {
                assert(old_nodes.take(i + 1).drop_last() =~= old_nodes.take(i as int));
            }
            let (id, ns) = self.nodes[i];
            let l = ns.last_ping + 1;
            let ghost before = self.nodes@;
            let ghost bp = self.nodes_ping@;
            let ghost bt = self.nodes_timeout@;
            self.nodes.set(i, (id, NodeStats { last_ping: l }));
            if l == self.config.ping_period {
                self.nodes_ping.push(id);
            } else if l == self.config.ping_timeout {
                self.nodes_timeout.push(id);
            }
            proof {
                assert(self.nodes@.take(i + 1) =~= before.take(i as int).push((id, NodeStats { last_ping: l })));
                assert(self.nodes_ping@ =~= if l == self.config.ping_period { bp.push(id) } else { bp });
                assert(self.nodes_timeout@ =~= if l != self.config.ping_period && l == self.config.ping_timeout { bt.push(id) } else { bt });
            }
            i = i + 1;
        }
        proof {
            assert(old_nodes.take(old_nodes.len() as int) =~= old_nodes);
            assert(self.nodes@.take(self.nodes@.len() as int) =~= self.nodes@);
        }
        let mut kept: Vec<(NodeID, NodeStats)> = Vec::new();
        let mut j: usize = 0;
        while j < self.nodes.len()
            invariant
                0 <= j <= self.nodes.len(),
                kept@ == retain_nodes(self.nodes@.take(j as int), self.nodes_timeout@),
            decreases self.nodes.len() - j,
        {
            proof {
                assert(self.nodes@.take(j + 1).drop_last() =~= self.nodes@.take(j as int));
            }
            if ids_contain(&self.nodes_timeout, &self.nodes[j].0) {
                kept.push(self.nodes[j]);
            }
            j = j + 1;
        }
        proof {
            assert(self.nodes@.take(self.nodes@.len() as int) =~= self.nodes@);
        }
        self.nodes = kept;
    }

    /// Returns and forgets the nodes that timed out.
    pub fn nodes_timeout(&mut self) -> (r: Vec<NodeID>)
        ensures
            r@ == old(self)@.nodes_timeout,
            final(self)@ == (DHTRoutingCoreView { nodes_timeout: Seq::empty(), ..old(self)@ }),
    {
        let mut r: Vec<NodeID> = Vec::new();
        std::mem::swap(&mut r, &mut self.nodes_timeout);
        r
    }

    /// Returns and forgets the nodes to ping.
    pub fn nodes_ping(&mut self) -> (r: Vec<NodeID>)
        ensures
            r@ == old(self)@.nodes_ping,
            final(self)@ == (DHTRoutingCoreView { nodes_ping: Seq::empty(), ..old(self)@ }),
    {
        let mut r: Vec<NodeID> = Vec::new();
        std::mem::swap(&mut r, &mut self.nodes_ping);
        r
    }

    /// The identifiers of the known nodes.
    pub fn node_ids(&self) -> (r: Vec<NodeID>)
        ensures
            r@ == self@.nodes.map_values(|e: (NodeID, NodeStats)| e.0),
    {
        let mut r: Vec<NodeID> = Vec::new();
        let mut i: usize = 0;
        while i < self.nodes.len()
            invariant
                0 <= i <= self.nodes.len(),
                r@ == self@.nodes.take(i as int).map_values(|e: (NodeID, NodeStats)| e.0),
            decreases self.nodes.len() - i,
        {
            proof {
                assert(self@.nodes.take(i + 1).map_values(|e: (NodeID, NodeStats)| e.0) =~= self@.nodes.take(i as int).map_values(|e: (NodeID, NodeStats)| e.0).push(self@.nodes[i as int].0));
            }
            r.push(self.nodes[i].0);
            i = i + 1;
        }
        proof {
            assert(self@.nodes.take(self@.nodes.len() as int) =~= self@.nodes);
        }
        r
    }

    /// If the core knows of a closer node, returns the ID of the closer node.
    /// Else it returns None. No closer node is ever known.
    pub fn next_hop(&self, id: NodeID) -> (r: Option<NodeID>)
        ensures
            r is None,
    {
        None
    }
}

proof fn lemma_find_node_prefix(s: Seq<(NodeID, NodeStats)>, id: NodeID, k: int)
    requires
        0 <= k <= s.len(),
        find_node(s.take(k), id) is Some,
    ensures
        find_node(s, id) == find_node(s.take(k), id),
    decreases s.len() - k,
{
    if k < s.len() {
        assert(s.take(k + 1).drop_last() =~= s.take(k));
        lemma_find_node_prefix(s, id, k + 1);
    } else {
        assert(s.take(k) =~= s);
    }
}

} // verus!
