use crate::nodeid::{NodeID, U256};
use vstd::prelude::*;

verus! {

/// One instance of a ledger: where it stands and what it has not committed yet.
pub struct LedgerInstance {
    pub epoch: u64,
    pub index: u64,
    pub merkle_tree: String,
    pub dag: DAG,
    pub tx_cache: Vec<Transaction>,
}

impl LedgerInstance {
    pub fn new() -> (r: Self)
        ensures
            r@ == (0u64, 0u64, Seq::<char>::empty(), 0nat),
    {
        Self { epoch: 0, index: 0, merkle_tree: String::new(), dag: DAG::new(), tx_cache: Vec::new() }
    }

    /// The epoch, the index, the merkle tree and the number of transactions
    /// waiting to be committed.
    pub open spec fn view(&self) -> (u64, u64, Seq<char>, nat) {
        (self.epoch, self.index, self.merkle_tree@, self.tx_cache@.len())
    }
}

/// The graph of vertices of a ledger.
pub struct DAG {}

impl DAG {
    pub fn new() -> (r: Self)
        ensures
            r == (DAG {}),
    {
        Self {}
    }
}

/// A vertex of the graph: its owner, the vertices it links back to, its
/// transactions and their signature.
pub struct Vertex {
    owner: NodeID,
    backlinks: Vec<VertexID>,
    transactions: Vec<Transaction>,
    signature: Vec<u8>,
    // The ID of the block is its hash, and this is a cache for
    // premature optimization.
    cache_id: Option<VertexID>,
}

pub type VertexID = U256;

pub struct Transaction {}

pub type TransactionID = U256;

} // verus!
