use crate::ledger::ledger_core::LedgerSetup;
use crate::nodeid::U256;
use vstd::prelude::*;

verus! {

/// An unsigned integer of any size.
#[verifier::external_type_specification]
#[verifier::external_body]
pub struct ExBigUint(num_bigint::BigUint);

/// An entry of the storage, valid until a time.
pub struct Entry {
    pub id: U256,
    pub valid_until: u64,
    pub data: EntryData,
}

/// What an entry holds.
pub enum EntryData {
    Domain(Domain),
    GroupConfig(GroupConfig),
    NodeConfig(NodeConfig),
    LedgerState(LedgerState),
    Blob(Blob),
}

pub struct LedgerState {}

/// A domain with its ledger.
pub struct Domain {
    pub id: U256,
    pub name: String,
    pub ledger: LedgerSetup,
}

/// The configuration of a group, and its mana.
pub struct GroupConfig {
    pub name: String,
    pub mana: Mana,
}

/// The configuration of a node, and its mana.
pub struct NodeConfig {
    pub name: String,
    pub mana: Mana,
}

/// Named and typed data.
pub struct Blob {
    pub name: String,
    pub btype: String,
    pub data: Vec<u8>,
}

/// An amount of mana in an epoch.
pub struct Mana {
    pub epoch: u64,
    pub value: num_bigint::BigUint,
}

} // verus!
