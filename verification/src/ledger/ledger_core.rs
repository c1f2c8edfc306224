use crate::nodeid::U256;
use vstd::prelude::*;

verus! {

/// How a ledger is set up.
#[derive(Clone, Debug)]
pub struct LedgerSetup {
    pub id: U256,
    pub spread: u32,
    pub min_mem: u64,
    pub dynamic: bool,
    pub members: Vec<U256>,
}

#[derive(Clone, Copy, Debug, PartialEq, Eq, Structural)]
pub enum LedgerStatus {
    Empty,
    Connected,
    Live,
}

/// Whatever hardcoded config you want to pass to your module.
/// It must have a default option.
#[derive(Clone, Copy, Debug, PartialEq, Eq, Structural)]
pub struct LedgerConfig {}

impl Default for LedgerConfig {
    fn default() -> (r: Self)
        ensures
            r == (LedgerConfig {}),
    {
        Self {}
    }
}

/// The ledger holds a configuration and the storage needed to persist over
/// reloads of the node.
#[derive(Clone, Copy, Debug, PartialEq, Eq, Structural)]
pub struct Ledger {
    pub storage: LedgerStorage,
    pub config: LedgerConfig,
}

impl Ledger {
    pub fn new(storage: LedgerStorage, config: LedgerConfig) -> (r: Self)
        ensures
            r.storage == storage,
            r.config == config,
    {
        Self { storage, config }
    }
}

/// The storage will probably evolve over time, so it's a good idea to store the different
/// versions in an enum.
/// This allows to update to the latest version, supposing that new fields can be filled
/// with default values.
#[derive(Clone, Copy, Debug, PartialEq, Eq, Structural)]
pub enum LedgerStorageSave {
    V1(LedgerStorage),
}

impl LedgerStorageSave {
    /// The storage in its latest version.
    pub fn to_latest(self) -> (r: LedgerStorage)
        ensures
            match self {
                LedgerStorageSave::V1(es) => r == es,
            },
    {
        match self {
            LedgerStorageSave::V1(es) => es,
        }
    }
}

/// The state of the ledger that is kept over reloads.
#[derive(Clone, Copy, Debug, PartialEq, Eq, Structural)]
pub struct LedgerStorage {
    pub counter: u32,
}

impl LedgerStorage {
    /// The versioned form in which the storage is saved.
    pub fn to_save(&self) -> (r: LedgerStorageSave)
        ensures
            r == LedgerStorageSave::V1(*self),
    {
        LedgerStorageSave::V1(*self)
    }
}

impl Default for LedgerStorage {
    fn default() -> (r: Self)
        ensures
            r.counter == 0,
    {
        Self { counter: 0 }
    }
}

/// Saving a storage and reading the saved form back gives the same storage.
pub proof fn lemma_save_roundtrip(s: LedgerStorage)
    ensures
        match LedgerStorageSave::V1(s) {
            LedgerStorageSave::V1(es) => es == s,
        },
{
}

} // verus!
