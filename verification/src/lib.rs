pub mod broker;
pub mod crypto;
pub mod dht_network;
pub mod dht_router;
pub mod dht_routing;
pub mod dht_storage;
pub mod flo;
pub mod gossip_events;
pub mod hash;
pub mod ledger;
pub mod loopix;
pub mod nodeid;

use vstd::prelude::*;

verus! {

/// A set of modules, as a bit set.
#[derive(Clone, Copy, Debug, PartialEq, Eq, Structural, Hash)]
pub struct Modules {
    pub bits: u32,
}

pub const MODULE_STAT: u32 = 0x1;
pub const MODULE_RAND: u32 = 0x2;
pub const MODULE_GOSSIP: u32 = 0x4;
// This doesn't exist anymore, but must be kept so things can
// be deserialized.
pub const MODULE_PING: u32 = 0x8;
pub const MODULE_WEBPROXY: u32 = 0x10;
pub const MODULE_WEBPROXY_REQUESTS: u32 = 0x20;
pub const MODULE_DHT_ROUTER: u32 = 0x40;
pub const MODULE_DHT_STORAGE: u32 = 0x80;

impl Modules {
    /// All known modules.
    pub fn all() -> (r: Modules)
        ensures
            r.bits == 0xff,
    {
        let bits = MODULE_STAT | MODULE_RAND | MODULE_GOSSIP | MODULE_PING | MODULE_WEBPROXY
            | MODULE_WEBPROXY_REQUESTS | MODULE_DHT_ROUTER | MODULE_DHT_STORAGE;
        assert(0x1u32 | 0x2u32 | 0x4u32 | 0x8u32 | 0x10u32 | 0x20u32 | 0x40u32 | 0x80u32 == 0xffu32)
            by (bit_vector);
        Modules { bits }
    }

    pub fn from_bits_truncate(bits: u32) -> (r: Modules)
        ensures
            r.bits == bits & 0xff,
    {
        Modules { bits: bits & 0xff }
    }

    /// The modules of `self` that are not in `other`.
    pub fn difference(&self, other: Modules) -> (r: Modules)
        ensures
            r.bits == self.bits & !other.bits,
    {
        Modules { bits: self.bits & !other.bits }
    }

    pub fn contains(&self, other: Modules) -> (r: bool)
        ensures
            r == (self.bits & other.bits == other.bits),
    {
        self.bits & other.bits == other.bits
    }

    /// All modules but the retired ping module.
    pub fn stable() -> (r: Modules)
        ensures
            r.bits == 0xf7,
    {
        let r = Modules::all().difference(Modules { bits: MODULE_PING });
        assert(0xffu32 & !0x8u32 == 0xf7u32) by (bit_vector);
        r
    }
}

} // verus!
