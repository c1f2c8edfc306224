use vstd::prelude::*;

use crate::dht_storage::messages::GlobalID;
use crate::dht_storage::realm_core::RealmConfig;
use crate::flo::blob::{keys_distinct, pairs_map, set_key};
use crate::nodeid::U256;

verus! {

/// The identifier of a realm.
#[derive(Debug, Clone, Copy, PartialEq, Eq, Hash)]
pub struct RealmID(pub U256);

impl RealmID {
    /// The global identifier of the Flo `fid` in this realm.
    pub fn global_id(&self, fid: U256) -> (r: GlobalID)
        ensures
            r == GlobalID(self.0, fid),
    {
        GlobalID::new(self.0, fid)
    }
}

/// The contents of a realm: its name, its limits, and the root Flo of each of its
/// services by name.
pub struct RealmView {
    pub name: Seq<char>,
    pub config: RealmConfig,
    pub services: Map<Seq<char>, U256>,
}

/// The identity view of a Flo ID.
pub open spec fn id_f() -> spec_fn(U256) -> U256 {
    |v: U256| v
}

/// A realm: a name, its limits, and its services.
#[derive(Debug, Clone)]
pub struct Realm {
    name: String,
    config: RealmConfig,
    services: Vec<(String, U256)>,
}

impl View for Realm {
    type V = RealmView;

    closed spec fn view(&self) -> RealmView {
        RealmView { name: self.name@, config: self.config, services: pairs_map(self.services@, id_f()) }
    }
}

impl Realm {
    /// No service is named twice.
    pub closed spec fn wf(&self) -> bool {
        keys_distinct(self.services@)
    }

    pub fn new(name: String, config: RealmConfig) -> (r: Self)
        ensures
            r.wf(),
            r@ == (RealmView { name: name@, config, services: Map::empty() }),
    {
        Realm { name, config, services: Vec::new() }
    }

    pub fn get_name(&self) -> (r: String)
        ensures
            r@ == self@.name,
    {
        self.name.clone()
    }

    pub fn get_config(&self) -> (r: RealmConfig)
        ensures
            r == self@.config,
    {
        self.config
    }

    /// Sets the root Flo of the service `name`.
    pub fn set_service(&mut self, name: &str, id: U256)
        requires
            old(self).wf(),
        ensures
            final(self).wf(),
            final(self)@ == (RealmView { services: old(self)@.services.insert(name@, id), ..old(self)@ }),
    {
        set_key::<U256, U256>(&mut self.services, name.to_owned(), id, Ghost(id_f()));
    }

    /// The services, each with its root Flo.
    pub fn get_services(&self) -> (r: &Vec<(String, U256)>)
        ensures
            pairs_map(r@, id_f()) == self@.services,
    {
        &self.services
    }
}

} // verus!
