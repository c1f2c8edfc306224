use crate::dht_router::kademlia::{depth_of, KNode};
use crate::nodeid::{ids_contain, NodeID, U256};
use vstd::prelude::*;

verus! {

/// Limits of a realm.
#[derive(Clone, Copy, Debug, PartialEq, Eq, Structural)]
pub struct RealmConfig {
    /// 16 exa bytes should be enough for everybody
    pub max_space: u64,
    pub max_flo_size: u32,
}

/// What a node announces of a stored Flo.
#[derive(Clone, Copy, Debug, PartialEq, Eq)]
pub struct FloMeta {
    pub id: U256,
    pub cuckoos: u32,
    pub version: u32,
}

/// Configuration of the storage of a node.
#[derive(Clone, Debug)]
pub struct DHTConfig {
    // Realms allowed in this instance. If the Vec is empty, all new realms are
    // allowed.
    pub realms: Vec<U256>,
    // Flos owned by this instance, which will not be removed.
    pub owned: Vec<U256>,
    // How long the get_ methods will wait before returning a timeout.
    pub timeout: u64,
}

impl Default for DHTConfig {
    fn default() -> (r: Self)
        ensures
            r.realms@.len() == 0,
            r.owned@.len() == 0,
            r.timeout == 1000,
    {
        Self { realms: Vec::new(), owned: Vec::new(), timeout: 1000 }
    }
}

impl DHTConfig {
    /// A realm is accepted if no realms are configured, or if it is one of them.
    pub fn accepts_realm(&self, id: &U256) -> (r: bool)
        ensures
            r == (self.realms@.len() == 0 || self.realms@.contains(*id)),
    {
        self.realms.len() == 0 || ids_contain(&self.realms, id)
    }
}

/// Linking a Flo to a foreign flo - how long and to whom it links.
#[derive(Clone, Copy, Debug, PartialEq, Eq)]
pub enum Cuckoo {
    Duration(u32),
    Parent(U256),
    NoCuckoo,
}

impl Default for Cuckoo {
    fn default() -> (r: Self)
        ensures
            r == Cuckoo::NoCuckoo,
    {
        Cuckoo::NoCuckoo
    }
}

#[derive(Clone, Copy, Debug, PartialEq, Eq)]
pub struct FloConfig {
    pub cuckoo: Cuckoo,
}

impl Default for FloConfig {
    fn default() -> (r: Self)
        ensures
            r.cuckoo == Cuckoo::NoCuckoo,
    {
        FloConfig { cuckoo: Cuckoo::NoCuckoo }
    }
}

/// The parent a configuration links to, if any.
pub open spec fn parent_of(c: FloConfig) -> Option<U256> {
    match c.cuckoo {
        Cuckoo::Parent(p) => Some(p),
        _ => None,
    }
}

impl FloConfig {
    pub fn allows_cuckoo(&self, age: u32) -> (r: bool)
        ensures
            r == (match self.cuckoo {
                Cuckoo::Duration(t) => age < t,
                _ => false,
            }),
    {
        match self.cuckoo {
            Cuckoo::Duration(t) => age < t,
            _ => false,
        }
    }

    pub fn is_cuckoo_of(&self, parent: &U256) -> (r: bool)
        ensures
            r == (parent_of(*self) == Some(*parent)),
    {
        match &self.cuckoo {
            Cuckoo::Parent(flo_id) => flo_id.same(parent),
            _ => false,
        }
    }

    pub fn cuckoo_parent(&self) -> (r: Option<U256>)
        ensures
            r == parent_of(*self),
    {
        match &self.cuckoo {
            Cuckoo::Parent(flo_id) => Some(*flo_id),
            _ => None,
        }
    }
}

/// Errors of the realm storage.
#[derive(Clone, Copy, Debug, PartialEq, Eq, Structural)]
pub enum CoreError {
    DomainMissing,
    DomainNoHistory,
    DomainNotRoot,
    RealmNotAccepted,
}

/// The text of a storage error.
pub open spec fn core_error_text(e: CoreError) -> Seq<char> {
    match e {
        CoreError::DomainMissing => "No Flo with a domain stored"@,
        CoreError::DomainNoHistory => "Domain without history"@,
        CoreError::DomainNotRoot => "Domain is not a root domain"@,
        CoreError::RealmNotAccepted => "This realm is not accepted"@,
    }
}

impl CoreError {
    /// The text describing the error.
    pub fn message(&self) -> (r: &'static str)
        ensures
            r@ == core_error_text(*self),
    {
        match self {
            CoreError::DomainMissing => "No Flo with a domain stored",
            CoreError::DomainNoHistory => "Domain without history",
            CoreError::DomainNotRoot => "Domain is not a root domain",
            CoreError::RealmNotAccepted => "This realm is not accepted",
        }
    }
}

/// What the storage reads of a Flo: its ID, its realm, its version, its
/// configuration, and, if the Flo defines a realm, the configuration of that realm.
#[derive(Clone, Copy, Debug, PartialEq, Eq)]
pub struct FloRecord {
    pub id: U256,
    pub realm_id: U256,
    pub version: u32,
    pub config: FloConfig,
    pub realm: Option<RealmConfig>,
}

/// A Flo as the storage handles it: what it reads of the Flo, and the Flo in its
/// serialized form, which it only stores and passes on. The size of a Flo is the
/// length of its serialized form.
#[derive(Debug)]
pub struct FloEntry {
    pub record: FloRecord,
    pub bytes: Vec<u8>,
}

impl FloEntry {
    pub open spec fn view(&self) -> (FloRecord, Seq<u8>) {
        (self.record, self.bytes@)
    }
}

impl Clone for FloEntry {
    fn clone(&self) -> (r: Self)
        ensures
            r@ == self@,
    {
        let bytes = self.bytes.clone();
        proof {
            assert(bytes@ =~= self.bytes@);
        }
        FloEntry { record: self.record, bytes }
    }
}

/// A stored Flo with the IDs of the Flos linking to it.
#[derive(Debug)]
struct FloStorage {
    flo: FloRecord,
    bytes: Vec<u8>,
    cuckoos: Vec<U256>,
}

/// A stored entry: what the storage reads of the Flo, its cuckoos, and the
/// serialized Flo.
pub type Stored = (FloRecord, Seq<U256>, Seq<u8>);

/// A realm storage: the realm's ID, its root, its configuration and its stored Flos.
pub type RealmModel = (U256, U256, RealmConfig, Seq<Stored>);

/// The sum of the sizes of the stored Flos.
pub open spec fn total_size(s: Seq<Stored>) -> int
    decreases s.len(),
{
    if s.len() == 0 {
        0
    } else {
        total_size(s.drop_last()) + s.last().2.len()
    }
}

/// No ID is stored twice.
pub open spec fn unique_ids(s: Seq<Stored>) -> bool {
    forall|i: int, j: int|
        0 <= i < s.len() && 0 <= j < s.len() && #[trigger] s[i].0.id == #[trigger] s[j].0.id
            ==> i == j
}

/// No Flo lists a cuckoo twice.
pub open spec fn unique_cuckoos(s: Seq<Stored>) -> bool {
    forall|i: int| 0 <= i < s.len() ==> (#[trigger] s[i]).1.no_duplicates()
}

/// The Flo with this ID is stored.
pub open spec fn stores(s: Seq<Stored>, id: U256) -> bool {
    exists|i: int| 0 <= i < s.len() && #[trigger] s[i].0.id == id
}

/// Adds `cuckoo` to the cuckoos of `parent`, if it is stored and does not have it yet.
pub open spec fn with_cuckoo(s: Seq<Stored>, parent: U256, cuckoo: U256) -> Seq<Stored> {
    Seq::new(
        s.len(),
        |i: int|
            if s[i].0.id == parent && !s[i].1.contains(cuckoo) {
                (s[i].0, s[i].1.push(cuckoo), s[i].2)
            } else {
                s[i]
            },
    )
}

/// The storage of one realm: the Flos it holds, in the order they were stored.
#[derive(Debug)]
pub struct RealmStorage {
    dht_config: DHTConfig,
    realm_config: RealmConfig,
    realm_id: U256,
    root: U256,
    flos: Vec<FloStorage>,
    size: usize,
}

impl FloStorage {
    spec fn view(&self) -> Stored {
        (self.flo, self.cuckoos@, self.bytes@)
    }

    fn version(&self) -> (r: u32)
        ensures
            r == self.flo.version,
    {
        self.flo.version
    }
}

impl RealmStorage {
    /// The stored Flos, in the order they were stored.
    pub closed spec fn view(&self) -> Seq<Stored> {
        Seq::new(self.flos@.len(), |i: int| self.flos@[i].view())
    }

    pub closed spec fn spec_root(&self) -> U256 {
        self.root
    }

    pub closed spec fn spec_config(&self) -> RealmConfig {
        self.realm_config
    }

    pub closed spec fn spec_realm_id(&self) -> U256 {
        self.realm_id
    }

    /// The realm's ID, its root, its configuration and its stored Flos.
    pub open spec fn model(&self) -> RealmModel {
        (self.spec_realm_id(), self.spec_root(), self.spec_config(), self.view())
    }

    /// The storage's own invariant: no Flo stored twice, no cuckoo listed twice
    /// for a Flo, and the stored size is the sum of the sizes of the stored Flos.
    pub closed spec fn wf(&self) -> bool {
        &&& unique_ids(self.view())
        &&& unique_cuckoos(self.view())
        &&& self.size as int == total_size(self.view())
    }

    /// A new storage holding the Flo of the realm itself.
    pub fn new(
        dht_config: DHTConfig,
        root: NodeID,
        realm_config: RealmConfig,
        realm_id: U256,
        realm_flo: FloEntry,
    ) -> (r: Result<Self, CoreError>)
        ensures
            r is Ok,
            r->Ok_0.wf(),
            r->Ok_0.view() == seq![(realm_flo.record, Seq::<U256>::empty(), realm_flo.bytes@)],
            r->Ok_0.spec_root() == root,
            r->Ok_0.spec_config() == realm_config,
            r->Ok_0.spec_realm_id() == realm_id,
    {
        let mut s = Self {
            dht_config,
            realm_config,
            realm_id,
            root,
            flos: Vec::new(),
            size: 0,
        };
        proof {
            assert(s.view() =~= Seq::<Stored>::empty());
        }
        assert(realm_flo.bytes.len() == realm_flo.bytes@.len());
        s.put(realm_flo);
        proof {
            assert(s.view() =~= seq![(realm_flo.record, Seq::<U256>::empty(), realm_flo.bytes@)]);
        }
        Ok(s)
    }

    /// The size of all stored Flos.
    pub fn size(&self) -> (r: usize)
        requires
            self.wf(),
        ensures
            r == total_size(self.view()),
    {
        self.size
    }

    /// The number of stored Flos.
    pub fn flo_count(&self) -> (r: usize)
        ensures
            r == self.view().len(),
    {
        self.flos.len()
    }

    pub fn realm_config(&self) -> (r: &RealmConfig)
        ensures
            *r == self.spec_config(),
    {
        &self.realm_config
    }

    pub fn realm_id(&self) -> (r: U256)
        ensures
            r == self.spec_realm_id(),
    {
        self.realm_id
    }

    /// The position of the Flo with this ID.
    fn index_of(&self, id: &U256) -> (r: Option<usize>)
        ensures
            r matches Some(i) ==> i < self.view().len() && self.view()[i as int].0.id == *id,
            r is None ==> !stores(self.view(), *id),
    {
        let mut i: usize = 0;
        while i < self.flos.len()
            invariant
                0 <= i <= self.flos.len(),
                forall|j: int| 0 <= j < i ==> self.view()[j].0.id != *id,
            decreases self.flos.len() - i,
        {
            if self.flos[i].flo.id.same(id) {
                return Some(i);
            }
            i = i + 1;
        }
        None
    }

    /// The Flo with this ID and its cuckoos.
    pub fn get_flo_cuckoo(&self, id: &U256) -> (r: Option<(FloEntry, Vec<U256>)>)
        requires
            self.wf(),
        ensures
            r is None <==> !stores(self.view(), *id),
            r matches Some(fc) ==> exists|i: int|
                0 <= i < self.view().len() && self.view()[i].0.id == *id && self.view()[i]
                    == (fc.0.record, fc.1@, fc.0.bytes@),
    {
        match self.index_of(id) {
            Some(i) => {
                let fs = &self.flos[i];
                let bytes = fs.bytes.clone();
                let cuckoos = fs.cuckoos.clone();
                proof {
                    assert(bytes@ =~= fs.bytes@);
                    assert(cuckoos@ =~= fs.cuckoos@);
                }
                Some((FloEntry { record: fs.flo, bytes }, cuckoos))
            },
            None => None,
        }
    }

    /// The IDs of the Flos linking to the Flo with this ID.
    pub fn get_cuckoo_ids(&self, key: &U256) -> (r: Option<Vec<U256>>)
        requires
            self.wf(),
        ensures
            r is None <==> !stores(self.view(), *key),
            r matches Some(v) ==> exists|i: int|
                0 <= i < self.view().len() && self.view()[i].0.id == *key && self.view()[i].1
                    == v@,
    {
        match self.index_of(key) {
            Some(i) => Some(self.flos[i].cuckoos.clone()),
            None => None,
        }
    }

    /// What this storage announces of each of its Flos.
    pub fn get_flo_metas(&self) -> (r: Vec<FloMeta>)
        ensures
            r@.len() == self.view().len(),
            forall|i: int|
                0 <= i < r@.len() ==> #[trigger] r@[i] == (FloMeta {
                    id: self.view()[i].0.id,
                    version: self.view()[i].0.version,
                    cuckoos: self.view()[i].1.len() as u32,
                }),
    {
        let mut r: Vec<FloMeta> = Vec::new();
        let mut i: usize = 0;
        while i < self.flos.len()
            invariant
                0 <= i <= self.flos.len(),
                r@.len() == i,
                forall|j: int|
                    0 <= j < i ==> #[trigger] r@[j] == (FloMeta {
                        id: self.view()[j].0.id,
                        version: self.view()[j].0.version,
                        cuckoos: self.view()[j].1.len() as u32,
                    }),
            decreases self.flos.len() - i,
        {
            let fs = &self.flos[i];
            r.push(
                FloMeta {
                    id: fs.flo.id,
                    version: fs.version(),
                    cuckoos: fs.cuckoos.len() as u32,
                },
            );
            i = i + 1;
        }
        r
    }

    /// Records `cuckoo` as linking to `parent`, if `parent` is stored and does not
    /// know it yet.
    pub fn store_cuckoo_id(&mut self, parent: &U256, cuckoo: U256)
        requires
            old(self).wf(),
        ensures
            final(self).wf(),
            final(self).view() == with_cuckoo(old(self).view(), *parent, cuckoo),
            final(self).spec_root() == old(self).spec_root(),
            final(self).spec_config() == old(self).spec_config(),
            final(self).spec_realm_id() == old(self).spec_realm_id(),
    {
        let ghost s0 = self.view();
        match self.index_of(parent) {
            Some(i) => {
                if !ids_contain(&self.flos[i].cuckoos, &cuckoo) {
                    self.flos[i].cuckoos.push(cuckoo);
                }
                proof {
                    assert(self.view() =~= with_cuckoo(s0, *parent, cuckoo));
                    lemma_same_records_same_size(s0, self.view());
                }
            },
            None => {
                proof {
                    assert(self.view() =~= with_cuckoo(s0, *parent, cuckoo));
                }
            },
        }
    }
}

/// The stored Flos without the one with this ID.
pub open spec fn without(s: Seq<Stored>, id: U256) -> Seq<Stored> {
    if stores(s, id) {
        s.remove(choose|i: int| 0 <= i < s.len() && #[trigger] s[i].0.id == id)
    } else {
        s
    }
}

/// Storing a Flo replaces any Flo with the same ID, forgets its cuckoos, and puts
/// it last.
pub open spec fn put_spec(s: Seq<Stored>, flo: FloRecord, bytes: Seq<u8>) -> Seq<Stored> {
    without(s, flo.id).push((flo, Seq::<U256>::empty(), bytes))
}

impl RealmStorage {
    /// Removes the Flo at position `i`.
    fn remove_at(&mut self, i: usize)
        requires
            old(self).wf(),
            i < old(self).view().len(),
        ensures
            final(self).wf(),
            final(self).view() == old(self).view().remove(i as int),
            final(self).spec_root() == old(self).spec_root(),
            final(self).spec_config() == old(self).spec_config(),
            final(self).spec_realm_id() == old(self).spec_realm_id(),
    {
        let ghost s0 = self.view();
        let df = self.flos.remove(i);
        proof {
            lemma_total_size_remove(s0, i as int);
            lemma_total_size_nonneg(s0.remove(i as int));
            assert(self.view() =~= s0.remove(i as int));
            lemma_unique_remove(s0, i as int);
        }
        self.size = self.size - df.bytes.len();
    }

    fn remove_entry(&mut self, id: &U256)
        requires
            old(self).wf(),
        ensures
            final(self).wf(),
            final(self).view() == without(old(self).view(), *id),
            final(self).spec_root() == old(self).spec_root(),
            final(self).spec_config() == old(self).spec_config(),
            final(self).spec_realm_id() == old(self).spec_realm_id(),
    {
        let ghost s0 = self.view();
        match self.index_of(id) {
            Some(i) => {
                proof {
                    let c = choose|k: int| 0 <= k < s0.len() && #[trigger] s0[k].0.id == *id;
                    assert(s0[c].0.id == s0[i as int].0.id);
                }
                self.remove_at(i);
            },
            None => {},
        }
    }

    /// Stores a Flo, replacing any Flo with the same ID, without checking its size.
    pub fn put(&mut self, flo: FloEntry)
        requires
            old(self).wf(),
            total_size(old(self).view()) + flo.bytes@.len() <= usize::MAX,
        ensures
            final(self).wf(),
            final(self).view() == put_spec(old(self).view(), flo.record, flo.bytes@),
            final(self).spec_root() == old(self).spec_root(),
            final(self).spec_config() == old(self).spec_config(),
            final(self).spec_realm_id() == old(self).spec_realm_id(),
    {
        let ghost s0 = self.view();
        let ghost fv = flo@;
        let id = flo.record.id;
        self.remove_entry(&id);
        let ghost s1 = self.view();
        proof {
            lemma_without_size(s0, id);
        }
        let n = flo.bytes.len();
        self.flos.push(FloStorage { flo: flo.record, bytes: flo.bytes, cuckoos: Vec::new() });
        self.size = self.size + n;
        proof {
            let e = (fv.0, Seq::<U256>::empty(), fv.1);
            assert(self.view() =~= s1.push(e));
            assert(s1.push(e).drop_last() =~= s1);
            lemma_without_absent(s0, id);
            assert forall|i: int, j: int|
                0 <= i < self.view().len() && 0 <= j < self.view().len()
                    && #[trigger] self.view()[i].0.id == #[trigger] self.view()[j].0.id
                implies i == j by {
                if i < s1.len() && j == s1.len() {
                    assert(s1[i].0.id == id);
                } else if j < s1.len() && i == s1.len() {
                    assert(s1[j].0.id == id);
                }
            }
        }
    }
}

/// `i` is the position of the Flo to evict first when `nd` must be kept: among
/// the Flos other than `nd`, the first one that shares the fewest leading bits
/// with `root`.
pub open spec fn is_furthest(s: Seq<Stored>, root: U256, nd: U256, i: int) -> bool {
    &&& 0 <= i < s.len()
    &&& s[i].0.id != nd
    &&& forall|k: int|
        0 <= k < s.len() && #[trigger] s[k].0.id != nd ==> depth_of(root, s[i].0.id) <= depth_of(
            root,
            s[k].0.id,
        )
    &&& forall|k: int|
        0 <= k < i && #[trigger] s[k].0.id != nd ==> depth_of(root, s[i].0.id) < depth_of(
            root,
            s[k].0.id,
        )
}

/// The furthest Flo is well defined.
pub proof fn lemma_furthest_unique(s: Seq<Stored>, root: U256, nd: U256, i: int, j: int)
    requires
        is_furthest(s, root, nd, i),
        is_furthest(s, root, nd, j),
    ensures
        i == j,
{
    assert(s[i].0.id != nd);
    assert(s[j].0.id != nd);
    if i < j {
        assert(depth_of(root, s[j].0.id) < depth_of(root, s[i].0.id));
    } else if j < i {
        assert(depth_of(root, s[i].0.id) < depth_of(root, s[j].0.id));
    }
}

/// Evicts the furthest Flos, never `nd`, until the stored size is at most `max`
/// or only `nd` is left.
pub open spec fn evict(s: Seq<Stored>, root: U256, nd: U256, max: int) -> Seq<Stored>
    decreases s.len(),
{
    if total_size(s) <= max {
        s
    } else if exists|i: int| is_furthest(s, root, nd, i) {
        evict(s.remove(choose|i: int| is_furthest(s, root, nd, i)), root, nd, max)
    } else {
        s
    }
}

/// The Flo is stored if it is new, or newer than the stored one.
pub open spec fn replaces(s: Seq<Stored>, flo: FloRecord) -> bool {
    !stores(s, flo.id) || exists|i: int|
        0 <= i < s.len() && #[trigger] s[i].0.id == flo.id && s[i].0.version < flo.version
}

/// The storage after the cuckoo link of `flo` has been recorded.
pub open spec fn linked(s: Seq<Stored>, flo: FloRecord) -> Seq<Stored> {
    match parent_of(flo.config) {
        Some(p) => with_cuckoo(s, p, flo.id),
        None => s,
    }
}

/// The storage after `flo` has been stored, if it replaces what is there.
pub open spec fn upserted(s: Seq<Stored>, flo: FloRecord, bytes: Seq<u8>) -> Seq<Stored> {
    let s1 = linked(s, flo);
    if replaces(s1, flo) {
        put_spec(s1, flo, bytes)
    } else {
        s1
    }
}

/// The remote Flo is known here, in the same or a newer version and with at least
/// as many cuckoos.
pub open spec fn up_to_date(s: Seq<Stored>, m: FloMeta) -> bool {
    exists|i: int|
        0 <= i < s.len() && #[trigger] s[i].0.id == m.id && s[i].0.version >= m.version && (
        s[i].1.len() as u32) >= m.cuckoos
}

/// The IDs of the announced Flos that this storage should fetch.
pub open spec fn missing_ids(s: Seq<Stored>, avail: Seq<FloMeta>) -> Seq<U256>
    decreases avail.len(),
{
    if avail.len() == 0 {
        Seq::empty()
    } else {
        let r = missing_ids(s, avail.drop_last());
        if up_to_date(s, avail.last()) {
            r
        } else {
            r.push(avail.last().id)
        }
    }
}

/// A Flo announced by a neighbour is requested when no stored version of it is up
/// to date: each one stored is older, or knows fewer cuckoos than announced. A Flo
/// that is not stored at all is requested too.
pub proof fn lemma_stale_requested(s: Seq<Stored>, avail: Seq<FloMeta>, k: int)
    requires
        0 <= k < avail.len(),
        forall|i: int|
            0 <= i < s.len() && #[trigger] s[i].0.id == avail[k].id ==> (s[i].0.version < avail[k].version
                || s[i].1.len() < avail[k].cuckoos),
    ensures
        missing_ids(s, avail).contains(avail[k].id),
    decreases avail.len(),
{
    let p = avail.drop_last();
    let r = missing_ids(s, p);
    if k < avail.len() - 1 {
        assert(p[k] == avail[k]);
        lemma_stale_requested(s, p, k);
        let j = choose|j: int| 0 <= j < r.len() && r[j] == avail[k].id;
        if up_to_date(s, avail.last()) {
        } else {
            assert(r.push(avail.last().id)[j] == avail[k].id);
        }
    } else {
        let m = avail.last();
        assert(m == avail[k]);
        if up_to_date(s, m) {
            let i = choose|i: int|
                0 <= i < s.len() && #[trigger] s[i].0.id == m.id && s[i].0.version >= m.version && (
                s[i].1.len() as u32) >= m.cuckoos;
            assert(s[i].0.version < m.version || s[i].1.len() < m.cuckoos);
            assert(s[i].1.len() < m.cuckoos ==> (s[i].1.len() as u32) == s[i].1.len());
        }
        assert(r.push(m.id)[r.len() as int] == m.id);
    }
}

impl RealmStorage {
    /// Removes the furthest Flo other than `not_delete`; returns whether there was one.
    pub fn remove_furthest(&mut self, not_delete: &U256) -> (r: bool)
        requires
            old(self).wf(),
        ensures
            final(self).wf(),
            r ==> exists|i: int|
                is_furthest(old(self).view(), old(self).spec_root(), *not_delete, i)
                    && final(self).view() == old(self).view().remove(i),
            !r ==> final(self).view() == old(self).view(),
            !r ==> forall|i: int|
                0 <= i < old(self).view().len() ==> #[trigger] old(self).view()[i].0.id
                    == *not_delete,
            final(self).spec_root() == old(self).spec_root(),
            final(self).spec_config() == old(self).spec_config(),
            final(self).spec_realm_id() == old(self).spec_realm_id(),
    {
        let ghost s = self.view();
        let ghost nd = *not_delete;
        let mut best: Option<usize> = None;
        let mut best_depth: usize = 0;
        let mut k: usize = 0;
        while k < self.flos.len()
            invariant
                0 <= k <= self.flos.len(),
                s == self.view(),
                nd == *not_delete,
                best matches Some(b) ==> b < k && is_furthest(s.take(k as int), self.root, nd, b as int)
                    && best_depth == depth_of(self.root, s[b as int].0.id),
                best is None ==> forall|j: int| 0 <= j < k ==> #[trigger] s[j].0.id == nd,
            decreases self.flos.len() - k,
        {
            let ghost t = s.take(k + 1);
            proof {
                assert forall|j: int| 0 <= j < k implies #[trigger] t[j] == s.take(k as int)[j] by {}
            }
            if !self.flos[k].flo.id.same(not_delete) {
                let d = KNode::get_depth(&self.root, self.flos[k].flo.id);
                match best {
                    None => {
                        best = Some(k);
                        best_depth = d;
                    },
                    Some(b) => {
                        if d < best_depth {
                            best = Some(k);
                            best_depth = d;
                        }
                    },
                }
            }
            k = k + 1;
        }
        proof {
            assert(s.take(self.flos.len() as int) =~= s);
        }
        match best {
            Some(b) => {
                self.remove_at(b);
                true
            },
            None => false,
        }
    }

    /// Stores a Flo if it is new or newer than the stored one, records its cuckoo
    /// link, and evicts the furthest Flos while the realm is over its space. A Flo
    /// larger than a third of the realm's space is refused.
    pub fn upsert_flo(&mut self, flo: FloEntry) -> (r: bool)
        requires
            old(self).wf(),
            flo.bytes@.len() * 3 <= u64::MAX,
            total_size(old(self).view()) + flo.bytes@.len() <= usize::MAX,
        ensures
            final(self).wf(),
            flo.bytes@.len() * 3 > old(self).spec_config().max_space ==> !r && final(self).view()
                == old(self).view(),
            flo.bytes@.len() * 3 <= old(self).spec_config().max_space ==> r == replaces(
                linked(old(self).view(), flo.record),
                flo.record,
            ) && final(self).view() == evict(
                upserted(old(self).view(), flo.record, flo.bytes@),
                old(self).spec_root(),
                flo.record.id,
                old(self).spec_config().max_space as int,
            ),
            final(self).spec_root() == old(self).spec_root(),
            final(self).spec_config() == old(self).spec_config(),
            final(self).spec_realm_id() == old(self).spec_realm_id(),
    {
        let rec = flo.record;
        let ghost bytes = flo.bytes@;
        if (flo.bytes.len() as u64) * 3 > self.realm_config.max_space {
            return false;
        }
        let mut updated = false;
        let ghost s0 = self.view();
        match rec.config.cuckoo_parent() {
            Some(pid) => self.store_cuckoo_id(&pid, rec.id),
            None => {},
        }
        let ghost s1 = self.view();
        assert(s1 == linked(s0, rec));
        proof {
            lemma_same_records_same_size(s0, s1);
        }
        match self.index_of(&rec.id) {
            Some(i) => {
                if self.flos[i].version() < rec.version {
                    self.put(flo);
                    updated = true;
                } else {
                    proof {
                        assert forall|j: int|
                            0 <= j < s1.len() && #[trigger] s1[j].0.id == rec.id
                            implies !(s1[j].0.version < rec.version) by {
                            assert(s1[i as int].0.id == s1[j].0.id);
                        }
                    }
                }
            },
            None => {
                self.put(flo);
                updated = true;
            },
        }
        let ghost s2 = self.view();
        assert(s2 == upserted(s0, rec, bytes));
        let ghost max = self.realm_config.max_space as int;
        let ghost root = self.root;
        while self.size as u64 > self.realm_config.max_space
            invariant
                self.wf(),
                self.spec_root() == root,
                self.spec_config() == old(self).spec_config(),
                self.spec_realm_id() == old(self).spec_realm_id(),
                max == self.realm_config.max_space,
                evict(self.view(), root, rec.id, max) == evict(s2, root, rec.id, max),
            ensures
                self.wf(),
                self.spec_root() == root,
                self.spec_config() == old(self).spec_config(),
                self.spec_realm_id() == old(self).spec_realm_id(),
                self.view() == evict(s2, root, rec.id, max),
            decreases self.flos.len(),
        {
            let ghost cur = self.view();
            let removed = self.remove_furthest(&rec.id);
            proof {
                if removed {
                    let i = choose|i: int|
                        is_furthest(cur, root, rec.id, i) && self.view() == cur.remove(i);
                    let c = choose|i: int| is_furthest(cur, root, rec.id, i);
                    lemma_furthest_unique(cur, root, rec.id, i, c);
                } else {
                    assert forall|i: int| !is_furthest(cur, root, rec.id, i) by {
                        if 0 <= i < cur.len() {
                            assert(cur[i].0.id == rec.id);
                        }
                    }
                }
            }
            if !removed {
                assert(self.view() == evict(self.view(), root, rec.id, max));
                break;
            }
        }
        updated
    }

    /// The IDs of the announced Flos that are missing here, or older or with
    /// fewer cuckoos than announced; `None` if there are none.
    pub fn sync_available(&self, available: &Vec<FloMeta>) -> (r: Option<Vec<U256>>)
        requires
            self.wf(),
        ensures
            r is Some <==> missing_ids(self.view(), available@).len() > 0,
            r matches Some(v) ==> v@ == missing_ids(self.view(), available@),
            forall|k: int|
                0 <= k < available@.len() && (forall|i: int|
                    0 <= i < self.view().len() && #[trigger] self.view()[i].0.id == available@[k].id ==> (
                    self.view()[i].0.version < available@[k].version || self.view()[i].1.len()
                        < available@[k].cuckoos)) ==> (r matches Some(v) && v@.contains(
                    #[trigger] available@[k].id,
                )),
    {
        proof {
            assert forall|k: int|
                0 <= k < available@.len() && (forall|i: int|
                    0 <= i < self.view().len() && #[trigger] self.view()[i].0.id == available@[k].id ==> (
                    self.view()[i].0.version < available@[k].version || self.view()[i].1.len()
                        < available@[k].cuckoos)) implies missing_ids(self.view(), available@).contains(
                #[trigger] available@[k].id,
            ) by {
                lemma_stale_requested(self.view(), available@, k);
            }
        }
        let ghost s = self.view();
        let mut a: Vec<U256> = Vec::new();
        let mut k: usize = 0;
        while k < available.len()
            invariant
                0 <= k <= available.len(),
                s == self.view(),
                self.wf(),
                a@ == missing_ids(s, available@.take(k as int)),
            decreases available.len() - k,
        {
            let remote = available[k];
            let ghost t = available@.take(k + 1);
            proof {
                assert(t.drop_last() =~= available@.take(k as int));
                assert(t.last() == remote);
            }
            let known = match self.index_of(&remote.id) {
                Some(i) => {
                    let local = &self.flos[i];
                    let ok = local.version() >= remote.version && local.cuckoos.len() as u32
                        >= remote.cuckoos;
                    proof {
                        if !ok {
                            assert forall|j: int|
                                !(0 <= j < s.len() && #[trigger] s[j].0.id == remote.id
                                    && s[j].0.version >= remote.version && (s[j].1.len() as u32)
                                    >= remote.cuckoos) by {
                                if 0 <= j < s.len() && s[j].0.id == remote.id {
                                    assert(s[i as int].0.id == s[j].0.id);
                                }
                            }
                        }
                    }
                    ok
                },
                None => false,
            };
            if !known {
                a.push(remote.id);
            }
            k = k + 1;
        }
        proof {
            assert(available@.take(available.len() as int) =~= available@);
        }
        if a.len() > 0 {
            Some(a)
        } else {
            None
        }
    }
}

/// If a Flo other than `nd` is stored, there is a furthest one.
proof fn lemma_furthest_exists(s: Seq<Stored>, root: U256, nd: U256, w: int)
    requires
        0 <= w < s.len(),
        s[w].0.id != nd,
    ensures
        exists|i: int| is_furthest(s, root, nd, i),
    decreases s.len(),
{
    let t = s.drop_last();
    let n = s.len() - 1;
    if exists|k: int| 0 <= k < n && #[trigger] s[k].0.id != nd {
        let k = choose|k: int| 0 <= k < n && #[trigger] s[k].0.id != nd;
        assert(t[k] == s[k]);
        lemma_furthest_exists(t, root, nd, k);
        let f = choose|i: int| is_furthest(t, root, nd, i);
        assert forall|j: int| 0 <= j < n implies #[trigger] s[j] == t[j] by {}
        if s[n].0.id != nd && depth_of(root, s[n].0.id) < depth_of(root, t[f].0.id) {
            assert(is_furthest(s, root, nd, n));
        } else {
            assert(is_furthest(s, root, nd, f));
        }
    } else {
        assert(is_furthest(s, root, nd, n));
    }
}

/// Eviction stops when the Flos fit in `max`, or when only `nd` is left; it only
/// removes Flos, and never `nd`.
pub proof fn lemma_evict(s: Seq<Stored>, root: U256, nd: U256, max: int)
    ensures
        total_size(evict(s, root, nd, max)) <= max || forall|i: int|
            0 <= i < evict(s, root, nd, max).len() ==> #[trigger] evict(s, root, nd, max)[i].0.id
                == nd,
        forall|i: int|
            0 <= i < evict(s, root, nd, max).len() ==> #[trigger] s.contains(
                evict(s, root, nd, max)[i],
            ),
        forall|j: int|
            0 <= j < s.len() && #[trigger] s[j].0.id == nd ==> evict(s, root, nd, max).contains(
                s[j],
            ),
    decreases s.len(),
{
    let e = evict(s, root, nd, max);
    if total_size(s) <= max {
        assert forall|i: int| 0 <= i < e.len() implies #[trigger] s.contains(e[i]) by {
            assert(s[i] == e[i]);
        }
        assert forall|j: int| 0 <= j < s.len() && #[trigger] s[j].0.id == nd implies e.contains(
            s[j],
        ) by {
            assert(e[j] == s[j]);
        }
    } else if exists|i: int| is_furthest(s, root, nd, i) {
        let c = choose|i: int| is_furthest(s, root, nd, i);
        let r = s.remove(c);
        lemma_evict(r, root, nd, max);
        assert(e == evict(r, root, nd, max));
        assert forall|i: int| 0 <= i < e.len() implies #[trigger] s.contains(e[i]) by {
            assert(r.contains(e[i]));
            let k = choose|k: int| 0 <= k < r.len() && r[k] == e[i];
            let k1 = if k < c { k } else { k + 1 };
            assert(s[k1] == r[k]);
        }
        assert forall|j: int| 0 <= j < s.len() && #[trigger] s[j].0.id == nd implies e.contains(
            s[j],
        ) by {
            let j1 = if j < c { j } else { j - 1 };
            assert(j != c);
            assert(r[j1] == s[j]);
            assert(r[j1].0.id == nd);
        }
    } else {
        assert forall|i: int| 0 <= i < e.len() implies #[trigger] e[i].0.id == nd by {
            if e[i].0.id != nd {
                lemma_furthest_exists(s, root, nd, i);
            }
        }
        assert forall|i: int| 0 <= i < e.len() implies #[trigger] s.contains(e[i]) by {
            assert(s[i] == e[i]);
        }
        assert forall|j: int| 0 <= j < s.len() && #[trigger] s[j].0.id == nd implies e.contains(
            s[j],
        ) by {
            assert(e[j] == s[j]);
        }
    }
}

/// A Flo that `upsert_flo` accepts is stored afterwards, without cuckoos, whatever
/// else had to be evicted.
pub proof fn lemma_upsert_keeps_flo(
    s: Seq<Stored>,
    root: U256,
    flo: FloRecord,
    bytes: Seq<u8>,
    max: int,
)
    requires
        replaces(linked(s, flo), flo),
    ensures
        evict(upserted(s, flo, bytes), root, flo.id, max).contains(
            (flo, Seq::<U256>::empty(), bytes),
        ),
{
    let u = upserted(s, flo, bytes);
    let n = u.len() - 1;
    assert(u[n] == (flo, Seq::<U256>::empty(), bytes));
    lemma_evict(u, root, flo.id, max);
    assert(u[n].0.id == flo.id);
}

/// Removing one Flo removes its size.
proof fn lemma_total_size_remove(s: Seq<Stored>, i: int)
    requires
        0 <= i < s.len(),
    ensures
        total_size(s.remove(i)) == total_size(s) - s[i].2.len(),
    decreases s.len(),
{
    if i == s.len() - 1 {
        assert(s.remove(i) =~= s.drop_last());
    } else {
        lemma_total_size_remove(s.drop_last(), i);
        assert(s.remove(i).drop_last() =~= s.drop_last().remove(i));
        assert(s.remove(i).last() == s.last());
    }
}

proof fn lemma_total_size_nonneg(s: Seq<Stored>)
    ensures
        total_size(s) >= 0,
    decreases s.len(),
{
    if s.len() > 0 {
        lemma_total_size_nonneg(s.drop_last());
    }
}

proof fn lemma_unique_remove(s: Seq<Stored>, i: int)
    requires
        unique_ids(s),
        0 <= i < s.len(),
    ensures
        unique_ids(s.remove(i)),
{
    let r = s.remove(i);
    assert forall|a: int, b: int|
        0 <= a < r.len() && 0 <= b < r.len() && #[trigger] r[a].0.id == #[trigger] r[b].0.id
        implies a == b by {
        let a1 = if a < i { a } else { a + 1 };
        let b1 = if b < i { b } else { b + 1 };
        assert(r[a] == s[a1]);
        assert(r[b] == s[b1]);
    }
}

/// Without a Flo, the storage keeps its other Flos, unique, and its size drops by
/// the removed Flo's size.
proof fn lemma_without_size(s: Seq<Stored>, id: U256)
    requires
        unique_ids(s),
    ensures
        unique_ids(without(s, id)),
        total_size(without(s, id)) <= total_size(s),
        total_size(without(s, id)) >= 0,
{
    lemma_total_size_nonneg(s);
    if stores(s, id) {
        let c = choose|k: int| 0 <= k < s.len() && #[trigger] s[k].0.id == id;
        lemma_total_size_remove(s, c);
        lemma_unique_remove(s, c);
        lemma_total_size_nonneg(s.remove(c));
    }
}

/// After removing a Flo, no Flo with its ID is left.
proof fn lemma_without_absent(s: Seq<Stored>, id: U256)
    requires
        unique_ids(s),
    ensures
        !stores(without(s, id), id),
        forall|i: int| 0 <= i < without(s, id).len() ==> #[trigger] without(s, id)[i].0.id != id,
{
    if stores(s, id) {
        let c = choose|k: int| 0 <= k < s.len() && #[trigger] s[k].0.id == id;
        let r = s.remove(c);
        assert forall|i: int| 0 <= i < r.len() implies #[trigger] r[i].0.id != id by {
            let i1 = if i < c { i } else { i + 1 };
            assert(r[i] == s[i1]);
        }
    }
}

/// Adds each of `cuckoos`, in turn, to the cuckoos of `parent`.
pub open spec fn with_cuckoos(s: Seq<Stored>, parent: U256, cuckoos: Seq<U256>) -> Seq<Stored>
    decreases cuckoos.len(),
{
    if cuckoos.len() == 0 {
        s
    } else {
        with_cuckoo(with_cuckoos(s, parent, cuckoos.drop_last()), parent, cuckoos.last())
    }
}

/// Each stored Flo with its cuckoos.
pub open spec fn all_flo_cuckoos(s: Seq<Stored>) -> Seq<((FloRecord, Seq<u8>), Seq<U256>)> {
    Seq::new(s.len(), |i: int| ((s[i].0, s[i].2), s[i].1))
}

impl RealmStorage {
    /// Records each of `cuckoos`, in turn, as linking to `parent`.
    pub fn store_cuckoo_ids(&mut self, parent: &U256, cuckoos: Vec<U256>)
        requires
            old(self).wf(),
        ensures
            final(self).wf(),
            final(self).view() == with_cuckoos(old(self).view(), *parent, cuckoos@),
            final(self).spec_root() == old(self).spec_root(),
            final(self).spec_config() == old(self).spec_config(),
            final(self).spec_realm_id() == old(self).spec_realm_id(),
    {
        let mut i: usize = 0;
        while i < cuckoos.len()
            invariant
                0 <= i <= cuckoos.len(),
                self.wf(),
                self.view() == with_cuckoos(old(self).view(), *parent, cuckoos@.take(i as int)),
                self.spec_root() == old(self).spec_root(),
                self.spec_config() == old(self).spec_config(),
                self.spec_realm_id() == old(self).spec_realm_id(),
            decreases cuckoos.len() - i,
        {
            proof {
                assert(cuckoos@.take(i + 1).drop_last() =~= cuckoos@.take(i as int));
            }
            self.store_cuckoo_id(parent, cuckoos[i]);
            i = i + 1;
        }
        proof {
            assert(cuckoos@.take(cuckoos.len() as int) =~= cuckoos@);
        }
    }

    /// All stored Flos with their cuckoos, in the order they were stored.
    pub fn get_all_flo_cuckoos(&self) -> (r: Vec<(FloEntry, Vec<U256>)>)
        ensures
            r@.len() == self.view().len(),
            forall|i: int|
                0 <= i < r@.len() ==> ((#[trigger] r@[i]).0@, r@[i].1@) == all_flo_cuckoos(
                    self.view(),
                )[i],
    {
        let mut r: Vec<(FloEntry, Vec<U256>)> = Vec::new();
        let mut i: usize = 0;
        while i < self.flos.len()
            invariant
                0 <= i <= self.flos.len(),
                r@.len() == i,
                forall|j: int|
                    0 <= j < i ==> ((#[trigger] r@[j]).0@, r@[j].1@) == all_flo_cuckoos(
                        self.view(),
                    )[j],
            decreases self.flos.len() - i,
        {
            let fs = &self.flos[i];
            let bytes = fs.bytes.clone();
            let cuckoos = fs.cuckoos.clone();
            proof {
                assert(bytes@ =~= fs.bytes@);
                assert(cuckoos@ =~= fs.cuckoos@);
            }
            r.push((FloEntry { record: fs.flo, bytes }, cuckoos));
            i = i + 1;
        }
        r
    }
}

/// A well-formed storage stores no Flo twice.
pub proof fn lemma_wf_unique(r: &RealmStorage)
    requires
        r.wf(),
    ensures
        unique_ids(r.view()),
        unique_cuckoos(r.view()),
{
}

/// Recording a cuckoo, storing a Flo and evicting Flos keep every Flo stored at
/// most once.
pub proof fn lemma_unique_upsert_evict(
    s: Seq<Stored>,
    flo: FloRecord,
    bytes: Seq<u8>,
    root: U256,
    max: int,
)
    requires
        unique_ids(s),
    ensures
        unique_ids(linked(s, flo)),
        unique_ids(upserted(s, flo, bytes)),
        unique_ids(evict(upserted(s, flo, bytes), root, flo.id, max)),
{
    let s1 = linked(s, flo);
    assert forall|i: int, j: int|
        0 <= i < s1.len() && 0 <= j < s1.len() && #[trigger] s1[i].0.id == #[trigger] s1[j].0.id
        implies i == j by {
        assert(s1[i].0 == s[i].0);
        assert(s1[j].0 == s[j].0);
    }
    if replaces(s1, flo) {
        let w = without(s1, flo.id);
        lemma_without_size(s1, flo.id);
        lemma_without_absent(s1, flo.id);
        let u = w.push((flo, Seq::<U256>::empty(), bytes));
        assert forall|i: int, j: int|
            0 <= i < u.len() && 0 <= j < u.len() && #[trigger] u[i].0.id == #[trigger] u[j].0.id
            implies i == j by {
            if i < w.len() && j == w.len() {
                assert(w[i].0.id == flo.id);
            } else if j < w.len() && i == w.len() {
                assert(w[j].0.id == flo.id);
            }
        }
    }
    lemma_unique_evict(upserted(s, flo, bytes), root, flo.id, max);
}

/// A storage within its space stays within it after an upsert of a Flo no larger
/// than a third of the space: eviction either brings it under the space, or leaves
/// only the new Flo.
pub proof fn lemma_upsert_within_space(
    s: Seq<Stored>,
    root: U256,
    flo: FloRecord,
    bytes: Seq<u8>,
    max: int,
)
    requires
        unique_ids(s),
        total_size(s) <= max,
        bytes.len() * 3 <= max,
    ensures
        total_size(evict(upserted(s, flo, bytes), root, flo.id, max)) <= max,
{
    let s1 = linked(s, flo);
    let u = upserted(s, flo, bytes);
    let e = evict(u, root, flo.id, max);
    lemma_unique_upsert_evict(s, flo, bytes, root, max);
    lemma_same_records_same_size(s, s1);
    if !replaces(s1, flo) {
        assert(u == s1);
        assert(total_size(u) <= max);
        assert(e == u);
    } else {
        lemma_evict(u, root, flo.id, max);
        if total_size(e) > max {
            if e.len() >= 2 {
                assert(e[0].0.id == e[1].0.id);
            }
            if e.len() == 1 {
                let n = u.len() - 1;
                assert(u[n] == (flo, Seq::<U256>::empty(), bytes));
                assert(u.contains(e[0]));
                let k = choose|k: int| 0 <= k < u.len() && u[k] == e[0];
                assert(u[k].0.id == u[n].0.id);
                assert(e.drop_last() =~= Seq::<Stored>::empty());
                assert(total_size(e.drop_last()) == 0);
                assert(total_size(e) == bytes.len());
                assert(false);
            }
            if e.len() == 0 {
                assert(total_size(e) == 0);
            }
        }
    }
}

/// Recording a cuckoo of a stored Flo lists it there, and every cuckoo list stays
/// without duplicates: the cuckoo is listed exactly once.
pub proof fn lemma_with_cuckoo_once(s: Seq<Stored>, parent: U256, cuckoo: U256)
    requires
        unique_cuckoos(s),
    ensures
        unique_cuckoos(with_cuckoo(s, parent, cuckoo)),
        forall|i: int|
            0 <= i < s.len() && #[trigger] s[i].0.id == parent ==> with_cuckoo(s, parent, cuckoo)[i].1.contains(cuckoo),
{
    let w = with_cuckoo(s, parent, cuckoo);
    assert forall|i: int| 0 <= i < w.len() implies (#[trigger] w[i]).1.no_duplicates() by {
        if s[i].0.id == parent && !s[i].1.contains(cuckoo) {
            let l = s[i].1;
            assert forall|a: int, b: int| 0 <= a < l.push(cuckoo).len() && 0 <= b < l.push(cuckoo).len() && a != b
                implies l.push(cuckoo)[a] != l.push(cuckoo)[b] by {
                if a == l.len() {
                    assert(l[b] != cuckoo);
                } else if b == l.len() {
                    assert(l[a] != cuckoo);
                }
            }
        }
    }
    assert forall|i: int| 0 <= i < s.len() && #[trigger] s[i].0.id == parent implies w[i].1.contains(cuckoo) by {
        let l = w[i].1;
        if !s[i].1.contains(cuckoo) {
            assert(l[l.len() - 1] == cuckoo);
        }
    }
}

/// Evicting Flos keeps every Flo stored at most once.
pub proof fn lemma_unique_evict(s: Seq<Stored>, root: U256, nd: U256, max: int)
    requires
        unique_ids(s),
    ensures
        unique_ids(evict(s, root, nd, max)),
    decreases s.len(),
{
    if total_size(s) <= max {
    } else if exists|i: int| is_furthest(s, root, nd, i) {
        let c = choose|i: int| is_furthest(s, root, nd, i);
        lemma_unique_remove(s, c);
        lemma_unique_evict(s.remove(c), root, nd, max);
    }
}

/// Two storages with the same records, cuckoos aside, have the same size.
proof fn lemma_same_records_same_size(a: Seq<Stored>, b: Seq<Stored>)
    requires
        a.len() == b.len(),
        forall|i: int| 0 <= i < a.len() ==> a[i].2 == b[i].2,
    ensures
        total_size(a) == total_size(b),
    decreases a.len(),
{
    if a.len() > 0 {
        lemma_same_records_same_size(a.drop_last(), b.drop_last());
    }
}

} // verus!
